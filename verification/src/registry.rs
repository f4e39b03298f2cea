use vstd::prelude::*;

verus! {

use crate::assoc::assoc_map;
use crate::assoc::find_key;
use crate::assoc::keyed_views;
use crate::assoc::keys_unique;
use crate::assoc::lemma_assoc_map_absent;
use crate::assoc::lemma_assoc_map_dom;
use crate::assoc::lemma_assoc_map_index;
use crate::assoc::lemma_assoc_map_update_at;
use crate::assoc::views_of;
use crate::errors::ListerError;
use crate::lister::checkout_rel;
use crate::lister::commit_allowed;
use crate::lister::commit_rel;
use crate::lister::reclaim_rel;
use crate::lister::FileLister;

/// The registry: one pool per category, built once at startup. The
/// category set never changes afterwards; the pools behind it do. A
/// caller that needs the operations to exclude one another wraps the
/// whole registry in one lock.
pub struct Registry {
    cats: Vec<(String, FileLister)>,
}

impl Registry {
    /// The map from category name to its pool.
    pub closed spec fn cat_map(self) -> Map<Seq<char>, FileLister> {
        assoc_map(keyed_views(self.cats@))
    }

    /// The representation invariant: category names are unique.
    pub closed spec fn inv(self) -> bool {
        keys_unique(keyed_views(self.cats@))
    }

    /// Well-formedness: every registered pool is well-formed.
    pub open spec fn wf(self) -> bool {
        &&& self.inv()
        &&& forall|k: Seq<char>|
            #[trigger] self.cat_map().dom().contains(k) ==> self.cat_map()[k].wf()
    }

    /// The registry-level bookkeeping shared by the mutating
    /// operations: replacing one category's pool updates the category
    /// map at that key and nowhere else.
    proof fn lemma_registry_update(
        self,
        pre: Registry,
        cats0: Seq<(String, FileLister)>,
        i: int,
        k: Seq<char>,
        pool: FileLister,
    )
        requires
            pre.wf(),
            pre.cats@ == cats0,
            0 <= i < cats0.len(),
            keyed_views(cats0)[i].0 == k,
            self.cats@ == cats0.remove(i).insert(i, (cats0[i].0, pool)),
            pool.wf(),
        ensures
            self.wf(),
            self.cat_map() == pre.cat_map().insert(k, pool),
            self.cat_map().dom() == pre.cat_map().dom(),
            self.cat_map()[k] == pool,
            forall|k2: Seq<char>|
                k2 != k && #[trigger] pre.cat_map().dom().contains(k2) ==> self.cat_map()[k2]
                    == pre.cat_map()[k2],
    {
        assert(keyed_views(self.cats@) =~= keyed_views(cats0).remove(i).insert(i, (k, pool)));
        lemma_assoc_map_update_at(keyed_views(cats0), i, pool);
        assert(self.cat_map() == pre.cat_map().insert(k, pool));
        lemma_assoc_map_index(keyed_views(cats0), i);
        assert(pre.cat_map().dom().contains(k));
        assert(self.cat_map().dom() =~= pre.cat_map().dom());
        assert forall|k2: Seq<char>| #[trigger] self.cat_map().dom().contains(k2) implies self
            .cat_map()[k2].wf() by {
            if k2 != k {
                assert(self.cat_map()[k2] == pre.cat_map()[k2]);
            }
        }
    }

    /// Reclamation for one category's pool: expired leases go back to
    /// that pool's available items. Reports `UnknownCategory` for a
    /// name that was never registered.
    pub fn reclaim(&mut self, category: &String, now: u64) -> (r: Result<(), ListerError>)
        requires
            old(self).wf(),
        ensures
            final(self).wf(),
            final(self).cat_map().dom() == old(self).cat_map().dom(),
            forall|k: Seq<char>|
                k != category@ && #[trigger] old(self).cat_map().dom().contains(k) ==> final(self).cat_map()[k] == old(self).cat_map()[k],
            !old(self).cat_map().dom().contains(category@) ==> r == Err::<(), ListerError>(
                ListerError::UnknownCategory,
            ) && final(self).cat_map() == old(self).cat_map(),
            old(self).cat_map().dom().contains(category@) ==> r == Ok::<(), ListerError>(())
                && reclaim_rel(
                old(self).cat_map()[category@],
                now,
                final(self).cat_map()[category@],
            ),
    {
        let i = match find_key(&self.cats, category) {
            None => {
                proof {
                    lemma_assoc_map_absent(keyed_views(self.cats@), category@);
                }
                return Err(ListerError::UnknownCategory);
            },
            Some(i) => i,
        };
        let ghost cats0 = self.cats@;
        proof {
            assert(keyed_views(cats0)[i as int].0 == category@);
            lemma_assoc_map_index(keyed_views(cats0), i as int);
        }
        let (cname, mut pool) = self.cats.remove(i);
        proof {
            assert(pool == old(self).cat_map()[category@]);
        }
        pool.clean(now);
        self.cats.insert(i, (cname, pool));
        proof {
            self.lemma_registry_update(*old(self), cats0, i as int, category@, pool);
        }
        Ok(())
    }

    /// Checkout from one category's pool: one available item leaves the
    /// pool, leased at `now`, and comes back with its fresh token.
    /// Reports `UnknownCategory` for a name that was never registered
    /// and `PoolExhausted` when the category has nothing left.
    pub fn checkout(&mut self, category: &String, now: u64) -> (r: Result<
        (String, String),
        ListerError,
    >)
        requires
            old(self).wf(),
        ensures
            final(self).wf(),
            final(self).cat_map().dom() == old(self).cat_map().dom(),
            forall|k: Seq<char>|
                k != category@ && #[trigger] old(self).cat_map().dom().contains(k) ==> final(self).cat_map()[k] == old(self).cat_map()[k],
            !old(self).cat_map().dom().contains(category@) ==> r == Err::<
                (String, String),
                ListerError,
            >(ListerError::UnknownCategory) && final(self).cat_map() == old(self).cat_map(),
            old(self).cat_map().dom().contains(category@) ==> checkout_rel(
                old(self).cat_map()[category@],
                now,
                final(self).cat_map()[category@],
                r,
            ),
    {
        let i = match find_key(&self.cats, category) {
            None => {
                proof {
                    lemma_assoc_map_absent(keyed_views(self.cats@), category@);
                }
                return Err(ListerError::UnknownCategory);
            },
            Some(i) => i,
        };
        let ghost cats0 = self.cats@;
        proof {
            assert(keyed_views(cats0)[i as int].0 == category@);
            lemma_assoc_map_index(keyed_views(cats0), i as int);
        }
        let (cname, mut pool) = self.cats.remove(i);
        proof {
            assert(pool == old(self).cat_map()[category@]);
        }
        let r = pool.get_file(now);
        self.cats.insert(i, (cname, pool));
        proof {
            self.lemma_registry_update(*old(self), cats0, i as int, category@, pool);
        }
        r
    }

    /// Token validation for one item of one category, with no state
    /// change: reports the result that a commit with the same inputs
    /// would report.
    pub fn check_token(&self, category: &String, item: &String, token: &String) -> (r: Result<
        (),
        ListerError,
    >)
        requires
            self.wf(),
        ensures
            !self.cat_map().dom().contains(category@) ==> r == Err::<(), ListerError>(
                ListerError::UnknownCategory,
            ),
            self.cat_map().dom().contains(category@) ==> {
                ||| (r == Ok::<(), ListerError>(()) && commit_allowed(
                    self.cat_map()[category@],
                    item@,
                    token@,
                ))
                ||| (r == Err::<(), ListerError>(ListerError::ItemNotLeased) && !self.cat_map()[category@].token_map().dom().contains(item@))
                ||| (r == Err::<(), ListerError>(ListerError::TokenMismatch)
                    && self.cat_map()[category@].token_map().dom().contains(item@)
                    && self.cat_map()[category@].token_map()[item@] != token@)
            },
    {
        let i = match find_key(&self.cats, category) {
            None => {
                proof {
                    lemma_assoc_map_absent(keyed_views(self.cats@), category@);
                }
                return Err(ListerError::UnknownCategory);
            },
            Some(i) => i,
        };
        proof {
            assert(keyed_views(self.cats@)[i as int].0 == category@);
            lemma_assoc_map_index(keyed_views(self.cats@), i as int);
            assert(self.cat_map().dom().contains(category@));
            assert(self.cat_map()[category@] == self.cats@[i as int].1);
            assert(self.cats@[i as int].1.wf());
        }
        self.cats[i].1.check_token(item, token)
    }

    /// Commit bookkeeping for one item of one category: exactly with
    /// the matching token the item's lease and token are cleared. The
    /// caller relocates the item's backing file first and calls this
    /// once the relocation has succeeded; on any error nothing has
    /// changed.
    pub fn commit(&mut self, category: &String, item: &String, token: &String) -> (r: Result<
        (),
        ListerError,
    >)
        requires
            old(self).wf(),
        ensures
            final(self).wf(),
            final(self).cat_map().dom() == old(self).cat_map().dom(),
            forall|k: Seq<char>|
                k != category@ && #[trigger] old(self).cat_map().dom().contains(k) ==> final(self).cat_map()[k] == old(self).cat_map()[k],
            !old(self).cat_map().dom().contains(category@) ==> r == Err::<(), ListerError>(
                ListerError::UnknownCategory,
            ) && final(self).cat_map() == old(self).cat_map(),
            old(self).cat_map().dom().contains(category@) ==> commit_rel(
                old(self).cat_map()[category@],
                item@,
                token@,
                final(self).cat_map()[category@],
                r,
            ),
    {
        let i = match find_key(&self.cats, category) {
            None => {
                proof {
                    lemma_assoc_map_absent(keyed_views(self.cats@), category@);
                }
                return Err(ListerError::UnknownCategory);
            },
            Some(i) => i,
        };
        let ghost cats0 = self.cats@;
        proof {
            assert(keyed_views(cats0)[i as int].0 == category@);
            lemma_assoc_map_index(keyed_views(cats0), i as int);
        }
        let (cname, mut pool) = self.cats.remove(i);
        proof {
            assert(pool == old(self).cat_map()[category@]);
        }
        let r = pool.move_file_and_remove(token, item);
        self.cats.insert(i, (cname, pool));
        proof {
            self.lemma_registry_update(*old(self), cats0, i as int, category@, pool);
        }
        r
    }

    /// The registered category names, in registry order: every
    /// registered name exactly once.
    pub fn categories(&self) -> (r: Vec<String>)
        requires
            self.wf(),
        ensures
            views_of(r@).no_duplicates(),
            forall|k: Seq<char>|
                #[trigger] views_of(r@).contains(k) <==> self.cat_map().dom().contains(k),
    {
        let mut r: Vec<String> = Vec::new();
        let mut i: usize = 0;
        while i < self.cats.len()
            invariant
                i <= self.cats@.len(),
                r@.len() == i,
                forall|j: int|
                    0 <= j < i ==> (#[trigger] r@[j])@ == keyed_views(self.cats@)[j].0,
            decreases self.cats@.len() - i,
        {
            let name = self.cats[i].0.clone();
            r.push(name);
            i = i + 1;
        }
        proof {
            assert forall|a: int, b: int|
                0 <= a < b < views_of(r@).len() implies views_of(r@)[a] != views_of(r@)[b] by {
                assert(views_of(r@)[a] == keyed_views(self.cats@)[a].0);
                assert(views_of(r@)[b] == keyed_views(self.cats@)[b].0);
            }
            assert forall|k: Seq<char>|
                #[trigger] views_of(r@).contains(k) <==> self.cat_map().dom().contains(k) by {
                lemma_assoc_map_dom(keyed_views(self.cats@), k);
                if views_of(r@).contains(k) {
                    let j = choose|j: int| 0 <= j < views_of(r@).len() && views_of(r@)[j] == k;
                    assert(r@[j]@ == k);
                    assert(keyed_views(self.cats@)[j].0 == k);
                }
                if self.cat_map().dom().contains(k) {
                    let j = choose|j: int|
                        0 <= j < keyed_views(self.cats@).len() && (#[trigger] keyed_views(
                            self.cats@,
                        )[j]).0 == k;
                    assert(views_of(r@)[j] == k);
                }
            }
        }
        r
    }
}

/// Builds the registry from scanned directory contents: one freshly
/// shuffled pool per category, all sharing one lease window, every
/// pool without leases or tokens.
pub fn init_map(subdirs: Vec<(String, Vec<String>)>, timeout: u64) -> (r: Registry)
    requires
        forall|a: int, b: int|
            0 <= a < b < subdirs@.len() ==> (#[trigger] subdirs@[a]).0@ != (
            #[trigger] subdirs@[b]).0@,
        forall|i: int|
            0 <= i < subdirs@.len() ==> views_of((#[trigger] subdirs@[i]).1@).no_duplicates(),
    ensures
        r.wf(),
        forall|i: int|
            0 <= i < subdirs@.len() ==> r.cat_map().dom().contains((#[trigger] subdirs@[i]).0@),
        forall|i: int|
            0 <= i < subdirs@.len() ==> (#[trigger] r.cat_map()[subdirs@[i].0@]).avail()
                .to_multiset() == views_of(subdirs@[i].1@).to_multiset(),
        forall|i: int|
            0 <= i < subdirs@.len() ==> (#[trigger] r.cat_map()[subdirs@[i].0@]).avail().len()
                == subdirs@[i].1@.len(),
        forall|i: int|
            0 <= i < subdirs@.len() ==> (#[trigger] r.cat_map()[subdirs@[i].0@]).lease_map()
                == Map::<Seq<char>, u64>::empty(),
        forall|i: int|
            0 <= i < subdirs@.len() ==> (#[trigger] r.cat_map()[subdirs@[i].0@]).token_map()
                == Map::<Seq<char>, Seq<char>>::empty(),
        forall|i: int|
            0 <= i < subdirs@.len() ==> (#[trigger] r.cat_map()[subdirs@[i].0@]).lease_timeout()
                == timeout,
        forall|k: Seq<char>|
            #[trigger] r.cat_map().dom().contains(k) ==> exists|i: int|
                0 <= i < subdirs@.len() && (#[trigger] subdirs@[i]).0@ == k,
{
    let ghost dirs0 = subdirs@;
    let mut rest = subdirs;
    let mut cats: Vec<(String, FileLister)> = Vec::new();
    while rest.len() > 0
        invariant
            rest@.len() <= dirs0.len(),
            rest@ == dirs0.skip(dirs0.len() - rest@.len()),
            cats@.len() == dirs0.len() - rest@.len(),
            forall|j: int| 0 <= j < cats@.len() ==> (#[trigger] cats@[j]).0 == dirs0[j].0,
            forall|j: int|
                0 <= j < cats@.len() ==> (#[trigger] cats@[j]).1.wf() && cats@[j].1.avail()
                    .to_multiset() == views_of(dirs0[j].1@).to_multiset() && cats@[j].1.avail().len()
                    == dirs0[j].1@.len() && cats@[j].1.lease_map() == Map::<
                    Seq<char>,
                    u64,
                >::empty() && cats@[j].1.token_map() == Map::<Seq<char>, Seq<char>>::empty()
                    && cats@[j].1.lease_timeout() == timeout,
            forall|a: int, b: int|
                0 <= a < b < dirs0.len() ==> (#[trigger] dirs0[a]).0@ != (#[trigger] dirs0[b]).0@,
            forall|i: int| 0 <= i < dirs0.len() ==> views_of((#[trigger] dirs0[i]).1@).no_duplicates(),
        decreases rest@.len(),
    {
        let ghost n_done = dirs0.len() - rest@.len();
        let ghost rest0 = rest@;
        let (name, items) = rest.remove(0);
        proof {
            assert(rest0[0] == dirs0[n_done as int]);
            assert(rest@ =~= dirs0.skip(n_done + 1));
        }
        let pool = FileLister::new(items, timeout);
        cats.push((name, pool));
    }
    let r = Registry { cats };
    proof {
        let cv = keyed_views(r.cats@);
        assert forall|a: int, b: int| 0 <= a < b < cv.len() implies cv[a].0 != cv[b].0 by {
            assert(cv[a].0 == dirs0[a].0@);
            assert(cv[b].0 == dirs0[b].0@);
        }
        assert forall|i: int|
            0 <= i < dirs0.len() implies r.cat_map().dom().contains((#[trigger] dirs0[i]).0@)
                && r.cat_map()[dirs0[i].0@] == r.cats@[i].1 by {
            assert(cv[i].0 == dirs0[i].0@);
            lemma_assoc_map_index(cv, i);
        }
        assert forall|k: Seq<char>| #[trigger] r.cat_map().dom().contains(k) implies exists|i: int|
            0 <= i < dirs0.len() && (#[trigger] dirs0[i]).0@ == k by {
            lemma_assoc_map_dom(cv, k);
            let j = choose|j: int| 0 <= j < cv.len() && (#[trigger] cv[j]).0 == k;
            assert(dirs0[j].0@ == k);
        }
        assert forall|k: Seq<char>| #[trigger] r.cat_map().dom().contains(k) implies r.cat_map()[k].wf() by {
            lemma_assoc_map_dom(cv, k);
            let j = choose|j: int| 0 <= j < cv.len() && (#[trigger] cv[j]).0 == k;
            lemma_assoc_map_index(cv, j);
        }
    }
    r
}

} // verus!
