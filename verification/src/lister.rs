use vstd::prelude::*;

verus! {

use vstd::seq_lib::*;
use crate::assoc::assoc_map;
use crate::assoc::find_key;
use crate::assoc::keyed_views;
use crate::assoc::keys_unique;
use crate::assoc::lemma_assoc_map_absent;
use crate::assoc::lemma_assoc_map_dom;
use crate::assoc::lemma_assoc_map_index;
use crate::assoc::lemma_assoc_map_push;
use crate::assoc::lemma_assoc_map_remove;
use crate::assoc::tok_views;
use crate::assoc::views_of;
use crate::errors::ListerError;

/// One pool of work items. `files` is the sequence of items available
/// for checkout; `lock_acq` maps a leased item to the time its lease
/// was issued; `security` maps an item to the most recently minted
/// authorization token for it; `timeout` is the lease window in
/// seconds.
///
/// Both maps are kept as association vectors with unique keys, so that
/// every operation has an exact, provable effect on the abstract maps.
pub struct FileLister {
    files: Vec<String>,
    lock_acq: Vec<(String, u64)>,
    security: Vec<(String, String)>,
    timeout: u64,
}

/// A lease issued at `t` has expired at `now` under window `timeout`.
/// Expiry is strict: at `t + timeout` itself the lease still stands.
pub open spec fn expired(t: u64, now: u64, timeout: u64) -> bool {
    now > t + timeout
}

/// What checkout does: with nothing available it reports exhaustion and
/// changes nothing; otherwise it hands out the last available item,
/// leases it at `now`, and stores the returned token for it.
pub open spec fn checkout_rel(
    pre: FileLister,
    now: u64,
    post: FileLister,
    r: Result<(String, String), ListerError>,
) -> bool {
    if pre.avail().len() == 0 {
        &&& r == Err::<(String, String), ListerError>(ListerError::PoolExhausted)
        &&& post.avail() == pre.avail()
        &&& post.lease_map() == pre.lease_map()
        &&& post.token_map() == pre.token_map()
        &&& post.lease_timeout() == pre.lease_timeout()
    } else {
        &&& r is Ok
        &&& r->Ok_0.0@ == pre.avail().last()
        &&& post.avail() == pre.avail().drop_last()
        &&& post.lease_map() == pre.lease_map().insert(r->Ok_0.0@, now)
        &&& post.token_map() == pre.token_map().insert(r->Ok_0.0@, r->Ok_0.1@)
        &&& post.lease_timeout() == pre.lease_timeout()
    }
}

/// What reclamation does: leases older than the window are dropped and
/// their items appended to the available sequence; younger leases and
/// all tokens are untouched.
pub open spec fn reclaim_rel(pre: FileLister, now: u64, post: FileLister) -> bool {
    &&& post.lease_timeout() == pre.lease_timeout()
    &&& post.token_map() == pre.token_map()
    &&& forall|k: Seq<char>|
        #[trigger] post.lease_map().dom().contains(k) <==> (pre.lease_map().dom().contains(k)
            && !expired(pre.lease_map()[k], now, pre.lease_timeout()))
    &&& forall|k: Seq<char>|
        #[trigger] post.lease_map().dom().contains(k) ==> post.lease_map()[k]
            == pre.lease_map()[k]
    &&& pre.avail().is_prefix_of(post.avail())
    &&& forall|k: Seq<char>|
        #[trigger] post.avail().contains(k) <==> (pre.avail().contains(k) || (
        pre.lease_map().dom().contains(k) && expired(pre.lease_map()[k], now, pre.lease_timeout())))
}

/// The stored token for `item` is exactly `token`, so a commit of
/// `item` with `token` must succeed.
pub open spec fn commit_allowed(pre: FileLister, item: Seq<char>, token: Seq<char>) -> bool {
    pre.token_map().dom().contains(item) && pre.token_map()[item] == token
}

/// What commit does to the bookkeeping: with no stored token it reports
/// the item as not leased; with a different stored token it reports a
/// mismatch; in both cases it changes nothing. With the matching token
/// it drops the item's lease and token and leaves the available
/// sequence alone.
pub open spec fn commit_rel(
    pre: FileLister,
    item: Seq<char>,
    token: Seq<char>,
    post: FileLister,
    r: Result<(), ListerError>,
) -> bool {
    &&& post.lease_timeout() == pre.lease_timeout()
    &&& if !pre.token_map().dom().contains(item) {
        &&& r == Err::<(), ListerError>(ListerError::ItemNotLeased)
        &&& post.avail() == pre.avail()
        &&& post.lease_map() == pre.lease_map()
        &&& post.token_map() == pre.token_map()
    } else if pre.token_map()[item] != token {
        &&& r == Err::<(), ListerError>(ListerError::TokenMismatch)
        &&& post.avail() == pre.avail()
        &&& post.lease_map() == pre.lease_map()
        &&& post.token_map() == pre.token_map()
    } else {
        &&& r == Ok::<(), ListerError>(())
        &&& post.avail() == pre.avail()
        &&& post.lease_map() == pre.lease_map().remove(item)
        &&& post.token_map() == pre.token_map().remove(item)
    }
}

impl FileLister {
    /// The items currently available for checkout, in hand-out order
    /// (checkout takes the last).
    pub closed spec fn avail(self) -> Seq<Seq<char>> {
        views_of(self.files@)
    }

    /// The lease map: each leased item with the time its lease was
    /// issued.
    pub closed spec fn lease_map(self) -> Map<Seq<char>, u64> {
        assoc_map(keyed_views(self.lock_acq@))
    }

    /// The token map: each item with the token that authorizes its
    /// commit.
    pub closed spec fn token_map(self) -> Map<Seq<char>, Seq<char>> {
        assoc_map(tok_views(self.security@))
    }

    /// The lease window: a lease issued at `t` expires once the current
    /// time passes `t + lease_timeout()`.
    pub closed spec fn lease_timeout(self) -> u64 {
        self.timeout
    }

    /// The representation invariant: neither association sequence
    /// repeats a key.
    pub closed spec fn inv(self) -> bool {
        &&& keys_unique(keyed_views(self.lock_acq@))
        &&& keys_unique(tok_views(self.security@))
    }

    /// Well-formedness. An item is available or leased, never both; no
    /// item is available twice; and every leased item holds a token.
    pub open spec fn wf(self) -> bool {
        &&& self.inv()
        &&& self.avail().no_duplicates()
        &&& forall|x: Seq<char>| self.avail().contains(x) ==> !self.lease_map().dom().contains(x)
        &&& forall|k: Seq<char>| self.lease_map().dom().contains(k)
            ==> self.token_map().dom().contains(k)
    }

    /// Builds a pool over the given item names: the available sequence
    /// is a uniformly random permutation of them, and no lease or token
    /// exists yet.
    pub fn new(names: Vec<String>, timeout: u64) -> (r: FileLister)
        requires
            views_of(names@).no_duplicates(),
        ensures
            r.wf(),
            r.avail().to_multiset() == views_of(names@).to_multiset(),
            r.avail().len() == names@.len(),
            r.lease_map() == Map::<Seq<char>, u64>::empty(),
            r.token_map() == Map::<Seq<char>, Seq<char>>::empty(),
            r.lease_timeout() == timeout,
    {
        let mut files = names;
        shuffle(&mut files);
        proof {
            lemma_permutation_no_duplicates(views_of(files@), views_of(names@));
        }
        FileLister { files, lock_acq: Vec::new(), security: Vec::new(), timeout }
    }

    /// Checkout: removes the last available item, stamps its lease with
    /// `now`, mints a fresh authorization token (overwriting any stale
    /// one), and returns the item with the token. Reports
    /// `PoolExhausted` when nothing is available.
    pub fn get_file(&mut self, now: u64) -> (r: Result<(String, String), ListerError>)
        requires
            old(self).wf(),
        ensures
            final(self).wf(),
            checkout_rel(*old(self), now, *final(self), r),
    {
        if self.files.len() == 0 {
            return Err(ListerError::PoolExhausted);
        }
        let name = self.files.pop().unwrap();
        let tok = fresh_token();
        proof {
            assert(views_of(self.files@) =~= old(self).avail().drop_last());
            assert(name@ == old(self).avail().last());
            assert(old(self).avail()[old(self).avail().len() - 1] == name@);
            assert(old(self).avail().contains(name@));
            lemma_assoc_map_dom(keyed_views(self.lock_acq@), name@);
        }
        self.lock_acq.push((name.clone(), now));
        proof {
            let lock0 = keyed_views(old(self).lock_acq@);
            assert(keyed_views(self.lock_acq@) =~= lock0.push((name@, now)));
            lemma_assoc_map_push(lock0, (name@, now));
            assert(self.lease_map() == old(self).lease_map().insert(name@, now));
            assert forall|a: int, b: int|
                0 <= a < b < keyed_views(self.lock_acq@).len() implies keyed_views(
                self.lock_acq@,
            )[a].0 != keyed_views(self.lock_acq@)[b].0 by {
                if b < lock0.len() {
                    assert(keyed_views(self.lock_acq@)[a] == lock0[a]);
                    assert(keyed_views(self.lock_acq@)[b] == lock0[b]);
                } else {
                    assert(keyed_views(self.lock_acq@)[a] == lock0[a]);
                    assert(lock0[a].0 != name@);
                }
            }
        }
        let ghost sec0 = self.security@;
        match find_key(&self.security, &name) {
            Some(i) => {
                proof {
                    assert(tok_views(sec0)[i as int].0 == name@);
                    lemma_assoc_map_remove(tok_views(sec0), i as int);
                }
                let _ = self.security.remove(i);
                proof {
                    assert(tok_views(self.security@) =~= tok_views(sec0).remove(i as int));
                    assert(self.token_map() == old(self).token_map().remove(name@));
                    assert(!self.token_map().dom().contains(name@));
                }
            },
            None => {
                proof {
                    lemma_assoc_map_absent(tok_views(sec0), name@);
                    assert(!self.token_map().dom().contains(name@));
                }
            },
        }
        let ghost mid = *self;
        proof {
            lemma_assoc_map_dom(tok_views(mid.security@), name@);
        }
        self.security.push((name.clone(), tok.clone()));
        proof {
            let msec = tok_views(mid.security@);
            assert(tok_views(self.security@) =~= msec.push((name@, tok@)));
            lemma_assoc_map_push(msec, (name@, tok@));
            assert(self.token_map() =~= old(self).token_map().insert(name@, tok@));
            assert forall|a: int, b: int|
                0 <= a < b < tok_views(self.security@).len() implies tok_views(
                self.security@,
            )[a].0 != tok_views(self.security@)[b].0 by {
                if b < msec.len() {
                    assert(tok_views(self.security@)[a] == msec[a]);
                    assert(tok_views(self.security@)[b] == msec[b]);
                } else {
                    assert(tok_views(self.security@)[a] == msec[a]);
                    assert(msec[a].0 != name@);
                }
            }
            self.lemma_checkout_wf(*old(self), name@, tok@, now);
        }
        Ok((name, tok))
    }

    /// The well-formedness bookkeeping of a checkout, shared by the
    /// proof above.
    proof fn lemma_checkout_wf(self, pre: FileLister, item: Seq<char>, tokv: Seq<char>, now: u64)
        requires
            pre.wf(),
            pre.avail().len() > 0,
            item == pre.avail().last(),
            self.avail() == pre.avail().drop_last(),
            self.lease_map() == pre.lease_map().insert(item, now),
            self.token_map() == pre.token_map().insert(item, tokv),
            self.inv(),
        ensures
            self.wf(),
    {
        assert forall|a: int, b: int|
            0 <= a < b < self.avail().len() implies self.avail()[a] != self.avail()[b] by {
            assert(pre.avail()[a] == self.avail()[a]);
            assert(pre.avail()[b] == self.avail()[b]);
        }
        assert forall|x: Seq<char>| self.avail().contains(x) implies !self.lease_map().dom()
            .contains(x) by {
            let i = choose|i: int| 0 <= i < self.avail().len() && self.avail()[i] == x;
            assert(pre.avail()[i] == x);
            assert(pre.avail().contains(x));
            if x == item {
                assert(pre.avail()[pre.avail().len() - 1] == item);
                assert(false);
            }
        }
    }

    /// Reclamation: every lease older than the window at `now` is
    /// dropped and its item appended back to the available sequence;
    /// younger leases are untouched. Tokens are deliberately left in
    /// place: a token issued before reclamation keeps authorizing a
    /// commit on its item until a later checkout overwrites it.
    pub fn clean(&mut self, now: u64)
        requires
            old(self).wf(),
        ensures
            final(self).wf(),
            reclaim_rel(*old(self), now, *final(self)),
    {
        let ghost pre = *old(self);
        let mut kept: Vec<(String, u64)> = Vec::new();
        let mut i: usize = 0;
        while i < self.lock_acq.len()
            invariant
                i <= self.lock_acq@.len(),
                self.lock_acq@ == pre.lock_acq@,
                self.security@ == pre.security@,
                self.timeout == pre.timeout,
                keyed_views(kept@) == unexpired_of(
                    keyed_views(pre.lock_acq@).take(i as int),
                    now,
                    pre.timeout,
                ),
                views_of(self.files@) == pre.avail() + reclaimed_of(
                    keyed_views(pre.lock_acq@).take(i as int),
                    now,
                    pre.timeout,
                ),
            decreases self.lock_acq@.len() - i,
        {
            let ghost lockv = keyed_views(pre.lock_acq@);
            proof {
                assert(lockv.take(i + 1).drop_last() =~= lockv.take(i as int));
                assert(lockv.take(i + 1).last() == lockv[i as int]);
            }
            let t = self.lock_acq[i].1;
            let name = self.lock_acq[i].0.clone();
            proof {
                assert(name@ == lockv[i as int].0);
                assert(t == lockv[i as int].1);
            }
            if t <= now && now - t > self.timeout {
                proof {
                    assert(expired(lockv[i as int].1, now, pre.timeout));
                }
                let ghost files0 = self.files@;
                self.files.push(name);
                proof {
                    assert(reclaimed_of(lockv.take(i + 1), now, pre.timeout) == reclaimed_of(
                        lockv.take(i as int),
                        now,
                        pre.timeout,
                    ).push(name@));
                    assert(self.files@ == files0.push(name));
                    assert(views_of(self.files@) =~= views_of(files0).push(name@));
                    assert(views_of(files0) == pre.avail() + reclaimed_of(
                        lockv.take(i as int),
                        now,
                        pre.timeout,
                    ));
                    assert(views_of(self.files@) =~= pre.avail() + reclaimed_of(
                        lockv.take(i + 1),
                        now,
                        pre.timeout,
                    ));
                }
            } else {
                proof {
                    assert(!expired(lockv[i as int].1, now, pre.timeout));
                }
                kept.push((name, t));
                proof {
                    assert(keyed_views(kept@) =~= unexpired_of(
                        lockv.take(i + 1),
                        now,
                        pre.timeout,
                    ));
                }
            }
            i = i + 1;
        }
        proof {
            assert(keyed_views(pre.lock_acq@).take(keyed_views(pre.lock_acq@).len() as int)
                =~= keyed_views(pre.lock_acq@));
        }
        self.lock_acq = kept;
        proof {
            lemma_reclaim_split(keyed_views(pre.lock_acq@), now, pre.timeout);
            self.lemma_reclaim_wf(pre, now);
        }
    }

    /// The well-formedness bookkeeping of a reclamation, shared by the
    /// proof above.
    proof fn lemma_reclaim_wf(self, pre: FileLister, now: u64)
        requires
            pre.wf(),
            self.inv(),
            self.lease_timeout() == pre.lease_timeout(),
            self.token_map() == pre.token_map(),
            self.avail() == pre.avail() + reclaimed_of(
                keyed_views(pre.lock_acq@),
                now,
                pre.timeout,
            ),
            reclaimed_of(keyed_views(pre.lock_acq@), now, pre.timeout).no_duplicates(),
            forall|k: Seq<char>|
                #[trigger] reclaimed_of(keyed_views(pre.lock_acq@), now, pre.timeout).contains(k)
                    <==> (pre.lease_map().dom().contains(k) && expired(
                    pre.lease_map()[k],
                    now,
                    pre.timeout,
                )),
            forall|k: Seq<char>|
                #[trigger] self.lease_map().dom().contains(k) <==> (pre.lease_map().dom().contains(
                    k,
                ) && !expired(pre.lease_map()[k], now, pre.timeout)),
            forall|k: Seq<char>|
                #[trigger] self.lease_map().dom().contains(k) ==> self.lease_map()[k]
                    == pre.lease_map()[k],
        ensures
            self.wf(),
            reclaim_rel(pre, now, self),
    {
        let rec = reclaimed_of(keyed_views(pre.lock_acq@), now, pre.timeout);
        let n = pre.avail().len() as int;
        assert(pre.avail().is_prefix_of(self.avail())) by {
            assert(self.avail().subrange(0, n) =~= pre.avail());
        }
        assert forall|k: Seq<char>| #[trigger] self.avail().contains(k) implies (pre.avail()
            .contains(k) || rec.contains(k)) by {
            let i = choose|i: int| 0 <= i < self.avail().len() && self.avail()[i] == k;
            if i < n {
                assert(pre.avail()[i] == k);
            } else {
                assert(rec[i - n] == k);
            }
        }
        assert forall|k: Seq<char>| pre.avail().contains(k) implies self.avail().contains(k) by {
            let i = choose|i: int| 0 <= i < pre.avail().len() && pre.avail()[i] == k;
            assert(self.avail()[i] == k);
        }
        assert forall|k: Seq<char>| rec.contains(k) implies self.avail().contains(k) by {
            let i = choose|i: int| 0 <= i < rec.len() && rec[i] == k;
            assert(self.avail()[n + i] == k);
        }
        assert forall|k: Seq<char>|
            #[trigger] self.avail().contains(k) <==> (pre.avail().contains(k) || (
            pre.lease_map().dom().contains(k) && expired(
                pre.lease_map()[k],
                now,
                pre.timeout,
            ))) by {
            assert(rec.contains(k) <==> (pre.lease_map().dom().contains(k) && expired(
                pre.lease_map()[k],
                now,
                pre.timeout,
            )));
        }
        assert forall|a: int, b: int|
            0 <= a < b < self.avail().len() implies self.avail()[a] != self.avail()[b] by {
            if b < n {
                assert(pre.avail()[a] == self.avail()[a]);
                assert(pre.avail()[b] == self.avail()[b]);
            } else if a >= n {
                assert(rec[a - n] == self.avail()[a]);
                assert(rec[b - n] == self.avail()[b]);
            } else {
                assert(pre.avail()[a] == self.avail()[a]);
                assert(pre.avail().contains(self.avail()[a]));
                assert(rec[b - n] == self.avail()[b]);
                assert(rec.contains(self.avail()[b]));
            }
        }
        assert forall|x: Seq<char>| self.avail().contains(x) implies !self.lease_map().dom()
            .contains(x) by {
            let i = choose|i: int| 0 <= i < self.avail().len() && self.avail()[i] == x;
            if i < n {
                assert(pre.avail()[i] == x);
                assert(pre.avail().contains(x));
            } else {
                assert(rec[i - n] == x);
                assert(rec.contains(x));
            }
        }
    }

    /// Token validation alone: reports, without changing anything, the
    /// same result that a commit of `file` with `sec` would report.
    pub fn check_token(&self, file: &String, sec: &String) -> (r: Result<(), ListerError>)
        requires
            self.wf(),
        ensures
            r == Ok::<(), ListerError>(()) <==> commit_allowed(*self, file@, sec@),
            !self.token_map().dom().contains(file@) ==> r == Err::<(), ListerError>(
                ListerError::ItemNotLeased,
            ),
            self.token_map().dom().contains(file@) && self.token_map()[file@] != sec@ ==> r
                == Err::<(), ListerError>(ListerError::TokenMismatch),
    {
        let i = match find_key(&self.security, file) {
            None => {
                proof {
                    lemma_assoc_map_absent(tok_views(self.security@), file@);
                }
                return Err(ListerError::ItemNotLeased);
            },
            Some(i) => i,
        };
        proof {
            assert(tok_views(self.security@)[i as int].0 == file@);
            lemma_assoc_map_index(tok_views(self.security@), i as int);
        }
        let ok = self.security[i].1 == *sec;
        if ok {
            Ok(())
        } else {
            Err(ListerError::TokenMismatch)
        }
    }

    /// Commit bookkeeping: looks up the stored token for `file_to_move`
    /// and, exactly when it equals `sec_string`, clears the item's
    /// lease and token. The caller is expected to relocate the item's
    /// backing file before calling this, and to call it only once the
    /// relocation has succeeded; on any error nothing has changed, so a
    /// legitimate holder can retry.
    pub fn move_file_and_remove(&mut self, sec_string: &String, file_to_move: &String) -> (r:
        Result<(), ListerError>)
        requires
            old(self).wf(),
        ensures
            final(self).wf(),
            commit_rel(*old(self), file_to_move@, sec_string@, *final(self), r),
    {
        let i = match find_key(&self.security, file_to_move) {
            None => {
                proof {
                    lemma_assoc_map_absent(tok_views(self.security@), file_to_move@);
                }
                return Err(ListerError::ItemNotLeased);
            },
            Some(i) => i,
        };
        proof {
            assert(tok_views(self.security@)[i as int].0 == file_to_move@);
            lemma_assoc_map_index(tok_views(self.security@), i as int);
        }
        let ok = self.security[i].1 == *sec_string;
        if !ok {
            return Err(ListerError::TokenMismatch);
        }
        let ghost sec0 = self.security@;
        proof {
            lemma_assoc_map_remove(tok_views(sec0), i as int);
        }
        let _ = self.security.remove(i);
        proof {
            assert(tok_views(self.security@) =~= tok_views(sec0).remove(i as int));
            assert(self.token_map() == old(self).token_map().remove(file_to_move@));
        }
        let ghost lock0 = self.lock_acq@;
        match find_key(&self.lock_acq, file_to_move) {
            Some(j) => {
                proof {
                    assert(keyed_views(lock0)[j as int].0 == file_to_move@);
                    lemma_assoc_map_remove(keyed_views(lock0), j as int);
                }
                let _ = self.lock_acq.remove(j);
                proof {
                    assert(keyed_views(self.lock_acq@) =~= keyed_views(lock0).remove(j as int));
                    assert(self.lease_map() == old(self).lease_map().remove(file_to_move@));
                }
            },
            None => {
                proof {
                    lemma_assoc_map_absent(keyed_views(lock0), file_to_move@);
                    assert(old(self).lease_map() =~= old(self).lease_map().remove(file_to_move@));
                }
            },
        }
        Ok(())
    }
}

/// The entries of a lease sequence whose leases are still current.
pub open spec fn unexpired_of(s: Seq<(Seq<char>, u64)>, now: u64, timeout: u64) -> Seq<
    (Seq<char>, u64),
>
    decreases s.len(),
{
    if s.len() == 0 {
        Seq::empty()
    } else if expired(s.last().1, now, timeout) {
        unexpired_of(s.drop_last(), now, timeout)
    } else {
        unexpired_of(s.drop_last(), now, timeout).push(s.last())
    }
}

/// The items of a lease sequence whose leases have expired, in entry
/// order.
pub open spec fn reclaimed_of(s: Seq<(Seq<char>, u64)>, now: u64, timeout: u64) -> Seq<Seq<char>>
    decreases s.len(),
{
    if s.len() == 0 {
        Seq::empty()
    } else if expired(s.last().1, now, timeout) {
        reclaimed_of(s.drop_last(), now, timeout).push(s.last().0)
    } else {
        reclaimed_of(s.drop_last(), now, timeout)
    }
}

/// Splitting a lease sequence at the expiry test partitions its map:
/// the unexpired part keeps exactly the unexpired keys with their
/// values, and the reclaimed items are exactly the expired keys.
proof fn lemma_reclaim_split(s: Seq<(Seq<char>, u64)>, now: u64, timeout: u64)
    requires
        keys_unique(s),
    ensures
        keys_unique(unexpired_of(s, now, timeout)),
        forall|k: Seq<char>|
            #[trigger] assoc_map(unexpired_of(s, now, timeout)).dom().contains(k) <==> (assoc_map(
                s,
            ).dom().contains(k) && !expired(assoc_map(s)[k], now, timeout)),
        forall|k: Seq<char>|
            #[trigger] assoc_map(unexpired_of(s, now, timeout)).dom().contains(k) ==> assoc_map(
                unexpired_of(s, now, timeout),
            )[k] == assoc_map(s)[k],
        reclaimed_of(s, now, timeout).no_duplicates(),
        forall|k: Seq<char>|
            #[trigger] reclaimed_of(s, now, timeout).contains(k) <==> (assoc_map(s).dom().contains(
                k,
            ) && expired(assoc_map(s)[k], now, timeout)),
    decreases s.len(),
{
    if s.len() > 0 {
        let s0 = s.drop_last();
        let p = s.last();
        assert forall|a: int, b: int| 0 <= a < b < s0.len() implies s0[a].0 != s0[b].0 by {
            assert(s0[a] == s[a]);
            assert(s0[b] == s[b]);
        }
        lemma_reclaim_split(s0, now, timeout);
        assert forall|j: int| 0 <= j < s0.len() implies (#[trigger] s0[j]).0 != p.0 by {
            assert(s0[j] == s[j]);
            assert(s[s.len() - 1] == p);
        }
        lemma_assoc_map_absent(s0, p.0);
        let u0 = unexpired_of(s0, now, timeout);
        let r0 = reclaimed_of(s0, now, timeout);
        if expired(p.1, now, timeout) {
            assert(reclaimed_of(s, now, timeout) == r0.push(p.0));
            assert forall|k: Seq<char>| #[trigger] r0.push(p.0).contains(k) implies (assoc_map(
                s,
            ).dom().contains(k) && expired(assoc_map(s)[k], now, timeout)) by {
                let i = choose|i: int| 0 <= i < r0.push(p.0).len() && r0.push(p.0)[i] == k;
                if i < r0.len() {
                    assert(r0[i] == k);
                    assert(r0.contains(k));
                }
            }
            assert forall|k: Seq<char>|
                (assoc_map(s).dom().contains(k) && expired(
                    assoc_map(s)[k],
                    now,
                    timeout,
                )) implies #[trigger] r0.push(p.0).contains(k) by {
                if k == p.0 {
                    assert(r0.push(p.0)[r0.len() as int] == k);
                } else {
                    assert(r0.contains(k));
                    let i = choose|i: int| 0 <= i < r0.len() && r0[i] == k;
                    assert(r0.push(p.0)[i] == k);
                }
            }
            assert(!r0.contains(p.0));
            assert forall|a: int, b: int|
                0 <= a < b < r0.push(p.0).len() implies r0.push(p.0)[a] != r0.push(p.0)[b] by {
                if b < r0.len() {
                    assert(r0[a] == r0.push(p.0)[a]);
                    assert(r0[b] == r0.push(p.0)[b]);
                } else {
                    assert(r0[a] == r0.push(p.0)[a]);
                    assert(r0.contains(r0[a]));
                }
            }
        } else {
            assert(unexpired_of(s, now, timeout) == u0.push(p));
            lemma_assoc_map_push(u0, p);
            assert forall|j: int| 0 <= j < u0.len() implies (#[trigger] u0[j]).0 != p.0 by {
                lemma_assoc_map_index(u0, j);
            }
            assert forall|a: int, b: int|
                0 <= a < b < u0.push(p).len() implies u0.push(p)[a].0 != u0.push(p)[b].0 by {
                if b < u0.len() {
                    assert(u0[a] == u0.push(p)[a]);
                    assert(u0[b] == u0.push(p)[b]);
                } else {
                    assert(u0[a] == u0.push(p)[a]);
                }
            }
        }
    }
}

/// From a multiset equal to that of a duplicate-free sequence, the
/// sequence itself is duplicate-free.
pub proof fn lemma_permutation_no_duplicates(s: Seq<Seq<char>>, t: Seq<Seq<char>>)
    requires
        s.to_multiset() == t.to_multiset(),
        t.no_duplicates(),
    ensures
        s.no_duplicates(),
{
    t.lemma_multiset_has_no_duplicates();
    s.lemma_multiset_has_no_duplicates_conv();
}

/// Relies on `rand::seq::SliceRandom::shuffle`: a uniformly random
/// in-place permutation of the slice, driven by the thread-local
/// generator. Every outcome holds exactly the elements it was given.
#[verifier::external_body]
fn shuffle(items: &mut Vec<String>)
    ensures
        views_of(final(items)@).to_multiset() == views_of(old(items)@).to_multiset(),
        final(items)@.len() == old(items)@.len(),
{
    let mut rng = rand::thread_rng();
    rand::seq::SliceRandom::shuffle(items.as_mut_slice(), &mut rng);
}

/// Relies on `uuid::Uuid::new_v4`: a freshly generated random
/// version-4 UUID, rendered in its hyphenated text form. The value is
/// random, so nothing is promised of it.
#[verifier::external_body]
fn fresh_token() -> String {
    uuid::Uuid::new_v4().to_string()
}

} // verus!
