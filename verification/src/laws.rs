use vstd::prelude::*;

verus! {

use vstd::seq_lib::*;
use crate::errors::ListerError;
use crate::lister::checkout_rel;
use crate::lister::commit_allowed;
use crate::lister::commit_rel;
use crate::lister::expired;
use crate::lister::lemma_permutation_no_duplicates;
use crate::lister::reclaim_rel;
use crate::lister::FileLister;

/// A pool fresh from construction offers exactly the items it was
/// given: the same members, each exactly once, none invented and none
/// dropped.
pub proof fn lemma_construction_permutation(names: Seq<Seq<char>>, avail: Seq<Seq<char>>)
    requires
        avail.to_multiset() == names.to_multiset(),
        names.no_duplicates(),
    ensures
        avail.no_duplicates(),
        avail.len() == names.len(),
        forall|x: Seq<char>| avail.contains(x) <==> names.contains(x),
{
    lemma_permutation_no_duplicates(avail, names);
    names.to_multiset_ensures();
    avail.to_multiset_ensures();
    assert forall|x: Seq<char>| avail.contains(x) <==> names.contains(x) by {
        assert(avail.contains(x) <==> avail.to_multiset().count(x) > 0);
        assert(names.contains(x) <==> names.to_multiset().count(x) > 0);
    }
}

/// Successive checkouts with no commit or reclamation between them each
/// succeed and remove exactly one item, as long as items remain: after
/// as many checkouts as there were available items the pool is empty.
pub proof fn lemma_pool_exhaustion(
    states: Seq<FileLister>,
    nows: Seq<u64>,
    results: Seq<Result<(String, String), ListerError>>,
)
    requires
        states.len() == nows.len() + 1,
        results.len() == nows.len(),
        nows.len() <= states[0].avail().len(),
        forall|i: int|
            0 <= i < nows.len() ==> #[trigger] checkout_rel(
                states[i],
                nows[i],
                states[i + 1],
                results[i],
            ),
    ensures
        states.last().avail().len() == states[0].avail().len() - nows.len(),
        forall|i: int| 0 <= i < results.len() ==> (#[trigger] results[i]) is Ok,
    decreases nows.len(),
{
    if nows.len() > 0 {
        let i0: int = 0;
        assert(checkout_rel(states[i0], nows[i0], states[i0 + 1], results[i0]));
        assert(states[1].avail().len() == states[0].avail().len() - 1);
        let st = states.drop_first();
        let nw = nows.drop_first();
        let rs = results.drop_first();
        assert forall|i: int|
            0 <= i < nw.len() implies #[trigger] checkout_rel(st[i], nw[i], st[i + 1], rs[i]) by {
            assert(st[i] == states[i + 1]);
            assert(st[i + 1] == states[i + 2]);
            assert(nw[i] == nows[i + 1]);
            assert(rs[i] == results[i + 1]);
            assert(checkout_rel(states[i + 1], nows[i + 1], states[i + 2], results[i + 1]));
        }
        lemma_pool_exhaustion(st, nw, rs);
        assert(st.last() == states.last());
        assert(st[0] == states[1]);
        assert forall|i: int| 0 <= i < results.len() implies (#[trigger] results[i]) is Ok by {
            if i > 0 {
                assert(rs[i - 1] == results[i]);
                assert(rs[i - 1] is Ok);
            }
        }
    }
}

/// A checkout from an exhausted pool reports `PoolExhausted` and
/// changes nothing.
pub proof fn lemma_exhausted_checkout(
    pre: FileLister,
    now: u64,
    post: FileLister,
    r: Result<(String, String), ListerError>,
)
    requires
        checkout_rel(pre, now, post, r),
        pre.avail().len() == 0,
    ensures
        r == Err::<(String, String), ListerError>(ListerError::PoolExhausted),
        post.avail() == pre.avail(),
        post.lease_map() == pre.lease_map(),
        post.token_map() == pre.token_map(),
{
}

/// A lease issued at `t` survives a reclamation at or before
/// `t + lease_timeout()`, keeping its stamp and staying out of the
/// available pool; a reclamation after that instant returns the item
/// to the pool and drops the lease.
pub proof fn lemma_reclaim_timing(
    pre: FileLister,
    post: FileLister,
    item: Seq<char>,
    t: u64,
    now: u64,
)
    requires
        pre.wf(),
        reclaim_rel(pre, now, post),
        pre.lease_map().dom().contains(item),
        pre.lease_map()[item] == t,
    ensures
        now <= t + pre.lease_timeout() ==> post.lease_map().dom().contains(item)
            && post.lease_map()[item] == t && !post.avail().contains(item),
        now > t + pre.lease_timeout() ==> !post.lease_map().dom().contains(item)
            && post.avail().contains(item),
{
    if now <= t + pre.lease_timeout() {
        assert(!expired(t, now, pre.lease_timeout()));
        assert(post.lease_map().dom().contains(item));
        assert(!pre.avail().contains(item));
        assert(!post.avail().contains(item));
    } else {
        assert(expired(t, now, pre.lease_timeout()));
        assert(!post.lease_map().dom().contains(item));
        assert(post.avail().contains(item));
    }
}

/// Reclamation is idempotent: a second reclamation at the same instant
/// finds nothing left to reclaim and leaves the pool exactly as the
/// first left it.
pub proof fn lemma_reclaim_idempotent(
    pre: FileLister,
    now: u64,
    mid: FileLister,
    post: FileLister,
)
    requires
        pre.wf(),
        mid.wf(),
        post.wf(),
        reclaim_rel(pre, now, mid),
        reclaim_rel(mid, now, post),
    ensures
        post.avail() == mid.avail(),
        post.lease_map() == mid.lease_map(),
        post.token_map() == mid.token_map(),
{
    assert forall|k: Seq<char>|
        #[trigger] post.lease_map().dom().contains(k) <==> mid.lease_map().dom().contains(
            k,
        ) by {
        if mid.lease_map().dom().contains(k) {
            assert(mid.lease_map()[k] == pre.lease_map()[k]);
            assert(!expired(pre.lease_map()[k], now, pre.lease_timeout()));
        }
    }
    assert forall|k: Seq<char>| #[trigger] post.lease_map().dom().contains(k) implies post
        .lease_map()[k] == mid.lease_map()[k] by {}
    assert(post.lease_map() =~= mid.lease_map());
    assert forall|k: Seq<char>|
        #[trigger] post.avail().contains(k) <==> mid.avail().contains(k) by {
        if mid.lease_map().dom().contains(k) {
            assert(!expired(mid.lease_map()[k], now, mid.lease_timeout()));
        }
    }
    let m = mid.avail().len() as int;
    assert(mid.avail().is_prefix_of(post.avail()));
    if post.avail().len() > mid.avail().len() {
        let x = post.avail()[m];
        assert(post.avail().contains(x));
        assert(mid.avail().contains(x));
        let j = choose|j: int| 0 <= j < mid.avail().len() && mid.avail()[j] == x;
        assert(post.avail().subrange(0, m)[j] == mid.avail()[j]);
        assert(post.avail()[j] == x);
        assert(false);
    }
    assert(post.avail() =~= mid.avail());
}

/// Two checkouts with no reclamation or commit between them never
/// return the same item.
pub proof fn lemma_no_double_checkout(
    s0: FileLister,
    now1: u64,
    s1: FileLister,
    r1: Result<(String, String), ListerError>,
    now2: u64,
    s2: FileLister,
    r2: Result<(String, String), ListerError>,
)
    requires
        s0.wf(),
        checkout_rel(s0, now1, s1, r1),
        checkout_rel(s1, now2, s2, r2),
        r1 is Ok,
        r2 is Ok,
    ensures
        r1->Ok_0.0@ != r2->Ok_0.0@,
{
    let a = s0.avail();
    assert(a.len() > 0);
    assert(s1.avail() == a.drop_last());
    assert(s1.avail().len() > 0);
    assert(r1->Ok_0.0@ == a[a.len() - 1]);
    assert(s1.avail().last() == a[a.len() - 2]);
    assert(r2->Ok_0.0@ == a[a.len() - 2]);
}

/// A commit with the matching token succeeds exactly once: a second
/// identical commit reports the item as no longer leased and changes
/// nothing.
pub proof fn lemma_commit_exactly_once(
    s0: FileLister,
    item: Seq<char>,
    token: Seq<char>,
    s1: FileLister,
    r1: Result<(), ListerError>,
    s2: FileLister,
    r2: Result<(), ListerError>,
)
    requires
        commit_allowed(s0, item, token),
        commit_rel(s0, item, token, s1, r1),
        commit_rel(s1, item, token, s2, r2),
    ensures
        r1 == Ok::<(), ListerError>(()),
        r2 == Err::<(), ListerError>(ListerError::ItemNotLeased),
        s2.avail() == s1.avail(),
        s2.lease_map() == s1.lease_map(),
        s2.token_map() == s1.token_map(),
{
    assert(!s1.token_map().dom().contains(item));
}

/// A commit with a wrong token fails with a mismatch and leaves the
/// available items, leases and tokens exactly as they were, so the
/// matching token still authorizes the item afterwards.
pub proof fn lemma_wrong_token_harmless(
    s0: FileLister,
    item: Seq<char>,
    stored: Seq<char>,
    presented: Seq<char>,
    s1: FileLister,
    r1: Result<(), ListerError>,
)
    requires
        s0.token_map().dom().contains(item),
        s0.token_map()[item] == stored,
        presented != stored,
        commit_rel(s0, item, presented, s1, r1),
    ensures
        r1 == Err::<(), ListerError>(ListerError::TokenMismatch),
        s1.avail() == s0.avail(),
        s1.lease_map() == s0.lease_map(),
        s1.token_map() == s0.token_map(),
        commit_allowed(s1, item, stored),
{
}

} // verus!
