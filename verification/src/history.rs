//! What holds over whole runs of calls on a generator, stated on the model
//! of `ranges`.

use crate::ranges::{
    acquire, initial, lemma_acquire, lemma_initial, lemma_members_determine, lemma_members_len,
    lemma_release, lemma_size_positive, members, release, size, well_formed,
};
use vstd::prelude::*;
use vstd::set_lib::{lemma_int_range, lemma_set_disjoint_lens, set_int_range};

verus! {

/// `k` acquisitions in a row from `r`: the identifiers handed out, in the
/// order in which they came, and the free list left. `None` where one of the
/// `k` finds nothing free.
pub open spec fn acquire_n(r: Seq<(int, int)>, k: nat) -> Option<(Seq<int>, Seq<(int, int)>)>
    decreases k,
{
    if k == 0 {
        Some((Seq::empty(), r))
    } else {
        match acquire_n(r, (k - 1) as nat) {
            Some((ids, rest)) => match acquire(rest) {
                Some((id, left)) => Some((ids.push(id), left)),
                None => None,
            },
            None => None,
        }
    }
}

/// The releases of `ids` into `r`, one after the other in the order of
/// `ids`: the free list at the end. `None` where one of them finds its
/// identifier already free.
pub open spec fn release_all(r: Seq<(int, int)>, ids: Seq<int>) -> Option<Seq<(int, int)>>
    decreases ids.len(),
{
    if ids.len() == 0 {
        Some(r)
    } else {
        match release_all(r, ids.drop_last()) {
            Some(rest) => release(rest, ids.last()),
            None => None,
        }
    }
}

/// Two acquisitions in a row never hand out the same identifier.
pub proof fn lemma_consecutive_acquires_differ(r: Seq<(int, int)>)
    requires
        well_formed(r),
    ensures
        acquire(r) matches Some((first, rest)) ==> (acquire(rest) matches Some((second, _))
            ==> first != second),
{
    if r.len() > 0 {
        lemma_acquire(r);
        let rest = acquire(r).unwrap().1;
        if rest.len() > 0 {
            lemma_acquire(rest);
        }
    }
}

/// `k` acquisitions in a row all succeed exactly where at least `k`
/// identifiers are free. They then hand out `k` different identifiers, all
/// free before, and leave a well-formed list that holds the others.
pub proof fn lemma_acquire_n(r: Seq<(int, int)>, k: nat)
    requires
        well_formed(r),
    ensures
        acquire_n(r, k) is Some <==> k <= size(r),
        acquire_n(r, k) matches Some((ids, rest)) ==> ({
            &&& ids.len() == k
            &&& ids.no_duplicates()
            &&& ids.to_set().subset_of(members(r))
            &&& well_formed(rest)
            &&& size(rest) == size(r) - k
            &&& members(rest) == members(r).difference(ids.to_set())
        }),
    decreases k,
{
    if k == 0 {
        lemma_size_positive(r);
        assert(members(r) =~= members(r).difference(Seq::<int>::empty().to_set()));
    } else {
        lemma_acquire_n(r, (k - 1) as nat);
        if let Some((ids, rest)) = acquire_n(r, (k - 1) as nat) {
            lemma_size_positive(rest);
            if rest.len() > 0 {
                lemma_acquire(rest);
                let (id, left) = acquire(rest).unwrap();
                ids.lemma_push_to_set_commute(id);
                assert(!ids.to_set().contains(id));
                assert(members(left) =~= members(r).difference(ids.push(id).to_set()));
            }
        }
    }
}

/// Releasing, one after the other, identifiers that are all different and
/// none of them free succeeds every time, and leaves a well-formed list
/// that holds them besides the old members.
pub proof fn lemma_release_all(r: Seq<(int, int)>, ids: Seq<int>)
    requires
        well_formed(r),
        ids.no_duplicates(),
        ids.to_set().disjoint(members(r)),
    ensures
        release_all(r, ids) matches Some(after) && ({
            &&& well_formed(after)
            &&& size(after) == size(r) + ids.len()
            &&& members(after) == members(r).union(ids.to_set())
        }),
    decreases ids.len(),
{
    if ids.len() == 0 {
        assert(members(r) =~= members(r).union(ids.to_set()));
    } else {
        let front = ids.drop_last();
        let id = ids.last();
        assert(ids =~= front.push(id));
        front.lemma_push_to_set_commute(id);
        assert(ids.to_set().contains(id));
        if front.contains(id) {
            let i = choose|i: int| 0 <= i < front.len() && front[i] == id;
            assert(ids[i] == ids[ids.len() - 1]);
        }
        lemma_release_all(r, front);
        let rest = release_all(r, front).unwrap();
        lemma_release(rest, id);
        let after = release(rest, id).unwrap();
        assert(members(after) =~= members(r).union(ids.to_set()));
    }
}

/// Acquiring `k` identifiers and then releasing those `k`, in any order,
/// succeeds throughout and gives back the free list from before.
pub proof fn lemma_round_trip(r: Seq<(int, int)>, k: nat, order: Seq<int>)
    requires
        well_formed(r),
        acquire_n(r, k) matches Some((ids, _)) && order.to_multiset() == ids.to_multiset(),
    ensures
        release_all(acquire_n(r, k).unwrap().1, order) == Some(r),
{
    lemma_acquire_n(r, k);
    let (ids, rest) = acquire_n(r, k).unwrap();
    ids.to_multiset_ensures();
    order.to_multiset_ensures();
    ids.lemma_multiset_has_no_duplicates();
    order.lemma_multiset_has_no_duplicates_conv();
    assert forall|x: int| order.contains(x) <==> ids.contains(x) by {
        assert(order.to_multiset().count(x) == ids.to_multiset().count(x));
    }
    assert(order.to_set() =~= ids.to_set());
    lemma_release_all(rest, order);
    let after = release_all(rest, order).unwrap();
    assert(members(after) =~= members(r));
    lemma_members_determine(after, r);
}

/// A free list with `n` members serves exactly `n` acquisitions in a row:
/// these leave nothing free, and one more fails.
pub proof fn lemma_exhaustion(r: Seq<(int, int)>)
    requires
        well_formed(r),
    ensures
        acquire_n(r, size(r) as nat) matches Some((ids, rest)) && ids.len() == size(r)
            && rest.len() == 0 && acquire(rest) is None,
        acquire_n(r, (size(r) + 1) as nat) is None,
{
    lemma_size_positive(r);
    lemma_acquire_n(r, size(r) as nat);
    lemma_acquire_n(r, (size(r) + 1) as nat);
    let rest = acquire_n(r, size(r) as nat).unwrap().1;
    lemma_size_positive(rest);
}

/// A fresh generator over a domain `[lo, hi)` of `n` identifiers serves
/// exactly `n` acquisitions in a row, and one more fails.
pub proof fn lemma_domain_exhaustion(lo: int, hi: int)
    requires
        lo <= hi,
    ensures
        acquire_n(initial(lo, hi), (hi - lo) as nat) matches Some((ids, rest)) && ids.len() == hi
            - lo && acquire(rest) is None,
        acquire_n(initial(lo, hi), (hi - lo + 1) as nat) is None,
{
    lemma_initial(lo, hi);
    lemma_exhaustion(initial(lo, hi));
}

/// A fresh generator over `[lo, hi)` hands out `lo`, `lo + 1`, and so on in
/// this order, as long as it has any: after `k` acquisitions `[lo + k, hi)`
/// is free.
pub proof fn lemma_fresh_acquires_ascend(lo: int, hi: int, k: nat)
    requires
        lo + k <= hi,
    ensures
        acquire_n(initial(lo, hi), k)
            == Some((Seq::new(k, |i: int| lo + i), initial(lo + k, hi))),
    decreases k,
{
    if k == 0 {
        assert(Seq::new(k, |i: int| lo + i) =~= Seq::<int>::empty());
    } else {
        lemma_fresh_acquires_ascend(lo, hi, (k - 1) as nat);
        let before = initial(lo + k - 1, hi);
        assert(before =~= seq![(lo + k - 1, hi)]);
        assert(before.drop_last() =~= Seq::empty());
        assert(Seq::<(int, int)>::empty().push((lo + k, hi)) =~= seq![(lo + k, hi)]);
        assert(acquire(before) == Some((lo + k - 1, initial(lo + k, hi))));
        assert(Seq::new((k - 1) as nat, |i: int| lo + i).push(lo + k - 1) =~= Seq::new(
            k,
            |i: int| lo + i,
        ));
    }
}

/// A call on a generator: to acquire an identifier, or to release one.
pub enum Call {
    Acquire,
    Release(int),
}

/// What a run keeps account of: the free list, and the identifiers that
/// were handed out and have not come back.
pub struct Ledger {
    pub free: Seq<(int, int)>,
    pub held: Set<int>,
}

/// The ledger of a fresh generator over `[lo, hi)`: nothing is held.
pub open spec fn fresh(lo: int, hi: int) -> Ledger {
    Ledger { free: initial(lo, hi), held: Set::empty() }
}

/// The ledger after one call. A call that fails changes nothing.
pub open spec fn step(s: Ledger, call: Call) -> Ledger {
    match call {
        Call::Acquire => match acquire(s.free) {
            Some((id, rest)) => Ledger { free: rest, held: s.held.insert(id) },
            None => s,
        },
        Call::Release(id) => match release(s.free, id) {
            Some(after) => Ledger { free: after, held: s.held.remove(id) },
            None => s,
        },
    }
}

/// The ledger after the calls of `calls`, made in their order.
pub open spec fn run(s: Ledger, calls: Seq<Call>) -> Ledger
    decreases calls.len(),
{
    if calls.len() == 0 {
        s
    } else {
        step(run(s, calls.drop_last()), calls.last())
    }
}

/// Whatever calls are made, in whatever order, the free list stays
/// well-formed: sorted, disjoint, and without adjacent ranges.
pub proof fn lemma_run_well_formed(s: Ledger, calls: Seq<Call>)
    requires
        well_formed(s.free),
    ensures
        well_formed(run(s, calls).free),
    decreases calls.len(),
{
    if calls.len() > 0 {
        lemma_run_well_formed(s, calls.drop_last());
        let before = run(s, calls.drop_last());
        match calls.last() {
            Call::Acquire => {
                if before.free.len() > 0 {
                    lemma_acquire(before.free);
                }
            },
            Call::Release(id) => {
                lemma_release(before.free, id);
            },
        }
    }
}

/// Over a domain `[lo, hi)`, at every point of a run that releases only
/// identifiers of the domain, the held and the free identifiers together
/// are the domain, no identifier is both, and their numbers add up to
/// `hi - lo`.
pub proof fn lemma_conservation(lo: int, hi: int, calls: Seq<Call>)
    requires
        lo <= hi,
        forall|i: int|
            0 <= i < calls.len() ==>
                (#[trigger] calls[i] matches Call::Release(id) ==> lo <= id < hi),
    ensures
        well_formed(run(fresh(lo, hi), calls).free),
        run(fresh(lo, hi), calls).held.finite(),
        run(fresh(lo, hi), calls).held.disjoint(members(run(fresh(lo, hi), calls).free)),
        run(fresh(lo, hi), calls).held.union(members(run(fresh(lo, hi), calls).free))
            == set_int_range(lo, hi),
        run(fresh(lo, hi), calls).held.len() + size(run(fresh(lo, hi), calls).free) == hi - lo,
    decreases calls.len(),
{
    let end = run(fresh(lo, hi), calls);
    if calls.len() == 0 {
        lemma_initial(lo, hi);
        assert(end.held.union(members(end.free)) =~= set_int_range(lo, hi));
    } else {
        let head = calls.drop_last();
        assert forall|i: int| 0 <= i < head.len() implies
            (#[trigger] head[i] matches Call::Release(id) ==> lo <= id < hi) by {
            assert(head[i] == calls[i]);
        }
        lemma_conservation(lo, hi, head);
        let before = run(fresh(lo, hi), head);
        assert(calls[calls.len() - 1] == calls.last());
        match calls.last() {
            Call::Acquire => {
                if before.free.len() > 0 {
                    lemma_acquire(before.free);
                }
            },
            Call::Release(id) => {
                lemma_release(before.free, id);
                if !members(before.free).contains(id) {
                    assert(set_int_range(lo, hi).contains(id));
                    assert(before.held.contains(id));
                }
            },
        }
        assert(end.held.union(members(end.free)) =~= set_int_range(lo, hi));
    }
    lemma_members_len(end.free);
    lemma_int_range(lo, hi);
    lemma_set_disjoint_lens(end.held, members(end.free));
}

} // verus!
