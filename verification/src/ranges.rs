//! The mathematical model of a free list: a sequence of half-open integer
//! ranges `(start, end)`, and what acquiring and releasing an identifier do
//! to it.

use vstd::prelude::*;
use vstd::set_lib::{lemma_int_range, lemma_set_disjoint_lens, set_int_range};

verus! {

/// Whether `x` lies in the half-open range `[range.0, range.1)`.
pub open spec fn spans(range: (int, int), x: int) -> bool {
    range.0 <= x < range.1
}

/// The invariant of a free list: every range is non-empty, and each range
/// ends strictly below the start of every later one. The ranges are thus
/// sorted by start, pairwise disjoint, and no two of them are adjacent.
pub open spec fn well_formed(r: Seq<(int, int)>) -> bool {
    &&& forall|i: int| 0 <= i < r.len() ==> (#[trigger] r[i]).0 < r[i].1
    &&& forall|i: int, j: int| 0 <= i < j < r.len() ==> (#[trigger] r[i]).1 < (#[trigger] r[j]).0
}

/// Whether some range of `r` holds `x`.
pub open spec fn contains(r: Seq<(int, int)>, x: int) -> bool {
    exists|i: int| 0 <= i < r.len() && spans(#[trigger] r[i], x)
}

/// The set of identifiers that the ranges of `r` hold.
pub open spec fn members(r: Seq<(int, int)>) -> Set<int> {
    Set::new(|x: int| contains(r, x))
}

/// The sum of the lengths of the ranges of `r`.
pub open spec fn size(r: Seq<(int, int)>) -> int
    decreases r.len(),
{
    if r.len() == 0 {
        0
    } else {
        size(r.drop_last()) + (r.last().1 - r.last().0)
    }
}

/// The free list of a fresh generator over `[lo, hi)`: the one range, or
/// nothing where the range is empty.
pub open spec fn initial(lo: int, hi: int) -> Seq<(int, int)> {
    if lo < hi {
        seq![(lo, hi)]
    } else {
        Seq::empty()
    }
}

/// Acquiring from `r`: `None` where nothing is free, else the identifier
/// handed out, which is the start of the last range, and the free list left,
/// in which the last range has lost that identifier or, if it held no other,
/// is gone.
pub open spec fn acquire(r: Seq<(int, int)>) -> Option<(int, Seq<(int, int)>)> {
    if r.len() == 0 {
        None
    } else {
        let last = r.last();
        if last.0 + 1 == last.1 {
            Some((last.0, r.drop_last()))
        } else {
            Some((last.0, r.drop_last().push((last.0 + 1, last.1))))
        }
    }
}

/// The number of ranges of `r` that end below `id`. In a well-formed list
/// these are the first `rank(r, id)` ranges.
pub open spec fn rank(r: Seq<(int, int)>, id: int) -> int
    decreases r.len(),
{
    if r.len() == 0 {
        0
    } else if r.last().1 < id {
        r.len() as int
    } else {
        rank(r.drop_last(), id)
    }
}

/// The index from which the ranges of `r` start above `id`: one past
/// `rank(r, id)` where the range there ends at `id`, else `rank(r, id)`.
pub open spec fn upper(r: Seq<(int, int)>, id: int) -> int {
    let k = rank(r, id);
    if k < r.len() && r[k].1 == id {
        k + 1
    } else {
        k
    }
}

/// The free list `r` with `id` added, for an `id` that no range of `r`
/// holds. The ranges that end below `id` and those that start above `id + 1`
/// stay as they are. Between them stands one range that holds `id`: it
/// starts where the range that ends at `id` starts, if there is one, else at
/// `id`; it ends where the range that starts at `id + 1` ends, if there is
/// one, else at `id + 1`.
pub open spec fn merged(r: Seq<(int, int)>, id: int) -> Seq<(int, int)> {
    let k = rank(r, id);
    let m = upper(r, id);
    let joins_above = m < r.len() && r[m].0 == id + 1;
    let n = if joins_above { m + 1 } else { m };
    let lo = if m > k { r[k].0 } else { id };
    let hi = if joins_above { r[m].1 } else { id + 1 };
    r.subrange(0, k) + seq![(lo, hi)] + r.subrange(n, r.len() as int)
}

/// Releasing `id` into `r`: `None` where `id` is already free, else the
/// free list with `id` added.
pub open spec fn release(r: Seq<(int, int)>, id: int) -> Option<Seq<(int, int)>> {
    if contains(r, id) {
        None
    } else {
        Some(merged(r, id))
    }
}

/// In a well-formed list the ranges that end below `id` are exactly those
/// before index `rank(r, id)`.
pub proof fn lemma_rank(r: Seq<(int, int)>, id: int)
    requires
        well_formed(r),
    ensures
        0 <= rank(r, id) <= r.len(),
        forall|j: int| 0 <= j < rank(r, id) ==> (#[trigger] r[j]).1 < id,
        forall|j: int| rank(r, id) <= j < r.len() ==> (#[trigger] r[j]).1 >= id,
    decreases r.len(),
{
    if r.len() > 0 {
        let front = r.drop_last();
        assert(well_formed(front));
        lemma_rank(front, id);
        if r.last().1 < id {
            assert forall|j: int| 0 <= j < r.len() implies (#[trigger] r[j]).1 < id by {
                if j < r.len() - 1 {
                    assert(r[j].1 < r[r.len() - 1].0);
                }
            }
        } else {
            assert forall|j: int| rank(r, id) <= j < r.len() implies (#[trigger] r[j]).1 >= id by {
                if j < r.len() - 1 {
                    assert(front[j] == r[j]);
                }
            }
            assert forall|j: int| 0 <= j < rank(r, id) implies (#[trigger] r[j]).1 < id by {
                assert(front[j] == r[j]);
            }
        }
    }
}

/// An index that splits a well-formed list into the ranges that end below
/// `id` and the others is `rank(r, id)`.
pub proof fn lemma_rank_is(r: Seq<(int, int)>, id: int, k: int)
    requires
        well_formed(r),
        0 <= k <= r.len(),
        forall|j: int| 0 <= j < k ==> (#[trigger] r[j]).1 < id,
        forall|j: int| k <= j < r.len() ==> (#[trigger] r[j]).1 >= id,
    ensures
        rank(r, id) == k,
{
    lemma_rank(r, id);
    let n = rank(r, id);
    if n < k {
        assert(r[n].1 >= id);
    } else if k < n {
        assert(r[k].1 < id);
    }
}

/// Appending a range adds its length to the size.
pub proof fn lemma_size_push(r: Seq<(int, int)>, range: (int, int))
    ensures
        size(r.push(range)) == size(r) + (range.1 - range.0),
{
    assert(r.push(range).drop_last() =~= r);
}

/// The size of a concatenation is the sum of the sizes.
pub proof fn lemma_size_concat(a: Seq<(int, int)>, b: Seq<(int, int)>)
    ensures
        size(a + b) == size(a) + size(b),
    decreases b.len(),
{
    if b.len() == 0 {
        assert(a + b =~= a);
    } else {
        lemma_size_concat(a, b.drop_last());
        assert((a + b).drop_last() =~= a + b.drop_last());
    }
}

/// Acquiring from a well-formed, non-empty list hands out an identifier
/// that was free, leaves a well-formed list whose members are the old ones
/// without that identifier, and lowers the size by one.
pub proof fn lemma_acquire(r: Seq<(int, int)>)
    requires
        well_formed(r),
        r.len() > 0,
    ensures
        acquire(r) is Some,
        members(r).contains(acquire(r).unwrap().0),
        well_formed(acquire(r).unwrap().1),
        members(acquire(r).unwrap().1) == members(r).remove(acquire(r).unwrap().0),
        size(acquire(r).unwrap().1) == size(r) - 1,
{
    let (id, rest) = acquire(r).unwrap();
    let front = r.drop_last();
    let top = r.len() - 1;
    let last = r.last();
    assert(r[top] == last);
    assert(spans(r[top], id));
    if last.0 + 1 != last.1 {
        lemma_size_push(front, (last.0 + 1, last.1));
    }
    assert forall|i: int| 0 <= i < rest.len() implies (#[trigger] rest[i]).0 < rest[i].1 by {
        if i < top {
            assert(rest[i] == r[i]);
        }
    }
    assert forall|i: int, j: int| 0 <= i < j < rest.len() implies
        (#[trigger] rest[i]).1 < (#[trigger] rest[j]).0 by {
        assert(rest[i] == r[i]);
        if j < top {
            assert(rest[j] == r[j]);
        } else {
            assert(r[i].1 < r[top].0);
        }
    }
    assert forall|x: int| contains(rest, x) == (contains(r, x) && x != id) by {
        if contains(rest, x) {
            let i = choose|i: int| 0 <= i < rest.len() && spans(#[trigger] rest[i], x);
            if i < top {
                assert(rest[i] == r[i]);
                assert(spans(r[i], x));
                assert(r[i].1 < r[top].0);
            } else {
                assert(spans(r[top], x));
            }
        }
        if contains(r, x) && x != id {
            let i = choose|i: int| 0 <= i < r.len() && spans(#[trigger] r[i], x);
            if i < top {
                assert(rest[i] == r[i]);
                assert(spans(rest[i], x));
            } else {
                assert(rest[top] == (last.0 + 1, last.1));
                assert(spans(rest[top], x));
            }
        }
    }
    assert(members(rest) =~= members(r).remove(id));
}

/// Where `id` is not free, every range from `upper(r, id)` on starts above
/// `id`.
pub proof fn lemma_upper(r: Seq<(int, int)>, id: int)
    requires
        well_formed(r),
        !contains(r, id),
    ensures
        rank(r, id) <= upper(r, id) <= r.len(),
        forall|j: int| upper(r, id) <= j < r.len() ==> (#[trigger] r[j]).0 > id,
{
    lemma_rank(r, id);
    let k = rank(r, id);
    assert forall|j: int| upper(r, id) <= j < r.len() implies (#[trigger] r[j]).0 > id by {
        assert(!spans(r[j], id));
        if j > k {
            assert(r[k].1 < r[j].0);
        }
    }
}

/// Adding an identifier that is not free keeps the list well-formed.
pub proof fn lemma_merged_well_formed(r: Seq<(int, int)>, id: int)
    requires
        well_formed(r),
        !contains(r, id),
    ensures
        well_formed(merged(r, id)),
{
    lemma_rank(r, id);
    lemma_upper(r, id);
    let len = r.len() as int;
    let k = rank(r, id);
    let m = upper(r, id);
    let joins_above = m < len && r[m].0 == id + 1;
    let n = if joins_above { m + 1 } else { m };
    let lo = if m > k { r[k].0 } else { id };
    let hi = if joins_above { r[m].1 } else { id + 1 };
    let out = merged(r, id);
    assert(out == r.subrange(0, k) + seq![(lo, hi)] + r.subrange(n, len));
    assert(out[k] == (lo, hi));
    assert forall|j: int| n <= j < len implies hi < (#[trigger] r[j]).0 by {
        if j > m {
            assert(r[m].1 < r[j].0);
        }
    }
    assert forall|j: int| 0 <= j < k implies (#[trigger] r[j]).1 < lo by {
        if m > k {
            assert(r[j].1 < r[k].0);
        }
    }
    assert forall|i: int| 0 <= i < out.len() implies (#[trigger] out[i]).0 < out[i].1 by {
        if i < k {
            assert(out[i] == r[i]);
        } else if i > k {
            assert(out[i] == r[n + (i - k - 1)]);
        }
    }
    assert forall|i: int, j: int| 0 <= i < j < out.len() implies
        (#[trigger] out[i]).1 < (#[trigger] out[j]).0 by {
        if i < k {
            assert(out[i] == r[i]);
        } else if i > k {
            assert(out[i] == r[n + (i - k - 1)]);
        }
        if j < k {
            assert(out[j] == r[j]);
        } else if j > k {
            assert(out[j] == r[n + (j - k - 1)]);
        }
        if i < k && j > k {
            assert(r[i].1 < r[n + (j - k - 1)].0);
        }
    }
}

/// Adding an identifier that is not free adds it to the members and changes
/// nothing else.
pub proof fn lemma_merged_members(r: Seq<(int, int)>, id: int)
    requires
        well_formed(r),
        !contains(r, id),
    ensures
        members(merged(r, id)) == members(r).insert(id),
{
    lemma_rank(r, id);
    lemma_upper(r, id);
    let len = r.len() as int;
    let k = rank(r, id);
    let m = upper(r, id);
    let joins_above = m < len && r[m].0 == id + 1;
    let n = if joins_above { m + 1 } else { m };
    let lo = if m > k { r[k].0 } else { id };
    let hi = if joins_above { r[m].1 } else { id + 1 };
    let out = merged(r, id);
    assert(out == r.subrange(0, k) + seq![(lo, hi)] + r.subrange(n, len));
    assert(out[k] == (lo, hi));
    assert forall|x: int| contains(out, x) implies contains(r, x) || x == id by {
        let i = choose|i: int| 0 <= i < out.len() && spans(#[trigger] out[i], x);
        if i < k {
            assert(out[i] == r[i]);
            assert(spans(r[i], x));
        } else if i > k {
            assert(out[i] == r[n + (i - k - 1)]);
            assert(spans(r[n + (i - k - 1)], x));
        } else if x < id {
            assert(spans(r[k], x));
        } else if x > id {
            assert(spans(r[m], x));
        }
    }
    assert forall|x: int| contains(r, x) || x == id implies contains(out, x) by {
        if x == id {
            assert(spans(out[k], x));
        } else {
            let j = choose|j: int| 0 <= j < r.len() && spans(#[trigger] r[j], x);
            if j < k {
                assert(out[j] == r[j]);
                assert(spans(out[j], x));
            } else if j >= n {
                assert(out[k + 1 + (j - n)] == r[j]);
                assert(spans(out[k + 1 + (j - n)], x));
            } else {
                assert(spans(out[k], x));
            }
        }
    }
    assert(members(out) =~= members(r).insert(id));
}

/// The size of a list of one range is the length of that range.
pub proof fn lemma_size_one(range: (int, int))
    ensures
        size(seq![range]) == range.1 - range.0,
{
    lemma_size_push(Seq::empty(), range);
    assert(Seq::<(int, int)>::empty().push(range) =~= seq![range]);
}

/// Adding an identifier that is not free raises the size by one.
pub proof fn lemma_merged_size(r: Seq<(int, int)>, id: int)
    requires
        well_formed(r),
        !contains(r, id),
    ensures
        size(merged(r, id)) == size(r) + 1,
{
    lemma_rank(r, id);
    lemma_upper(r, id);
    let len = r.len() as int;
    let k = rank(r, id);
    let m = upper(r, id);
    let joins_above = m < len && r[m].0 == id + 1;
    let n = if joins_above { m + 1 } else { m };
    let lo = if m > k { r[k].0 } else { id };
    let hi = if joins_above { r[m].1 } else { id + 1 };
    let below = r.subrange(0, k);
    let between = r.subrange(k, n);
    let above = r.subrange(n, len);
    assert(merged(r, id) == below + seq![(lo, hi)] + above);
    assert(r =~= below + between + above);
    lemma_size_concat(below, between);
    lemma_size_concat(below + between, above);
    lemma_size_concat(below, seq![(lo, hi)]);
    lemma_size_concat(below + seq![(lo, hi)], above);
    lemma_size_one((lo, hi));
    if n == k {
        assert(between =~= Seq::empty());
    } else if n == k + 1 {
        lemma_size_one(r[k]);
        assert(between =~= seq![r[k]]);
    } else {
        lemma_size_one(r[k]);
        lemma_size_push(seq![r[k]], r[m]);
        assert(between =~= seq![r[k]].push(r[m]));
    }
}

/// Releasing keeps the invariant: it fails exactly where `id` is already
/// free, and else gives a well-formed list that holds `id` besides the old
/// members and is larger by one.
pub proof fn lemma_release(r: Seq<(int, int)>, id: int)
    requires
        well_formed(r),
    ensures
        release(r, id) is None <==> members(r).contains(id),
        release(r, id) matches Some(after) ==> ({
            &&& well_formed(after)
            &&& members(after) == members(r).insert(id)
            &&& size(after) == size(r) + 1
        }),
{
    if !contains(r, id) {
        lemma_merged_well_formed(r, id);
        lemma_merged_members(r, id);
        lemma_merged_size(r, id);
    }
}

/// Without its last range a well-formed list is well-formed, and holds the
/// members that lie below that range.
pub proof fn lemma_drop_last(r: Seq<(int, int)>)
    requires
        well_formed(r),
        r.len() > 0,
    ensures
        well_formed(r.drop_last()),
        forall|x: int| contains(r.drop_last(), x) == (contains(r, x) && x < r.last().0),
        forall|x: int| contains(r, x) ==> x < r.last().1,
{
    let front = r.drop_last();
    let top = r.len() - 1;
    assert forall|x: int| contains(front, x) == (contains(r, x) && x < r.last().0) by {
        if contains(front, x) {
            let i = choose|i: int| 0 <= i < front.len() && spans(#[trigger] front[i], x);
            assert(spans(r[i], x));
            assert(r[i].1 < r[top].0);
        }
        if contains(r, x) && x < r.last().0 {
            let i = choose|i: int| 0 <= i < r.len() && spans(#[trigger] r[i], x);
            assert(spans(front[i], x));
        }
    }
    assert forall|x: int| contains(r, x) implies x < r.last().1 by {
        let i = choose|i: int| 0 <= i < r.len() && spans(#[trigger] r[i], x);
        if i < top {
            assert(r[i].1 < r[top].0);
        }
    }
}

/// A set of identifiers has at most one well-formed list: two well-formed
/// lists with the same members are the same list.
pub proof fn lemma_members_determine(a: Seq<(int, int)>, b: Seq<(int, int)>)
    requires
        well_formed(a),
        well_formed(b),
        members(a) == members(b),
    ensures
        a == b,
    decreases a.len(),
{
    assert forall|x: int| contains(a, x) == contains(b, x) by {
        assert(members(a).contains(x) == contains(a, x));
        assert(members(b).contains(x) == contains(b, x));
    }
    if a.len() == 0 || b.len() == 0 {
        if a.len() > 0 {
            assert(spans(a[0], a[0].0));
            assert(contains(b, a[0].0));
        }
        if b.len() > 0 {
            assert(spans(b[0], b[0].0));
            assert(contains(a, b[0].0));
        }
        assert(a =~= b);
    } else {
        let la = a.last();
        let lb = b.last();
        lemma_drop_last(a);
        lemma_drop_last(b);
        assert(spans(a[a.len() - 1], la.1 - 1));
        assert(spans(b[b.len() - 1], lb.1 - 1));
        assert(contains(b, la.1 - 1));
        assert(contains(a, lb.1 - 1));
        assert(la.1 == lb.1);
        if la.0 < lb.0 {
            assert(spans(a[a.len() - 1], lb.0 - 1));
            assert(contains(a, lb.0 - 1));
            assert(contains(b, lb.0 - 1));
            assert(contains(b.drop_last(), lb.0 - 1));
            let j = choose|j: int|
                0 <= j < b.drop_last().len() && spans(#[trigger] b.drop_last()[j], lb.0 - 1);
            assert(b[j].1 < b[b.len() - 1].0);
        }
        if lb.0 < la.0 {
            assert(spans(b[b.len() - 1], la.0 - 1));
            assert(contains(b, la.0 - 1));
            assert(contains(a, la.0 - 1));
            assert(contains(a.drop_last(), la.0 - 1));
            let j = choose|j: int|
                0 <= j < a.drop_last().len() && spans(#[trigger] a.drop_last()[j], la.0 - 1);
            assert(a[j].1 < a[a.len() - 1].0);
        }
        assert(la == lb);
        assert forall|x: int| contains(a.drop_last(), x) == contains(b.drop_last(), x) by {
            assert(contains(a.drop_last(), x) == (contains(a, x) && x < la.0));
            assert(contains(b.drop_last(), x) == (contains(b, x) && x < lb.0));
        }
        assert(members(a.drop_last()) =~= members(b.drop_last()));
        lemma_members_determine(a.drop_last(), b.drop_last());
        assert(a =~= a.drop_last().push(la));
        assert(b =~= b.drop_last().push(lb));
    }
}

/// The members of a well-formed list are finitely many, and the size of the
/// list counts them.
pub proof fn lemma_members_len(r: Seq<(int, int)>)
    requires
        well_formed(r),
    ensures
        members(r).finite(),
        members(r).len() == size(r),
    decreases r.len(),
{
    if r.len() == 0 {
        assert(members(r) =~= Set::empty());
    } else {
        let front = r.drop_last();
        let last = r.last();
        lemma_drop_last(r);
        lemma_members_len(front);
        lemma_int_range(last.0, last.1);
        let top = set_int_range(last.0, last.1);
        assert forall|x: int| contains(r, x) == (contains(front, x) || top.contains(x)) by {
            if top.contains(x) {
                assert(spans(r[r.len() - 1], x));
            }
            if contains(r, x) && !contains(front, x) {
                assert(x >= last.0);
            }
        }
        assert(members(r) =~= members(front) + top);
        assert(members(front).disjoint(top));
        lemma_set_disjoint_lens(members(front), top);
    }
}

/// A well-formed list has at least as many members as ranges.
pub proof fn lemma_size_positive(r: Seq<(int, int)>)
    requires
        well_formed(r),
    ensures
        size(r) >= r.len(),
    decreases r.len(),
{
    if r.len() > 0 {
        assert(well_formed(r.drop_last()));
        lemma_size_positive(r.drop_last());
        assert(r[r.len() - 1].0 < r[r.len() - 1].1);
    }
}

/// A well-formed list has no range exactly where it has no member, and
/// exactly where its size is zero.
pub proof fn lemma_nothing_free(r: Seq<(int, int)>)
    requires
        well_formed(r),
    ensures
        r.len() == 0 <==> members(r) == Set::<int>::empty(),
        r.len() == 0 <==> size(r) == 0,
{
    lemma_size_positive(r);
    if r.len() == 0 {
        assert(members(r) =~= Set::<int>::empty());
    } else {
        assert(spans(r[0], r[0].0));
        assert(members(r).contains(r[0].0));
    }
}

/// The members of `initial(lo, hi)` are the integers from `lo` up to, not
/// including, `hi`, and its size is their number.
pub proof fn lemma_initial(lo: int, hi: int)
    ensures
        well_formed(initial(lo, hi)),
        members(initial(lo, hi)) == set_int_range(lo, hi),
        size(initial(lo, hi)) == (if lo < hi { hi - lo } else { 0 }),
{
    let r = initial(lo, hi);
    if lo < hi {
        assert(r[0] == (lo, hi));
        lemma_size_one((lo, hi));
    }
    assert forall|x: int| contains(r, x) == (lo <= x < hi) by {
        if lo <= x < hi {
            assert(spans(r[0], x));
        }
    }
    assert(members(r) =~= set_int_range(lo, hi));
}

} // verus!
