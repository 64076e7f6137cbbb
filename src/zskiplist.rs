//! The skip-list engine. Nodes live in an arena and link to each other by
//! slot; a ghost sequence lists the slots in order, and the invariant ties
//! every forward link and span to that order. Searches by `(score, member)`
//! and by rank descend the levels; lookups by member alone walk level 0, as a
//! member does not fix a place in the order.
use crate::level_generator::{DefaultLevelGenerator, LevelGenerator, ZSKIPLIST_MAXLEVEL};
use crate::score::{score_key, Score};
use crate::zskipnode::{all_empty, ZSkipLevel, ZSkipNode};
use vstd::multiset::Multiset;
use vstd::prelude::*;

verus! {

/// A stored element: its score and its member.
pub type Entry = (Score, i64);

/// Whether `a` comes before the bound made of score key `k` and member `v`.
pub open spec fn below(a: Entry, k: u64, v: i64) -> bool {
    score_key(a.0.bits) < k || (score_key(a.0.bits) == k && a.1 < v)
}

/// Whether `a` comes no later than the bound made of score key `k` and
/// member `v`.
pub open spec fn not_after(a: Entry, k: u64, v: i64) -> bool {
    score_key(a.0.bits) < k || (score_key(a.0.bits) == k && a.1 <= v)
}

/// `below` when `incl` is false, `not_after` when it is true.
pub open spec fn at_bound(a: Entry, k: u64, v: i64, incl: bool) -> bool {
    if incl {
        not_after(a, k, v)
    } else {
        below(a, k, v)
    }
}

/// The order of the index: by score key, then by member.
pub open spec fn entry_lt(a: Entry, b: Entry) -> bool {
    below(a, score_key(b.0.bits), b.1)
}

/// `a` and `b` are equal in the order of the index.
pub open spec fn entry_eq(a: Entry, b: Entry) -> bool {
    score_key(a.0.bits) == score_key(b.0.bits) && a.1 == b.1
}

/// No element is smaller than one before it.
pub open spec fn sorted(s: Seq<Entry>) -> bool {
    forall|i: int, j: int| 0 <= i < j < s.len() ==> !#[trigger] entry_lt(s[j], s[i])
}

/// The number of elements of a sorted sequence below the bound `(k, v)`.
pub open spec fn lower_bound_key(s: Seq<Entry>, k: u64, v: i64) -> int
    decreases s.len(),
{
    if s.len() == 0 {
        0
    } else if below(s.last(), k, v) {
        s.len() as int
    } else {
        lower_bound_key(s.drop_last(), k, v)
    }
}

/// The number of elements of a sorted sequence that are smaller than `e`:
/// the index at which `e` goes in.
pub open spec fn lower_bound(s: Seq<Entry>, e: Entry) -> int {
    lower_bound_key(s, score_key(e.0.bits), e.1)
}

/// The index of the first element whose member is `v`, or -1.
pub open spec fn index_of_value(s: Seq<Entry>, v: i64) -> int
    decreases s.len(),
{
    if s.len() == 0 {
        -1
    } else {
        let k = index_of_value(s.drop_last(), v);
        if k >= 0 {
            k
        } else if s.last().1 == v {
            s.len() - 1
        } else {
            -1
        }
    }
}

/// Whether some element has member `v`.
pub open spec fn has_value(s: Seq<Entry>, v: i64) -> bool {
    exists|i: int| 0 <= i < s.len() && (#[trigger] s[i]).1 == v
}

/// Whether a score lies between `min` and `max`, bounds included.
pub open spec fn score_in_range(s: Score, min: Score, max: Score) -> bool {
    score_key(min.bits) <= score_key(s.bits) <= score_key(max.bits)
}

/// The number of elements of a sorted sequence no later than the bound
/// `(k, v)`.
pub open spec fn upper_bound_key(s: Seq<Entry>, k: u64, v: i64) -> int
    decreases s.len(),
{
    if s.len() == 0 {
        0
    } else if not_after(s.last(), k, v) {
        s.len() as int
    } else {
        upper_bound_key(s.drop_last(), k, v)
    }
}

/// The number of elements of a sorted sequence that are not greater than
/// `e`: the index after the last element equal to it.
pub open spec fn upper_bound(s: Seq<Entry>, e: Entry) -> int {
    upper_bound_key(s, score_key(e.0.bits), e.1)
}

/// The elements once `e` is inserted: after every element not greater than
/// it, so that equal elements stay in the order they were inserted.
pub open spec fn inserted(s: Seq<Entry>, e: Entry) -> Seq<Entry> {
    s.insert(upper_bound(s, e), e)
}

/// The elements once the first one with member `v`, if any, is removed.
pub open spec fn deleted(s: Seq<Entry>, v: i64) -> Seq<Entry> {
    let k = index_of_value(s, v);
    if k < 0 {
        s
    } else {
        s.remove(k)
    }
}

/// The elements once the first one, if any, is removed.
pub open spec fn popped(s: Seq<Entry>) -> Seq<Entry> {
    if s.len() == 0 {
        s
    } else {
        s.remove(0)
    }
}

/// The zero-based rank of the first element equal to `e`, if there is one.
pub open spec fn rank_of(s: Seq<Entry>, e: Entry) -> Option<int> {
    let k = lower_bound(s, e);
    if 0 <= k < s.len() && entry_eq(s[k], e) {
        Some(k)
    } else {
        None
    }
}

/// The member at zero-based rank `r`, if there is one.
pub open spec fn member_at(s: Seq<Entry>, r: int) -> Option<i64> {
    if 0 <= r < s.len() {
        Some(s[r].1)
    } else {
        None
    }
}

/// The members, in order.
pub open spec fn members(s: Seq<Entry>) -> Seq<i64> {
    s.map_values(|e: Entry| e.1)
}

/// In a sorted sequence the elements below a bound come first.
pub proof fn lemma_lower_bound_props(s: Seq<Entry>, k: u64, v: i64)
    requires
        sorted(s),
    ensures
        0 <= lower_bound_key(s, k, v) <= s.len(),
        forall|i: int| 0 <= i < lower_bound_key(s, k, v) ==> below(#[trigger] s[i], k, v),
        forall|i: int| lower_bound_key(s, k, v) <= i < s.len() ==> !below(#[trigger] s[i], k, v),
    decreases s.len(),
{
    if s.len() > 0 {
        let last = s.len() - 1;
        if below(s[last], k, v) {
            assert forall|i: int| 0 <= i < s.len() implies below(#[trigger] s[i], k, v) by {
                if i < last {
                    assert(!entry_lt(s[last], s[i]));
                }
            }
        } else {
            let t = s.drop_last();
            assert(sorted(t)) by {
                assert forall|i: int, j: int| 0 <= i < j < t.len() implies !#[trigger] entry_lt(t[j], t[i]) by {
                    assert(t[i] == s[i]);
                    assert(t[j] == s[j]);
                }
            }
            lemma_lower_bound_props(t, k, v);
            assert forall|i: int| 0 <= i < lower_bound_key(s, k, v) implies below(#[trigger] s[i], k, v) by {
                assert(t[i] == s[i]);
            }
            assert forall|i: int| lower_bound_key(s, k, v) <= i < s.len() implies !below(#[trigger] s[i], k, v) by {
                if i < last {
                    assert(t[i] == s[i]);
                }
            }
        }
    }
}

/// An update of the list, as a caller makes it.
pub enum ListOp {
    Insert(Score, i64),
    Delete(i64),
    PopFront,
}

/// The elements once `op` is applied.
pub open spec fn apply_op(s: Seq<Entry>, op: ListOp) -> Seq<Entry> {
    match op {
        ListOp::Insert(sc, v) => inserted(s, (sc, v)),
        ListOp::Delete(v) => deleted(s, v),
        ListOp::PopFront => popped(s),
    }
}

/// The elements once `ops` are applied in turn.
pub open spec fn apply_ops(s: Seq<Entry>, ops: Seq<ListOp>) -> Seq<Entry>
    decreases ops.len(),
{
    if ops.len() == 0 {
        s
    } else {
        apply_op(apply_ops(s, ops.drop_last()), ops.last())
    }
}

/// The number of insertions among `ops`.
pub open spec fn insert_count(ops: Seq<ListOp>) -> nat
    decreases ops.len(),
{
    if ops.len() == 0 {
        0
    } else {
        insert_count(ops.drop_last()) + if ops.last() is Insert {
            1nat
        } else {
            0nat
        }
    }
}

/// The number of removals among `ops`, starting from `s`: deletions that
/// found their member, and removals of the first element from a non-empty
/// list.
pub open spec fn removal_count(s: Seq<Entry>, ops: Seq<ListOp>) -> nat
    decreases ops.len(),
{
    if ops.len() == 0 {
        0
    } else {
        removal_count(s, ops.drop_last()) + match ops.last() {
            ListOp::Delete(v) => if has_value(apply_ops(s, ops.drop_last()), v) {
                1nat
            } else {
                0nat
            },
            ListOp::PopFront => if apply_ops(s, ops.drop_last()).len() > 0 {
                1nat
            } else {
                0nat
            },
            ListOp::Insert(_, _) => 0nat,
        }
    }
}

/// The elements once the first one is removed `k` times.
pub open spec fn popped_times(s: Seq<Entry>, k: nat) -> Seq<Entry>
    decreases k,
{
    if k == 0 {
        s
    } else {
        popped(popped_times(s, (k - 1) as nat))
    }
}

/// A lower bound lies between zero and the length.
pub proof fn lemma_lower_bound_range(s: Seq<Entry>, k: u64, v: i64)
    ensures
        0 <= lower_bound_key(s, k, v) <= s.len(),
    decreases s.len(),
{
    if s.len() > 0 {
        lemma_lower_bound_range(s.drop_last(), k, v);
    }
}

/// The length after a sequence of updates is the starting length, plus the
/// insertions, minus the deletions that found their member and the removals
/// of a first element.
pub proof fn lemma_length_after_ops(s: Seq<Entry>, ops: Seq<ListOp>)
    ensures
        apply_ops(s, ops).len() + removal_count(s, ops) == s.len() + insert_count(ops),
    decreases ops.len(),
{
    if ops.len() > 0 {
        lemma_length_after_ops(s, ops.drop_last());
        let t = apply_ops(s, ops.drop_last());
        match ops.last() {
            ListOp::Insert(sc, v) => {
                lemma_upper_bound_range(t, score_key(sc.bits), v);
            },
            ListOp::Delete(v) => {
                lemma_index_of_value_props(t, v);
            },
            ListOp::PopFront => {},
        }
    }
}

/// In a sorted sequence, the rank of any stored element leads back, through
/// the element at that rank, to the same member.
pub proof fn lemma_rank_round_trip(s: Seq<Entry>, i: int)
    requires
        sorted(s),
        0 <= i < s.len(),
    ensures
        rank_of(s, s[i]) is Some,
        member_at(s, rank_of(s, s[i])->0) == Some(s[i].1),
{
    let e = s[i];
    lemma_lower_bound_props(s, score_key(e.0.bits), e.1);
    let k = lower_bound(s, e);
    assert(!below(s[i], score_key(e.0.bits), e.1));
    assert(k <= i);
    if k < i {
        assert(!entry_lt(s[i], s[k]));
    }
    assert(!below(s[k], score_key(e.0.bits), e.1));
    assert(entry_eq(s[k], e));
}

/// An inserted member is then present.
pub proof fn lemma_contains_after_insert(s: Seq<Entry>, sc: Score, v: i64)
    ensures
        has_value(inserted(s, (sc, v)), v),
{
    lemma_upper_bound_range(s, score_key(sc.bits), v);
    let k = upper_bound(s, (sc, v));
    assert(inserted(s, (sc, v))[k] == (sc, v));
}

/// Deleting a member held by at most one element leaves it absent.
pub proof fn lemma_absent_after_delete(s: Seq<Entry>, v: i64)
    requires
        forall|i: int, j: int| 0 <= i < j < s.len() && s[i].1 == v ==> s[j].1 != v,
    ensures
        !has_value(deleted(s, v), v),
{
    lemma_index_of_value_props(s, v);
    let k = index_of_value(s, v);
    if has_value(deleted(s, v), v) {
        let d = deleted(s, v);
        let i = choose|i: int| 0 <= i < d.len() && (#[trigger] d[i]).1 == v;
        if k >= 0 {
            if i < k {
                assert(d[i] == s[i]);
            } else {
                assert(d[i] == s[i + 1]);
            }
        } else {
            assert(d[i] == s[i]);
        }
    }
}

/// The elements once each of `es` is inserted in turn.
pub open spec fn insert_all(s: Seq<Entry>, es: Seq<Entry>) -> Seq<Entry>
    decreases es.len(),
{
    if es.len() == 0 {
        s
    } else {
        inserted(insert_all(s, es.drop_last()), es.last())
    }
}

/// No two elements have the same score.
pub open spec fn distinct_scores(s: Seq<Entry>) -> bool {
    forall|i: int, j: int|
        0 <= i < j < s.len() ==> score_key(#[trigger] s[i].0.bits) != score_key(#[trigger] s[j].0.bits)
}

/// Inserting into a sorted sequence keeps it sorted and adds the element
/// once.
pub proof fn lemma_inserted_sorted(s: Seq<Entry>, e: Entry)
    requires
        sorted(s),
    ensures
        sorted(inserted(s, e)),
        inserted(s, e).to_multiset() == s.to_multiset().insert(e),
{
    broadcast use vstd::seq_lib::to_multiset_insert;

    lemma_upper_bound_props(s, score_key(e.0.bits), e.1);
    let r = upper_bound(s, e);
    let t = inserted(s, e);
    assert forall|i: int, j: int| 0 <= i < j < t.len() implies !#[trigger] entry_lt(t[j], t[i]) by {
        if i < r && j == r {
            assert(not_after(s[i], score_key(e.0.bits), e.1));
        } else if i == r {
            assert(!not_after(s[j - 1], score_key(e.0.bits), e.1));
        } else if i < r && j > r {
            assert(!entry_lt(s[j - 1], s[i]));
        } else if j < r {
            assert(!entry_lt(s[j], s[i]));
        } else {
            assert(!entry_lt(s[j - 1], s[i - 1]));
        }
    }
}

/// Inserting elements one by one into an empty list, in any order, gives
/// back each of them exactly as often as it was inserted, sorted; where no
/// two inserted elements share a score, the scores strictly increase.
pub proof fn lemma_insert_all(es: Seq<Entry>)
    ensures
        sorted(insert_all(Seq::empty(), es)),
        insert_all(Seq::empty(), es).to_multiset() == es.to_multiset(),
        distinct_scores(es) ==> forall|i: int, j: int|
            0 <= i < j < insert_all(Seq::<Entry>::empty(), es).len() ==> score_key(
                #[trigger] insert_all(Seq::<Entry>::empty(), es)[i].0.bits,
            ) < score_key(#[trigger] insert_all(Seq::<Entry>::empty(), es)[j].0.bits),
    decreases es.len(),
{
    broadcast use vstd::seq_lib::to_multiset_build;
    broadcast use vstd::seq_lib::to_multiset_contains;

    let r = insert_all(Seq::<Entry>::empty(), es);
    if es.len() == 0 {
        assert(es.to_multiset() =~= Multiset::<Entry>::empty()) by {
            broadcast use vstd::seq_lib::to_multiset_len;
            broadcast use vstd::multiset::group_multiset_axioms;
        }
        assert(r.to_multiset() =~= Multiset::<Entry>::empty()) by {
            broadcast use vstd::seq_lib::to_multiset_len;
            broadcast use vstd::multiset::group_multiset_axioms;
        }
    } else {
        let pre = es.drop_last();
        let e = es.last();
        lemma_insert_all(pre);
        let q = insert_all(Seq::<Entry>::empty(), pre);
        lemma_inserted_sorted(q, e);
        assert(es =~= pre.push(e));
        if distinct_scores(es) {
            assert(distinct_scores(pre)) by {
                assert forall|i: int, j: int| 0 <= i < j < pre.len() implies score_key(#[trigger] pre[i].0.bits)
                    != score_key(#[trigger] pre[j].0.bits) by {
                    assert(pre[i] == es[i] && pre[j] == es[j]);
                }
            }
            assert forall|i: int| 0 <= i < q.len() implies score_key(#[trigger] q[i].0.bits) != score_key(e.0.bits) by {
                assert(q.to_multiset().count(q[i]) > 0);
                assert(pre.contains(q[i]));
                let j = choose|j: int| 0 <= j < pre.len() && pre[j] == q[i];
                assert(es[j] == pre[j]);
                assert(es[es.len() - 1] == e);
            }
            lemma_upper_bound_range(q, score_key(e.0.bits), e.1);
            let k = upper_bound(q, e);
            assert forall|i: int, j: int| 0 <= i < j < r.len() implies score_key(#[trigger] r[i].0.bits)
                < score_key(#[trigger] r[j].0.bits) by {
                assert(!entry_lt(r[j], r[i]));
                let ii = if i < k { i } else { i - 1 };
                let jj = if j < k { j } else { j - 1 };
                if i != k && j != k {
                    assert(r[i] == q[ii] && r[j] == q[jj]);
                } else if i == k {
                    assert(r[j] == q[jj]);
                } else {
                    assert(r[i] == q[ii]);
                }
            }
        }
    }
}

/// Deleting a member that no element holds changes nothing.
pub proof fn lemma_delete_absent(s: Seq<Entry>, v: i64)
    requires
        !has_value(s, v),
    ensures
        deleted(s, v) == s,
        deleted(s, v).len() == s.len(),
{
    lemma_index_of_value_props(s, v);
}

/// Removing the first element as many times as there are elements leaves
/// none.
pub proof fn lemma_pop_drains(s: Seq<Entry>)
    ensures
        popped_times(s, s.len()) == Seq::<Entry>::empty(),
        members(popped_times(s, s.len())) == Seq::<i64>::empty(),
{
    lemma_popped_times_len(s, s.len());
    assert(popped_times(s, s.len()) =~= Seq::<Entry>::empty());
    assert(members(popped_times(s, s.len())) =~= Seq::<i64>::empty());
}

proof fn lemma_popped_times_len(s: Seq<Entry>, k: nat)
    requires
        k <= s.len(),
    ensures
        popped_times(s, k).len() == s.len() - k,
    decreases k,
{
    if k > 0 {
        lemma_popped_times_len(s, (k - 1) as nat);
    }
}

/// In a sorted sequence the elements no later than a bound come first.
pub proof fn lemma_upper_bound_props(s: Seq<Entry>, k: u64, v: i64)
    requires
        sorted(s),
    ensures
        0 <= upper_bound_key(s, k, v) <= s.len(),
        forall|i: int| 0 <= i < upper_bound_key(s, k, v) ==> not_after(#[trigger] s[i], k, v),
        forall|i: int| upper_bound_key(s, k, v) <= i < s.len() ==> !not_after(#[trigger] s[i], k, v),
    decreases s.len(),
{
    if s.len() > 0 {
        let last = s.len() - 1;
        if not_after(s[last], k, v) {
            assert forall|i: int| 0 <= i < s.len() implies not_after(#[trigger] s[i], k, v) by {
                if i < last {
                    assert(!entry_lt(s[last], s[i]));
                }
            }
        } else {
            let t = s.drop_last();
            assert(sorted(t)) by {
                assert forall|i: int, j: int| 0 <= i < j < t.len() implies !#[trigger] entry_lt(t[j], t[i]) by {
                    assert(t[i] == s[i]);
                    assert(t[j] == s[j]);
                }
            }
            lemma_upper_bound_props(t, k, v);
            assert forall|i: int| 0 <= i < upper_bound_key(s, k, v) implies not_after(#[trigger] s[i], k, v) by {
                assert(t[i] == s[i]);
            }
            assert forall|i: int| upper_bound_key(s, k, v) <= i < s.len() implies !not_after(#[trigger] s[i], k, v) by {
                if i < last {
                    assert(t[i] == s[i]);
                }
            }
        }
    }
}

/// An upper bound lies between zero and the length.
pub proof fn lemma_upper_bound_range(s: Seq<Entry>, k: u64, v: i64)
    ensures
        0 <= upper_bound_key(s, k, v) <= s.len(),
    decreases s.len(),
{
    if s.len() > 0 {
        lemma_upper_bound_range(s.drop_last(), k, v);
    }
}

/// Upper bound of a sequence, told by where the elements no later than the
/// bound stop.
pub proof fn lemma_upper_bound_at(s: Seq<Entry>, k: u64, v: i64, c: int)
    requires
        0 <= c <= s.len(),
        forall|i: int| 0 <= i < c ==> not_after(#[trigger] s[i], k, v),
        forall|i: int| c <= i < s.len() ==> !not_after(#[trigger] s[i], k, v),
    ensures
        upper_bound_key(s, k, v) == c,
    decreases s.len(),
{
    if s.len() > 0 {
        if c == s.len() {
            assert(not_after(s[s.len() - 1], k, v));
        } else {
            assert(!not_after(s[s.len() - 1], k, v));
            lemma_upper_bound_at(s.drop_last(), k, v, c);
        }
    }
}

/// Lower bound of a sequence, told by where the elements below the bound stop.
pub proof fn lemma_lower_bound_at(s: Seq<Entry>, k: u64, v: i64, c: int)
    requires
        0 <= c <= s.len(),
        forall|i: int| 0 <= i < c ==> below(#[trigger] s[i], k, v),
        forall|i: int| c <= i < s.len() ==> !below(#[trigger] s[i], k, v),
    ensures
        lower_bound_key(s, k, v) == c,
    decreases s.len(),
{
    if s.len() > 0 {
        if c == s.len() {
            assert(below(s[s.len() - 1], k, v));
        } else {
            assert(!below(s[s.len() - 1], k, v));
            lemma_lower_bound_at(s.drop_last(), k, v, c);
        }
    }
}

/// The first index with member `v` is in range, holds `v`, and exists
/// exactly when some element has member `v`.
pub proof fn lemma_index_of_value_props(s: Seq<Entry>, v: i64)
    ensures
        -1 <= index_of_value(s, v) < s.len(),
        index_of_value(s, v) >= 0 ==> s[index_of_value(s, v)].1 == v,
        index_of_value(s, v) >= 0 <==> has_value(s, v),
    decreases s.len(),
{
    if s.len() > 0 {
        lemma_index_of_value_props(s.drop_last(), v);
        let k = index_of_value(s.drop_last(), v);
        if k < 0 && s.last().1 != v {
            if has_value(s, v) {
                let i = choose|i: int| 0 <= i < s.len() && (#[trigger] s[i]).1 == v;
                assert(s.drop_last()[i] == s[i]);
            }
        }
        if k >= 0 {
            assert(s.drop_last()[k] == s[k]);
        }
    }
}

/// The first index with member `v`, told by its properties.
pub proof fn lemma_index_of_value_at(s: Seq<Entry>, v: i64, k: int)
    requires
        -1 <= k < s.len(),
        k >= 0 ==> s[k].1 == v,
        forall|i: int| 0 <= i < s.len() && (k < 0 || i < k) ==> (#[trigger] s[i]).1 != v,
    ensures
        index_of_value(s, v) == k,
    decreases s.len(),
{
    if s.len() > 0 {
        if k == s.len() - 1 {
            lemma_index_of_value_at(s.drop_last(), v, -1);
        } else {
            assert(k < 0 ==> s[s.len() - 1].1 != v);
            lemma_index_of_value_at(s.drop_last(), v, k);
        }
    }
}

/// The first position after `p` whose height exceeds `l`, or `hs.len()` when
/// there is none.
pub open spec fn next_up(hs: Seq<int>, l: int, p: int) -> int
    decreases hs.len() - p,
{
    if p + 1 >= hs.len() {
        hs.len() as int
    } else if hs[p + 1] > l {
        p + 1
    } else {
        next_up(hs, l, p + 1)
    }
}

/// `next_up` lies after `p`, names a taller position unless it is the end,
/// and skips only positions no taller than `l`.
pub proof fn lemma_next_up_props(hs: Seq<int>, l: int, p: int)
    requires
        0 <= p < hs.len(),
    ensures
        p < next_up(hs, l, p) <= hs.len(),
        next_up(hs, l, p) < hs.len() ==> hs[next_up(hs, l, p)] > l,
        forall|q: int| p < q < next_up(hs, l, p) ==> hs[q] <= l,
    decreases hs.len() - p,
{
    if p + 1 < hs.len() && hs[p + 1] <= l {
        lemma_next_up_props(hs, l, p + 1);
    }
}

/// A position after `p` that is taller than `l` (or the end), with nothing
/// taller between, is `next_up`.
pub proof fn lemma_next_up_unique(hs: Seq<int>, l: int, p: int, r: int)
    requires
        0 <= p < r <= hs.len(),
        r < hs.len() ==> hs[r] > l,
        forall|q: int| p < q < r ==> hs[q] <= l,
    ensures
        next_up(hs, l, p) == r,
    decreases hs.len() - p,
{
    if p + 1 < r {
        assert(hs[p + 1] <= l);
        lemma_next_up_unique(hs, l, p + 1, r);
    }
}

/// A skip list of `(score, member)` elements, ordered by score and then by
/// member, with per-level spans for rank arithmetic.
///
/// Nodes live in an arena; slot 0 is the sentinel head, and links are slots.
/// The ghost `order` lists the slots by position: position 0 is the head,
/// positions `1..=len` the elements in order.
pub struct ZSkipList {
    nodes: Vec<ZSkipNode>,
    free: Vec<usize>,
    tail: usize,
    cur_level: usize,
    len: usize,
    level_generator: DefaultLevelGenerator,
    order: Ghost<Seq<usize>>,
}

impl View for ZSkipList {
    type V = Seq<Entry>;

    closed spec fn view(&self) -> Seq<Entry> {
        Seq::new(self.len as nat, |i: int| self.entry_at(i + 1))
    }
}

impl ZSkipList {
    spec fn node_at(&self, p: int) -> ZSkipNode {
        self.nodes@[self.order@[p] as int]
    }

    spec fn entry_at(&self, p: int) -> Entry {
        (self.node_at(p).score, self.node_at(p).val.unwrap())
    }

    /// Heights by position; the head counts with its full level bound.
    spec fn hts(&self) -> Seq<int> {
        Seq::new((self.len + 1) as nat, |p: int| self.node_at(p).level@.len() as int)
    }

    spec fn link_ok(&self, p: int, l: int) -> bool {
        let q = next_up(self.hts(), l, p);
        let n = self.len as int;
        let lv = self.node_at(p).level@[l];
        &&& lv.forward == (if q <= n {
            Some(self.order@[q])
        } else {
            None::<usize>
        })
        &&& (p > 0 || l < self.cur_level) ==> lv.span == (if q <= n {
            q
        } else {
            n
        }) - p
    }

    spec fn order_ok(&self) -> bool {
        let ord = self.order@;
        let n = self.len as int;
        &&& ord.len() == n + 1
        &&& ord[0] == 0
        &&& forall|p: int| 0 <= p <= n ==> (#[trigger] ord[p]) < self.nodes@.len()
        &&& forall|p: int, q: int| 0 <= p < q <= n ==> #[trigger] ord[p] != #[trigger] ord[q]
    }

    spec fn free_ok(&self) -> bool {
        let ord = self.order@;
        let fr = self.free@;
        &&& forall|i: int| 0 <= i < fr.len() ==> 0 < #[trigger] fr[i] < self.nodes@.len()
        &&& forall|i: int, p: int|
            0 <= i < fr.len() && 0 <= p <= self.len ==> #[trigger] fr[i] != #[trigger] ord[p]
        &&& forall|i: int, j: int| 0 <= i < j < fr.len() ==> #[trigger] fr[i] != #[trigger] fr[j]
    }

    spec fn shape_ok(&self) -> bool {
        let n = self.len as int;
        let bound = self.level_generator.spec_level_bound();
        &&& self.level_generator.spec_wf()
        &&& self.len < usize::MAX
        &&& self.cur_level <= bound
        &&& self.nodes@[0].level@.len() == bound
        &&& forall|p: int|
            1 <= p <= n ==> 1 <= (#[trigger] self.node_at(p)).level@.len() <= self.cur_level
                && self.node_at(p).val is Some
    }

    spec fn links_ok(&self) -> bool {
        forall|p: int, l: int|
            0 <= p <= self.len && 0 <= l < self.hts()[p] ==> #[trigger] self.link_ok(p, l)
    }

    spec fn back_ok(&self) -> bool {
        &&& forall|p: int|
            1 <= p <= self.len ==> (#[trigger] self.node_at(p)).backward == (if p == 1 {
                None::<usize>
            } else {
                Some(self.order@[p - 1])
            })
        &&& self.tail == self.order@[self.len as int]
    }

    /// The structure's invariant: positions, heights, links, spans, backward
    /// links and the tail agree, and the elements are sorted.
    pub closed spec fn wf(&self) -> bool {
        &&& self.order_ok()
        &&& self.free_ok()
        &&& self.shape_ok()
        &&& self.links_ok()
        &&& self.back_ok()
        &&& sorted(self@)
    }

    /// The level bound fixed at creation.
    pub closed spec fn spec_level_bound(&self) -> nat {
        self.level_generator.spec_level_bound()
    }

    /// An empty list with the default level policy.
    pub fn zsl_create() -> (r: ZSkipList)
        ensures
            r.wf(),
            r@ == Seq::<Entry>::empty(),
            r.spec_level_bound() == ZSKIPLIST_MAXLEVEL,
    {
        let g = DefaultLevelGenerator::default_policy();
        ZSkipList::with_level_generator(g)
    }

    /// The number of elements.
    pub fn get_len(&self) -> (r: usize)
        requires
            self.wf(),
        ensures
            r == self@.len(),
    {
        self.len
    }

    proof fn lemma_view(&self)
        requires
            self.wf(),
        ensures
            self@.len() == self.len,
            self.spec_level_bound() >= 1,
            forall|i: int| 0 <= i < self.len ==> #[trigger] self@[i] == self.entry_at(i + 1),
            forall|p: int, q: int|
                1 <= p < q <= self.len ==> !entry_lt(#[trigger] self.entry_at(q), #[trigger] self.entry_at(p)),
    {
        self.level_generator.lemma_wf_bound();
        assert forall|p: int, q: int| 1 <= p < q <= self.len implies !entry_lt(
            #[trigger] self.entry_at(q),
            #[trigger] self.entry_at(p),
        ) by {
            assert(self@[q - 1] == self.entry_at(q));
            assert(self@[p - 1] == self.entry_at(p));
        }
    }

    /// Predecessors of the bound `(k, v)` at every level: `update[l]` is the
    /// slot at position `rank[l]`, the last node of height above `l` whose
    /// element is below the bound, or, with `incl`, no later than it.
    fn find_by_key(&self, k: u64, v: i64, incl: bool) -> (res: (Vec<usize>, Vec<usize>))
        requires
            self.wf(),
        ensures
            res.0@.len() == self.spec_level_bound(),
            res.1@.len() == self.spec_level_bound(),
            res.1@[0] <= self.len,
            forall|p: int| 1 <= p <= res.1@[0] ==> at_bound(#[trigger] self.entry_at(p), k, v, incl),
            forall|p: int| res.1@[0] < p <= self.len ==> !at_bound(#[trigger] self.entry_at(p), k, v, incl),
            forall|j: int|
                0 <= j < self.spec_level_bound() ==> {
                    let r = #[trigger] res.1@[j] as int;
                    &&& r <= res.1@[0]
                    &&& res.0@[j] == self.order@[r]
                    &&& self.hts()[r] > j
                    &&& next_up(self.hts(), j, r) > res.1@[0]
                },
    {
        proof {
            self.lemma_view();
            self.level_generator.lemma_wf_bound();
        }
        let bound = self.level_generator.level_bound();
        let mut update: Vec<usize> = vec![0usize; bound];
        let mut rank: Vec<usize> = vec![0usize; bound];
        let ghost hs = self.hts();
        let ghost n = self.len as int;
        let mut x: usize = 0;
        let mut r: usize = 0;
        let mut i: usize = self.cur_level;
        proof {
            assert forall|j: int| self.cur_level <= j < bound implies next_up(hs, j, 0) == n + 1 by {
                lemma_next_up_unique(hs, j, 0, n + 1);
            }
        }
        while i > 0
            invariant
                self.wf(),
                hs == self.hts(),
                n == self.len,
                bound == self.spec_level_bound(),
                update@.len() == bound,
                rank@.len() == bound,
                i <= self.cur_level,
                r <= n,
                x == self.order@[r as int],
                hs[r as int] >= i,
                i < bound ==> rank@[i as int] == r,
                r == 0 || at_bound(self.entry_at(r as int), k, v, incl),
                forall|j: int| self.cur_level <= j < bound ==> update@[j] == 0 && rank@[j] == 0,
                forall|j: int| self.cur_level <= j < bound ==> next_up(hs, j, 0) == n + 1,
                forall|j: int|
                    i <= j < bound ==> {
                        let rj = #[trigger] rank@[j] as int;
                        &&& rj <= r
                        &&& update@[j] == self.order@[rj]
                        &&& hs[rj] > j
                        &&& (next_up(hs, j, rj) > n || !at_bound(self.entry_at(next_up(hs, j, rj)), k, v, incl))
                    },
            decreases i,
        {
            i = i - 1;
            let ghost r_before = r;
            loop
                invariant
                    self.wf(),
                    r_before <= r,
                    hs == self.hts(),
                    n == self.len,
                    i < self.cur_level,
                    r <= n,
                    x == self.order@[r as int],
                    hs[r as int] > i,
                    r == 0 || at_bound(self.entry_at(r as int), k, v, incl),
            ensures
                r_before <= r <= n,
                x == self.order@[r as int],
                hs[r as int] > i,
                r == 0 || at_bound(self.entry_at(r as int), k, v, incl),
                next_up(hs, i as int, r as int) > n || !at_bound(self.entry_at(next_up(hs, i as int, r as int)), k, v, incl),
            decreases n - r,
            {
                assert(self.link_ok(r as int, i as int));
                proof {
                    lemma_next_up_props(hs, i as int, r as int);
                }
                match self.nodes[x].level[i].forward {
                    Some(f) => {
                        let fnode = &self.nodes[f];
                        let fkey = fnode.score.key();
                        let fval = match fnode.val {
                            Some(v) => v,
                            None => 0,
                        };
                        if fkey < k || (fkey == k && (fval < v || (incl && fval == v))) {
                            r = r + self.nodes[x].level[i].span;
                            x = f;
                        } else {
                            break;
                        }
                    },
                    None => {
                        break;
                    },
                }
            }
            assert(self.link_ok(r as int, i as int));
            update.set(i, x);
            rank.set(i, r);
        }
        proof {
            let r0 = r as int;
            if r0 < n {
                lemma_next_up_props(hs, 0, r0);
                assert(hs[r0 + 1] >= 1);
                lemma_next_up_unique(hs, 0, r0, r0 + 1);
            }
            assert forall|p: int| 1 <= p <= r0 implies at_bound(#[trigger] self.entry_at(p), k, v, incl) by {
                if p < r0 {
                    assert(!entry_lt(self.entry_at(r0), self.entry_at(p)));
                }
            }
            assert forall|p: int| r0 < p <= n implies !at_bound(#[trigger] self.entry_at(p), k, v, incl) by {
                if p > r0 + 1 {
                    assert(!entry_lt(self.entry_at(p), self.entry_at(r0 + 1)));
                }
            }
            assert forall|j: int| 0 <= j < bound implies next_up(hs, j, #[trigger] rank@[j] as int) > r0 by {
                let rj = rank@[j] as int;
                lemma_next_up_props(hs, j, rj);
                let q = next_up(hs, j, rj);
                if q <= n {
                    assert(!at_bound(self.entry_at(q), k, v, incl));
                }
            }
        }
        (update, rank)
    }

    /// Predecessors of position `target` at every level: `update[l]` is the
    /// slot at position `rank[l]`, the last node of height above `l` before
    /// `target`.
    fn find_by_pos(&self, target: usize) -> (res: (Vec<usize>, Vec<usize>))
        requires
            self.wf(),
            1 <= target <= self.len,
        ensures
            res.0@.len() == self.spec_level_bound(),
            res.1@.len() == self.spec_level_bound(),
            res.1@[0] == target - 1,
            forall|j: int|
                0 <= j < self.spec_level_bound() ==> {
                    let r = #[trigger] res.1@[j] as int;
                    &&& r < target
                    &&& res.0@[j] == self.order@[r]
                    &&& self.hts()[r] > j
                    &&& next_up(self.hts(), j, r) >= target
                },
    {
        proof {
            self.level_generator.lemma_wf_bound();
        }
        let bound = self.level_generator.level_bound();
        let mut update: Vec<usize> = vec![0usize; bound];
        let mut rank: Vec<usize> = vec![0usize; bound];
        let ghost hs = self.hts();
        let ghost n = self.len as int;
        let mut x: usize = 0;
        let mut r: usize = 0;
        let mut i: usize = self.cur_level;
        proof {
            assert forall|j: int| self.cur_level <= j < bound implies next_up(hs, j, 0) == n + 1 by {
                lemma_next_up_unique(hs, j, 0, n + 1);
            }
        }
        while i > 0
            invariant
                self.wf(),
                hs == self.hts(),
                n == self.len,
                1 <= target <= n,
                bound == self.spec_level_bound(),
                update@.len() == bound,
                rank@.len() == bound,
                i <= self.cur_level,
                r < target,
                x == self.order@[r as int],
                hs[r as int] >= i,
                i < bound ==> rank@[i as int] == r,
                forall|j: int| self.cur_level <= j < bound ==> update@[j] == 0 && rank@[j] == 0,
                forall|j: int| self.cur_level <= j < bound ==> next_up(hs, j, 0) == n + 1,
                forall|j: int|
                    i <= j < bound ==> {
                        let rj = #[trigger] rank@[j] as int;
                        &&& rj <= r
                        &&& update@[j] == self.order@[rj]
                        &&& hs[rj] > j
                        &&& next_up(hs, j, rj) >= target
                    },
            decreases i,
        {
            i = i - 1;
            let ghost r_before = r;
            loop
                invariant
                    self.wf(),
                    r_before <= r,
                    hs == self.hts(),
                    n == self.len,
                    1 <= target <= n,
                    i < self.cur_level,
                    r < target,
                    x == self.order@[r as int],
                    hs[r as int] > i,
                ensures
                    r_before <= r < target,
                    x == self.order@[r as int],
                    hs[r as int] > i,
                    next_up(hs, i as int, r as int) >= target,
                decreases n - r,
            {
                assert(self.link_ok(r as int, i as int));
                proof {
                    lemma_next_up_props(hs, i as int, r as int);
                }
                match self.nodes[x].level[i].forward {
                    Some(f) => {
                        if r + self.nodes[x].level[i].span < target {
                            r = r + self.nodes[x].level[i].span;
                            x = f;
                        } else {
                            break;
                        }
                    },
                    None => {
                        break;
                    },
                }
            }
            update.set(i, x);
            rank.set(i, r);
        }
        proof {
            let r0 = r as int;
            lemma_next_up_props(hs, 0, r0);
            if r0 + 1 <= n {
                assert(hs[r0 + 1] >= 1);
                lemma_next_up_unique(hs, 0, r0, r0 + 1);
            }
        }
        (update, rank)
    }

    /// `self` and `other` differ at most in their arena.
    spec fn same_but_nodes(&self, other: &ZSkipList) -> bool {
        &&& self.free == other.free
        &&& self.tail == other.tail
        &&& self.cur_level == other.cur_level
        &&& self.len == other.len
        &&& self.level_generator == other.level_generator
        &&& self.order == other.order
        &&& self.nodes@.len() == other.nodes@.len()
    }

    /// `self` and `other` hold the same node in slot `t`, but perhaps for its
    /// levels' contents.
    spec fn same_node_but_links(&self, other: &ZSkipList, t: int) -> bool {
        &&& self.nodes@[t].val == other.nodes@[t].val
        &&& self.nodes@[t].score == other.nodes@[t].score
        &&& self.nodes@[t].level@.len() == other.nodes@[t].level@.len()
    }

    fn set_level(&mut self, slot: usize, l: usize, lv: ZSkipLevel)
        requires
            slot < old(self).nodes@.len(),
            l < old(self).nodes@[slot as int].level@.len(),
        ensures
            final(self).same_but_nodes(old(self)),
            forall|t: int| 0 <= t < old(self).nodes@.len() && t != slot ==> #[trigger] final(self).nodes@[t] == old(self).nodes@[t],
            final(self).same_node_but_links(old(self), slot as int),
            final(self).nodes@[slot as int].backward == old(self).nodes@[slot as int].backward,
            final(self).nodes@[slot as int].level@ == old(self).nodes@[slot as int].level@.update(l as int, lv),
    {
        self.nodes[slot].level.set(l, lv);
    }

    fn set_backward(&mut self, slot: usize, b: Option<usize>)
        requires
            slot < old(self).nodes@.len(),
        ensures
            final(self).same_but_nodes(old(self)),
            forall|t: int| 0 <= t < old(self).nodes@.len() && t != slot ==> #[trigger] final(self).nodes@[t] == old(self).nodes@[t],
            final(self).same_node_but_links(old(self), slot as int),
            final(self).nodes@[slot as int].backward == b,
            final(self).nodes@[slot as int].level@ == old(self).nodes@[slot as int].level@,
    {
        self.nodes[slot].backward = b;
    }

    /// Raises the current level to `level`, giving the head's new links the
    /// span of the whole list.
    fn raise_level(&mut self, level: usize)
        requires
            old(self).wf(),
            old(self).cur_level < level <= old(self).spec_level_bound(),
        ensures
            final(self).wf(),
            final(self).cur_level == level,
            final(self)@ == old(self)@,
            final(self).hts() == old(self).hts(),
            final(self).order == old(self).order,
            final(self).len == old(self).len,
            final(self).free == old(self).free,
            final(self).spec_level_bound() == old(self).spec_level_bound(),
            final(self).nodes@.len() == old(self).nodes@.len(),
            forall|t: int| 0 <= t < old(self).nodes@.len() ==> final(self).same_node_but_links(old(self), t),
    {
        let ghost pre = *self;
        let ghost hs = self.hts();
        let ghost n = self.len as int;
        proof {
            assert forall|j: int| pre.cur_level <= j < pre.spec_level_bound() implies next_up(hs, j, 0) == n + 1 by {
                lemma_next_up_unique(hs, j, 0, n + 1);
            }
        }
        let mut i: usize = self.cur_level;
        while i < level
            invariant
                pre.wf(),
                hs == pre.hts(),
                n == pre.len,
                pre.cur_level <= i <= level,
                level <= pre.spec_level_bound(),
                self.same_but_nodes(&pre),
                forall|t: int| 0 <= t < pre.nodes@.len() && t != 0 ==> #[trigger] self.nodes@[t] == pre.nodes@[t],
                self.same_node_but_links(&pre, 0),
                self.nodes@[0].backward == pre.nodes@[0].backward,
                forall|l: int| 0 <= l < pre.spec_level_bound() ==> #[trigger] self.nodes@[0].level@[l] == (if pre.cur_level <= l < i {
                    ZSkipLevel { forward: None, span: pre.len }
                } else {
                    pre.nodes@[0].level@[l]
                }),
                forall|j: int| pre.cur_level <= j < pre.spec_level_bound() ==> next_up(hs, j, 0) == n + 1,
            decreases level - i,
        {
            assert(pre.link_ok(0, i as int));
            self.set_level(0, i, ZSkipLevel { forward: None, span: self.len });
            i = i + 1;
        }
        self.cur_level = level;
        proof {
            assert forall|p: int| 0 <= p <= n implies #[trigger] self.node_at(p) == pre.node_at(p) || p == 0 by {}
            assert(self.hts() =~= pre.hts());
            assert(self@ =~= pre@);
            assert forall|p: int, l: int| 0 <= p <= self.len && 0 <= l < self.hts()[p] implies #[trigger] self.link_ok(p, l) by {
                assert(pre.link_ok(p, l));
                if p > 0 {
                    assert(pre.order@[p] != 0);
                }
            }
        }
    }

    /// Places `node` in a vacant slot of the arena, reusing a freed one when
    /// there is one.
    fn alloc_node(&mut self, node: ZSkipNode) -> (s: usize)
        requires
            old(self).wf(),
        ensures
            final(self).wf(),
            0 < s < final(self).nodes@.len(),
            final(self).nodes@[s as int] == node,
            forall|p: int| 0 <= p <= final(self).len ==> #[trigger] final(self).order@[p] != s,
            forall|i: int| 0 <= i < final(self).free@.len() ==> #[trigger] final(self).free@[i] != s,
            forall|t: int| 0 <= t < old(self).nodes@.len() && t != s ==> #[trigger] final(self).nodes@[t] == old(self).nodes@[t],
            old(self).nodes@.len() <= final(self).nodes@.len(),
            final(self)@ == old(self)@,
            final(self).hts() == old(self).hts(),
            final(self).order == old(self).order,
            final(self).len == old(self).len,
            final(self).tail == old(self).tail,
            final(self).cur_level == old(self).cur_level,
            final(self).level_generator == old(self).level_generator,
    {
        let ghost pre = *self;
        let s = match self.free.pop() {
            Some(s) => {
                assert(pre.free@[pre.free@.len() - 1] == s);
                self.nodes.set(s, node);
                s
            },
            None => {
                self.nodes.push(node);
                self.nodes.len() - 1
            },
        };
        proof {
            assert forall|p: int| 0 <= p <= self.len implies #[trigger] self.order@[p] != s by {
                if pre.free@.len() > 0 {
                    assert(pre.free@[pre.free@.len() - 1] != pre.order@[p]);
                }
            }
            assert forall|p: int| 0 <= p <= self.len implies #[trigger] self.node_at(p) == pre.node_at(p) by {}
            assert(self.hts() =~= pre.hts());
            assert(self@ =~= pre@);
            assert forall|i: int| 0 <= i < self.free@.len() implies #[trigger] self.free@[i] != s by {
                assert(pre.free@[i] == self.free@[i]);
                if pre.free@.len() > 0 {
                    assert(i < pre.free@.len() - 1);
                }
            }
            assert forall|i: int, p: int| 0 <= i < self.free@.len() && 0 <= p <= self.len implies #[trigger] self.free@[i] != #[trigger] self.order@[p] by {
                assert(pre.free@[i] == self.free@[i]);
            }
            assert forall|i: int, j: int| 0 <= i < j < self.free@.len() implies #[trigger] self.free@[i] != #[trigger] self.free@[j] by {
                assert(pre.free@[i] == self.free@[i]);
                assert(pre.free@[j] == self.free@[j]);
            }
            assert forall|p: int, l: int| 0 <= p <= self.len && 0 <= l < self.hts()[p] implies #[trigger] self.link_ok(p, l) by {
                assert(pre.link_ok(p, l));
            }
        }
        s
    }

    /// The level `l` of slot `t` once the node in slot `s`, of height `lvl`,
    /// is linked in after the predecessors `upd` at positions `rk`.
    spec fn ins_level(&self, upd: Seq<usize>, rk: Seq<usize>, s: int, lvl: int, t: int, l: int) -> ZSkipLevel {
        let u = upd[l] as int;
        let ulv = self.nodes@[u].level@[l];
        let d = rk[0] - rk[l];
        if t == s {
            if l < lvl {
                ZSkipLevel { forward: ulv.forward, span: (ulv.span - d) as usize }
            } else {
                self.nodes@[s].level@[l]
            }
        } else if t == u && l < lvl {
            ZSkipLevel { forward: Some(s as usize), span: (d + 1) as usize }
        } else if t == u && lvl <= l < self.cur_level {
            ZSkipLevel { forward: ulv.forward, span: (ulv.span + 1) as usize }
        } else {
            self.nodes@[t].level@[l]
        }
    }

    /// Facts on the predecessors that `find_by_key` returns.
    spec fn preds_ok(&self, upd: Seq<usize>, rk: Seq<usize>) -> bool {
        &&& upd.len() == self.spec_level_bound()
        &&& rk.len() == self.spec_level_bound()
        &&& rk[0] <= self.len
        &&& forall|j: int|
            0 <= j < self.spec_level_bound() ==> {
                let r = #[trigger] rk[j] as int;
                &&& r <= rk[0]
                &&& upd[j] == self.order@[r]
                &&& self.hts()[r] > j
                &&& next_up(self.hts(), j, r) > rk[0]
            }
    }

    proof fn lemma_pred_unique(&self, upd: Seq<usize>, rk: Seq<usize>, p: int, l: int)
        requires
            self.wf(),
            self.preds_ok(upd, rk),
            0 <= p <= rk[0],
            0 <= l < self.hts()[p],
            l < self.spec_level_bound(),
            next_up(self.hts(), l, p) > rk[0],
        ensures
            p == rk[l],
    {
        let hs = self.hts();
        let r = rk[l] as int;
        lemma_next_up_props(hs, l, p);
        lemma_next_up_props(hs, l, r);
    }

    /// `post` is `pre` with the node in slot `s`, of height `lvl`, linked in
    /// after the predecessors `upd` at positions `rk`.
    spec fn insert_rel(pre: ZSkipList, post: ZSkipList, upd: Seq<usize>, rk: Seq<usize>, s: usize, lvl: int) -> bool {
        &&& pre.wf()
        &&& pre.preds_ok(upd, rk)
        &&& 1 <= lvl <= pre.cur_level
        &&& 0 < s < pre.nodes@.len()
        &&& (forall|p: int| 0 <= p <= pre.len ==> #[trigger] pre.order@[p] != s)
        &&& pre.nodes@[s as int].level@.len() == lvl
        &&& post.len == pre.len + 1
        &&& post.cur_level == pre.cur_level
        &&& post.order@ == pre.order@.insert(rk[0] + 1, s)
        &&& post.nodes@.len() == pre.nodes@.len()
        &&& (forall|t: int| 0 <= t < pre.nodes@.len() ==> #[trigger] post.same_node_but_links(&pre, t))
        &&& (forall|t: int, l: int|
            0 <= t < pre.nodes@.len() && 0 <= l < pre.nodes@[t].level@.len() ==> #[trigger] post.nodes@[t].level@[l]
                == pre.ins_level(upd, rk, s as int, lvl, t, l))
    }

    proof fn lemma_insert_hts(pre: ZSkipList, post: ZSkipList, upd: Seq<usize>, rk: Seq<usize>, s: usize, lvl: int)
        requires
            Self::insert_rel(pre, post, upd, rk, s, lvl),
        ensures
            post.hts() == pre.hts().insert(rk[0] + 1, lvl),
    {
        let hs = pre.hts();
        let n = pre.len as int;
        let pp = rk[0] + 1;
        let hs2 = post.hts();
        let hs3 = hs.insert(pp, lvl);
        assert forall|p: int| 0 <= p <= n + 1 implies #[trigger] hs2[p] == hs3[p] by {
            if p < pp {
                let t = pre.order@[p] as int;
                assert(post.order@[p] == t);
                assert(post.same_node_but_links(&pre, t));
                assert(hs3[p] == hs[p]);
            } else if p > pp {
                let t = pre.order@[p - 1] as int;
                assert(post.order@[p] == t);
                assert(post.same_node_but_links(&pre, t));
                assert(hs3[p] == hs[p - 1]);
            } else {
                assert(post.order@[p] == s);
                assert(post.same_node_but_links(&pre, s as int));
            }
        }
        assert(hs2 =~= hs3);
    }

    proof fn lemma_insert_link_before(pre: ZSkipList, post: ZSkipList, upd: Seq<usize>, rk: Seq<usize>, s: usize, lvl: int, p: int, l: int)
        requires
            Self::insert_rel(pre, post, upd, rk, s, lvl),
            post.hts() == pre.hts().insert(rk[0] + 1, lvl),
            0 <= p <= rk[0],
            0 <= l < post.hts()[p],
        ensures
            post.link_ok(p, l),
    {
        let hs = pre.hts();
        let hs2 = post.hts();
        let n = pre.len as int;
        let r0 = rk[0] as int;
        let pp = r0 + 1;
        let t = pre.order@[p] as int;
        assert(post.order@[p] == t);
        assert(pre.link_ok(p, l));
        let q = next_up(hs, l, p);
        lemma_next_up_props(hs, l, p);
        assert(l < pre.spec_level_bound()) by {
            if p > 0 {
                assert(1 <= pre.node_at(p).level@.len() <= pre.cur_level);
            }
        }
        assert(post.nodes@[t].level@[l] == pre.ins_level(upd, rk, s as int, lvl, t, l));
        if q > r0 {
            pre.lemma_pred_unique(upd, rk, p, l);
            assert(upd[l] == t);
            if l < lvl {
                lemma_next_up_unique(hs2, l, p, pp);
                assert(post.order@[pp] == s);
            } else if l < pre.cur_level {
                lemma_next_up_unique(hs2, l, p, q + 1);
                if q <= n {
                    assert(post.order@[q + 1] == pre.order@[q]);
                }
            } else {
                assert(p == 0);
                assert forall|x: int| p < x < n + 2 implies hs2[x] <= l by {
                    if x < pp {
                        assert(1 <= pre.node_at(x).level@.len() <= pre.cur_level);
                    } else if x > pp {
                        assert(1 <= pre.node_at(x - 1).level@.len() <= pre.cur_level);
                    }
                }
                lemma_next_up_unique(hs2, l, p, n + 2);
            }
        } else {
            assert(t != upd[l]) by {
                let r = rk[l] as int;
                if t == upd[l] {
                    assert(pre.order@[r] == pre.order@[p]);
                }
            }
            lemma_next_up_unique(hs2, l, p, q);
            assert(post.order@[q] == pre.order@[q]);
        }
    }

    proof fn lemma_insert_link_new(pre: ZSkipList, post: ZSkipList, upd: Seq<usize>, rk: Seq<usize>, s: usize, lvl: int, l: int)
        requires
            Self::insert_rel(pre, post, upd, rk, s, lvl),
            post.hts() == pre.hts().insert(rk[0] + 1, lvl),
            0 <= l < lvl,
        ensures
            post.link_ok(rk[0] + 1, l),
    {
        let hs = pre.hts();
        let hs2 = post.hts();
        let n = pre.len as int;
        let r0 = rk[0] as int;
        let pp = r0 + 1;
        let r = rk[l] as int;
        let u = upd[l] as int;
        assert(post.order@[pp] == s);
        assert(pre.link_ok(r, l));
        let q = next_up(hs, l, r);
        lemma_next_up_props(hs, l, r);
        assert(post.nodes@[s as int].level@[l] == pre.ins_level(upd, rk, s as int, lvl, s as int, l));
        lemma_next_up_unique(hs2, l, pp, q + 1);
        if q <= n {
            assert(post.order@[q + 1] == pre.order@[q]);
        }
    }

    proof fn lemma_insert_link_after(pre: ZSkipList, post: ZSkipList, upd: Seq<usize>, rk: Seq<usize>, s: usize, lvl: int, p: int, l: int)
        requires
            Self::insert_rel(pre, post, upd, rk, s, lvl),
            post.hts() == pre.hts().insert(rk[0] + 1, lvl),
            rk[0] + 1 < p <= pre.len + 1,
            0 <= l < post.hts()[p],
        ensures
            post.link_ok(p, l),
    {
        let hs = pre.hts();
        let hs2 = post.hts();
        let n = pre.len as int;
        let t = pre.order@[p - 1] as int;
        assert(post.order@[p] == t);
        assert(pre.link_ok(p - 1, l));
        let q = next_up(hs, l, p - 1);
        lemma_next_up_props(hs, l, p - 1);
        assert(1 <= pre.node_at(p - 1).level@.len() <= pre.cur_level);
        assert(t != upd[l]) by {
            let r = rk[l] as int;
            if t == upd[l] {
                assert(pre.order@[r] == pre.order@[p - 1]);
            }
        }
        assert(post.nodes@[t].level@[l] == pre.ins_level(upd, rk, s as int, lvl, t, l));
        lemma_next_up_unique(hs2, l, p, q + 1);
        if q <= n {
            assert(post.order@[q + 1] == pre.order@[q]);
        }
    }

    proof fn lemma_insert_links(pre: ZSkipList, post: ZSkipList, upd: Seq<usize>, rk: Seq<usize>, s: usize, lvl: int)
        requires
            Self::insert_rel(pre, post, upd, rk, s, lvl),
        ensures
            post.hts() == pre.hts().insert(rk[0] + 1, lvl),
            post.links_ok(),
    {
        Self::lemma_insert_hts(pre, post, upd, rk, s, lvl);
        let pp = rk[0] + 1;
        assert forall|p: int, l: int| 0 <= p <= post.len && 0 <= l < post.hts()[p] implies #[trigger] post.link_ok(p, l) by {
            if p < pp {
                Self::lemma_insert_link_before(pre, post, upd, rk, s, lvl, p, l);
            } else if p == pp {
                Self::lemma_insert_link_new(pre, post, upd, rk, s, lvl, l);
            } else {
                Self::lemma_insert_link_after(pre, post, upd, rk, s, lvl, p, l);
            }
        }
    }

    /// Links the node in slot `s`, of height `level`, after the predecessors
    /// `update` at positions `rank`, and fixes the spans above it.
    fn link_new_node(&mut self, update: &Vec<usize>, rank: &Vec<usize>, s: usize, level: usize)
        requires
            old(self).wf(),
            old(self).preds_ok(update@, rank@),
            old(self).len < usize::MAX,
            1 <= level <= old(self).cur_level,
            0 < s < old(self).nodes@.len(),
            forall|p: int| 0 <= p <= old(self).len ==> #[trigger] old(self).order@[p] != s,
            old(self).nodes@[s as int].level@.len() == level,
        ensures
            final(self).same_but_nodes(old(self)),
            forall|t: int| 0 <= t < old(self).nodes@.len() ==> #[trigger] final(self).same_node_but_links(old(self), t),
            forall|t: int| 0 <= t < old(self).nodes@.len() ==> #[trigger] final(self).nodes@[t].backward == old(self).nodes@[t].backward,
            forall|t: int, l: int|
                0 <= t < old(self).nodes@.len() && 0 <= l < old(self).nodes@[t].level@.len() ==> #[trigger] final(self).nodes@[t].level@[l]
                    == old(self).ins_level(update@, rank@, s as int, level as int, t, l),
    {
        let ghost pre = *self;
        let ghost upd = update@;
        let ghost rk = rank@;
        let ghost n = self.len as int;
        let ghost hs = self.hts();
        let r0 = rank[0];
        let mut i: usize = 0;
        while i < self.cur_level
            invariant
                pre.wf(),
                pre.preds_ok(upd, rk),
                hs == pre.hts(),
                upd == update@,
                rk == rank@,
                r0 == rk[0],
                n == pre.len,
                n < usize::MAX,
                1 <= level <= pre.cur_level,
                0 < s < pre.nodes@.len(),
                forall|p: int| 0 <= p <= pre.len ==> #[trigger] pre.order@[p] != s,
                pre.nodes@[s as int].level@.len() == level,
                i <= pre.cur_level,
                self.same_but_nodes(&pre),
                forall|t: int| 0 <= t < pre.nodes@.len() ==> #[trigger] self.same_node_but_links(&pre, t),
                forall|t: int| 0 <= t < pre.nodes@.len() ==> #[trigger] self.nodes@[t].backward == pre.nodes@[t].backward,
                forall|t: int, l: int|
                    0 <= t < pre.nodes@.len() && 0 <= l < pre.nodes@[t].level@.len() ==> #[trigger] self.nodes@[t].level@[l]
                        == (if l < i {
                        pre.ins_level(upd, rk, s as int, level as int, t, l)
                    } else {
                        pre.nodes@[t].level@[l]
                    }),
            decreases pre.cur_level - i,
        {
            let u = update[i];
            let ri = rank[i];
            proof {
                let r = rk[i as int] as int;
                assert(pre.link_ok(r, i as int));
                assert(pre.node_at(r) == pre.nodes@[u as int]);
                lemma_next_up_props(hs, i as int, r);
                assert(u != s);
                assert(self.same_node_but_links(&pre, u as int));
                assert(self.same_node_but_links(&pre, s as int));
            }
            let ulv = self.nodes[u].level[i];
            let ghost b0 = *self;
            if i < level {
                self.set_level(s, i, ZSkipLevel { forward: ulv.forward, span: ulv.span - (r0 - ri) });
                self.set_level(u, i, ZSkipLevel { forward: Some(s), span: (r0 - ri) + 1 });
            } else {
                self.set_level(u, i, ZSkipLevel { forward: ulv.forward, span: ulv.span + 1 });
            }
            proof {
                assert forall|t: int| 0 <= t < pre.nodes@.len() implies #[trigger] self.same_node_but_links(&pre, t)
                    && self.nodes@[t].backward == pre.nodes@[t].backward by {
                    assert(b0.same_node_but_links(&pre, t));
                }
            }
            i = i + 1;
        }
        proof {
            assert forall|t: int, l: int| 0 <= t < pre.nodes@.len() && 0 <= l < pre.nodes@[t].level@.len() implies #[trigger] self.nodes@[t].level@[l]
                == pre.ins_level(upd, rk, s as int, level as int, t, l) by {
                if l >= pre.cur_level {
                    assert(self.nodes@[t].level@[l] == pre.nodes@[t].level@[l]);
                }
            }
        }
    }

    /// Inserts `element` with `score`. Equal elements are kept, not merged;
    /// the new one goes after those equal to it, so that they stay in the
    /// order they were inserted.
    #[verifier::rlimit(100)]
    pub fn zsl_insert(&mut self, score: Score, element: i64)
        requires
            old(self).wf(),
            old(self)@.len() + 1 < usize::MAX,
        ensures
            final(self).spec_level_bound() == old(self).spec_level_bound(),
            final(self).wf(),
            final(self)@ == inserted(old(self)@, (score, element)),
    {
        let e: Entry = (score, element);
        let ghost orig = *self;
        proof {
            orig.lemma_view();
        }
        let (update, rank) = self.find_by_key(score.key(), element, true);
        let level = self.level_generator.random();
        proof {
            assert(self.hts() =~= orig.hts());
            assert(self@ =~= orig@);
            assert forall|p: int, l: int| 0 <= p <= self.len && 0 <= l < self.hts()[p] implies #[trigger] self.link_ok(p, l) by {
                assert(orig.link_ok(p, l));
            }
            assert(self.order_ok());
            assert(self.free_ok());
            assert forall|p: int| 1 <= p <= self.len implies (#[trigger] self.node_at(p)) == orig.node_at(p) by {}
            assert(self.back_ok());
            assert forall|p: int| 1 <= p <= self.len implies 1 <= (#[trigger] self.node_at(p)).level@.len() <= self.cur_level
                && self.node_at(p).val is Some by {
                assert(orig.node_at(p) == self.node_at(p));
            }
            assert(self.shape_ok());
            assert(self.wf());
        }
        let ghost g1 = *self;
        if level > self.cur_level {
            self.raise_level(level);
        }
        let ghost g2 = *self;
        proof {
            assert forall|t: int| 0 <= t < orig.nodes@.len() implies #[trigger] g2.same_node_but_links(&orig, t) by {
                assert(g1.nodes@[t] == orig.nodes@[t]);
                assert(g2.same_node_but_links(&g1, t));
            }
        }
        let s = self.alloc_node(ZSkipNode::new(element, level, score));
        let ghost pre = *self;
        let ghost upd = update@;
        let ghost rk = rank@;
        let ghost n = self.len as int;
        let ghost hs = self.hts();
        proof {
            assert forall|p: int| 0 <= p <= n implies #[trigger] pre.entry_at(p) == orig.entry_at(p) && pre.node_at(p).level@.len() == orig.node_at(p).level@.len() by {
                assert(pre.order@[p] != s);
                let t = orig.order@[p] as int;
                assert(g2.same_node_but_links(&orig, t));
                assert(pre.nodes@[t] == g2.nodes@[t]);
            }
            assert(pre.hts() =~= orig.hts());
            assert(pre.preds_ok(upd, rk));
        }
        let r0 = rank[0];
        self.link_new_node(&update, &rank, s, level);
        let ghost mid = *self;
        proof {
            assert(pre.link_ok(r0 as int, 0));
            lemma_next_up_props(hs, 0, r0 as int);
            if r0 < n {
                assert(hs[r0 + 1] >= 1);
                lemma_next_up_unique(hs, 0, r0 as int, r0 + 1);
            }
            assert(mid.nodes@[s as int].level@[0] == pre.ins_level(upd, rk, s as int, level as int, s as int, 0));
        }
        proof {
            assert(self.same_node_but_links(&pre, s as int));
        }
        let bk = if r0 == 0 {
            None
        } else {
            Some(update[0])
        };
        self.set_backward(s, bk);
        let ghost mid2 = *self;
        match self.nodes[s].level[0].forward {
            Some(f) => {
                self.set_backward(f, Some(s));
            },
            None => {
                self.tail = s;
            },
        }
        self.len = self.len + 1;
        let ghost post_order = pre.order@.insert(r0 + 1, s);
        self.order = Ghost(post_order);
        proof {
            let pp = r0 + 1;
            assert forall|t: int| 0 <= t < pre.nodes@.len() implies #[trigger] self.same_node_but_links(&pre, t)
                && self.nodes@[t].level@ == mid.nodes@[t].level@ by {
                assert(mid.same_node_but_links(&pre, t));
                assert(mid2.same_node_but_links(&mid, t));
            }
            assert forall|t: int, l: int| 0 <= t < pre.nodes@.len() && 0 <= l < pre.nodes@[t].level@.len() implies #[trigger] self.nodes@[t].level@[l]
                == pre.ins_level(upd, rk, s as int, level as int, t, l) by {
                assert(self.nodes@[t].level@ == mid.nodes@[t].level@);
                assert(mid.nodes@[t].level@[l] == pre.ins_level(upd, rk, s as int, level as int, t, l));
            }
            assert(Self::insert_rel(pre, *self, upd, rk, s, level as int));
            Self::lemma_insert_links(pre, *self, upd, rk, s, level as int);
            let nn = n + 1;
            assert forall|p: int| 0 <= p <= nn implies #[trigger] self.order@[p] == (if p < pp {
                pre.order@[p]
            } else if p == pp {
                s
            } else {
                pre.order@[p - 1]
            }) by {}
            assert(self.order_ok()) by {
                assert forall|p: int, q: int| 0 <= p < q <= nn implies #[trigger] self.order@[p] != #[trigger] self.order@[q] by {
                    assert(self.order@[p] == (if p < pp { pre.order@[p] } else if p == pp { s } else { pre.order@[p - 1] }));
                    assert(self.order@[q] == (if q < pp { pre.order@[q] } else if q == pp { s } else { pre.order@[q - 1] }));
                }
                assert forall|p: int| 0 <= p <= nn implies (#[trigger] self.order@[p]) < self.nodes@.len() by {
                    assert(self.order@[p] == (if p < pp { pre.order@[p] } else if p == pp { s } else { pre.order@[p - 1] }));
                }
            }
            assert(self.free_ok()) by {
                assert forall|i: int, p: int| 0 <= i < self.free@.len() && 0 <= p <= nn implies #[trigger] self.free@[i] != #[trigger] self.order@[p] by {
                    assert(self.order@[p] == (if p < pp { pre.order@[p] } else if p == pp { s } else { pre.order@[p - 1] }));
                }
            }
            assert forall|p: int| 0 <= p <= nn implies #[trigger] self.node_at(p).val == (if p < pp {
                pre.node_at(p).val
            } else if p == pp {
                Some(element)
            } else {
                pre.node_at(p - 1).val
            }) && self.node_at(p).score == (if p < pp {
                pre.node_at(p).score
            } else if p == pp {
                score
            } else {
                pre.node_at(p - 1).score
            }) by {
                assert(self.order@[p] == (if p < pp { pre.order@[p] } else if p == pp { s } else { pre.order@[p - 1] }));
                assert(self.same_node_but_links(&pre, self.order@[p] as int));
            }
            assert(self.shape_ok()) by {
                assert forall|p: int| 1 <= p <= nn implies 1 <= (#[trigger] self.node_at(p)).level@.len() <= self.cur_level
                    && self.node_at(p).val is Some by {
                    assert(self.hts()[p] == self.node_at(p).level@.len());
                    if p < pp {
                        assert(1 <= pre.node_at(p).level@.len() <= pre.cur_level);
                    } else if p > pp {
                        assert(1 <= pre.node_at(p - 1).level@.len() <= pre.cur_level);
                    }
                }
                assert(self.nodes@[0].level@.len() == pre.nodes@[0].level@.len()) by {
                    assert(self.same_node_but_links(&pre, 0));
                }
            }
            assert(self@ =~= orig@.insert(r0 as int, e)) by {
                assert forall|i: int| 0 <= i < nn implies #[trigger] self@[i] == orig@.insert(r0 as int, e)[i] by {
                    assert(self@[i] == self.entry_at(i + 1));
                    if i + 1 < pp {
                        assert(orig@[i] == orig.entry_at(i + 1));
                    } else if i + 1 > pp {
                        assert(orig@[i - 1] == orig.entry_at(i));
                    }
                }
            }
            lemma_upper_bound_at(orig@, score_key(score.bits), element, r0 as int);
            assert(sorted(self@)) by {
                assert forall|i: int, j: int| 0 <= i < j < self@.len() implies !#[trigger] entry_lt(self@[j], self@[i]) by {
                    let v = self@;
                    let r = r0 as int;
                    if i < r && j == r {
                        assert(not_after(orig@[i], score_key(score.bits), element));
                    } else if i == r {
                        assert(!not_after(orig@[j - 1], score_key(score.bits), element));
                    } else if i < r && j > r {
                        assert(!entry_lt(orig@[j - 1], orig@[i]));
                    } else if j < r {
                        assert(!entry_lt(orig@[j], orig@[i]));
                    } else {
                        assert(!entry_lt(orig@[j - 1], orig@[i - 1]));
                    }
                }
            }
            assert(self.back_ok()) by {
                assert(self.nodes@[s as int].backward == bk);
                assert forall|p: int| 1 <= p <= nn implies (#[trigger] self.node_at(p)).backward == (if p == 1 {
                    None::<usize>
                } else {
                    Some(self.order@[p - 1])
                }) by {
                    if p < pp {
                        assert(pre.node_at(p).backward == (if p == 1 { None::<usize> } else { Some(pre.order@[p - 1]) }));
                        assert(self.order@[p] != s);
                        if r0 < n {
                            assert(self.order@[p] != pre.order@[pp]);
                        }
                    } else if p == pp + 1 {
                    } else if p > pp + 1 {
                        assert(pre.node_at(p - 1).backward == Some(pre.order@[p - 2]));
                        assert(self.order@[p] != s);
                        assert(self.order@[p] != pre.order@[pp]);
                    }
                }
            }
        }
    }

    /// The level `l` of slot `t` once the node in slot `s` is unlinked from
    /// after the predecessors `upd` at positions `rk`.
    spec fn del_level(&self, upd: Seq<usize>, rk: Seq<usize>, s: int, t: int, l: int) -> ZSkipLevel {
        let ulv = self.nodes@[t].level@[l];
        let slv = self.nodes@[s].level@[l];
        if t == upd[l] && l < self.cur_level {
            if ulv.forward == Some(s as usize) {
                ZSkipLevel { forward: slv.forward, span: (ulv.span + slv.span - 1) as usize }
            } else {
                ZSkipLevel { forward: ulv.forward, span: (ulv.span - 1) as usize }
            }
        } else {
            ulv
        }
    }

    /// Unlinks the node in slot `s`, at position `rank[0] + 1`, from the
    /// predecessors `update` at positions `rank`, and fixes the spans above it.
    fn unlink_node(&mut self, update: &Vec<usize>, rank: &Vec<usize>, s: usize)
        requires
            old(self).wf(),
            old(self).preds_ok(update@, rank@),
            rank@[0] < old(self).len,
            s == old(self).order@[rank@[0] + 1],
        ensures
            final(self).same_but_nodes(old(self)),
            forall|t: int| 0 <= t < old(self).nodes@.len() ==> #[trigger] final(self).same_node_but_links(old(self), t),
            forall|t: int| 0 <= t < old(self).nodes@.len() ==> #[trigger] final(self).nodes@[t].backward == old(self).nodes@[t].backward,
            forall|t: int, l: int|
                0 <= t < old(self).nodes@.len() && 0 <= l < old(self).nodes@[t].level@.len() ==> #[trigger] final(self).nodes@[t].level@[l]
                    == old(self).del_level(update@, rank@, s as int, t, l),
    {
        let ghost pre = *self;
        let ghost upd = update@;
        let ghost rk = rank@;
        let ghost n = self.len as int;
        let ghost hs = self.hts();
        let ghost pp = rk[0] + 1;
        let mut i: usize = 0;
        while i < self.cur_level
            invariant
                pre.wf(),
                pre.preds_ok(upd, rk),
                hs == pre.hts(),
                upd == update@,
                rk == rank@,
                n == pre.len,
                pp == rk[0] + 1,
                pp <= n,
                s == pre.order@[pp],
                i <= pre.cur_level,
                self.same_but_nodes(&pre),
                forall|t: int| 0 <= t < pre.nodes@.len() ==> #[trigger] self.same_node_but_links(&pre, t),
                forall|t: int| 0 <= t < pre.nodes@.len() ==> #[trigger] self.nodes@[t].backward == pre.nodes@[t].backward,
                forall|t: int, l: int|
                    0 <= t < pre.nodes@.len() && 0 <= l < pre.nodes@[t].level@.len() ==> #[trigger] self.nodes@[t].level@[l]
                        == (if l < i {
                        pre.del_level(upd, rk, s as int, t, l)
                    } else {
                        pre.nodes@[t].level@[l]
                    }),
            decreases pre.cur_level - i,
        {
            let u = update[i];
            proof {
                let r = rk[i as int] as int;
                assert(pre.link_ok(r, i as int));
                assert(pre.node_at(r) == pre.nodes@[u as int]);
                lemma_next_up_props(hs, i as int, r);
                assert(self.same_node_but_links(&pre, u as int));
                assert(self.same_node_but_links(&pre, s as int));
                assert(u != s);
                let q = next_up(hs, i as int, r);
                if q == pp {
                    assert(pre.link_ok(pp, i as int));
                    assert(pre.node_at(pp) == pre.nodes@[s as int]);
                    lemma_next_up_props(hs, i as int, pp);
                } else if q <= n {
                    assert(pre.order@[q] != pre.order@[pp]);
                }
            }
            let ulv = self.nodes[u].level[i];
            let ghost b0 = *self;
            if ulv.forward == Some(s) {
                let slv = self.nodes[s].level[i];
                self.set_level(u, i, ZSkipLevel { forward: slv.forward, span: ulv.span + slv.span - 1 });
            } else {
                self.set_level(u, i, ZSkipLevel { forward: ulv.forward, span: ulv.span - 1 });
            }
            proof {
                assert forall|t: int| 0 <= t < pre.nodes@.len() implies #[trigger] self.same_node_but_links(&pre, t)
                    && self.nodes@[t].backward == pre.nodes@[t].backward by {
                    assert(b0.same_node_but_links(&pre, t));
                }
            }
            i = i + 1;
        }
        proof {
            assert forall|t: int, l: int| 0 <= t < pre.nodes@.len() && 0 <= l < pre.nodes@[t].level@.len() implies #[trigger] self.nodes@[t].level@[l]
                == pre.del_level(upd, rk, s as int, t, l) by {
                if l >= pre.cur_level {
                    assert(self.nodes@[t].level@[l] == pre.nodes@[t].level@[l]);
                }
            }
        }
    }

    /// `post` is `pre` with the node in slot `s`, at position `rk[0] + 1`,
    /// unlinked from after the predecessors `upd` at positions `rk`.
    spec fn delete_rel(pre: ZSkipList, post: ZSkipList, upd: Seq<usize>, rk: Seq<usize>, s: usize) -> bool {
        &&& pre.wf()
        &&& pre.preds_ok(upd, rk)
        &&& rk[0] < pre.len
        &&& s == pre.order@[rk[0] + 1]
        &&& post.len + 1 == pre.len
        &&& post.cur_level == pre.cur_level
        &&& post.order@ == pre.order@.remove(rk[0] + 1)
        &&& post.nodes@.len() == pre.nodes@.len()
        &&& (forall|t: int| 0 <= t < pre.nodes@.len() && t != s ==> #[trigger] post.same_node_but_links(&pre, t))
        &&& (forall|t: int, l: int|
            0 <= t < pre.nodes@.len() && t != s && 0 <= l < pre.nodes@[t].level@.len() ==> #[trigger] post.nodes@[t].level@[l]
                == pre.del_level(upd, rk, s as int, t, l))
    }

    proof fn lemma_delete_hts(pre: ZSkipList, post: ZSkipList, upd: Seq<usize>, rk: Seq<usize>, s: usize)
        requires
            Self::delete_rel(pre, post, upd, rk, s),
        ensures
            post.hts() == pre.hts().remove(rk[0] + 1),
    {
        let hs = pre.hts();
        let n = pre.len as int;
        let pp = rk[0] + 1;
        let hs2 = post.hts();
        let hs3 = hs.remove(pp);
        assert forall|p: int| 0 <= p < n implies #[trigger] hs2[p] == hs3[p] by {
            if p < pp {
                let t = pre.order@[p] as int;
                assert(post.order@[p] == t);
                assert(t != s);
                assert(post.same_node_but_links(&pre, t));
            } else {
                let t = pre.order@[p + 1] as int;
                assert(post.order@[p] == t);
                assert(t != s);
                assert(post.same_node_but_links(&pre, t));
                assert(hs3[p] == hs[p + 1]);
            }
        }
        assert(hs2 =~= hs3);
    }

    proof fn lemma_delete_link_before(pre: ZSkipList, post: ZSkipList, upd: Seq<usize>, rk: Seq<usize>, s: usize, p: int, l: int)
        requires
            Self::delete_rel(pre, post, upd, rk, s),
            post.hts() == pre.hts().remove(rk[0] + 1),
            0 <= p <= rk[0],
            0 <= l < post.hts()[p],
        ensures
            post.link_ok(p, l),
    {
        let hs = pre.hts();
        let hs2 = post.hts();
        let n = pre.len as int;
        let r0 = rk[0] as int;
        let pp = r0 + 1;
        let t = pre.order@[p] as int;
        assert(post.order@[p] == t);
        assert(t != s);
        assert(pre.link_ok(p, l));
        let q = next_up(hs, l, p);
        lemma_next_up_props(hs, l, p);
        assert(l < pre.spec_level_bound()) by {
            if p > 0 {
                assert(1 <= pre.node_at(p).level@.len() <= pre.cur_level);
            }
        }
        assert(post.nodes@[t].level@[l] == pre.del_level(upd, rk, s as int, t, l));
        if q > r0 {
            pre.lemma_pred_unique(upd, rk, p, l);
            assert(upd[l] == t);
            if l >= pre.cur_level {
                assert(p == 0);
                assert forall|x: int| p < x < n implies hs2[x] <= l by {
                    if x < pp {
                        assert(1 <= pre.node_at(x).level@.len() <= pre.cur_level);
                    } else {
                        assert(1 <= pre.node_at(x + 1).level@.len() <= pre.cur_level);
                    }
                }
                lemma_next_up_unique(hs2, l, p, n);
                lemma_next_up_unique(hs, l, p, n + 1);
            } else if q == pp {
                assert(pre.link_ok(pp, l));
                assert(pre.node_at(pp) == pre.nodes@[s as int]);
                let q2 = next_up(hs, l, pp);
                lemma_next_up_props(hs, l, pp);
                lemma_next_up_unique(hs2, l, p, q2 - 1);
                if q2 <= n {
                    assert(post.order@[q2 - 1] == pre.order@[q2]);
                }
            } else {
                if q <= n {
                    assert(pre.order@[q] != pre.order@[pp]);
                    assert(post.order@[q - 1] == pre.order@[q]);
                }
                lemma_next_up_unique(hs2, l, p, q - 1);
            }
        } else {
            assert(t != upd[l]) by {
                let r = rk[l] as int;
                if t == upd[l] {
                    assert(pre.order@[r] == pre.order@[p]);
                }
            }
            lemma_next_up_unique(hs2, l, p, q);
            assert(post.order@[q] == pre.order@[q]);
        }
    }

    proof fn lemma_delete_link_after(pre: ZSkipList, post: ZSkipList, upd: Seq<usize>, rk: Seq<usize>, s: usize, p: int, l: int)
        requires
            Self::delete_rel(pre, post, upd, rk, s),
            post.hts() == pre.hts().remove(rk[0] + 1),
            rk[0] < p <= post.len,
            0 <= l < post.hts()[p],
        ensures
            post.link_ok(p, l),
    {
        let hs = pre.hts();
        let hs2 = post.hts();
        let n = pre.len as int;
        let t = pre.order@[p + 1] as int;
        assert(post.order@[p] == t);
        assert(t != s);
        assert(pre.link_ok(p + 1, l));
        let q = next_up(hs, l, p + 1);
        lemma_next_up_props(hs, l, p + 1);
        assert(1 <= pre.node_at(p + 1).level@.len() <= pre.cur_level);
        assert(t != upd[l]) by {
            let r = rk[l] as int;
            if t == upd[l] {
                assert(pre.order@[r] == pre.order@[p + 1]);
            }
        }
        assert(post.nodes@[t].level@[l] == pre.del_level(upd, rk, s as int, t, l));
        lemma_next_up_unique(hs2, l, p, q - 1);
        if q <= n {
            assert(post.order@[q - 1] == pre.order@[q]);
        }
    }

    proof fn lemma_delete_links(pre: ZSkipList, post: ZSkipList, upd: Seq<usize>, rk: Seq<usize>, s: usize)
        requires
            Self::delete_rel(pre, post, upd, rk, s),
        ensures
            post.hts() == pre.hts().remove(rk[0] + 1),
            post.links_ok(),
    {
        Self::lemma_delete_hts(pre, post, upd, rk, s);
        assert forall|p: int, l: int| 0 <= p <= post.len && 0 <= l < post.hts()[p] implies #[trigger] post.link_ok(p, l) by {
            if p <= rk[0] {
                Self::lemma_delete_link_before(pre, post, upd, rk, s, p, l);
            } else {
                Self::lemma_delete_link_after(pre, post, upd, rk, s, p, l);
            }
        }
    }

    /// Lowers the current level past levels that no element reaches.
    fn shrink_level(&mut self)
        requires
            old(self).wf(),
        ensures
            final(self).spec_level_bound() == old(self).spec_level_bound(),
            final(self).wf(),
            final(self)@ == old(self)@,
    {
        let ghost hs = self.hts();
        let ghost n = self.len as int;
        let ghost v = self@;
        while self.cur_level > 0 && self.nodes[0].level[self.cur_level - 1].forward.is_none()
            invariant
                self.wf(),
                self.spec_level_bound() == old(self).spec_level_bound(),
                hs == self.hts(),
                v == self@,
                n == self.len,
            decreases self.cur_level,
        {
            let ghost pre = *self;
            proof {
                let l = self.cur_level - 1;
                assert(self.link_ok(0, l));
                lemma_next_up_props(hs, l, 0);
                assert forall|p: int| 1 <= p <= self.len implies (#[trigger] self.node_at(p)).level@.len() <= l by {
                    assert(hs[p] == self.node_at(p).level@.len());
                }
            }
            self.cur_level = self.cur_level - 1;
            proof {
                assert(self.hts() =~= pre.hts());
                assert(self@ =~= pre@);
                assert forall|p: int, l: int| 0 <= p <= self.len && 0 <= l < self.hts()[p] implies #[trigger] self.link_ok(p, l) by {
                    assert(pre.link_ok(p, l));
                }
                assert forall|p: int| 1 <= p <= self.len implies 1 <= (#[trigger] self.node_at(p)).level@.len() <= self.cur_level
                    && self.node_at(p).val is Some by {
                    assert(pre.node_at(p) == self.node_at(p));
                }
                assert(self.shape_ok());
                assert(self.order_ok());
                assert(self.free_ok());
                assert forall|p: int| 1 <= p <= self.len implies (#[trigger] self.node_at(p)) == pre.node_at(p) by {}
                assert(pre.back_ok());
                assert(self.back_ok());
            }
        }
    }

    /// Removes the element at position `target` (one-based) and returns its
    /// member.
    #[verifier::rlimit(100)]
    fn remove_at(&mut self, target: usize) -> (r: i64)
        requires
            old(self).wf(),
            1 <= target <= old(self)@.len(),
        ensures
            final(self).spec_level_bound() == old(self).spec_level_bound(),
            final(self).wf(),
            final(self)@ == old(self)@.remove(target - 1),
            r == old(self)@[target - 1].1,
    {
        let ghost pre = *self;
        proof {
            pre.lemma_view();
        }
        let (update, rank) = self.find_by_pos(target);
        let ghost upd = update@;
        let ghost rk = rank@;
        let ghost hs = self.hts();
        let ghost n = self.len as int;
        let ghost pp = target as int;
        let r0 = rank[0];
        proof {
            assert(self.preds_ok(upd, rk));
            assert(self.link_ok(r0 as int, 0));
            lemma_next_up_props(hs, 0, r0 as int);
            assert(hs[pp] >= 1);
            lemma_next_up_unique(hs, 0, r0 as int, pp);
            assert(self.node_at(r0 as int) == self.nodes@[update@[0] as int]);
        }
        let s = match self.nodes[update[0]].level[0].forward {
            Some(s) => s,
            None => 0,
        };
        proof {
            assert(pre.link_ok(pp, 0));
            assert(pre.node_at(pp) == pre.nodes@[s as int]);
            lemma_next_up_props(hs, 0, pp);
            if pp < n {
                assert(hs[pp + 1] >= 1);
                lemma_next_up_unique(hs, 0, pp, pp + 1);
            }
        }
        let sback = self.nodes[s].backward;
        let sfwd = self.nodes[s].level[0].forward;
        let val = match self.nodes[s].val {
            Some(v) => v,
            None => 0,
        };
        self.unlink_node(&update, &rank, s);
        let ghost mid = *self;
        match sfwd {
            Some(f) => {
                proof {
                    assert(f == pre.order@[pp + 1]);
                    assert(f != s);
                }
                self.set_backward(f, sback);
            },
            None => {
                self.tail = update[0];
            },
        }
        let ghost mid2 = *self;
        self.nodes.set(s, ZSkipNode::head(0));
        self.free.push(s);
        self.len = self.len - 1;
        let ghost post_order = pre.order@.remove(pp);
        self.order = Ghost(post_order);
        proof {
            let nn = n - 1;
            assert forall|p: int| 0 <= p <= nn implies #[trigger] self.order@[p] == (if p < pp {
                pre.order@[p]
            } else {
                pre.order@[p + 1]
            }) by {}
            assert forall|p: int| 0 <= p <= nn implies #[trigger] self.order@[p] != s by {
                if p < pp {
                    assert(pre.order@[p] != pre.order@[pp]);
                } else {
                    assert(pre.order@[p + 1] != pre.order@[pp]);
                }
            }
            assert forall|t: int| 0 <= t < pre.nodes@.len() && t != s implies #[trigger] self.same_node_but_links(&pre, t)
                && self.nodes@[t].level@ == mid.nodes@[t].level@ by {
                assert(mid.same_node_but_links(&pre, t));
                assert(mid2.same_node_but_links(&mid, t));
                assert(mid2.nodes@[t].level@ == mid.nodes@[t].level@);
            }
            assert forall|t: int, l: int| 0 <= t < pre.nodes@.len() && t != s && 0 <= l < pre.nodes@[t].level@.len() implies #[trigger] self.nodes@[t].level@[l]
                == pre.del_level(upd, rk, s as int, t, l) by {
                assert(self.nodes@[t].level@ == mid.nodes@[t].level@);
            }
            assert(Self::delete_rel(pre, *self, upd, rk, s));
            Self::lemma_delete_links(pre, *self, upd, rk, s);
            // order
            assert forall|p: int, q: int| 0 <= p < q <= nn implies #[trigger] self.order@[p] != #[trigger] self.order@[q] by {
                assert(self.order@[p] == (if p < pp { pre.order@[p] } else { pre.order@[p + 1] }));
                assert(self.order@[q] == (if q < pp { pre.order@[q] } else { pre.order@[q + 1] }));
            }
            assert forall|p: int| 0 <= p <= nn implies (#[trigger] self.order@[p]) < self.nodes@.len() by {
                assert(self.order@[p] == (if p < pp { pre.order@[p] } else { pre.order@[p + 1] }));
            }
            assert(self.order_ok());
            // free list
            assert(s != 0) by {
                assert(pre.order@[0] != pre.order@[pp]);
            }
            assert forall|i: int| 0 <= i < self.free@.len() implies 0 < #[trigger] self.free@[i] < self.nodes@.len() by {
                if i < pre.free@.len() {
                    assert(pre.free@[i] == self.free@[i]);
                }
            }
            assert forall|i: int, p: int| 0 <= i < self.free@.len() && 0 <= p <= nn implies #[trigger] self.free@[i] != #[trigger] self.order@[p] by {
                assert(self.order@[p] == (if p < pp { pre.order@[p] } else { pre.order@[p + 1] }));
                if i < pre.free@.len() {
                    assert(pre.free@[i] == self.free@[i]);
                }
            }
            assert forall|i: int, j: int| 0 <= i < j < self.free@.len() implies #[trigger] self.free@[i] != #[trigger] self.free@[j] by {
                assert(pre.free@[i] == self.free@[i]);
                if j < pre.free@.len() {
                    assert(pre.free@[j] == self.free@[j]);
                } else {
                    assert(pre.free@[i] != pre.order@[pp]);
                }
            }
            assert(self.free_ok());
            assert forall|p: int| 0 <= p <= nn implies #[trigger] self.node_at(p).val == (if p < pp {
                pre.node_at(p).val
            } else {
                pre.node_at(p + 1).val
            }) && self.node_at(p).score == (if p < pp {
                pre.node_at(p).score
            } else {
                pre.node_at(p + 1).score
            }) by {
                assert(self.order@[p] == (if p < pp { pre.order@[p] } else { pre.order@[p + 1] }));
                assert(self.same_node_but_links(&pre, self.order@[p] as int));
            }
            assert forall|p: int| 1 <= p <= nn implies 1 <= (#[trigger] self.node_at(p)).level@.len() <= self.cur_level
                && self.node_at(p).val is Some by {
                assert(self.hts()[p] == self.node_at(p).level@.len());
                if p < pp {
                    assert(1 <= pre.node_at(p).level@.len() <= pre.cur_level);
                } else {
                    assert(1 <= pre.node_at(p + 1).level@.len() <= pre.cur_level);
                }
            }
            assert(self.nodes@[0].level@.len() == pre.nodes@[0].level@.len()) by {
                assert(self.same_node_but_links(&pre, 0));
            }
            assert(self.shape_ok());
            assert(self@ =~= pre@.remove(pp - 1)) by {
                assert forall|i: int| 0 <= i < nn implies #[trigger] self@[i] == pre@.remove(pp - 1)[i] by {
                    assert(self@[i] == self.entry_at(i + 1));
                    if i + 1 < pp {
                        assert(pre@[i] == pre.entry_at(i + 1));
                    } else {
                        assert(pre@[i + 1] == pre.entry_at(i + 2));
                    }
                }
            }
            assert(sorted(self@)) by {
                assert forall|i: int, j: int| 0 <= i < j < self@.len() implies !#[trigger] entry_lt(self@[j], self@[i]) by {
                    let ii = if i < pp - 1 { i } else { i + 1 };
                    let jj = if j < pp - 1 { j } else { j + 1 };
                    assert(self@[i] == pre@[ii]);
                    assert(self@[j] == pre@[jj]);
                }
            }
            assert(val == pre@[pp - 1].1);
            // backward links and tail
            assert forall|p: int| 1 <= p <= nn implies (#[trigger] self.node_at(p)).backward == (if p == 1 {
                None::<usize>
            } else {
                Some(self.order@[p - 1])
            }) by {
                if p < pp {
                    assert(pre.node_at(p).backward == (if p == 1 { None::<usize> } else { Some(pre.order@[p - 1]) }));
                    if pp < n {
                        assert(self.order@[p] != pre.order@[pp + 1]);
                    }
                    assert(self.order@[p] != s);
                } else if p == pp {
                    assert(pre.node_at(pp).backward == (if pp == 1 { None::<usize> } else { Some(pre.order@[pp - 1]) }));
                } else {
                    assert(pre.node_at(p + 1).backward == Some(pre.order@[p]));
                    assert(self.order@[p] != pre.order@[pp + 1]);
                    assert(self.order@[p] != s);
                }
            }
            assert(self.back_ok());
        }
        self.shrink_level();
        val
    }

    /// The level-0 link of position `p` leads to position `p + 1`.
    proof fn lemma_level0(&self, p: int)
        requires
            self.wf(),
            0 <= p <= self.len,
        ensures
            self.node_at(p).level@.len() >= 1,
            self.node_at(p).level@[0].forward == (if p < self.len {
                Some(self.order@[p + 1])
            } else {
                None::<usize>
            }),
    {
        let hs = self.hts();
        self.level_generator.lemma_wf_bound();
        assert(hs[p] >= 1);
        assert(self.link_ok(p, 0));
        if p < self.len {
            assert(hs[p + 1] >= 1);
            lemma_next_up_unique(hs, 0, p, p + 1);
        } else {
            lemma_next_up_unique(hs, 0, p, p + 1);
        }
    }

    /// One plus the index of the first element with member `v`; zero when no
    /// element has it.
    fn find_value(&self, v: i64) -> (r: usize)
        requires
            self.wf(),
        ensures
            r == index_of_value(self@, v) + 1,
    {
        proof {
            self.lemma_view();
            self.lemma_level0(0);
        }
        let mut x = self.nodes[0].level[0].forward;
        let mut p: usize = 1;
        while p <= self.len
            invariant
                self.wf(),
                1 <= p <= self.len + 1,
                x == (if p <= self.len { Some(self.order@[p as int]) } else { None::<usize> }),
                forall|i: int| 0 <= i < p - 1 ==> (#[trigger] self@[i]).1 != v,
            decreases self.len + 1 - p,
        {
            let slot = match x {
                Some(t) => t,
                None => 0,
            };
            proof {
                self.lemma_level0(p as int);
                assert(self@[p - 1] == self.entry_at(p as int));
            }
            if self.nodes[slot].val == Some(v) {
                proof {
                    lemma_index_of_value_at(self@, v, p - 1);
                }
                return p;
            }
            x = self.nodes[slot].level[0].forward;
            p = p + 1;
        }
        proof {
            lemma_index_of_value_at(self@, v, -1);
        }
        0
    }

    /// Whether some element has member `v`.
    pub fn contains(&self, v: &i64) -> (r: bool)
        requires
            self.wf(),
        ensures
            r == has_value(self@, *v),
    {
        let k = self.find_value(*v);
        proof {
            lemma_index_of_value_props(self@, *v);
        }
        k != 0
    }

    /// The members in order.
    pub fn iter(&self) -> (r: Vec<i64>)
        requires
            self.wf(),
        ensures
            r@ == members(self@),
    {
        proof {
            self.lemma_view();
            self.lemma_level0(0);
        }
        let mut out: Vec<i64> = Vec::new();
        let mut x = self.nodes[0].level[0].forward;
        let mut p: usize = 1;
        while p <= self.len
            invariant
                self.wf(),
                1 <= p <= self.len + 1,
                x == (if p <= self.len { Some(self.order@[p as int]) } else { None::<usize> }),
                out@.len() == p - 1,
                forall|i: int| 0 <= i < p - 1 ==> #[trigger] out@[i] == self@[i].1,
            decreases self.len + 1 - p,
        {
            let slot = match x {
                Some(t) => t,
                None => 0,
            };
            proof {
                self.lemma_level0(p as int);
                assert(self@[p - 1] == self.entry_at(p as int));
            }
            let v = match self.nodes[slot].val {
                Some(v) => v,
                None => 0,
            };
            out.push(v);
            x = self.nodes[slot].level[0].forward;
            p = p + 1;
        }
        assert(out@ =~= members(self@));
        out
    }

    /// Removes the first element with member `element`, and returns that
    /// member; none when no element has it.
    pub fn zsl_delete(&mut self, element: &i64) -> (r: Option<i64>)
        requires
            old(self).wf(),
        ensures
            final(self).spec_level_bound() == old(self).spec_level_bound(),
            final(self).wf(),
            final(self)@ == deleted(old(self)@, *element),
            r == (if has_value(old(self)@, *element) { Some(*element) } else { None::<i64> }),
    {
        let k = self.find_value(*element);
        proof {
            lemma_index_of_value_props(self@, *element);
        }
        if k == 0 {
            None
        } else {
            let v = self.remove_at(k);
            Some(v)
        }
    }

    /// Removes the first element and returns its member; none when empty.
    pub fn pop_front(&mut self) -> (r: Option<i64>)
        requires
            old(self).wf(),
        ensures
            final(self).spec_level_bound() == old(self).spec_level_bound(),
            final(self).wf(),
            final(self)@ == popped(old(self)@),
            r == member_at(old(self)@, 0),
    {
        if self.len == 0 {
            proof {
                self.lemma_view();
            }
            None
        } else {
            proof {
                self.lemma_view();
            }
            let v = self.remove_at(1);
            Some(v)
        }
    }

    /// The member at zero-based rank `rank`; none when `rank` is not below
    /// the length.
    pub fn zsl_get_element_by_rank(&self, rank: usize) -> (r: Option<i64>)
        requires
            self.wf(),
        ensures
            r == member_at(self@, rank as int),
    {
        proof {
            self.lemma_view();
        }
        if rank >= self.len {
            return None;
        }
        let (update, _rk) = self.find_by_pos(rank + 1);
        let u = update[0];
        proof {
            assert(self.node_at(rank as int) == self.nodes@[u as int]);
            self.lemma_level0(rank as int);
            assert(self@[rank as int] == self.entry_at(rank + 1));
        }
        match self.nodes[u].level[0].forward {
            Some(f) => self.nodes[f].val,
            None => None,
        }
    }

    /// The zero-based rank of the first element equal to `(score, element)`;
    /// none when no element is equal to it.
    pub fn zsl_get_rank(&self, score: Score, element: i64) -> (r: Option<usize>)
        requires
            self.wf(),
        ensures
            match rank_of(self@, (score, element)) {
                Some(k) => r == Some(k as usize),
                None => r is None,
            },
    {
        proof {
            self.lemma_view();
        }
        let (update, rank) = self.find_by_key(score.key(), element, false);
        let r0 = rank[0];
        proof {
            lemma_lower_bound_at(self@, score_key(score.bits), element, r0 as int);
        }
        if r0 < self.len {
            let u = update[0];
            proof {
                assert(self.node_at(r0 as int) == self.nodes@[u as int]);
                self.lemma_level0(r0 as int);
                assert(self@[r0 as int] == self.entry_at(r0 + 1));
            }
            match self.nodes[u].level[0].forward {
                Some(f) => {
                    if self.nodes[f].score.key() == score.key() && self.nodes[f].val == Some(element) {
                        Some(r0)
                    } else {
                        None
                    }
                },
                None => None,
            }
        } else {
            None
        }
    }

    /// The member of the first element whose score lies in `[min, max]`;
    /// none when no score does.
    pub fn zsl_first_in_range(&self, min: Score, max: Score) -> (r: Option<i64>)
        requires
            self.wf(),
        ensures
            match r {
                Some(v) => exists|i: int|
                    0 <= i < self@.len() && score_in_range(self@[i].0, min, max) && self@[i].1 == v
                        && forall|j: int| 0 <= j < i ==> !score_in_range(#[trigger] self@[j].0, min, max),
                None => forall|i: int| 0 <= i < self@.len() ==> !score_in_range(#[trigger] self@[i].0, min, max),
            },
    {
        proof {
            self.lemma_view();
        }
        let (update, rank) = self.find_by_key(min.key(), i64::MIN, false);
        let r0 = rank[0];
        let ghost sv = self@;
        proof {
            assert forall|j: int| 0 <= j < r0 implies !score_in_range(#[trigger] sv[j].0, min, max) by {
                assert(sv[j] == self.entry_at(j + 1));
            }
        }
        if r0 < self.len {
            let u = update[0];
            proof {
                assert(self.node_at(r0 as int) == self.nodes@[u as int]);
                self.lemma_level0(r0 as int);
                assert(sv[r0 as int] == self.entry_at(r0 + 1));
            }
            match self.nodes[u].level[0].forward {
                Some(f) => {
                    if self.nodes[f].score.key() <= max.key() {
                        return self.nodes[f].val;
                    }
                    proof {
                        assert forall|i: int| 0 <= i < sv.len() implies !score_in_range(#[trigger] sv[i].0, min, max) by {
                            assert(sv[i] == self.entry_at(i + 1));
                            if i > r0 {
                                assert(!entry_lt(sv[i], sv[r0 as int]));
                            }
                        }
                    }
                    None
                },
                None => None,
            }
        } else {
            None
        }
    }

    /// The member of the last element whose score lies in `[min, max]`;
    /// none when no score does.
    pub fn zsl_last_in_range(&self, min: Score, max: Score) -> (r: Option<i64>)
        requires
            self.wf(),
        ensures
            match r {
                Some(v) => exists|i: int|
                    0 <= i < self@.len() && score_in_range(self@[i].0, min, max) && self@[i].1 == v
                        && forall|j: int| i < j < self@.len() ==> !score_in_range(#[trigger] self@[j].0, min, max),
                None => forall|i: int| 0 <= i < self@.len() ==> !score_in_range(#[trigger] self@[i].0, min, max),
            },
    {
        proof {
            self.lemma_view();
        }
        let ghost sv = self@;
        let mk = max.key();
        let mut c: usize = self.len;
        let mut slot: usize = self.tail;
        if mk < u64::MAX {
            let (update, rank) = self.find_by_key(mk + 1, i64::MIN, false);
            c = rank[0];
            slot = update[0];
        }
        proof {
            assert(self.node_at(c as int) == self.nodes@[slot as int]);
            assert forall|j: int| c <= j < sv.len() implies !score_in_range(#[trigger] sv[j].0, min, max) by {
                assert(sv[j] == self.entry_at(j + 1));
            }
            assert forall|j: int| 0 <= j < c implies score_key(#[trigger] sv[j].0.bits) <= score_key(max.bits) by {
                assert(sv[j] == self.entry_at(j + 1));
            }
            if c >= 1 {
                assert(sv[c - 1] == self.entry_at(c as int));
            }
        }
        if c >= 1 && self.nodes[slot].score.key() >= min.key() {
            return self.nodes[slot].val;
        }
        proof {
            assert forall|i: int| 0 <= i < sv.len() implies !score_in_range(#[trigger] sv[i].0, min, max) by {
                if i < c - 1 {
                    assert(!entry_lt(sv[c - 1], sv[i]));
                }
            }
        }
        None
    }

    /// Whether some element's score lies in `[min, max]`.
    pub fn zsl_is_in_range(&self, min: Score, max: Score) -> (r: bool)
        requires
            self.wf(),
        ensures
            r == exists|i: int| 0 <= i < self@.len() && score_in_range(#[trigger] self@[i].0, min, max),
    {
        let first = self.zsl_first_in_range(min, max);
        first.is_some()
    }

    /// Removes every element whose score lies in `[min, max]` and returns how
    /// many were removed. Those elements stand together from the first element
    /// whose score is not below `min`.
    pub fn zsl_delete_range_by_score(&mut self, min: Score, max: Score) -> (r: usize)
        requires
            old(self).wf(),
        ensures
            final(self).spec_level_bound() == old(self).spec_level_bound(),
            final(self).wf(),
            r + final(self)@.len() == old(self)@.len(),
            ({
                let a = lower_bound_key(old(self)@, score_key(min.bits), i64::MIN);
                &&& 0 <= a && a + r <= old(self)@.len()
                &&& final(self)@ == old(self)@.subrange(0, a) + old(self)@.subrange(a + r, old(self)@.len() as int)
                &&& forall|i: int| a <= i < a + r ==> score_in_range(#[trigger] old(self)@[i].0, min, max)
            }),
            forall|i: int| 0 <= i < final(self)@.len() ==> !score_in_range(#[trigger] final(self)@[i].0, min, max),
    {
        let ghost s0 = self@;
        let ghost n0 = s0.len() as int;
        let ghost mk = score_key(min.bits);
        let ghost a = lower_bound_key(s0, mk, i64::MIN);
        proof {
            self.lemma_view();
            lemma_lower_bound_props(s0, mk, i64::MIN);
        }
        let mut count: usize = 0;
        loop
            invariant
                self.wf(),
                self.spec_level_bound() == old(self).spec_level_bound(),
                s0 == old(self)@,
                n0 == s0.len(),
                mk == score_key(min.bits),
                a == lower_bound_key(s0, mk, i64::MIN),
                0 <= a <= a + count <= n0,
                forall|i: int| 0 <= i < a ==> below(#[trigger] s0[i], mk, i64::MIN),
                forall|i: int| a <= i < n0 ==> !below(#[trigger] s0[i], mk, i64::MIN),
                sorted(s0),
                self@ == s0.subrange(0, a) + s0.subrange(a + count, n0),
                forall|i: int| a <= i < a + count ==> score_in_range(#[trigger] s0[i].0, min, max),
            ensures
                0 <= a <= a + count <= n0,
                n0 == s0.len(),
                self.wf(),
                self.spec_level_bound() == old(self).spec_level_bound(),
                self@ == s0.subrange(0, a) + s0.subrange(a + count, n0),
                forall|i: int| a <= i < a + count ==> score_in_range(#[trigger] s0[i].0, min, max),
                forall|i: int| 0 <= i < self@.len() ==> !score_in_range(#[trigger] self@[i].0, min, max),
            decreases self@.len(),
        {
            proof {
                self.lemma_view();
            }
            let ghost sv = self@;
            let (update, rank) = self.find_by_key(min.key(), i64::MIN, false);
            let r0 = rank[0];
            proof {
                assert forall|i: int| 0 <= i < sv.len() implies #[trigger] sv[i] == (if i < a { s0[i] } else { s0[i + count] }) by {}
                assert forall|i: int| 0 <= i < sv.len() implies (below(#[trigger] sv[i], mk, i64::MIN) <==> i < a) by {
                    assert(sv[i] == (if i < a { s0[i] } else { s0[i + count] }));
                }
                lemma_lower_bound_at(sv, mk, i64::MIN, a);
                lemma_lower_bound_at(sv, mk, i64::MIN, r0 as int);
                assert forall|j: int| 0 <= j < r0 implies !score_in_range(#[trigger] sv[j].0, min, max) by {
                    assert(below(sv[j], mk, i64::MIN));
                }
            }
            if r0 < self.len {
                let u = update[0];
                proof {
                    assert(self.node_at(r0 as int) == self.nodes@[u as int]);
                    self.lemma_level0(r0 as int);
                    assert(sv[r0 as int] == self.entry_at(r0 + 1));
                }
                let f = match self.nodes[u].level[0].forward {
                    Some(f) => f,
                    None => 0,
                };
                if self.nodes[f].score.key() <= max.key() {
                    self.remove_at(r0 + 1);
                    proof {
                        assert(s0[a + count] == sv[a]);
                        assert(self@ =~= s0.subrange(0, a) + s0.subrange(a + count + 1, n0));
                    }
                    count = count + 1;
                } else {
                    proof {
                        assert forall|i: int| 0 <= i < sv.len() implies !score_in_range(#[trigger] sv[i].0, min, max) by {
                            if i > r0 {
                                assert(!entry_lt(sv[i], sv[r0 as int]));
                            }
                        }
                    }
                    break;
                }
            } else {
                break;
            }
        }
        count
    }

    /// Removes the elements whose zero-based ranks lie in `[start, end]`,
    /// with `end` cut to the last rank, and returns how many were removed.
    pub fn zsl_delete_range_by_rank(&mut self, start: usize, end: usize) -> (r: usize)
        requires
            old(self).wf(),
        ensures
            final(self).spec_level_bound() == old(self).spec_level_bound(),
            final(self).wf(),
            r == (if start <= end && start < old(self)@.len() {
                (if end < old(self)@.len() { end as int } else { old(self)@.len() - 1 }) - start + 1
            } else {
                0
            }),
            r == 0 ==> final(self)@ == old(self)@,
            r > 0 ==> final(self)@ == old(self)@.subrange(0, start as int) + old(self)@.subrange(
                start + r,
                old(self)@.len() as int,
            ),
    {
        proof {
            self.lemma_view();
        }
        if start > end || start >= self.len {
            return 0;
        }
        let last = if end < self.len {
            end
        } else {
            self.len - 1
        };
        let m = last - start + 1;
        let ghost s0 = self@;
        let ghost n0 = s0.len() as int;
        let mut k: usize = 0;
        while k < m
            invariant
                self.wf(),
                self.spec_level_bound() == old(self).spec_level_bound(),
                s0 == old(self)@,
                n0 == s0.len(),
                k <= m,
                start + m <= n0,
                self@ == s0.subrange(0, start as int) + s0.subrange(start + k, n0),
            decreases m - k,
        {
            proof {
                self.lemma_view();
            }
            self.remove_at(start + 1);
            proof {
                assert(self@ =~= s0.subrange(0, start as int) + s0.subrange(start + k + 1, n0));
            }
            k = k + 1;
        }
        m
    }

    /// An empty list drawing node levels from `g`.
    pub fn with_level_generator(g: DefaultLevelGenerator) -> (r: ZSkipList)
        requires
            g.wf(),
        ensures
            r.wf(),
            r@ == Seq::<Entry>::empty(),
            r.spec_level_bound() == g.spec_level_bound(),
    {
        let bound = g.level_bound();
        let mut nodes: Vec<ZSkipNode> = Vec::new();
        nodes.push(ZSkipNode::head(bound));
        let ghost ord = seq![0usize];
        let r = ZSkipList {
            nodes,
            free: Vec::new(),
            tail: 0,
            cur_level: 0,
            len: 0,
            level_generator: g,
            order: Ghost(ord),
        };
        assert(r@ =~= Seq::<Entry>::empty());
        assert forall|p: int, l: int| 0 <= p <= r.len && 0 <= l < r.hts()[p] implies #[trigger] r.link_ok(p, l) by {
            assert(p == 0);
            assert(r.node_at(0).level@[l] == ZSkipLevel { forward: None, span: 0 });
        }
        r
    }

    /// Releases every node; the list is then empty and keeps its policy.
    pub fn zsl_free(&mut self)
        requires
            old(self).wf(),
        ensures
            final(self).wf(),
            final(self)@ == Seq::<Entry>::empty(),
            final(self).spec_level_bound() == old(self).spec_level_bound(),
    {
        let bound = self.level_generator.level_bound();
        let mut nodes: Vec<ZSkipNode> = Vec::new();
        nodes.push(ZSkipNode::head(bound));
        self.nodes = nodes;
        self.free = Vec::new();
        self.tail = 0;
        self.cur_level = 0;
        self.len = 0;
        let ghost ord = seq![0usize];
        self.order = Ghost(ord);
        assert(self@ =~= Seq::<Entry>::empty());
        assert forall|p: int, l: int| 0 <= p <= self.len && 0 <= l < self.hts()[p] implies #[trigger] self.link_ok(p, l) by {
            assert(p == 0);
            assert(self.node_at(0).level@[l] == ZSkipLevel { forward: None, span: 0 });
        }
    }

    /// The elements of a well-formed list are sorted.
    pub proof fn lemma_wf_sorted(&self)
        requires
            self.wf(),
        ensures
            sorted(self@),
    {
    }

    /// Scores never decrease along the list, and where all scores differ they
    /// strictly increase.
    pub proof fn lemma_scores_ascending(&self)
        requires
            self.wf(),
        ensures
            forall|i: int, j: int|
                0 <= i < j < self@.len() ==> score_key(#[trigger] self@[i].0.bits) <= score_key(#[trigger] self@[j].0.bits),
            (forall|i: int, j: int|
                0 <= i < j < self@.len() ==> score_key(#[trigger] self@[i].0.bits) != score_key(#[trigger] self@[j].0.bits))
                ==> forall|i: int, j: int|
                0 <= i < j < self@.len() ==> score_key(#[trigger] self@[i].0.bits) < score_key(#[trigger] self@[j].0.bits),
    {
        assert forall|i: int, j: int| 0 <= i < j < self@.len() implies score_key(#[trigger] self@[i].0.bits) <= score_key(#[trigger] self@[j].0.bits) by {
            assert(!entry_lt(self@[j], self@[i]));
        }
    }

    /// The sum of the level-0 spans from the head up to position `p`.
    pub closed spec fn level0_span_sum(&self, p: int) -> int
        decreases p,
    {
        if p <= 0 {
            0
        } else {
            self.level0_span_sum(p - 1) + self.node_at(p - 1).level@[0].span
        }
    }

    /// For every position `p`, the level-0 spans from the head up to `p` add
    /// up to `p`.
    pub proof fn lemma_level0_span_sum(&self, p: int)
        requires
            self.wf(),
            0 <= p <= self@.len(),
        ensures
            self.level0_span_sum(p) == p,
        decreases p,
    {
        self.lemma_view();
        if p > 0 {
            self.lemma_level0_span_sum(p - 1);
            let hs = self.hts();
            self.lemma_level0(p - 1);
            assert(self.link_ok(p - 1, 0));
            assert(hs[p] >= 1);
            assert(1 <= self.node_at(p).level@.len() <= self.cur_level);
            lemma_next_up_unique(hs, 0, p - 1, p);
        }
    }

    /// Walking level 0 from the head to the element at position `p`
    /// (one-based) adds up spans to `p`. The rank that `zsl_get_rank` reports
    /// for that element is the index of the first element equal to it, and
    /// the spans up to that one add up to one more than the rank; with no
    /// other element equal to it, that is `p - 1`.
    pub proof fn lemma_span_sum_is_rank(&self, p: int)
        requires
            self.wf(),
            1 <= p <= self@.len(),
        ensures
            self.level0_span_sum(p) == p,
            rank_of(self@, self@[p - 1]) is Some,
            ({
                let k = rank_of(self@, self@[p - 1])->0;
                &&& 0 <= k <= p - 1
                &&& entry_eq(self@[k], self@[p - 1])
                &&& forall|j: int| 0 <= j < k ==> !entry_eq(#[trigger] self@[j], self@[p - 1])
                &&& self.level0_span_sum(k + 1) == k + 1
            }),
            (forall|j: int| 0 <= j < self@.len() && j != p - 1 ==> !entry_eq(#[trigger] self@[j], self@[p - 1]))
                ==> rank_of(self@, self@[p - 1]) == Some(p - 1),
    {
        self.lemma_view();
        self.lemma_level0_span_sum(p);
        lemma_rank_round_trip(self@, p - 1);
        let e = self@[p - 1];
        lemma_lower_bound_props(self@, score_key(e.0.bits), e.1);
        let k = lower_bound(self@, e);
        assert(entry_eq(self@[k], e));
        assert forall|j: int| 0 <= j < k implies !entry_eq(#[trigger] self@[j], e) by {
            assert(below(self@[j], score_key(e.0.bits), e.1));
        }
        self.lemma_level0_span_sum(k + 1);
    }
}

} // verus!
