//! A stable insertion sort over sequences, with the order relations the
//! sort policies use.
//!
//! The sort is specified by the recursive functions `insert_sorted` and
//! `insertion_sort`; the executable sorts return exactly the sequence
//! those functions describe, so every caller knows the output in full,
//! ties included. The relations here are total preorders (total and
//! transitive, but records may tie), which is all a stable sort needs.

use vstd::prelude::*;
use vstd::relations::{sorted_by, strongly_connected, transitive};
use vstd::seq_lib::group_to_multiset_ensures;
use crate::types::{Ao5Solve, Ao5Time, Solve, SortBy};

verus! {

broadcast use group_to_multiset_ensures;

/// `x` placed into `s` after every element that compares `leq` to it:
/// when `s` is sorted, the result is `s` with `x` inserted behind all
/// of its ties.
pub open spec fn insert_sorted<A>(s: Seq<A>, x: A, leq: spec_fn(A, A) -> bool) -> Seq<A>
    decreases s.len(),
{
    if s.len() == 0 {
        seq![x]
    } else if leq(s.last(), x) {
        s.push(x)
    } else {
        insert_sorted(s.drop_last(), x, leq).push(s.last())
    }
}

/// The stable insertion sort of `s` under `leq`.
pub open spec fn insertion_sort<A>(s: Seq<A>, leq: spec_fn(A, A) -> bool) -> Seq<A>
    decreases s.len(),
{
    if s.len() == 0 {
        Seq::<A>::empty()
    } else {
        insert_sorted(insertion_sort(s.drop_last(), leq), s.last(), leq)
    }
}

pub proof fn lemma_insert_sorted_len<A>(s: Seq<A>, x: A, leq: spec_fn(A, A) -> bool)
    ensures
        insert_sorted(s, x, leq).len() == s.len() + 1,
    decreases s.len(),
{
    if s.len() == 0 {
    } else if leq(s.last(), x) {
    } else {
        lemma_insert_sorted_len(s.drop_last(), x, leq);
    }
}

pub proof fn lemma_insertion_sort_len<A>(s: Seq<A>, leq: spec_fn(A, A) -> bool)
    ensures
        insertion_sort(s, leq).len() == s.len(),
    decreases s.len(),
{
    if s.len() == 0 {
    } else {
        lemma_insertion_sort_len(s.drop_last(), leq);
        lemma_insert_sorted_len(insertion_sort(s.drop_last(), leq), s.last(), leq);
    }
}

/// Inserting adds one occurrence of the image of `x` to the multiset of
/// images under any `f`.
pub proof fn lemma_insert_sorted_map_multiset<A, B>(
    s: Seq<A>,
    x: A,
    leq: spec_fn(A, A) -> bool,
    f: spec_fn(A) -> B,
)
    ensures
        insert_sorted(s, x, leq).map_values(f).to_multiset() == s.map_values(f).to_multiset().insert(
            f(x),
        ),
    decreases s.len(),
{
    if s.len() == 0 {
        assert(insert_sorted(s, x, leq).map_values(f) =~= Seq::<B>::empty().push(f(x)));
        assert(s.map_values(f) =~= Seq::<B>::empty());
    } else if leq(s.last(), x) {
        assert(s.push(x).map_values(f) =~= s.map_values(f).push(f(x)));
    } else {
        let s0 = s.drop_last();
        lemma_insert_sorted_map_multiset(s0, x, leq, f);
        assert(insert_sorted(s, x, leq).map_values(f) =~= insert_sorted(s0, x, leq).map_values(
            f,
        ).push(f(s.last())));
        assert(s.map_values(f) =~= s0.map_values(f).push(f(s.last())));
        assert(s0.map_values(f).to_multiset().insert(f(x)).insert(f(s.last())) =~= s0.map_values(
            f,
        ).to_multiset().insert(f(s.last())).insert(f(x)));
    }
}

/// Sorting permutes the images under any `f`: nothing is added or
/// dropped.
pub proof fn lemma_insertion_sort_map_multiset<A, B>(
    s: Seq<A>,
    leq: spec_fn(A, A) -> bool,
    f: spec_fn(A) -> B,
)
    ensures
        insertion_sort(s, leq).map_values(f).to_multiset() == s.map_values(f).to_multiset(),
    decreases s.len(),
{
    if s.len() == 0 {
        assert(insertion_sort(s, leq).map_values(f) =~= s.map_values(f));
    } else {
        let s0 = s.drop_last();
        lemma_insertion_sort_map_multiset(s0, leq, f);
        lemma_insert_sorted_map_multiset(insertion_sort(s0, leq), s.last(), leq, f);
        assert(s.map_values(f) =~= s0.map_values(f).push(f(s.last())));
    }
}

/// Sorting permutes the sequence itself.
pub proof fn lemma_insertion_sort_multiset<A>(s: Seq<A>, leq: spec_fn(A, A) -> bool)
    ensures
        insertion_sort(s, leq).to_multiset() == s.to_multiset(),
{
    let f = |a: A| a;
    lemma_insertion_sort_map_multiset(s, leq, f);
    assert(insertion_sort(s, leq).map_values(f) =~= insertion_sort(s, leq));
    assert(s.map_values(f) =~= s);
}

/// Every element of the sorted sequence comes from the input.
pub proof fn lemma_insertion_sort_elements<A>(s: Seq<A>, leq: spec_fn(A, A) -> bool)
    ensures
        forall|i: int|
            0 <= i < insertion_sort(s, leq).len() ==> s.contains(
                #[trigger] insertion_sort(s, leq)[i],
            ),
{
    let r = insertion_sort(s, leq);
    lemma_insertion_sort_multiset(s, leq);
    assert forall|i: int| 0 <= i < r.len() implies s.contains(#[trigger] r[i]) by {
        assert(r.contains(r[i]));
        assert(r.to_multiset().count(r[i]) > 0);
    }
}

proof fn lemma_insert_sorted_elements<A>(s: Seq<A>, x: A, leq: spec_fn(A, A) -> bool)
    ensures
        forall|i: int|
            0 <= i < insert_sorted(s, x, leq).len() ==> #[trigger] insert_sorted(s, x, leq)[i] == x
                || s.contains(insert_sorted(s, x, leq)[i]),
    decreases s.len(),
{
    let r = insert_sorted(s, x, leq);
    if s.len() == 0 {
    } else if leq(s.last(), x) {
    } else {
        let s0 = s.drop_last();
        lemma_insert_sorted_elements(s0, x, leq);
        let r0 = insert_sorted(s0, x, leq);
        assert forall|i: int| 0 <= i < r.len() implies #[trigger] r[i] == x || s.contains(r[i]) by {
            if i < r0.len() {
                assert(r[i] == r0[i]);
                if r0[i] != x {
                    let j = choose|j: int| 0 <= j < s0.len() && s0[j] == r0[i];
                    assert(s[j] == r0[i]);
                }
            } else {
                assert(r[i] == s.last());
                assert(s[s.len() - 1] == s.last());
            }
        }
    }
}

/// Inserting into a sorted sequence keeps it sorted, for any total and
/// transitive relation.
pub proof fn lemma_insert_sorted_sorted<A>(s: Seq<A>, x: A, leq: spec_fn(A, A) -> bool)
    requires
        sorted_by(s, leq),
        strongly_connected(leq),
        transitive(leq),
    ensures
        sorted_by(insert_sorted(s, x, leq), leq),
    decreases s.len(),
{
    let r = insert_sorted(s, x, leq);
    if s.len() == 0 {
    } else if leq(s.last(), x) {
        assert forall|i: int, j: int| 0 <= i < j < r.len() implies #[trigger] leq(r[i], r[j]) by {
            if j == s.len() {
                if i == s.len() - 1 {
                } else {
                    assert(leq(s[i], s.last()));
                }
            }
        }
    } else {
        let s0 = s.drop_last();
        assert(sorted_by(s0, leq)) by {
            assert forall|i: int, j: int| 0 <= i < j < s0.len() implies #[trigger] leq(
                s0[i],
                s0[j],
            ) by {
                assert(leq(s[i], s[j]));
            }
        }
        lemma_insert_sorted_sorted(s0, x, leq);
        lemma_insert_sorted_elements(s0, x, leq);
        let r0 = insert_sorted(s0, x, leq);
        assert(leq(x, s.last()));
        assert forall|i: int, j: int| 0 <= i < j < r.len() implies #[trigger] leq(r[i], r[j]) by {
            if j == r0.len() {
                assert(r[j] == s.last());
                assert(r[i] == r0[i]);
                if r0[i] == x {
                } else {
                    let k = choose|k: int| 0 <= k < s0.len() && s0[k] == r0[i];
                    assert(leq(s[k], s.last()));
                }
            } else {
                assert(leq(r0[i], r0[j]));
            }
        }
    }
}

/// The insertion sort sorts, for any total and transitive relation.
pub proof fn lemma_insertion_sort_sorted<A>(s: Seq<A>, leq: spec_fn(A, A) -> bool)
    requires
        strongly_connected(leq),
        transitive(leq),
    ensures
        sorted_by(insertion_sort(s, leq), leq),
    decreases s.len(),
{
    if s.len() == 0 {
    } else {
        lemma_insertion_sort_sorted(s.drop_last(), leq);
        lemma_insert_sorted_sorted(insertion_sort(s.drop_last(), leq), s.last(), leq);
    }
}

/// Re-sorting a sequence that is already sorted gives it back
/// unchanged: the sort is idempotent.
pub proof fn lemma_insertion_sort_of_sorted<A>(s: Seq<A>, leq: spec_fn(A, A) -> bool)
    requires
        sorted_by(s, leq),
    ensures
        insertion_sort(s, leq) == s,
    decreases s.len(),
{
    if s.len() == 0 {
        assert(insertion_sort(s, leq) =~= s);
    } else {
        let s0 = s.drop_last();
        assert(sorted_by(s0, leq)) by {
            assert forall|i: int, j: int| 0 <= i < j < s0.len() implies #[trigger] leq(
                s0[i],
                s0[j],
            ) by {
                assert(leq(s[i], s[j]));
            }
        }
        lemma_insertion_sort_of_sorted(s0, leq);
        if s0.len() > 0 {
            assert(leq(s[s0.len() - 1], s[s.len() - 1]));
        }
        assert(insertion_sort(s, leq) == insert_sorted(s0, s.last(), leq));
        assert(s0.push(s.last()) =~= s);
    }
}

/// Where `x` lands: if everything from `p` on refuses `leq` to `x` and
/// the element before `p` (if any) accepts it, `x` is inserted at `p`.
pub proof fn lemma_insert_sorted_at<A>(s: Seq<A>, x: A, leq: spec_fn(A, A) -> bool, p: int)
    requires
        0 <= p <= s.len(),
        forall|m: int| p <= m < s.len() ==> !leq(#[trigger] s[m], x),
        p > 0 ==> leq(s[p - 1], x),
    ensures
        insert_sorted(s, x, leq) == s.insert(p, x),
    decreases s.len(),
{
    if s.len() == 0 {
        assert(insert_sorted(s, x, leq) =~= s.insert(0, x));
    } else if p == s.len() {
        assert(leq(s.last(), x));
        assert(s.push(x) =~= s.insert(p, x));
    } else {
        assert(!leq(s[s.len() - 1], x));
        let s0 = s.drop_last();
        lemma_insert_sorted_at(s0, x, leq, p);
        assert(insert_sorted(s0, x, leq).push(s.last()) =~= s.insert(p, x));
    }
}

/// The chronological order: most recent first, ties allowed.
pub open spec fn latest_le(a: Solve, b: Solve) -> bool {
    a.created_at >= b.created_at
}

/// `latest_le` as a relation value, for the sort.
pub open spec fn latest_leq() -> spec_fn(Solve, Solve) -> bool {
    |a: Solve, b: Solve| latest_le(a, b)
}

/// The best-single order on windowed solves: finished times ascending
/// by the penalty-adjusted single time, unfinished records last.
pub open spec fn single_le(a: Ao5Solve, b: Ao5Solve) -> bool {
    if a.last_solve.dnf {
        b.last_solve.dnf
    } else {
        b.last_solve.dnf || a.last_solve.time <= b.last_solve.time
    }
}

/// `single_le` as a relation value, for the sort.
pub open spec fn single_leq() -> spec_fn(Ao5Solve, Ao5Solve) -> bool {
    |a: Ao5Solve, b: Ao5Solve| single_le(a, b)
}

/// The best-average order on windowed solves: computable metrics
/// ascending, then invalid windows, then records with no window.
pub open spec fn ao5_le(a: Ao5Solve, b: Ao5Solve) -> bool {
    match a.time {
        Ao5Time::Value(x) => match b.time {
            Ao5Time::Value(y) => x <= y,
            _ => true,
        },
        Ao5Time::Invalid => match b.time {
            Ao5Time::Value(_) => false,
            _ => true,
        },
        Ao5Time::Unavailable => match b.time {
            Ao5Time::Unavailable => true,
            _ => false,
        },
    }
}

/// `ao5_le` as a relation value, for the sort.
pub open spec fn ao5_leq() -> spec_fn(Ao5Solve, Ao5Solve) -> bool {
    |a: Ao5Solve, b: Ao5Solve| ao5_le(a, b)
}

/// The `Best` order for a given metric choice.
pub open spec fn best_le(by: SortBy, a: Ao5Solve, b: Ao5Solve) -> bool {
    match by {
        SortBy::Single => single_le(a, b),
        SortBy::Ao5 => ao5_le(a, b),
    }
}

/// The relation the `Best` order uses for a given metric choice.
pub open spec fn best_leq(by: SortBy) -> spec_fn(Ao5Solve, Ao5Solve) -> bool {
    match by {
        SortBy::Single => single_leq(),
        SortBy::Ao5 => ao5_leq(),
    }
}

pub proof fn lemma_latest_leq_preorder()
    ensures
        strongly_connected(latest_leq()),
        transitive(latest_leq()),
{
}

pub proof fn lemma_single_leq_preorder()
    ensures
        strongly_connected(single_leq()),
        transitive(single_leq()),
{
}

pub proof fn lemma_ao5_leq_preorder()
    ensures
        strongly_connected(ao5_leq()),
        transitive(ao5_leq()),
{
}

pub proof fn lemma_best_leq_preorder(by: SortBy)
    ensures
        strongly_connected(best_leq(by)),
        transitive(best_leq(by)),
{
    match by {
        SortBy::Single => lemma_single_leq_preorder(),
        SortBy::Ao5 => lemma_ao5_leq_preorder(),
    }
}

fn latest_le_exec(a: &Solve, b: &Solve) -> (r: bool)
    ensures
        r == latest_le(*a, *b),
{
    a.created_at >= b.created_at
}

fn best_le_exec(by: &SortBy, a: &Ao5Solve, b: &Ao5Solve) -> (r: bool)
    ensures
        r == best_le(*by, *a, *b),
{
    match by {
        SortBy::Single => {
            if a.last_solve.dnf {
                b.last_solve.dnf
            } else {
                b.last_solve.dnf || a.last_solve.time <= b.last_solve.time
            }
        },
        SortBy::Ao5 => {
            match a.time {
                Ao5Time::Value(x) => match b.time {
                    Ao5Time::Value(y) => x <= y,
                    _ => true,
                },
                Ao5Time::Invalid => match b.time {
                    Ao5Time::Value(_) => false,
                    _ => true,
                },
                Ao5Time::Unavailable => match b.time {
                    Ao5Time::Unavailable => true,
                    _ => false,
                },
            }
        },
    }
}

/// Sorts the records most recent first; ties keep their relative order.
fn find_pos_latest(v: &Vec<Solve>, hi: usize, x: &Solve) -> (p: usize)
    requires
        hi <= v@.len(),
    ensures
        p <= hi,
        forall|m: int| p <= m < hi ==> !latest_le(#[trigger] v@[m], *x),
        p > 0 ==> latest_le(v@[p - 1], *x),
{
    let mut p: usize = hi;
    while p > 0 && !latest_le_exec(&v[p - 1], x)
        invariant
            p <= hi,
            hi <= v@.len(),
            forall|m: int| p <= m < hi ==> !latest_le(#[trigger] v@[m], *x),
        decreases p,
    {
        p = p - 1;
    }
    p
}

fn find_pos_best(by: &SortBy, v: &Vec<Ao5Solve>, hi: usize, x: &Ao5Solve) -> (p: usize)
    requires
        hi <= v@.len(),
    ensures
        p <= hi,
        forall|m: int| p <= m < hi ==> !best_le(*by, #[trigger] v@[m], *x),
        p > 0 ==> best_le(*by, v@[p - 1], *x),
{
    let mut p: usize = hi;
    while p > 0 && !best_le_exec(by, &v[p - 1], x)
        invariant
            p <= hi,
            hi <= v@.len(),
            forall|m: int| p <= m < hi ==> !best_le(*by, #[trigger] v@[m], *x),
        decreases p,
    {
        p = p - 1;
    }
    p
}

/// Sorts the records most recent first; ties keep their relative order.
pub fn sort_latest(v: &mut Vec<Solve>)
    ensures
        final(v)@ == insertion_sort(old(v)@, latest_leq()),
{
    let ghost leq = latest_leq();
    let ghost orig = v@;
    let mut idx: usize = 0;
    proof {
        assert(v@.subrange(0, 0) =~= insertion_sort(orig.subrange(0, 0), leq));
    }
    while idx < v.len()
        invariant
            idx <= v@.len(),
            v@.len() == orig.len(),
            leq == latest_leq(),
            v@.subrange(0, idx as int) == insertion_sort(orig.subrange(0, idx as int), leq),
            v@.subrange(idx as int, v@.len() as int) == orig.subrange(
                idx as int,
                orig.len() as int,
            ),
        decreases v@.len() - idx,
    {
        let ghost pre = v@.subrange(0, idx as int);
        proof {
            lemma_insertion_sort_len(orig.subrange(0, idx as int), leq);
        }
        let ghost before = v@;
        let x = v.remove(idx);
        proof {
            before.remove_ensures(idx as int);
            assert forall|m: int| idx <= m < before.len() implies before[m] == orig[m] by {
                assert(before.subrange(idx as int, before.len() as int)[m - idx] == before[m]);
                assert(orig.subrange(idx as int, orig.len() as int)[m - idx] == orig[m]);
            }
            assert(x == orig[idx as int]);
            assert forall|m: int| 0 <= m < idx implies v@[m] == pre[m] by {
                assert(v@[m] == before[m]);
            }
            assert(v@.subrange(0, idx as int) =~= pre);
            assert(v@.subrange(idx as int, v@.len() as int) =~= orig.subrange(
                idx as int + 1,
                orig.len() as int,
            ));
        }
        let p = find_pos_latest(&v, idx, &x);
        proof {
            assert forall|m: int| p <= m < idx implies !leq(#[trigger] pre[m], x) by {
                assert(!latest_le(v@[m], x));
                assert(v@[m] == pre[m]);
                assert(leq(pre[m], x) == latest_le(pre[m], x));
            }
            assert(p > 0 ==> leq(pre[p - 1], x)) by {
                if p > 0 {
                    assert(v@[p - 1] == pre[p - 1]);
                    assert(leq(pre[p - 1], x) == latest_le(pre[p - 1], x));
                }
            }
            lemma_insert_sorted_at(pre, x, leq, p as int);
            lemma_insert_sorted_len(pre, x, leq);
        }
        let ghost mid = v@;
        v.insert(p, x);
        proof {
            let rest = orig.subrange(idx as int + 1, orig.len() as int);
            assert(mid =~= pre + rest);
            assert(v@ =~= insert_sorted(pre, x, leq) + rest) by {
                assert(v@ == mid.insert(p as int, x));
                (pre + rest).insert_ensures(p as int, x);
                pre.insert_ensures(p as int, x);
                assert((pre + rest).insert(p as int, x) =~= pre.insert(p as int, x) + rest);
            }
            let next = orig.subrange(0, idx as int + 1);
            assert(next.drop_last() =~= orig.subrange(0, idx as int));
            assert(next.last() == x);
            assert(insertion_sort(next, leq) == insert_sorted(pre, x, leq));
            assert(v@.subrange(0, idx as int + 1) =~= insert_sorted(pre, x, leq));
            assert(v@.subrange(idx as int + 1, v@.len() as int) =~= orig.subrange(
                idx as int + 1,
                orig.len() as int,
            ));
        }
        idx = idx + 1;
    }
    proof {
        assert(orig.subrange(0, orig.len() as int) =~= orig);
        assert(v@.subrange(0, v@.len() as int) =~= v@);
    }
}

/// Sorts windowed records by the `Best` order for the chosen metric;
/// ties keep their relative order.
pub fn sort_best(v: &mut Vec<Ao5Solve>, by: &SortBy)
    ensures
        final(v)@ == insertion_sort(old(v)@, best_leq(*by)),
{
    let ghost leq = best_leq(*by);
    let ghost orig = v@;
    let mut idx: usize = 0;
    proof {
        assert(v@.subrange(0, 0) =~= insertion_sort(orig.subrange(0, 0), leq));
    }
    while idx < v.len()
        invariant
            idx <= v@.len(),
            v@.len() == orig.len(),
            leq == best_leq(*by),
            v@.subrange(0, idx as int) == insertion_sort(orig.subrange(0, idx as int), leq),
            v@.subrange(idx as int, v@.len() as int) == orig.subrange(
                idx as int,
                orig.len() as int,
            ),
        decreases v@.len() - idx,
    {
        let ghost pre = v@.subrange(0, idx as int);
        proof {
            lemma_insertion_sort_len(orig.subrange(0, idx as int), leq);
        }
        let ghost before = v@;
        let x = v.remove(idx);
        proof {
            before.remove_ensures(idx as int);
            assert forall|m: int| idx <= m < before.len() implies before[m] == orig[m] by {
                assert(before.subrange(idx as int, before.len() as int)[m - idx] == before[m]);
                assert(orig.subrange(idx as int, orig.len() as int)[m - idx] == orig[m]);
            }
            assert(x == orig[idx as int]);
            assert forall|m: int| 0 <= m < idx implies v@[m] == pre[m] by {
                assert(v@[m] == before[m]);
            }
            assert(v@.subrange(0, idx as int) =~= pre);
            assert(v@.subrange(idx as int, v@.len() as int) =~= orig.subrange(
                idx as int + 1,
                orig.len() as int,
            ));
        }
        let p = find_pos_best(by, &v, idx, &x);
        proof {
            assert forall|m: int| p <= m < idx implies !leq(#[trigger] pre[m], x) by {
                assert(!best_le(*by, v@[m], x));
                assert(v@[m] == pre[m]);
                match *by {
                    SortBy::Single => assert(leq(pre[m], x) == single_le(pre[m], x)),
                    SortBy::Ao5 => assert(leq(pre[m], x) == ao5_le(pre[m], x)),
                }
            }
            assert(p > 0 ==> leq(pre[p - 1], x)) by {
                if p > 0 {
                    assert(v@[p - 1] == pre[p - 1]);
                    match *by {
                        SortBy::Single => assert(leq(pre[p - 1], x) == single_le(pre[p - 1], x)),
                        SortBy::Ao5 => assert(leq(pre[p - 1], x) == ao5_le(pre[p - 1], x)),
                    }
                }
            }
            lemma_insert_sorted_at(pre, x, leq, p as int);
            lemma_insert_sorted_len(pre, x, leq);
        }
        let ghost mid = v@;
        v.insert(p, x);
        proof {
            let rest = orig.subrange(idx as int + 1, orig.len() as int);
            assert(mid =~= pre + rest);
            assert(v@ =~= insert_sorted(pre, x, leq) + rest) by {
                assert(v@ == mid.insert(p as int, x));
                (pre + rest).insert_ensures(p as int, x);
                pre.insert_ensures(p as int, x);
                assert((pre + rest).insert(p as int, x) =~= pre.insert(p as int, x) + rest);
            }
            let next = orig.subrange(0, idx as int + 1);
            assert(next.drop_last() =~= orig.subrange(0, idx as int));
            assert(next.last() == x);
            assert(insertion_sort(next, leq) == insert_sorted(pre, x, leq));
            assert(v@.subrange(0, idx as int + 1) =~= insert_sorted(pre, x, leq));
            assert(v@.subrange(idx as int + 1, v@.len() as int) =~= orig.subrange(
                idx as int + 1,
                orig.len() as int,
            ));
        }
        idx = idx + 1;
    }
    proof {
        assert(orig.subrange(0, orig.len() as int) =~= orig);
        assert(v@.subrange(0, v@.len() as int) =~= v@);
    }
}

pub fn reverse_vec<T>(v: &mut Vec<T>)
    ensures
        final(v)@ == old(v)@.reverse(),
{
    let ghost orig = v@;
    let mut out: Vec<T> = Vec::new();
    proof {
        assert(orig.subrange(0, orig.len() as int) =~= orig);
        assert(orig.subrange(orig.len() as int, orig.len() as int).reverse()
            =~= Seq::<T>::empty());
    }
    while v.len() > 0
        invariant
            v@.len() <= orig.len(),
            v@ == orig.subrange(0, v@.len() as int),
            out@ == orig.subrange(v@.len() as int, orig.len() as int).reverse(),
        decreases v@.len(),
    {
        let ghost k = v@.len() as int;
        let ghost prev_out = out@;
        let x = v.pop().unwrap();
        out.push(x);
        proof {
            let n = orig.len() as int;
            assert(orig.subrange(0, k)[k - 1] == orig[k - 1]);
            assert(x == orig[k - 1]);
            assert(v@ =~= orig.subrange(0, k - 1));
            let sfx1 = orig.subrange(k - 1, n);
            let sfx = orig.subrange(k, n);
            assert(out@.len() == sfx1.len());
            assert forall|i: int| 0 <= i < out@.len() implies out@[i] == sfx1.reverse()[i] by {
                assert(sfx1.reverse()[i] == sfx1[sfx1.len() - 1 - i]);
                assert(sfx1[sfx1.len() - 1 - i] == orig[n - 1 - i]);
                if i < sfx.len() {
                    assert(out@[i] == prev_out[i]);
                    assert(prev_out[i] == sfx.reverse()[i]);
                    assert(sfx.reverse()[i] == sfx[sfx.len() - 1 - i]);
                    assert(sfx[sfx.len() - 1 - i] == orig[n - 1 - i]);
                } else {
                    assert(out@[i] == x);
                }
            }
            assert(out@ =~= sfx1.reverse());
        }
    }
    proof {
        assert(v@.len() == 0);
        assert(out@ =~= orig.reverse());
    }
    *v = out;
}

} // verus!
