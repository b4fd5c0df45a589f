//! Laws of the transform and of the sort policies, proved once for all
//! inputs.

use vstd::prelude::*;
use vstd::relations::sorted_by;
use crate::sorting::{
    ao5_le, ao5_leq, best_leq, insertion_sort, latest_leq, lemma_ao5_leq_preorder,
    lemma_insertion_sort_elements, lemma_insertion_sort_len, lemma_insertion_sort_map_multiset,
    lemma_insertion_sort_multiset, lemma_insertion_sort_of_sorted, lemma_insertion_sort_sorted,
    lemma_latest_leq_preorder,
};
use crate::policy::sort_solves_spec;
use crate::types::{ao5_value, Ao5Solve, Ao5Time, Solve, SortBy, SortOrder};
use crate::window::{
    chrono_sorted, count_dnf, count_valid, lemma_count_valid_all, lemma_counts_partition,
    penalized, transform_spec, window_metric,
};

verus! {

/// Projects a raw record to its id.
pub open spec fn solve_id() -> spec_fn(Solve) -> String {
    |s: Solve| s.id
}

/// Projects a windowed record to the id of the solve it carries.
pub open spec fn windowed_id() -> spec_fn(Ao5Solve) -> String {
    |a: Ao5Solve| a.last_solve.id
}

/// Windowing correctness: with at least five records, none forfeited,
/// a record lacks a full window exactly at the last four chronological
/// positions — so exactly four records are marked so — and no window
/// is invalid.
pub proof fn lemma_windowing_counts(input: Seq<Solve>)
    requires
        input.len() >= 5,
        forall|i: int| 0 <= i < input.len() ==> !(#[trigger] input[i]).dnf,
    ensures
        transform_spec(input).len() == input.len(),
        forall|i: int|
            0 <= i < input.len() ==> ((#[trigger] transform_spec(input)[i]).time
                is Unavailable <==> i > input.len() - 5),
        forall|i: int| 0 <= i < input.len() ==> !((#[trigger] transform_spec(input)[i]).time
            is Invalid),
{
    let pen = penalized();
    let mapped = input.map_values(pen);
    let c = chrono_sorted(input);
    let t = transform_spec(input);
    lemma_insertion_sort_len(mapped, latest_leq());
    lemma_insertion_sort_elements(mapped, latest_leq());
    assert forall|k: int| 0 <= k < c.len() implies !(#[trigger] c[k]).dnf by {
        assert(mapped.contains(c[k]));
        let m = choose|m: int| 0 <= m < mapped.len() && mapped[m] == c[k];
        assert(mapped[m] == pen(input[m]));
    }
    assert forall|i: int| 0 <= i < input.len() implies ((#[trigger] t[i]).time
        is Unavailable <==> i > input.len() - 5) && !(t[i].time is Invalid) by {
        assert(t[i].time == window_metric(c, i));
        if i + 5 <= c.len() {
            let w = c.subrange(i, i + 5);
            assert forall|k: int| 0 <= k < w.len() implies !(#[trigger] w[k]).dnf by {
                assert(w[k] == c[i + k]);
            }
            lemma_count_valid_all(w);
        }
    }
}

/// Forfeit threshold: a window of five with two forfeits has only
/// three valid times, and its metric is invalid.
pub proof fn lemma_dnf_threshold(s: Seq<Solve>, i: int)
    requires
        0 <= i,
        i + 5 <= s.len(),
        count_dnf(s.subrange(i, i + 5)) == 2,
    ensures
        count_valid(s.subrange(i, i + 5)) == 3,
        window_metric(s, i) == Ao5Time::Invalid,
{
    lemma_counts_partition(s.subrange(i, i + 5));
}

/// Reversal: for either metric, the worst-first arrangement is the
/// exact reversal of the best-first one, tied blocks included.
pub proof fn lemma_worst_reverses_best(input: Seq<Solve>, by: SortBy)
    ensures
        sort_solves_spec(input, SortOrder::Worst, by) == sort_solves_spec(
            input,
            SortOrder::Best,
            by,
        ).reverse(),
{
}

/// The oldest-first arrangement is the exact reversal of the
/// most-recent-first one.
pub proof fn lemma_oldest_reverses_latest(input: Seq<Solve>, by: SortBy)
    ensures
        sort_solves_spec(input, SortOrder::Oldest, by) == sort_solves_spec(
            input,
            SortOrder::Latest,
            by,
        ).reverse(),
{
}

/// Idempotent re-sort: sorting a sequence that is already most recent
/// first by recency returns it unchanged.
pub proof fn lemma_latest_sort_idempotent(s: Seq<Solve>)
    requires
        sorted_by(s, latest_leq()),
    ensures
        insertion_sort(s, latest_leq()) == s,
{
    lemma_insertion_sort_of_sorted(s, latest_leq());
}

/// The transform's output is chronological: most recent first.
pub proof fn lemma_transform_chronological(input: Seq<Solve>)
    ensures
        forall|i: int, j: int|
            0 <= i < j < transform_spec(input).len() ==> (#[trigger] transform_spec(
                input,
            )[i]).last_solve.created_at >= (#[trigger] transform_spec(input)[j]).last_solve.created_at,
{
    let pen = penalized();
    let mapped = input.map_values(pen);
    let c = chrono_sorted(input);
    let t = transform_spec(input);
    lemma_latest_leq_preorder();
    lemma_insertion_sort_sorted(mapped, latest_leq());
    let leq = latest_leq();
    assert forall|i: int, j: int| 0 <= i < j < t.len() implies (#[trigger] t[i]).last_solve.created_at
        >= (#[trigger] t[j]).last_solve.created_at by {
        assert(leq(c[i], c[j]));
        assert(t[i].last_solve == c[i]);
        assert(t[j].last_solve == c[j]);
    }
}

/// Permutation invariant: every policy emits exactly the input
/// records — the multiset of ids is unchanged.
pub proof fn lemma_permutation_invariant(input: Seq<Solve>, order: SortOrder, by: SortBy)
    ensures
        sort_solves_spec(input, order, by).len() == input.len(),
        sort_solves_spec(input, order, by).map_values(windowed_id()).to_multiset()
            == input.map_values(solve_id()).to_multiset(),
{
    let pen = penalized();
    let mapped = input.map_values(pen);
    let c = chrono_sorted(input);
    let t = transform_spec(input);
    let f = windowed_id();
    let g = solve_id();
    lemma_insertion_sort_len(mapped, latest_leq());
    assert(t.map_values(f) =~= c.map_values(g)) by {
        assert forall|k: int| 0 <= k < t.len() implies t.map_values(f)[k] == c.map_values(g)[k] by {
            assert(t.map_values(f)[k] == f(t[k]));
            assert(c.map_values(g)[k] == g(c[k]));
            assert(t[k] == (Ao5Solve { last_solve: c[k], time: window_metric(c, k) }));
        }
    }
    assert(mapped.map_values(g) =~= input.map_values(g)) by {
        assert forall|k: int| 0 <= k < input.len() implies mapped.map_values(g)[k]
            == input.map_values(g)[k] by {
            assert(mapped.map_values(g)[k] == g(mapped[k]));
            assert(mapped[k] == pen(input[k]));
            assert(input.map_values(g)[k] == g(input[k]));
        }
    }
    lemma_insertion_sort_map_multiset(mapped, latest_leq(), g);
    match order {
        SortOrder::Latest => {
        },
        SortOrder::Oldest => {
            assert(t.reverse().map_values(f) =~= t.map_values(f).reverse()) by {
                assert forall|k: int| 0 <= k < t.len() implies t.reverse().map_values(f)[k]
                    == t.map_values(f).reverse()[k] by {
                    assert(t.reverse().map_values(f)[k] == f(t.reverse()[k]));
                    assert(t.map_values(f)[t.len() - 1 - k] == f(t[t.len() - 1 - k]));
                }
            }
            t.map_values(f).lemma_reverse_to_multiset();
        },
        SortOrder::Best => {
            lemma_insertion_sort_map_multiset(t, best_leq(by), f);
            lemma_insertion_sort_len(t, best_leq(by));
        },
        SortOrder::Worst => {
            let s = insertion_sort(t, best_leq(by));
            lemma_insertion_sort_map_multiset(t, best_leq(by), f);
            lemma_insertion_sort_len(t, best_leq(by));
            assert(s.reverse().map_values(f) =~= s.map_values(f).reverse()) by {
                assert forall|k: int| 0 <= k < s.len() implies s.reverse().map_values(f)[k]
                    == s.map_values(f).reverse()[k] by {
                    assert(s.reverse().map_values(f)[k] == f(s.reverse()[k]));
                    assert(s.map_values(f)[s.len() - 1 - k] == f(s[s.len() - 1 - k]));
                }
            }
            s.map_values(f).lemma_reverse_to_multiset();
        },
    }
}

/// Ordering invariant for the best-average policy: wherever two
/// computable metrics stand in the output, the earlier sum is no
/// larger.
pub proof fn lemma_best_ao5_ordering(input: Seq<Solve>)
    ensures
        forall|i: int, j: int|
            0 <= i < j < sort_solves_spec(input, SortOrder::Best, SortBy::Ao5).len()
                && (#[trigger] sort_solves_spec(input, SortOrder::Best, SortBy::Ao5)[i]).time
                is Value && (#[trigger] sort_solves_spec(input, SortOrder::Best, SortBy::Ao5)[j]).time
                is Value ==> ao5_value(sort_solves_spec(input, SortOrder::Best, SortBy::Ao5)[i].time)
                <= ao5_value(sort_solves_spec(input, SortOrder::Best, SortBy::Ao5)[j].time),
{
    let t = transform_spec(input);
    let r = sort_solves_spec(input, SortOrder::Best, SortBy::Ao5);
    lemma_ao5_leq_preorder();
    lemma_insertion_sort_sorted(t, ao5_leq());
    let leq = ao5_leq();
    assert forall|i: int, j: int|
        0 <= i < j < r.len() && (#[trigger] r[i]).time is Value && (#[trigger] r[j]).time
            is Value implies ao5_value(r[i].time) <= ao5_value(r[j].time) by {
        assert(leq(r[i], r[j]));
        assert(ao5_le(r[i], r[j]));
    }
}

} // verus!
