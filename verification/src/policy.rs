//! The sort policy: dispatches the windowed records to one of four
//! total orders and two metrics.

use vstd::prelude::*;
use vstd::relations::sorted_by;
use crate::sorting::{
    ao5_leq, best_leq, insertion_sort, latest_leq, lemma_best_leq_preorder,
    lemma_insertion_sort_len, lemma_insertion_sort_map_multiset, lemma_insertion_sort_multiset,
    lemma_insertion_sort_sorted, reverse_vec, single_leq, sort_best,
};
use crate::types::{solves_ok, Ao5Solve, Solve, SortBy, SortOrder};
use crate::window::{
    chrono_sorted, penalized, transform_and_sort_by_latest, transform_spec, window_metric,
};

verus! {

/// Projects a windowed record to the solve it carries.
pub open spec fn last_solve_of() -> spec_fn(Ao5Solve) -> Solve {
    |a: Ao5Solve| a.last_solve
}

/// The arrangement each policy produces from the raw records: the
/// windowed records of the transform, re-sorted by the chosen order.
/// `Latest` keeps the transform's chronological order, `Oldest`
/// reverses it, `Best` sorts ascending by the chosen metric, and
/// `Worst` is the exact reversal of `Best`, tied blocks included.
pub open spec fn sort_solves_spec(input: Seq<Solve>, order: SortOrder, by: SortBy) -> Seq<
    Ao5Solve,
> {
    let t = transform_spec(input);
    match order {
        SortOrder::Latest => t,
        SortOrder::Oldest => t.reverse(),
        SortOrder::Best => insertion_sort(t, best_leq(by)),
        SortOrder::Worst => insertion_sort(t, best_leq(by)).reverse(),
    }
}

/// Every policy returns a permutation of the transform's records: the
/// multiset of carried solves is exactly the penalty-adjusted input.
pub proof fn lemma_sort_solves_spec_permutes(input: Seq<Solve>, order: SortOrder, by: SortBy)
    ensures
        sort_solves_spec(input, order, by).len() == input.len(),
        sort_solves_spec(input, order, by).map_values(last_solve_of()).to_multiset()
            == input.map_values(penalized()).to_multiset(),
{
    let t = transform_spec(input);
    let c = chrono_sorted(input);
    let f = last_solve_of();
    let mapped = input.map_values(penalized());
    lemma_insertion_sort_len(mapped, latest_leq());
    assert(t.map_values(f) =~= c) by {
        assert forall|k: int| 0 <= k < t.len() implies t.map_values(f)[k] == c[k] by {
            assert(t.map_values(f)[k] == f(t[k]));
            assert(t[k] == (Ao5Solve { last_solve: c[k], time: window_metric(c, k) }));
        }
    }
    lemma_insertion_sort_multiset(mapped, latest_leq());
    match order {
        SortOrder::Latest => {
        },
        SortOrder::Oldest => {
            assert(t.reverse().map_values(f) =~= t.map_values(f).reverse()) by {
                assert forall|k: int| 0 <= k < t.len() implies t.reverse().map_values(f)[k]
                    == t.map_values(f).reverse()[k] by {
                    assert(t.reverse().map_values(f)[k] == f(t.reverse()[k]));
                    assert(t.map_values(f)[t.len() - 1 - k] == f(t[t.len() - 1 - k]));
                }
            }
            t.map_values(f).lemma_reverse_to_multiset();
        },
        SortOrder::Best => {
            lemma_insertion_sort_map_multiset(t, best_leq(by), f);
            lemma_insertion_sort_len(t, best_leq(by));
        },
        SortOrder::Worst => {
            let s = insertion_sort(t, best_leq(by));
            lemma_insertion_sort_map_multiset(t, best_leq(by), f);
            lemma_insertion_sort_len(t, best_leq(by));
            assert(s.reverse().map_values(f) =~= s.map_values(f).reverse()) by {
                assert forall|k: int| 0 <= k < s.len() implies s.reverse().map_values(f)[k]
                    == s.map_values(f).reverse()[k] by {
                    assert(s.reverse().map_values(f)[k] == f(s.reverse()[k]));
                    assert(s.map_values(f)[s.len() - 1 - k] == f(s[s.len() - 1 - k]));
                }
            }
            s.map_values(f).lemma_reverse_to_multiset();
        },
    }
}

/// Sorts windowed records ascending by their rolling average-of-5:
/// computable metrics first in ascending order, then invalid windows,
/// then records without a full window; ties keep their order.
pub fn create_best_ao5_solves(solves: &mut Vec<Ao5Solve>)
    ensures
        final(solves)@ == insertion_sort(old(solves)@, ao5_leq()),
        sorted_by(final(solves)@, ao5_leq()),
        final(solves)@.to_multiset() == old(solves)@.to_multiset(),
{
    sort_best(solves, &SortBy::Ao5);
    proof {
        lemma_best_leq_preorder(SortBy::Ao5);
        lemma_insertion_sort_sorted(old(solves)@, ao5_leq());
        lemma_insertion_sort_multiset(old(solves)@, ao5_leq());
    }
}

/// Sorts windowed records ascending by their penalty-adjusted single
/// time, unfinished records last; ties keep their order.
pub fn create_best_single_solves(solves: &mut Vec<Ao5Solve>)
    ensures
        final(solves)@ == insertion_sort(old(solves)@, single_leq()),
        sorted_by(final(solves)@, single_leq()),
        final(solves)@.to_multiset() == old(solves)@.to_multiset(),
{
    sort_best(solves, &SortBy::Single);
    proof {
        lemma_best_leq_preorder(SortBy::Single);
        lemma_insertion_sort_sorted(old(solves)@, single_leq());
        lemma_insertion_sort_multiset(old(solves)@, single_leq());
    }
}

/// Windows the raw records and arranges the result by the chosen
/// policy. The output is a permutation of the penalty-adjusted input
/// records, each carrying its chronological window's metric.
pub fn sort_solves(old_solves: &Vec<Solve>, sort_order: SortOrder, sort_by: SortBy) -> (r: Vec<
    Ao5Solve,
>)
    requires
        solves_ok(old_solves@),
    ensures
        r@ == sort_solves_spec(old_solves@, sort_order, sort_by),
        r@.len() == old_solves@.len(),
        r@.map_values(last_solve_of()).to_multiset() == old_solves@.map_values(
            penalized(),
        ).to_multiset(),
{
    let mut new_solves = transform_and_sort_by_latest(old_solves);
    match &sort_order {
        SortOrder::Latest => {
        },
        SortOrder::Oldest => {
            reverse_vec(&mut new_solves);
        },
        SortOrder::Best => {
            sort_best(&mut new_solves, &sort_by);
        },
        SortOrder::Worst => {
            sort_best(&mut new_solves, &sort_by);
            reverse_vec(&mut new_solves);
        },
    }
    proof {
        lemma_sort_solves_spec_permutes(old_solves@, sort_order, sort_by);
    }
    new_solves
}

} // verus!
