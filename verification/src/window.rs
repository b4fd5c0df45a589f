//! The transform engine: chronological ordering and the rolling
//! average-of-5 metric.
//!
//! A record's window is the five most recent attempts starting at the
//! record itself in the chronological (most recent first) order. The
//! metric drops the best of the window's finished times — and, when
//! all five finished, also the worst — and keeps the sum of the three
//! remaining times, which carries the trimmed mean exactly.

use vstd::prelude::*;
use crate::sorting::{
    insertion_sort, latest_leq, lemma_insertion_sort_elements, lemma_insertion_sort_len,
    sort_latest,
};
use crate::types::{
    apply_penalty, solves_ok, with_penalty, Ao5Solve, Ao5Time, Solve, MAX_TIME, PLUS_TWO_PENALTY,
};

verus! {

/// The penalty adjustment as a function value, for mapping.
pub open spec fn penalized() -> spec_fn(Solve) -> Solve {
    |s: Solve| with_penalty(s)
}

/// How many of the window's records were finished.
pub open spec fn count_valid(w: Seq<Solve>) -> int
    decreases w.len(),
{
    if w.len() == 0 {
        0
    } else {
        count_valid(w.drop_last()) + (if w.last().dnf {
            0int
        } else {
            1int
        })
    }
}

/// How many of the window's records were forfeited.
pub open spec fn count_dnf(w: Seq<Solve>) -> int
    decreases w.len(),
{
    if w.len() == 0 {
        0
    } else {
        count_dnf(w.drop_last()) + (if w.last().dnf {
            1int
        } else {
            0int
        })
    }
}

/// The sum of the finished records' times.
pub open spec fn sum_valid(w: Seq<Solve>) -> int
    decreases w.len(),
{
    if w.len() == 0 {
        0
    } else {
        sum_valid(w.drop_last()) + (if w.last().dnf {
            0int
        } else {
            w.last().time as int
        })
    }
}

/// The best (smallest) finished time; the unreachable ceiling when no
/// record finished.
pub open spec fn min_valid(w: Seq<Solve>) -> int
    decreases w.len(),
{
    if w.len() == 0 {
        u64::MAX as int
    } else {
        let rest = min_valid(w.drop_last());
        if w.last().dnf {
            rest
        } else if ((w.last().time as int) < rest) {
            w.last().time as int
        } else {
            rest
        }
    }
}

/// The worst (largest) finished time; zero when no record finished.
pub open spec fn max_valid(w: Seq<Solve>) -> int
    decreases w.len(),
{
    if w.len() == 0 {
        0
    } else {
        let rest = max_valid(w.drop_last());
        if w.last().dnf {
            rest
        } else if ((w.last().time as int) > rest) {
            w.last().time as int
        } else {
            rest
        }
    }
}

pub proof fn lemma_counts_partition(w: Seq<Solve>)
    ensures
        count_valid(w) + count_dnf(w) == w.len(),
        0 <= count_valid(w) <= w.len(),
        0 <= count_dnf(w) <= w.len(),
    decreases w.len(),
{
    if w.len() == 0 {
    } else {
        lemma_counts_partition(w.drop_last());
    }
}

/// Arithmetic facts tying the window statistics together; they make
/// the trimmed-sum subtractions safe.
pub proof fn lemma_window_stats(w: Seq<Solve>)
    ensures
        sum_valid(w) >= 0,
        count_valid(w) == 0 ==> min_valid(w) == u64::MAX as int && max_valid(w) == 0
            && sum_valid(w) == 0,
        count_valid(w) >= 1 ==> 0 <= min_valid(w) && min_valid(w) <= max_valid(w) && max_valid(w)
            <= sum_valid(w) && min_valid(w) <= sum_valid(w),
        count_valid(w) >= 2 ==> min_valid(w) + max_valid(w) <= sum_valid(w),
    decreases w.len(),
{
    if w.len() == 0 {
    } else {
        lemma_counts_partition(w);
        lemma_counts_partition(w.drop_last());
        lemma_window_stats(w.drop_last());
    }
}

/// A window without forfeits counts every record as valid.
pub proof fn lemma_count_valid_all(w: Seq<Solve>)
    requires
        forall|i: int| 0 <= i < w.len() ==> !(#[trigger] w[i]).dnf,
    ensures
        count_valid(w) == w.len(),
    decreases w.len(),
{
    if w.len() == 0 {
    } else {
        let w0 = w.drop_last();
        assert forall|i: int| 0 <= i < w0.len() implies !(#[trigger] w0[i]).dnf by {
            assert(w0[i] == w[i]);
        }
        lemma_count_valid_all(w0);
    }
}

/// With every time in the window at most `b`, the valid-time sum is at
/// most one `b` per record.
pub proof fn lemma_sum_valid_bound(w: Seq<Solve>, b: int)
    requires
        b >= 0,
        forall|k: int| 0 <= k < w.len() ==> (#[trigger] w[k]).time as int <= b,
    ensures
        sum_valid(w) <= w.len() * b,
    decreases w.len(),
{
    if w.len() == 0 {
    } else {
        let w0 = w.drop_last();
        lemma_sum_valid_bound(w0, b);
        assert((w.len() - 1) * b + b == w.len() * b) by (nonlinear_arith);
    }
}

/// The rolling metric of the window starting at position `i` of the
/// chronologically ordered, penalty-adjusted sequence `s`.
pub open spec fn window_metric(s: Seq<Solve>, i: int) -> Ao5Time {
    if i + 5 > s.len() {
        Ao5Time::Unavailable
    } else {
        let w = s.subrange(i, i + 5);
        if count_valid(w) < 4 {
            Ao5Time::Invalid
        } else if count_valid(w) == 4 {
            Ao5Time::Value((sum_valid(w) - min_valid(w)) as u64)
        } else {
            Ao5Time::Value((sum_valid(w) - min_valid(w) - max_valid(w)) as u64)
        }
    }
}

/// The input with penalties applied, arranged most recent first.
pub open spec fn chrono_sorted(input: Seq<Solve>) -> Seq<Solve> {
    insertion_sort(input.map_values(penalized()), latest_leq())
}

/// What the transform returns: one windowed record per input record,
/// in chronological order, each carrying its window's metric.
pub open spec fn transform_spec(input: Seq<Solve>) -> Seq<Ao5Solve> {
    let c = chrono_sorted(input);
    Seq::new(c.len(), |i: int| (Ao5Solve { last_solve: c[i], time: window_metric(c, i) }))
}

/// Turns raw records into windowed records: applies the penalties,
/// orders the records most recent first, and computes each window's
/// rolling metric.
pub fn transform_and_sort_by_latest(old_solves: &Vec<Solve>) -> (r: Vec<Ao5Solve>)
    requires
        solves_ok(old_solves@),
    ensures
        r@ == transform_spec(old_solves@),
{
    let ghost input = old_solves@;
    let ghost pen = penalized();
    let mut c: Vec<Solve> = Vec::new();
    let mut i: usize = 0;
    proof {
        assert(c@ =~= input.subrange(0, 0).map_values(pen));
    }
    while i < old_solves.len()
        invariant
            i <= input.len(),
            old_solves@ == input,
            solves_ok(input),
            pen == penalized(),
            c@ == input.subrange(0, i as int).map_values(pen),
        decreases input.len() - i,
    {
        let s = apply_penalty(&old_solves[i]);
        c.push(s);
        proof {
            let sub1 = input.subrange(0, i as int + 1);
            assert forall|k: int| 0 <= k < c@.len() implies c@[k] == sub1.map_values(pen)[k] by {
                assert(sub1.map_values(pen)[k] == pen(sub1[k]));
                if k < i as int {
                    assert(input.subrange(0, i as int).map_values(pen)[k] == pen(
                        input.subrange(0, i as int)[k],
                    ));
                    assert(sub1[k] == input[k]);
                    assert(input.subrange(0, i as int)[k] == input[k]);
                } else {
                    assert(sub1[k] == input[i as int]);
                    assert(pen(input[i as int]) == with_penalty(input[i as int]));
                }
            }
            assert(c@ =~= sub1.map_values(pen));
        }
        i = i + 1;
    }
    proof {
        assert(input.subrange(0, input.len() as int) =~= input);
        assert(c@ == input.map_values(pen));
    }
    sort_latest(&mut c);
    let ghost cs = c@;
    proof {
        assert(cs == chrono_sorted(input));
        let mapped = input.map_values(pen);
        assert forall|k: int| 0 <= k < mapped.len() implies (#[trigger] mapped[k]).time <= MAX_TIME
            + PLUS_TWO_PENALTY by {
            assert(mapped[k] == pen(input[k]));
            assert(solves_ok(input));
            assert(input[k].time <= MAX_TIME);
        }
        lemma_insertion_sort_elements(mapped, latest_leq());
        lemma_insertion_sort_len(mapped, latest_leq());
        assert forall|k: int| 0 <= k < cs.len() implies (#[trigger] cs[k]).time <= MAX_TIME
            + PLUS_TWO_PENALTY by {
            assert(mapped.contains(cs[k]));
            let m = choose|m: int| 0 <= m < mapped.len() && mapped[m] == cs[k];
            assert(mapped[m].time <= MAX_TIME + PLUS_TWO_PENALTY);
        }
    }
    let mut out: Vec<Ao5Solve> = Vec::new();
    let mut i: usize = 0;
    while i < c.len()
        invariant
            i <= cs.len(),
            c@ == cs,
            cs == chrono_sorted(input),
            forall|k: int| 0 <= k < cs.len() ==> (#[trigger] cs[k]).time <= MAX_TIME
                + PLUS_TWO_PENALTY,
            out@.len() == i,
            forall|k: int|
                0 <= k < i ==> out@[k] == (Ao5Solve {
                    last_solve: cs[k],
                    time: window_metric(cs, k),
                }),
        decreases cs.len() - i,
    {
        let window_time: Ao5Time;
        if c.len() - i < 5 {
            window_time = Ao5Time::Unavailable;
            proof {
                assert(window_time == window_metric(cs, i as int));
            }
        } else {
            let mut j: usize = 0;
            let mut count: usize = 0;
            let mut sum: u64 = 0;
            let mut best: u64 = u64::MAX;
            let mut worst: u64 = 0;
            proof {
                assert(cs.subrange(i as int, i as int).len() == 0);
            }
            while j < 5
                invariant
                    j <= 5,
                    i as int + 5 <= cs.len(),
                    cs.len() <= usize::MAX,
                    c@ == cs,
                    forall|k: int| 0 <= k < cs.len() ==> (#[trigger] cs[k]).time <= MAX_TIME
                        + PLUS_TWO_PENALTY,
                    count as int == count_valid(cs.subrange(i as int, i as int + j as int)),
                    count <= j,
                    sum as int == sum_valid(cs.subrange(i as int, i as int + j as int)),
                    best as int == min_valid(cs.subrange(i as int, i as int + j as int)),
                    worst as int == max_valid(cs.subrange(i as int, i as int + j as int)),
                decreases 5 - j,
            {
                let ghost w0 = cs.subrange(i as int, i as int + j as int);
                let ghost w1 = cs.subrange(i as int, i as int + j as int + 1);
                proof {
                    assert(w1.drop_last() =~= w0);
                    assert(w1.last() == cs[i as int + j as int]);
                    assert forall|k: int| 0 <= k < w0.len() implies (#[trigger] w0[k]).time as int
                        <= (MAX_TIME + PLUS_TWO_PENALTY) as int by {
                        assert(w0[k] == cs[i as int + k]);
                    }
                    lemma_sum_valid_bound(w0, (MAX_TIME + PLUS_TWO_PENALTY) as int);
                    assert(sum_valid(w0) <= 4 * ((MAX_TIME + PLUS_TWO_PENALTY) as int))
                        by (nonlinear_arith)
                        requires
                            sum_valid(w0) <= w0.len() * ((MAX_TIME + PLUS_TWO_PENALTY) as int),
                            w0.len() <= 4,
                    ;
                    assert(cs[i as int + j as int].time <= MAX_TIME + PLUS_TWO_PENALTY);
                }
                let t = c[i + j].time;
                if !c[i + j].dnf {
                    count = count + 1;
                    sum = sum + t;
                    if t < best {
                        best = t;
                    }
                    if t > worst {
                        worst = t;
                    }
                }
                j = j + 1;
            }
            let ghost w = cs.subrange(i as int, i as int + 5);
            proof {
                lemma_window_stats(w);
                assert forall|k: int| 0 <= k < w.len() implies (#[trigger] w[k]).time as int <= (
                MAX_TIME + PLUS_TWO_PENALTY) as int by {
                    assert(w[k] == cs[i as int + k]);
                }
                lemma_sum_valid_bound(w, (MAX_TIME + PLUS_TWO_PENALTY) as int);
                assert(sum_valid(w) <= 5 * ((MAX_TIME + PLUS_TWO_PENALTY) as int))
                    by (nonlinear_arith)
                    requires
                        sum_valid(w) <= w.len() * ((MAX_TIME + PLUS_TWO_PENALTY) as int),
                        w.len() <= 5,
                ;
            }
            if count < 4 {
                window_time = Ao5Time::Invalid;
            } else if count == 4 {
                window_time = Ao5Time::Value(sum - best);
            } else {
                window_time = Ao5Time::Value(sum - best - worst);
            }
            proof {
                assert(window_time == window_metric(cs, i as int));
            }
        }
        let rec = Ao5Solve { last_solve: c[i].clone(), time: window_time };
        out.push(rec);
        proof {
            assert(out@[i as int] == (Ao5Solve {
                last_solve: cs[i as int],
                time: window_metric(cs, i as int),
            }));
        }
        i = i + 1;
    }
    proof {
        assert forall|k: int| 0 <= k < out@.len() implies out@[k] == transform_spec(input)[k] by {
            assert(transform_spec(input)[k] == (Ao5Solve {
                last_solve: cs[k],
                time: window_metric(cs, k),
            }));
        }
        assert(out@ =~= transform_spec(input));
    }
    out
}

} // verus!
