use sort_solves::policy::sort_solves;
use sort_solves::types::{Ao5Time, Solve, SortBy, SortOrder};
use sort_solves::window::transform_and_sort_by_latest;

fn solve(id: &str, time: u64, created_at: i64, plus_two: bool, dnf: bool) -> Solve {
    Solve {
        time,
        comment: String::from(""),
        scramble: String::from(""),
        id: String::from(id),
        created_at,
        plus_two,
        dnf,
    }
}

fn ids(solves: &[sort_solves::types::Ao5Solve]) -> Vec<String> {
    solves.iter().map(|a| a.last_solve.id.clone()).collect()
}

#[test]
fn average_of_known_window() {
    // Times 1..5 units, no penalties, no forfeits: the trimmed mean is
    // (2 + 3 + 4) / 3 = 3 units, so the carried sum is 9 units.
    let data = vec![
        solve("a", 1000, 1, false, false),
        solve("b", 2000, 2, false, false),
        solve("c", 3000, 3, false, false),
        solve("d", 4000, 4, false, false),
        solve("e", 5000, 5, false, false),
    ];
    let out = transform_and_sort_by_latest(&data);
    assert_eq!(out.len(), 5);
    assert_eq!(out[0].time, Ao5Time::Value(9000));
    for i in 1..5 {
        assert_eq!(out[i].time, Ao5Time::Unavailable);
    }
}

#[test]
fn penalty_is_applied_once() {
    // A plus-two on a raw 10-unit solve contributes 12 units to the
    // window and appears as 12 units on its own record.
    let data = vec![
        solve("p", 10000, 5, true, false),
        solve("b", 1000, 4, false, false),
        solve("c", 2000, 3, false, false),
        solve("d", 3000, 2, false, false),
        solve("e", 4000, 1, false, false),
    ];
    let out = transform_and_sort_by_latest(&data);
    assert_eq!(out[0].last_solve.id, "p");
    assert_eq!(out[0].last_solve.time, 12000);
    // Adjusted window [12000, 1000, 2000, 3000, 4000]: drop best 1000
    // and worst 12000, keep 2000 + 3000 + 4000.
    assert_eq!(out[0].time, Ao5Time::Value(9000));
}

#[test]
fn two_dnfs_invalidate_the_window() {
    let data = vec![
        solve("a", 1000, 5, false, true),
        solve("b", 2000, 4, false, true),
        solve("c", 3000, 3, false, false),
        solve("d", 4000, 2, false, false),
        solve("e", 5000, 1, false, false),
    ];
    let out = transform_and_sort_by_latest(&data);
    assert_eq!(out[0].time, Ao5Time::Invalid);
}

#[test]
fn one_dnf_drops_only_the_best() {
    // One forfeit among five leaves four valid times: drop only the
    // best, keep the other three.
    let data = vec![
        solve("a", 9000, 5, false, true),
        solve("b", 2000, 4, false, false),
        solve("c", 3000, 3, false, false),
        solve("d", 4000, 2, false, false),
        solve("e", 5000, 1, false, false),
    ];
    let out = transform_and_sort_by_latest(&data);
    // Valid times [2000, 3000, 4000, 5000]: drop best 2000.
    assert_eq!(out[0].time, Ao5Time::Value(12000));
}

#[test]
fn short_input_has_no_windows() {
    let data = vec![
        solve("a", 1000, 1, false, false),
        solve("b", 2000, 2, false, false),
        solve("c", 3000, 3, false, false),
        solve("d", 4000, 4, false, false),
    ];
    let out = transform_and_sort_by_latest(&data);
    assert_eq!(out.len(), 4);
    for a in out.iter() {
        assert_eq!(a.time, Ao5Time::Unavailable);
    }
    let empty: Vec<Solve> = Vec::new();
    assert_eq!(transform_and_sort_by_latest(&empty).len(), 0);
}

fn mixed_data() -> Vec<Solve> {
    vec![
        solve("a", 7000, 10, false, false),
        solve("b", 3000, 9, true, false),
        solve("c", 5000, 8, false, true),
        solve("d", 1000, 7, false, false),
        solve("e", 9000, 6, false, false),
        solve("f", 2000, 5, false, false),
        solve("g", 8000, 4, false, true),
        solve("h", 4000, 3, false, false),
        solve("i", 6000, 2, true, false),
        solve("j", 5000, 1, false, false),
    ]
}

#[test]
fn worst_is_reverse_of_best() {
    let data = mixed_data();
    for by in [SortBy::Single, SortBy::Ao5] {
        let best = sort_solves(&data, SortOrder::Best, by.clone());
        let worst = sort_solves(&data, SortOrder::Worst, by);
        let mut reversed = ids(&best);
        reversed.reverse();
        assert_eq!(ids(&worst), reversed);
    }
}

#[test]
fn oldest_is_reverse_of_latest() {
    let data = mixed_data();
    let latest = sort_solves(&data, SortOrder::Latest, SortBy::Single);
    let oldest = sort_solves(&data, SortOrder::Oldest, SortBy::Single);
    let mut reversed = ids(&latest);
    reversed.reverse();
    assert_eq!(ids(&oldest), reversed);
}

#[test]
fn latest_resort_is_identity() {
    // Strictly decreasing timestamps chronologically: the Latest
    // policy keeps the transform's order, and asking again changes
    // nothing.
    let data = mixed_data();
    let transformed = transform_and_sort_by_latest(&data);
    let once = sort_solves(&data, SortOrder::Latest, SortBy::Single);
    let twice = sort_solves(&data, SortOrder::Latest, SortBy::Ao5);
    assert_eq!(ids(&transformed), ids(&once));
    assert_eq!(ids(&once), ids(&twice));
    assert_eq!(ids(&once), vec!["a", "b", "c", "d", "e", "f", "g", "h", "i", "j"]);
}

#[test]
fn every_policy_permutes_the_input() {
    let data = mixed_data();
    let mut expected: Vec<String> = data.iter().map(|s| s.id.clone()).collect();
    expected.sort();
    for order in [SortOrder::Latest, SortOrder::Oldest, SortOrder::Best, SortOrder::Worst] {
        for by in [SortBy::Single, SortBy::Ao5] {
            let out = sort_solves(&data, order.clone(), by);
            let mut got = ids(&out);
            got.sort();
            assert_eq!(got, expected);
        }
    }
}

#[test]
fn best_ao5_orders_values_ascending() {
    let data = mixed_data();
    let out = sort_solves(&data, SortOrder::Best, SortBy::Ao5);
    let values: Vec<u64> = out
        .iter()
        .filter_map(|a| match a.time {
            Ao5Time::Value(v) => Some(v),
            _ => None,
        })
        .collect();
    for w in values.windows(2) {
        assert!(w[0] <= w[1]);
    }
    // Computable metrics come first, then invalid windows, then
    // records without a window.
    let ranks: Vec<u8> = out
        .iter()
        .map(|a| match a.time {
            Ao5Time::Value(_) => 0,
            Ao5Time::Invalid => 1,
            Ao5Time::Unavailable => 2,
        })
        .collect();
    for w in ranks.windows(2) {
        assert!(w[0] <= w[1]);
    }
}

#[test]
fn best_single_ranks_dnfs_last() {
    let data = mixed_data();
    let out = sort_solves(&data, SortOrder::Best, SortBy::Single);
    let first_dnf = out.iter().position(|a| a.last_solve.dnf);
    if let Some(pos) = first_dnf {
        for a in out[pos..].iter() {
            assert!(a.last_solve.dnf);
        }
    }
}

#[test]
fn parses_sort_by_keywords() {
    assert_eq!(SortBy::from_str("single").map(|b| matches!(b, SortBy::Single)), Ok(true));
    assert_eq!(SortBy::from_str("SINGLE").map(|b| matches!(b, SortBy::Single)), Ok(true));
    assert_eq!(SortBy::from_str("Ao5").map(|b| matches!(b, SortBy::Ao5)), Ok(true));
    assert_eq!(SortBy::from_str("ao5").map(|b| matches!(b, SortBy::Ao5)), Ok(true));
    match SortBy::from_str("mean") {
        Err(e) => assert_eq!(e, "not a valid sort by"),
        Ok(_) => panic!("accepted a bad keyword"),
    }
    match SortBy::from_str("") {
        Err(e) => assert_eq!(e, "not a valid sort by"),
        Ok(_) => panic!("accepted an empty keyword"),
    }
}

#[test]
fn parses_sort_order_keywords() {
    assert_eq!(SortOrder::from_str("latest").map(|o| matches!(o, SortOrder::Latest)), Ok(true));
    assert_eq!(SortOrder::from_str("OLDEST").map(|o| matches!(o, SortOrder::Oldest)), Ok(true));
    assert_eq!(SortOrder::from_str("Best").map(|o| matches!(o, SortOrder::Best)), Ok(true));
    assert_eq!(SortOrder::from_str("wOrSt").map(|o| matches!(o, SortOrder::Worst)), Ok(true));
    match SortOrder::from_str("newest") {
        Err(e) => assert_eq!(e, "not a valid sort order"),
        Ok(_) => panic!("accepted a bad keyword"),
    }
}
