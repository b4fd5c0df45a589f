use chrono::Utc;
use uuid::Uuid;

use sort_solves::policy::{create_best_ao5_solves, create_best_single_solves, sort_solves};
use sort_solves::types::{Ao5Time, Solve, SortBy, SortOrder};
use sort_solves::window::transform_and_sort_by_latest;

fn create_test_data(number_of_solves: usize) -> Vec<Solve> {
    let mut solves: Vec<Solve> = Vec::with_capacity(number_of_solves);
    for _ in 0..number_of_solves {
        let now = Utc::now().timestamp_micros();
        let id = Uuid::new_v4().to_string();
        let time_units: f64 = rand::random_range(8.0..19.0);
        let time = (time_units * 1000.0) as u64;
        solves.push(Solve {
            time,
            comment: String::from(""),
            scramble: String::from(""),
            id,
            created_at: now,
            plus_two: false,
            dnf: false,
        })
    }
    solves
}

#[test]
fn transforms_solves_correctly() {
    let old_solves = create_test_data(100);
    let new_solves = transform_and_sort_by_latest(&old_solves);

    let mut ao5_dnf_count = 0;
    let mut ao5_none_count = 0;

    for i in new_solves.iter() {
        match i.time {
            Ao5Time::Invalid => ao5_dnf_count += 1,
            Ao5Time::Unavailable => ao5_none_count += 1,
            Ao5Time::Value(_) => {}
        }
    }

    assert_eq!(ao5_dnf_count, 0);
    assert_eq!(ao5_none_count, 4);
}

#[test]
fn sort_solves_by_latest() {
    let solves = transform_and_sort_by_latest(&create_test_data(100));
    let mut prev = &solves[0];
    for i in solves.iter() {
        if prev.last_solve.created_at < i.last_solve.created_at {
            panic!("create_latest does not sort properly!");
        }
        prev = i;
    }
}

#[test]
fn sort_solves_by_best_ao5() {
    let mut solves = transform_and_sort_by_latest(&create_test_data(100));
    create_best_ao5_solves(&mut solves);
    let mut prev: Option<u64> = match solves[0].time {
        Ao5Time::Value(v) => Some(v),
        _ => None,
    };
    for i in solves.iter() {
        let v = match i.time {
            Ao5Time::Value(v) => v,
            _ => continue,
        };
        if let Some(p) = prev {
            if p > v {
                panic!("create_best_ao5 does not sort properly!");
            }
        }
        prev = Some(v);
    }
}

#[test]
fn sort_solves_by_best_single() {
    let mut solves = transform_and_sort_by_latest(&create_test_data(100));
    create_best_single_solves(&mut solves);
    let mut prev = &solves[0];
    for i in solves.iter() {
        if prev.last_solve.time > i.last_solve.time {
            panic!("create_best_single does not sort properly!");
        }
        prev = i;
    }
}

#[test]
fn sort_solves_correctly() {
    let old_solves = create_test_data(100);
    let new_solves = sort_solves(&old_solves, SortOrder::Best, SortBy::Single);
    let mut prev = &new_solves[0];
    for i in new_solves.iter() {
        if prev.last_solve.time > i.last_solve.time {
            panic!("sort_solves does not sort properly! at SortOrder: Best and SortBy: Single");
        }
        prev = i;
    }

    let new_solves = sort_solves(&old_solves, SortOrder::Best, SortBy::Ao5);
    let mut prev: Option<u64> = match new_solves[0].time {
        Ao5Time::Value(v) => Some(v),
        _ => None,
    };
    for i in new_solves.iter() {
        if let Ao5Time::Value(v) = i.time {
            if let Some(p) = prev {
                if p > v {
                    panic!("sort_solves does not sort properly! at SortOrder: Best and SortBy: Ao5");
                }
            }
            prev = Some(v);
        }
    }

    let new_solves = sort_solves(&old_solves, SortOrder::Worst, SortBy::Single);
    let mut prev = &new_solves[0];
    for i in new_solves.iter() {
        if prev.last_solve.time < i.last_solve.time {
            panic!("sort_solves does not sort properly! at SortOrder: Worst and SortBy: Single");
        }
        prev = i;
    }

    let new_solves = sort_solves(&old_solves, SortOrder::Worst, SortBy::Ao5);
    let mut prev: Option<u64> = match new_solves[0].time {
        Ao5Time::Value(v) => Some(v),
        _ => None,
    };
    for i in new_solves.iter() {
        if let Ao5Time::Value(v) = i.time {
            if let Some(p) = prev {
                if p < v {
                    panic!("sort_solves does not sort properly! at SortOrder: Worst and SortBy: Ao5");
                }
            }
            prev = Some(v);
        }
    }

    let new_solves = sort_solves(&old_solves, SortOrder::Latest, SortBy::Single);
    let mut prev = &new_solves[0];
    for i in new_solves.iter() {
        if prev.last_solve.created_at < i.last_solve.created_at {
            panic!("sort_solves does not sort properly! at SortOrder: Latest and SortBy: Single");
        }
        prev = i;
    }

    let new_solves = sort_solves(&old_solves, SortOrder::Latest, SortBy::Ao5);
    let mut prev = &new_solves[0];
    for i in new_solves.iter() {
        if prev.last_solve.created_at < i.last_solve.created_at {
            panic!("sort_solves does not sort properly! at SortOrder: Latest and SortBy: Ao5");
        }
        prev = i;
    }

    let new_solves = sort_solves(&old_solves, SortOrder::Oldest, SortBy::Single);
    let mut prev = &new_solves[0];
    for i in new_solves.iter() {
        if prev.last_solve.created_at > i.last_solve.created_at {
            panic!("sort_solves does not sort properly! at SortOrder: Oldest and SortBy: Single");
        }
        prev = i;
    }

    let new_solves = sort_solves(&old_solves, SortOrder::Oldest, SortBy::Ao5);
    let mut prev = &new_solves[0];
    for i in new_solves.iter() {
        if prev.last_solve.created_at > i.last_solve.created_at {
            panic!("sort_solves does not sort properly! at SortOrder: Oldest and SortBy: Ao5");
        }
        prev = i;
    }
}
