use moon::laux::{LuaStack, LuaState};
use moon::random::{
    admitted, checked_range_len, choose_some, rand_range, rand_range_some, table_to_i64_vec,
};
use moon::value::{LuaString, LuaValue, TableValue};
use moon::weighted::{choose_weighted, land, pick_some, rand_weight, rand_weight_some};
use std::collections::HashSet;

fn stack(slots: Vec<LuaValue>) -> LuaStack {
    LuaStack::new(LuaState(1), slots, 1000)
}

fn num(n: i64) -> LuaValue {
    LuaValue::Integer(n)
}

fn list(ns: &[i64]) -> LuaValue {
    LuaValue::Table(TableValue {
        array: ns.iter().map(|n| num(*n)).collect(),
        hash: vec![],
        pairs: None,
        object: false,
        address: 0,
    })
}

fn drawn(min: i64, max: i64, count: i64) -> Vec<i64> {
    let mut lua = stack(vec![num(min), num(max), num(count)]);
    assert_eq!(rand_range_some(&mut lua), Ok(1));
    table_to_i64_vec(&lua, 4).unwrap()
}

/// The frequency and subset checks are the ones that catch a sampling bug
/// still yielding distinct in-range values; distinctness alone would not.
#[test]
fn rand_range_some_is_uniform_distinct_and_in_range() {
    // Distinctness, range, and per-value frequency. 600 draws x 3 values = 1800
    // picks over 6 values, about 300 each.
    let mut counts = [0usize; 7];
    for _ in 0..600 {
        let r = drawn(1, 6, 3);
        assert_eq!(r.len(), 3);
        let mut seen = [false; 7];
        for v in r {
            assert!(v >= 1 && v <= 6, "out of range: {}", v);
            assert!(!seen[v as usize], "duplicate: {}", v);
            seen[v as usize] = true;
            counts[v as usize] += 1;
        }
    }
    for v in 1..=6 {
        let c = counts[v];
        assert!(c > 200 && c < 400, "value {} appeared {} times", v, c);
    }

    // As many as the range has must yield the whole range, each once.
    let mut full = drawn(1, 5, 5);
    full.sort();
    assert_eq!(full, vec![1, 2, 3, 4, 5]);

    // Every two of three must occur about equally often.
    let mut sub = [0usize; 3];
    for _ in 0..300 {
        let mut r = drawn(1, 3, 2);
        r.sort();
        let key = match (r[0], r[1]) {
            (1, 2) => 0,
            (1, 3) => 1,
            (2, 3) => 2,
            _ => panic!("no such pair"),
        };
        sub[key] += 1;
    }
    for c in sub {
        assert!(c > 50 && c < 150, "a pair occurred {} times", c);
    }

    // One of one, and a wide sparse range.
    assert_eq!(drawn(1, 1, 1), vec![1]);
    let wide = drawn(0, 1000000000, 5);
    for (i, v) in wide.iter().enumerate() {
        assert!(*v >= 0 && *v <= 1000000000);
        assert!(!wide[..i].contains(v));
    }
}

#[test]
fn ranges_at_the_ends_of_the_integers_work() {
    for _ in 0..100 {
        let mut lua = stack(vec![num(i64::MIN), num(i64::MAX)]);
        assert_eq!(rand_range(&mut lua), Ok(1));
        let mut lua = stack(vec![num(7), num(7)]);
        assert_eq!(rand_range(&mut lua), Ok(1));
        assert_eq!(lua.value(-1).as_integer(), Some(7));
    }
    assert_eq!(checked_range_len(0, i64::MAX - 1), Some(i64::MAX));
    assert_eq!(checked_range_len(0, i64::MAX), None);
    assert_eq!(checked_range_len(i64::MIN, i64::MAX), None);
    assert_eq!(checked_range_len(-3, 3), Some(7));
    let some = choose_some(i64::MIN, i64::MIN + 3, 4);
    assert_eq!(some.len(), 4);
}

#[test]
fn bad_ranges_are_reported() {
    let run = |slots| rand_range(&mut stack(slots)).unwrap_err();
    assert_eq!(run(vec![]), "random.rand_range: expected integer, got None");
    assert_eq!(
        run(vec![num(2), num(1)]),
        "random.rand_range: min value must be less than or equal to max value, got min=2 and max=1"
    );
    let run = |slots| rand_range_some(&mut stack(slots)).unwrap_err();
    assert_eq!(
        run(vec![num(1), num(2), LuaValue::Boolean(true)]),
        "random.rand_range_some: expected integer, got Boolean"
    );
    assert_eq!(
        run(vec![num(0), num(-1), num(1)]),
        "random.rand_range_some: min value must be less than or equal to max value, got min=0 and max=-1"
    );
    assert_eq!(
        run(vec![num(0), num(i64::MAX), num(1)]),
        "random.rand_range_some: range size overflow"
    );
    assert_eq!(
        run(vec![num(1), num(3), num(4)]),
        "random.rand_range_some: count must be in range [1, 3], got 4"
    );
    assert_eq!(
        run(vec![num(1), num(3), num(0)]),
        "random.rand_range_some: count must be in range [1, 3], got 0"
    );
}

#[test]
fn draws_land_by_weight() {
    let weights = vec![0, 3, 0, 2];
    let landed: Vec<usize> = (0..5).map(|d| land(&weights, d)).collect();
    assert_eq!(landed, vec![1, 1, 1, 3, 3]);
    assert_eq!(choose_weighted(&vec![10, 20], &vec![0, 5]), Some(20));
    assert_eq!(choose_weighted(&vec![10, 20], &vec![0, 0]), None);
    assert_eq!(choose_weighted(&vec![10, 20], &vec![1, -1]), None);
    let mut counts = [0usize; 2];
    for _ in 0..4000 {
        let v = choose_weighted(&vec![0, 1], &vec![1, 3]).unwrap();
        counts[v as usize] += 1;
    }
    assert!(counts[0] > 800 && counts[0] < 1200);
}

#[test]
fn weighted_choices_check_their_tables() {
    let run = |slots| rand_weight(&mut stack(slots)).unwrap_err();
    assert_eq!(run(vec![]), "argument #1 must be a table");
    assert_eq!(run(vec![list(&[1])]), "argument #2 must be a table");
    let bad = LuaValue::Table(TableValue {
        array: vec![num(1), LuaValue::String(LuaString { bytes: vec![b'x'], integer: None })],
        hash: vec![],
        pairs: None,
        object: false,
        address: 0,
    });
    assert_eq!(run(vec![list(&[1, 2]), bad]), "table element #2 must be an integer");
    let uneven =
        "random.rand_weight: 'values' and 'weights' must be non-empty tables of equal length";
    assert_eq!(run(vec![list(&[1]), list(&[1, 2])]), uneven);
    assert_eq!(run(vec![list(&[]), list(&[])]), uneven);
    assert_eq!(
        run(vec![list(&[1]), list(&[-1])]),
        "random.rand_weight: weights must be non-negative"
    );
    assert_eq!(rand_weight(&mut stack(vec![list(&[1]), list(&[0])])), Ok(0));
    let mut lua = stack(vec![list(&[8, 9]), list(&[0, 4])]);
    assert_eq!(rand_weight(&mut lua), Ok(1));
    assert_eq!(lua.value(-1).as_integer(), Some(9));
}

#[test]
fn several_weighted_choices_take_each_value_once() {
    for _ in 0..200 {
        let mut picked = pick_some(vec![1, 2, 3, 4], vec![5, 0, 1, 2], 3).unwrap();
        picked.sort();
        assert_eq!(picked, vec![1, 3, 4]);
    }
    assert_eq!(pick_some(vec![1, 2], vec![1, 0], 2), None);
    assert_eq!(pick_some(vec![1, 2], vec![1, 0], 0), Some(vec![]));
    assert_eq!(pick_some(vec![1, 2], vec![i64::MAX, 1], 0), Some(vec![]));
    let run = |slots| rand_weight_some(&mut stack(slots)).unwrap_err();
    assert_eq!(
        run(vec![list(&[1]), list(&[1])]),
        "random.rand_weight_some: expected integer, got None"
    );
    assert_eq!(
        run(vec![list(&[1]), list(&[1]), num(2)]),
        "random.rand_weight_some: 'values' and 'weights' must be non-empty tables of equal length, and 'count' must be in range [0, 1], got 2"
    );
    assert_eq!(
        run(vec![list(&[1]), list(&[-1]), num(1)]),
        "random.rand_weight_some: weights must be non-negative"
    );
    assert_eq!(
        rand_weight_some(&mut stack(vec![list(&[1, 2]), list(&[1, 0]), num(2)])),
        Ok(0)
    );
    let mut lua = stack(vec![list(&[1, 2]), list(&[1, 1]), num(2)]);
    assert_eq!(rand_weight_some(&mut lua), Ok(1));
    let mut both = table_to_i64_vec(&lua, 4).unwrap();
    both.sort();
    assert_eq!(both, vec![1, 2]);
}

#[test]
fn a_draw_of_a_chosen_number_gives_way_to_the_largest() {
    let members: HashSet<i64> = [12, 15].into_iter().collect();
    assert_eq!(admitted(&members, 10, 7, 3), 13);
    assert_eq!(admitted(&members, 10, 7, 2), 17);
    assert_eq!(admitted(&members, 10, 7, 7), 17);
    assert_eq!(admitted(&members, i64::MIN, 4, 0), i64::MIN);
}

#[test]
fn range_lengths_that_overflow_have_no_answer() {
    assert_eq!(checked_range_len(5, 3), Some(-1));
    assert_eq!(checked_range_len(0, i64::MAX), None);
    assert_eq!(checked_range_len(1, i64::MAX), Some(i64::MAX));
    assert_eq!(checked_range_len(i64::MAX, i64::MIN), None);
    assert_eq!(checked_range_len(0, i64::MIN), Some(i64::MIN + 1));
    assert_eq!(checked_range_len(1, i64::MIN), None);
}

#[test]
fn lists_of_unequal_length_fall_back_to_the_last_value() {
    assert_eq!(choose_weighted(&vec![8, 9], &vec![0, 0, 0, 5]), Some(9));
    assert_eq!(choose_weighted(&vec![8, 9, 10], &vec![0, 5]), Some(9));
    assert_eq!(choose_weighted(&vec![], &vec![5]), None);
    assert_eq!(choose_weighted(&vec![1, 2], &vec![i64::MAX, -1]), None);
}

#[test]
fn tables_are_found_from_the_top_too() {
    let lua = stack(vec![list(&[1, 2]), num(3)]);
    assert_eq!(table_to_i64_vec(&lua, -2), Ok(vec![1, 2]));
    assert_eq!(table_to_i64_vec(&lua, -1).unwrap_err(), "argument #-1 must be a table");
}
