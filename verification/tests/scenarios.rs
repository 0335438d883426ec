use fixflow::{
    distinct, fold_records, iterate, life_successor, map_op, run_game_of_life, semijoin,
    Collection, EngineError, Record, Value,
};

fn rec(v: Value, m: i64) -> Record {
    Record { value: v, multiplicity: m }
}

fn int_set(ns: impl Iterator<Item = i64>) -> Collection {
    let batch: Vec<Record> = ns.map(|n| rec(Value::Int(n), 1)).collect();
    fold_records(&batch).unwrap()
}

fn cell_set(cells: &[(i64, i64)]) -> Collection {
    let batch: Vec<Record> = cells.iter().map(|&(x, y)| rec(Value::Pair(x, y), 1)).collect();
    fold_records(&batch).unwrap()
}

const PLAIN: i64 = 0;
const FIZZ: i64 = 1;
const BUZZ: i64 = 2;
const FIZZBUZZ: i64 = 3;

#[test]
fn fizzbuzz_style_counting() {
    let seed = int_set([1].into_iter());
    // Each round claims the double and the successor of every present
    // number, up to the limit 15.
    let step = |c: &Collection| -> Result<Vec<Record>, EngineError> {
        let mut fresh: Vec<i64> = Vec::new();
        for r in c.records.iter() {
            if let Value::Int(n) = r.value {
                if r.multiplicity > 0 {
                    for cand in [2 * n, n + 1] {
                        if cand <= 15
                            && c.get_multiplicity(&Value::Int(cand)) == 0
                            && !fresh.contains(&cand)
                        {
                            fresh.push(cand);
                        }
                    }
                }
            }
        }
        Ok(fresh.into_iter().map(|n| rec(Value::Int(n), 1)).collect())
    };
    let numbers = iterate(seed, 100, step).unwrap();
    assert_eq!(numbers.len(), 15);
    let labeled = map_op(&numbers, |v: Value| match v {
        Value::Int(n) => {
            let tag = if n % 15 == 0 {
                FIZZBUZZ
            } else if n % 3 == 0 {
                FIZZ
            } else if n % 5 == 0 {
                BUZZ
            } else {
                PLAIN
            };
            Value::Pair(n, tag)
        }
        other => other,
    })
    .unwrap();
    assert_eq!(labeled.get_multiplicity(&Value::Pair(3, FIZZ)), 1);
    assert_eq!(labeled.get_multiplicity(&Value::Pair(5, BUZZ)), 1);
    assert_eq!(labeled.get_multiplicity(&Value::Pair(6, FIZZ)), 1);
    assert_eq!(labeled.get_multiplicity(&Value::Pair(9, FIZZ)), 1);
    assert_eq!(labeled.get_multiplicity(&Value::Pair(10, BUZZ)), 1);
    assert_eq!(labeled.get_multiplicity(&Value::Pair(12, FIZZ)), 1);
    assert_eq!(labeled.get_multiplicity(&Value::Pair(15, FIZZBUZZ)), 1);
    for n in [1, 2, 4, 7, 8, 11, 13, 14] {
        assert_eq!(labeled.get_multiplicity(&Value::Pair(n, PLAIN)), 1);
    }
    assert_eq!(labeled.len(), 15);
}

#[test]
fn intersection_by_semijoin_and_distinct() {
    let first = int_set(0..20);
    let second = int_set(5..25);
    let meet = distinct(&semijoin(&first, &second));
    for n in 0..30 {
        let expected = if (5..20).contains(&n) { 1 } else { 0 };
        assert_eq!(meet.get_multiplicity(&Value::Int(n)), expected, "at {}", n);
    }
    assert_eq!(meet.len(), 15);
}

#[test]
fn game_of_life_single_step() {
    let seed = cell_set(&[(2, 2), (2, 3), (2, 4), (3, 2)]);
    let next = life_successor(&seed).unwrap();
    for &(x, y) in &[(2, 2), (2, 3), (3, 2), (1, 3)] {
        assert_eq!(next.get_multiplicity(&Value::Pair(x, y)), 1, "at {:?}", (x, y));
    }
    assert_eq!(next.len(), 4);
    // No negative residue anywhere around the shape.
    for x in -2..6 {
        for y in -2..6 {
            assert!(next.get_multiplicity(&Value::Pair(x, y)) >= 0);
        }
    }
}

#[test]
fn game_of_life_block_is_a_still_life() {
    let seed = cell_set(&[(0, 0), (0, 1), (1, 0), (1, 1)]);
    let out = run_game_of_life(seed, 5).unwrap();
    for &(x, y) in &[(0, 0), (0, 1), (1, 0), (1, 1)] {
        assert_eq!(out.get_multiplicity(&Value::Pair(x, y)), 1);
    }
    assert_eq!(out.len(), 4);
}

#[test]
fn game_of_life_blinker_never_converges() {
    let seed = cell_set(&[(0, 0), (0, 1), (0, 2)]);
    assert_eq!(run_game_of_life(seed, 20).unwrap_err(), EngineError::NonConvergence);
}

#[test]
fn game_of_life_refuses_non_cell_values() {
    let seed = fold_records(&vec![rec(Value::Int(3), 1)]).unwrap();
    assert_eq!(life_successor(&seed).unwrap_err(), EngineError::TypeMismatch);
}

#[test]
fn game_of_life_handles_boundary_cells() {
    // A column pressed against the coordinate edge: spots beyond the edge
    // hold nothing, the representable side evolves by the ordinary rule.
    let seed = cell_set(&[(i64::MAX, 0), (i64::MAX, 1), (i64::MAX, 2)]);
    let next = life_successor(&seed).unwrap();
    assert_eq!(next.get_multiplicity(&Value::Pair(i64::MAX, 1)), 1);
    assert_eq!(next.get_multiplicity(&Value::Pair(i64::MAX - 1, 1)), 1);
    assert_eq!(next.len(), 2);
}

#[test]
fn game_of_life_reports_neighbor_total_overflow() {
    let seed = fold_records(&vec![
        rec(Value::Pair(0, 0), i64::MAX),
        rec(Value::Pair(2, 0), i64::MAX),
    ])
    .unwrap();
    assert_eq!(life_successor(&seed).unwrap_err(), EngineError::Overflow);
}

#[test]
fn driver_drains_game_of_life_to_a_still_life() {
    let mut d = fixflow::Driver::new();
    for (x, y) in [(0, 0), (0, 1), (1, 0), (1, 1)] {
        d.insert(Value::Pair(x, y));
    }
    assert!(d.advance_to(1).is_ok());
    let step = |c: &Collection| -> Result<Vec<Record>, EngineError> { fixflow::life_delta(c) };
    d.flush(10, step).unwrap();
    assert!(d.probe(1));
    assert_eq!(d.log.len(), 4);
    for entry in d.log.iter() {
        assert_eq!(entry.time, 1);
        assert_eq!(entry.diff, 1);
        assert!(matches!(entry.value, Value::Pair(_, _)));
    }
    assert_eq!(d.output.get_multiplicity(&Value::Pair(0, 0)), 1);
    assert_eq!(d.output.get_multiplicity(&Value::Pair(1, 1)), 1);
}
