use fixflow::{
    concat_op, count, distinct, filter_op, flat_map_op, fold_records, join_op, map_op, negate,
    semijoin,
    EngineError,
    Record, Value,
};

fn rec(v: Value, m: i64) -> Record {
    Record { value: v, multiplicity: m }
}

#[test]
fn distinct_keeps_one_copy_of_positives() {
    let c = fold_records(&vec![
        rec(Value::Int(1), 3),
        rec(Value::Int(2), -2),
        rec(Value::Int(3), 1),
    ])
    .unwrap();
    let d = distinct(&c);
    assert_eq!(d.get_multiplicity(&Value::Int(1)), 1);
    assert_eq!(d.get_multiplicity(&Value::Int(2)), 0);
    assert_eq!(d.get_multiplicity(&Value::Int(3)), 1);
    assert_eq!(d.len(), 2);
}

#[test]
fn distinct_twice_equals_distinct_once() {
    let c = fold_records(&vec![
        rec(Value::Int(1), 5),
        rec(Value::Pair(2, 2), -1),
        rec(Value::Int(7), 1),
    ])
    .unwrap();
    let once = distinct(&c);
    let twice = distinct(&once);
    for v in [Value::Int(1), Value::Pair(2, 2), Value::Int(7), Value::Int(0)] {
        assert_eq!(once.get_multiplicity(&v), twice.get_multiplicity(&v));
    }
    assert_eq!(once.len(), twice.len());
}

#[test]
fn count_reports_pairs_for_atoms_and_triples_for_pairs() {
    let c = fold_records(&vec![
        rec(Value::Int(7), 2),
        rec(Value::Int(8), 1),
        rec(Value::Pair(1, 2), 3),
        rec(Value::Int(9), -4),
    ])
    .unwrap();
    let k = count(&c).unwrap();
    assert_eq!(k.get_multiplicity(&Value::Pair(7, 2)), 1);
    assert_eq!(k.get_multiplicity(&Value::Pair(8, 1)), 1);
    assert_eq!(k.get_multiplicity(&Value::Triple(1, 2, 3)), 1);
    assert_eq!(k.get_multiplicity(&Value::Pair(9, -4)), 0);
    assert_eq!(k.len(), 3);
}

#[test]
fn count_refuses_counted_shapes() {
    let c = fold_records(&vec![rec(Value::Triple(1, 2, 3), 1)]).unwrap();
    assert_eq!(count(&c).unwrap_err(), EngineError::TypeMismatch);
}

#[test]
fn semijoin_keeps_matching_keys_unscaled() {
    let data = fold_records(&vec![rec(Value::Int(5), 3), rec(Value::Int(6), 2)]).unwrap();
    let keys = fold_records(&vec![rec(Value::Int(5), 7), rec(Value::Int(9), 1)]).unwrap();
    let j = semijoin(&data, &keys);
    // probing multiplicity 3 against a key of multiplicity 7: the output
    // keeps 3, it is never scaled by the second side.
    assert_eq!(j.get_multiplicity(&Value::Int(5)), 3);
    assert_eq!(j.get_multiplicity(&Value::Int(6)), 0);
}

#[test]
fn semijoin_ignores_retracted_keys() {
    let data = fold_records(&vec![rec(Value::Int(5), 1)]).unwrap();
    let keys = fold_records(&vec![rec(Value::Int(5), -2)]).unwrap();
    let j = semijoin(&data, &keys);
    assert_eq!(j.get_multiplicity(&Value::Int(5)), 0);
    assert!(j.is_empty());
}

#[test]
fn semijoin_keys_count_reports_by_their_subject() {
    let counts = fold_records(&vec![rec(Value::Triple(1, 2, 3), 1)]).unwrap();
    let keys = fold_records(&vec![rec(Value::Pair(1, 2), 1)]).unwrap();
    let j = semijoin(&counts, &keys);
    assert_eq!(j.get_multiplicity(&Value::Triple(1, 2, 3)), 1);
}

#[test]
fn concat_adds_coinciding_values() {
    let a = fold_records(&vec![rec(Value::Int(1), 2), rec(Value::Int(2), 1)]).unwrap();
    let b = fold_records(&vec![rec(Value::Int(1), -2), rec(Value::Int(3), 5)]).unwrap();
    let c = concat_op(&a, &b).unwrap();
    assert_eq!(c.get_multiplicity(&Value::Int(1)), 0);
    assert_eq!(c.get_multiplicity(&Value::Int(2)), 1);
    assert_eq!(c.get_multiplicity(&Value::Int(3)), 5);
}

#[test]
fn negate_flips_signs_and_guards_the_edge() {
    let a = fold_records(&vec![rec(Value::Int(1), 2), rec(Value::Int(2), -3)]).unwrap();
    let n = negate(&a).unwrap();
    assert_eq!(n.get_multiplicity(&Value::Int(1)), -2);
    assert_eq!(n.get_multiplicity(&Value::Int(2)), 3);
    let edge = fold_records(&vec![rec(Value::Int(1), i64::MIN)]).unwrap();
    assert_eq!(negate(&edge).unwrap_err(), EngineError::Overflow);
}

#[test]
fn map_merges_coinciding_images() {
    let c = fold_records(&vec![
        rec(Value::Int(1), 1),
        rec(Value::Int(2), 1),
        rec(Value::Int(3), 1),
    ])
    .unwrap();
    let m = map_op(&c, |v: Value| match v {
        Value::Int(n) => Value::Int(n % 2),
        other => other,
    })
    .unwrap();
    assert_eq!(m.get_multiplicity(&Value::Int(1)), 2);
    assert_eq!(m.get_multiplicity(&Value::Int(0)), 1);
}

#[test]
fn filter_keeps_multiplicities_intact() {
    let c = fold_records(&vec![
        rec(Value::Int(1), 4),
        rec(Value::Int(2), -2),
        rec(Value::Int(3), 1),
    ])
    .unwrap();
    let f = filter_op(&c, |v: Value| match v {
        Value::Int(n) => n != 2,
        _ => false,
    });
    assert_eq!(f.get_multiplicity(&Value::Int(1)), 4);
    assert_eq!(f.get_multiplicity(&Value::Int(2)), 0);
    assert_eq!(f.get_multiplicity(&Value::Int(3)), 1);
}

#[test]
fn flat_map_expands_and_merges() {
    let c = fold_records(&vec![rec(Value::Int(1), 2), rec(Value::Int(2), 1)]).unwrap();
    let m = flat_map_op(&c, |v: Value| match v {
        Value::Int(n) => vec![Value::Int(n + 10), Value::Int(100)],
        other => vec![other],
    })
    .unwrap();
    assert_eq!(m.get_multiplicity(&Value::Int(11)), 2);
    assert_eq!(m.get_multiplicity(&Value::Int(12)), 1);
    assert_eq!(m.get_multiplicity(&Value::Int(100)), 3);
    assert_eq!(m.len(), 3);
}

#[test]
fn join_multiplies_matching_multiplicities() {
    let a = fold_records(&vec![rec(Value::Pair(1, 10), 2), rec(Value::Pair(2, 20), 1)]).unwrap();
    let b = fold_records(&vec![rec(Value::Pair(1, 100), 3), rec(Value::Pair(3, 300), 1)]).unwrap();
    let j = join_op(&a, &b).unwrap();
    assert_eq!(j.get_multiplicity(&Value::Triple(1, 10, 100)), 6);
    assert_eq!(j.get_multiplicity(&Value::Triple(2, 20, 300)), 0);
    assert_eq!(j.len(), 1);
}

#[test]
fn join_refuses_unkeyed_shapes() {
    let a = fold_records(&vec![rec(Value::Int(1), 1)]).unwrap();
    let b = fold_records(&vec![rec(Value::Pair(1, 2), 1)]).unwrap();
    assert_eq!(join_op(&a, &b).unwrap_err(), EngineError::TypeMismatch);
    assert_eq!(join_op(&b, &a).unwrap_err(), EngineError::TypeMismatch);
}

#[test]
fn join_reports_product_overflow() {
    let a = fold_records(&vec![rec(Value::Pair(1, 1), i64::MAX)]).unwrap();
    let b = fold_records(&vec![rec(Value::Pair(1, 2), 2)]).unwrap();
    assert_eq!(join_op(&a, &b).unwrap_err(), EngineError::Overflow);
}
