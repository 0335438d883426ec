use fixflow::{fold_records, accumulate, Collection, EngineError, Record, Value};

fn rec(v: Value, m: i64) -> Record {
    Record { value: v, multiplicity: m }
}

#[test]
fn fold_merges_and_drops_zeros() {
    let batch = vec![
        rec(Value::Int(1), 2),
        rec(Value::Int(2), 1),
        rec(Value::Int(1), -1),
        rec(Value::Int(3), 4),
        rec(Value::Int(3), -4),
    ];
    let c = fold_records(&batch).unwrap();
    assert_eq!(c.get_multiplicity(&Value::Int(1)), 1);
    assert_eq!(c.get_multiplicity(&Value::Int(2)), 1);
    assert_eq!(c.get_multiplicity(&Value::Int(3)), 0);
    assert_eq!(c.len(), 2);
}

#[test]
fn fold_is_order_insensitive() {
    let batch = vec![
        rec(Value::Int(10), 3),
        rec(Value::Pair(1, 2), -2),
        rec(Value::Int(10), -1),
        rec(Value::Pair(1, 2), 5),
        rec(Value::Int(11), 7),
    ];
    let mut backwards = batch.clone();
    backwards.reverse();
    let rotated: Vec<Record> = batch[2..]
        .iter()
        .chain(batch[..2].iter())
        .cloned()
        .collect();
    let a = fold_records(&batch).unwrap();
    let b = fold_records(&backwards).unwrap();
    let c = fold_records(&rotated).unwrap();
    for v in [Value::Int(10), Value::Int(11), Value::Pair(1, 2), Value::Int(99)] {
        assert_eq!(a.get_multiplicity(&v), b.get_multiplicity(&v));
        assert_eq!(a.get_multiplicity(&v), c.get_multiplicity(&v));
    }
    assert_eq!(a.len(), b.len());
    assert_eq!(a.len(), c.len());
}

#[test]
fn zero_cancellation() {
    let batch = vec![rec(Value::Int(42), 1), rec(Value::Int(42), -1)];
    let c = fold_records(&batch).unwrap();
    assert_eq!(c.get_multiplicity(&Value::Int(42)), 0);
    assert!(c.is_empty());
}

#[test]
fn accumulate_adds_to_existing_state() {
    let base = fold_records(&vec![rec(Value::Int(1), 2), rec(Value::Int(2), 1)]).unwrap();
    let more = vec![rec(Value::Int(1), -2), rec(Value::Int(3), 9)];
    let c = accumulate(&base, &more).unwrap();
    assert_eq!(c.get_multiplicity(&Value::Int(1)), 0);
    assert_eq!(c.get_multiplicity(&Value::Int(2)), 1);
    assert_eq!(c.get_multiplicity(&Value::Int(3)), 9);
}

#[test]
fn multiplicity_overflow_is_reported() {
    let batch = vec![rec(Value::Int(1), i64::MAX), rec(Value::Int(1), 1)];
    assert_eq!(fold_records(&batch).unwrap_err(), EngineError::Overflow);
    let base = fold_records(&vec![rec(Value::Int(1), i64::MAX)]).unwrap();
    let more = vec![rec(Value::Int(1), 1)];
    assert_eq!(accumulate(&base, &more).unwrap_err(), EngineError::Overflow);
}

#[test]
fn empty_collection_reports_nothing() {
    let c = Collection::empty();
    assert!(c.is_empty());
    assert_eq!(c.get_multiplicity(&Value::Int(0)), 0);
    let copy = c.duplicate();
    assert_eq!(copy.len(), 0);
}
