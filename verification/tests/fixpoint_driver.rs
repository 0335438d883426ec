use fixflow::{
    fold_records, iterate, Collection, Driver, EngineError, Record, Value,
};

fn rec(v: Value, m: i64) -> Record {
    Record { value: v, multiplicity: m }
}

#[test]
fn rerunning_on_converged_state_adds_nothing() {
    let seed = fold_records(&vec![rec(Value::Int(1), 1), rec(Value::Int(2), 1)]).unwrap();
    let step = |_c: &Collection| -> Result<Vec<Record>, EngineError> { Ok(Vec::new()) };
    let out = iterate(seed, 10, step).unwrap();
    assert_eq!(out.get_multiplicity(&Value::Int(1)), 1);
    assert_eq!(out.get_multiplicity(&Value::Int(2)), 1);
    assert_eq!(out.len(), 2);
}

#[test]
fn iteration_grows_to_the_fixed_point() {
    let seed = fold_records(&vec![rec(Value::Int(1), 1)]).unwrap();
    // Each round inserts the successor of every present atom below 5.
    let step = |c: &Collection| -> Result<Vec<Record>, EngineError> {
        let mut d = Vec::new();
        for r in c.records.iter() {
            if let Value::Int(n) = r.value {
                if r.multiplicity > 0 && n < 5 && c.get_multiplicity(&Value::Int(n + 1)) == 0 {
                    d.push(rec(Value::Int(n + 1), 1));
                }
            }
        }
        Ok(d)
    };
    let out = iterate(seed, 100, step).unwrap();
    for n in 1..=5 {
        assert_eq!(out.get_multiplicity(&Value::Int(n)), 1);
    }
    assert_eq!(out.len(), 5);
}

#[test]
fn divergent_step_trips_the_round_cap() {
    let seed = fold_records(&vec![rec(Value::Int(0), 1)]).unwrap();
    // Deliberately divergent: every round claims yet another fresh atom.
    let step = |c: &Collection| -> Result<Vec<Record>, EngineError> {
        Ok(vec![rec(Value::Int(c.len() as i64), 1)])
    };
    assert_eq!(iterate(seed, 10, step).unwrap_err(), EngineError::NonConvergence);
}

#[test]
fn zero_cap_refuses_any_changing_round() {
    let seed = Collection::empty();
    let step = |_c: &Collection| -> Result<Vec<Record>, EngineError> {
        Ok(vec![rec(Value::Int(1), 1)])
    };
    assert_eq!(iterate(seed, 0, step).unwrap_err(), EngineError::NonConvergence);
}

#[test]
fn step_errors_propagate() {
    let seed = Collection::empty();
    let step = |_c: &Collection| -> Result<Vec<Record>, EngineError> {
        Err(EngineError::TypeMismatch)
    };
    assert_eq!(iterate(seed, 10, step).unwrap_err(), EngineError::TypeMismatch);
}

#[test]
fn driver_drains_input_and_logs_differences() {
    let mut d = Driver::new();
    d.insert(Value::Int(1));
    d.insert(Value::Int(2));
    d.remove(Value::Int(2));
    assert!(d.advance_to(1).is_ok());
    assert!(!d.probe(1));
    let step = |_c: &Collection| -> Result<Vec<Record>, EngineError> { Ok(Vec::new()) };
    d.flush(10, step).unwrap();
    assert!(d.probe(1));
    assert!(!d.probe(2));
    assert_eq!(d.output.get_multiplicity(&Value::Int(1)), 1);
    assert_eq!(d.output.get_multiplicity(&Value::Int(2)), 0);
    assert_eq!(d.log.len(), 1);
    assert_eq!(d.log[0].value, Value::Int(1));
    assert_eq!(d.log[0].time, 1);
    assert_eq!(d.log[0].diff, 1);
    // A second flush with no new input logs nothing further.
    d.flush(10, step).unwrap();
    assert_eq!(d.log.len(), 1);
    // Retracting the value logs the compensating difference.
    d.remove(Value::Int(1));
    assert!(d.advance_to(2).is_ok());
    d.flush(10, step).unwrap();
    assert_eq!(d.log.len(), 2);
    assert_eq!(d.log[1].value, Value::Int(1));
    assert_eq!(d.log[1].time, 2);
    assert_eq!(d.log[1].diff, -1);
}

#[test]
fn time_regression_is_refused() {
    let mut d = Driver::new();
    assert!(d.advance_to(5).is_ok());
    assert_eq!(d.advance_to(3).unwrap_err(), EngineError::NonMonotonicTime);
    assert_eq!(d.time, 5);
}
