use vstd::prelude::*;

use crate::collection::{
    distinct_values, fits, lemma_sum_of_absent, lemma_sum_of_push, share_of,
    lemma_sum_of_take_succ, sum_of, Collection, Record,
};
use crate::errors::EngineError;
use crate::value::{key_of, spec_key_of, Value};

verus! {

/// The Distinct rule on one net multiplicity: a positive net becomes
/// exactly one, everything else disappears.
pub open spec fn distinct_of(n: int) -> int {
    if n > 0 {
        1
    } else {
        0
    }
}

/// Distinct idempotence: applying the Distinct rule twice to a net
/// multiplicity gives the same result as applying it once, so a second
/// pass of the Distinct operator can never change a collection.
pub proof fn lemma_distinct_idempotent(n: int)
    ensures
        distinct_of(distinct_of(n)) == distinct_of(n),
{
}

/// Distinct: every value with positive net multiplicity keeps exactly one
/// copy; values with zero or negative net are removed.
pub fn distinct(c: &Collection) -> (out: Collection)
    requires
        c.wf(),
    ensures
        out.wf(),
        forall|v: Value| #[trigger] out.mult(v) == distinct_of(c.mult(v)),
{
    let n = c.records.len();
    let mut out: Vec<Record> = Vec::new();
    let mut i: usize = 0;
    while i < n
        invariant
            c.wf(),
            n == c.records@.len(),
            i <= n,
            forall|t: int| 0 <= t < out@.len() ==> #[trigger] out@[t].multiplicity == 1,
            forall|t: int|
                0 <= t < out@.len() ==> exists|s: int|
                    0 <= s < i && #[trigger] out@[t].value == c.records@[s].value,
            distinct_values(out@),
            forall|v: Value| #[trigger] sum_of(out@, v) == distinct_of(
                sum_of(c.records@.take(i as int), v),
            ),
        decreases n - i,
    {
        let rec = c.records[i];
        let ghost prev = out@;
        if rec.multiplicity > 0 {
            out.push(Record { value: rec.value, multiplicity: 1 });
        }
        proof {
            assert forall|v: Value| sum_of(out@, v) == distinct_of(
                sum_of(c.records@.take(i + 1), v),
            ) by {
                lemma_sum_of_take_succ(c.records@, i as int, v);
                if v == c.records@[i as int].value {
                    lemma_sum_of_absent(c.records@.take(i as int), v);
                }
                if rec.multiplicity > 0 {
                    lemma_sum_of_push(prev, Record { value: rec.value, multiplicity: 1 }, v);
                }
            }
        }
        i += 1;
    }
    proof {
        assert(c.records@.take(n as int) =~= c.records@);
    }
    Collection { records: out }
}

/// What the count operator reports `w` as: one copy of `Pair(n, m)` when
/// the atom `Int(n)` nets to `m > 0`, one copy of `Triple(a, b, m)` when
/// the pair `Pair(a, b)` nets to `m > 0`, and nothing otherwise.
pub open spec fn count_report(s: Seq<Record>, w: Value) -> int {
    match w {
        Value::Pair(n, m) => if sum_of(s, Value::Int(n)) == m as int && m > 0 {
            1int
        } else {
            0int
        },
        Value::Triple(a, b, m) => if sum_of(s, Value::Pair(a, b)) == m as int && m > 0 {
            1int
        } else {
            0int
        },
        Value::Int(_) => 0int,
    }
}

/// The value under which an input record's count is reported.
pub open spec fn spec_count_key(v: Value, m: i64) -> Value {
    match v {
        Value::Int(n) => Value::Pair(n, m),
        Value::Pair(a, b) => Value::Triple(a, b, m),
        Value::Triple(a, b, c) => Value::Triple(a, b, c),
    }
}

/// Count: for each distinct value with positive net multiplicity, emits one
/// record pairing the value with its current count. Counting an already
/// counted shape is refused as a keying mismatch.
pub fn count(c: &Collection) -> (r: Result<Collection, EngineError>)
    requires
        c.wf(),
    ensures
        match r {
            Ok(out) => {
                &&& forall|k: int|
                    0 <= k < c.records@.len() ==> !(#[trigger] c.records@[k].value is Triple)
                &&& out.wf()
                &&& forall|w: Value| #[trigger] out.mult(w) == count_report(c.records@, w)
            },
            Err(e) => {
                &&& e == EngineError::TypeMismatch
                &&& exists|k: int|
                    0 <= k < c.records@.len() && (#[trigger] c.records@[k].value is Triple)
            },
        },
{
    let n = c.records.len();
    let mut out: Vec<Record> = Vec::new();
    let mut i: usize = 0;
    while i < n
        invariant
            c.wf(),
            n == c.records@.len(),
            i <= n,
            forall|k: int| 0 <= k < i ==> !(#[trigger] c.records@[k].value is Triple),
            forall|t: int| 0 <= t < out@.len() ==> #[trigger] out@[t].multiplicity == 1,
            forall|t: int|
                0 <= t < out@.len() ==> exists|s: int|
                    0 <= s < i && #[trigger] out@[t].value == spec_count_key(
                        c.records@[s].value,
                        c.records@[s].multiplicity,
                    ),
            distinct_values(out@),
            forall|w: Value| #[trigger] sum_of(out@, w) == count_report(
                c.records@.take(i as int),
                w,
            ),
        decreases n - i,
    {
        let rec = c.records[i];
        let ghost prev = out@;
        let report: Option<Value> = match rec.value {
            Value::Int(a) => Some(Value::Pair(a, rec.multiplicity)),
            Value::Pair(a, b) => Some(Value::Triple(a, b, rec.multiplicity)),
            Value::Triple(_, _, _) => None,
        };
        match report {
            Some(w) => {
                if rec.multiplicity > 0 {
                    out.push(Record { value: w, multiplicity: 1 });
                }
            },
            None => {
                return Err(EngineError::TypeMismatch);
            },
        }
        proof {
            assert forall|w: Value| sum_of(out@, w) == count_report(
                c.records@.take(i + 1),
                w,
            ) by {
                let u = match w {
                    Value::Pair(nn, _) => Value::Int(nn),
                    Value::Triple(a, b, _) => Value::Pair(a, b),
                    Value::Int(_) => Value::Int(0),
                };
                lemma_sum_of_take_succ(c.records@, i as int, u);
                if u == c.records@[i as int].value {
                    lemma_sum_of_absent(c.records@.take(i as int), u);
                }
                if rec.multiplicity > 0 && !(rec.value is Triple) {
                    lemma_sum_of_push(
                        prev,
                        Record {
                            value: spec_count_key(rec.value, rec.multiplicity),
                            multiplicity: 1,
                        },
                        w,
                    );
                }
            }
        }
        i += 1;
    }
    proof {
        assert(c.records@.take(n as int) =~= c.records@);
    }
    Ok(Collection { records: out })
}

/// Semijoin: a record passes, with its own multiplicity unchanged, exactly
/// when its key is present (nets positive) in the second input; the second
/// input's multiplicity never scales the output.
pub fn semijoin(c: &Collection, keys: &Collection) -> (out: Collection)
    requires
        c.wf(),
        keys.wf(),
    ensures
        out.wf(),
        forall|v: Value| #[trigger] out.mult(v) == if keys.mult(spec_key_of(v)) > 0 {
            c.mult(v)
        } else {
            0
        },
{
    let n = c.records.len();
    let mut out: Vec<Record> = Vec::new();
    let mut i: usize = 0;
    while i < n
        invariant
            c.wf(),
            keys.wf(),
            n == c.records@.len(),
            i <= n,
            forall|t: int| 0 <= t < out@.len() ==> #[trigger] out@[t].multiplicity != 0,
            forall|t: int|
                0 <= t < out@.len() ==> exists|s: int|
                    0 <= s < i && #[trigger] out@[t].value == c.records@[s].value,
            distinct_values(out@),
            forall|v: Value| #[trigger] sum_of(out@, v) == if keys.mult(spec_key_of(v)) > 0 {
                sum_of(c.records@.take(i as int), v)
            } else {
                0
            },
        decreases n - i,
    {
        let rec = c.records[i];
        let ghost prev = out@;
        let k = key_of(&rec.value);
        let km = keys.get_multiplicity(&k);
        if km > 0 {
            out.push(rec);
        }
        proof {
            assert forall|v: Value| sum_of(out@, v) == (if keys.mult(spec_key_of(v)) > 0 {
                sum_of(c.records@.take(i + 1), v)
            } else {
                0int
            }) by {
                lemma_sum_of_take_succ(c.records@, i as int, v);
                if km > 0 {
                    lemma_sum_of_push(prev, rec, v);
                }
            }
        }
        i += 1;
    }
    proof {
        assert(c.records@.take(n as int) =~= c.records@);
    }
    Collection { records: out }
}

/// Concat: the union of two record streams. Nothing is deduplicated; when
/// a value occurs on both sides the multiplicities add, resolved by the
/// accumulator.
pub fn concat_op(a: &Collection, b: &Collection) -> (r: Result<Collection, EngineError>)
    requires
        a.wf(),
        b.wf(),
    ensures
        match r {
            Ok(out) => {
                &&& out.wf()
                &&& forall|v: Value| #[trigger] out.mult(v) == a.mult(v) + b.mult(v)
            },
            Err(e) => e == EngineError::Overflow && !fits(a.records@, b.records@),
        },
{
    crate::collection::accumulate(a, &b.records)
}

/// Negation: flips the sign of every net multiplicity. Fails only when a
/// multiplicity is the one machine integer whose negation is not
/// representable.
pub fn negate(c: &Collection) -> (r: Result<Collection, EngineError>)
    requires
        c.wf(),
    ensures
        match r {
            Ok(out) => {
                &&& out.wf()
                &&& forall|v: Value| #[trigger] out.mult(v) == -c.mult(v)
            },
            Err(e) => {
                &&& e == EngineError::Overflow
                &&& exists|k: int|
                    0 <= k < c.records@.len() && #[trigger] c.records@[k].multiplicity == i64::MIN
            },
        },
{
    let n = c.records.len();
    let mut out: Vec<Record> = Vec::new();
    let mut i: usize = 0;
    while i < n
        invariant
            c.wf(),
            n == c.records@.len(),
            i <= n,
            out@.len() == i,
            forall|t: int|
                0 <= t < i ==> #[trigger] out@[t].value == c.records@[t].value
                    && out@[t].multiplicity as int == -(c.records@[t].multiplicity as int),
            forall|v: Value| #[trigger] sum_of(out@, v) == -sum_of(c.records@.take(i as int), v),
        decreases n - i,
    {
        let rec = c.records[i];
        let ghost prev = out@;
        if rec.multiplicity == i64::MIN {
            return Err(EngineError::Overflow);
        }
        let flipped = Record { value: rec.value, multiplicity: -rec.multiplicity };
        out.push(flipped);
        proof {
            assert forall|v: Value| sum_of(out@, v) == -sum_of(c.records@.take(i + 1), v) by {
                lemma_sum_of_take_succ(c.records@, i as int, v);
                lemma_sum_of_push(prev, flipped, v);
            }
        }
        i += 1;
    }
    proof {
        assert(c.records@.take(n as int) =~= c.records@);
    }
    Ok(Collection { records: out })
}

/// Filter: a record passes unchanged when the predicate accepts its value;
/// multiplicities are never altered. The contract states what held of every
/// answer the predicate actually gave.
pub fn filter_op<P: Fn(Value) -> bool>(c: &Collection, p: P) -> (out: Collection)
    requires
        c.wf(),
        forall|k: int|
            0 <= k < c.records@.len() ==> #[trigger] call_requires(p, (c.records@[k].value,)),
    ensures
        out.wf(),
        forall|v: Value| #[trigger] out.mult(v) == c.mult(v) || out.mult(v) == 0,
        forall|v: Value| #[trigger] out.mult(v) != 0 ==> call_ensures(p, (v,), true),
        forall|v: Value|
            c.mult(v) != 0 && #[trigger] out.mult(v) == 0 ==> call_ensures(p, (v,), false),
{
    let n = c.records.len();
    let mut out: Vec<Record> = Vec::new();
    let mut i: usize = 0;
    while i < n
        invariant
            c.wf(),
            n == c.records@.len(),
            i <= n,
            forall|k: int|
                0 <= k < c.records@.len() ==> #[trigger] call_requires(p, (c.records@[k].value,)),
            forall|t: int| 0 <= t < out@.len() ==> #[trigger] out@[t].multiplicity != 0,
            forall|t: int|
                0 <= t < out@.len() ==> exists|s: int|
                    0 <= s < i && #[trigger] out@[t].value == c.records@[s].value,
            distinct_values(out@),
            forall|v: Value| #[trigger] sum_of(out@, v) == sum_of(c.records@.take(i as int), v)
                || sum_of(out@, v) == 0,
            forall|v: Value| #[trigger] sum_of(out@, v) != 0 ==> call_ensures(p, (v,), true),
            forall|v: Value|
                sum_of(c.records@.take(i as int), v) != 0 && #[trigger] sum_of(out@, v) == 0
                    ==> call_ensures(p, (v,), false),
        decreases n - i,
    {
        let rec = c.records[i];
        let ghost prev = out@;
        let keep = p(rec.value);
        if keep {
            out.push(rec);
        }
        proof {
            assert forall|v: Value| (sum_of(out@, v) == sum_of(c.records@.take(i + 1), v) || sum_of(
                out@,
                v,
            ) == 0) && (sum_of(out@, v) != 0 ==> call_ensures(p, (v,), true)) && (sum_of(
                c.records@.take(i + 1),
                v,
            ) != 0 && sum_of(out@, v) == 0 ==> call_ensures(p, (v,), false)) by {
                lemma_sum_of_take_succ(c.records@, i as int, v);
                if v == c.records@[i as int].value {
                    lemma_sum_of_absent(c.records@.take(i as int), v);
                }
                if keep {
                    lemma_sum_of_push(prev, rec, v);
                }
            }
        }
        i += 1;
    }
    proof {
        assert(c.records@.take(n as int) =~= c.records@);
    }
    Collection { records: out }
}

/// The net multiplicity `v` receives when record `t` of `rs` is rewritten
/// to the value `ws[t]`, summed over the whole batch.
pub open spec fn mapped_sum(rs: Seq<Record>, ws: Seq<Value>, v: Value) -> int
    decreases rs.len(),
{
    if rs.len() == 0 || rs.len() != ws.len() {
        0
    } else {
        mapped_sum(rs.drop_last(), ws.drop_last(), v) + if ws.last() == v {
            rs.last().multiplicity as int
        } else {
            0
        }
    }
}

proof fn lemma_mapped_sum_matches(rs: Seq<Record>, ws: Seq<Value>, ms: Seq<Record>, v: Value)
    requires
        ws.len() == rs.len(),
        ms.len() == rs.len(),
        forall|t: int|
            0 <= t < rs.len() ==> #[trigger] ms[t] == (Record {
                value: ws[t],
                multiplicity: rs[t].multiplicity,
            }),
    ensures
        sum_of(ms, v) == mapped_sum(rs, ws, v),
    decreases rs.len(),
{
    if rs.len() > 0 {
        lemma_mapped_sum_matches(rs.drop_last(), ws.drop_last(), ms.drop_last(), v);
    }
}

/// Some batch of answers the function actually gave for the records of
/// `rs` nets, for some value, outside the representable multiplicity range.
pub open spec fn map_overflows<F: Fn(Value) -> Value>(f: F, rs: Seq<Record>) -> bool {
    exists|ws: Seq<Value>|
        #![trigger ws.len()]
        {
            &&& ws.len() == rs.len()
            &&& (forall|t: int|
                0 <= t < ws.len() ==> call_ensures(f, (rs[t].value,), #[trigger] ws[t]))
            &&& !(forall|v: Value| i64::MIN <= #[trigger] mapped_sum(rs, ws, v) <= i64::MAX)
        }
}

/// Map: rewrites each record's value through the supplied function,
/// keeping its multiplicity, then accumulates the rewritten batch so that
/// coinciding images merge. The witness sequence records what the function
/// actually returned for each input record.
pub fn map_op<F: Fn(Value) -> Value>(c: &Collection, f: F) -> (r: Result<Collection, EngineError>)
    requires
        c.wf(),
        forall|k: int|
            0 <= k < c.records@.len() ==> #[trigger] call_requires(f, (c.records@[k].value,)),
    ensures
        match r {
            Ok(out) => {
                &&& out.wf()
                &&& exists|ws: Seq<Value>|
                    #![trigger ws.len()]
                    {
                        &&& ws.len() == c.records@.len()
                        &&& (forall|t: int|
                            0 <= t < ws.len() ==> call_ensures(
                                f,
                                (c.records@[t].value,),
                                #[trigger] ws[t],
                            ))
                        &&& forall|v: Value| #[trigger] out.mult(v) == mapped_sum(
                            c.records@,
                            ws,
                            v,
                        )
                    }
            },
            Err(e) => e == EngineError::Overflow && map_overflows(f, c.records@),
        },
{
    let n = c.records.len();
    let mut mapped: Vec<Record> = Vec::new();
    let ghost mut ws: Seq<Value> = Seq::empty();
    let mut i: usize = 0;
    while i < n
        invariant
            c.wf(),
            n == c.records@.len(),
            i <= n,
            forall|k: int|
                0 <= k < c.records@.len() ==> #[trigger] call_requires(f, (c.records@[k].value,)),
            ws.len() == i,
            mapped@.len() == i,
            forall|t: int|
                0 <= t < i ==> call_ensures(f, (c.records@[t].value,), #[trigger] ws[t]),
            forall|t: int|
                0 <= t < i ==> #[trigger] mapped@[t] == (Record {
                    value: ws[t],
                    multiplicity: c.records@[t].multiplicity,
                }),
        decreases n - i,
    {
        let rec = c.records[i];
        let w = f(rec.value);
        mapped.push(Record { value: w, multiplicity: rec.multiplicity });
        proof {
            ws = ws.push(w);
        }
        i += 1;
    }
    match crate::collection::fold_records(&mapped) {
        Ok(out) => {
            proof {
                assert forall|v: Value| out.mult(v) == mapped_sum(c.records@, ws, v) by {
                    lemma_mapped_sum_matches(c.records@, ws, mapped@, v);
                }
            }
            Ok(out)
        },
        Err(e) => {
            proof {
                let v0 = choose|v: Value|
                    #![trigger sum_of(mapped@, v)]
                    !(i64::MIN <= sum_of(Seq::<Record>::empty(), v) + sum_of(mapped@, v)
                        <= i64::MAX);
                lemma_mapped_sum_matches(c.records@, ws, mapped@, v0);
                assert(!(i64::MIN <= mapped_sum(c.records@, ws, v0) <= i64::MAX));
                assert(map_overflows(f, c.records@));
            }
            Err(e)
        },
    }
}

/// What the join owes each value: the tuple `Triple(k, x, y)` receives the
/// product of the nets of `Pair(k, x)` on the first side and `Pair(k, y)`
/// on the second; nothing else is produced.
pub open spec fn join_report(sa: Seq<Record>, sb: Seq<Record>, w: Value) -> int {
    match w {
        Value::Triple(k, x, y) => sum_of(sa, Value::Pair(k, x)) * sum_of(sb, Value::Pair(k, y)),
        _ => 0int,
    }
}

/// What one record `Pair(k, x)` of multiplicity `m1` on the first side has
/// contributed so far, against a prefix of the second side.
spec fn join_part(k: i64, x: i64, m1: i64, sbp: Seq<Record>, w: Value) -> int {
    match w {
        Value::Triple(k2, x2, y) => if k2 == k && x2 == x {
            (m1 as int) * sum_of(sbp, Value::Pair(k, y))
        } else {
            0int
        },
        _ => 0int,
    }
}

/// Join: for each pair of keyed records `Pair(k, x)` and `Pair(k, y)`
/// sharing the key `k`, emits `Triple(k, x, y)` with the multiplicities
/// multiplied. Unkeyed shapes on either side are a keying mismatch; the
/// mismatch is reported exactly when one is present. Two plain sets always
/// join successfully.
pub fn join_op(a: &Collection, b: &Collection) -> (r: Result<Collection, EngineError>)
    requires
        a.wf(),
        b.wf(),
    ensures
        match r {
            Ok(out) => {
                &&& out.wf()
                &&& forall|w: Value| #[trigger] out.mult(w) == join_report(
                    a.records@,
                    b.records@,
                    w,
                )
            },
            Err(e) => {
                &&& (e == EngineError::TypeMismatch || e == EngineError::Overflow)
                &&& (e == EngineError::TypeMismatch <==> (exists|k: int|
                    0 <= k < a.records@.len() && !(#[trigger] a.records@[k].value is Pair))
                    || (exists|k: int|
                    0 <= k < b.records@.len() && !(#[trigger] b.records@[k].value is Pair)))
            },
        },
        (crate::collection::all_unit(a.records@) && crate::collection::all_unit(b.records@)
            && (forall|k: int| 0 <= k < a.records@.len() ==> (#[trigger] a.records@[k].value
            is Pair)) && (forall|k: int|
            0 <= k < b.records@.len() ==> (#[trigger] b.records@[k].value is Pair))) ==> r is Ok,
{
    let na = a.records.len();
    let nb = b.records.len();
    let mut i: usize = 0;
    while i < na
        invariant
            a.wf(),
            na == a.records@.len(),
            i <= na,
            forall|k: int| 0 <= k < i ==> (#[trigger] a.records@[k].value is Pair),
        decreases na - i,
    {
        if !matches!(a.records[i].value, Value::Pair(_, _)) {
            return Err(EngineError::TypeMismatch);
        }
        i += 1;
    }
    let mut j: usize = 0;
    while j < nb
        invariant
            b.wf(),
            nb == b.records@.len(),
            j <= nb,
            forall|k: int| 0 <= k < j ==> (#[trigger] b.records@[k].value is Pair),
        decreases nb - j,
    {
        if !matches!(b.records[j].value, Value::Pair(_, _)) {
            return Err(EngineError::TypeMismatch);
        }
        j += 1;
    }
    let mut raw: Vec<Record> = Vec::new();
    let mut i: usize = 0;
    while i < na
        invariant
            a.wf(),
            b.wf(),
            na == a.records@.len(),
            nb == b.records@.len(),
            i <= na,
            forall|k: int| 0 <= k < na ==> (#[trigger] a.records@[k].value is Pair),
            forall|k: int| 0 <= k < nb ==> (#[trigger] b.records@[k].value is Pair),
            crate::collection::all_unit(a.records@) && crate::collection::all_unit(b.records@)
                ==> crate::collection::all_unit(raw@),
            forall|w: Value| #[trigger] sum_of(raw@, w) == join_report(
                a.records@.take(i as int),
                b.records@,
                w,
            ),
        decreases na - i,
    {
        let reca = a.records[i];
        let (ka, xa) = match reca.value {
            Value::Pair(k, x) => (k, x),
            _ => {
                return Err(EngineError::TypeMismatch);
            },
        };
        let m1 = reca.multiplicity;
        let ghost outer_prev = raw@;
        let mut j: usize = 0;
        while j < nb
            invariant
                a.wf(),
                b.wf(),
                na == a.records@.len(),
                nb == b.records@.len(),
                i < na,
                j <= nb,
                forall|k: int| 0 <= k < na ==> (#[trigger] a.records@[k].value is Pair),
                forall|k: int| 0 <= k < nb ==> (#[trigger] b.records@[k].value is Pair),
                crate::collection::all_unit(a.records@) ==> m1 == 1,
                reca == a.records@[i as int],
                reca.value == Value::Pair(ka, xa),
                m1 == reca.multiplicity,
                crate::collection::all_unit(b.records@) && m1 == 1
                    ==> crate::collection::all_unit(raw@.skip(outer_prev.len() as int)),
                raw@.take(outer_prev.len() as int) == outer_prev,
                raw@.len() >= outer_prev.len(),
                forall|w: Value| #[trigger] sum_of(raw@, w) == sum_of(outer_prev, w) + join_part(
                    ka,
                    xa,
                    m1,
                    b.records@.take(j as int),
                    w,
                ),
            decreases nb - j,
        {
            let recb = b.records[j];
            let ghost prev = raw@;
            let mut pushed: Option<Record> = None;
            if let Value::Pair(kb, y) = recb.value {
                if kb == ka {
                    let prod = match m1.checked_mul(recb.multiplicity) {
                        Some(p) => p,
                        None => {
                            proof {
                                if crate::collection::all_unit(a.records@)
                                    && crate::collection::all_unit(b.records@) {
                                    assert(m1 == 1);
                                    assert(b.records@[j as int].multiplicity == 1);
                                    assert(false);
                                }
                            }
                            return Err(EngineError::Overflow);
                        },
                    };
                    let r2 = Record { value: Value::Triple(ka, xa, y), multiplicity: prod };
                    raw.push(r2);
                    pushed = Some(r2);
                    proof {
                        assert(raw@.skip(outer_prev.len() as int) =~= prev.skip(
                            outer_prev.len() as int,
                        ).push(r2));
                        if crate::collection::all_unit(b.records@) && m1 == 1 {
                            assert(b.records@[j as int].multiplicity == 1);
                        }
                    }
                }
            }
            proof {
                assert forall|w: Value| sum_of(raw@, w) == sum_of(outer_prev, w) + join_part(
                    ka,
                    xa,
                    m1,
                    b.records@.take(j + 1),
                    w,
                ) by {
                    if w is Triple {
                        let y = w->Triple_2;
                        lemma_sum_of_take_succ(
                            b.records@,
                            j as int,
                            Value::Pair(w->Triple_0, y),
                        );
                        let s0 = sum_of(b.records@.take(j as int), Value::Pair(ka, y));
                        let sh = share_of(b.records@[j as int], Value::Pair(ka, y));
                        assert((m1 as int) * (s0 + sh) == (m1 as int) * s0 + (m1 as int) * sh)
                            by (nonlinear_arith);
                    }
                    match pushed {
                        Some(r2) => {
                            lemma_sum_of_push(prev, r2, w);
                        },
                        None => {
                        },
                    }
                }
                assert(raw@.take(outer_prev.len() as int) =~= outer_prev);
            }
            j += 1;
        }
        proof {
            assert(b.records@.take(nb as int) =~= b.records@);
            assert forall|w: Value| sum_of(raw@, w) == join_report(
                a.records@.take(i + 1),
                b.records@,
                w,
            ) by {
                if w is Triple {
                    let k2 = w->Triple_0;
                    let x2 = w->Triple_1;
                    let y = w->Triple_2;
                    lemma_sum_of_take_succ(a.records@, i as int, Value::Pair(k2, x2));
                    let s0 = sum_of(a.records@.take(i as int), Value::Pair(k2, x2));
                    let sh = share_of(a.records@[i as int], Value::Pair(k2, x2));
                    let t = sum_of(b.records@, Value::Pair(k2, y));
                    assert((s0 + sh) * t == s0 * t + sh * t) by (nonlinear_arith);
                }
            }
            if crate::collection::all_unit(a.records@) && crate::collection::all_unit(
                b.records@,
            ) {
                assert forall|t: int| 0 <= t < raw@.len() implies #[trigger] raw@[t].multiplicity
                    == 1 by {
                    if t < outer_prev.len() {
                        assert(raw@[t] == raw@.take(outer_prev.len() as int)[t]);
                    } else {
                        assert(raw@[t] == raw@.skip(outer_prev.len() as int)[t
                            - outer_prev.len()]);
                    }
                }
            }
        }
        i += 1;
    }
    proof {
        assert(a.records@.take(na as int) =~= a.records@);
        if crate::collection::all_unit(a.records@) && crate::collection::all_unit(b.records@) {
            assert forall|v: Value|
                i64::MIN <= #[trigger] sum_of(Seq::<Record>::empty(), v) + sum_of(raw@, v)
                    <= i64::MAX by {
                crate::collection::lemma_unit_mult_bounds(*a, match v {
                    Value::Triple(k, x, _) => Value::Pair(k, x),
                    _ => v,
                });
                if v is Triple {
                    let k = v->Triple_0;
                    let x = v->Triple_1;
                    let y = v->Triple_2;
                    crate::collection::lemma_unit_mult_bounds(*a, Value::Pair(k, x));
                    crate::collection::lemma_unit_mult_bounds(*b, Value::Pair(k, y));
                    let s = sum_of(a.records@, Value::Pair(k, x));
                    let t = sum_of(b.records@, Value::Pair(k, y));
                    assert(0 <= s * t <= 1) by (nonlinear_arith)
                        requires
                            0 <= s <= 1,
                            0 <= t <= 1,
                    ;
                }
            }
        }
    }
    crate::collection::fold_records(&raw)
}

/// How often `v` occurs in a batch of rewritten values.
pub open spec fn count_in(ws: Seq<Value>, v: Value) -> int
    decreases ws.len(),
{
    if ws.len() == 0 {
        0
    } else {
        count_in(ws.drop_last(), v) + if ws.last() == v {
            1int
        } else {
            0int
        }
    }
}

proof fn lemma_count_in_take_succ(ws: Seq<Value>, j: int, v: Value)
    requires
        0 <= j < ws.len(),
    ensures
        count_in(ws.take(j + 1), v) == count_in(ws.take(j), v) + if ws[j] == v {
            1int
        } else {
            0int
        },
{
    assert(ws.take(j + 1) =~= ws.take(j).push(ws[j]));
    assert(ws.take(j).push(ws[j]).drop_last() =~= ws.take(j));
}

/// The net multiplicity `v` receives when record `t` of `rs` is rewritten
/// to the whole batch `wss[t]`, summed over the input.
pub open spec fn flat_mapped_sum(rs: Seq<Record>, wss: Seq<Vec<Value>>, v: Value) -> int
    decreases rs.len(),
{
    if rs.len() == 0 || rs.len() != wss.len() {
        0
    } else {
        flat_mapped_sum(rs.drop_last(), wss.drop_last(), v) + count_in(wss.last()@, v)
            * (rs.last().multiplicity as int)
    }
}

/// Some batch of answer batches the function actually gave for the records
/// of `rs` nets, for some value, outside the representable range.
pub open spec fn flat_map_overflows<F: Fn(Value) -> Vec<Value>>(f: F, rs: Seq<Record>) -> bool {
    exists|wss: Seq<Vec<Value>>|
        #![trigger wss.len()]
        {
            &&& wss.len() == rs.len()
            &&& (forall|t: int|
                0 <= t < wss.len() ==> call_ensures(f, (rs[t].value,), #[trigger] wss[t]))
            &&& !(forall|v: Value| i64::MIN <= #[trigger] flat_mapped_sum(rs, wss, v) <= i64::MAX)
        }
}

/// FlatMap: rewrites each record's value to a whole batch of values, each
/// carrying the record's multiplicity, then accumulates the result. The
/// witness sequence records the batches the function actually returned.
pub fn flat_map_op<F: Fn(Value) -> Vec<Value>>(c: &Collection, f: F) -> (r: Result<
    Collection,
    EngineError,
>)
    requires
        c.wf(),
        forall|k: int|
            0 <= k < c.records@.len() ==> #[trigger] call_requires(f, (c.records@[k].value,)),
    ensures
        match r {
            Ok(out) => {
                &&& out.wf()
                &&& exists|wss: Seq<Vec<Value>>|
                    #![trigger wss.len()]
                    {
                        &&& wss.len() == c.records@.len()
                        &&& (forall|t: int|
                            0 <= t < wss.len() ==> call_ensures(
                                f,
                                (c.records@[t].value,),
                                #[trigger] wss[t],
                            ))
                        &&& forall|v: Value| #[trigger] out.mult(v) == flat_mapped_sum(
                            c.records@,
                            wss,
                            v,
                        )
                    }
            },
            Err(e) => e == EngineError::Overflow && flat_map_overflows(f, c.records@),
        },
{
    let n = c.records.len();
    let mut mapped: Vec<Record> = Vec::new();
    let ghost mut wss: Seq<Vec<Value>> = Seq::empty();
    let mut i: usize = 0;
    while i < n
        invariant
            c.wf(),
            n == c.records@.len(),
            i <= n,
            forall|k: int|
                0 <= k < c.records@.len() ==> #[trigger] call_requires(f, (c.records@[k].value,)),
            wss.len() == i,
            forall|t: int|
                0 <= t < i ==> call_ensures(f, (c.records@[t].value,), #[trigger] wss[t]),
            forall|v: Value| #[trigger] sum_of(mapped@, v) == flat_mapped_sum(
                c.records@.take(i as int),
                wss,
                v,
            ),
        decreases n - i,
    {
        let rec = c.records[i];
        let ws = f(rec.value);
        let ghost prev = mapped@;
        let wn = ws.len();
        let mut j: usize = 0;
        while j < wn
            invariant
                wn == ws@.len(),
                j <= wn,
                forall|v: Value| #[trigger] sum_of(mapped@, v) == sum_of(prev, v) + count_in(
                    ws@.take(j as int),
                    v,
                ) * (rec.multiplicity as int),
            decreases wn - j,
        {
            let ghost mid = mapped@;
            let w = ws[j];
            mapped.push(Record { value: w, multiplicity: rec.multiplicity });
            proof {
                assert forall|v: Value| sum_of(mapped@, v) == sum_of(prev, v) + count_in(
                    ws@.take(j + 1),
                    v,
                ) * (rec.multiplicity as int) by {
                    lemma_sum_of_push(mid, Record { value: w, multiplicity: rec.multiplicity }, v);
                    lemma_count_in_take_succ(ws@, j as int, v);
                    let cnt = count_in(ws@.take(j as int), v);
                    let m = rec.multiplicity as int;
                    assert((cnt + 1) * m == cnt * m + m) by (nonlinear_arith);
                }
            }
            j += 1;
        }
        proof {
            let ghost oldwss = wss;
            wss = wss.push(ws);
            assert(ws@.take(wn as int) =~= ws@);
            assert forall|v: Value| sum_of(mapped@, v) == flat_mapped_sum(
                c.records@.take(i + 1),
                wss,
                v,
            ) by {
                assert(c.records@.take(i + 1).drop_last() =~= c.records@.take(i as int));
                assert(wss.drop_last() =~= oldwss);
                assert(c.records@.take(i + 1).last() == c.records@[i as int]);
            }
        }
        i += 1;
    }
    proof {
        assert(c.records@.take(n as int) =~= c.records@);
    }
    match crate::collection::fold_records(&mapped) {
        Ok(out) => {
            proof {
                assert(wss.len() == c.records@.len());
            }
            Ok(out)
        },
        Err(e) => {
            proof {
                let v0 = choose|v: Value|
                    #![trigger sum_of(mapped@, v)]
                    !(i64::MIN <= sum_of(Seq::<Record>::empty(), v) + sum_of(mapped@, v)
                        <= i64::MAX);
                assert(sum_of(mapped@, v0) == flat_mapped_sum(c.records@, wss, v0));
                assert(!(i64::MIN <= flat_mapped_sum(c.records@, wss, v0) <= i64::MAX));
                assert(flat_map_overflows(f, c.records@));
            }
            Err(e)
        },
    }
}

} // verus!
