use vstd::prelude::*;

use crate::collection::{
    all_unit, fold_records, lemma_sum_of_absent, lemma_sum_of_concat, lemma_sum_of_entry,
    lemma_sum_of_push, lemma_sum_of_take_succ, net_zero, share_of, sum_of, Collection, Record,
};
use crate::errors::EngineError;
use crate::fixpoint::{
    always_converges_on, certified_round, converged_under, iterate, reached_within, reaches,
    still_changing,
};
use crate::ops::{concat_op, count, count_report, distinct, distinct_of, semijoin};
use crate::value::{spec_key_of, Value};

verus! {

/// The net multiplicity of the cell at integer coordinates `(x, y)`; spots
/// outside the machine coordinate range hold nothing.
pub open spec fn cell_mult(s: Seq<Record>, x: int, y: int) -> int {
    if i64::MIN <= x <= i64::MAX && i64::MIN <= y <= i64::MAX {
        sum_of(s, Value::Pair(x as i64, y as i64))
    } else {
        0
    }
}

/// The number of live neighbors the spot `(x, y)` sees: the sum of the
/// eight surrounding cells' net multiplicities.
pub open spec fn neighbor_total(s: Seq<Record>, x: int, y: int) -> int {
    cell_mult(s, x - 1, y - 1) + cell_mult(s, x - 1, y) + cell_mult(s, x - 1, y + 1) + cell_mult(
        s,
        x,
        y - 1,
    ) + cell_mult(s, x, y + 1) + cell_mult(s, x + 1, y - 1) + cell_mult(s, x + 1, y) + cell_mult(
        s,
        x + 1,
        y + 1,
    )
}

/// The standard rule: a spot is live in the next generation exactly when
/// it sees three live neighbors, or two while being live itself.
pub open spec fn life_rule(s: Seq<Record>, x: int, y: int) -> bool {
    neighbor_total(s, x, y) == 3 || (neighbor_total(s, x, y) == 2 && cell_mult(s, x, y) > 0)
}

/// The next generation as a multiset: one copy of every pair the rule
/// keeps alive, nothing else.
pub open spec fn life_next_mult(s: Seq<Record>, v: Value) -> int {
    match v {
        Value::Pair(x, y) => if life_rule(s, x as int, y as int) {
            1int
        } else {
            0int
        },
        _ => 0int,
    }
}

/// Every record carries a coordinate pair: the collection is a board.
pub open spec fn cells_ok(s: Seq<Record>) -> bool {
    forall|k: int| 0 <= k < s.len() ==> (#[trigger] s[k].value is Pair)
}

/// What the neighbor expansion owes each value: a pair receives the
/// neighbor total of its spot, anything else nothing.
pub open spec fn neighbor_mult(s: Seq<Record>, v: Value) -> int {
    match v {
        Value::Pair(p, q) => neighbor_total(s, p as int, q as int),
        _ => 0int,
    }
}

proof fn lemma_sum_of_units(s: Seq<Record>, v: Value)
    requires
        all_unit(s),
    ensures
        0 <= sum_of(s, v) <= s.len(),
    decreases s.len(),
{
    if s.len() > 0 {
        lemma_sum_of_units(s.drop_last(), v);
    }
}

/// What marking the spot at offset `(dx, dy)` from the cell `(a, b)` adds
/// to the net of `v`: the cell's multiplicity when the spot is
/// representable and is `v`, nothing otherwise.
spec fn mark_share(a: i64, b: i64, m: i64, dx: int, dy: int, v: Value) -> int {
    if i64::MIN <= a + dx <= i64::MAX && i64::MIN <= b + dy <= i64::MAX && v == (Value::Pair(
        (a + dx) as i64,
        (b + dy) as i64,
    )) {
        m as int
    } else {
        0
    }
}

/// Marks one spot next to the cell `(a, b)`; a spot beyond the coordinate
/// range holds nothing and gets no mark.
fn push_mark(out: &mut Vec<Record>, a: i64, b: i64, dx: i64, dy: i64, m: i64)
    ensures
        forall|v: Value| #[trigger] sum_of(final(out)@, v) == sum_of(old(out)@, v) + mark_share(
            a,
            b,
            m,
            dx as int,
            dy as int,
            v,
        ),
        final(out)@.len() <= old(out)@.len() + 1,
        (forall|t: int| 0 <= t < old(out)@.len() ==> #[trigger] old(out)@[t].multiplicity == m)
            ==> (forall|t: int|
            0 <= t < final(out)@.len() ==> #[trigger] final(out)@[t].multiplicity == m),
{
    if let Some(x) = a.checked_add(dx) {
        if let Some(y) = b.checked_add(dy) {
            let r = Record { value: Value::Pair(x, y), multiplicity: m };
            let ghost prev = out@;
            out.push(r);
            proof {
                assert forall|v: Value| sum_of(out@, v) == sum_of(prev, v) + mark_share(
                    a,
                    b,
                    m,
                    dx as int,
                    dy as int,
                    v,
                ) by {
                    lemma_sum_of_push(prev, r, v);
                }
            }
        }
    }
}

/// The neighbor expansion: each live cell marks its up-to-eight
/// surrounding representable spots with its own multiplicity. The raw
/// batch is handed back for the accumulator to canonicalize.
#[verifier::rlimit(50)]
fn neighbor_records(live: &Collection) -> (r: Result<Vec<Record>, EngineError>)
    requires
        live.wf(),
    ensures
        match r {
            Ok(out) => {
                &&& cells_ok(live.records@)
                &&& out@.len() <= 8 * live.records@.len()
                &&& (all_unit(live.records@) ==> all_unit(out@))
                &&& forall|v: Value| #[trigger] sum_of(out@, v) == neighbor_mult(live.records@, v)
            },
            Err(e) => {
                &&& e == EngineError::TypeMismatch
                &&& !cells_ok(live.records@)
            },
        },
{
    let n = live.records.len();
    let mut out: Vec<Record> = Vec::new();
    let mut i: usize = 0;
    while i < n
        invariant
            live.wf(),
            n == live.records@.len(),
            i <= n,
            out@.len() <= 8 * i,
            cells_ok(live.records@.take(i as int)),
            all_unit(live.records@) ==> all_unit(out@),
            forall|v: Value| #[trigger] sum_of(out@, v) == neighbor_mult(
                live.records@.take(i as int),
                v,
            ),
        decreases n - i,
    {
        let rec = live.records[i];
        let ghost prev = out@;
        match rec.value {
            Value::Pair(a, b) => {
                let m = rec.multiplicity;
                proof {
                    if all_unit(live.records@) {
                        assert(live.records@[i as int].multiplicity == 1);
                    }
                }
                push_mark(&mut out, a, b, -1, -1, m);
                push_mark(&mut out, a, b, -1, 0, m);
                push_mark(&mut out, a, b, -1, 1, m);
                push_mark(&mut out, a, b, 0, -1, m);
                push_mark(&mut out, a, b, 0, 1, m);
                push_mark(&mut out, a, b, 1, -1, m);
                push_mark(&mut out, a, b, 1, 0, m);
                push_mark(&mut out, a, b, 1, 1, m);
                proof {
                    assert forall|u: Value| #[trigger] sum_of(
                        live.records@.take(i + 1),
                        u,
                    ) == sum_of(live.records@.take(i as int), u) + share_of(
                        live.records@[i as int],
                        u,
                    ) by {
                        lemma_sum_of_take_succ(live.records@, i as int, u);
                    }
                    assert forall|v: Value| sum_of(out@, v) == neighbor_mult(
                        live.records@.take(i + 1),
                        v,
                    ) by {
                        assert(live.records@[i as int] == rec);
                        assert(sum_of(out@, v) == sum_of(prev, v) + mark_share(
                            a,
                            b,
                            m,
                            -1,
                            -1,
                            v,
                        ) + mark_share(a, b, m, -1, 0, v) + mark_share(a, b, m, -1, 1, v)
                            + mark_share(a, b, m, 0, -1, v) + mark_share(a, b, m, 0, 1, v)
                            + mark_share(a, b, m, 1, -1, v) + mark_share(a, b, m, 1, 0, v)
                            + mark_share(a, b, m, 1, 1, v));
                    }
                    assert(cells_ok(live.records@.take(i + 1)));
                }
            },
            _ => {
                proof {
                    assert(!(live.records@[i as int].value is Pair));
                    assert(!cells_ok(live.records@));
                }
                return Err(EngineError::TypeMismatch);
            },
        }
        i += 1;
    }
    proof {
        assert(live.records@.take(n as int) =~= live.records@);
    }
    Ok(out)
}

/// Projects count reports back to cells: one copy of the pair `(a, b)` for
/// every report that `(a, b)` currently counts exactly `target`.
fn cells_with_count(counts: &Collection, target: i64) -> (out: Collection)
    requires
        counts.wf(),
    ensures
        out.wf(),
        forall|v: Value| #[trigger] out.mult(v) == (match v {
            Value::Pair(a, b) => if sum_of(counts.records@, Value::Triple(a, b, target)) > 0 {
                1int
            } else {
                0int
            },
            _ => 0int,
        }),
{
    let n = counts.records.len();
    let mut out: Vec<Record> = Vec::new();
    let mut i: usize = 0;
    while i < n
        invariant
            counts.wf(),
            n == counts.records@.len(),
            i <= n,
            forall|t: int| 0 <= t < out@.len() ==> #[trigger] out@[t].multiplicity == 1,
            forall|t: int|
                0 <= t < out@.len() ==> (match #[trigger] out@[t].value {
                    Value::Pair(a, b) => exists|s: int|
                        0 <= s < i && #[trigger] counts.records@[s].value == Value::Triple(
                            a,
                            b,
                            target,
                        ),
                    _ => false,
                }),
            crate::collection::distinct_values(out@),
            forall|v: Value| #[trigger] sum_of(out@, v) == (match v {
                Value::Pair(a, b) => if sum_of(
                    counts.records@.take(i as int),
                    Value::Triple(a, b, target),
                ) > 0 {
                    1int
                } else {
                    0int
                },
                _ => 0int,
            }),
        decreases n - i,
    {
        let rec = counts.records[i];
        let ghost prev = out@;
        let emit: Option<Value> = match rec.value {
            Value::Triple(a, b, m) => if m == target && rec.multiplicity > 0 {
                Some(Value::Pair(a, b))
            } else {
                None
            },
            _ => None,
        };
        if let Some(w) = emit {
            out.push(Record { value: w, multiplicity: 1 });
        }
        proof {
            assert forall|v: Value| sum_of(out@, v) == (match v {
                Value::Pair(a, b) => if sum_of(
                    counts.records@.take(i + 1),
                    Value::Triple(a, b, target),
                ) > 0 {
                    1int
                } else {
                    0int
                },
                _ => 0int,
            }) by {
                if v is Pair {
                    let u = Value::Triple(v->Pair_0, v->Pair_1, target);
                    lemma_sum_of_take_succ(counts.records@, i as int, u);
                    if u == counts.records@[i as int].value {
                        lemma_sum_of_absent(counts.records@.take(i as int), u);
                    }
                }
                match emit {
                    Some(w) => {
                        lemma_sum_of_push(prev, Record { value: w, multiplicity: 1 }, v);
                    },
                    None => {
                    },
                }
            }
        }
        i += 1;
    }
    proof {
        assert(counts.records@.take(n as int) =~= counts.records@);
    }
    Collection { records: out }
}

/// One generation of the Game of Life: the collection of cells the rule
/// keeps alive, each with multiplicity exactly one. Succeeds on every
/// plain board of reasonable size, cells at the coordinate boundary
/// included; a non-pair value is a keying mismatch, and huge
/// multiplicities can push a neighbor total past the representable range.
pub fn life_successor(live: &Collection) -> (r: Result<Collection, EngineError>)
    requires
        live.wf(),
    ensures
        match r {
            Ok(next) => {
                &&& next.wf()
                &&& forall|v: Value| #[trigger] next.mult(v) == life_next_mult(live.records@, v)
            },
            Err(e) => e == EngineError::TypeMismatch || e == EngineError::Overflow,
        },
        (cells_ok(live.records@) && all_unit(live.records@) && live.records@.len()
            <= 0x0800_0000_0000_0000) ==> r is Ok,
{
    let nb = match neighbor_records(live) {
        Ok(v) => v,
        Err(e) => {
            return Err(e);
        },
    };
    proof {
        if all_unit(live.records@) && live.records@.len() <= 0x0800_0000_0000_0000 {
            assert forall|v: Value|
                i64::MIN <= #[trigger] sum_of(Seq::<Record>::empty(), v) + sum_of(nb@, v)
                    <= i64::MAX by {
                lemma_sum_of_units(nb@, v);
            }
        }
    }
    let nb_col = match fold_records(&nb) {
        Ok(c) => c,
        Err(e) => {
            return Err(e);
        },
    };
    proof {
        assert forall|k: int|
            0 <= k < nb_col.records@.len() implies !(#[trigger] nb_col.records@[k].value
            is Triple) by {
            lemma_sum_of_entry(nb_col.records@, k);
            assert(nb_col.mult(nb_col.records@[k].value) == neighbor_mult(
                live.records@,
                nb_col.records@[k].value,
            ));
        }
    }
    let counts = match count(&nb_col) {
        Ok(c) => c,
        Err(e) => {
            return Err(e);
        },
    };
    let three = cells_with_count(&counts, 3);
    let two = cells_with_count(&counts, 2);
    let two_live = semijoin(&two, live);
    let both = match concat_op(&two_live, &three) {
        Ok(c) => c,
        Err(e) => {
            proof {
                assert forall|v: Value|
                    i64::MIN <= #[trigger] sum_of(two_live.records@, v) + sum_of(
                        three.records@,
                        v,
                    ) <= i64::MAX by {
                    assert(two_live.mult(v) == 0 || two_live.mult(v) == two.mult(v));
                    assert(two.mult(v) == 0 || two.mult(v) == 1);
                    assert(three.mult(v) == 0 || three.mult(v) == 1);
                }
                assert(false);
            }
            return Err(e);
        },
    };
    let next = distinct(&both);
    proof {
        assert forall|v: Value| next.mult(v) == life_next_mult(live.records@, v) by {
            assert(next.mult(v) == distinct_of(both.mult(v)));
            assert(both.mult(v) == two_live.mult(v) + three.mult(v));
            if v is Pair {
                let x = v->Pair_0;
                let y = v->Pair_1;
                assert(counts.mult(Value::Triple(x, y, 3)) == count_report(
                    nb_col.records@,
                    Value::Triple(x, y, 3),
                ));
                assert(counts.mult(Value::Triple(x, y, 2)) == count_report(
                    nb_col.records@,
                    Value::Triple(x, y, 2),
                ));
                assert(nb_col.mult(Value::Pair(x, y)) == neighbor_mult(
                    live.records@,
                    Value::Pair(x, y),
                ));
                assert(spec_key_of(v) == v);
            }
        }
    }
    Ok(next)
}

/// The loop body of the Game-of-Life dataflow: the difference between the
/// next generation and the current one, as a raw batch for one iteration
/// round. Accumulating it into the current generation yields exactly the
/// successor; it nets to zero precisely on a still life.
pub fn life_delta(live: &Collection) -> (r: Result<Vec<Record>, EngineError>)
    requires
        live.wf(),
    ensures
        match r {
            Ok(d) => forall|v: Value| #[trigger] sum_of(d@, v) == life_next_mult(live.records@, v)
                - sum_of(live.records@, v),
            Err(e) => e == EngineError::TypeMismatch || e == EngineError::Overflow,
        },
        (cells_ok(live.records@) && all_unit(live.records@) && live.records@.len()
            <= 0x0800_0000_0000_0000) ==> r is Ok,
{
    let next = match life_successor(live) {
        Ok(c) => c,
        Err(e) => {
            return Err(e);
        },
    };
    let flipped = match crate::ops::negate(live) {
        Ok(c) => c,
        Err(e) => {
            proof {
                if all_unit(live.records@) {
                    assert(false);
                }
            }
            return Err(e);
        },
    };
    let mut d = next.records;
    let ghost dview = d@;
    let mut f = flipped.records;
    let ghost fview = f@;
    d.append(&mut f);
    proof {
        assert(d@ =~= dview + fview);
        assert forall|v: Value| sum_of(d@, v) == life_next_mult(live.records@, v) - sum_of(
            live.records@,
            v,
        ) by {
            lemma_sum_of_concat(dview, fview, v);
            assert(next.mult(v) == life_next_mult(live.records@, v));
            assert(flipped.mult(v) == -sum_of(live.records@, v));
        }
    }
    Ok(d)
}

/// The batch `d` is exactly the difference between the next generation of
/// `c` and `c` itself.
pub open spec fn delta_ok(c: Collection, d: Vec<Record>) -> bool {
    forall|v: Value| #[trigger] sum_of(d@, v) == life_next_mult(c.records@, v) - sum_of(
        c.records@,
        v,
    )
}

/// `next` carries exactly the nets the rule produces from `prev` in one
/// generation.
pub open spec fn life_generation(prev: Collection, next: Collection) -> bool {
    next.wf() && forall|v: Value| #[trigger] next.mult(v) == life_next_mult(prev.records@, v)
}

/// `to` is the `gens`-th generation of the rule applied from `from`.
pub open spec fn life_reaches(from: Collection, to: Collection, gens: nat) -> bool
    decreases gens,
{
    if gens == 0 {
        to == from
    } else {
        exists|mid: Collection|
            #[trigger] life_generation(mid, to) && life_reaches(from, mid, (gens - 1) as nat)
    }
}

/// `to` is some generation of the rule from `from`, at most `cap` steps on.
pub open spec fn generations_within(from: Collection, to: Collection, cap: u64) -> bool {
    exists|k: nat| k <= cap && #[trigger] life_reaches(from, to, k)
}

/// The rule still changes `c`: it is not a still life.
pub open spec fn evolving(c: Collection) -> bool {
    !(forall|v: Value| #[trigger] life_next_mult(c.records@, v) == c.mult(v))
}

/// After `cap` generations from `from` the rule still changes the state.
pub open spec fn generations_exhausted(from: Collection, cap: u64) -> bool {
    exists|mid: Collection| #[trigger] life_reaches(from, mid, cap as nat) && evolving(mid)
}

/// The rule reads only net multiplicities: two collections that agree on
/// every net — however their records arrived or are arranged — have
/// net-equal next generations. Together with the accumulator's
/// order-independence this lifts permutation-invariance and
/// zero-cancellation of the input batch to whole runs: what the iteration
/// does next is fixed by the nets alone.
pub proof fn lemma_generation_reads_nets(c1: Collection, c2: Collection, n1: Collection, n2: Collection)
    requires
        forall|v: Value| #[trigger] c1.mult(v) == c2.mult(v),
        life_generation(c1, n1),
        life_generation(c2, n2),
    ensures
        forall|v: Value| #[trigger] n1.mult(v) == n2.mult(v),
{
    assert forall|u: Value| sum_of(c1.records@, u) == sum_of(c2.records@, u) by {
        assert(c1.mult(u) == c2.mult(u));
    }
    assert forall|v: Value| #[trigger] n1.mult(v) == n2.mult(v) by {
        assert(n1.mult(v) == life_next_mult(c1.records@, v));
        assert(n2.mult(v) == life_next_mult(c2.records@, v));
    }
}

/// A chain of rounds certified by a step that always answers with the
/// rule's difference batch is a chain of generations of the rule.
proof fn lemma_chain_generations<F: Fn(&Collection) -> Result<Vec<Record>, EngineError>>(
    step: F,
    from: Collection,
    to: Collection,
    k: nat,
)
    requires
        forall|cr: &Collection, d: Vec<Record>|
            #[trigger] call_ensures(step, (cr,), Ok(d)) ==> delta_ok(*cr, d),
        reaches(step, from, to, k),
    ensures
        life_reaches(from, to, k),
    decreases k,
{
    if k != 0 {
        let mid = choose|mid: Collection|
            #[trigger] certified_round(step, mid, to) && reaches(step, from, mid, (k - 1) as nat);
        lemma_chain_generations(step, from, mid, (k - 1) as nat);
        let (cr, d) = choose|cr: &Collection, d: Vec<Record>|
            {
                &&& *cr == mid
                &&& #[trigger] call_ensures(step, (cr,), Ok(d))
                &&& !net_zero(d@)
                &&& to.wf()
                &&& forall|v: Value| #[trigger] to.mult(v) == mid.mult(v) + sum_of(d@, v)
            };
        assert(delta_ok(*cr, d));
        assert forall|v: Value| to.mult(v) == life_next_mult(mid.records@, v) by {
            assert(sum_of(d@, v) == life_next_mult(mid.records@, v) - sum_of(mid.records@, v));
        }
        assert(life_generation(mid, to));
        assert(life_reaches(from, to, k));
    }
}

/// Runs the Game-of-Life dataflow to its fixed point: starting from the
/// seeded live cells, each round replaces the generation with its
/// successor until a generation equals its own successor. The collection
/// handed back is therefore a verified still life: applying the rule to it
/// changes nothing, and it is a generation the rule itself produces from
/// the seed within the round cap. The round cap forces an answer: the
/// convergence guard fires exactly when the seed's first `cap` generations
/// never settle. A seed that is already a plain, reasonably sized still
/// life comes back unchanged with no additional records.
pub fn run_game_of_life(seed: Collection, cap: u64) -> (r: Result<Collection, EngineError>)
    requires
        seed.wf(),
    ensures
        (r matches Ok(out) ==> out.wf() && forall|v: Value| #[trigger] out.mult(v)
            == life_next_mult(out.records@, v)),
        (r matches Ok(out) ==> generations_within(seed, out, cap)),
        (r matches Err(e) ==> e == EngineError::NonConvergence || e == EngineError::Overflow || e
            == EngineError::TypeMismatch),
        (r matches Err(e) && e == EngineError::NonConvergence ==> generations_exhausted(
            seed,
            cap,
        )),
        (cells_ok(seed.records@) && all_unit(seed.records@) && seed.records@.len()
            <= 0x0800_0000_0000_0000 && (forall|v: Value| #[trigger] life_next_mult(
            seed.records@,
            v,
        ) == seed.mult(v))) ==> (r matches Ok(out) && out == seed),
{
    let step = |c: &Collection| -> (r2: Result<Vec<Record>, EngineError>)
        requires
            c.wf(),
        ensures
            (r2 is Ok ==> delta_ok(*c, r2->Ok_0)),
            (r2 is Err ==> r2->Err_0 == EngineError::TypeMismatch || r2->Err_0
                == EngineError::Overflow),
            (cells_ok(c.records@) && all_unit(c.records@) && c.records@.len()
                <= 0x0800_0000_0000_0000) ==> r2 is Ok,
        { life_delta(c) };
    let ghost good_seed = cells_ok(seed.records@) && all_unit(seed.records@) && seed.records@.len()
        <= 0x0800_0000_0000_0000 && (forall|v: Value| #[trigger] life_next_mult(seed.records@, v)
        == seed.mult(v));
    proof {
        if good_seed {
            assert forall|cr: &Collection, r2: Result<Vec<Record>, EngineError>|
                *cr == seed && #[trigger] call_ensures(step, (cr,), r2) implies (r2 matches Ok(d)
                && net_zero(d@)) by {
                assert(r2 is Ok);
            }
            assert(always_converges_on(step, seed));
        }
    }
    proof {
        assert(forall|cr: &Collection, d: Vec<Record>|
            #[trigger] call_ensures(step, (cr,), Ok(d)) ==> delta_ok(*cr, d));
    }
    let res = iterate(seed, cap, step);
    match res {
        Ok(out) => {
            proof {
                assert(reached_within(step, seed, out, cap));
                let k = choose|k: nat| k <= cap && #[trigger] reaches(step, seed, out, k);
                lemma_chain_generations(step, seed, out, k);
                assert(generations_within(seed, out, cap));
                assert(converged_under(step, out));
                let (cr, d) = choose|cr: &Collection, d: Vec<Record>|
                    *cr == out && #[trigger] call_ensures(step, (cr,), Ok(d)) && net_zero(d@);
                assert((*cr).records@ == out.records@);
                assert(call_ensures(step, (cr,), Ok::<Vec<Record>, EngineError>(d)));
                assert(delta_ok(*cr, d));
                assert forall|v: Value| out.mult(v) == life_next_mult(out.records@, v) by {
                    assert(sum_of(d@, v) == 0);
                }
            }
            Ok(out)
        },
        Err(e) => {
            proof {
                if !(e == EngineError::NonConvergence || e == EngineError::Overflow) {
                    let cr = choose|cr: &Collection| #[trigger] call_ensures(step, (cr,), Err(e));
                    assert(e == EngineError::TypeMismatch || e == EngineError::Overflow);
                }
                if e == EngineError::NonConvergence {
                    if exists|cr: &Collection| #[trigger] call_ensures(step, (cr,), Err(e)) {
                        let cr = choose|cr: &Collection|
                            #[trigger] call_ensures(step, (cr,), Err(e));
                        assert(false);
                    }
                    let mid = choose|mid: Collection|
                        #[trigger] reaches(step, seed, mid, cap as nat) && still_changing(
                            step,
                            mid,
                        );
                    lemma_chain_generations(step, seed, mid, cap as nat);
                    let (cr, d) = choose|cr: &Collection, d: Vec<Record>|
                        *cr == mid && #[trigger] call_ensures(step, (cr,), Ok(d)) && !net_zero(d@);
                    assert(delta_ok(*cr, d));
                    let v0 = choose|v: Value| sum_of(d@, v) != 0;
                    assert(life_next_mult(mid.records@, v0) != mid.mult(v0));
                    assert(evolving(mid));
                    assert(generations_exhausted(seed, cap));
                }
            }
            Err(e)
        },
    }
}

} // verus!
