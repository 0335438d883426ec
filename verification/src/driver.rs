use vstd::prelude::*;

use crate::collection::{accumulate, fits, fold_records, sum_of, Collection, Record};
use crate::errors::EngineError;
use crate::fixpoint::{
    always_converges_on, converged_under, iterate, reached_within, reaches, round_overflows,
    still_changing,
};
use crate::value::Value;

verus! {

/// One output difference: a value, the logical time it changed at, and the
/// net change of its multiplicity.
#[derive(Clone, Copy, Debug, PartialEq, Eq, Structural)]
pub struct OutputEntry {
    pub value: Value,
    pub time: u64,
    pub diff: i64,
}

/// Times never decrease along a batch of output entries.
pub open spec fn log_ordered(s: Seq<OutputEntry>) -> bool {
    forall|i: int, j: int| 0 <= i <= j < s.len() ==> s[i].time <= s[j].time
}

/// The net change a batch of output entries reports for `v`.
pub open spec fn log_net(s: Seq<OutputEntry>, v: Value) -> int
    decreases s.len(),
{
    if s.len() == 0 {
        0
    } else {
        log_net(s.drop_last(), v) + if s.last().value == v {
            s.last().diff as int
        } else {
            0
        }
    }
}

proof fn lemma_log_net_matches(es: Seq<OutputEntry>, rs: Seq<Record>, v: Value)
    requires
        es.len() == rs.len(),
        forall|k: int|
            0 <= k < rs.len() ==> #[trigger] es[k].value == rs[k].value && es[k].diff
                == rs[k].multiplicity,
    ensures
        log_net(es, v) == sum_of(rs, v),
    decreases rs.len(),
{
    if rs.len() > 0 {
        lemma_log_net_matches(es.drop_last(), rs.drop_last(), v);
    }
}

/// Every collection carrying the nets of `input` plus `pending` is one the
/// step can only answer with a batch of no net effect: the flushed input
/// is already converged.
pub open spec fn settles_input<F: Fn(&Collection) -> Result<Vec<Record>, EngineError>>(
    step: F,
    input: Collection,
    pending: Seq<Record>,
) -> bool {
    forall|c: Collection|
        (c.wf() && forall|v: Value| c.mult(v) == input.mult(v) + sum_of(pending, v))
            ==> #[trigger] always_converges_on(step, c)
}

/// Nothing stands in a flush's way: the pending batch fits the input, the
/// step settles the flushed input, no stored output multiplicity resists
/// negation, and the output difference stays representable.
pub open spec fn flush_unobstructed<F: Fn(&Collection) -> Result<Vec<Record>, EngineError>>(
    step: F,
    d: Driver,
) -> bool {
    &&& fits(d.input.records@, d.pending@)
    &&& settles_input(step, d.input, d.pending@)
    &&& (forall|k: int|
        0 <= k < d.output.records@.len() ==> #[trigger] d.output.records@[k].multiplicity
            != i64::MIN)
    &&& (forall|v: Value|
        i64::MIN <= #[trigger] d.input.mult(v) + sum_of(d.pending@, v) - d.output.mult(v)
            <= i64::MAX)
}

/// The converged output `out` was reached, within the cap, from a
/// collection carrying exactly the flushed input's nets.
pub open spec fn flush_reached<F: Fn(&Collection) -> Result<Vec<Record>, EngineError>>(
    step: F,
    d: Driver,
    out: Collection,
    cap: u64,
) -> bool {
    exists|c0: Collection|
        {
            &&& #[trigger] reached_within(step, c0, out, cap)
            &&& c0.wf()
            &&& forall|v: Value| c0.mult(v) == d.input.mult(v) + sum_of(d.pending@, v)
        }
}

/// A collection carrying the flushed input's nets ran the whole round cap
/// in certified changing rounds and the step still reports change.
pub open spec fn flush_cap_exhausted<F: Fn(&Collection) -> Result<Vec<Record>, EngineError>>(
    step: F,
    d: Driver,
    cap: u64,
) -> bool {
    exists|c0: Collection, mid: Collection|
        {
            &&& c0.wf()
            &&& (forall|v: Value| c0.mult(v) == d.input.mult(v) + sum_of(d.pending@, v))
            &&& #[trigger] reaches(step, c0, mid, cap as nat)
            &&& still_changing(step, mid)
        }
}

/// What can make a flush overflow: the pending batch does not fit the
/// input, a stored output multiplicity cannot be negated, a certified
/// round along the iteration cannot be accumulated, the step itself
/// reported an overflow, or a certified converged output differs from the
/// previous output by more than a machine multiplicity.
pub open spec fn flush_overflow<F: Fn(&Collection) -> Result<Vec<Record>, EngineError>>(
    step: F,
    d: Driver,
    cap: u64,
) -> bool {
    ||| !fits(d.input.records@, d.pending@)
    ||| (exists|k: int|
        0 <= k < d.output.records@.len() && #[trigger] d.output.records@[k].multiplicity
            == i64::MIN)
    ||| (exists|c0: Collection, mid: Collection|
        {
            &&& c0.wf()
            &&& (forall|v: Value| c0.mult(v) == d.input.mult(v) + sum_of(d.pending@, v))
            &&& #[trigger] reached_within(step, c0, mid, cap)
            &&& round_overflows(step, mid)
        })
    ||| (exists|cr: &Collection|
        #[trigger] call_ensures(step, (cr,), Err(EngineError::Overflow)))
    ||| (exists|out: Collection|
        #[trigger] converged_under(step, out) && !(forall|v: Value|
            i64::MIN <= #[trigger] out.mult(v) - d.output.mult(v) <= i64::MAX))
}

/// The Driver: owns the external input handle, advances logical time
/// monotonically, folds injected records into the input collection, drains
/// the Fixed-Point Iterator to convergence, and surfaces the resulting
/// differences as a time-stamped output stream.
pub struct Driver {
    /// The current logical time; it never decreases.
    pub time: u64,
    /// Records injected since the last flush, not yet visible.
    pub pending: Vec<Record>,
    /// The accumulated external input.
    pub input: Collection,
    /// The converged output of the last flush.
    pub output: Collection,
    /// Every output difference surfaced so far, in time order.
    pub log: Vec<OutputEntry>,
    /// The time the last flush completed at; work up to here is done.
    pub completed: u64,
}

impl Driver {
    pub open spec fn wf(self) -> bool {
        &&& self.input.wf()
        &&& self.output.wf()
        &&& log_ordered(self.log@)
        &&& (forall|k: int|
            0 <= k < self.log@.len() ==> #[trigger] self.log@[k].time <= self.completed)
        &&& self.completed <= self.time
    }

    /// A fresh driver at logical time zero with no data anywhere.
    pub fn new() -> (d: Driver)
        ensures
            d.wf(),
            d.time == 0,
            d.pending@.len() == 0,
            d.input.records@.len() == 0,
            d.output.records@.len() == 0,
            d.log@.len() == 0,
            d.completed == 0,
    {
        Driver {
            time: 0,
            pending: Vec::new(),
            input: Collection::empty(),
            output: Collection::empty(),
            log: Vec::new(),
            completed: 0,
        }
    }

    /// Injects one copy of a value. The record becomes visible, stamped
    /// with the then-current time, at the next flush that drains it.
    pub fn insert(&mut self, v: Value)
        ensures
            final(self).pending@ == old(self).pending@.push(
                Record { value: v, multiplicity: 1 },
            ),
            final(self).time == old(self).time,
            final(self).input == old(self).input,
            final(self).output == old(self).output,
            final(self).log == old(self).log,
            final(self).completed == old(self).completed,
    {
        self.pending.push(Record { value: v, multiplicity: 1 });
    }

    /// Retracts one copy of a value. The record becomes visible, stamped
    /// with the then-current time, at the next flush that drains it.
    pub fn remove(&mut self, v: Value)
        ensures
            final(self).pending@ == old(self).pending@.push(
                Record { value: v, multiplicity: (-1) as i64 },
            ),
            final(self).time == old(self).time,
            final(self).input == old(self).input,
            final(self).output == old(self).output,
            final(self).log == old(self).log,
            final(self).completed == old(self).completed,
    {
        self.pending.push(Record { value: v, multiplicity: -1 });
    }

    /// Moves logical time forward. Time travel is refused: a target before
    /// the current time leaves everything unchanged and reports the
    /// regression. Records still pending straddle the advance: they take
    /// effect, stamped with the new time, at the flush that drains them.
    pub fn advance_to(&mut self, t: u64) -> (r: Result<(), EngineError>)
        ensures
            t >= old(self).time ==> r is Ok && final(self).time == t && final(self).pending
                == old(self).pending && final(self).input == old(self).input && final(self).output
                == old(self).output && final(self).log == old(self).log && final(self).completed
                == old(self).completed,
            t < old(self).time ==> r == Result::<(), EngineError>::Err(
                EngineError::NonMonotonicTime,
            ) && *final(self) == *old(self),
    {
        if t < self.time {
            Err(EngineError::NonMonotonicTime)
        } else {
            self.time = t;
            Ok(())
        }
    }

    /// Flushes the pending records into the input, drains the fixed-point
    /// iteration of the step over the new input to convergence, and logs
    /// every change of the output against the previous flush, stamped with
    /// the current time. On any failure the driver is left exactly as it
    /// was: no record is silently dropped.
    pub fn flush<F: Fn(&Collection) -> Result<Vec<Record>, EngineError>>(
        &mut self,
        cap: u64,
        step: F,
    ) -> (r: Result<(), EngineError>)
        requires
            old(self).wf(),
            forall|c: &Collection| c.wf() ==> #[trigger] call_requires(step, (c,)),
        ensures
            match r {
                Ok(()) => {
                    &&& final(self).wf()
                    &&& final(self).time == old(self).time
                    &&& final(self).completed == old(self).time
                    &&& final(self).pending@.len() == 0
                    &&& forall|v: Value| #[trigger] final(self).input.mult(v)
                        == old(self).input.mult(v) + sum_of(old(self).pending@, v)
                    &&& converged_under(step, final(self).output)
                    &&& final(self).log@.len() >= old(self).log@.len()
                    &&& final(self).log@.take(old(self).log@.len() as int) == old(self).log@
                    &&& forall|k: int|
                        old(self).log@.len() <= k < final(self).log@.len()
                            ==> #[trigger] final(self).log@[k].time == old(self).time
                            && final(self).log@[k].diff != 0
                    &&& forall|v: Value| #[trigger] log_net(
                        final(self).log@.skip(old(self).log@.len() as int),
                        v,
                    ) == final(self).output.mult(v) - old(self).output.mult(v)
                    &&& flush_reached(step, *old(self), final(self).output, cap)
                },
                Err(e) => {
                    &&& *final(self) == *old(self)
                    &&& (e == EngineError::NonConvergence || e == EngineError::Overflow || (
                    exists|cr: &Collection| #[trigger] call_ensures(step, (cr,), Err(e))))
                    &&& (e == EngineError::NonConvergence ==> flush_cap_exhausted(
                        step,
                        *old(self),
                        cap,
                    ) || (exists|cr: &Collection| #[trigger] call_ensures(step, (cr,), Err(e))))
                    &&& (e == EngineError::Overflow ==> flush_overflow(step, *old(self), cap))
                },
            },
            (flush_unobstructed(step, *old(self)) ==> r is Ok),
    {
        let new_input = match accumulate(&self.input, &self.pending) {
            Ok(c) => c,
            Err(e) => {
                proof {
                    assert(!fits(self.input.records@, self.pending@));
                    assert(flush_overflow(step, *self, cap));
                }
                return Err(e);
            },
        };
        let dup = new_input.duplicate();
        proof {
            assert(dup.wf());
            assert forall|v: Value| #[trigger] dup.mult(v) == self.input.mult(v) + sum_of(
                self.pending@,
                v,
            ) by {
                assert(sum_of(dup.records@, v) == sum_of(new_input.records@, v));
                assert(new_input.mult(v) == self.input.mult(v) + sum_of(self.pending@, v));
            }
            if flush_unobstructed(step, *self) {
                assert(always_converges_on(step, dup));
            }
        }
        let new_output = match iterate(dup, cap, step) {
            Ok(c) => c,
            Err(e) => {
                proof {
                    if e == EngineError::NonConvergence && !(exists|cr: &Collection|
                        #[trigger] call_ensures(step, (cr,), Err(e))) {
                        let mid = choose|mid: Collection|
                            #[trigger] reaches(step, dup, mid, cap as nat) && still_changing(
                                step,
                                mid,
                            );
                        assert(flush_cap_exhausted(step, *self, cap));
                    }
                    if e == EngineError::Overflow {
                        if exists|cr: &Collection|
                            #[trigger] call_ensures(step, (cr,), Err(EngineError::Overflow)) {
                            assert(flush_overflow(step, *self, cap));
                        } else {
                            let mid = choose|mid: Collection|
                                #[trigger] reached_within(step, dup, mid, cap) && round_overflows(
                                    step,
                                    mid,
                                );
                            assert(flush_overflow(step, *self, cap));
                        }
                    }
                    if flush_unobstructed(step, *self) {
                        assert(false);
                    }
                }
                return Err(e);
            },
        };
        let flipped = match crate::ops::negate(&self.output) {
            Ok(c) => c,
            Err(e) => {
                proof {
                    assert(flush_overflow(step, *self, cap));
                    if flush_unobstructed(step, *self) {
                        assert(false);
                    }
                }
                return Err(e);
            },
        };
        let mut raw = new_output.duplicate().records;
        let mut f = flipped.records;
        let ghost rawview = raw@;
        let ghost fview = f@;
        raw.append(&mut f);
        proof {
            assert(raw@ =~= rawview + fview);
            assert forall|v: Value| #[trigger] sum_of(raw@, v) == new_output.mult(v)
                - self.output.mult(v) by {
                crate::collection::lemma_sum_of_concat(rawview, fview, v);
                assert(sum_of(rawview, v) == new_output.mult(v));
                assert(sum_of(fview, v) == flipped.mult(v));
                assert(flipped.mult(v) == -self.output.mult(v));
            }
        }
        let changes = match fold_records(&raw) {
            Ok(c) => c,
            Err(e) => {
                proof {
                    assert(converged_under(step, new_output));
                    let v0 = choose|v: Value|
                        #![trigger sum_of(raw@, v)]
                        !(i64::MIN <= sum_of(Seq::<Record>::empty(), v) + sum_of(raw@, v)
                            <= i64::MAX);
                    assert(!(i64::MIN <= new_output.mult(v0) - self.output.mult(v0) <= i64::MAX));
                    assert(flush_overflow(step, *self, cap));
                    if flush_unobstructed(step, *self) {
                        assert(new_output == dup);
                        assert(i64::MIN <= self.input.mult(v0) + sum_of(self.pending@, v0)
                            - self.output.mult(v0) <= i64::MAX);
                        assert(false);
                    }
                }
                return Err(e);
            },
        };
        proof {
            assert forall|v: Value| #[trigger] changes.mult(v) == new_output.mult(v)
                - self.output.mult(v) by {
                assert(changes.mult(v) == sum_of(raw@, v));
            }
            assert(reached_within(step, dup, new_output, cap));
            assert(flush_reached(step, *self, new_output, cap));
        }
        let ghost oldlog = self.log@;
        let n = changes.records.len();
        let mut k: usize = 0;
        while k < n
            invariant
                changes.wf(),
                n == changes.records@.len(),
                k <= n,
                self.log@.len() == oldlog.len() + k,
                self.log@.take(oldlog.len() as int) == oldlog,
                forall|t: int|
                    oldlog.len() <= t < self.log@.len() ==> #[trigger] self.log@[t].time
                        == self.time && self.log@[t].diff != 0,
                forall|t: int|
                    0 <= t < k ==> #[trigger] self.log@[oldlog.len() + t].value
                        == changes.records@[t].value && self.log@[oldlog.len() + t].diff
                        == changes.records@[t].multiplicity,
                self.time == old(self).time,
                self.pending@ == old(self).pending@,
                self.input == old(self).input,
                self.output == old(self).output,
                self.completed == old(self).completed,
            decreases n - k,
        {
            let rec = changes.records[k];
            self.log.push(OutputEntry { value: rec.value, time: self.time, diff: rec.multiplicity });
            proof {
                assert(self.log@.take(oldlog.len() as int) =~= oldlog);
            }
            k += 1;
        }
        proof {
            let appended = self.log@.skip(oldlog.len() as int);
            assert(appended.len() == changes.records@.len());
            assert forall|t: int|
                0 <= t < changes.records@.len() implies #[trigger] appended[t].value
                    == changes.records@[t].value && appended[t].diff
                    == changes.records@[t].multiplicity by {
                assert(appended[t] == self.log@[oldlog.len() + t]);
            }
            assert forall|v: Value| #[trigger] log_net(
                self.log@.skip(oldlog.len() as int),
                v,
            ) == new_output.mult(v) - self.output.mult(v) by {
                lemma_log_net_matches(appended, changes.records@, v);
                assert(log_net(appended, v) == sum_of(changes.records@, v));
                assert(changes.mult(v) == new_output.mult(v) - self.output.mult(v));
            }
            assert(log_ordered(oldlog) && self.completed <= self.time);
            assert forall|i: int, j: int|
                0 <= i <= j < self.log@.len() implies self.log@[i].time <= self.log@[j].time by {
                if i < oldlog.len() {
                    assert(self.log@[i] == self.log@.take(oldlog.len() as int)[i]);
                    assert(self.log@[i].time <= self.completed);
                }
                if j < oldlog.len() {
                    assert(self.log@[j] == self.log@.take(oldlog.len() as int)[j]);
                }
            }
            assert forall|t: int|
                0 <= t < self.log@.len() implies #[trigger] self.log@[t].time <= self.time by {
                if t < oldlog.len() {
                    assert(self.log@[t] == self.log@.take(oldlog.len() as int)[t]);
                    assert(self.log@[t].time <= self.completed);
                }
            }
        }
        self.pending = Vec::new();
        self.input = new_input;
        self.output = new_output;
        self.completed = self.time;
        Ok(())
    }

    /// The progress probe: reports whether every record injected so far
    /// has been drained by a flush covering the queried time.
    pub fn probe(&self, t: u64) -> (b: bool)
        ensures
            b == (self.pending@.len() == 0 && t <= self.completed),
    {
        self.pending.len() == 0 && t <= self.completed
    }
}

} // verus!
