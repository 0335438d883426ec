use vstd::prelude::*;

use crate::collection::{
    accumulate, fits, fold_records, lemma_sum_of_entry, net_zero, sum_of, Collection, Record,
};
use crate::errors::EngineError;
use crate::value::Value;

verus! {

/// The phases of the fixed-point state machine: freshly seeded, re-entering
/// rounds, or converged (terminal).
#[derive(Clone, Copy, Debug, PartialEq, Eq, Structural)]
pub enum Phase {
    Seeding,
    Rounding,
    Converged,
}

/// The Fixed-Point Iterator: a collection state threaded through numbered
/// rounds, with a defensive round cap. Each round accumulates a batch of
/// difference records into the state; the iterator converges on the first
/// round whose batch has no net effect.
pub struct Fixpoint {
    pub state: Collection,
    pub rounds: u64,
    pub cap: u64,
    pub phase: Phase,
}

impl Fixpoint {
    pub open spec fn wf(self) -> bool {
        self.state.wf()
    }

    /// Seeds the iterator with an external collection and a round cap.
    pub fn new(seed: Collection, cap: u64) -> (it: Fixpoint)
        requires
            seed.wf(),
        ensures
            it.wf(),
            it.state == seed,
            it.rounds == 0,
            it.cap == cap,
            it.phase == Phase::Seeding,
    {
        Fixpoint { state: seed, rounds: 0, cap, phase: Phase::Seeding }
    }

    /// One round: accumulate a batch of difference records against the
    /// current state. Returns `Ok(true)` and becomes terminal exactly when
    /// the batch nets to zero everywhere — no new or retracted records this
    /// round — leaving the state untouched; otherwise the state advances
    /// and the round count grows by one. A round that would pass the cap
    /// without converging is refused, and a batch whose accumulation would
    /// leave the representable multiplicity range changes nothing.
    pub fn apply_round(&mut self, delta: &Vec<Record>) -> (r: Result<bool, EngineError>)
        requires
            old(self).wf(),
            old(self).phase != (Phase::Converged),
        ensures
            match r {
                Ok(b) => {
                    &&& final(self).wf()
                    &&& b == net_zero(delta@)
                    &&& final(self).cap == old(self).cap
                    &&& (if b {
                        final(self).phase == Phase::Converged && final(self).state == old(
                            self,
                        ).state && final(self).rounds == old(self).rounds
                    } else {
                        final(self).phase == Phase::Rounding && final(self).rounds == old(
                            self,
                        ).rounds + 1 && old(self).rounds < old(self).cap && forall|v: Value|
                            #[trigger] final(self).state.mult(v) == old(self).state.mult(v)
                                + sum_of(delta@, v)
                    })
                },
                Err(e) => {
                    &&& final(self).state == old(self).state
                    &&& final(self).rounds == old(self).rounds
                    &&& final(self).cap == old(self).cap
                    &&& final(self).phase == old(self).phase
                    &&& (e == EngineError::NonConvergence || e == EngineError::Overflow)
                    &&& (e == EngineError::NonConvergence ==> !net_zero(delta@) && old(self).rounds
                        >= old(self).cap)
                    &&& (e == EngineError::Overflow ==> !fits(Seq::<Record>::empty(), delta@)
                        || !fits(old(self).state.records@, delta@))
                },
            },
    {
        let canon = match fold_records(delta) {
            Ok(c) => c,
            Err(e) => {
                return Err(e);
            },
        };
        if canon.is_empty() {
            proof {
                assert forall|v: Value| sum_of(delta@, v) == 0 by {
                    assert(canon.mult(v) == sum_of(delta@, v));
                }
            }
            self.phase = Phase::Converged;
            Ok(true)
        } else {
            proof {
                lemma_sum_of_entry(canon.records@, 0);
                assert(canon.mult(canon.records@[0].value) == sum_of(
                    delta@,
                    canon.records@[0].value,
                ));
                assert(sum_of(delta@, canon.records@[0].value) != 0);
            }
            if self.rounds >= self.cap {
                return Err(EngineError::NonConvergence);
            }
            let next = match accumulate(&self.state, delta) {
                Ok(c) => c,
                Err(e) => {
                    return Err(e);
                },
            };
            self.state = next;
            self.rounds = self.rounds + 1;
            self.phase = Phase::Rounding;
            Ok(false)
        }
    }
}

/// The step always reports an already-converged state: every answer it can
/// give for the collection `c` is a batch with no net effect.
pub open spec fn always_converges_on<F: Fn(&Collection) -> Result<
    Vec<Record>,
    EngineError,
>>(step: F, c: Collection) -> bool {
    forall|cr: &Collection, r2: Result<Vec<Record>, EngineError>|
        *cr == c && #[trigger] call_ensures(step, (cr,), r2) ==> (r2 matches Ok(d) && net_zero(d@))
}

/// A convergence certificate: the step actually answered the final state
/// `out` with a batch of no net effect.
pub open spec fn converged_under<F: Fn(&Collection) -> Result<Vec<Record>, EngineError>>(
    step: F,
    out: Collection,
) -> bool {
    exists|cr: &Collection, d: Vec<Record>|
        *cr == out && #[trigger] call_ensures(step, (cr,), Ok(d)) && net_zero(d@)
}

/// One changing round the step certified: on `c1` it answered the batch
/// `d`, `d` has some net effect, and `c2` carries exactly the nets of `c1`
/// plus `d`.
pub open spec fn certified_round<F: Fn(&Collection) -> Result<Vec<Record>, EngineError>>(
    step: F,
    c1: Collection,
    c2: Collection,
) -> bool {
    exists|cr: &Collection, d: Vec<Record>|
        {
            &&& *cr == c1
            &&& #[trigger] call_ensures(step, (cr,), Ok(d))
            &&& !net_zero(d@)
            &&& c2.wf()
            &&& forall|v: Value| #[trigger] c2.mult(v) == c1.mult(v) + sum_of(d@, v)
        }
}

/// `to` is reached from `from` by exactly `rounds` changing rounds the
/// step certified, in order. This is what ties the iterator's output to
/// its seed.
pub open spec fn reaches<F: Fn(&Collection) -> Result<Vec<Record>, EngineError>>(
    step: F,
    from: Collection,
    to: Collection,
    rounds: nat,
) -> bool
    decreases rounds,
{
    if rounds == 0 {
        to == from
    } else {
        exists|mid: Collection|
            #[trigger] certified_round(step, mid, to) && reaches(
                step,
                from,
                mid,
                (rounds - 1) as nat,
            )
    }
}

/// `to` is reached from `from` by some number of certified changing
/// rounds, at most `cap` of them.
pub open spec fn reached_within<F: Fn(&Collection) -> Result<Vec<Record>, EngineError>>(
    step: F,
    from: Collection,
    to: Collection,
    cap: u64,
) -> bool {
    exists|k: nat| k <= cap && #[trigger] reaches(step, from, to, k)
}

/// The step certified a batch with some net effect for `c`: the iteration
/// has not settled there.
pub open spec fn still_changing<F: Fn(&Collection) -> Result<Vec<Record>, EngineError>>(
    step: F,
    c: Collection,
) -> bool {
    exists|cr: &Collection, d: Vec<Record>|
        *cr == c && #[trigger] call_ensures(step, (cr,), Ok(d)) && !net_zero(d@)
}

/// The step certified for `c` a batch whose accumulation leaves the
/// representable multiplicity range.
pub open spec fn round_overflows<F: Fn(&Collection) -> Result<Vec<Record>, EngineError>>(
    step: F,
    c: Collection,
) -> bool {
    exists|cr: &Collection, d: Vec<Record>|
        *cr == c && #[trigger] call_ensures(step, (cr,), Ok(d)) && (!fits(Seq::<Record>::empty(), d@)
            || !fits(c.records@, d@))
}

/// Drains the Fixed-Point Iterator: repeatedly asks the step for the
/// difference batch of the current state and accumulates it, until a round
/// produces no net change. A success is reached from the seed by a chain
/// of certified rounds within the cap and comes with a convergence
/// certificate; a step that can only report convergence on the seed gets
/// the seed back unchanged with no additional records (idempotent
/// convergence). Every error is attributed: one the step itself returned,
/// the cap exhausted along a certified chain that still changes, or a
/// certified batch along such a chain that cannot be accumulated.
#[verifier::rlimit(50)]
pub fn iterate<F: Fn(&Collection) -> Result<Vec<Record>, EngineError>>(
    seed: Collection,
    cap: u64,
    step: F,
) -> (r: Result<Collection, EngineError>)
    requires
        seed.wf(),
        forall|c: &Collection| c.wf() ==> #[trigger] call_requires(step, (c,)),
    ensures
        (r matches Ok(out) ==> out.wf() && converged_under(step, out)),
        (r matches Ok(out) ==> reached_within(step, seed, out, cap)),
        (always_converges_on(step, seed) ==> (r matches Ok(out) && out == seed)),
        (r matches Err(e) ==> {
            ||| exists|cr: &Collection| #[trigger] call_ensures(step, (cr,), Err(e))
            ||| (e == EngineError::NonConvergence && (exists|mid: Collection|
                #[trigger] reaches(step, seed, mid, cap as nat) && still_changing(step, mid)))
            ||| (e == EngineError::Overflow && (exists|mid: Collection|
                #[trigger] reached_within(step, seed, mid, cap) && round_overflows(step, mid)))
        }),
{
    let mut it = Fixpoint::new(seed, cap);
    proof {
        assert(reaches(step, seed, it.state, 0));
    }
    loop
        invariant
            it.wf(),
            it.cap == cap,
            it.phase != (Phase::Converged),
            it.rounds <= cap,
            forall|c: &Collection| c.wf() ==> #[trigger] call_requires(step, (c,)),
            always_converges_on(step, seed) ==> it.state == seed,
            reaches(step, seed, it.state, it.rounds as nat),
        decreases cap - it.rounds,
    {
        let ghost pre = it.state;
        let ghost pre_rounds = it.rounds;
        let res = step(&it.state);
        let delta = match res {
            Ok(d) => d,
            Err(e) => {
                return Err(e);
            },
        };
        proof {
            assert(call_ensures(step, (&it.state,), Ok(delta)));
        }
        match it.apply_round(&delta) {
            Ok(true) => {
                let out = it.state;
                proof {
                    assert(reaches(step, seed, out, it.rounds as nat));
                    assert(converged_under(step, out));
                    assert(reached_within(step, seed, out, cap));
                }
                return Ok(out);
            },
            Ok(false) => {
                proof {
                    assert(certified_round(step, pre, it.state));
                    assert(it.rounds as nat == (pre_rounds + 1) as nat);
                    assert(reaches(step, seed, pre, ((it.rounds as nat) - 1) as nat));
                    assert(reaches(step, seed, it.state, it.rounds as nat));
                }
            },
            Err(e) => {
                proof {
                    if e == EngineError::NonConvergence {
                        assert(it.rounds == cap);
                        assert(reaches(step, seed, it.state, cap as nat));
                        assert(still_changing(step, it.state));
                    }
                    if e == EngineError::Overflow {
                        assert(reaches(step, seed, it.state, it.rounds as nat));
                        assert(reached_within(step, seed, it.state, cap));
                        assert(round_overflows(step, it.state));
                    }
                    if always_converges_on(step, seed) {
                        assert(call_ensures(step, (&it.state,), Ok(delta)));
                        assert(net_zero(delta@));
                        assert forall|v: Value|
                            i64::MIN <= #[trigger] sum_of(it.state.records@, v) + sum_of(delta@, v)
                                <= i64::MAX by {
                            crate::collection::lemma_wf_mult_bounded(it.state, v);
                        }
                        assert(fits(it.state.records@, delta@));
                        assert(false);
                    }
                }
                return Err(e);
            },
        }
    }
}

} // verus!
