use vstd::prelude::*;

verus! {

/// Equilibration rescales the velocities every this many steps.
pub const EQ_RESCALE_EVERY: usize = 50;

/// A heating production run rescales the velocities every this many steps.
pub const PROD_RESCALE_EVERY: usize = 50;

/// What the run loop does after the integrator step numbered `step`.
#[derive(Clone, Copy, Debug, PartialEq, Eq, Structural)]
pub struct StepActions {
    /// Rescale the velocities to the thermostat target, then recompute the
    /// accelerations.
    pub rescale: bool,
    /// Record a trajectory frame.
    pub sample: bool,
}

/// Step `step` of a run falls on a multiple of `every`.
pub open spec fn on_multiple(step: int, every: int) -> bool {
    step % every == 0
}

/// The equilibration steps run from 1 to `eq_steps`; every 50th rescales to
/// the target temperature, and none is recorded.
pub fn equilibration_actions(step: usize) -> (a: StepActions)
    ensures
        a.rescale == on_multiple(step as int, EQ_RESCALE_EVERY as int),
        !a.sample,
        a.rescale == (step % 50 == 0),
{
    StepActions { rescale: step % EQ_RESCALE_EVERY == 0, sample: false }
}

/// The production steps run from 1 to `steps`. With a temperature ramp every
/// 50th step rescales to the ramp's target; without one the thermostat is
/// off. Every `sample_every`-th step records a frame.
pub fn production_actions(step: usize, sample_every: usize, ramping: bool) -> (a: StepActions)
    requires
        sample_every > 0,
    ensures
        a.rescale == (ramping && on_multiple(step as int, PROD_RESCALE_EVERY as int)),
        a.sample == on_multiple(step as int, sample_every as int),
        a.rescale == (ramping && step % 50 == 0),
        a.sample == (step % sample_every == 0),
{
    StepActions {
        rescale: ramping && step % PROD_RESCALE_EVERY == 0,
        sample: step % sample_every == 0,
    }
}

/// The actions after equilibration step `step`.
pub open spec fn equilibration_step(step: int) -> StepActions {
    StepActions { rescale: on_multiple(step, EQ_RESCALE_EVERY as int), sample: false }
}

/// The actions after production step `step`.
pub open spec fn production_step(step: int, sample_every: int, ramping: bool) -> StepActions {
    StepActions {
        rescale: ramping && on_multiple(step, PROD_RESCALE_EVERY as int),
        sample: on_multiple(step, sample_every),
    }
}

/// The actions of equilibration steps `1..=eq_steps`, in order.
pub open spec fn equilibration_plan(eq_steps: nat) -> Seq<StepActions> {
    Seq::new(eq_steps, |k: int| equilibration_step(k + 1))
}

/// The actions of production steps `1..=steps`, in order.
pub open spec fn production_plan(steps: nat, sample_every: int, ramping: bool) -> Seq<StepActions> {
    Seq::new(steps, |k: int| production_step(k + 1, sample_every, ramping))
}

/// The actions of an equilibration of `eq_steps` steps: entry `k` belongs to
/// step `k + 1`, so the steps run from 1 to `eq_steps`.
pub fn equilibration_schedule(eq_steps: usize) -> (acts: Vec<StepActions>)
    ensures
        acts@.len() == eq_steps,
        forall|k: int| 0 <= k < eq_steps ==> #[trigger] acts@[k] == equilibration_step(k + 1),
        acts@ == equilibration_plan(eq_steps as nat),
        forall|k: int|
            0 <= k < eq_steps ==> (#[trigger] acts@[k]).rescale == ((k + 1) % 50 == 0) && !acts@[k].sample,
{
    let mut acts: Vec<StepActions> = Vec::new();
    let mut done: usize = 0;
    while done < eq_steps
        invariant
            0 <= done <= eq_steps,
            acts@.len() == done,
            forall|k: int| 0 <= k < done ==> #[trigger] acts@[k] == equilibration_step(k + 1),
        decreases eq_steps - done,
    {
        acts.push(equilibration_actions(done + 1));
        done = done + 1;
    }
    proof {
        assert(acts@ =~= equilibration_plan(eq_steps as nat));
    }
    acts
}

/// The actions of a production run of `steps` steps: entry `k` belongs to
/// step `k + 1`, so the steps run from 1 to `steps` and step 0, the state
/// left by equilibration, is never recorded.
pub fn production_schedule(steps: usize, sample_every: usize, ramping: bool) -> (acts: Vec<StepActions>)
    requires
        steps > 0 ==> sample_every > 0,
    ensures
        acts@.len() == steps,
        forall|k: int|
            0 <= k < steps ==> #[trigger] acts@[k] == production_step(k + 1, sample_every as int, ramping),
        acts@ == production_plan(steps as nat, sample_every as int, ramping),
        forall|k: int|
            0 <= k < steps ==> (#[trigger] acts@[k]).rescale == (ramping && (k + 1) % 50 == 0)
                && acts@[k].sample == ((k + 1) % (sample_every as int) == 0),
{
    let mut acts: Vec<StepActions> = Vec::new();
    let mut done: usize = 0;
    while done < steps
        invariant
            0 <= done <= steps,
            steps > 0 ==> sample_every > 0,
            acts@.len() == done,
            forall|k: int|
                0 <= k < done ==> #[trigger] acts@[k] == production_step(k + 1, sample_every as int, ramping),
        decreases steps - done,
    {
        acts.push(production_actions(done + 1, sample_every, ramping));
        done = done + 1;
    }
    proof {
        assert(acts@ =~= production_plan(steps as nat, sample_every as int, ramping));
    }
    acts
}

/// How many of the steps `1..=steps` fall on a multiple of `every`.
pub open spec fn count_multiples(steps: nat, every: nat) -> nat
    decreases steps,
{
    if steps == 0 {
        0
    } else {
        count_multiples((steps - 1) as nat, every) + if on_multiple(steps as int, every as int) {
            1nat
        } else {
            0nat
        }
    }
}

/// A run of `steps` steps acts on every `every`-th step exactly
/// `steps / every` times, the last step included when it is a multiple and
/// step 0 never: a production run records `steps / sample_every` frames, and
/// equilibration rescales `eq_steps / 50` times.
pub proof fn law_actions_per_run(steps: nat, every: nat)
    requires
        every > 0,
    ensures
        count_multiples(steps, every) == steps / every,
    decreases steps,
{
    if steps == 0 {
        assert(0nat / every == 0) by (nonlinear_arith)
            requires
                every > 0,
        ;
    } else {
        law_actions_per_run((steps - 1) as nat, every);
        let s = steps as int;
        let e = every as int;
        let q = (s - 1) / e;
        let r = (s - 1) % e;
        vstd::arithmetic::div_mod::lemma_fundamental_div_mod(s - 1, e);
        vstd::arithmetic::div_mod::lemma_mod_bound(s - 1, e);
        if r + 1 < e {
            vstd::arithmetic::div_mod::lemma_fundamental_div_mod_converse(s, e, q, r + 1);
        } else {
            assert(s == (q + 1) * e + 0) by (nonlinear_arith)
                requires
                    s - 1 == e * q + r,
                    r + 1 == e,
            ;
            vstd::arithmetic::div_mod::lemma_fundamental_div_mod_converse(s, e, q + 1, 0);
        }
    }
}

/// How many of `acts` record a frame.
pub open spec fn count_samples(acts: Seq<StepActions>) -> nat
    decreases acts.len(),
{
    if acts.len() == 0 {
        0
    } else {
        count_samples(acts.drop_last()) + if acts.last().sample {
            1nat
        } else {
            0nat
        }
    }
}

/// How many of `acts` rescale the velocities.
pub open spec fn count_rescales(acts: Seq<StepActions>) -> nat
    decreases acts.len(),
{
    if acts.len() == 0 {
        0
    } else {
        count_rescales(acts.drop_last()) + if acts.last().rescale {
            1nat
        } else {
            0nat
        }
    }
}

proof fn lemma_production_samples(steps: nat, every: nat, ramping: bool)
    ensures
        count_samples(production_plan(steps, every as int, ramping)) == count_multiples(steps, every),
    decreases steps,
{
    if steps > 0 {
        lemma_production_samples((steps - 1) as nat, every, ramping);
        assert(production_plan(steps, every as int, ramping).drop_last() =~= production_plan(
            (steps - 1) as nat,
            every as int,
            ramping,
        ));
    }
}

proof fn lemma_equilibration_rescales(eq_steps: nat)
    ensures
        count_rescales(equilibration_plan(eq_steps)) == count_multiples(eq_steps, EQ_RESCALE_EVERY as nat),
    decreases eq_steps,
{
    if eq_steps > 0 {
        lemma_equilibration_rescales((eq_steps - 1) as nat);
        assert(equilibration_plan(eq_steps).drop_last() =~= equilibration_plan((eq_steps - 1) as nat));
    }
}

/// A production run of `steps` steps records exactly `steps / sample_every`
/// frames, at the multiples of `sample_every` from 1 to `steps`.
pub proof fn law_frames_per_production_run(steps: nat, sample_every: nat, ramping: bool)
    requires
        sample_every > 0,
    ensures
        count_samples(production_plan(steps, sample_every as int, ramping)) == steps / sample_every,
        forall|k: int|
            0 <= k < steps ==> (#[trigger] production_plan(steps, sample_every as int, ramping)[k]).sample
                == ((k + 1) % (sample_every as int) == 0),
{
    lemma_production_samples(steps, sample_every, ramping);
    law_actions_per_run(steps, sample_every);
}

/// An equilibration of `eq_steps` steps rescales exactly `eq_steps / 50`
/// times, the last step included when it is a multiple of 50, and records
/// nothing.
pub proof fn law_rescales_per_equilibration(eq_steps: nat)
    ensures
        count_rescales(equilibration_plan(eq_steps)) == eq_steps / (EQ_RESCALE_EVERY as nat),
        forall|k: int| 0 <= k < eq_steps ==> !(#[trigger] equilibration_plan(eq_steps)[k]).sample,
{
    lemma_equilibration_rescales(eq_steps);
    law_actions_per_run(eq_steps, EQ_RESCALE_EVERY as nat);
}

proof fn lemma_production_rescales(steps: nat, every: int, ramping: bool)
    ensures
        count_rescales(production_plan(steps, every, ramping)) == (if ramping {
            count_multiples(steps, 50)
        } else {
            0
        }),
    decreases steps,
{
    if steps > 0 {
        lemma_production_rescales((steps - 1) as nat, every, ramping);
        assert(production_plan(steps, every, ramping).drop_last() =~= production_plan(
            (steps - 1) as nat,
            every,
            ramping,
        ));
    }
}

/// With a temperature ramp, production step `s` rescales exactly when `s` is a
/// multiple of 50, whatever the sampling period, so a ramped run of `steps`
/// steps rescales `steps / 50` times; without a ramp it never rescales.
pub proof fn law_rescales_per_production_run(steps: nat, sample_every: int, ramping: bool)
    ensures
        forall|k: int|
            0 <= k < steps ==> (#[trigger] production_plan(steps, sample_every, ramping)[k]).rescale
                == (ramping && (k + 1) % 50 == 0),
        ramping ==> count_rescales(production_plan(steps, sample_every, ramping)) == steps / 50,
        !ramping ==> count_rescales(production_plan(steps, sample_every, ramping)) == 0,
{
    lemma_production_rescales(steps, sample_every, ramping);
    law_actions_per_run(steps, 50);
}

} // verus!
