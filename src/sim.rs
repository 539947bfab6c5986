//! The circuit: nets, components, and the relaxation solver that reconciles
//! them within one time step.
pub mod components;

use components::{
    LinearComponentState, LinearComponentValue, MOSFETComponentState, MOSFETComponentValue,
};
use vstd::prelude::*;

verus! {

/// Real arithmetic that the solver runs on (double precision in practice).
/// Every operation has a spec counterpart, and each call returns exactly what
/// its counterpart gives: the result depends on the arguments alone. Nothing
/// more is assumed of the values, so the solver's contracts say which
/// operations produce each voltage, current and verdict, for every
/// implementation.
pub trait Real: Copy {
    spec fn spec_from_int(n: i64) -> Self;

    spec fn spec_from_decimal(mantissa: i64, exp10: i32) -> Self;

    spec fn spec_plus(self, rhs: Self) -> Self;

    spec fn spec_minus(self, rhs: Self) -> Self;

    spec fn spec_times(self, rhs: Self) -> Self;

    spec fn spec_divided_by(self, rhs: Self) -> Self;

    spec fn spec_negated(self) -> Self;

    spec fn spec_abs(self) -> Self;

    spec fn spec_less_than(self, rhs: Self) -> bool;

    spec fn spec_at_most(self, rhs: Self) -> bool;

    spec fn spec_min(self, rhs: Self) -> Self;

    spec fn spec_sqrt(self) -> Self;

    spec fn spec_ln(self) -> Self;

    spec fn spec_exp(self) -> Self;

    spec fn spec_sin(self) -> Self;

    fn from_int(n: i64) -> (r: Self)
        ensures
            r == Self::spec_from_int(n),
    ;

    /// `mantissa * 10^exp10`, rounded as a decimal literal would be.
    fn from_decimal(mantissa: i64, exp10: i32) -> (r: Self)
        ensures
            r == Self::spec_from_decimal(mantissa, exp10),
    ;

    fn plus(self, rhs: Self) -> (r: Self)
        ensures
            r == self.spec_plus(rhs),
    ;

    fn minus(self, rhs: Self) -> (r: Self)
        ensures
            r == self.spec_minus(rhs),
    ;

    fn times(self, rhs: Self) -> (r: Self)
        ensures
            r == self.spec_times(rhs),
    ;

    fn divided_by(self, rhs: Self) -> (r: Self)
        ensures
            r == self.spec_divided_by(rhs),
    ;

    fn negated(self) -> (r: Self)
        ensures
            r == self.spec_negated(),
    ;

    fn abs(self) -> (r: Self)
        ensures
            r == self.spec_abs(),
    ;

    fn less_than(self, rhs: Self) -> (r: bool)
        ensures
            r == self.spec_less_than(rhs),
    ;

    fn at_most(self, rhs: Self) -> (r: bool)
        ensures
            r == self.spec_at_most(rhs),
    ;

    fn min(self, rhs: Self) -> (r: Self)
        ensures
            r == self.spec_min(rhs),
    ;

    fn sqrt(self) -> (r: Self)
        ensures
            r == self.spec_sqrt(),
    ;

    fn ln(self) -> (r: Self)
        ensures
            r == self.spec_ln(),
    ;

    fn exp(self) -> (r: Self)
        ensures
            r == self.spec_exp(),
    ;

    fn sin(self) -> (r: Self)
        ensures
            r == self.spec_sin(),
    ;
}

pub type HasConverged = bool;

/// Tolerance on a voltage or current update, `1e-12`, as mantissa and decimal
/// exponent.
pub const EPSILON_MANTISSA: i64 = 1;

pub const EPSILON_EXP10: i32 = -12;

/// Zero.
pub open spec fn zero<R: Real>() -> R {
    R::spec_from_int(0)
}

/// One half, `5e-1`.
pub open spec fn half<R: Real>() -> R {
    R::spec_from_decimal(5i64, -1i32)
}

/// `|prev - next| <= 1e-12`.
pub open spec fn spec_converged<R: Real>(prev: R, next: R) -> bool {
    prev.spec_minus(next).spec_abs().spec_at_most(R::spec_from_decimal(EPSILON_MANTISSA, EPSILON_EXP10))
}

fn converged<R: Real>(prev: R, next: R) -> (r: HasConverged)
    ensures
        r == spec_converged(prev, next),
{
    prev.minus(next).abs().at_most(R::from_decimal(EPSILON_MANTISSA, EPSILON_EXP10))
}

/// An equipotential junction, with the scratch state that components write
/// into during the solver's sub-phases.
#[derive(Clone)]
pub struct NetState<R> {
    /// `(component, terminal)` for every terminal bound to this net.
    pub components: Vec<(usize, usize)>,
    /// `= [I, d/dt I]`, where `I` is excess current being created or destroyed at the junction (should be zero).
    pub current: [R; 2],
    pub current_sources: usize,
    pub voltage: R,
    pub voltage_accumulator: R,
    pub voltage_accumulator_sources: usize,
}

/// How many of the terminals bound to nets `a` and `b` sit on net `n`.
pub open spec fn hits(a: int, b: int, n: int) -> nat {
    (if a == n {
        1nat
    } else {
        0nat
    }) + (if b == n {
        1nat
    } else {
        0nat
    })
}

/// `after` is `before` with one voltage vote cast on net `a` and one on net
/// `b`; nothing else changed.
pub open spec fn votes_cast<R: Real>(before: Seq<NetState<R>>, after: Seq<NetState<R>>, a: int, b: int) -> bool {
    &&& after.len() == before.len()
    &&& forall|n: int|
        #![trigger after[n]]
        0 <= n < before.len() ==> {
            &&& after[n].vote_count() == before[n].vote_count() + hits(a, b, n)
            &&& after[n].same_but_votes(before[n])
            &&& (hits(a, b, n) == 0 ==> after[n] == before[n])
        }
}

/// `after` is `before` with one current contribution added on net `a` and
/// one on net `b`; nothing else changed.
pub open spec fn currents_imparted<R: Real>(
    before: Seq<NetState<R>>,
    after: Seq<NetState<R>>,
    a: int,
    b: int,
) -> bool {
    &&& after.len() == before.len()
    &&& forall|n: int|
        #![trigger after[n]]
        0 <= n < before.len() ==> {
            &&& after[n].source_count() == before[n].source_count() + hits(a, b, n)
            &&& after[n].same_but_currents(before[n])
            &&& (hits(a, b, n) == 0 ==> after[n] == before[n])
        }
}

/// `nets` after a device votes for `target` across nets `a` and `b` (from `a`
/// to `b`) with damping `step`: each net is offered its own voltage moved by
/// `(target - (V(b) - V(a))) * step / 2`, toward the target.
pub open spec fn vote_pair<R: Real>(nets: Seq<NetState<R>>, a: int, b: int, target: R, step: R) -> Seq<NetState<R>> {
    let v_prev = nets[b].voltage.spec_minus(nets[a].voltage);
    let dv = target.spec_minus(v_prev).spec_times(half()).spec_times(step);
    let first = nets.update(a, nets[a].with_vote(nets[a].voltage.spec_minus(dv)));
    first.update(b, first[b].with_vote(first[b].voltage.spec_plus(dv)))
}

/// `nets` after a branch current `[i, di_dt]` flowing from net `a` to net `b`
/// is added to their imbalances.
pub open spec fn impart_pair<R: Real>(nets: Seq<NetState<R>>, a: int, b: int, i: R, di_dt: R) -> Seq<NetState<R>> {
    let first = nets.update(a, nets[a].with_contribution(true, i, di_dt));
    first.update(b, first[b].with_contribution(false, i, di_dt))
}

/// Entry `k` of a device's current target: its own value plus half the
/// difference of the imbalances at its `a` and `b` nets, so that the device
/// absorbs the excess flowing in and supplies the deficit flowing out.
pub open spec fn i_target<R: Real>(nets: Seq<NetState<R>>, a: int, b: int, own: R, k: int) -> R {
    own.spec_plus(half::<R>().spec_times(nets[a].current[k].spec_minus(nets[b].current[k])))
}

/// `a * (1 - t) + b * t`.
pub open spec fn spec_lerp<R: Real>(t: R, a: R, b: R) -> R {
    a.spec_times(R::spec_from_int(1).spec_minus(t)).spec_plus(b.spec_times(t))
}

impl<R: Real> NetState<R> {
    /// The `(component, terminal)` pairs bound to this net, in order of
    /// creation.
    pub open spec fn incidence(&self) -> Seq<(usize, usize)> {
        self.components@
    }

    /// Votes cast since the last application.
    pub open spec fn vote_count(&self) -> nat {
        self.voltage_accumulator_sources as nat
    }

    /// Current contributions added since the last normalisation.
    pub open spec fn source_count(&self) -> nat {
        self.current_sources as nat
    }

    /// Equal but for the voltage accumulator and its vote count.
    pub open spec fn same_but_votes(&self, other: Self) -> bool {
        &&& self.components == other.components
        &&& self.current == other.current
        &&& self.current_sources == other.current_sources
        &&& self.voltage == other.voltage
    }

    /// Equal but for the current imbalance and its source count.
    pub open spec fn same_but_currents(&self, other: Self) -> bool {
        &&& self.components == other.components
        &&& self.voltage == other.voltage
        &&& self.voltage_accumulator == other.voltage_accumulator
        &&& self.voltage_accumulator_sources == other.voltage_accumulator_sources
    }

    /// This net after a vote for `target`.
    pub open spec fn with_vote(self, target: R) -> Self {
        NetState {
            voltage_accumulator: self.voltage_accumulator.spec_plus(target),
            voltage_accumulator_sources: (self.voltage_accumulator_sources + 1) as usize,
            ..self
        }
    }

    /// This net after its votes are applied: the voltage becomes their
    /// average and the accumulator is cleared; unchanged without votes.
    pub open spec fn applied(self) -> Self {
        if self.voltage_accumulator_sources == 0 {
            self
        } else {
            NetState {
                voltage: self.voltage_accumulator.spec_divided_by(
                    R::spec_from_int(self.voltage_accumulator_sources as i64),
                ),
                voltage_accumulator: zero(),
                voltage_accumulator_sources: 0,
                ..self
            }
        }
    }

    /// Whether applying the votes moves the voltage by at most the
    /// tolerance; true without votes.
    pub open spec fn apply_converged(self) -> bool {
        self.voltage_accumulator_sources == 0 || spec_converged(self.voltage, self.applied().voltage)
    }

    /// This net after the contribution `[i, di_dt]`, subtracted when
    /// `outflow`.
    pub open spec fn with_contribution(self, outflow: bool, i: R, di_dt: R) -> Self {
        NetState {
            current: if outflow {
                [self.current[0].spec_minus(i), self.current[1].spec_minus(di_dt)]
            } else {
                [self.current[0].spec_plus(i), self.current[1].spec_plus(di_dt)]
            },
            current_sources: (self.current_sources + 1) as usize,
            ..self
        }
    }

    /// This net with its imbalance divided by the number of contributions
    /// and that count cleared; unchanged without contributions.
    pub open spec fn normalized(self) -> Self {
        if self.current_sources == 0 {
            self
        } else {
            let n = R::spec_from_int(self.current_sources as i64);
            NetState {
                current: [self.current[0].spec_divided_by(n), self.current[1].spec_divided_by(n)],
                current_sources: 0,
                ..self
            }
        }
    }

    /// This net with a zero imbalance and no contributions.
    pub open spec fn imbalance_reset(self) -> Self {
        NetState { current: [zero(), zero()], current_sources: 0, ..self }
    }

    /// A net with no terminals, at zero volts, with nothing pending.
    pub fn new_empty() -> (r: Self)
        ensures
            r.incidence() == Seq::<(usize, usize)>::empty(),
            r.voltage == zero::<R>(),
            r.current == [zero::<R>(), zero::<R>()],
            r.voltage_accumulator == zero::<R>(),
            r.vote_count() == 0,
            r.source_count() == 0,
    {
        let zero = R::from_int(0);
        NetState {
            components: Vec::new(),
            current: [zero, zero],
            current_sources: 0,
            voltage: zero,
            voltage_accumulator: zero,
            voltage_accumulator_sources: 0,
        }
    }

    /// Records that terminal `t` of component `c` is bound to this net.
    fn register(&mut self, c: usize, t: usize)
        ensures
            final(self).incidence() == old(self).incidence().push((c, t)),
            final(self).vote_count() == old(self).vote_count(),
            final(self).source_count() == old(self).source_count(),
    {
        self.components.push((c, t));
    }

    /// The `(component, terminal)` pairs bound to this net.
    pub fn connections(&self) -> (r: &Vec<(usize, usize)>)
        ensures
            r@ == self.incidence(),
    {
        &self.components
    }

    /// The present voltage estimate.
    pub fn voltage(&self) -> (r: R)
        ensures
            r == self.voltage,
    {
        self.voltage
    }

    /// Entry `k` of the current imbalance `[I, d/dt I]`.
    pub fn current_entry(&self, k: usize) -> (r: R)
        requires
            k < 2,
        ensures
            r == self.current[k as int],
    {
        self.current[k]
    }

    /// Adds a vote for `target_voltage`.
    pub fn cast_vote(&mut self, target_voltage: R)
        requires
            old(self).vote_count() < usize::MAX,
        ensures
            *final(self) == old(self).with_vote(target_voltage),
            final(self).vote_count() == old(self).vote_count() + 1,
            final(self).same_but_votes(*old(self)),
    {
        self.voltage_accumulator = self.voltage_accumulator.plus(target_voltage);
        self.voltage_accumulator_sources = self.voltage_accumulator_sources + 1;
    }

    /// Moves the voltage to the average of the votes cast and clears them.
    /// Converged when there were no votes, or when the voltage moved by at
    /// most the tolerance.
    pub fn apply_accumulated_voltage(&mut self) -> (r: HasConverged)
        ensures
            *final(self) == old(self).applied(),
            r == old(self).apply_converged(),
            final(self).vote_count() == 0,
            final(self).incidence() == old(self).incidence(),
            final(self).source_count() == old(self).source_count(),
    {
        if self.voltage_accumulator_sources == 0 {
            return true;
        }
        let voltage_next = self.voltage_accumulator.divided_by(
            R::from_int(self.voltage_accumulator_sources as i64),
        );
        let converged = converged(self.voltage, voltage_next);
        self.voltage = voltage_next;
        self.voltage_accumulator = R::from_int(0);
        self.voltage_accumulator_sources = 0;
        converged
    }

    /// Zeroes the current imbalance and its source count.
    pub fn reset_current_imbalance(&mut self)
        ensures
            *final(self) == old(self).imbalance_reset(),
            final(self).source_count() == 0,
            final(self).vote_count() == old(self).vote_count(),
            final(self).incidence() == old(self).incidence(),
    {
        let zero = R::from_int(0);
        self.current = [zero, zero];
        self.current_sources = 0;
    }

    /// Adds `[i, di_dt]` to the imbalance, subtracted when `outflow`.
    pub fn add_current_contribution(&mut self, outflow: bool, i: R, di_dt: R)
        requires
            old(self).source_count() < usize::MAX,
        ensures
            *final(self) == old(self).with_contribution(outflow, i, di_dt),
            final(self).source_count() == old(self).source_count() + 1,
            final(self).same_but_currents(*old(self)),
    {
        if outflow {
            self.current = [self.current[0].minus(i), self.current[1].minus(di_dt)];
        } else {
            self.current = [self.current[0].plus(i), self.current[1].plus(di_dt)];
        }
        self.current_sources = self.current_sources + 1;
    }

    /// Divides the imbalance by the number of contributions and clears that
    /// count; nothing happens when there were none.
    pub fn normalize_current(&mut self)
        ensures
            *final(self) == old(self).normalized(),
            final(self).source_count() == 0,
            final(self).vote_count() == old(self).vote_count(),
            final(self).incidence() == old(self).incidence(),
    {
        if self.current_sources == 0 {
            return ;
        }
        let n = R::from_int(self.current_sources as i64);
        self.current = [self.current[0].divided_by(n), self.current[1].divided_by(n)];
        self.current_sources = 0;
    }

    /// Whether the current residual counts as converged. The residual check
    /// is disabled: the answer is always yes, and termination is decided by
    /// the voltage residual and the devices alone. This is suspect (a solved
    /// circuit need not balance its currents exactly) but matches the
    /// solver's observed behaviour.
    pub fn current_converged(&self) -> (r: HasConverged)
        ensures
            r,
    {
        true
    }
}

/// Parameters of a device of either family, as handed to
/// [`CircuitState::create_component`].
#[derive(Clone, Copy)]
pub enum ComponentValueEnum<R> {
    Linear(LinearComponentValue<R>),
    MOSFET(MOSFETComponentValue<R>),
}

impl<R: Real> ComponentValueEnum<R> {
    pub open spec fn spec_n_terminals(&self) -> nat {
        match *self {
            ComponentValueEnum::Linear(_) => 2,
            ComponentValueEnum::MOSFET(_) => 3,
        }
    }

    pub fn n_terminals(&self) -> (r: usize)
        ensures
            r == self.spec_n_terminals(),
    {
        match self {
            ComponentValueEnum::Linear(v) => v.n_terminals(),
            ComponentValueEnum::MOSFET(v) => v.n_terminals(),
        }
    }

    fn create(self, connected_nets_i: &[usize]) -> (r: ComponentStateEnum<R>)
        requires
            connected_nets_i@.len() == self.spec_n_terminals(),
        ensures
            r.terminals() == connected_nets_i@,
            r.kind() == self,
            r.at_rest(),
    {
        match self {
            ComponentValueEnum::Linear(v) => ComponentStateEnum::Linear(v.create(connected_nets_i)),
            ComponentValueEnum::MOSFET(v) => ComponentStateEnum::MOSFET(v.create(connected_nets_i)),
        }
    }
}

/// A device of either family with its dynamic state.
#[derive(Clone, Copy)]
pub enum ComponentStateEnum<R> {
    Linear(LinearComponentState<R>),
    MOSFET(MOSFETComponentState<R>),
}

impl<R: Real> ComponentStateEnum<R> {
    /// The nets bound to the device's terminals, in terminal order.
    pub open spec fn terminals(&self) -> Seq<usize> {
        match *self {
            ComponentStateEnum::Linear(c) => c.terminals(),
            ComponentStateEnum::MOSFET(c) => c.terminals(),
        }
    }

    /// The device's parameters.
    pub open spec fn kind(&self) -> ComponentValueEnum<R> {
        match *self {
            ComponentStateEnum::Linear(c) => ComponentValueEnum::Linear(c.spec_value()),
            ComponentStateEnum::MOSFET(c) => ComponentValueEnum::MOSFET(c.spec_value()),
        }
    }

    /// The net a positive branch current leaves: terminal 0, the source.
    pub open spec fn net_out(&self) -> int {
        self.terminals()[0] as int
    }

    /// The net a positive branch current enters: the last terminal, which is
    /// terminal 1 or the drain.
    pub open spec fn net_in(&self) -> int {
        self.terminals().last() as int
    }

    /// No current, charge or offset yet.
    pub open spec fn at_rest(&self) -> bool {
        match *self {
            ComponentStateEnum::Linear(c) => c.at_rest(),
            ComponentStateEnum::MOSFET(c) => c.at_rest(),
        }
    }

    /// `nets` after this device's vote with damping `step`.
    pub open spec fn voted(&self, nets: Seq<NetState<R>>, step: R) -> Seq<NetState<R>> {
        match *self {
            ComponentStateEnum::Linear(c) => c.voted(nets, step),
            ComponentStateEnum::MOSFET(c) => c.voted(nets, step),
        }
    }

    /// `nets` after this device adds its branch current to their imbalances.
    pub open spec fn imparted(&self, nets: Seq<NetState<R>>) -> Seq<NetState<R>> {
        match *self {
            ComponentStateEnum::Linear(c) => c.imparted(nets),
            ComponentStateEnum::MOSFET(c) => c.imparted(nets),
        }
    }

    /// This device after a perturbation from `nets`.
    pub open spec fn perturbed(&self, nets: Seq<NetState<R>>) -> Self {
        match *self {
            ComponentStateEnum::Linear(c) => ComponentStateEnum::Linear(c.perturbed(nets)),
            ComponentStateEnum::MOSFET(c) => ComponentStateEnum::MOSFET(c.perturbed(nets)),
        }
    }

    /// Whether a perturbation from `nets` moves this device's state by at
    /// most the tolerance.
    pub open spec fn perturb_converged(&self, nets: Seq<NetState<R>>) -> bool {
        match *self {
            ComponentStateEnum::Linear(c) => c.perturb_converged(nets),
            ComponentStateEnum::MOSFET(c) => c.perturb_converged(nets),
        }
    }

    /// This device after explicit integration over `dt`.
    pub open spec fn ticked(&self, dt: R) -> Self {
        match *self {
            ComponentStateEnum::Linear(c) => ComponentStateEnum::Linear(c.ticked(dt)),
            ComponentStateEnum::MOSFET(c) => ComponentStateEnum::MOSFET(c.ticked(dt)),
        }
    }

    fn impart_voltage_to_nets(&self, nets: &mut Vec<NetState<R>>, step: R)
        requires
            self.terminals().len() >= 2,
            forall|t: int| 0 <= t < self.terminals().len() ==> #[trigger] self.terminals()[t] < old(nets)@.len(),
            forall|n: int| 0 <= n < old(nets)@.len() ==> #[trigger] old(nets)@[n].vote_count() + 2 <= usize::MAX,
        ensures
            final(nets)@ == self.voted(old(nets)@, step),
            final(nets)@ == old(nets)@ || votes_cast(old(nets)@, final(nets)@, self.net_out(), self.net_in()),
    {
        match self {
            ComponentStateEnum::Linear(c) => {
                proof {
                    c.lemma_terminals_len();
                }
                c.impart_voltage_to_nets(nets, step)
            },
            ComponentStateEnum::MOSFET(c) => {
                proof {
                    c.lemma_terminals_len();
                }
                c.impart_voltage_to_nets(nets, step)
            },
        }
    }

    fn impart_currents_to_nets(&self, nets: &mut Vec<NetState<R>>)
        requires
            self.terminals().len() >= 2,
            forall|t: int| 0 <= t < self.terminals().len() ==> #[trigger] self.terminals()[t] < old(nets)@.len(),
            forall|n: int| 0 <= n < old(nets)@.len() ==> #[trigger] old(nets)@[n].source_count() + 2 <= usize::MAX,
        ensures
            final(nets)@ == self.imparted(old(nets)@),
            final(nets)@ == old(nets)@ || currents_imparted(old(nets)@, final(nets)@, self.net_out(), self.net_in()),
    {
        match self {
            ComponentStateEnum::Linear(c) => {
                proof {
                    c.lemma_terminals_len();
                }
                c.impart_currents_to_nets(nets)
            },
            ComponentStateEnum::MOSFET(c) => {
                proof {
                    c.lemma_terminals_len();
                }
                c.impart_currents_to_nets(nets)
            },
        }
    }

    fn perturb_from_nets(&mut self, nets: &Vec<NetState<R>>) -> (r: HasConverged)
        requires
            forall|t: int| 0 <= t < old(self).terminals().len() ==> #[trigger] old(self).terminals()[t] < nets@.len(),
        ensures
            *final(self) == old(self).perturbed(nets@),
            r == old(self).perturb_converged(nets@),
            final(self).terminals() == old(self).terminals(),
            final(self).kind() == old(self).kind(),
    {
        match self {
            ComponentStateEnum::Linear(c) => {
                proof {
                    c.lemma_terminals_len();
                    assert forall|t: int| 0 <= t < c.terminals().len() implies #[trigger] c.terminals()[t] < nets@.len() by {
                        assert(old(self).terminals()[t] == c.terminals()[t]);
                    }
                }
                c.perturb_from_nets(nets)
            },
            ComponentStateEnum::MOSFET(c) => {
                proof {
                    c.lemma_terminals_len();
                    assert forall|t: int| 0 <= t < c.terminals().len() implies #[trigger] c.terminals()[t] < nets@.len() by {
                        assert(old(self).terminals()[t] == c.terminals()[t]);
                    }
                }
                c.perturb_from_nets(nets)
            },
        }
    }

    fn tick(&mut self, dt: R)
        ensures
            *final(self) == old(self).ticked(dt),
            final(self).terminals() == old(self).terminals(),
            final(self).kind() == old(self).kind(),
    {
        match self {
            ComponentStateEnum::Linear(c) => c.tick(dt),
            ComponentStateEnum::MOSFET(c) => c.tick(dt),
        }
    }
}

/// Upper bound on the number of components, which keeps every net's vote and
/// contribution counters within `usize`.
pub const MAX_COMPONENTS: usize = usize::MAX / 4;

/// Outer rounds that `solve_state` tries before it reports failure.
pub const MAX_OUTER_ROUNDS: u64 = 10000;

/// Voltage-correction passes per outer round.
pub const VOLTAGE_PASSES: u64 = 10;

/// Multiplier of the round index in the dithered step `0.5 sin(1349 i) + 0.5`.
pub const DITHER_FREQUENCY: i64 = 1349;

/// The references that component `c`, wired to `wiring`, adds to net `n`:
/// one `(c, t)` for each terminal `t` bound to `n`, in terminal order.
pub open spec fn refs_to(c: usize, wiring: Seq<usize>, n: int) -> Seq<(usize, usize)>
    decreases wiring.len(),
{
    if wiring.len() == 0 {
        Seq::empty()
    } else {
        let t = wiring.len() - 1;
        refs_to(c, wiring.drop_last(), n) + if wiring[t] == n {
            seq![(c, t as usize)]
        } else {
            Seq::empty()
        }
    }
}

/// The nets after components `0..k` of `cs` have voted, in index order, with
/// damping `step`.
pub open spec fn votes_upto<R: Real>(
    cs: Seq<ComponentStateEnum<R>>,
    ns: Seq<NetState<R>>,
    step: R,
    k: nat,
) -> Seq<NetState<R>>
    decreases k,
{
    if k == 0 {
        ns
    } else {
        cs[k - 1].voted(votes_upto(cs, ns, step, (k - 1) as nat), step)
    }
}

/// The nets after one voltage-correction pass: every device votes, then
/// every net applies the average of its votes.
pub open spec fn voltage_pass_nets<R: Real>(cs: Seq<ComponentStateEnum<R>>, ns: Seq<NetState<R>>, step: R) -> Seq<NetState<R>> {
    let voted = votes_upto(cs, ns, step, cs.len());
    Seq::new(voted.len(), |n: int| voted[n].applied())
}

/// Whether every net moved by at most the tolerance in that pass.
pub open spec fn voltage_pass_converged<R: Real>(cs: Seq<ComponentStateEnum<R>>, ns: Seq<NetState<R>>, step: R) -> bool {
    let voted = votes_upto(cs, ns, step, cs.len());
    forall|n: int| 0 <= n < voted.len() ==> #[trigger] voted[n].apply_converged()
}

/// The nets after components `0..k` of `cs` have added their branch currents.
pub open spec fn currents_upto<R: Real>(cs: Seq<ComponentStateEnum<R>>, ns: Seq<NetState<R>>, k: nat) -> Seq<NetState<R>>
    decreases k,
{
    if k == 0 {
        ns
    } else {
        cs[k - 1].imparted(currents_upto(cs, ns, (k - 1) as nat))
    }
}

/// The nets after the first half of a charge-state correction: imbalances
/// cleared, every device's branch current added, each imbalance normalised.
pub open spec fn balanced_nets<R: Real>(cs: Seq<ComponentStateEnum<R>>, ns: Seq<NetState<R>>) -> Seq<NetState<R>> {
    let cleared = Seq::new(ns.len(), |n: int| ns[n].imbalance_reset());
    let summed = currents_upto(cs, cleared, cs.len());
    Seq::new(summed.len(), |n: int| summed[n].normalized())
}

/// The devices after a charge-state correction: each perturbed from the
/// balanced nets.
pub open spec fn charge_pass_components<R: Real>(cs: Seq<ComponentStateEnum<R>>, ns: Seq<NetState<R>>) -> Seq<ComponentStateEnum<R>> {
    Seq::new(cs.len(), |k: int| cs[k].perturbed(balanced_nets(cs, ns)))
}

/// Whether every device moved by at most the tolerance in that correction.
pub open spec fn charge_pass_converged<R: Real>(cs: Seq<ComponentStateEnum<R>>, ns: Seq<NetState<R>>) -> bool {
    forall|k: int| 0 <= k < cs.len() ==> #[trigger] cs[k].perturb_converged(balanced_nets(cs, ns))
}

/// Damping of outer round `i`: `0.5 sin(1349 i) + 0.5`.
pub open spec fn dither_step<R: Real>(i: nat) -> R {
    R::spec_from_int((i * DITHER_FREQUENCY) as i64).spec_sin().spec_times(half()).spec_plus(half())
}

/// The nets after the voltage-correction passes of a round, from pass `p`
/// on: passes run until one converges or `VOLTAGE_PASSES` have run.
pub open spec fn micro_nets<R: Real>(cs: Seq<ComponentStateEnum<R>>, ns: Seq<NetState<R>>, step: R, p: nat) -> Seq<NetState<R>>
    decreases VOLTAGE_PASSES - p,
{
    if p >= VOLTAGE_PASSES {
        ns
    } else if voltage_pass_converged(cs, ns, step) {
        voltage_pass_nets(cs, ns, step)
    } else {
        micro_nets(cs, voltage_pass_nets(cs, ns, step), step, p + 1)
    }
}

/// The verdict, devices and nets that the solver reaches from outer round
/// `i` on. Round `i` runs the voltage passes with damping `dither_step(i)`
/// and then one charge-state correction; it converged when its first voltage
/// pass and its charge correction both did, and the solver then stops with
/// true. After `MAX_OUTER_ROUNDS` rounds it stops with false.
pub open spec fn solve_from<R: Real>(cs: Seq<ComponentStateEnum<R>>, ns: Seq<NetState<R>>, i: nat) -> (
    bool,
    Seq<ComponentStateEnum<R>>,
    Seq<NetState<R>>,
)
    decreases MAX_OUTER_ROUNDS - i,
{
    if i >= MAX_OUTER_ROUNDS {
        (false, cs, ns)
    } else {
        let step = dither_step::<R>(i);
        let ns1 = micro_nets(cs, ns, step, 0);
        let converged = voltage_pass_converged(cs, ns, step) && charge_pass_converged(cs, ns1);
        let cs2 = charge_pass_components(cs, ns1);
        let ns2 = balanced_nets(cs, ns1);
        if converged {
            (true, cs2, ns2)
        } else {
            solve_from(cs2, ns2, i + 1)
        }
    }
}

/// `b` is `a` with at most its currents and cached gate voltage changed: the
/// wiring, the parameters, the offset emf, the charge and the temperature are
/// the same.
pub open spec fn keeps_fixed_state<R: Real>(a: ComponentStateEnum<R>, b: ComponentStateEnum<R>) -> bool {
    match (a, b) {
        (ComponentStateEnum::Linear(x), ComponentStateEnum::Linear(y)) => {
            &&& x.connected_nets_i == y.connected_nets_i
            &&& x.value == y.value
            &&& x.offset_emf == y.offset_emf
            &&& x.q[0] == y.q[0]
        },
        (ComponentStateEnum::MOSFET(x), ComponentStateEnum::MOSFET(y)) => {
            &&& x.connected_nets_i == y.connected_nets_i
            &&& x.value == y.value
            &&& x.temperature == y.temperature
        },
        _ => false,
    }
}

/// Solving changes no device's wiring, parameters, offset emf, charge or
/// temperature: only currents and cached gate voltages move.
pub proof fn lemma_solve_keeps_fixed_state<R: Real>(cs: Seq<ComponentStateEnum<R>>, ns: Seq<NetState<R>>, i: nat)
    ensures
        solve_from(cs, ns, i).1.len() == cs.len(),
        forall|k: int| 0 <= k < cs.len() ==> keeps_fixed_state(cs[k], #[trigger] solve_from(cs, ns, i).1[k]),
    decreases MAX_OUTER_ROUNDS - i,
{
    if i < MAX_OUTER_ROUNDS {
        let step = dither_step::<R>(i);
        let ns1 = micro_nets(cs, ns, step, 0);
        let cs2 = charge_pass_components(cs, ns1);
        let ns2 = balanced_nets(cs, ns1);
        assert forall|k: int| 0 <= k < cs.len() implies keeps_fixed_state(cs[k], #[trigger] cs2[k]) by {}
        if !(voltage_pass_converged(cs, ns, step) && charge_pass_converged(cs, ns1)) {
            lemma_solve_keeps_fixed_state(cs2, ns2, i + 1);
            assert forall|k: int| 0 <= k < cs.len() implies keeps_fixed_state(cs[k], #[trigger] solve_from(cs, ns, i).1[k]) by {
                assert(keeps_fixed_state(cs[k], cs2[k]));
                assert(keeps_fixed_state(cs2[k], solve_from(cs2, ns2, i + 1).1[k]));
            }
        }
    }
}

/// Every device integrated over `dt`.
pub open spec fn ticked_components<R: Real>(cs: Seq<ComponentStateEnum<R>>, dt: R) -> Seq<ComponentStateEnum<R>> {
    Seq::new(cs.len(), |k: int| cs[k].ticked(dt))
}

/// A circuit: a dense sequence of nets and a dense sequence of components,
/// which refer to each other by index.
pub struct CircuitState<R> {
    components: Vec<ComponentStateEnum<R>>,
    nets: Vec<NetState<R>>,
}

impl<R: Real> CircuitState<R> {
    pub closed spec fn n_nets(&self) -> nat {
        self.nets@.len()
    }

    /// The components, by id.
    pub closed spec fn components_view(&self) -> Seq<ComponentStateEnum<R>> {
        self.components@
    }

    /// The nets, by id.
    pub closed spec fn nets_view(&self) -> Seq<NetState<R>> {
        self.nets@
    }

    pub closed spec fn n_components(&self) -> nat {
        self.components@.len()
    }

    pub closed spec fn net(&self, n: int) -> NetState<R> {
        self.nets@[n]
    }

    pub closed spec fn component(&self, c: int) -> ComponentStateEnum<R> {
        self.components@[c]
    }

    /// Every terminal is bound to an existing net and registered there, and
    /// every reference a net holds names a terminal bound to it.
    pub closed spec fn topology_wf(&self) -> bool {
        &&& self.components@.len() <= MAX_COMPONENTS
        &&& forall|c: int|
            0 <= c < self.components@.len() ==> #[trigger] self.components@[c].terminals().len() >= 2
        &&& forall|c: int, t: int|
            0 <= c < self.components@.len() && 0 <= t < self.components@[c].terminals().len()
                ==> #[trigger] self.components@[c].terminals()[t] < self.nets@.len()
        &&& forall|c: int, t: int|
            0 <= c < self.components@.len() && 0 <= t < self.components@[c].terminals().len()
                ==> self.nets@[#[trigger] self.components@[c].terminals()[t] as int].incidence().contains(
                (c as usize, t as usize),
            )
        &&& forall|n: int, e: int|
            0 <= n < self.nets@.len() && 0 <= e < self.nets@[n].incidence().len() ==> {
                let (c, t) = #[trigger] self.nets@[n].incidence()[e];
                &&& c < self.components@.len()
                &&& t < self.components@[c as int].terminals().len()
                &&& self.components@[c as int].terminals()[t as int] == n
            }
    }

    /// No vote or current contribution is pending on any net.
    pub closed spec fn at_rest(&self) -> bool {
        forall|n: int|
            #![trigger self.nets@[n]]
            0 <= n < self.nets@.len() ==> (self.nets@[n].vote_count() == 0
                && self.nets@[n].source_count() == 0)
    }

    pub open spec fn wf(&self) -> bool {
        self.topology_wf() && self.at_rest()
    }

    /// Same nets and components, wired the same way, with the same
    /// parameters; only dynamic state may differ.
    pub closed spec fn same_topology(&self, other: &Self) -> bool {
        &&& self.nets@.len() == other.nets@.len()
        &&& self.components@.len() == other.components@.len()
        &&& forall|c: int|
            #![trigger self.components@[c]]
            #![trigger other.components@[c]]
            0 <= c < self.components@.len() ==> (self.components@[c].terminals()
                == other.components@[c].terminals() && self.components@[c].kind()
                == other.components@[c].kind())
        &&& forall|n: int|
            #![trigger self.nets@[n]]
            #![trigger other.nets@[n]]
            0 <= n < self.nets@.len() ==> self.nets@[n].incidence()
                == other.nets@[n].incidence()
    }

    proof fn lemma_same_topology(&self, other: &Self)
        requires
            self.topology_wf(),
            self.same_topology(other),
        ensures
            other.topology_wf(),
            other.same_topology(self),
    {
        assert forall|c: int, t: int|
            0 <= c < other.components@.len() && 0 <= t < other.components@[c].terminals().len()
                implies other.nets@[#[trigger] other.components@[c].terminals()[t] as int].incidence().contains(
            (c as usize, t as usize),
        ) by {
            assert(self.components@[c].terminals() == other.components@[c].terminals());
            assert(self.components@[c].terminals()[t] < self.nets@.len());
            assert(self.nets@[self.components@[c].terminals()[t] as int].incidence().contains(
                (c as usize, t as usize),
            ));
        }
        assert forall|n: int, e: int|
            0 <= n < other.nets@.len() && 0 <= e < other.nets@[n].incidence().len() implies {
                let (c, t) = #[trigger] other.nets@[n].incidence()[e];
                &&& c < other.components@.len()
                &&& t < other.components@[c as int].terminals().len()
                &&& other.components@[c as int].terminals()[t as int] == n
            } by {
            assert(self.nets@[n].incidence() == other.nets@[n].incidence());
            let (c, t) = self.nets@[n].incidence()[e];
            assert(self.components@[c as int].terminals() == other.components@[c as int].terminals());
        }
        assert forall|c: int| 0 <= c < other.components@.len() implies #[trigger] other.components@[c].terminals().len() >= 2 by {
            assert(self.components@[c].terminals() == other.components@[c].terminals());
        }
        assert forall|c: int, t: int|
            0 <= c < other.components@.len() && 0 <= t < other.components@[c].terminals().len()
                implies #[trigger] other.components@[c].terminals()[t] < other.nets@.len() by {
            assert(self.components@[c].terminals() == other.components@[c].terminals());
            assert(self.components@[c].terminals()[t] < self.nets@.len());
        }
    }

    /// In a well-formed circuit every terminal of every component is bound to
    /// an existing net, and that net lists the terminal among its references.
    pub proof fn lemma_terminal_registered(&self, c: int, t: int)
        requires
            self.wf(),
            0 <= c < self.n_components(),
            0 <= t < self.component(c).terminals().len(),
        ensures
            self.component(c).terminals()[t] < self.n_nets(),
            self.net(self.component(c).terminals()[t] as int).incidence().contains(
                (c as usize, t as usize),
            ),
    {
        assert(self.components@[c].terminals()[t] < self.nets@.len());
    }

    /// In a well-formed circuit every reference a net holds names an existing
    /// component and one of its terminals that is bound to that net.
    pub proof fn lemma_reference_valid(&self, n: int, e: int)
        requires
            self.wf(),
            0 <= n < self.n_nets(),
            0 <= e < self.net(n).incidence().len(),
        ensures
            self.net(n).incidence()[e].0 < self.n_components(),
            self.net(n).incidence()[e].1 < self.component(self.net(n).incidence()[e].0 as int).terminals().len(),
            self.component(self.net(n).incidence()[e].0 as int).terminals()[self.net(n).incidence()[e].1 as int] == n,
    {
        let (c, t) = self.nets@[n].incidence()[e];
    }

    /// An empty network.
    pub fn new_empty() -> (r: Self)
        ensures
            r.wf(),
            r.n_nets() == 0,
            r.n_components() == 0,
    {
        CircuitState { components: Vec::new(), nets: Vec::new() }
    }

    /// Appends a net with no terminals and returns its id.
    pub fn create_net(&mut self) -> (r: usize)
        requires
            old(self).wf(),
        ensures
            final(self).wf(),
            r == old(self).n_nets(),
            final(self).n_nets() == old(self).n_nets() + 1,
            final(self).n_components() == old(self).n_components(),
            final(self).net(r as int).incidence() == Seq::<(usize, usize)>::empty(),
            final(self).net(r as int).voltage == zero::<R>(),
            final(self).net(r as int).current == [zero::<R>(), zero::<R>()],
            final(self).net(r as int).voltage_accumulator == zero::<R>(),
            forall|n: int| 0 <= n < old(self).n_nets() ==> #[trigger] final(self).net(n) == old(self).net(n),
            forall|c: int|
                0 <= c < old(self).n_components() ==> #[trigger] final(self).component(c) == old(self).component(c),
    {
        let ghost before = *self;
        self.nets.push(NetState::new_empty());
        proof {
            assert forall|c: int, t: int|
                0 <= c < self.components@.len() && 0 <= t < self.components@[c].terminals().len()
                    implies self.nets@[#[trigger] self.components@[c].terminals()[t] as int].incidence().contains(
                (c as usize, t as usize),
            ) by {
                assert(before.components@[c].terminals()[t] < before.nets@.len());
                assert(self.nets@[self.components@[c].terminals()[t] as int] == before.nets@[self.components@[c].terminals()[t] as int]);
            }
        }
        self.nets.len() - 1
    }

    /// Adds a device wired to `connected_nets_i` (one net per terminal),
    /// registers each terminal with its net, and returns the device's id.
    /// Two terminals may share a net. Such a device is accepted but constrains
    /// nothing: its two votes on that net are the net's own voltage moved by
    /// opposite amounts, which only weight the average toward the present
    /// voltage, and its two current contributions cancel.
    pub fn create_component(
        &mut self,
        value: ComponentValueEnum<R>,
        connected_nets_i: &[usize],
    ) -> (r: usize)
        requires
            old(self).wf(),
            old(self).n_components() < MAX_COMPONENTS,
            connected_nets_i@.len() == value.spec_n_terminals(),
            forall|t: int|
                0 <= t < connected_nets_i@.len() ==> #[trigger] connected_nets_i@[t] < old(self).n_nets(),
        ensures
            final(self).wf(),
            r == old(self).n_components(),
            final(self).n_components() == old(self).n_components() + 1,
            final(self).n_nets() == old(self).n_nets(),
            final(self).component(r as int).terminals() == connected_nets_i@,
            final(self).component(r as int).kind() == value,
            final(self).component(r as int).at_rest(),
            forall|c: int|
                0 <= c < old(self).n_components() ==> #[trigger] final(self).component(c) == old(self).component(c),
            forall|n: int|
                0 <= n < old(self).n_nets() ==> #[trigger] final(self).net(n).incidence() == old(self).net(n).incidence()
                    + refs_to(r, connected_nets_i@, n),
    {
        let ghost before = *self;
        let component = value.create(connected_nets_i);
        let component_i = self.components.len();
        self.components.push(component);
        let mut t: usize = 0;
        while t < connected_nets_i.len()
            invariant
                before.wf(),
                component_i == before.components@.len(),
                self.components@ == before.components@.push(component),
                component.terminals() == connected_nets_i@,
                t <= connected_nets_i@.len(),
                self.nets@.len() == before.nets@.len(),
                forall|k: int|
                    0 <= k < connected_nets_i@.len() ==> #[trigger] connected_nets_i@[k] < before.nets@.len(),
                forall|n: int|
                    0 <= n < self.nets@.len() ==> {
                        &&& #[trigger] self.nets@[n].incidence() == before.nets@[n].incidence()
                            + refs_to(component_i, connected_nets_i@.subrange(0, t as int), n)
                        &&& self.nets@[n].vote_count() == 0
                        &&& self.nets@[n].source_count() == 0
                    },
            decreases connected_nets_i@.len() - t,
        {
            let net_i = connected_nets_i[t];
            let ghost prev = self.nets@;
            self.nets[net_i].register(component_i, t);
            proof {
                assert forall|m: int| 0 <= m < self.nets@.len() && m != net_i implies #[trigger] self.nets@[m] == prev[m] by {}
                let w = connected_nets_i@.subrange(0, t + 1);
                assert(w.drop_last() == connected_nets_i@.subrange(0, t as int));
                assert forall|n: int| 0 <= n < self.nets@.len() implies #[trigger] self.nets@[n].incidence()
                    == before.nets@[n].incidence() + refs_to(component_i, w, n) by {
                    assert(refs_to(component_i, w, n) == refs_to(component_i, connected_nets_i@.subrange(0, t as int), n)
                        + if w[t as int] == n { seq![(component_i, t)] } else { Seq::empty() });
                }
            }
            t = t + 1;
        }
        proof {
            assert(connected_nets_i@.subrange(0, connected_nets_i@.len() as int) == connected_nets_i@);
            assert forall|k: int| 0 <= k < component_i implies #[trigger] self.components@[k] == before.components@[k] by {}
            lemma_wired(before, *self, component_i, connected_nets_i@);
        }
        component_i
    }
    /// One voltage-correction pass: every device votes with damping `step`,
    /// then every net moves to the average of its votes. Converged when every
    /// net moved by at most the tolerance.
    fn correct_voltages(&mut self, step: R) -> (r: HasConverged)
        requires
            old(self).wf(),
        ensures
            final(self).wf(),
            old(self).same_topology(final(self)),
            final(self).components@ == old(self).components@,
            final(self).nets@ == voltage_pass_nets(old(self).components@, old(self).nets@, step),
            r == voltage_pass_converged(old(self).components@, old(self).nets@, step),
    {
        let ghost before = *self;
        let n_components = self.components.len();
        proof {
            assert forall|m: int| 0 <= m < self.nets@.len() implies #[trigger] self.nets@[m].vote_count() == 0
                && self.nets@[m].source_count() == 0 by {}
        }
        let mut k: usize = 0;
        while k < n_components
            invariant
                before.wf(),
                n_components == self.components@.len(),
                self.components@ == before.components@,
                k <= n_components,
                self.nets@.len() == before.nets@.len(),
                self.nets@ == votes_upto(before.components@, before.nets@, step, k as nat),
                forall|n: int|
                    0 <= n < self.nets@.len() ==> {
                        &&& #[trigger] self.nets@[n].incidence() == before.nets@[n].incidence()
                        &&& self.nets@[n].vote_count() <= 2 * k
                        &&& self.nets@[n].source_count() == 0
                    },
            decreases n_components - k,
        {
            proof {
                assert forall|t: int| 0 <= t < self.components@[k as int].terminals().len()
                    implies #[trigger] self.components@[k as int].terminals()[t] < self.nets@.len() by {
                    assert(before.components@[k as int].terminals()[t] < before.nets@.len());
                }
                assert(self.components@[k as int].terminals().len() >= 2);
                assert forall|n: int| 0 <= n < self.nets@.len()
                    implies #[trigger] self.nets@[n].vote_count() + 2 <= usize::MAX by {
                    assert(self.nets@[n].incidence() == before.nets@[n].incidence());
                }
            }
            let ghost mid = self.nets@;
            self.components[k].impart_voltage_to_nets(&mut self.nets, step);
            proof {
                assert forall|n: int| 0 <= n < self.nets@.len() implies {
                    &&& #[trigger] self.nets@[n].incidence() == before.nets@[n].incidence()
                    &&& self.nets@[n].vote_count() <= 2 * (k + 1)
                    &&& self.nets@[n].source_count() == 0
                } by {
                    assert(mid[n].incidence() == before.nets@[n].incidence());
                    if self.nets@ != mid {
                        assert(self.nets@[n].same_but_votes(mid[n]));
                    }
                }
            }
            k = k + 1;
        }
        let ghost voted = self.nets@;
        let mut converged = true;
        let n_nets = self.nets.len();
        let mut n: usize = 0;
        while n < n_nets
            invariant
                before.wf(),
                self.components@ == before.components@,
                voted == votes_upto(before.components@, before.nets@, step, before.components@.len()),
                n_nets == self.nets@.len(),
                n_nets == voted.len(),
                n_nets == before.nets@.len(),
                n <= n_nets,
                forall|m: int| 0 <= m < n ==> #[trigger] self.nets@[m] == voted[m].applied(),
                forall|m: int| n <= m < n_nets ==> #[trigger] self.nets@[m] == voted[m],
                converged == forall|m: int| 0 <= m < n ==> #[trigger] voted[m].apply_converged(),
                forall|m: int|
                    0 <= m < n_nets ==> {
                        &&& #[trigger] voted[m].incidence() == before.nets@[m].incidence()
                        &&& voted[m].source_count() == 0
                    },
            decreases n_nets - n,
        {
            let ghost prev = self.nets@;
            if !self.nets[n].apply_accumulated_voltage() {
                converged = false;
            }
            proof {
                assert forall|m: int| 0 <= m < n_nets && m != n implies #[trigger] self.nets@[m] == prev[m] by {}
                assert(converged == forall|m: int| 0 <= m < n + 1 ==> #[trigger] voted[m].apply_converged()) by {
                    if !converged {
                        if !voted[n as int].apply_converged() {
                        } else {
                            let m = choose|m: int| 0 <= m < n && !#[trigger] voted[m].apply_converged();
                        }
                    }
                }
            }
            n = n + 1;
        }
        proof {
            assert(self.nets@ =~= voltage_pass_nets(before.components@, before.nets@, step));
            assert forall|m: int| 0 <= m < n_nets implies #[trigger] self.nets@[m].incidence()
                == before.nets@[m].incidence() by {
                assert(self.nets@[m] == voted[m].applied());
                assert(voted[m].incidence() == before.nets@[m].incidence());
            }
            before.lemma_same_topology(self);
            assert forall|m: int| 0 <= m < self.nets@.len() implies #[trigger] self.nets@[m].vote_count() == 0
                && self.nets@[m].source_count() == 0 by {
                assert(self.nets@[m] == voted[m].applied());
                assert(voted[m].incidence() == before.nets@[m].incidence());
            }
        }
        converged
    }

    /// One charge-state correction: nets collect the devices' branch
    /// currents, normalise the imbalance, and every device then adjusts its
    /// own current toward consistency. Converged when every device did.
    fn correct_charge_states(&mut self) -> (r: HasConverged)
        requires
            old(self).wf(),
        ensures
            final(self).wf(),
            old(self).same_topology(final(self)),
            final(self).nets@ == balanced_nets(old(self).components@, old(self).nets@),
            final(self).components@ == charge_pass_components(old(self).components@, old(self).nets@),
            r == charge_pass_converged(old(self).components@, old(self).nets@),
    {
        let ghost before = *self;
        let n_nets = self.nets.len();
        let n_components = self.components.len();
        let ghost cleared = Seq::new(before.nets@.len(), |m: int| before.nets@[m].imbalance_reset());
        proof {
            assert forall|m: int| 0 <= m < n_nets implies #[trigger] self.nets@[m].vote_count() == 0
                && self.nets@[m].source_count() == 0 by {}
        }
        let mut n: usize = 0;
        while n < n_nets
            invariant
                before.wf(),
                self.components@ == before.components@,
                n_nets == self.nets@.len(),
                n_nets == before.nets@.len(),
                cleared == Seq::new(before.nets@.len(), |m: int| before.nets@[m].imbalance_reset()),
                n <= n_nets,
                forall|m: int| 0 <= m < n ==> #[trigger] self.nets@[m] == cleared[m],
                forall|m: int| n <= m < n_nets ==> #[trigger] self.nets@[m] == before.nets@[m],
                forall|m: int|
                    0 <= m < n_nets ==> #[trigger] before.nets@[m].vote_count() == 0
                        && before.nets@[m].source_count() == 0,
            decreases n_nets - n,
        {
            let ghost prev = self.nets@;
            self.nets[n].reset_current_imbalance();
            proof {
                assert forall|m: int| 0 <= m < n_nets && m != n implies #[trigger] self.nets@[m] == prev[m] by {}
            }
            n = n + 1;
        }
        proof {
            assert(self.nets@ =~= cleared);
        }
        let mut k: usize = 0;
        while k < n_components
            invariant
                before.wf(),
                n_components == self.components@.len(),
                self.components@ == before.components@,
                k <= n_components,
                self.nets@.len() == before.nets@.len(),
                cleared == Seq::new(before.nets@.len(), |m: int| before.nets@[m].imbalance_reset()),
                self.nets@ == currents_upto(before.components@, cleared, k as nat),
                forall|n: int|
                    0 <= n < self.nets@.len() ==> {
                        &&& #[trigger] self.nets@[n].incidence() == before.nets@[n].incidence()
                        &&& self.nets@[n].source_count() <= 2 * k
                        &&& self.nets@[n].vote_count() == 0
                    },
            decreases n_components - k,
        {
            proof {
                assert forall|t: int| 0 <= t < self.components@[k as int].terminals().len()
                    implies #[trigger] self.components@[k as int].terminals()[t] < self.nets@.len() by {
                    assert(before.components@[k as int].terminals()[t] < before.nets@.len());
                }
                assert(self.components@[k as int].terminals().len() >= 2);
                assert forall|n: int| 0 <= n < self.nets@.len()
                    implies #[trigger] self.nets@[n].source_count() + 2 <= usize::MAX by {
                    assert(self.nets@[n].incidence() == before.nets@[n].incidence());
                }
            }
            let ghost mid = self.nets@;
            self.components[k].impart_currents_to_nets(&mut self.nets);
            proof {
                assert forall|n: int| 0 <= n < self.nets@.len() implies {
                    &&& #[trigger] self.nets@[n].incidence() == before.nets@[n].incidence()
                    &&& self.nets@[n].source_count() <= 2 * (k + 1)
                    &&& self.nets@[n].vote_count() == 0
                } by {
                    assert(mid[n].incidence() == before.nets@[n].incidence());
                    if self.nets@ != mid {
                        assert(self.nets@[n].same_but_currents(mid[n]));
                    }
                }
            }
            k = k + 1;
        }
        let ghost summed = self.nets@;
        let mut n: usize = 0;
        while n < n_nets
            invariant
                before.wf(),
                self.components@ == before.components@,
                n_nets == self.nets@.len(),
                n_nets == summed.len(),
                n_nets == before.nets@.len(),
                summed == currents_upto(before.components@, cleared, before.components@.len()),
                cleared == Seq::new(before.nets@.len(), |m: int| before.nets@[m].imbalance_reset()),
                n <= n_nets,
                forall|m: int| 0 <= m < n ==> #[trigger] self.nets@[m] == summed[m].normalized(),
                forall|m: int| n <= m < n_nets ==> #[trigger] self.nets@[m] == summed[m],
                forall|m: int|
                    0 <= m < n_nets ==> {
                        &&& #[trigger] summed[m].incidence() == before.nets@[m].incidence()
                        &&& summed[m].vote_count() == 0
                    },
            decreases n_nets - n,
        {
            let ghost prev = self.nets@;
            self.nets[n].normalize_current();
            proof {
                assert forall|m: int| 0 <= m < n_nets && m != n implies #[trigger] self.nets@[m] == prev[m] by {}
            }
            n = n + 1;
        }
        let ghost balanced = self.nets@;
        proof {
            assert(balanced =~= balanced_nets(before.components@, before.nets@));
            assert forall|m: int| 0 <= m < n_nets implies {
                &&& #[trigger] self.nets@[m].incidence() == before.nets@[m].incidence()
                &&& self.nets@[m].vote_count() == 0
                &&& self.nets@[m].source_count() == 0
            } by {
                assert(self.nets@[m] == summed[m].normalized());
                assert(summed[m].incidence() == before.nets@[m].incidence());
            }
        }
        let mut converged = true;
        let mut k: usize = 0;
        while k < n_components
            invariant
                before.wf(),
                n_components == self.components@.len(),
                n_components == before.components@.len(),
                k <= n_components,
                self.nets@ == balanced,
                n_nets == balanced.len(),
                n_nets == before.nets@.len(),
                forall|c: int| 0 <= c < k ==> #[trigger] self.components@[c] == before.components@[c].perturbed(balanced),
                forall|c: int| k <= c < n_components ==> #[trigger] self.components@[c] == before.components@[c],
                converged == forall|c: int| 0 <= c < k ==> #[trigger] before.components@[c].perturb_converged(balanced),
                forall|c: int|
                    0 <= c < n_components ==> #[trigger] self.components@[c].terminals()
                        == before.components@[c].terminals() && self.components@[c].kind()
                        == before.components@[c].kind(),
                forall|m: int|
                    0 <= m < n_nets ==> {
                        &&& #[trigger] self.nets@[m].incidence() == before.nets@[m].incidence()
                        &&& self.nets@[m].vote_count() == 0
                        &&& self.nets@[m].source_count() == 0
                    },
            decreases n_components - k,
        {
            proof {
                assert(self.components@[k as int].terminals() == before.components@[k as int].terminals());
                assert forall|t: int| 0 <= t < self.components@[k as int].terminals().len()
                    implies #[trigger] self.components@[k as int].terminals()[t] < self.nets@.len() by {
                    assert(before.components@[k as int].terminals()[t] < before.nets@.len());
                }
            }
            let ghost prev = self.components@;
            if !self.components[k].perturb_from_nets(&self.nets) {
                converged = false;
            }
            proof {
                assert forall|c: int| 0 <= c < n_components && c != k implies #[trigger] self.components@[c] == prev[c] by {}
                assert(converged == forall|c: int| 0 <= c < k + 1 ==> #[trigger] before.components@[c].perturb_converged(balanced)) by {
                    if !converged {
                        if !before.components@[k as int].perturb_converged(balanced) {
                        } else {
                            let c = choose|c: int| 0 <= c < k && !#[trigger] before.components@[c].perturb_converged(balanced);
                        }
                    }
                }
            }
            k = k + 1;
        }
        proof {
            assert(self.components@ =~= charge_pass_components(before.components@, before.nets@));
            before.lemma_same_topology(self);
            assert forall|m: int| 0 <= m < self.nets@.len() implies #[trigger] self.nets@[m].vote_count() == 0
                && self.nets@[m].source_count() == 0 by {}
        }
        converged
    }

    /// Relaxes the circuit toward a state consistent with every device and
    /// with charge conservation at every net, seeded with the present state.
    /// Each outer round `i` runs up to `VOLTAGE_PASSES` voltage corrections
    /// with damping `0.5 sin(1349 i) + 0.5`, stopping early at a converged
    /// pass, then one charge-state correction. Returns true at the first round
    /// whose first voltage pass and charge correction both converged; false
    /// once `MAX_OUTER_ROUNDS` rounds have failed. Exactly what `solve_from`
    /// describes; topology and parameters are left as they were.
    pub fn solve_state(&mut self) -> (r: HasConverged)
        requires
            old(self).wf(),
        ensures
            final(self).wf(),
            old(self).same_topology(final(self)),
            (r, final(self).components_view(), final(self).nets_view()) == solve_from(
                old(self).components_view(),
                old(self).nets_view(),
                0,
            ),
            forall|c: int|
                0 <= c < old(self).n_components() ==> keeps_fixed_state(
                    old(self).component(c),
                    #[trigger] final(self).component(c),
                ),
    {
        let ghost before = *self;
        proof {
            lemma_solve_keeps_fixed_state(before.components@, before.nets@, 0);
            assert forall|c: int| 0 <= c < self.components@.len() implies #[trigger] self.components@[c].terminals()
                == before.components@[c].terminals() && self.components@[c].kind()
                == before.components@[c].kind() by {}
            assert forall|n: int| 0 <= n < self.nets@.len() implies #[trigger] self.nets@[n].incidence()
                == before.nets@[n].incidence() by {}
        }
        let one_half = R::from_decimal(5, -1);
        let mut i: u64 = 0;
        while i < MAX_OUTER_ROUNDS
            invariant
                one_half == half::<R>(),
                self.wf(),
                before == *old(self),
                before.same_topology(self),
                i <= MAX_OUTER_ROUNDS,
                solve_from(before.components@, before.nets@, 0) == solve_from(self.components@, self.nets@, i as nat),
            decreases MAX_OUTER_ROUNDS - i,
        {
            let phase: i64 = i as i64 * DITHER_FREQUENCY;
            assert(phase == ((i as nat) * DITHER_FREQUENCY) as i64);
            let step = R::from_int(phase).sin().times(one_half).plus(one_half);
            assert(step == dither_step::<R>(i as nat));
            let ghost round = *self;
            let mut converged = true;
            let mut pass: u64 = 0;
            let mut done = false;
            while !done && pass < VOLTAGE_PASSES
                invariant
                    self.wf(),
                    before.same_topology(self),
                    self.components@ == round.components@,
                    pass <= VOLTAGE_PASSES,
                    !done ==> micro_nets(round.components@, round.nets@, step, 0) == micro_nets(
                        round.components@,
                        self.nets@,
                        step,
                        pass as nat,
                    ),
                    done ==> micro_nets(round.components@, round.nets@, step, 0) == self.nets@,
                    pass == 0 ==> converged && !done && self.nets@ == round.nets@,
                    pass > 0 ==> converged == voltage_pass_converged(round.components@, round.nets@, step),
                    pass > 0 && !done ==> !converged,
                decreases VOLTAGE_PASSES - pass,
            {
                let ghost prev = *self;
                let pass_converged = self.correct_voltages(step);
                proof {
                    lemma_same_topology_trans(before, prev, *self);
                }
                if pass_converged {
                    done = true;
                } else {
                    converged = false;
                }
                pass = pass + 1;
            }
            let ghost prev = *self;
            if !self.correct_charge_states() {
                converged = false;
            }
            proof {
                lemma_same_topology_trans(before, prev, *self);
            }
            if converged {
                proof {
                    lemma_solve_keeps_fixed_state(before.components@, before.nets@, 0);
                }
                return true;
            }
            i = i + 1;
        }
        false
    }

    /// Advances every device's internal state by `dt`, then solves the
    /// circuit at the new state; returns whether that solve converged.
    pub fn tick(&mut self, dt: R) -> (r: HasConverged)
        requires
            old(self).wf(),
        ensures
            final(self).wf(),
            old(self).same_topology(final(self)),
            (r, final(self).components_view(), final(self).nets_view()) == solve_from(
                ticked_components(old(self).components_view(), dt),
                old(self).nets_view(),
                0,
            ),
    {
        let ghost before = *self;
        let n_components = self.components.len();
        let mut k: usize = 0;
        while k < n_components
            invariant
                before.wf(),
                n_components == self.components@.len(),
                n_components == before.components@.len(),
                k <= n_components,
                self.nets@ == before.nets@,
                forall|c: int| 0 <= c < k ==> #[trigger] self.components@[c] == before.components@[c].ticked(dt),
                forall|c: int| k <= c < n_components ==> #[trigger] self.components@[c] == before.components@[c],
                forall|c: int|
                    0 <= c < n_components ==> #[trigger] self.components@[c].terminals()
                        == before.components@[c].terminals() && self.components@[c].kind()
                        == before.components@[c].kind(),
            decreases n_components - k,
        {
            let ghost prev = self.components@;
            self.components[k].tick(dt);
            proof {
                assert forall|c: int| 0 <= c < n_components && c != k implies #[trigger] self.components@[c] == prev[c] by {}
            }
            k = k + 1;
        }
        proof {
            assert(self.components@ =~= ticked_components(before.components@, dt));
            assert forall|n: int| 0 <= n < self.nets@.len() implies #[trigger] before.nets@[n].incidence()
                == self.nets@[n].incidence() by {}
            before.lemma_same_topology(self);
            assert forall|m: int| 0 <= m < self.nets@.len() implies (#[trigger] self.nets@[m]).vote_count() == 0
                && self.nets@[m].source_count() == 0 by {
                assert(self.nets@[m] == before.nets@[m]);
            }
        }
        let ghost mid = *self;
        let r = self.solve_state();
        proof {
            lemma_same_topology_trans(before, mid, *self);
        }
        r
    }

    /// Number of nets.
    pub fn net_count(&self) -> (r: usize)
        ensures
            r == self.n_nets(),
    {
        self.nets.len()
    }

    /// Number of components.
    pub fn component_count(&self) -> (r: usize)
        ensures
            r == self.n_components(),
    {
        self.components.len()
    }

    /// Net `n`.
    pub fn net_state(&self, n: usize) -> (r: &NetState<R>)
        requires
            n < self.n_nets(),
        ensures
            *r == self.net(n as int),
    {
        &self.nets[n]
    }

    /// The present voltage estimate of net `n`.
    pub fn net_voltage(&self, n: usize) -> (r: R)
        requires
            n < self.n_nets(),
        ensures
            r == self.net(n as int).voltage,
    {
        self.nets[n].voltage()
    }

    /// Component `c`.
    pub fn component_state(&self, c: usize) -> (r: &ComponentStateEnum<R>)
        requires
            c < self.n_components(),
        ensures
            *r == self.component(c as int),
    {
        &self.components[c]
    }

    /// Replaces the dynamic state of component `c` by that of `state`, which
    /// must be the same device wired the same way: used to preload charge or
    /// current, set an offset emf, or open and close a switch between ticks.
    pub fn set_component_state(&mut self, c: usize, state: ComponentStateEnum<R>)
        requires
            old(self).wf(),
            c < old(self).n_components(),
            state.terminals() == old(self).component(c as int).terminals(),
            state.kind() == old(self).component(c as int).kind() || (
            state.kind() is Linear && old(self).component(c as int).kind() is Linear
                && state.kind()->Linear_0 is Switch
                && old(self).component(c as int).kind()->Linear_0 is Switch),
        ensures
            final(self).wf(),
            final(self).component(c as int) == state,
            final(self).n_components() == old(self).n_components(),
            forall|k: int|
                0 <= k < old(self).n_components() && k != c ==> #[trigger] final(self).component(k) == old(self).component(k),
            forall|n: int| 0 <= n < old(self).n_nets() ==> #[trigger] final(self).net(n) == old(self).net(n),
    {
        let ghost before = *self;
        self.components.set(c, state);
        proof {
            assert forall|k: int| 0 <= k < self.components@.len() implies #[trigger] self.components@[k].terminals()
                == before.components@[k].terminals() by {}
            assert forall|k: int, t: int|
                0 <= k < self.components@.len() && 0 <= t < self.components@[k].terminals().len()
                    implies self.nets@[#[trigger] self.components@[k].terminals()[t] as int].incidence().contains(
                (k as usize, t as usize),
            ) by {
                assert(self.components@[k].terminals() == before.components@[k].terminals());
                assert(before.components@[k].terminals()[t] < before.nets@.len());
            }
            assert forall|n: int, e: int|
                0 <= n < self.nets@.len() && 0 <= e < self.nets@[n].incidence().len() implies {
                    let (k, t) = #[trigger] self.nets@[n].incidence()[e];
                    &&& k < self.components@.len()
                    &&& t < self.components@[k as int].terminals().len()
                    &&& self.components@[k as int].terminals()[t as int] == n
                } by {
                let (k, t) = self.nets@[n].incidence()[e];
                assert(self.components@[k as int].terminals() == before.components@[k as int].terminals());
            }
            assert forall|k: int| 0 <= k < self.components@.len() implies #[trigger] self.components@[k].terminals().len() >= 2 by {
                assert(self.components@[k].terminals() == before.components@[k].terminals());
            }
            assert forall|k: int, t: int|
                0 <= k < self.components@.len() && 0 <= t < self.components@[k].terminals().len()
                    implies #[trigger] self.components@[k].terminals()[t] < self.nets@.len() by {
                assert(self.components@[k].terminals() == before.components@[k].terminals());
                assert(before.components@[k].terminals()[t] < before.nets@.len());
            }
        }
    }
}

proof fn lemma_same_topology_trans<R: Real>(a: CircuitState<R>, b: CircuitState<R>, c: CircuitState<R>)
    requires
        a.same_topology(&b),
        b.same_topology(&c),
    ensures
        a.same_topology(&c),
{
    assert forall|k: int| 0 <= k < a.components@.len() implies #[trigger] a.components@[k].terminals()
        == c.components@[k].terminals() && a.components@[k].kind() == c.components@[k].kind() by {
        assert(a.components@[k].terminals() == b.components@[k].terminals());
        assert(a.components@[k].kind() == b.components@[k].kind());
        assert(b.components@[k].terminals() == c.components@[k].terminals());
        assert(b.components@[k].kind() == c.components@[k].kind());
    }
    assert forall|n: int| 0 <= n < a.nets@.len() implies #[trigger] a.nets@[n].incidence()
        == c.nets@[n].incidence() by {
        assert(a.nets@[n].incidence() == b.nets@[n].incidence());
        assert(b.nets@[n].incidence() == c.nets@[n].incidence());
    }
}

/// Each terminal of `wiring` appears among the references to its net.
proof fn lemma_refs_to_complete(c: usize, wiring: Seq<usize>, t: int)
    requires
        0 <= t < wiring.len(),
    ensures
        refs_to(c, wiring, wiring[t] as int).contains((c, t as usize)),
    decreases wiring.len(),
{
    let last = wiring.len() - 1;
    let n = wiring[t] as int;
    let front = refs_to(c, wiring.drop_last(), n);
    let back: Seq<(usize, usize)> = if wiring[last] == n {
        seq![(c, last as usize)]
    } else {
        Seq::empty()
    };
    assert(refs_to(c, wiring, n) == front + back);
    if t == last {
        assert((front + back)[front.len() as int] == (c, t as usize));
    } else {
        assert(wiring.drop_last()[t] == wiring[t]);
        lemma_refs_to_complete(c, wiring.drop_last(), t);
        let e = choose|e: int| 0 <= e < front.len() && front[e] == (c, t as usize);
        assert((front + back)[e] == (c, t as usize));
    }
}

/// Every reference to net `n` names component `c` and a terminal of
/// `wiring` bound to `n`.
proof fn lemma_refs_to_sound(c: usize, wiring: Seq<usize>, n: int, e: int)
    requires
        0 <= e < refs_to(c, wiring, n).len(),
        wiring.len() <= usize::MAX,
    ensures
        refs_to(c, wiring, n)[e].0 == c,
        refs_to(c, wiring, n)[e].1 < wiring.len(),
        wiring[refs_to(c, wiring, n)[e].1 as int] == n,
    decreases wiring.len(),
{
    let last = wiring.len() - 1;
    let front = refs_to(c, wiring.drop_last(), n);
    let back: Seq<(usize, usize)> = if wiring[last] == n {
        seq![(c, last as usize)]
    } else {
        Seq::empty()
    };
    assert(refs_to(c, wiring, n) == front + back);
    if e < front.len() {
        lemma_refs_to_sound(c, wiring.drop_last(), n, e);
        assert(refs_to(c, wiring, n)[e] == front[e]);
        assert(wiring.drop_last()[front[e].1 as int] == wiring[front[e].1 as int]);
    } else {
        assert(refs_to(c, wiring, n)[e] == back[e - front.len()]);
    }
}

/// Appending a component wired to `wiring`, and registering its terminals with
/// their nets, keeps a circuit well formed.
proof fn lemma_wired<R: Real>(
    before: CircuitState<R>,
    after: CircuitState<R>,
    c: usize,
    wiring: Seq<usize>,
)
    requires
        before.wf(),
        before.components@.len() < MAX_COMPONENTS,
        c == before.components@.len(),
        after.components@.len() == c + 1,
        forall|k: int| 0 <= k < c ==> #[trigger] after.components@[k] == before.components@[k],
        after.components@[c as int].terminals() == wiring,
        2 <= wiring.len() <= usize::MAX,
        forall|k: int| 0 <= k < wiring.len() ==> #[trigger] wiring[k] < before.nets@.len(),
        after.nets@.len() == before.nets@.len(),
        forall|n: int|
            0 <= n < after.nets@.len() ==> {
                &&& #[trigger] after.nets@[n].incidence() == before.nets@[n].incidence() + refs_to(c, wiring, n)
                &&& after.nets@[n].vote_count() == 0
                &&& after.nets@[n].source_count() == 0
            },
    ensures
        after.wf(),
{
    assert forall|k: int, t: int|
        0 <= k < after.components@.len() && 0 <= t < after.components@[k].terminals().len()
            implies after.nets@[#[trigger] after.components@[k].terminals()[t] as int].incidence().contains(
        (k as usize, t as usize),
    ) by {
        let n = after.components@[k].terminals()[t] as int;
        let old_inc = before.nets@[n].incidence();
        let added = refs_to(c, wiring, n);
        assert(after.nets@[n].incidence() == old_inc + added);
        if k == c {
            lemma_refs_to_complete(c, wiring, t);
            let e = choose|e: int| 0 <= e < added.len() && added[e] == (k as usize, t as usize);
            assert((old_inc + added)[old_inc.len() + e] == (k as usize, t as usize));
        } else {
            assert(before.components@[k].terminals()[t] == n);
            assert(before.nets@[n].incidence().contains((k as usize, t as usize)));
            let e = choose|e: int| 0 <= e < old_inc.len() && old_inc[e] == (k as usize, t as usize);
            assert((old_inc + added)[e] == (k as usize, t as usize));
        }
    }
    assert forall|n: int, e: int|
        0 <= n < after.nets@.len() && 0 <= e < after.nets@[n].incidence().len() implies {
            let (k, t) = #[trigger] after.nets@[n].incidence()[e];
            &&& k < after.components@.len()
            &&& t < after.components@[k as int].terminals().len()
            &&& after.components@[k as int].terminals()[t as int] == n
        } by {
        let old_inc = before.nets@[n].incidence();
        let added = refs_to(c, wiring, n);
        assert(after.nets@[n].incidence() == old_inc + added);
        if e < old_inc.len() {
            assert(after.nets@[n].incidence()[e] == old_inc[e]);
            let (k, t) = old_inc[e];
            assert(after.components@[k as int] == before.components@[k as int]);
        } else {
            assert(after.nets@[n].incidence()[e] == added[e - old_inc.len()]);
            lemma_refs_to_sound(c, wiring, n, e - old_inc.len());
        }
    }
    assert forall|k: int, t: int|
        0 <= k < after.components@.len() && 0 <= t < after.components@[k].terminals().len()
            implies #[trigger] after.components@[k].terminals()[t] < after.nets@.len() by {
        if k < c {
            assert(after.components@[k] == before.components@[k]);
        }
    }
    assert forall|k: int|
        0 <= k < after.components@.len() implies #[trigger] after.components@[k].terminals().len() >= 2 by {
        if k < c {
            assert(after.components@[k] == before.components@[k]);
        }
    }
    assert forall|n: int| 0 <= n < after.nets@.len() implies #[trigger] after.nets@[n].vote_count() == 0
        && after.nets@[n].source_count() == 0 by {
        assert(after.nets@[n].incidence() == before.nets@[n].incidence() + refs_to(c, wiring, n));
    }
    assert(after.topology_wf());
}

} // verus!
