//! Device models: linear two-terminal devices and a MOSFET with body diode.
use super::{
    converged, currents_imparted, half, i_target, impart_pair, spec_converged, spec_lerp,
    vote_pair, votes_cast, zero, HasConverged, NetState, Real,
};
use vstd::prelude::*;

verus! {

// ---------------------- LINEAR COMPONENTS ----------------------
// [capacitors, resistors, inductors, sources, switches]

/// Parameter of a linear two-terminal device.
#[derive(Clone, Copy)]
pub enum LinearComponentValue<R> {
    Capacitive(R),
    Resistive(R),
    Inductive(R),
    Source(R),
    Switch { closed: bool },
}

/// A linear two-terminal device and its dynamic state.
#[derive(Clone, Copy)]
pub struct LinearComponentState<R> {
    /// The nets bound to terminals 0 and 1.
    pub connected_nets_i: [usize; 2],
    pub value: LinearComponentValue<R>,
    /// `= [Q, Q', Q''] = [Q, I, d/dt I]`, where `Q` is charge and `I` is current from terminal 0 to 1.
    pub q: [R; 3],
    pub offset_emf: R,
}

impl<R: Real> LinearComponentValue<R> {
    pub fn n_terminals(&self) -> (r: usize)
        ensures
            r == 2,
    {
        2
    }

    /// True for a switch that is open: such a device constrains nothing.
    pub open spec fn is_open_switch(&self) -> bool {
        match *self {
            LinearComponentValue::Switch { closed } => !closed,
            _ => false,
        }
    }

    /// A device with this value, wired to `connected_nets_i`, at rest.
    pub fn create(&self, connected_nets_i: &[usize]) -> (r: LinearComponentState<R>)
        requires
            connected_nets_i@.len() == 2,
        ensures
            r.terminals() == connected_nets_i@,
            r.value == *self,
            r.at_rest(),
    {
        LinearComponentState::new(*self, connected_nets_i)
    }
}

/// Blend factor of a resistor's current toward the imbalance target.
pub open spec fn spec_factor_r<R: Real>() -> R {
    R::spec_from_int(1)
}

/// Blend factor of an inductor's current derivative toward the imbalance
/// target.
pub open spec fn spec_factor_l<R: Real>() -> R {
    R::spec_from_int(0)
}

fn factor_r<R: Real>() -> (r: R)
    ensures
        r == spec_factor_r::<R>(),
{
    R::from_int(1)
}

fn factor_l<R: Real>() -> (r: R)
    ensures
        r == spec_factor_l::<R>(),
{
    R::from_int(0)
}

/// `a * (1 - t) + b * t`.
fn lerp<R: Real>(t: R, a: R, b: R) -> (r: R)
    ensures
        r == spec_lerp(t, a, b),
{
    a.times(R::from_int(1).minus(t)).plus(b.times(t))
}

impl<R: Real> LinearComponentState<R> {
    /// The nets bound to terminals 0 and 1.
    pub open spec fn terminals(&self) -> Seq<usize> {
        seq![self.connected_nets_i[0], self.connected_nets_i[1]]
    }

    /// A linear device has two terminals.
    pub proof fn lemma_terminals_len(&self)
        ensures
            self.terminals().len() == 2,
    {
    }

    pub open spec fn spec_value(&self) -> LinearComponentValue<R> {
        self.value
    }

    /// No charge, no current, no offset.
    pub open spec fn at_rest(&self) -> bool {
        self.q == [zero::<R>(), zero::<R>(), zero::<R>()] && self.offset_emf == zero::<R>()
    }

    /// The voltage across the device (from terminal 0 to 1) that its
    /// constitutive rule asks for; none for an open switch.
    pub open spec fn voltage_target(&self) -> Option<R> {
        let own = match self.value {
            LinearComponentValue::Capacitive(c) => self.q[0].spec_negated().spec_divided_by(c),
            LinearComponentValue::Resistive(r) => self.q[1].spec_negated().spec_times(r),
            LinearComponentValue::Inductive(l) => self.q[2].spec_negated().spec_times(l),
            LinearComponentValue::Source(v) => v,
            LinearComponentValue::Switch { .. } => zero(),
        };
        if self.value.is_open_switch() {
            None
        } else {
            Some(self.offset_emf.spec_plus(own))
        }
    }

    /// `nets` after this device's vote with damping `step`.
    pub open spec fn voted(&self, nets: Seq<NetState<R>>, step: R) -> Seq<NetState<R>> {
        match self.voltage_target() {
            Some(target) => vote_pair(nets, self.connected_nets_i[0] as int, self.connected_nets_i[1] as int, target, step),
            None => nets,
        }
    }

    /// `nets` after this device adds its branch current to their imbalances.
    pub open spec fn imparted(&self, nets: Seq<NetState<R>>) -> Seq<NetState<R>> {
        if self.value.is_open_switch() {
            nets
        } else {
            impart_pair(nets, self.connected_nets_i[0] as int, self.connected_nets_i[1] as int, self.q[1], self.q[2])
        }
    }

    /// The new `[I, d/dt I]` after a perturbation from `nets`.
    pub open spec fn perturb_next(&self, nets: Seq<NetState<R>>) -> (R, R) {
        let a = self.connected_nets_i[0] as int;
        let b = self.connected_nets_i[1] as int;
        let v = nets[b].voltage.spec_minus(nets[a].voltage);
        let t0 = i_target(nets, a, b, self.q[1], 0);
        let t1 = i_target(nets, a, b, self.q[2], 1);
        match self.value {
            LinearComponentValue::Capacitive(_) => (t0, t1),
            LinearComponentValue::Source(_) => (t0, t1),
            LinearComponentValue::Resistive(r) => (spec_lerp(spec_factor_r(), v.spec_negated().spec_divided_by(r), t0), t1),
            LinearComponentValue::Inductive(l) => (self.q[1], spec_lerp(spec_factor_l(), v.spec_negated().spec_divided_by(l), t1)),
            LinearComponentValue::Switch { closed } => if closed {
                (t0, t1)
            } else {
                (zero(), zero())
            },
        }
    }

    /// This device after a perturbation from `nets`: only `I` and `d/dt I`
    /// change.
    pub open spec fn perturbed(&self, nets: Seq<NetState<R>>) -> Self {
        LinearComponentState { q: [self.q[0], self.perturb_next(nets).0, self.perturb_next(nets).1], ..*self }
    }

    /// Whether a perturbation from `nets` moves `I` and `d/dt I` by at most
    /// the tolerance.
    pub open spec fn perturb_converged(&self, nets: Seq<NetState<R>>) -> bool {
        spec_converged(self.q[1], self.perturb_next(nets).0) && spec_converged(self.q[2], self.perturb_next(nets).1)
    }

    /// This device after explicit integration over `dt`:
    /// `I += (dI/dt) dt`, then `Q += I dt`.
    pub open spec fn ticked(&self, dt: R) -> Self {
        let i = self.q[1].spec_plus(self.q[2].spec_times(dt));
        LinearComponentState { q: [self.q[0].spec_plus(i.spec_times(dt)), i, self.q[2]], ..*self }
    }

    pub fn new(value: LinearComponentValue<R>, connected_nets_i: &[usize]) -> (r: Self)
        requires
            connected_nets_i@.len() == 2,
        ensures
            r.terminals() == connected_nets_i@,
            r.value == value,
            r.at_rest(),
    {
        let zero = R::from_int(0);
        let r = LinearComponentState {
            connected_nets_i: [connected_nets_i[0], connected_nets_i[1]],
            value,
            q: [zero, zero, zero],
            offset_emf: zero,
        };
        assert(r.terminals() =~= connected_nets_i@);
        r
    }

    /// Votes, on each terminal's net, for a voltage across the device that
    /// moves toward its constitutive target. An open switch declines.
    pub fn impart_voltage_to_nets(&self, nets: &mut Vec<NetState<R>>, step: R)
        requires
            forall|t: int| 0 <= t < 2 ==> #[trigger] self.terminals()[t] < old(nets)@.len(),
            forall|n: int| 0 <= n < old(nets)@.len() ==> #[trigger] old(nets)@[n].vote_count() + 2 <= usize::MAX,
        ensures
            final(nets)@ == self.voted(old(nets)@, step),
            self.value.is_open_switch() ==> final(nets)@ == old(nets)@,
            !self.value.is_open_switch() ==> votes_cast(
                old(nets)@,
                final(nets)@,
                self.terminals()[0] as int,
                self.terminals()[1] as int,
            ),
    {
        let n0 = self.connected_nets_i[0];
        let n1 = self.connected_nets_i[1];
        assert(self.terminals()[0] == n0 && self.terminals()[1] == n1);
        let v_prev = nets[n1].voltage().minus(nets[n0].voltage());
        let v_target = match self.value {
            LinearComponentValue::Capacitive(c) => self.q[0].negated().divided_by(c),
            LinearComponentValue::Resistive(r) => self.q[1].negated().times(r),
            LinearComponentValue::Inductive(l) => self.q[2].negated().times(l),
            LinearComponentValue::Source(v) => v,
            LinearComponentValue::Switch { closed } => {
                if closed {
                    R::from_int(0)
                } else {
                    return ;
                }
            },
        };
        let v_target = self.offset_emf.plus(v_target);
        let v_diff = v_target.minus(v_prev).times(R::from_decimal(5, -1)).times(step);
        let ghost before = nets@;
        let target0 = nets[n0].voltage().minus(v_diff);
        nets[n0].cast_vote(target0);
        let target1 = nets[n1].voltage().plus(v_diff);
        nets[n1].cast_vote(target1);
        proof {
            assert(votes_cast(before, nets@, n0 as int, n1 as int));
        }
    }

    /// Adds the branch current and its derivative to the imbalance of both
    /// nets: negative at terminal 0, positive at terminal 1. An open switch
    /// declines.
    pub fn impart_currents_to_nets(&self, nets: &mut Vec<NetState<R>>)
        requires
            forall|t: int| 0 <= t < 2 ==> #[trigger] self.terminals()[t] < old(nets)@.len(),
            forall|n: int| 0 <= n < old(nets)@.len() ==> #[trigger] old(nets)@[n].source_count() + 2 <= usize::MAX,
        ensures
            final(nets)@ == self.imparted(old(nets)@),
            self.value.is_open_switch() ==> final(nets)@ == old(nets)@,
            !self.value.is_open_switch() ==> currents_imparted(
                old(nets)@,
                final(nets)@,
                self.terminals()[0] as int,
                self.terminals()[1] as int,
            ),
    {
        if let LinearComponentValue::Switch { closed: false } = self.value {
            return ;
        }
        let n0 = self.connected_nets_i[0];
        let n1 = self.connected_nets_i[1];
        assert(self.terminals()[0] == n0 && self.terminals()[1] == n1);
        let ghost before = nets@;
        nets[n0].add_current_contribution(true, self.q[1], self.q[2]);
        nets[n1].add_current_contribution(false, self.q[1], self.q[2]);
        proof {
            assert(currents_imparted(before, nets@, n0 as int, n1 as int));
        }
    }

    /// Moves the device's current toward consistency with the nets' voltages
    /// and current imbalances; reports whether it moved by at most the
    /// convergence tolerance.
    pub fn perturb_from_nets(&mut self, nets: &Vec<NetState<R>>) -> (r: HasConverged)
        requires
            forall|t: int| 0 <= t < 2 ==> #[trigger] old(self).terminals()[t] < nets@.len(),
        ensures
            *final(self) == old(self).perturbed(nets@),
            r == old(self).perturb_converged(nets@),
    {
        let n0 = self.connected_nets_i[0];
        let n1 = self.connected_nets_i[1];
        assert(self.terminals()[0] == n0 && self.terminals()[1] == n1);
        let v_target = nets[n1].voltage().minus(nets[n0].voltage());
        let half = R::from_decimal(5, -1);
        // self current + average of the excess flowing in and the deficit
        // flowing out: the device absorbs what its nets cannot.
        let i_target0 = self.q[1].plus(
            half.times(nets[n0].current_entry(0).minus(nets[n1].current_entry(0))),
        );
        let i_target1 = self.q[2].plus(
            half.times(nets[n0].current_entry(1).minus(nets[n1].current_entry(1))),
        );
        let (next1, next2) = match self.value {
            LinearComponentValue::Capacitive(_) => (i_target0, i_target1),
            LinearComponentValue::Source(_) => (i_target0, i_target1),
            LinearComponentValue::Resistive(r) => {
                // V = I R  ->  I = V / R, blended toward the imbalance target
                (lerp(factor_r(), v_target.negated().divided_by(r), i_target0), i_target1)
            },
            LinearComponentValue::Inductive(l) => {
                // V = L dI/dt  ->  dI/dt = V / L
                (self.q[1], lerp(factor_l(), v_target.negated().divided_by(l), i_target1))
            },
            LinearComponentValue::Switch { closed } => {
                if closed {
                    (i_target0, i_target1)
                } else {
                    (R::from_int(0), R::from_int(0))
                }
            },
        };
        let converged = converged(self.q[1], next1) && converged(self.q[2], next2);
        self.q = [self.q[0], next1, next2];
        converged
    }

    /// Explicit second-order integration over `dt`.
    pub fn tick(&mut self, dt: R)
        ensures
            *final(self) == old(self).ticked(dt),
    {
        let i = self.q[1].plus(self.q[2].times(dt));
        let q = self.q[0].plus(i.times(dt));
        self.q = [q, i, self.q[2]];
    }
}

// ---------------------- MOSFETS ----------------------

#[derive(Debug, Clone, Copy, PartialEq, Eq, Structural)]
pub enum MOSFETDopingType {
    PChannel,
    NChannel,
}

/// Parameters of a MOSFET.
#[derive(Clone, Copy)]
pub struct MOSFETComponentValue<R> {
    pub ty: MOSFETDopingType,
    pub beta: R,
    pub threshold_voltage: R,
    pub body_diode_saturation_current: R,
    pub body_diode_ideality_factor: R,
}

/// A MOSFET and its dynamic state.
#[derive(Clone, Copy)]
pub struct MOSFETComponentState<R> {
    /// `[source, gate, drain]`
    pub connected_nets_i: [usize; 3],
    pub value: MOSFETComponentValue<R>,
    /// `[I_ds, d/dt I_ds]`
    pub i: [R; 2],
    pub v_gs_positive: R,
    pub temperature: R,
}

impl<R: Real> MOSFETComponentValue<R> {
    pub fn n_terminals(&self) -> (r: usize)
        ensures
            r == 3,
    {
        3
    }

    /// A device with these parameters, wired to `[source, gate, drain]`, at
    /// rest.
    pub fn create(&self, connected_nets_i: &[usize]) -> (r: MOSFETComponentState<R>)
        requires
            connected_nets_i@.len() == 3,
        ensures
            r.terminals() == connected_nets_i@,
            r.value == *self,
            r.at_rest(),
    {
        MOSFETComponentState::new(*self, connected_nets_i)
    }
}

/// Elementary charge over Boltzmann's constant, in K/V, as mantissa and
/// decimal exponent.
pub const Q_OVER_K_MANTISSA: i64 = 11604518121550082;

pub const Q_OVER_K_EXP10: i32 = -12;

/// Default device temperature, in K.
pub const DEFAULT_TEMPERATURE: i64 = 295;

/// Bound on the body-diode exponent, which keeps `exp` finite.
pub const MAX_DIODE_EXPONENT: i64 = 64;

/// Elementary charge over Boltzmann's constant.
pub open spec fn q_over_k<R: Real>() -> R {
    R::spec_from_decimal(Q_OVER_K_MANTISSA, Q_OVER_K_EXP10)
}

impl<R: Real> MOSFETComponentState<R> {
    /// The nets bound to source, gate and drain.
    pub open spec fn terminals(&self) -> Seq<usize> {
        seq![self.connected_nets_i[0], self.connected_nets_i[1], self.connected_nets_i[2]]
    }

    /// A MOSFET has three terminals.
    pub proof fn lemma_terminals_len(&self)
        ensures
            self.terminals().len() == 3,
    {
    }

    pub open spec fn spec_value(&self) -> MOSFETComponentValue<R> {
        self.value
    }

    /// No current, no cached gate voltage, at the default temperature.
    pub open spec fn at_rest(&self) -> bool {
        &&& self.i == [zero::<R>(), zero::<R>()]
        &&& self.v_gs_positive == zero::<R>()
        &&& self.temperature == R::spec_from_int(DEFAULT_TEMPERATURE)
    }

    /// `x` in the device's own orientation: negated for a P-channel device.
    pub open spec fn oriented(&self, x: R) -> R {
        if self.value.ty == MOSFETDopingType::PChannel {
            x.spec_negated()
        } else {
            x
        }
    }

    /// `x` read in the P-channel orientation: negated for an N-channel
    /// device.
    pub open spec fn p_oriented(&self, x: R) -> R {
        if self.value.ty == MOSFETDopingType::PChannel {
            x
        } else {
            x.spec_negated()
        }
    }

    /// The drain-source voltage the device votes for, from its present drain
    /// current: the body diode's voltage when it conducts, the triode
    /// region's otherwise; none in cutoff and in saturation.
    pub open spec fn vds_target(&self) -> Option<R> {
        let i_ds = self.p_oriented(self.i[0]);
        if i_ds.spec_less_than(zero()) {
            let thermal = self.value.body_diode_ideality_factor.spec_times(self.temperature).spec_divided_by(q_over_k());
            Some(self.oriented(
                i_ds.spec_negated().spec_divided_by(self.value.body_diode_saturation_current).spec_plus(
                    R::spec_from_int(1),
                ).spec_ln().spec_times(thermal).spec_negated(),
            ))
        } else {
            let v_ctrl = self.v_gs_positive.spec_minus(self.value.threshold_voltage);
            if zero::<R>().spec_less_than(v_ctrl) {
                let v_ctrl_sq = v_ctrl.spec_times(v_ctrl);
                let knee = R::spec_from_int(2).spec_times(i_ds).spec_divided_by(self.value.beta);
                if knee.spec_less_than(v_ctrl_sq.spec_times(R::spec_from_decimal(99999i64, -5i32))) {
                    Some(self.oriented(v_ctrl.spec_minus(v_ctrl_sq.spec_minus(knee).spec_sqrt())))
                } else {
                    None
                }
            } else {
                None
            }
        }
    }

    /// `nets` after this device's vote with damping `step`; unchanged when
    /// it declines.
    pub open spec fn voted(&self, nets: Seq<NetState<R>>, step: R) -> Seq<NetState<R>> {
        match self.vds_target() {
            Some(target) => vote_pair(nets, self.connected_nets_i[0] as int, self.connected_nets_i[2] as int, target, step),
            None => nets,
        }
    }

    /// `nets` after this device adds its drain current to their imbalances.
    pub open spec fn imparted(&self, nets: Seq<NetState<R>>) -> Seq<NetState<R>> {
        impart_pair(nets, self.connected_nets_i[0] as int, self.connected_nets_i[2] as int, self.i[0], self.i[1])
    }

    /// `V_gs` read from `nets`, in the P-channel orientation.
    pub open spec fn read_v_gs(&self, nets: Seq<NetState<R>>) -> R {
        self.oriented(nets[self.connected_nets_i[1] as int].voltage.spec_minus(nets[self.connected_nets_i[0] as int].voltage))
    }

    /// `V_ds` read from `nets`, in the P-channel orientation.
    pub open spec fn read_v_ds(&self, nets: Seq<NetState<R>>) -> R {
        self.oriented(nets[self.connected_nets_i[2] as int].voltage.spec_minus(nets[self.connected_nets_i[0] as int].voltage))
    }

    /// The drain current that the channel or the body diode carries at the
    /// voltages in `nets`, in the P-channel orientation.
    pub open spec fn law_current(&self, nets: Seq<NetState<R>>) -> R {
        let v_gs = self.read_v_gs(nets);
        let v_ds = self.read_v_ds(nets);
        let beta = self.value.beta;
        if zero::<R>().spec_less_than(v_ds) {
            let v_ctrl = v_gs.spec_minus(self.value.threshold_voltage);
            if zero::<R>().spec_less_than(v_ctrl) {
                if v_ds.spec_less_than(v_ctrl) {
                    beta.spec_times(v_ctrl.spec_times(v_ds).spec_minus(v_ds.spec_times(v_ds).spec_times(half())))
                } else {
                    beta.spec_times(v_ctrl.spec_times(v_ctrl).spec_times(half()))
                }
            } else {
                zero()
            }
        } else {
            let exponent = v_ds.spec_negated().spec_times(q_over_k()).spec_divided_by(
                self.value.body_diode_ideality_factor.spec_times(self.temperature),
            ).spec_min(R::spec_from_int(MAX_DIODE_EXPONENT));
            self.value.body_diode_saturation_current.spec_negated().spec_times(
                exponent.spec_exp().spec_minus(R::spec_from_int(1)),
            )
        }
    }

    /// The new `[I_ds, d/dt I_ds]` after a perturbation from `nets`: the
    /// drain current halfway between the device law and the imbalance target.
    pub open spec fn perturb_next(&self, nets: Seq<NetState<R>>) -> (R, R) {
        let s = self.connected_nets_i[0] as int;
        let d = self.connected_nets_i[2] as int;
        (
            spec_lerp(half(), self.p_oriented(self.law_current(nets)), i_target(nets, s, d, self.i[0], 0)),
            i_target(nets, s, d, self.i[1], 1),
        )
    }

    /// This device after a perturbation from `nets`: the new current, and
    /// `V_gs` cached.
    pub open spec fn perturbed(&self, nets: Seq<NetState<R>>) -> Self {
        MOSFETComponentState {
            i: [self.perturb_next(nets).0, self.perturb_next(nets).1],
            v_gs_positive: self.read_v_gs(nets),
            ..*self
        }
    }

    /// Whether a perturbation from `nets` moves the current and the cached
    /// `V_gs` by at most the tolerance.
    pub open spec fn perturb_converged(&self, nets: Seq<NetState<R>>) -> bool {
        &&& spec_converged(self.i[0], self.perturb_next(nets).0)
        &&& spec_converged(self.i[1], self.perturb_next(nets).1)
        &&& spec_converged(self.v_gs_positive, self.read_v_gs(nets))
    }

    /// This device after explicit integration over `dt`:
    /// `I_ds += (d/dt I_ds) dt`.
    pub open spec fn ticked(&self, dt: R) -> Self {
        MOSFETComponentState { i: [self.i[0].spec_plus(self.i[1].spec_times(dt)), self.i[1]], ..*self }
    }

    pub fn new(value: MOSFETComponentValue<R>, connected_nets_i: &[usize]) -> (r: Self)
        requires
            connected_nets_i@.len() == 3,
        ensures
            r.terminals() == connected_nets_i@,
            r.value == value,
            r.at_rest(),
    {
        let zero = R::from_int(0);
        let r = MOSFETComponentState {
            connected_nets_i: [connected_nets_i[0], connected_nets_i[1], connected_nets_i[2]],
            value,
            i: [zero, zero],
            v_gs_positive: zero,
            temperature: R::from_int(DEFAULT_TEMPERATURE),
        };
        assert(r.terminals() =~= connected_nets_i@);
        r
    }

    /// Votes for a drain-source voltage while the channel is in its triode
    /// region or the body diode conducts; declines in cutoff and saturation.
    /// No vote is ever cast on a gate net.
    pub fn impart_voltage_to_nets(&self, nets: &mut Vec<NetState<R>>, step: R)
        requires
            forall|t: int| 0 <= t < 3 ==> #[trigger] self.terminals()[t] < old(nets)@.len(),
            forall|n: int| 0 <= n < old(nets)@.len() ==> #[trigger] old(nets)@[n].vote_count() + 2 <= usize::MAX,
        ensures
            final(nets)@ == self.voted(old(nets)@, step),
            self.vds_target() is None ==> final(nets)@ == old(nets)@,
            self.vds_target() is Some ==> votes_cast(
                old(nets)@,
                final(nets)@,
                self.terminals()[0] as int,
                self.terminals()[2] as int,
            ),
    {
        let zero = R::from_int(0);
        let one = R::from_int(1);
        let two = R::from_int(2);
        let p_channel = self.value.ty == MOSFETDopingType::PChannel;
        let i_ds = if p_channel {
            self.i[0]
        } else {
            self.i[0].negated()
        };
        let v_gs = self.v_gs_positive;
        let beta = self.value.beta;
        let v_ds = if i_ds.less_than(zero) {
            // body diode conducts forward
            let thermal = self.value.body_diode_ideality_factor.times(self.temperature).divided_by(
                R::from_decimal(Q_OVER_K_MANTISSA, Q_OVER_K_EXP10),
            );
            i_ds.negated().divided_by(self.value.body_diode_saturation_current).plus(
                one,
            ).ln().times(thermal).negated()
        } else {
            let v_ctrl = v_gs.minus(self.value.threshold_voltage);
            if zero.less_than(v_ctrl) {
                let v_ctrl_sq = v_ctrl.times(v_ctrl);
                let knee = two.times(i_ds).divided_by(beta);
                if knee.less_than(v_ctrl_sq.times(R::from_decimal(99999, -5))) {
                    // linear/triode region
                    v_ctrl.minus(v_ctrl_sq.minus(knee).sqrt())
                } else {
                    // saturation: no influence on voltage
                    return ;
                }
            } else {
                // cutoff: no influence on voltage
                return ;
            }
        };
        let v_ds = if p_channel {
            v_ds.negated()
        } else {
            v_ds
        };
        let ns = self.connected_nets_i[0];
        let nd = self.connected_nets_i[2];
        assert(self.terminals()[0] == ns && self.terminals()[2] == nd);
        let v_ds_prev = nets[nd].voltage().minus(nets[ns].voltage());
        let v_diff = v_ds.minus(v_ds_prev).times(R::from_decimal(5, -1)).times(step);
        let ghost before = nets@;
        let target_s = nets[ns].voltage().minus(v_diff);
        nets[ns].cast_vote(target_s);
        let target_d = nets[nd].voltage().plus(v_diff);
        nets[nd].cast_vote(target_d);
        proof {
            assert(votes_cast(before, nets@, ns as int, nd as int));
        }
    }

    /// Adds the drain current and its derivative to the imbalance of the
    /// source net (negative) and the drain net (positive).
    pub fn impart_currents_to_nets(&self, nets: &mut Vec<NetState<R>>)
        requires
            forall|t: int| 0 <= t < 3 ==> #[trigger] self.terminals()[t] < old(nets)@.len(),
            forall|n: int| 0 <= n < old(nets)@.len() ==> #[trigger] old(nets)@[n].source_count() + 2 <= usize::MAX,
        ensures
            final(nets)@ == self.imparted(old(nets)@),
            currents_imparted(
                old(nets)@,
                final(nets)@,
                self.terminals()[0] as int,
                self.terminals()[2] as int,
            ),
    {
        let ns = self.connected_nets_i[0];
        let nd = self.connected_nets_i[2];
        assert(self.terminals()[0] == ns && self.terminals()[2] == nd);
        let ghost before = nets@;
        nets[ns].add_current_contribution(true, self.i[0], self.i[1]);
        nets[nd].add_current_contribution(false, self.i[0], self.i[1]);
        proof {
            assert(currents_imparted(before, nets@, ns as int, nd as int));
        }
    }

    /// Moves the drain current halfway toward the channel or diode law and
    /// halfway toward the imbalance target, and caches `V_gs`; reports
    /// whether the state moved by at most the convergence tolerance.
    pub fn perturb_from_nets(&mut self, nets: &Vec<NetState<R>>) -> (r: HasConverged)
        requires
            forall|t: int| 0 <= t < 3 ==> #[trigger] old(self).terminals()[t] < nets@.len(),
        ensures
            *final(self) == old(self).perturbed(nets@),
            r == old(self).perturb_converged(nets@),
    {
        let zero = R::from_int(0);
        let half = R::from_decimal(5, -1);
        let p_channel = self.value.ty == MOSFETDopingType::PChannel;
        let ns = self.connected_nets_i[0];
        let ng = self.connected_nets_i[1];
        let nd = self.connected_nets_i[2];
        assert(self.terminals()[0] == ns && self.terminals()[1] == ng && self.terminals()[2] == nd);
        let v_gs = nets[ng].voltage().minus(nets[ns].voltage());
        let v_ds = nets[nd].voltage().minus(nets[ns].voltage());
        let (v_gs, v_ds) = if p_channel {
            (v_gs.negated(), v_ds.negated())
        } else {
            (v_gs, v_ds)
        };
        let i_ds = if zero.less_than(v_ds) {
            let v_ctrl = v_gs.minus(self.value.threshold_voltage);
            if zero.less_than(v_ctrl) {
                if v_ds.less_than(v_ctrl) {
                    // linear/triode region
                    self.value.beta.times(v_ctrl.times(v_ds).minus(v_ds.times(v_ds).times(half)))
                } else {
                    // saturation region
                    self.value.beta.times(v_ctrl.times(v_ctrl).times(half))
                }
            } else {
                // cutoff: the channel carries nothing
                zero
            }
        } else {
            // body diode
            let exponent = v_ds.negated().times(
                R::from_decimal(Q_OVER_K_MANTISSA, Q_OVER_K_EXP10),
            ).divided_by(self.value.body_diode_ideality_factor.times(self.temperature)).min(
                R::from_int(MAX_DIODE_EXPONENT),
            );
            self.value.body_diode_saturation_current.negated().times(
                exponent.exp().minus(R::from_int(1)),
            )
        };
        let i_ds = if p_channel {
            i_ds
        } else {
            i_ds.negated()
        };
        let i_target0 = self.i[0].plus(
            half.times(nets[ns].current_entry(0).minus(nets[nd].current_entry(0))),
        );
        let i_target1 = self.i[1].plus(
            half.times(nets[ns].current_entry(1).minus(nets[nd].current_entry(1))),
        );
        let next0 = lerp(half, i_ds, i_target0);
        let converged = converged(self.i[0], next0) && converged(self.i[1], i_target1) && converged(
            self.v_gs_positive,
            v_gs,
        );
        self.i = [next0, i_target1];
        self.v_gs_positive = v_gs;
        converged
    }

    /// Explicit integration of the drain current over `dt`.
    pub fn tick(&mut self, dt: R)
        ensures
            *final(self) == old(self).ticked(dt),
    {
        let i = self.i[0].plus(self.i[1].times(dt));
        self.i = [i, self.i[1]];
    }
}

} // verus!
