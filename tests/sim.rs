use circuit_sim::sim::components::{
    LinearComponentState, LinearComponentValue, MOSFETComponentState, MOSFETComponentValue,
    MOSFETDopingType,
};
use circuit_sim::sim::{CircuitState, ComponentStateEnum, ComponentValueEnum, NetState, Real};

/// Double-precision scalar for the solver.
#[derive(Clone, Copy, Debug)]
struct F(f64);

impl Real for F {
    // Each spec counterpart is the operation itself.
    fn spec_from_int(n: i64) -> Self {
        Self::from_int(n)
    }
    fn from_int(n: i64) -> Self {
        F(n as f64)
    }
    fn spec_from_decimal(mantissa: i64, exp10: i32) -> Self {
        Self::from_decimal(mantissa, exp10)
    }
    fn from_decimal(mantissa: i64, exp10: i32) -> Self {
        F(format!("{}e{}", mantissa, exp10).parse().unwrap())
    }
    fn spec_plus(self, rhs: Self) -> Self {
        self.plus(rhs)
    }
    fn plus(self, rhs: Self) -> Self {
        F(self.0 + rhs.0)
    }
    fn spec_minus(self, rhs: Self) -> Self {
        self.minus(rhs)
    }
    fn minus(self, rhs: Self) -> Self {
        F(self.0 - rhs.0)
    }
    fn spec_times(self, rhs: Self) -> Self {
        self.times(rhs)
    }
    fn times(self, rhs: Self) -> Self {
        F(self.0 * rhs.0)
    }
    fn spec_divided_by(self, rhs: Self) -> Self {
        self.divided_by(rhs)
    }
    fn divided_by(self, rhs: Self) -> Self {
        F(self.0 / rhs.0)
    }
    fn spec_negated(self) -> Self {
        self.negated()
    }
    fn negated(self) -> Self {
        F(-self.0)
    }
    fn spec_abs(self) -> Self {
        self.abs()
    }
    fn abs(self) -> Self {
        F(self.0.abs())
    }
    fn spec_less_than(self, rhs: Self) -> bool {
        self.less_than(rhs)
    }
    fn less_than(self, rhs: Self) -> bool {
        self.0 < rhs.0
    }
    fn spec_at_most(self, rhs: Self) -> bool {
        self.at_most(rhs)
    }
    fn at_most(self, rhs: Self) -> bool {
        self.0 <= rhs.0
    }
    fn spec_min(self, rhs: Self) -> Self {
        self.min(rhs)
    }
    fn min(self, rhs: Self) -> Self {
        F(self.0.min(rhs.0))
    }
    fn spec_sqrt(self) -> Self {
        self.sqrt()
    }
    fn sqrt(self) -> Self {
        F(self.0.sqrt())
    }
    fn spec_ln(self) -> Self {
        self.ln()
    }
    fn ln(self) -> Self {
        F(self.0.ln())
    }
    fn spec_exp(self) -> Self {
        self.exp()
    }
    fn exp(self) -> Self {
        F(self.0.exp())
    }
    fn spec_sin(self) -> Self {
        self.sin()
    }
    fn sin(self) -> Self {
        F(self.0.sin())
    }
}

const EPS_V: f64 = 1e-12;

fn linear(v: LinearComponentValue<F>) -> ComponentValueEnum<F> {
    ComponentValueEnum::Linear(v)
}

fn preload_charge(c: &mut CircuitState<F>, i: usize, q: f64) {
    let mut st = *c.component_state(i);
    if let ComponentStateEnum::Linear(ref mut l) = st {
        l.q[0] = F(q);
    }
    c.set_component_state(i, st);
}

fn set_switch(c: &mut CircuitState<F>, i: usize, closed: bool) {
    let mut st = *c.component_state(i);
    if let ComponentStateEnum::Linear(ref mut l) = st {
        l.value = LinearComponentValue::Switch { closed };
    }
    c.set_component_state(i, st);
}

/// Branch current of component `i`, from its first terminal to its last.
fn branch_current(c: &CircuitState<F>, i: usize) -> f64 {
    match c.component_state(i) {
        ComponentStateEnum::Linear(l) => l.q[1].0,
        ComponentStateEnum::MOSFET(m) => m.i[0].0,
    }
}

fn across(c: &CircuitState<F>, a: usize, b: usize) -> f64 {
    c.net_voltage(a).0 - c.net_voltage(b).0
}

fn mosfet_value(ty: MOSFETDopingType) -> MOSFETComponentValue<F> {
    MOSFETComponentValue {
        ty,
        beta: F(0.02),
        threshold_voltage: F(1.0),
        body_diode_saturation_current: F(0.1),
        body_diode_ideality_factor: F(1.0),
    }
}

/// Source, gate and drain nets; two 5 V sources hold `V_gs` and `V_ds` at
/// -5 V for a P-channel device and at +5 V for an N-channel one. Returns the
/// circuit, the nets `[s, g, d]`, the sources and the MOSFET.
fn mosfet_bench(ty: MOSFETDopingType) -> (CircuitState<F>, [usize; 3], [usize; 2], usize) {
    let mut c = CircuitState::<F>::new_empty();
    let s = c.create_net();
    let g = c.create_net();
    let d = c.create_net();
    let v = match ty {
        MOSFETDopingType::PChannel => 5.0,
        MOSFETDopingType::NChannel => -5.0,
    };
    let src_g = c.create_component(linear(LinearComponentValue::Source(F(v))), &[g, s]);
    let src_d = c.create_component(linear(LinearComponentValue::Source(F(v))), &[d, s]);
    let m = c.create_component(ComponentValueEnum::MOSFET(mosfet_value(ty)), &[s, g, d]);
    (c, [s, g, d], [src_g, src_d], m)
}

/// A 1 V source, a 1 ohm resistor and a switch in one loop. Returns the
/// circuit, the resistor and the switch.
fn switched_loop(closed: bool) -> (CircuitState<F>, usize, usize) {
    let mut c = CircuitState::<F>::new_empty();
    let a = c.create_net();
    let b = c.create_net();
    let k = c.create_net();
    c.create_component(linear(LinearComponentValue::Source(F(1.0))), &[a, b]);
    let r = c.create_component(linear(LinearComponentValue::Resistive(F(1.0))), &[b, k]);
    let sw = c.create_component(linear(LinearComponentValue::Switch { closed }), &[k, a]);
    (c, r, sw)
}

// ---------------------- construction ----------------------

#[test]
fn net_ids_are_dense() {
    let mut c = CircuitState::<F>::new_empty();
    assert_eq!(c.net_count(), 0);
    assert_eq!(c.create_net(), 0);
    assert_eq!(c.create_net(), 1);
    assert_eq!(c.create_net(), 2);
    assert_eq!(c.net_count(), 3);
    assert_eq!(c.component_count(), 0);
}

#[test]
fn create_component_registers_back_references() {
    let mut c = CircuitState::<F>::new_empty();
    let n0 = c.create_net();
    let n1 = c.create_net();
    let n2 = c.create_net();
    let r = c.create_component(linear(LinearComponentValue::Resistive(F(2.0))), &[n0, n1]);
    let m = c.create_component(
        ComponentValueEnum::MOSFET(mosfet_value(MOSFETDopingType::NChannel)),
        &[n1, n2, n0],
    );
    assert_eq!((r, m), (0, 1));
    assert_eq!(c.component_count(), 2);
    assert_eq!(c.net_state(n0).connections(), &vec![(0, 0), (1, 2)]);
    assert_eq!(c.net_state(n1).connections(), &vec![(0, 1), (1, 0)]);
    assert_eq!(c.net_state(n2).connections(), &vec![(1, 1)]);
}

#[test]
fn both_terminals_on_one_net_register_twice() {
    let mut c = CircuitState::<F>::new_empty();
    let n0 = c.create_net();
    c.create_component(linear(LinearComponentValue::Capacitive(F(1.0))), &[n0, n0]);
    assert_eq!(c.net_state(n0).connections(), &vec![(0, 0), (0, 1)]);
}

#[test]
fn terminal_counts() {
    let l: ComponentValueEnum<F> = linear(LinearComponentValue::Switch { closed: true });
    let m: ComponentValueEnum<F> =
        ComponentValueEnum::MOSFET(mosfet_value(MOSFETDopingType::PChannel));
    assert_eq!(l.n_terminals(), 2);
    assert_eq!(m.n_terminals(), 3);
}

#[test]
fn new_devices_start_at_rest() {
    let l = LinearComponentState::new(LinearComponentValue::Inductive(F(0.5)), &[3, 4]);
    assert_eq!([l.q[0].0, l.q[1].0, l.q[2].0, l.offset_emf.0], [0.0; 4]);
    let m = MOSFETComponentState::new(mosfet_value(MOSFETDopingType::PChannel), &[0, 1, 2]);
    assert_eq!([m.i[0].0, m.i[1].0, m.v_gs_positive.0], [0.0; 3]);
    assert_eq!(m.temperature.0, 295.0);
}

// ---------------------- net junction ----------------------

#[test]
fn apply_without_votes_keeps_voltage() {
    let mut n = NetState::<F>::new_empty();
    assert!(n.apply_accumulated_voltage());
    assert_eq!(n.voltage().0, 0.0);
}

#[test]
fn apply_averages_votes() {
    let mut n = NetState::<F>::new_empty();
    n.cast_vote(F(1.0));
    n.cast_vote(F(2.0));
    n.cast_vote(F(6.0));
    assert!(!n.apply_accumulated_voltage());
    assert_eq!(n.voltage().0, 3.0);
    // the accumulator was cleared: a single vote now decides
    n.cast_vote(F(3.0));
    assert!(n.apply_accumulated_voltage());
    assert_eq!(n.voltage().0, 3.0);
}

#[test]
fn apply_converges_within_tolerance() {
    let mut n = NetState::<F>::new_empty();
    n.cast_vote(F(0.5e-12));
    assert!(n.apply_accumulated_voltage());
    n.cast_vote(F(1.0));
    assert!(!n.apply_accumulated_voltage());
}

#[test]
fn current_contributions_normalise() {
    let mut n = NetState::<F>::new_empty();
    n.add_current_contribution(true, F(3.0), F(1.0));
    n.add_current_contribution(false, F(7.0), F(5.0));
    assert_eq!([n.current_entry(0).0, n.current_entry(1).0], [4.0, 4.0]);
    // the current residual check is disabled
    assert!(n.current_converged());
    n.normalize_current();
    assert_eq!([n.current_entry(0).0, n.current_entry(1).0], [2.0, 2.0]);
    // the count was cleared: normalising again changes nothing
    n.normalize_current();
    assert_eq!([n.current_entry(0).0, n.current_entry(1).0], [2.0, 2.0]);
    n.reset_current_imbalance();
    assert_eq!([n.current_entry(0).0, n.current_entry(1).0], [0.0, 0.0]);
    assert!(n.current_converged());
}

// ---------------------- device rules ----------------------

fn two_nets() -> Vec<NetState<F>> {
    vec![NetState::new_empty(), NetState::new_empty()]
}

#[test]
fn capacitor_votes_toward_minus_q_over_c() {
    let mut cap = LinearComponentState::new(LinearComponentValue::Capacitive(F(2.0)), &[0, 1]);
    cap.q[0] = F(2.0);
    let mut nets = two_nets();
    cap.impart_voltage_to_nets(&mut nets, F(1.0));
    for n in nets.iter_mut() {
        n.apply_accumulated_voltage();
    }
    // target -1 V across 0 -> 1: each net moves by half of the gap
    assert_eq!(nets[0].voltage().0, 0.5);
    assert_eq!(nets[1].voltage().0, -0.5);
}

#[test]
fn source_vote_with_offset_and_damping() {
    let mut src = LinearComponentState::new(LinearComponentValue::Source(F(3.0)), &[0, 1]);
    src.offset_emf = F(1.0);
    let mut nets = two_nets();
    src.impart_voltage_to_nets(&mut nets, F(0.5));
    for n in nets.iter_mut() {
        n.apply_accumulated_voltage();
    }
    assert_eq!(nets[1].voltage().0 - nets[0].voltage().0, 2.0);
}

#[test]
fn open_switch_declines_both_imparts() {
    let sw = LinearComponentState::new(LinearComponentValue::Switch { closed: false }, &[0, 1]);
    let mut nets = two_nets();
    sw.impart_voltage_to_nets(&mut nets, F(1.0));
    sw.impart_currents_to_nets(&mut nets);
    assert!(nets[0].apply_accumulated_voltage());
    assert!(nets[1].apply_accumulated_voltage());
    assert_eq!([nets[0].current_entry(0).0, nets[1].current_entry(0).0], [0.0, 0.0]);
}

#[test]
fn open_switch_perturb_forces_zero_current() {
    let mut sw = LinearComponentState::new(LinearComponentValue::Switch { closed: false }, &[0, 1]);
    sw.q = [F(1.0), F(2.0), F(3.0)];
    let nets = two_nets();
    assert!(!sw.perturb_from_nets(&nets));
    assert_eq!([sw.q[0].0, sw.q[1].0, sw.q[2].0], [1.0, 0.0, 0.0]);
}

#[test]
fn currents_imparted_with_sign() {
    let mut r = LinearComponentState::new(LinearComponentValue::Resistive(F(1.0)), &[0, 1]);
    r.q = [F(0.0), F(2.0), F(-4.0)];
    let mut nets = two_nets();
    r.impart_currents_to_nets(&mut nets);
    assert_eq!([nets[0].current_entry(0).0, nets[0].current_entry(1).0], [-2.0, 4.0]);
    assert_eq!([nets[1].current_entry(0).0, nets[1].current_entry(1).0], [2.0, -4.0]);
}

#[test]
fn capacitor_perturb_absorbs_imbalance() {
    let mut cap = LinearComponentState::new(LinearComponentValue::Capacitive(F(1.0)), &[0, 1]);
    cap.q = [F(1.0), F(1.0), F(0.0)];
    let mut nets = two_nets();
    nets[0].add_current_contribution(false, F(2.0), F(4.0));
    nets[1].add_current_contribution(true, F(2.0), F(4.0));
    // i_target = I + (imbalance in - imbalance out) / 2
    assert!(!cap.perturb_from_nets(&nets));
    assert_eq!([cap.q[1].0, cap.q[2].0], [3.0, 4.0]);
}

#[test]
fn inductor_perturb_follows_voltage() {
    let mut ind = LinearComponentState::new(LinearComponentValue::Inductive(F(0.5)), &[0, 1]);
    ind.q = [F(0.0), F(7.0), F(0.0)];
    let mut nets = two_nets();
    nets[1].cast_vote(F(2.0));
    nets[1].apply_accumulated_voltage();
    ind.perturb_from_nets(&nets);
    // dI/dt = -V/L; I untouched
    assert_eq!([ind.q[1].0, ind.q[2].0], [7.0, -4.0]);
}

#[test]
fn linear_tick_integrates() {
    let mut cap = LinearComponentState::new(LinearComponentValue::Capacitive(F(1.0)), &[0, 1]);
    cap.q = [F(1.0), F(2.0), F(3.0)];
    cap.tick(F(0.5));
    assert_eq!([cap.q[0].0, cap.q[1].0, cap.q[2].0], [2.75, 3.5, 3.0]);
}

#[test]
fn mosfet_tick_integrates_drain_current() {
    let mut m = MOSFETComponentState::new(mosfet_value(MOSFETDopingType::NChannel), &[0, 1, 2]);
    m.i = [F(1.0), F(2.0)];
    m.tick(F(0.5));
    assert_eq!([m.i[0].0, m.i[1].0], [2.0, 2.0]);
}

#[test]
fn mosfet_in_cutoff_declines_to_vote() {
    let m = MOSFETComponentState::new(mosfet_value(MOSFETDopingType::PChannel), &[0, 1, 2]);
    let mut nets = vec![NetState::new_empty(), NetState::new_empty(), NetState::new_empty()];
    m.impart_voltage_to_nets(&mut nets, F(1.0));
    for n in nets.iter_mut() {
        assert!(n.apply_accumulated_voltage());
    }
}

// ---------------------- solver ----------------------

#[test]
fn empty_circuit_solves() {
    let mut c = CircuitState::<F>::new_empty();
    assert!(c.solve_state());
    c.create_net();
    assert!(c.tick(F(1e-3)));
}

#[test]
fn mosfet_p_channel_in_saturation() {
    let (mut c, [s, g, d], _, m) = mosfet_bench(MOSFETDopingType::PChannel);
    assert!(c.solve_state());
    assert!((across(&c, g, s) + 5.0).abs() < 1e-9);
    assert!((across(&c, d, s) + 5.0).abs() < 1e-9);
    let i_ds = branch_current(&c, m);
    assert!((i_ds - 0.16).abs() <= 0.0016, "I_ds = {}", i_ds);
}

#[test]
fn mosfet_polarity_mirrors_current() {
    let (mut p, _, _, mp) = mosfet_bench(MOSFETDopingType::PChannel);
    let (mut n, _, _, mn) = mosfet_bench(MOSFETDopingType::NChannel);
    assert!(p.solve_state());
    assert!(n.solve_state());
    let (ip, i_n) = (branch_current(&p, mp), branch_current(&n, mn));
    assert!(ip > 0.0 && i_n < 0.0);
    assert!((ip + i_n).abs() < 1e-9, "{} vs {}", ip, i_n);
}

#[test]
fn converged_solve_nearly_balances_currents() {
    let (mut c, [s, g, d], [src_g, src_d], m) = mosfet_bench(MOSFETDopingType::PChannel);
    assert!(c.solve_state());
    let (ig, id, im) = (branch_current(&c, src_g), branch_current(&c, src_d), branch_current(&c, m));
    // each component adds -I at its first terminal and +I at its last
    let at_s = ig + id - im;
    let at_g = -ig;
    let at_d = -id + im;
    for (net, sum) in [(s, at_s), (g, at_g), (d, at_d)] {
        assert!(sum.abs() <= 1e-9, "net {}: {}", net, sum);
    }
}

#[test]
fn converged_solve_satisfies_voting_devices() {
    let (mut c, [s, g, d], _, _) = mosfet_bench(MOSFETDopingType::PChannel);
    assert!(c.solve_state());
    // the sources vote; the saturated MOSFET declines
    assert!((across(&c, s, g) - 5.0).abs() <= EPS_V);
    assert!((across(&c, s, d) - 5.0).abs() <= EPS_V);
}

#[test]
fn open_switch_blocks_current() {
    let (mut c, r, _) = switched_loop(false);
    assert!(c.solve_state());
    assert!(branch_current(&c, r).abs() < 1e-9);
}

#[test]
fn switch_can_be_flipped_between_ticks() {
    let (mut c, _, sw) = switched_loop(false);
    assert!(c.solve_state());
    set_switch(&mut c, sw, true);
    match c.component_state(sw) {
        ComponentStateEnum::Linear(l) => {
            assert!(matches!(l.value, LinearComponentValue::Switch { closed: true }))
        }
        ComponentStateEnum::MOSFET(_) => panic!("not a switch"),
    }
    assert!(c.tick(F(1e-3)));
}

/// Peak |V| across the capacitor of an isolated LC loop over `ticks` steps.
fn lc_peak(c_farad: f64, l_henry: f64, q0: f64, dt: f64, ticks: usize) -> f64 {
    let mut c = CircuitState::<F>::new_empty();
    let n0 = c.create_net();
    let n1 = c.create_net();
    let n2 = c.create_net();
    let cap = c.create_component(linear(LinearComponentValue::Capacitive(F(c_farad))), &[n0, n1]);
    c.create_component(linear(LinearComponentValue::Inductive(F(l_henry / 2.0))), &[n1, n2]);
    c.create_component(linear(LinearComponentValue::Inductive(F(l_henry / 2.0))), &[n2, n0]);
    preload_charge(&mut c, cap, q0);
    assert!(c.solve_state());
    let mut peak: f64 = 0.0;
    for _ in 0..ticks {
        peak = peak.max(across(&c, n0, n1).abs());
        assert!(c.tick(F(dt)));
    }
    peak
}

#[test]
fn lc_oscillator_keeps_its_amplitude() {
    // C = 0.1 F, two 0.1 H inductors, Q = -1 C: about two periods
    let peak = lc_peak(0.1, 0.2, -1.0, 1e-4, 20_000);
    assert!((9.0..=11.0).contains(&peak), "peak {}", peak);
}

#[test]
fn lc_energy_bound_over_ten_periods() {
    // C = 0.01 F, L = 0.1 H: period 2 pi sqrt(LC) ~ 0.199 s; Q0/C = 5 V
    let period = 2.0 * std::f64::consts::PI * (0.01f64 * 0.1).sqrt();
    let dt = 1e-4;
    let ticks = (10.0 * period / dt).ceil() as usize;
    let peak = lc_peak(0.01, 0.1, 0.05, dt, ticks);
    assert!((4.5..=5.5).contains(&peak), "peak {}", peak);
}

#[test]
fn mosfet_cutoff_blends_toward_zero_and_caches_v_gs() {
    let mut m = MOSFETComponentState::new(mosfet_value(MOSFETDopingType::NChannel), &[0, 1, 2]);
    m.i = [F(1.0), F(0.0)];
    m.v_gs_positive = F(3.0);
    let mut nets = vec![NetState::new_empty(), NetState::new_empty(), NetState::new_empty()];
    nets[2].cast_vote(F(1.0));
    nets[2].apply_accumulated_voltage();
    // V_ds = 1 > 0 and V_gs - V_th = -1: cutoff, so the law's current is 0
    assert!(!m.perturb_from_nets(&nets));
    assert_eq!([m.i[0].0, m.i[1].0], [0.5, 0.0]);
    assert_eq!(m.v_gs_positive.0, 0.0);
}
