use num_complex::Complex32;
use qcgpu::error::QuantumError;
use qcgpu::gate::Gate;
use qcgpu::measure::{get_counts, prefix, sample_index, Counts};
use qcgpu::state::{Backend, State};
use qcgpu::utilities::{gcd, get_bit, get_width};
use std::f32::consts::FRAC_1_SQRT_2;

fn c(re: f32, im: f32) -> Complex32 {
    Complex32::new(re, im)
}

fn lin(p: Complex32, x: Complex32, q: Complex32, y: Complex32) -> Complex32 {
    p * x + q * y
}

fn norm(a: Complex32) -> f32 {
    a.norm_sqr()
}

fn step(key: f32, p: f32) -> (f32, bool) {
    let k = key - p;
    (k, k <= 0.0)
}

fn h() -> Gate<Complex32> {
    Gate::new(c(FRAC_1_SQRT_2, 0.0), c(FRAC_1_SQRT_2, 0.0), c(FRAC_1_SQRT_2, 0.0), c(-FRAC_1_SQRT_2, 0.0))
}

fn y() -> Gate<Complex32> {
    Gate::new(c(0.0, 0.0), c(0.0, -1.0), c(0.0, 1.0), c(0.0, 0.0))
}

fn new_state(n: u32) -> State<Complex32> {
    State::new(n, c(0.0, 0.0), c(1.0, 0.0)).unwrap()
}

fn close(a: Complex32, b: Complex32) -> bool {
    (a - b).norm() < 1e-6
}

#[test]
fn hadamard_recombines_the_pair() {
    let mut s = new_state(2);
    s.apply_gate(1, h(), &lin).unwrap();
    let a = s.get_amplitudes();
    assert!(close(a[0], c(FRAC_1_SQRT_2, 0.0)));
    assert!(close(a[1], c(0.0, 0.0)));
    assert!(close(a[2], c(FRAC_1_SQRT_2, 0.0)));
    assert!(close(a[3], c(0.0, 0.0)));
}

#[test]
fn pauli_y_on_basis_one() {
    let mut s = State::from_bit_string("1", c(0.0, 0.0), c(1.0, 0.0)).unwrap();
    s.apply_gate(0, y(), &lin).unwrap();
    let a = s.get_amplitudes();
    assert!(close(a[0], c(0.0, -1.0)));
    assert!(close(a[1], c(0.0, 0.0)));
}

#[test]
fn controlled_gate_keeps_pairs_with_control_zero() {
    let mut s = State::from_bit_string("|01>", c(0.0, 0.0), c(1.0, 0.0)).unwrap();
    // qubit 0 is 1, qubit 1 is 0: a gate on qubit 0 controlled by qubit 1 does nothing
    s.apply_controlled_gate(1, 0, h(), &lin).unwrap();
    assert_eq!(s.get_amplitudes(), vec![c(0.0, 0.0), c(1.0, 0.0), c(0.0, 0.0), c(0.0, 0.0)]);
    // controlled by qubit 0 it acts on qubit 1
    s.apply_controlled_gate(0, 1, h(), &lin).unwrap();
    let a = s.get_amplitudes();
    assert!(close(a[1], c(FRAC_1_SQRT_2, 0.0)));
    assert!(close(a[3], c(FRAC_1_SQRT_2, 0.0)));
    assert!(close(a[0], c(0.0, 0.0)));
}

#[test]
fn doubly_controlled_gate_needs_both_controls() {
    let x = Gate::new(c(0.0, 0.0), c(1.0, 0.0), c(1.0, 0.0), c(0.0, 0.0));
    let mut s = State::from_bit_string("011", c(0.0, 0.0), c(1.0, 0.0)).unwrap();
    s.apply_doubly_controlled_gate(0, 1, 2, x, &lin).unwrap();
    assert_eq!(s.get_amplitudes()[7], c(1.0, 0.0));
    let mut t = State::from_bit_string("001", c(0.0, 0.0), c(1.0, 0.0)).unwrap();
    t.apply_doubly_controlled_gate(0, 1, 2, x, &lin).unwrap();
    assert_eq!(t.get_amplitudes()[1], c(1.0, 0.0));
}

#[test]
fn invalid_qubit_indices_are_rejected() {
    let mut s = new_state(2);
    let before = s.get_amplitudes();
    assert_eq!(s.apply_gate(2, h(), &lin), Err(QuantumError::InvalidQubitIndex));
    assert_eq!(s.apply_controlled_gate(1, 1, h(), &lin), Err(QuantumError::InvalidQubitIndex));
    assert_eq!(s.apply_doubly_controlled_gate(0, 1, 1, h(), &lin), Err(QuantumError::InvalidQubitIndex));
    assert_eq!(s.x(5), Err(QuantumError::InvalidQubitIndex));
    assert_eq!(s.cx(0, 0), Err(QuantumError::InvalidQubitIndex));
    assert_eq!(s.toffoli(0, 1, 0), Err(QuantumError::InvalidQubitIndex));
    assert_eq!(s.swap(0, 2), Err(QuantumError::InvalidQubitIndex));
    assert_eq!(s.measure_scratch(3), Err(QuantumError::InvalidQubitIndex));
    assert_eq!(s.get_amplitudes(), before);
}

#[test]
fn too_many_qubits_is_resource_exhausted() {
    assert_eq!(State::new(32, c(0.0, 0.0), c(1.0, 0.0)).err(), Some(QuantumError::ResourceExhausted));
    let mut s = new_state(3);
    assert_eq!(s.add_scratch(29, c(0.0, 0.0)), Err(QuantumError::ResourceExhausted));
    assert_eq!(s.num_qubits(), 3);
}

#[test]
fn basis_state_must_lie_in_register() {
    assert_eq!(
        State::with_basis_state(2, 4, Backend::Sequential, c(0.0, 0.0), c(1.0, 0.0)).err(),
        Some(QuantumError::InvalidBasisState)
    );
    let s = State::with_basis_state(2, 3, Backend::WorkItems, c(0.0, 0.0), c(1.0, 0.0)).unwrap();
    assert_eq!(s.get_amplitudes()[3], c(1.0, 0.0));
}

#[test]
fn bit_strings_are_parsed_most_significant_first() {
    let s = State::from_bit_string("10110", c(0.0, 0.0), c(1.0, 0.0)).unwrap();
    assert_eq!(s.num_qubits(), 5);
    assert_eq!(s.get_amplitudes()[22], c(1.0, 0.0));
    let t = State::from_bit_string("0000001111101110", c(0.0, 0.0), c(1.0, 0.0)).unwrap();
    assert_eq!(t.num_qubits(), 16);
    assert_eq!(t.measure(0.5f32, &norm, &step), 1006);
    for bad in ["", "|>", "|012>", "10a1", "11111111111111111111111111111111"] {
        assert_eq!(
            State::from_bit_string(bad, c(0.0, 0.0), c(1.0, 0.0)).err(),
            Some(QuantumError::InvalidBitString)
        );
    }
}

#[test]
fn swapping_twice_restores_the_amplitudes() {
    let mut s = new_state(3);
    s.apply_gate(0, h(), &lin).unwrap();
    s.apply_gate(2, y(), &lin).unwrap();
    let before = s.get_amplitudes();
    s.swap(0, 1).unwrap();
    assert_ne!(s.get_amplitudes(), before);
    s.swap(0, 1).unwrap();
    assert_eq!(s.get_amplitudes(), before);
}

#[test]
fn swap_exchanges_qubit_values() {
    let mut s = State::from_bit_string("001", c(0.0, 0.0), c(1.0, 0.0)).unwrap();
    s.swap(0, 2).unwrap();
    assert_eq!(s.get_amplitudes()[4], c(1.0, 0.0));
}

#[test]
fn scratch_round_trip() {
    for i in 1..10 {
        let mut s = new_state(i);
        s.apply_gate(0, h(), &lin).unwrap();
        let before = s.get_amplitudes();
        s.add_scratch(2, c(0.0, 0.0)).unwrap();
        assert_eq!(s.num_qubits(), i + 2);
        assert_eq!(s.get_amplitudes().len(), 1 << (i + 2));
        assert_eq!(s.get_amplitudes()[1 << i], c(0.0, 0.0));
        s.measure_scratch(2).unwrap();
        assert_eq!(s.num_qubits(), i);
        assert_eq!(s.get_amplitudes(), before);
    }
}

#[test]
fn same_gates_give_same_probabilities() {
    let run = || {
        let mut s = new_state(4);
        s.apply_all(h(), &lin);
        s.cx(0, 3).unwrap();
        s.apply_controlled_gate(1, 2, y(), &lin).unwrap();
        s.toffoli(0, 1, 3).unwrap();
        s.get_probabilities(&norm)
    };
    let a = run();
    let b = run();
    assert_eq!(a.len(), 16);
    for k in 0..16 {
        assert!((a[k] - b[k]).abs() < 1e-5);
    }
    let total: f32 = a.iter().sum();
    assert!((total - 1.0).abs() < 1e-5);
}

#[test]
fn sampling_walks_and_clamps() {
    let probs = vec![0.25f32, 0.5, 0.25];
    assert_eq!(sample_index(&probs, 0.1f32, &step), 0);
    assert_eq!(sample_index(&probs, 0.3f32, &step), 1);
    assert_eq!(sample_index(&probs, 0.8f32, &step), 2);
    let drifted = vec![0.1f32, 0.1, 0.1];
    assert_eq!(sample_index(&drifted, 0.9f32, &step), 2);
}

#[test]
fn bell_state_only_gives_equal_bits() {
    let mut s = new_state(2);
    s.apply_gate(0, h(), &lin).unwrap();
    s.cx(0, 1).unwrap();
    let keys: Vec<f32> = (0..1000).map(|i| (i as f32 + 0.5) / 1000.0).collect();
    let m = s.measure_many(&keys, &norm, &step);
    assert_eq!(m.get("00").unwrap() + m.get("11").unwrap(), 1000);
    assert_eq!(m.get("01"), None);
    assert_eq!(m.get("10"), None);
}

#[test]
fn counts_of_outcomes() {
    let counts = get_counts(vec![0, 3, 3, 1], 2).unwrap();
    assert_eq!(counts.get("00"), Some(1));
    assert_eq!(counts.get("11"), Some(2));
    assert_eq!(counts.get("01"), Some(1));
    assert_eq!(counts.get("10"), None);
    assert_eq!(counts.get("011"), None);
    assert_eq!(counts.count(3), 2);
    assert!(counts.contains_key("01"));
    assert_eq!(get_counts(vec![4], 2).err(), Some(QuantumError::InvalidBasisState));
    assert_eq!(get_counts(vec![-1], 2).err(), Some(QuantumError::InvalidBasisState));
}

#[test]
fn prefixes_are_the_highest_qubits() {
    assert_eq!(prefix(0b1011, 4, 2), 0b10);
    assert_eq!(prefix(0b1011, 4, 4), 0b1011);
    assert_eq!(prefix(0b1011, 4, 0), 0);
    let c = Counts::from_prefixes(3, 1, &vec![0b100, 0b101, 0b011]).unwrap();
    assert_eq!(c.get("1"), Some(2));
    assert_eq!(c.get("0"), Some(1));
    assert_eq!(Counts::from_prefixes(2, 3, &vec![0]).err(), Some(QuantumError::InvalidQubitIndex));
}

#[test]
fn measure_first_counts_the_register_above_the_scratch() {
    let mut s = State::from_bit_string("10", c(0.0, 0.0), c(1.0, 0.0)).unwrap();
    s.add_scratch(1, c(0.0, 0.0)).unwrap();
    s.x(2).unwrap();
    let m = s.measure_first(1, &vec![0.5f32; 10], &norm, &step).unwrap();
    assert_eq!(m.get("1"), Some(10));
    assert_eq!(s.measure_first(4, &vec![0.5f32], &norm, &step).err(), Some(QuantumError::InvalidQubitIndex));
}

#[test]
fn integer_helpers() {
    assert_eq!(get_width(0), 0);
    assert_eq!(get_width(-5), 0);
    assert_eq!(get_width(i32::MAX), 31);
    assert_eq!(gcd(0, 5), 5);
    assert_eq!(gcd(12, 0), 12);
    assert_eq!(get_bit(5, 0), 1);
    assert_eq!(get_bit(5, 1), 0);
}

fn circuit(backend: Backend, seed_gates: &[(u32, u32)]) -> Vec<f32> {
    let mut s = State::new_on(5, backend, c(0.0, 0.0), c(1.0, 0.0)).unwrap();
    s.apply_all(h(), &lin);
    for &(a, b) in seed_gates {
        s.apply_gate(a, y(), &lin).unwrap();
        s.apply_controlled_gate(a, b, h(), &lin).unwrap();
        s.apply_doubly_controlled_gate(b, (a + 1) % 5, a, y(), &lin).unwrap();
        s.swap(a, b).unwrap();
    }
    s.get_probabilities(&norm)
}

#[test]
fn backends_agree() {
    let gates = [(0, 3), (4, 1), (2, 0), (1, 2), (3, 4)];
    let seq = circuit(Backend::Sequential, &gates);
    let items = circuit(Backend::WorkItems, &gates);
    assert_eq!(seq.len(), 32);
    for k in 0..32 {
        assert!((seq[k] - items[k]).abs() < 1e-5);
    }
}

#[test]
fn device_info_names_the_backend() {
    assert_eq!(new_state(1).device_info(), "sequential");
    let s = State::new_on(1, Backend::WorkItems, c(0.0, 0.0), c(1.0, 0.0)).unwrap();
    assert_eq!(s.device_info(), "work items");
    assert_eq!(s.backend(), Backend::WorkItems);
}

#[test]
fn collapsing_measurement_leaves_the_basis_state() {
    let mut s = new_state(2);
    s.apply_gate(0, h(), &lin).unwrap();
    s.cx(0, 1).unwrap();
    let r = s.measure_collapse(0.9f32, &norm, &step, c(0.0, 0.0), c(1.0, 0.0));
    assert_eq!(r, 3);
    assert_eq!(s.get_amplitudes(), vec![c(0.0, 0.0), c(0.0, 0.0), c(0.0, 0.0), c(1.0, 0.0)]);
    for _ in 0..20 {
        assert_eq!(s.measure(rand::random::<f32>(), &norm, &step), 3);
    }
}
