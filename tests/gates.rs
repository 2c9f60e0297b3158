use num_complex::Complex32;
use qcgpu::gate::Gate;
use qcgpu::state::State;
use std::f32::consts::FRAC_1_SQRT_2;

fn c(re: f32, im: f32) -> Complex32 {
    Complex32::new(re, im)
}

fn lin(p: Complex32, x: Complex32, q: Complex32, y: Complex32) -> Complex32 {
    p * x + q * y
}

fn norm(a: Complex32) -> f32 {
    a.norm_sqr()
}

fn step(key: f32, p: f32) -> (f32, bool) {
    let k = key - p;
    (k, k <= 0.0)
}

fn keys(n: usize) -> Vec<f32> {
    (0..n).map(|_| rand::random::<f32>()).collect()
}

fn h() -> Gate<Complex32> {
    Gate::new(c(FRAC_1_SQRT_2, 0.0), c(FRAC_1_SQRT_2, 0.0), c(FRAC_1_SQRT_2, 0.0), c(-FRAC_1_SQRT_2, 0.0))
}

fn x() -> Gate<Complex32> {
    Gate::new(c(0.0, 0.0), c(1.0, 0.0), c(1.0, 0.0), c(0.0, 0.0))
}

fn new_state(n: u32) -> State<Complex32> {
    State::new(n, c(0.0, 0.0), c(1.0, 0.0)).unwrap()
}

#[test]
fn hadamard() {
    for i in 1..18 {
        let state = new_state(i);

        let mut h_state = new_state(i);
        h_state.apply_gate(0, h(), &lin).unwrap();
        h_state.apply_gate(0, h(), &lin).unwrap();

        assert_eq!(
            state.measure_many(&keys(100), &norm, &step),
            h_state.measure_many(&keys(100), &norm, &step)
        );
    }
}

#[test]
fn not() {
    for i in 1..18 {
        let mut state = new_state(i);
        state.x(0).unwrap();

        assert_eq!(state.measure(rand::random::<f32>(), &norm, &step), 1);
    }
}

#[test]
fn apply_all() {
    for i in 1..18 {
        let mut state = new_state(i);
        state.apply_all(x(), &lin);

        assert_eq!(state.measure(rand::random::<f32>(), &norm, &step) as i32, 2_i32.pow(i) - 1);
    }
}

#[test]
fn controlled_not() {
    // Test by creating a bell state
    let mut state = new_state(2);
    state.apply_gate(0, h(), &lin).unwrap();
    state.cx(0, 1).unwrap();

    let measurements = state.measure_many(&keys(1000), &norm, &step);
    assert!(!measurements.contains_key("10") && !measurements.contains_key("01"));
}

#[test]
fn toffoli() {
    let mut state = new_state(3);
    state.apply_gate(0, h(), &lin).unwrap();
    state.apply_gate(1, h(), &lin).unwrap();
    state.toffoli(0, 1, 2).unwrap();

    let measurements = state.measure_many(&keys(1000), &norm, &step);
    assert!(
        !measurements.contains_key("100") && !measurements.contains_key("110")
            && !measurements.contains_key("011") && !measurements.contains_key("101")
    );
}

#[test]
fn swap() {
    let mut state = new_state(2);
    state.apply_gate(0, h(), &lin).unwrap();
    state.swap(0, 1).unwrap();

    let measurements = state.measure_many(&keys(1000), &norm, &step);
    assert!(!measurements.contains_key("01") && !measurements.contains_key("11"));
}
