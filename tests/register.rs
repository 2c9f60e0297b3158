use num_complex::Complex32;
use qcgpu::state::State;

fn c(re: f32, im: f32) -> Complex32 {
    Complex32::new(re, im)
}

fn norm(a: Complex32) -> f32 {
    a.norm_sqr()
}

fn step(key: f32, p: f32) -> (f32, bool) {
    let k = key - p;
    (k, k <= 0.0)
}

fn new_state(n: u32) -> State<Complex32> {
    State::new(n, c(0.0, 0.0), c(1.0, 0.0)).unwrap()
}

fn from_bits(bits: &str) -> State<Complex32> {
    State::from_bit_string(bits, c(0.0, 0.0), c(1.0, 0.0)).unwrap()
}

#[test]
fn register_creation() {
    for i in 1..18 {
        let state = new_state(i);
        assert_eq!(state.measure(rand::random::<f32>(), &norm, &step), 0);
    }
}

#[test]
fn register_from_bitstring() {
    let state_1 = from_bits("|00>");
    assert_eq!(state_1.measure(rand::random::<f32>(), &norm, &step), 0);

    let state_2 = from_bits("|11>");
    assert_eq!(state_2.measure(rand::random::<f32>(), &norm, &step), 3);

    let state_3 = from_bits("|10110>");
    assert_eq!(state_3.measure(rand::random::<f32>(), &norm, &step), 22);

    let state_4 = from_bits("|0000001111101110>");
    assert_eq!(state_4.measure(rand::random::<f32>(), &norm, &step), 1006);
}

#[test]
fn num_qubits() {
    for i in 1..18 {
        let state = new_state(i);
        assert_eq!(state.num_qubits(), i);
    }
}

#[test]
fn add_scratch() {
    for i in 1..16 {
        let mut state = new_state(i);
        state.add_scratch(2, c(0.0, 0.0)).unwrap();
        assert_eq!(state.num_qubits(), i + 2);
    }
}
