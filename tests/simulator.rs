use num_complex::Complex32;
use qcgpu::gate::Gate;
use qcgpu::simulator::{GateSet, Simulator};
use std::f32::consts::FRAC_1_SQRT_2;

type Lin = fn(Complex32, Complex32, Complex32, Complex32) -> Complex32;

fn c(re: f32, im: f32) -> Complex32 {
    Complex32::new(re, im)
}

fn lin(p: Complex32, x: Complex32, q: Complex32, y: Complex32) -> Complex32 {
    p * x + q * y
}

fn norm(a: Complex32) -> f32 {
    a.norm_sqr()
}

fn step(key: f32, p: f32) -> (f32, bool) {
    let k = key - p;
    (k, k <= 0.0)
}

fn x() -> Gate<Complex32> {
    Gate::new(c(0.0, 0.0), c(1.0, 0.0), c(1.0, 0.0), c(0.0, 0.0))
}

fn gates() -> GateSet<Complex32> {
    GateSet {
        h: Gate::new(c(FRAC_1_SQRT_2, 0.0), c(FRAC_1_SQRT_2, 0.0), c(FRAC_1_SQRT_2, 0.0), c(-FRAC_1_SQRT_2, 0.0)),
        y: Gate::new(c(0.0, 0.0), c(0.0, -1.0), c(0.0, 1.0), c(0.0, 0.0)),
        z: Gate::new(c(1.0, 0.0), c(0.0, 0.0), c(0.0, 0.0), c(-1.0, 0.0)),
    }
}

fn create_simulator(n: u8) -> Simulator<Complex32, Lin> {
    let sim = Simulator::new_opencl(n, c(0.0, 0.0), c(1.0, 0.0), gates(), lin as Lin);

    assert!(sim.is_ok(), "Error initializing OpenCL simulator");

    sim.unwrap()
}

#[test]
fn can_initialize_simulator() {
    for n in 1..25 {
        create_simulator(n);
    }
}

#[test]
fn can_apply_x_gate() {
    for n in 1..25 {
        let mut sim = create_simulator(n);

        for i in 0..n {
            assert!(sim.x(i).is_ok(), "Error applying pauli-x (not) gate to simulator");
        }
    }
}

#[test]
fn can_apply_y_gate() {
    for n in 1..25 {
        let mut sim = create_simulator(n);

        for i in 0..n {
            assert!(sim.y(i).is_ok(), "Error applying pauli-y gate to simulator");
        }
    }
}

#[test]
fn can_apply_z_gate() {
    for n in 1..25 {
        let mut sim = create_simulator(n);

        for i in 0..n {
            assert!(sim.z(i).is_ok(), "Error applying pauli-z gate to simulator");
        }
    }
}

#[test]
fn can_apply_h_gate() {
    for n in 1..25 {
        let mut sim = create_simulator(n);

        for i in 0..n {
            assert!(sim.h(i).is_ok(), "Error applying hadamard gate to simulator");
        }
    }
}

#[test]
fn can_apply_cx_gate() {
    for n in 2..25 {
        let mut sim = create_simulator(n);

        for i in 1..n {
            assert!(sim.cx(0, i).is_ok(), "Error applying controlled not gate to simulator");
        }
    }
}

#[test]
fn can_perform_measurement() {
    for n in 1..25 {
        let mut sim = create_simulator(n);
        sim.apply_all(x()).unwrap();
        assert_eq!(sim.measure(rand::random::<f32>(), &norm, &step) as i32, 2i32.pow(n as u32) - 1);
    }
}
