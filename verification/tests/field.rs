use tiled_m31::m31::{m31_mul, m31_mul_elem, M31, P};

#[test]
fn mul_matches_reference_mod() {
    let cases: [(u32, u32); 8] = [
        (0, 0),
        (1, 1),
        (2, 3),
        (123456, 654321),
        (P - 1, 2),
        (0x12345678, 0x0fedcba9),
        (P - 1, P - 2),
        (1 << 30, 1 << 30),
    ];
    for (a, b) in cases {
        let expect = ((a as u64 * b as u64) % (P as u64)) as u32;
        assert_eq!(m31_mul_elem(a, b), expect);
    }
}

#[test]
fn mul_reduction_boundary() {
    // (P - 1)^2 == 1 modulo P, in every lane.
    let a = [P - 1; 4];
    let b = [P - 1; 4];
    assert_eq!(m31_mul(a, b), [1u32; 4]);
}

#[test]
fn mul_identity() {
    assert_eq!(m31_mul_elem(123456, 1), 123456);
    let r = m31_mul([123456; 4], [1; 4]);
    assert_eq!(r, [123456u32; 4]);
}

#[test]
fn mul_one_zero_negation() {
    for x in [0u32, 1, 2, 12345, P - 2, P - 1] {
        assert_eq!(m31_mul_elem(x, 1), x);
        assert_eq!(m31_mul_elem(x, 0), 0);
        assert_eq!(m31_mul_elem(x, P - 1), (P - x) % P);
    }
}

#[test]
fn mul_lanes_are_independent() {
    let a = [1u32, 2, 3, 4];
    let b = [10u32, 20, 30, 40];
    assert_eq!(m31_mul(a, b), [10u32, 40, 90, 160]);
}

#[test]
fn scalar_from_reduces() {
    assert_eq!(M31::from(P).value(), 0);
    assert_eq!(M31::from(P + 5).value(), 5);
    assert_eq!(M31::from(7u32).value(), 7);
    assert_eq!(M31::from((P as u64) * 3 + 11).value(), 11);
}

#[test]
fn scalar_add_wraps() {
    let a = M31::from(P - 1);
    let b = M31::from(2u32);
    assert_eq!(a.add(b).value(), 1);
    let mut c = M31::from(10u32);
    c.add_assign(M31::from(20u32));
    assert_eq!(c.value(), 30);
    assert_eq!(M31::default().value(), 0);
}
