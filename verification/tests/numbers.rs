use fa_leiden_cd::Binary32;

fn single(x: f32) -> Binary32 {
    Binary32::from_bits(x.to_bits())
}

fn same(found: Binary32, expected: f32) -> bool {
    if expected.is_nan() {
        f32::from_bits(found.to_bits()).is_nan()
    } else {
        found.to_bits() == expected.to_bits()
    }
}

/// Patterns around the places where exponents, signs and kinds of number change.
fn edges() -> Vec<u32> {
    let mut found: Vec<u32> = Vec::new();
    let marks: [u32; 20] = [
        0x0000_0000, 0x0000_0001, 0x0000_0002, 0x0040_0000, 0x007f_ffff, 0x0080_0000, 0x0080_0001,
        0x00ff_ffff, 0x0100_0000, 0x3280_0000, 0x3380_0000, 0x3f00_0000, 0x3f7f_ffff, 0x3f80_0000,
        0x3f80_0001, 0x4b80_0000, 0x7f00_0000, 0x7f7f_ffff, 0x7f80_0000, 0x7fc0_0000,
    ];
    for mark in marks {
        found.push(mark);
        found.push(mark | 0x8000_0000);
    }
    found
}

fn check(a: u32, b: u32) {
    let (x, y) = (f32::from_bits(a), f32::from_bits(b));
    let (p, q) = (Binary32::from_bits(a), Binary32::from_bits(b));
    assert!(same(p.plus(q), x + y), "{:x} + {:x}", a, b);
    assert!(same(p.minus(q), x - y), "{:x} - {:x}", a, b);
    assert!(same(p.times(q), x * y), "{:x} * {:x}", a, b);
    assert!(same(p.over(q), x / y), "{:x} / {:x}", a, b);
    assert_eq!(p.less_than(q), x < y, "{:x} < {:x}", a, b);
}

#[test]
fn bits_are_kept() {
    assert_eq!(Binary32::from_bits(0x3f80_0000).to_bits(), 0x3f80_0000);
    assert_eq!(single(1.0).bits, 0x3f80_0000);
}

#[test]
fn exact_values() {
    assert_eq!(single(0.1).plus(single(0.2)).to_bits(), 0x3e99_999a);
    assert_eq!(single(1.0).minus(single(0.9)).to_bits(), 0x3dcc_ccd0);
    assert_eq!(single(0.1).times(single(0.1)).to_bits(), 0x3c23_d70b);
    assert_eq!(single(1.0).over(single(3.0)).to_bits(), 0x3eaa_aaab);
    assert_eq!(single(1.5).negated().to_bits(), 0xbfc0_0000);
    assert!(single(-1.0).less_than(single(1.0)));
}

#[test]
fn ties_go_to_the_even_pattern() {
    let one = 0x3f80_0000;
    let half_step = single(2.0f32.powi(-24));
    assert_eq!(Binary32::from_bits(one).plus(half_step).to_bits(), one);
    assert_eq!(Binary32::from_bits(one + 1).plus(half_step).to_bits(), one + 2);
}

#[test]
fn special_numbers() {
    let infinite = single(f32::INFINITY);
    assert_eq!(infinite.minus(infinite).to_bits(), 0x7fc0_0000);
    assert_eq!(single(0.0).over(single(0.0)).to_bits(), 0x7fc0_0000);
    assert_eq!(infinite.times(single(0.0)).to_bits(), 0x7fc0_0000);
    assert_eq!(single(1.0).over(single(0.0)).to_bits(), infinite.to_bits());
    assert_eq!(single(f32::MAX).plus(single(f32::MAX)).to_bits(), infinite.to_bits());
    assert!(!single(f32::NAN).less_than(single(1.0)));
    assert!(!single(1.0).less_than(single(f32::NAN)));
}

#[test]
fn operations_agree_with_the_processor_at_the_edges() {
    let edges = edges();
    for &a in &edges {
        assert!(same(Binary32::from_bits(a).negated(), -f32::from_bits(a)));
        for &b in &edges {
            check(a, b);
        }
    }
}

#[test]
fn operations_agree_with_the_processor_elsewhere() {
    let mut state: u64 = 0x9e37_79b9_7f4a_7c15;
    for _ in 0..200_000 {
        state = state.wrapping_mul(6364136223846793005).wrapping_add(1442695040888963407);
        let a = (state >> 32) as u32;
        state = state.wrapping_mul(6364136223846793005).wrapping_add(1442695040888963407);
        let b = (state >> 32) as u32;
        check(a, b);
        // Numbers of about the same size.
        check(a, (a & 0xff80_0000) | (b & 0x007f_ffff));
    }
}

#[test]
fn order_of_operands_is_irrelevant() {
    let (a, b) = (single(0.3), single(1.0e-7));
    assert_eq!(a.plus(b).to_bits(), b.plus(a).to_bits());
    assert_eq!(a.times(b).to_bits(), b.times(a).to_bits());
}

#[test]
fn zero_is_neutral() {
    for x in [0.0f32, 1.0, -2.5, 1.0e-45, f32::MAX, f32::INFINITY] {
        assert_eq!(single(x).plus(single(0.0)).to_bits(), x.to_bits());
    }
    assert_eq!(single(-0.0).plus(single(0.0)).to_bits(), 0);
}

#[test]
fn comparison_orders_numbers() {
    let (a, b, c) = (single(-1.0), single(0.5), single(0.75));
    assert!(a.less_than(b) && b.less_than(c) && a.less_than(c));
    assert!(!b.less_than(a));
    assert!(!single(0.0).less_than(single(-0.0)) && !single(-0.0).less_than(single(0.0)));
}
