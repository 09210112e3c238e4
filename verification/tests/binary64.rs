use fuzzy::Binary64;

fn number(value: f64) -> Binary64 {
    Binary64::from_code(value.to_bits())
}

fn value(number: Binary64) -> f64 {
    f64::from_bits(number.code())
}

/// A fixed sequence of well-spread 64-bit patterns.
fn patterns(count: usize) -> Vec<u64> {
    let mut state: u64 = 0x9E37_79B9_7F4A_7C15;
    let mut all = Vec::new();
    for _ in 0..count {
        state ^= state << 13;
        state ^= state >> 7;
        state ^= state << 17;
        all.push(state);
    }
    all
}

fn samples() -> Vec<f64> {
    let mut all = vec![
        0.0,
        f64::from_bits(1),
        f64::from_bits(2),
        f64::from_bits(0x000F_FFFF_FFFF_FFFF),
        f64::MIN_POSITIVE,
        f64::MAX,
        1.0,
        1.5,
        2.0,
        0.9,
        1.2,
        0.8,
        0.7,
        0.6,
        0.2,
        0.05,
        0.001,
        0.1,
        3.0,
        9007199254740991.0,
        9007199254740993.0,
    ];
    for bits in patterns(160) {
        let x = f64::from_bits(bits & 0x7FFF_FFFF_FFFF_FFFF);
        if x.is_finite() {
            all.push(x);
        }
        // Closer together, so that sums and products meet ties and cancellations.
        all.push(f64::from_bits(0x3FD0_0000_0000_0000 + (bits & 0x003F_FFFF_FFFF_FFFF)));
        all.push(f64::from_bits(0x3FF0_0000_0000_0000 + (bits & 0x000F_0000_0000_0000)));
    }
    all
}

#[test]
fn products_round_like_the_hardware() {
    let all = samples();
    for &a in &all {
        for &b in &all {
            assert_eq!(value(number(a).times(&number(b))).to_bits(), (a * b).to_bits(), "{a} * {b}");
        }
    }
    assert_eq!(value(number(f64::INFINITY).times(&number(0.5))), f64::INFINITY);
    assert_eq!(value(number(f64::MAX).times(&number(2.0))), f64::INFINITY);
    assert_eq!(value(number(1e-300).times(&number(1e-300))), 0.0);
}

#[test]
fn quotients_round_like_the_hardware() {
    let all = samples();
    for &a in &all {
        for &b in &all {
            if (a == 0.0 || a.is_normal()) && b.is_normal() {
                let q = value(number(a).over(&number(b)));
                assert_eq!(q.to_bits(), (a / b).to_bits(), "{a} / {b}");
            }
        }
    }
    assert_eq!(value(number(1.0).over(&number(3.0))), 1.0 / 3.0);
}

#[test]
fn sums_and_differences_round_like_the_hardware() {
    let all = samples();
    for &a in &all {
        for &b in &all {
            assert_eq!(value(number(a).plus(&number(b))).to_bits(), (a + b).to_bits(), "{a} + {b}");
            if a >= b {
                let d = value(number(a).minus(&number(b)));
                assert_eq!(d.to_bits(), (a - b).to_bits(), "{a} - {b}");
            }
        }
    }
    assert_eq!(value(number(0.6).minus(&number(0.05))), 0.6 - 0.05);
}

#[test]
fn integers_round_like_the_hardware() {
    for bits in patterns(2000) {
        assert_eq!(value(Binary64::of_integer(bits)), bits as f64);
        assert_eq!(value(Binary64::of_integer(bits >> 7)), (bits >> 7) as f64);
        assert_eq!(value(Binary64::of_integer(bits >> 12)), (bits >> 12) as f64);
        assert_eq!(value(Binary64::of_integer(bits >> 40)), (bits >> 40) as f64);
    }
    assert_eq!(value(Binary64::of_integer(0)), 0.0);
    assert_eq!(value(Binary64::of_integer(u64::MAX)), u64::MAX as f64);
}

#[test]
fn codes_are_ordered_like_the_numbers() {
    let all = samples();
    for &a in &all {
        for &b in &all {
            assert_eq!(number(a).exceeds(&number(b)), a > b);
            assert_eq!(value(number(a).at_least(&number(b))), a.max(b));
        }
    }
}
