use rsvp_reader::numeral;
use rsvp_reader::single::Single;

fn s(x: f32) -> Single {
    Single::from_bits(x.to_bits())
}

fn same(ours: Single, native: f32) -> bool {
    if native.is_nan() {
        ours.is_nan()
    } else {
        ours.to_bits() == native.to_bits()
    }
}

/// Patterns that reach every kind of number, and pseudorandom ones.
fn patterns() -> Vec<u32> {
    let mut v: Vec<u32> = vec![
        0, 1, 2, 3, 0x7fffff, 0x800000, 0x800001, 0xffffff, 0x1000000, 0x3f7fffff, 0x3f800000,
        0x3f800001, 0x34000000, 0x33800000, 0x4b7fffff, 0x4b800000, 0x7f7fffff, 0x7f800000,
        0x7fc00000, 0x7f000000, 0x5f000000, 0x5f800000, 0x3eb33333, 0x3f000000, 0x3effffff,
    ];
    let n = v.len();
    for i in 0..n {
        v.push(v[i] | 0x8000_0000);
    }
    let mut x: u64 = 0x1234_5678_9abc_def1;
    for _ in 0..400 {
        x = x.wrapping_mul(6364136223846793005).wrapping_add(1442695040888963407);
        v.push((x >> 32) as u32);
        // Exponents close to each other, so that sums cancel.
        v.push(0x4200_0000 + ((x >> 30) as u32 % 0x0300_0000));
    }
    v
}

#[test]
fn operations_agree_with_the_machine() {
    let v = patterns();
    for &a in &v {
        for &b in &v {
            let (x, y) = (f32::from_bits(a), f32::from_bits(b));
            let (p, q) = (Single::from_bits(a), Single::from_bits(b));
            assert!(same(p.plus(q), x + y), "{:x} + {:x}", a, b);
            assert!(same(p.minus(q), x - y), "{:x} - {:x}", a, b);
            assert!(same(p.times(q), x * y), "{:x} * {:x}", a, b);
            assert!(same(p.over(q), x / y), "{:x} / {:x}", a, b);
            assert_eq!(p.lt(q), x < y);
            assert_eq!(p.le(q), x <= y);
            if x != 0.0 || y != 0.0 {
                assert!(same(p.min(q), x.min(y)), "min {:x} {:x}", a, b);
                assert!(same(p.max(q), x.max(y)), "max {:x} {:x}", a, b);
            }
        }
    }
}

#[test]
fn conversions_agree_with_the_machine() {
    for &a in &patterns() {
        let x = f32::from_bits(a);
        let p = Single::from_bits(a);
        assert_eq!(p.truncate(u64::MAX), x as u64, "{:x}", a);
        assert_eq!(p.round(u64::MAX), x.round() as u64, "{:x}", a);
        assert_eq!(p.truncate(1000), (x as u64).min(1000));
        assert_eq!(p.is_nan(), x.is_nan());
        assert!(same(p.negated(), -x));
    }
    let mut n: u64 = 1;
    for i in 0..2000u64 {
        n = n.wrapping_mul(6364136223846793005).wrapping_add(i);
        let m = n >> (i % 64);
        assert!(same(Single::from_u64(m), m as f32), "{}", m);
    }
    assert!(same(Single::from_u64(u64::MAX), u64::MAX as f32));
    assert!(same(Single::from_u64(16_777_217), 16_777_216.0));
}

fn parse(t: &str) -> Option<Single> {
    let v: Vec<char> = t.chars().collect();
    numeral::parse(&v)
}

fn agrees(t: &str) {
    match t.parse::<f32>() {
        Ok(x) => assert!(same(parse(t).unwrap(), x), "{}", t),
        Err(_) => assert_eq!(parse(t), None, "{}", t),
    }
}

#[test]
fn numerals_agree_with_the_machine() {
    for t in [
        "", "+", "-", ".", "e5", "1e", "1e+", "1 ", " 1", "1_0", "0x1", "1.2.3", "--1", "+-1", "1e1.0",
        "0", "-0", "+0", "0.0", "00.100", "5.", ".5", "-.5e1", "1E5", "1e+5", "1e-5", "1e5", "103.8", "226.04",
        "612.000000", "792.000000", "3.4028234e38", "3.4028235e38", "3.4028236e38", "3.40282357e38", "1e39", "-1e39",
        "1e-45", "7e-46", "7.006492321624085e-46", "7.1e-46", "1.4e-45", "1e-46", "1.17549435e-38", "1.17549421e-38",
        "0e999999999999999999999", "1e999999999999999999999", "1e-999999999999999999999", "-1e-999999999999999999999",
        "inf", "-inf", "+Infinity", "INF", "infinit", "nan", "NaN", "-nan", "infinityx",
        "16777217", "16777219", "16777216.9999999999999999999999999999", "16777217.000000000000000000000000000001",
        "0.1", "0.2", "0.3", "123456789012345678901234567890", "0.000000000000000000000000000000000000000000001",
        "9007199254740993", "1.00000005960464477539062500000000000000000000001", "1.000000059604644775390625",
        "1.000000178813934326171875", "99999999999999999999", "18446744073709551616", "0000000000000000000000001.5",
        "١", "1é", "𝟙",
    ] {
        agrees(t);
    }
    let mut x: u64 = 99;
    for i in 0..3000u64 {
        x = x.wrapping_mul(6364136223846793005).wrapping_add(1442695040888963407);
        let whole = (x >> 40) % 2000;
        agrees(&format!("{}.{:06}", whole, (x >> 20) % 1_000_000));
        agrees(&format!("{}e{}", x >> (i % 60), (x % 90) as i64 - 60));
        agrees(&format!("{}.{}{}e{}", x >> 44, x, x, (x % 90) as i64 - 50));
        agrees(&format!("{:e}", f32::from_bits((x >> 32) as u32)));
        agrees(&format!("{}", f32::from_bits((x >> 32) as u32)));
    }
    // The middle between two neighbours, written out in full.
    for i in 0..200u32 {
        let a = f32::from_bits(0x3f80_0000 + i * 7919) as f64;
        let b = f32::from_bits(0x3f80_0001 + i * 7919) as f64;
        agrees(&format!("{:.60}", (a + b) / 2.0));
        agrees(&format!("{:.60}1", (a + b) / 2.0));
    }
}

#[test]
fn small_numbers_are_exact() {
    assert_eq!(s(3.0).plus(s(4.0)), s(7.0));
    assert_eq!(s(1.0).over(s(4.0)), s(0.25));
    assert_eq!(s(2.5).truncate(10), 2);
    assert_eq!(s(2.5).round(10), 3);
    assert_eq!(s(-2.5).round(10), 0);
}
