//! Soft arithmetic and number texts, held against the machine's.

use bonsai::double;
use bonsai::number::{narrow, read_double, read_single, truncate};
use bonsai::shortest::push_double;
use bonsai::single;
use bonsai::text::{parse_i32, parse_uint, push_decimal, push_integer};

fn next(s: &mut u64) -> u64 {
    *s ^= *s << 13;
    *s ^= *s >> 7;
    *s ^= *s << 17;
    *s
}

fn singles() -> Vec<u32> {
    let mut v: Vec<u32> = vec![
        0,
        0x8000_0000,
        1,
        0x8000_0001,
        0x007F_FFFF,
        0x0080_0000,
        0x3F80_0000,
        0xBF80_0000,
        0x4000_0000,
        0x7F7F_FFFF,
        0xFF7F_FFFF,
        0x7F80_0000,
        0xFF80_0000,
        0x7FC0_0000,
        0x3EAA_AAAB,
        0x3DCC_CCCD,
    ];
    let mut s: u64 = 0x1234_5678_9abc_def1;
    for _ in 0..40 {
        v.push(next(&mut s) as u32);
    }
    v
}

fn same(a: u32, b: f32, what: &str) {
    let x = f32::from_bits(a);
    if b.is_nan() {
        assert!(x.is_nan(), "{what}: {x} {b}");
    } else {
        assert_eq!(x.to_bits(), b.to_bits(), "{what}: {x} {b}");
    }
}

fn same_double(a: u64, b: f64, what: &str) {
    let x = f64::from_bits(a);
    if b.is_nan() {
        assert!(x.is_nan(), "{what}: {x} {b}");
    } else {
        assert_eq!(x.to_bits(), b.to_bits(), "{what}: {x} {b}");
    }
}

#[test]
fn single_arithmetic_is_the_machine_s() {
    let v = singles();
    for &a in &v {
        for &b in &v {
            let (x, y) = (f32::from_bits(a), f32::from_bits(b));
            same(single::sum(a, b), x + y, &format!("{x} + {y}"));
            same(single::difference(a, b), x - y, &format!("{x} - {y}"));
            same(single::product(a, b), x * y, &format!("{x} * {y}"));
            same(single::quotient(a, b), x / y, &format!("{x} / {y}"));
        }
    }
}

#[test]
fn double_arithmetic_is_the_machine_s() {
    let mut v: Vec<u64> = vec![
        0,
        0x8000_0000_0000_0000,
        1,
        0x000F_FFFF_FFFF_FFFF,
        0x0010_0000_0000_0000,
        1.0f64.to_bits(),
        (-1.5f64).to_bits(),
        0.1f64.to_bits(),
        f64::MAX.to_bits(),
        f64::INFINITY.to_bits(),
        f64::NAN.to_bits(),
    ];
    let mut s: u64 = 0x9e37_79b9_7f4a_7c15;
    for _ in 0..12 {
        v.push(next(&mut s));
    }
    for &a in &v {
        for &b in &v {
            let (x, y) = (f64::from_bits(a), f64::from_bits(b));
            same_double(double::sum(a, b), x + y, &format!("{x} + {y}"));
            same_double(double::product(a, b), x * y, &format!("{x} * {y}"));
            same_double(double::quotient(a, b), x / y, &format!("{x} / {y}"));
            assert_eq!(double::double_at_most(a, b), x <= y, "{x} <= {y}");
        }
    }
}

#[test]
fn widths_change_as_the_machine_s() {
    for a in singles() {
        let x = f32::from_bits(a);
        same_double(double::widen(a), x as f64, &format!("{x}"));
    }
    let mut s: u64 = 77;
    for _ in 0..200 {
        let b = next(&mut s);
        let x = f64::from_bits(b);
        same(narrow(b), x as f32, &format!("{x}"));
        same(double::narrow(b), x as f32, &format!("{x}"));
        if !x.is_nan() {
            assert_eq!(truncate(b), x as i64, "{x}");
        }
    }
    assert_eq!(truncate(f64::NAN.to_bits()), 0);
    assert_eq!(truncate((-7.9f64).to_bits()), -7);
}

#[test]
fn whole_numbers_round_to_singles() {
    let mut s: u64 = 5;
    for _ in 0..200 {
        let n = next(&mut s) >> (next(&mut s) % 64);
        same(single::from_uint(n), n as f32, &format!("{n}"));
    }
    for x in [0.0f32, 0.4, 0.5, 1.5, 2.5, 3.49, 1e9] {
        assert_eq!(single::round(x.to_bits(), 1000), (x.round() as u64).min(1000), "{x}");
    }
}

#[test]
fn doubles_are_read_to_the_nearest() {
    for s in [
        "0",
        "1",
        "-1",
        "0.1",
        "3.141592653589793",
        "1e23",
        "8.442911973260991817129021074e-309",
        "4.9e-324",
        "2.4703282292062327e-324",
        "1.7976931348623157e308",
        "1.8e308",
        "562949953421312.25",
        "9007199254740993",
        "123456789012345678901234567890",
        "0.000000000000000000000000000001",
    ] {
        let cs: Vec<char> = s.chars().collect();
        let got = read_double(&cs).unwrap();
        assert_eq!(got, s.parse::<f64>().unwrap().to_bits(), "{s}");
    }
    for s in ["", "-", ".", "e5", "1e", "x", "1x"] {
        let cs: Vec<char> = s.chars().collect();
        assert!(read_double(&cs).is_none(), "{s}");
    }
}

#[test]
fn singles_are_read_to_the_nearest() {
    for s in [
        "0.6", "0.9", "1", "-0.25", "16777217", "1e-45", "7e-46", "3.4028236e38", "1e39", "inf",
        "-Infinity", "+2.5", ".5", "5.",
    ] {
        assert_eq!(read_single(s), Some(s.parse::<f32>().unwrap().to_bits()), "{s}");
    }
    assert!(f32::from_bits(read_single("NaN").unwrap()).is_nan());
    for s in ["", "+", "abc", "1.2.3", "0x10"] {
        assert_eq!(read_single(s), None, "{s}");
        assert!(s.parse::<f32>().is_err());
    }
}

#[test]
fn doubles_print_as_the_machine_s() {
    let mut s: u64 = 0xabcdef;
    let mut v: Vec<f64> = vec![0.0, 1.0, -2.5, 0.1, 1e21, 1e-7, 123456789.125, 5e-324, f64::MAX];
    for _ in 0..60 {
        v.push(f64::from_bits(next(&mut s)));
    }
    for x in v {
        if x.is_finite() {
            let mut out = String::new();
            push_double(&mut out, x.to_bits());
            assert_eq!(out, format!("{x}"));
        }
    }
    let mut out = String::new();
    push_double(&mut out, (-0.0f64).to_bits());
    assert_eq!(out, "0");
}

#[test]
fn integers_are_read_and_printed() {
    for s in ["0", "-0", "+7", "-7", "2147483647", "-2147483648", "2147483648", "-2147483649", "-",
        "+", "", "-+5", "+-5", "1a", " 1"]
    {
        assert_eq!(parse_i32(s), s.parse::<i32>().ok(), "{s:?}");
    }
    for s in ["0", "+12", "12", "256", "", "+", "-1", "00012"] {
        assert_eq!(parse_uint(s, 255), s.parse::<u8>().ok().map(|x| x as u64), "{s:?}");
    }
    for n in [0i32, 9, 10, -1, i32::MIN, i32::MAX] {
        let mut out = String::new();
        push_integer(&mut out, n);
        assert_eq!(out, format!("{n}"));
    }
    let mut out = String::new();
    push_decimal(&mut out, u64::MAX);
    assert_eq!(out, "18446744073709551615");
}

#[test]
fn one_and_zero_are_neutral() {
    for a in singles() {
        let x = f32::from_bits(a);
        if !x.is_nan() {
            assert_eq!(single::product(a, single::ONE), a);
            if x != 0.0 {
                assert_eq!(single::sum(a, 0), a);
            }
        }
    }
}

#[test]
fn operands_commute() {
    let v = singles();
    for &a in &v {
        for &b in &v {
            assert_eq!(single::sum(a, b), single::sum(b, a));
            assert_eq!(single::product(a, b), single::product(b, a));
        }
    }
}
