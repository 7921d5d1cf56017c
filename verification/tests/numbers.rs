use logquery::big::Order;
use logquery::decimal::{push_json_number, push_plain, read_number, shortest_digits};
use logquery::num::Num;

fn num(x: f64) -> Num {
    Num { bits: x.to_bits() }
}

fn back(x: Num) -> f64 {
    f64::from_bits(x.bits)
}

/// A row of bit patterns that looks random and is the same on every run.
fn patterns(n: usize) -> Vec<u64> {
    let mut x: u64 = 0x9e37_79b9_7f4a_7c15;
    let mut out = Vec::new();
    for _ in 0..n {
        x ^= x << 13;
        x ^= x >> 7;
        x ^= x << 17;
        out.push(x);
    }
    out
}

/// Finite numbers of every size, with some of the sizes that logs hold.
fn samples() -> Vec<f64> {
    let mut out = vec![
        0.0, -0.0, 1.0, -1.0, 0.1, 0.25, 0.5, 1.5, -2.5, 2.5, 3.0, 10.0, 100.0, 1234.5678, 1e15, 1e16, 1e17, 1e21,
        1e22, 1e23, 123456789012345680.0, 5e-324, 2.2250738585072014e-308, 1.7976931348623157e308, 9007199254740991.0,
        9007199254740992.0, 9007199254740993.0, 1785146400.0, 1785146400.25, 0.001, 0.0001, 0.00001, 0.000001, 1e-7,
    ];
    for p in patterns(120) {
        let x = f64::from_bits(p);
        if x.is_finite() {
            out.push(x);
        }
        out.push((p >> 20) as f64 / 1000.0);
        out.push((p as i32) as f64 * 0.25);
    }
    out
}

fn json_text(x: f64) -> String {
    let mut out: Vec<char> = Vec::new();
    push_json_number(&mut out, num(x));
    out.into_iter().collect()
}

fn plain_text(x: f64) -> String {
    let mut out: Vec<char> = Vec::new();
    push_plain(&mut out, num(x));
    out.into_iter().collect()
}

#[test]
fn json_numbers_are_written_as_serde_json_writes_them() {
    for x in samples() {
        assert_eq!(json_text(x), serde_json::to_string(&x).unwrap(), "{x:e}");
    }
    assert_eq!(json_text(f64::INFINITY), "null");
    assert_eq!(json_text(f64::NAN), "null");
}

#[test]
fn plain_numbers_are_written_in_full() {
    for x in samples() {
        assert_eq!(plain_text(x), format!("{x}"), "{x:e}");
    }
}

#[test]
fn numbers_are_read_as_the_nearest_double() {
    for s in [
        "0", "-0", "+7", "1.", ".5", "1e3", "1E3", "2.5e-2", "1e308", "1e309", "-1e309", "5e-324", "2e-324", "3e-324",
        "0.1", "123456789012345678901234567890", "9007199254740993", "9007199254740992.9999999999999999999",
        "1.7976931348623158e308", "1.7976931348623159e308", "0.30000000000000004", "179769313486231580793e289", "1e-400",
    ] {
        let chars: Vec<char> = s.chars().collect();
        let want: f64 = s.parse().unwrap();
        assert_eq!(read_number(&chars).map(back).map(f64::to_bits), Some(want.to_bits()), "{s}");
    }
    for x in samples() {
        let text = format!("{x:e}");
        let chars: Vec<char> = text.chars().collect();
        assert_eq!(read_number(&chars).map(|n| n.bits), Some(x.to_bits()), "{text}");
    }
}

#[test]
fn text_that_is_no_number_is_not_read() {
    for s in ["", ".", "-", "+", "e3", "1e", "1e+", "1.2.3", "12ms", " 1", "0x10", "1_000"] {
        let chars: Vec<char> = s.chars().collect();
        assert_eq!(read_number(&chars), None, "{s}");
        assert!(s.parse::<f64>().is_err(), "{s}");
    }
}

#[test]
fn arithmetic_rounds_as_the_machine_does() {
    let all = samples();
    for i in 0..all.len() {
        let a = all[i];
        let b = all[(i * 7 + 3) % all.len()];
        let bits = |x: f64| x.to_bits();
        if (a + b).is_finite() {
            assert_eq!(num(a).plus(num(b)).bits, bits(a + b), "{a:e} + {b:e}");
        }
        if (a - b).is_finite() {
            assert_eq!(num(a).minus(num(b)).bits, bits(a - b), "{a:e} - {b:e}");
        }
        assert_eq!(num(a).times(num(b)).bits, bits(a * b), "{a:e} * {b:e}");
        if b != 0.0 {
            assert_eq!(num(a).over(num(b)).bits, bits(a / b), "{a:e} / {b:e}");
        }
        assert_eq!(num(a).floor().bits, bits(a.floor()), "floor {a:e}");
        assert_eq!(num(a).ceil().bits, bits(a.ceil()), "ceil {a:e}");
        assert_eq!(num(a).round().bits, bits(a.round()), "round {a:e}");
        assert_eq!(num(a).abs().bits, bits(a.abs()), "abs {a:e}");
        assert_eq!(num(a).to_i64(), a as i64, "{a:e}");
        let want = if a < b {
            Order::Less
        } else if a > b {
            Order::Greater
        } else {
            Order::Equal
        };
        assert_eq!(num(a).order(num(b)), want, "{a:e} {b:e}");
    }
}

#[test]
fn whole_numbers_become_the_nearest_double() {
    for p in patterns(200) {
        assert_eq!(back(Num::from_u64(p)), p as f64);
        assert_eq!(back(Num::from_i64(p as i64)), p as i64 as f64);
    }
    assert_eq!(back(Num::from_u64(u64::MAX)), u64::MAX as f64);
    assert_eq!(back(Num::from_i64(i64::MIN)), i64::MIN as f64);
}

#[test]
fn the_shortest_digits_have_no_trailing_zero() {
    assert_eq!(shortest_digits(num(1234.5)), (12345, -1));
    assert_eq!(shortest_digits(num(1e22)), (1, 22));
    assert_eq!(shortest_digits(num(0.1)), (1, -1));
    assert_eq!(shortest_digits(num(5e-324)), (5, -324));
}
