use docdb::float::Float;
use docdb::text::Order;
use std::cmp::Ordering;

fn samples() -> Vec<f64> {
    vec![
        0.0,
        -0.0,
        1.0,
        -1.0,
        0.5,
        1.5,
        -1.5,
        3.14159,
        90.0,
        90.5,
        1e-300,
        1e300,
        -1e300,
        f64::MAX,
        f64::MIN,
        f64::MIN_POSITIVE,
        f64::MIN_POSITIVE / 2.0,
        5e-324,
        -5e-324,
        f64::INFINITY,
        f64::NEG_INFINITY,
        f64::NAN,
        9007199254740992.0,
        9007199254740993.0,
        9223372036854775807.0,
        -9223372036854775808.0,
    ]
}

fn float(x: f64) -> Float {
    Float::from_bits(x.to_bits())
}

#[test]
fn floats_compare_as_numbers() {
    for a in samples() {
        for b in samples() {
            let expected = match a.partial_cmp(&b) {
                Some(Ordering::Less) => Some(Order::Less),
                Some(Ordering::Equal) => Some(Order::Equal),
                Some(Ordering::Greater) => Some(Order::Greater),
                None => None,
            };
            assert_eq!(float(a).compare(float(b)), expected, "{a} against {b}");
            assert_eq!(float(a) == float(b), a == b, "{a} against {b}");
        }
    }
}

/// How a number compares to an integer: by its integer part, and then by
/// what is left of it.
fn exact_order(x: f64, n: i64) -> Option<Order> {
    if x.is_nan() {
        return None;
    }
    if x >= 9223372036854775808.0 {
        return Some(Order::Greater);
    }
    if x < -9223372036854775808.0 {
        return Some(Order::Less);
    }
    let whole = x.trunc() as i64;
    let rest = x - x.trunc();
    Some(if whole < n || (whole == n && rest < 0.0) {
        Order::Less
    } else if whole > n || rest > 0.0 {
        Order::Greater
    } else {
        Order::Equal
    })
}

#[test]
fn floats_compare_to_integers_exactly() {
    let mut integers: Vec<i64> = vec![
        0,
        1,
        -1,
        2,
        90,
        91,
        i64::MAX,
        i64::MIN,
        i64::MAX - 1,
        i64::MIN + 1,
        9007199254740991,
        9007199254740992,
        9007199254740993,
        -9007199254740993,
    ];
    let mut floats = samples();
    for shift in 0..63 {
        let power = 1i64 << shift;
        integers.extend_from_slice(&[power, power - 1, power + (power >> 1), -power, 1 - power]);
        let x = power as f64;
        floats.extend_from_slice(&[x, x + 0.5, x - 0.5, -x, -x - 0.25, x * 4.0, 1.0 / x]);
    }
    floats.extend_from_slice(&[1e18, 1e19, -1e19, 1e-5, 2.5e-16, 18446744073709551616.0]);
    let mut state: u64 = 1;
    for _ in 0..200 {
        state = state.wrapping_mul(6364136223846793005).wrapping_add(1442695040888963407);
        integers.push((state >> (state % 60)) as i64);
        floats.push((state as i64 >> (state % 50)) as f64);
    }
    for x in &floats {
        for n in &integers {
            assert_eq!(float(*x).compare_int(*n), exact_order(*x, *n), "{x} against {n}");
        }
    }
}

#[test]
fn bits_are_kept() {
    assert_eq!(Float::from_bits(0x4009_21FB_5444_2D18).to_bits(), std::f64::consts::PI.to_bits());
}
