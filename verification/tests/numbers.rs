use llm_visuals::big::{Big, Side};
use llm_visuals::decimal;
use llm_visuals::float::{Double, Single};
use llm_visuals::generator;
use llm_visuals::micro;
use llm_visuals::order;

fn number(s: &str) -> Option<Single> {
    decimal::parse_number(&s.chars().collect::<Vec<char>>())
}

#[test]
fn numbers_read_as_the_nearest() {
    let long = format!("0.{}1", "0".repeat(44));
    let tie = "1.00000005960464477539062";
    for s in [
        "12", "148.04", ".5", "5.", "+1e-3", "2E+2", "0.0000019", "-3", "-0", "0", "1.e2", "16777217",
        "16777219", "0.1", "-.25e1", "3.4028235e38", "3.4028236e38", "3.40282356e38", "3.4028235677973366e38",
        "3.5e38", "1e39", "1.17549435e-38", "1.1754942e-38", "1e-45", "7e-46", "7.1e-46", "1.4e-45", "1e-46",
        "1e999999999999999999999", "-1e999999999999999999999", "1e-999999999999999999999",
        "0e999999999999999999999", "1e199", "1e200", "1e201", "000000000000000000000000000001.50",
        "9007199254740993", "123456789012345678901234567890", "8388608.5", "8388609.5", "inf", "Infinity",
        "-INF", "33554431.999999999999999999999999999", "1.00000017881393432617187499",
        "1.00000017881393432617187500", "1.00000017881393432617187501", &long, tie,
    ] {
        let want: f32 = s.parse().unwrap();
        assert_eq!(number(s).map(|x| x.bits), Some(want.to_bits()), "{s}");
    }
    assert!(number("NaN").unwrap().is_nan());
    assert!(number("-nan").unwrap().is_nan());
    let mut seed: u64 = 99;
    for _ in 0..300 {
        let a = generator::draw(&mut seed);
        let b = generator::draw(&mut seed) % 90;
        let s = format!("{}.{}e{}", a % 1000, a, b as i64 - 45);
        let want: f32 = s.parse().unwrap();
        assert_eq!(number(&s).map(|x| x.bits), Some(want.to_bits()), "{s}");
    }
}

#[test]
fn millionths_of_numbers() {
    let s = |x: f32| Single::from_bits(x.to_bits());
    assert_eq!(s(1.5).to_millionths(), 1_500_000);
    assert_eq!(s(-1.5).to_millionths(), -1_500_000);
    assert_eq!(s(0.0000019).to_millionths(), 1);
    assert_eq!(s(f32::NAN).to_millionths(), 0);
    assert_eq!(s(f32::INFINITY).to_millionths(), i64::MAX);
    assert_eq!(s(f32::NEG_INFINITY).to_millionths(), -i64::MAX);
    assert_eq!(s(1e30).to_millionths(), i64::MAX);
    assert_eq!(s(1e-40).to_millionths(), 0);
    assert_eq!((s(7.0).to_level(), s(-7.0).to_level(), s(f32::INFINITY).to_level()), (7_000_000, 0, 0));
    assert_eq!(s(0.5).at_least_one(), s(1.0));
    assert_eq!(s(f32::NAN).at_least_one(), s(1.0));
    assert_eq!(s(2.5).at_least_one(), s(2.5));
    for n in [0u64, 1, 3, 500_000, 1_000_000, 61_234_567, 100_000_000, u64::MAX] {
        assert_eq!(decimal::from_millionths(n), s(format!("{n}e-6").parse().unwrap()), "{n}");
    }
    assert_eq!(micro::above_zero(-3), 0);
    assert_eq!(micro::above_zero(3), 3);
}

#[test]
fn large_numbers() {
    let mut a = Big::new(7);
    a.shift(100);
    a.times_plus(3, 5);
    let mut b = Big::new(21);
    b.shift(100);
    assert_eq!(a.side_of(&b), Side::Above);
    b.times_plus(1, 5);
    assert_eq!(a.side_of(&b), Side::Level);
    b.times_plus(1, 1);
    assert_eq!(a.copy().side_of(&b), Side::Below);
    assert_eq!(Big::new(0).side_of(&Big::new(u32::MAX)), Side::Below);
}

#[test]
fn what_is_no_reading() {
    for s in ["", " 1", "1 ", "[N/A]", ".", "e5", "1e", "1e+", "--1", "0x10", "1_000", "+", "1.2.3"] {
        assert_eq!(number(s), None, "{s}");
        assert!(s.parse::<f32>().is_err(), "{s}");
    }
}

#[test]
fn rates_shares_and_ratios() {
    assert_eq!(micro::per_second(3, 2_000_000_000), 1_500_000);
    assert_eq!(micro::per_second(u64::MAX, 1), u64::MAX);
    assert_eq!(micro::ratio_of(1, 3), 333_333);
    assert_eq!(micro::share_of(5, 4), 1_000_000);
    assert_eq!(micro::share_of(1, 4), 250_000);
    assert_eq!(micro::scale(10, 3, 4), 7);
    assert_eq!(micro::scale(u64::MAX, u64::MAX, 1), u64::MAX);
    assert_eq!(micro::since(5, 3), 0);
    assert_eq!(micro::since(3, 5), 2);
    assert_eq!(micro::max(3, 5), 5);
    assert_eq!(micro::cap(u128::MAX), u64::MAX);
}

#[test]
fn products_beyond_the_machine() {
    let m = u128::MAX;
    assert!(micro::product_at_most(m, m, m, m));
    assert!(!micro::product_at_most(m, m, m, m - 1));
    assert!(micro::product_at_most(m - 1, m, m, m));
    assert!(micro::product_at_most(0, m, 0, 0));
    assert!(!micro::product_at_most(3, 5, 2, 7));
    assert!(micro::product_at_most(2, 7, 3, 5));
}

#[test]
fn numbers_as_text() {
    let whole = |n: u64| {
        let mut out = Vec::new();
        micro::add_whole(&mut out, n);
        out.iter().collect::<String>()
    };
    for n in [0u64, 499_999, 500_000, 500_001, 1_500_000, 2_500_000, 99_900_000] {
        assert_eq!(whole(n), format!("{:.0}", n as f64 / 1e6));
    }
    let tenths = |n: u64| {
        let mut out = Vec::new();
        micro::add_tenths(&mut out, n, 1_000_000_000);
        out.iter().collect::<String>()
    };
    assert_eq!(tenths(6_000_000_000), "6.0");
    assert_eq!(tenths(1_250_000_000), "1.2");
    assert_eq!(tenths(1_350_000_000), "1.4");
    assert_eq!(tenths(960_000_000), "1.0");
    assert_eq!(micro::nearest_to(15, 10), 2);
    assert_eq!(micro::nearest_to(25, 10), 2);
}

#[test]
fn singles_compare_as_their_values() {
    let values = [
        f32::NEG_INFINITY, -2.5, -1e-45, -0.0, 0.0, 1e-45, 1e-38, 0.4, 1.0, 3e38, f32::INFINITY, f32::NAN,
    ];
    let s = |x: f32| Single::from_bits(x.to_bits());
    for a in values {
        assert_eq!(s(a).is_nan(), a.is_nan());
        assert_eq!(s(a).is_positive(), a > 0.0);
        assert_eq!(s(a).to_whole(), a as u64);
        for b in values {
            assert_eq!(s(a).gt(s(b)), a > b, "{a} > {b}");
            assert_eq!(s(a).ge(s(b)), a >= b, "{a} >= {b}");
        }
    }
    assert_eq!(s(16_777_217.0).to_whole(), 16_777_216);
    assert_eq!(s(2048.75).to_whole(), 2048);
}

#[test]
fn doubles_as_whole_numbers() {
    for x in [0.0f64, -0.0, 0.99, 1.0, 41.5, 1e18, 1e30, f64::INFINITY, f64::NAN, -1.0, f64::MIN_POSITIVE] {
        let d = Double { bits: x.to_bits() };
        assert_eq!(d.is_not_negative(), x >= 0.0, "{x}");
        assert_eq!(d.to_whole(), x as u64, "{x}");
    }
}

#[test]
fn sorting_is_stable() {
    let v = order::sort(vec![(3u128, 'a'), (1, 'b'), (3, 'c'), (0, 'd'), (1, 'e')]);
    assert_eq!(v, vec![(0, 'd'), (1, 'b'), (1, 'e'), (3, 'a'), (3, 'c')]);
    assert_eq!(order::reversed(vec![1, 2, 3]), vec![3, 2, 1]);
}
