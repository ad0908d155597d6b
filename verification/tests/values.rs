use l4scope::address::IpAddr;
use l4scope::number::{Decimal, Ratio, Scale};
use l4scope::shortest;
use l4scope::text;

fn chars(s: &str) -> Vec<char> {
    s.chars().collect()
}

fn address_text(s: &str) -> Option<String> {
    IpAddr::parse(&chars(s)).map(|a| a.to_text())
}

#[test]
fn addresses_read_and_write() {
    let texts = [
        "0.0.0.0", "255.255.255.255", "10.244.5.7", "::", "::1", "1::", "fd00::1:0:0:2",
        "2001:db8::8:800:200c:417a", "1:2:3:4:5:6:7:8", "::ffff:10.0.0.1", "1:0:0:2::3",
        "0:1:2:3:4:5:6:7",
    ];
    for t in texts {
        assert_eq!(address_text(t), Some(t.to_string()), "{t}");
    }
    assert_eq!(address_text("0:0:0:0:0:0:0:0").as_deref(), Some("::"));
    assert_eq!(address_text("00AB::0").as_deref(), Some("ab::"));
    assert_eq!(address_text("1:0:0:2:0:0:3:4").as_deref(), Some("1::2:0:0:3:4"));
    assert_eq!(address_text("64:ff9b::1.2.3.4").as_deref(), Some("64:ff9b::102:304"));
    assert_eq!(address_text("::FFFF:0102:0304").as_deref(), Some("::ffff:1.2.3.4"));
}

#[test]
fn ipv4_texts_read_back() {
    for n in [0u32, 1, 9, 10, 99, 100, 255, 256, 0x0a00_0001, 0x7f00_00ff, u32::MAX] {
        let a = IpAddr::V4(n);
        assert!(IpAddr::parse(&chars(&a.to_text())) == Some(a));
    }
}

#[test]
fn texts_that_are_no_addresses() {
    let texts = [
        "", "1.2.3", "1.2.3.4.5", "256.0.0.1", "01.2.3.4", "1.2.3.-4", "a.b.c.d", ":", ":::",
        "1::2::3", "1:2:3:4:5:6:7", "1:2:3:4:5:6:7:8:9", "12345::", "g::", "::1.2.3", " 1.2.3.4",
        "1:2:3:4:5:6:7:8::",
    ];
    for t in texts {
        assert_eq!(address_text(t), None, "{t}");
    }
}

#[test]
fn numbers_read_as_the_standard_does() {
    let texts = [
        "0", "1", "12.5", ".5", "5.", "1e3", "1E-3", "+7", "-2", "0.05", "1e", "", ".", "e1",
        "1.2.3", "inf", "-Infinity", "NaN", "nano", "0x10", "1_000", " 1", "1e+2", "9e400",
    ];
    for t in texts {
        let std = t.parse::<f64>();
        match Decimal::parse(&chars(t)) {
            Some(d) => {
                let v = std.expect("both read it");
                for (num, den) in [(0u64, 1u64), (1, 20), (1, 2), (25, 2), (5, 1), (1000, 1)] {
                    assert_eq!(
                        Ratio::new(num, den).reaches(&d),
                        !((num as f64 / den as f64) < v),
                        "{t} {num}/{den}"
                    );
                }
            }
            None => assert!(std.is_err(), "{t}"),
        }
    }
}

/// Counts of all sizes, with the ends of what a double holds exactly among them.
fn counts() -> Vec<u64> {
    let mut v = vec![1, 2, 3, 5, 7, 9, 10, 11, 97, 1000, 999_999_937, 1_000_000_000];
    for k in [31, 52, 53, 54, 60, 63] {
        let p = 1u64 << k;
        v.extend_from_slice(&[p - 1, p, p + 1, p + 3]);
    }
    v.extend_from_slice(&[u64::MAX, u64::MAX - 1023, u64::MAX - 1024, u64::MAX - 1025]);
    let mut x: u64 = 88_172_645_463_325_252;
    for i in 0..40 {
        x ^= x << 13;
        x ^= x >> 7;
        x ^= x << 17;
        v.push(x >> (i % 60));
    }
    v
}

fn as_double(r: Ratio) -> f64 {
    let q = if r.den == 0 { 0.0 } else { r.num as f64 / r.den as f64 };
    match r.scale {
        Scale::One => q,
        Scale::Hundred => q * 100.0,
        Scale::Thousand => q * 1000.0,
    }
}

fn ratios() -> Vec<Ratio> {
    let mut v = Vec::new();
    for &num in &counts() {
        for &den in &counts() {
            v.push(Ratio::new(num, den));
            v.push(Ratio::scaled(num, den, Scale::Hundred));
            v.push(Ratio::scaled(num, den, Scale::Thousand));
        }
    }
    for n in [0, 1, 3, 450, 3_450_000_000] {
        v.push(Ratio::new(0, n));
        v.push(Ratio::new(n, 0));
        v.push(Ratio::new(n, 1_000_000_000));
        v.push(Ratio::new(n, 2000));
    }
    v
}

#[test]
fn values_are_doubles() {
    for r in ratios() {
        let b = r.value();
        let want = as_double(r);
        assert_eq!(b.mantissa as f64 * 2f64.powi(b.exponent), want, "{r:?}");
    }
}

#[test]
fn fixed_texts_are_those_of_doubles() {
    for r in ratios() {
        let want = as_double(r);
        assert_eq!(r.fixed(0), format!("{want:.0}"), "{r:?}");
        assert_eq!(r.fixed(1), format!("{want:.1}"), "{r:?}");
        assert_eq!(r.fixed(3), format!("{want:.3}"), "{r:?}");
    }
    assert_eq!(Ratio::new(3_450_000_000, 1_000_000_000).fixed(1), "3.5");
    assert_eq!(Ratio::new(1, 2000).fixed(3), "0.001");
    assert_eq!(Ratio::new(5, 2).fixed(0), "2");
    assert_eq!(Ratio::new(7, 2).fixed(0), "4");
    assert_eq!(Ratio::scaled(1, 3, Scale::Hundred).fixed(1), "33.3");
    assert_eq!(Ratio::new(9, 0).fixed(3), "0.000");
}

#[test]
fn plain_texts_are_those_of_doubles() {
    for (i, r) in ratios().into_iter().enumerate() {
        if i % 11 == 0 {
            let want = as_double(r);
            assert_eq!(shortest::plain(r.value()), format!("{want}"), "{r:?}");
        }
    }
    for (num, den, want) in [
        (3, 1, "3"), (3, 2, "1.5"), (1, 3, "0.3333333333333333"), (2, 3, "0.6666666666666666"),
        (5, 0, "0"), (1, 10, "0.1"), (123_456_789, 1000, "123456.789"),
        (u64::MAX, 1, "18446744073709552000"), (1, u64::MAX, "0.00000000000000000005421010862427522"),
    ] {
        assert_eq!(shortest::plain(Ratio::new(num, den).value()), want);
    }
}

#[test]
fn thresholds_count_as_doubles() {
    let texts = [
        "0.3333333333333333", "0.33333333333333331", "0.33333333333333334", "0.333333333333333343",
        "0.33333333333333336", "0.3333333333333334", "0.1", "0.10000000000000001",
        "0.100000000000000012490009027033011079765856266021728515625", "9007199254740993",
        "9007199254740993.0000000000000000000000000000000001", "18446744073709551615", "1e19",
        "1e400", "1e-400", "2.4703282292062327e-324", "2.4703282292062328e-324", "5e-324", "1e-300",
        "0.0000", "1e308", "4.4942328371557898e307", "inf", "-inf", "nan", "-1", "-0", "250", "62.5",
    ];
    let mut ratios = vec![
        Ratio::new(1, 3), Ratio::new(1, 10), Ratio::new(0, 1), Ratio::new(u64::MAX, 1),
        Ratio::new(9_007_199_254_740_993, 1), Ratio::new(9_007_199_254_740_991, 1), Ratio::new(1, 4),
        Ratio::scaled(250_000_000, 1_000_000_000, Scale::Thousand), Ratio::new(4, 3),
        Ratio::new(1, u64::MAX), Ratio::new(2, 5), Ratio::new(5, 0),
    ];
    for ns in 0..40u64 {
        ratios.push(Ratio::scaled(249_999_980 + ns, 1_000_000_000, Scale::Thousand));
    }
    for t in texts {
        let v: f64 = t.parse().expect("a number");
        let d = Decimal::parse(&chars(t)).expect("a number");
        for &r in &ratios {
            let x = as_double(r);
            assert_eq!(r.reaches(&d), !(x < v), "{t} {r:?}");
            assert_eq!(r.reaches_fourfold(&d), x >= v * 4.0, "{t} {r:?}");
        }
    }
    let tenth = Decimal::scaled(1, 1);
    assert!(tenth.is_defined());
    assert!(!Decimal::parse(&chars("nan")).unwrap().is_defined());
    assert_eq!(format!("{:?}", tenth.clone()), format!("{tenth:?}"));
}

#[test]
fn words_and_trims_follow_white_space() {
    let s = chars(" a\u{a0}bc\t\u{3000}d ");
    let words: Vec<String> = text::split_whitespace(&s).iter().map(|w| w.iter().collect()).collect();
    let std: Vec<String> = " a\u{a0}bc\t\u{3000}d ".split_whitespace().map(String::from).collect();
    assert_eq!(words, std);
    for s in ["", "  ", " x ", "\u{2003}y\u{85}", "z\n"] {
        let c = chars(s);
        let t: String = text::trim(&c).iter().collect();
        assert_eq!(t, s.trim());
    }
}

#[test]
fn whole_numbers_read_as_the_standard_does() {
    for t in ["0", "+0", "007", "4294967295", "4294967296", "-1", "+", "", "1a", "18446744073709551616"] {
        let want = t.parse::<u32>().ok().map(u64::from);
        assert_eq!(text::parse_unsigned(&chars(t), u32::MAX as u64), want, "{t}");
        assert_eq!(text::parse_unsigned(&chars(t), u64::MAX), t.parse::<u64>().ok(), "{t}");
    }
}

#[test]
fn texts_split_join_and_escape() {
    let s = chars("a,b,,c");
    let parts: Vec<String> = text::split(&s, ',').iter().map(|p| p.iter().collect()).collect();
    assert_eq!(parts, ["a", "b", "", "c"]);
    assert_eq!(text::join(&parts, ";"), "a;b;;c");
    assert_eq!(text::join(&Vec::new(), ";"), "");
    let kv = chars("k=v=w");
    let (k, v) = text::split_once(&kv, '=').unwrap();
    assert_eq!((k.len(), v.len()), (1, 3));
    let (k, v) = text::rsplit_once(&kv, '=').unwrap();
    assert_eq!((k.len(), v.len()), (3, 1));
    assert!(text::split_once(&kv, ':').is_none());
    assert_eq!(text::find(&kv, '='), 1);
    assert_eq!(text::find(&kv, ':'), 5);
    assert_eq!(text::json_escape("\"\\\n\t\r\u{e9}"), "\\\"\\\\\\n\\t\\r\u{e9}");
    assert_eq!(text::json_escape("\u{0}\u{8}\u{1f} \u{7f}"), "\\u0000\\u0008\\u001f \u{7f}");
    assert_eq!(text::padded_hexadecimal(0xab, 8), "000000ab");
    assert_eq!(text::hexadecimal(0xab00), "ab00");
    assert_eq!(text::decimal(u128::MAX), u128::MAX.to_string());
    assert_eq!(text::byte_len("\u{e9}\u{20ac}"), 5);
}
