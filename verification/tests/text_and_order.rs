use cfscanner::json;
use cfscanner::metric::Metric;
use cfscanner::order;
use cfscanner::text;

fn strings(items: &[&str]) -> Vec<String> {
    items.iter().map(|s| s.to_string()).collect()
}

#[test]
fn white_space_is_that_of_unicode() {
    for code in 0..=0x10ffffu32 {
        if let Some(c) = char::from_u32(code) {
            assert_eq!(text::is_whitespace(c), c.is_whitespace(), "{:x}", code);
        }
    }
}

#[test]
fn trims_like_std() {
    for s in ["", "  ", " a b ", "\u{3000}深圳\u{a0}", "\r\nx\t", "x"] {
        assert_eq!(text::trim(s), s.trim());
    }
}

#[test]
fn lines_like_std() {
    for s in ["", "\n", "a", "a\n", "a\r\nb\r\n", "a\n\nb", "a\r", "\r\n", "a\rb\nc"] {
        let wanted: Vec<&str> = s.lines().collect();
        assert_eq!(text::lines(s), wanted, "{:?}", s);
    }
}

#[test]
fn words_like_std() {
    for s in ["", "  ", "a", " a  b\tc\n", "0 */6 * * *", "\u{2003}x\u{2003}y"] {
        let wanted: Vec<&str> = s.split_whitespace().collect();
        assert_eq!(text::words(s), wanted, "{:?}", s);
    }
}

#[test]
fn ascii_case_is_ignored() {
    assert!(text::eq_ignore_ascii_case("hKg", "HkG"));
    assert!(!text::eq_ignore_ascii_case("HKG", "HKGX"));
    assert!(!text::eq_ignore_ascii_case("é", "É"));
    let list = strings(&["LAX", "hkg"]);
    assert!(text::any_eq_ignore_ascii_case(&list, "HKG"));
    assert!(!text::any_eq_ignore_ascii_case(&list, "NRT"));
}

#[test]
fn numerals() {
    for n in [0u64, 7, 10, 99, 100, 1234567890, u64::MAX] {
        assert_eq!(text::to_decimal(n), n.to_string());
    }
}

#[test]
fn joins_and_lines() {
    assert_eq!(text::join(&strings(&[]), ", "), "");
    assert_eq!(text::join(&strings(&["a"]), ", "), "a");
    assert_eq!(text::join(&strings(&["a", "", "c"]), ", "), "a, , c");
    assert_eq!(text::write_lines(&strings(&["a", "", "c"])), "a\n\nc\n");
    assert_eq!(text::write_lines(&strings(&[])), "");
}

#[test]
fn pads() {
    assert_eq!(text::pad_right("ab", 4), "ab  ");
    assert_eq!(text::pad_right("abcde", 4), "abcde");
    assert_eq!(text::pad_left("7", 4), "   7");
}

#[test]
fn metrics_compare_like_numbers() {
    let numbers = [
        f64::NEG_INFINITY,
        -42.0,
        -1e-310,
        -0.0,
        0.0,
        5e-324,
        0.999,
        1.0,
        5.0,
        1e300,
        f64::INFINITY,
        f64::NAN,
    ];
    for a in numbers {
        let ma = Metric::from_bits(a.to_bits());
        assert_eq!(ma.number(), !a.is_nan());
        assert_eq!(ma.is_positive(), a > 0.0);
        assert_eq!(ma.is_negative(), a < 0.0);
        for b in numbers {
            let mb = Metric::from_bits(b.to_bits());
            assert_eq!(ma.reaches(mb), a >= b, "{} {}", a, b);
        }
    }
    assert_eq!(Metric::zero().bits, 0.0f64.to_bits());
    assert_eq!(Metric::from_bits((-0.0f64).to_bits()).to_rank(), 0);
}

#[test]
fn order_is_stable() {
    assert_eq!(order::stable_order(&vec![]), Vec::<usize>::new());
    assert_eq!(order::stable_order(&vec![3, 1, 2, 1, 3]), vec![1, 3, 2, 0, 4]);
    let mut keys: Vec<i128> = Vec::new();
    let mut x: i128 = 17;
    for _ in 0..200 {
        x = (x * 31 + 7) % 23;
        keys.push(x);
    }
    let mut wanted: Vec<usize> = (0..keys.len()).collect();
    wanted.sort_by_key(|i| keys[*i]);
    assert_eq!(order::stable_order(&keys), wanted);
}

#[test]
fn json_strings_read_back() {
    let mut all = String::new();
    for code in (0..0x250u32).chain([0x2028, 0xd7ff, 0xe000, 0xffff, 0x1f600]) {
        all.push(char::from_u32(code).unwrap());
    }
    for s in ["", "\\", "\"", "a\nb\r\tc\u{1}\u{1f}", all.as_str()] {
        let parsed: serde_json::Value = serde_json::from_str(&json::quote(s)).unwrap();
        assert_eq!(parsed.as_str(), Some(s));
    }
    assert_eq!(json::quote("a\\b\"\n\r\t\u{0}\u{1b}"), r#""a\\b\"\n\r\t\u0000\u001b""#);
}

#[test]
fn json_numbers() {
    for s in ["0", "-0.00", "1.50", "12", "-3", "0.5"] {
        assert!(json::check_number(s), "{}", s);
    }
    for s in ["", "-", "inf", "NaN", "01", "1.", ".5", "1.2.3", "1e5", "+1", " 1", "--1"] {
        assert!(!json::check_number(s), "{}", s);
    }
}
