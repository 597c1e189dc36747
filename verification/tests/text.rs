use ferrosdr::http::header;
use ferrosdr::number::integer_of_double;
use ferrosdr::text::{decimal_text, text_precedes, trim, white_space};

#[test]
fn white_space_is_that_of_unicode() {
    for code in 0u32..=0x10FFFF {
        if let Some(c) = char::from_u32(code) {
            assert_eq!(white_space(c), c.is_whitespace(), "{:x}", code);
        }
    }
}

#[test]
fn trimming_takes_both_ends() {
    for s in ["", " ", "a", " a", "a ", "\t a b \n", "\u{3000}PMR 1\u{00A0}", "  \u{2003} ", "no change"] {
        assert_eq!(trim(s), s.trim());
    }
    assert_eq!(trim("\t a b \n"), "a b");
    assert_eq!(trim(&trim("  x  ")), "x");
}

#[test]
fn texts_are_ordered_by_code_points() {
    let texts = ["", "A", "AB", "Airband", "B", "a", "\u{e9}", "\u{ffff}", "\u{1F4FB}"];
    for a in texts {
        for b in texts {
            assert_eq!(text_precedes(a, b), a < b, "{} {}", a, b);
        }
    }
}

#[test]
fn decimals() {
    for n in [0usize, 7, 10, 99, 100, 1024, 35120, 1_000_000, usize::MAX] {
        assert_eq!(decimal_text(n), n.to_string());
    }
}

#[test]
fn page_header_gives_the_length() {
    assert_eq!(
        header(35120),
        "HTTP/1.1 200 OK\r\nContent-Type: text/html; charset=utf-8\r\nContent-Length: 35120\r\nConnection: close\r\n\r\n"
    );
}

#[test]
fn doubles_become_integers_toward_zero() {
    let values: [f64; 24] = [
        0.0, -0.0, 0.5, -0.5, 0.999_999, 1.0, -1.0, 1.5, -1.5, 446_006_250.0, 446_006_250.75, -446_006_250.75,
        4503599627370495.5, 4503599627370496.0, 9007199254740993.0, 1e15, 9.2e18, 9223372036854775807.0,
        -9223372036854775808.0, -1e19, 1e300, f64::INFINITY, f64::NEG_INFINITY, f64::NAN,
    ];
    for v in values {
        assert_eq!(integer_of_double(v.to_bits()), v as i64, "{}", v);
    }
    assert_eq!(integer_of_double(f64::MIN_POSITIVE.to_bits()), 0);
    assert_eq!(integer_of_double(1), 0);
    let mut bits: u64 = 0x0123_4567_89ab_cdef;
    for _ in 0..100_000 {
        bits = bits.wrapping_mul(6364136223846793005).wrapping_add(1442695040888963407);
        assert_eq!(integer_of_double(bits), f64::from_bits(bits) as i64);
    }
}
