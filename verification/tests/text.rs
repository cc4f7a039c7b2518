use obs_gamepad::text::{is_whitespace, parse_unsigned, split_whitespace, trimmed_range};

fn chars(s: &str) -> Vec<char> {
    s.chars().collect()
}

#[test]
fn white_space_is_that_of_unicode() {
    for n in 0..=0x10_ffffu32 {
        if let Some(c) = char::from_u32(n) {
            assert_eq!(is_whitespace(c), c.is_whitespace(), "{n:x}");
        }
    }
}

#[test]
fn words_are_split_at_white_space() {
    for s in ["", " ", "a", "lb rb", "  lb\t\nrb \u{3000}start ", "x\u{a0}y", "a b c d"] {
        let want: Vec<String> = s.split_whitespace().map(str::to_owned).collect();
        assert_eq!(split_whitespace(s), want);
    }
}

#[test]
fn trimming_drops_white_space_at_either_end() {
    for s in ["", "  ", " 12 \r\n", "a b", "\u{2003}x\u{2003}", "x "] {
        let c = chars(s);
        let (from, to) = trimmed_range(&c);
        let got: String = c[from..to].iter().collect();
        assert_eq!(got, s.trim());
    }
}

#[test]
fn unsigned_numbers_are_read_as_std_reads_them() {
    let cases = [
        "", "0", "7", "007", "+5", "-5", "++5", "+", "65535", "65536", "65540", "99999", "1a", " 1",
        "8080", "\u{661}", "00000000000000000000065535",
    ];
    for s in cases {
        let c = chars(s);
        let want = s.parse::<u16>().ok().map(|n| n as u64);
        assert_eq!(parse_unsigned(&c, 0, c.len(), 65535), want, "{s}");
    }
    for s in ["18446744073709551615", "18446744073709551616", "184467440737095516150"] {
        let c = chars(s);
        assert_eq!(parse_unsigned(&c, 0, c.len(), u64::MAX), s.parse::<u64>().ok(), "{s}");
    }
}
