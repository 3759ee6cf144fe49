use peek::cli::Args;

#[test]
fn parse_range_reads_start_and_end() {
    assert_eq!(Args::parse_range("0-10000"), Some((0, 10000)));
    assert_eq!(Args::parse_range("80-443"), Some((80, 443)));
}

#[test]
fn parse_range_keeps_reversed_ranges() {
    assert_eq!(Args::parse_range("443-80"), Some((443, 80)));
}

#[test]
fn parse_range_accepts_plus_signs_and_leading_zeros() {
    assert_eq!(Args::parse_range("+1-+2"), Some((1, 2)));
    assert_eq!(Args::parse_range("00080-0443"), Some((80, 443)));
    assert_eq!(Args::parse_range("0-65535"), Some((0, 65535)));
}

#[test]
fn parse_range_refuses_missing_dash() {
    assert_eq!(Args::parse_range("80"), None);
    assert_eq!(Args::parse_range(""), None);
}

#[test]
fn parse_range_refuses_empty_sides() {
    assert_eq!(Args::parse_range("-80"), None);
    assert_eq!(Args::parse_range("80-"), None);
    assert_eq!(Args::parse_range("-"), None);
    assert_eq!(Args::parse_range("+-1"), None);
}

#[test]
fn parse_range_cuts_at_the_first_dash() {
    assert_eq!(Args::parse_range("1-2-3"), None);
    assert_eq!(Args::parse_range("1--2"), None);
}

#[test]
fn parse_range_refuses_out_of_range_and_non_digits() {
    assert_eq!(Args::parse_range("1-65536"), None);
    assert_eq!(Args::parse_range("99999999999-1"), None);
    assert_eq!(Args::parse_range("a-b"), None);
    assert_eq!(Args::parse_range(" 1-2"), None);
    assert_eq!(Args::parse_range("1-2 "), None);
    assert_eq!(Args::parse_range("١-2"), None);
}

#[test]
fn parse_range_agrees_with_std_parsing() {
    let samples = [
        "0-0", "1-1", "65535-1", "+5-7", "12a-3", "3-+", "++1-2", "0001-0002", "70000-1",
        "1-0", "-1-2", "ab", "1-2-", "9-9",
    ];
    for s in samples {
        let expected = s.split_once('-').and_then(|(a, b)| {
            let a: u16 = a.parse().ok()?;
            let b: u16 = b.parse().ok()?;
            Some((a, b))
        });
        assert_eq!(Args::parse_range(s), expected, "input {:?}", s);
    }
}

#[test]
fn parse_range_reads_back_written_ranges() {
    for (a, b) in [(0u16, 0u16), (1, 65535), (65535, 0), (80, 443), (10, 9)] {
        assert_eq!(Args::parse_range(&format!("{}-{}", a, b)), Some((a, b)));
    }
}
