use nbm_tools::scan::{is_float, parse_i32, parse_u32};
use nbm_tools::text::{split_fields, split_lines, trim_of};
use nbm_tools::timestamp::{leap_year, parse_date_time, TimeStamp};

#[test]
fn lines_split_like_std() {
    let cases: [&str; 6] = ["", "a", "a\n", "a\nb", "a\r\nb\r\n", "one\n\ntwo\r"];
    for text in cases {
        let got: Vec<String> = split_lines(text);
        let want: Vec<String> = text.lines().map(|l| l.to_string()).collect();
        assert_eq!(got, want);
    }
}

#[test]
fn fields_split_like_std() {
    let cases: [&str; 5] = ["", "a", "a,b", ",", "a,,c,"];
    for line in cases {
        let got: Vec<String> = split_fields(line);
        let want: Vec<String> = line.split(',').map(|f| f.to_string()).collect();
        assert_eq!(got, want);
    }
}

#[test]
fn trim_matches_std() {
    let cases: [&str; 5] = ["", "  x  ", "\t a b \r\n", "nospace", "   "];
    for s in cases {
        assert_eq!(trim_of(s), s.trim());
    }
}

#[test]
fn integers_parse_like_std() {
    let cases: [&str; 8] = ["0", "42", "+7", "1996", "", "+", "4x", " 5"];
    for s in cases {
        assert_eq!(parse_u32(s), s.parse::<u32>().ok());
    }
    let signed: [&str; 6] = ["-999", "2023", "+12", "-", "--4", "12"];
    for s in signed {
        assert_eq!(parse_i32(s), s.parse::<i32>().ok());
    }
}

#[test]
fn float_tokens_match_std_grammar() {
    let good: [&str; 12] = [
        "1", "10.5", "-2.25", "+.5", "3.", "1e5", "2.5E-3", "inf", "-Infinity", "NaN", "7e+2",
        ".0",
    ];
    for s in good {
        assert!(is_float(s), "{} should be a float token", s);
        assert!(s.parse::<f32>().is_ok());
    }
    let bad: [&str; 10] = ["", "bad", "1..2", "1e", "e5", "--5", ".", "+", "1.5x", "0x1"];
    for s in bad {
        assert!(!is_float(s), "{} should not be a float token", s);
        assert!(s.parse::<f32>().is_err());
    }
}

#[test]
fn timestamps_decode_and_validate() {
    assert_eq!(
        parse_date_time("2023010100"),
        Some(TimeStamp { year: 2023, month: 1, day: 1, hour: 0 }),
    );
    assert_eq!(
        parse_date_time("  2024022923  "),
        Some(TimeStamp { year: 2024, month: 2, day: 29, hour: 23 }),
    );
    // not a leap year, bad month, bad hour, wrong length, not digits
    assert_eq!(parse_date_time("2023022900"), None);
    assert_eq!(parse_date_time("2023130100"), None);
    assert_eq!(parse_date_time("2023010124"), None);
    assert_eq!(parse_date_time("202301010"), None);
    assert_eq!(parse_date_time("20230101xx"), None);
}

#[test]
fn leap_years_follow_the_gregorian_rule() {
    assert!(leap_year(2024));
    assert!(!leap_year(2023));
    assert!(!leap_year(1900));
    assert!(leap_year(2000));
    assert!(leap_year(0));
    assert!(leap_year(-4));
    assert!(!leap_year(-100));
}
