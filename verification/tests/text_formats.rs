use orbital_sim::calendar::{date_day_number, date_time_fields, jan1_day_part, month_number, tle_epoch};
use orbital_sim::text::{parse_i32, split_lines, split_on, split_words, trim, trim_byte};
use orbital_sim::tle::{tle_column, tle_fields, tle_record_lines};

fn s(v: &[u8]) -> String {
    String::from_utf8(v.to_vec()).unwrap()
}

#[test]
fn trim_matches_str_trim() {
    for text in ["  abc \t", "", "   ", "\u{a0}x\u{3000}", "a b", "\u{2003}\u{85}q\u{205f}\r\n", "é\u{200a}"] {
        assert_eq!(s(&trim(text.as_bytes())), text.trim(), "{:?}", text);
    }
}

#[test]
fn words_match_split_whitespace() {
    for text in ["23 Apr 2026 06:30:00.000", "  a  b\tc\n", "", "\u{2009}x\u{a0}y", "single"] {
        let got: Vec<String> = split_words(text.as_bytes()).iter().map(|w| s(w)).collect();
        let want: Vec<String> = text.split_whitespace().map(|w| w.to_string()).collect();
        assert_eq!(got, want, "{:?}", text);
    }
}

#[test]
fn lines_match_str_lines() {
    for text in ["a\nb\r\nc", "a\n", "", "\n", "x\r", "a\n\nb\r\n"] {
        let got: Vec<String> = split_lines(text.as_bytes()).iter().map(|w| s(w)).collect();
        let want: Vec<String> = text.lines().map(|w| w.to_string()).collect();
        assert_eq!(got, want, "{:?}", text);
    }
}

#[test]
fn pieces_match_str_split() {
    for text in ["06:30:00.000", "a:", ":", "", "abc"] {
        let got: Vec<String> = split_on(text.as_bytes(), b':').iter().map(|w| s(w)).collect();
        let want: Vec<String> = text.split(':').map(|w| w.to_string()).collect();
        assert_eq!(got, want, "{:?}", text);
    }
}

#[test]
fn quotes_trimmed() {
    assert_eq!(s(&trim_byte(b"\"\"23 Apr\"", b'"')), "23 Apr");
    assert_eq!(s(&trim_byte(b"\"\"\"", b'"')), "");
}

#[test]
fn parse_i32_matches_std() {
    for text in ["0", "42", "-42", "+7", "-", "+", "", "2147483647", "2147483648", "-2147483648", "-2147483649", "12a", " 1", "007", "99999999999999999999"] {
        assert_eq!(parse_i32(text.as_bytes()), text.parse::<i32>().ok(), "{:?}", text);
    }
}

#[test]
fn month_numbers() {
    assert_eq!(month_number(b"Jan"), 1);
    assert_eq!(month_number(b"Apr"), 4);
    assert_eq!(month_number(b"Dec"), 12);
    assert_eq!(month_number(b"apr"), 1);
    assert_eq!(month_number(b"April"), 1);
}

#[test]
fn time_stamp_fields() {
    let f = date_time_fields(b"23 Apr 2026 06:30:00.000").unwrap();
    assert_eq!((f.day, f.month, f.year), (23, 4, 2026));
    let clock: Vec<String> = f.clock.iter().map(|p| s(p)).collect();
    assert_eq!(clock, vec!["06", "30", "00.000"]);
    assert!(date_time_fields(b"23 Apr 2026").is_none());
    let g = date_time_fields(b"x Foo y 1").unwrap();
    assert_eq!((g.day, g.month, g.year), (1, 1, 2026));
}

#[test]
fn j2000_epoch_day_number() {
    // 1 Jan 2000 12:00 is Julian date 2451545.0
    let k = date_day_number(2000, 1, 1);
    assert_eq!(k as f64 - 1524.5 + 12.0 / 24.0, 2451545.0);
}

#[test]
fn day_numbers_follow_the_calendar() {
    assert_eq!(date_day_number(2026, 3, 1) - date_day_number(2026, 2, 28), 1);
    assert_eq!(date_day_number(2024, 3, 1) - date_day_number(2024, 2, 28), 2);
    assert_eq!(date_day_number(2001, 1, 1) - date_day_number(2000, 1, 1), 366);
    assert_eq!(date_day_number(2101, 1, 1) - date_day_number(2100, 1, 1), 365);
    // negative years use floor division
    assert_eq!(date_day_number(-1, 6, 1) - date_day_number(-2, 6, 1), 365);
}

#[test]
fn tle_epoch_fields() {
    let e = tle_epoch(b"09040.78448243").unwrap();
    assert_eq!(e.year, 2009);
    assert_eq!(s(&e.day_text), "040.78448243");
    let e = tle_epoch(b"98123.5").unwrap();
    assert_eq!(e.year, 1998);
    let e = tle_epoch(b"ab123").unwrap();
    assert_eq!(e.year, 2000);
    assert!(tle_epoch(b"0904").is_none());
}

#[test]
fn jan1_part_matches_float_formula() {
    for year in [1957i32, 1999, 2000, 2009, 2056] {
        let f = 367.0 * year as f64 - (7.0 * (year as f64 + 1.0) / 4.0).floor();
        assert_eq!(jan1_day_part(year) as f64, f);
    }
}

const ISS: &str = "ISS (ZARYA)\n1 25544U 98067A   09040.78448243  .00012345  00000-0  12345-3 0  9993\n2 25544  51.6416 247.4627 0006703 130.5360 325.0288 15.72125391563537\n";

#[test]
fn tle_lines_and_fields() {
    let lines = tle_record_lines(ISS.as_bytes());
    assert_eq!(s(&lines.name), "ISS (ZARYA)");
    let f = tle_fields(&lines.line1, &lines.line2);
    assert_eq!(s(&f.inclination.unwrap()), "51.6416");
    assert_eq!(s(&f.raan.unwrap()), "247.4627");
    assert_eq!(s(&f.eccentricity_digits), "0006703");
    assert_eq!(s(&f.arg_perigee.unwrap()), "130.5360");
    assert_eq!(s(&f.mean_anomaly.unwrap()), "325.0288");
    assert_eq!(s(&f.mean_motion.unwrap()), "15.72125391");
    assert_eq!(s(&f.epoch), "09040.78448243");
}

#[test]
fn tle_defaults_for_missing_lines() {
    let lines = tle_record_lines(b"");
    assert_eq!(s(&lines.name), "UNKNOWN");
    assert!(lines.line1.is_empty() && lines.line2.is_empty());
}

#[test]
fn tle_column_clipping() {
    assert_eq!(tle_column(b"0123456789", 8, 16).map(|v| s(&v)), Some("89".to_string()));
    assert_eq!(tle_column(b"0123456789", 10, 16), None);
    assert_eq!(tle_column(b"01234567  ", 8, 16).map(|v| s(&v)), Some(String::new()));
}

#[test]
fn tle_catalogue_sets() {
    let content = format!("{}\n\n{}", ISS, "COSMOS 2251 DEB\n1 x\n2 y\nDANGLING\n");
    let sets = orbital_sim::tle::tle_sets(content.as_bytes());
    assert_eq!(sets.len(), 2);
    assert_eq!(s(&sets[0].name), "ISS (ZARYA)");
    assert_eq!(s(&sets[1].name), "COSMOS 2251 DEB");
    assert_eq!(s(&sets[1].line2), "2 y");
}
