use path_follower::task::record::Sample;
use path_follower::text::write::{push_decimal, push_digits, push_fixed_digits, write_line, write_path};
use path_follower::text::{
    blank, file_name, find, parse_decimal, parse_isometry2, parse_line, parse_path, path_name, trim,
};

fn sample(x: i64, y: i64, theta: i64) -> Sample {
    Sample { x, y, theta }
}

#[test]
fn parse_test() {
    assert_eq!(parse_isometry2("-1,+2,-0"), Some(sample(-1000, 2000, 0)));
    assert_eq!(parse_isometry2("1,2,3,x"), None);
    assert_eq!(parse_isometry2(""), None);
}

#[test]
fn a_line_holds_metres_and_radians() {
    assert_eq!(parse_isometry2("1.5,-0.25,3.141593"), Some(sample(1500, -250, 3_141_593)));
    assert_eq!(parse_isometry2("0.0004,12,0.0000019"), Some(sample(0, 12_000, 1)));
    assert_eq!(parse_isometry2("-0.0019,-12.3456,-1.5707963"), Some(sample(-1, -12_345, -1_570_796)));
    assert_eq!(parse_isometry2(".5,5.,+.25"), Some(sample(500, 5000, 250_000)));
    assert_eq!(parse_isometry2("007,0.1000000000000000000001,1"), Some(sample(7000, 100, 1_000_000)));
}

#[test]
fn blanks_around_a_field_are_passed_over() {
    assert_eq!(parse_isometry2(" 1 ,\t2\t, 3 \r\n"), Some(sample(1000, 2000, 3_000_000)));
    assert_eq!(parse_isometry2("1,2,3\n"), Some(sample(1000, 2000, 3_000_000)));
    assert_eq!(parse_isometry2("1 0,2,3"), None);
    assert_eq!(parse_isometry2("- 1,2,3"), None);
}

#[test]
fn a_line_has_three_fields() {
    assert_eq!(parse_isometry2("1,2"), None);
    assert_eq!(parse_isometry2("1"), None);
    assert_eq!(parse_isometry2("1,2,3,4"), None);
    assert_eq!(parse_isometry2("1,2,3,"), None);
    assert_eq!(parse_isometry2(",,"), None);
    assert_eq!(parse_isometry2("1,,3"), None);
    assert_eq!(parse_isometry2("1,2,"), None);
}

#[test]
fn a_field_is_a_decimal_number() {
    assert_eq!(parse_isometry2("a,2,3"), None);
    assert_eq!(parse_isometry2("1,2,3x"), None);
    assert_eq!(parse_isometry2("1,.,3"), None);
    assert_eq!(parse_isometry2("1,+,3"), None);
    assert_eq!(parse_isometry2("1,2,-"), None);
    assert_eq!(parse_isometry2("1,2,1.2.3"), None);
    assert_eq!(parse_isometry2("1,2,--3"), None);
    assert_eq!(parse_isometry2("1,2,3-"), None);
    assert_eq!(parse_isometry2("1,2,0.5-"), None);
}

#[test]
fn numbers_beyond_the_range_are_not_read() {
    assert_eq!(parse_isometry2("1000000,0,0"), Some(sample(1_000_000_000, 0, 0)));
    assert_eq!(parse_isometry2("1000000.000999,0,0"), Some(sample(1_000_000_000, 0, 0)));
    assert_eq!(parse_isometry2("1000000.001,0,0"), None);
    assert_eq!(parse_isometry2("0,-1000000.001,0"), None);
    assert_eq!(parse_isometry2("0,-1000000,0"), Some(sample(0, -1_000_000_000, 0)));
    assert_eq!(parse_isometry2("0,0,1000000"), Some(sample(0, 0, 1_000_000_000_000)));
    assert_eq!(parse_isometry2("0,0,1000000.000001"), None);
    assert_eq!(parse_isometry2("99999999999999999999999999999999999999,0,0"), None);
    assert_eq!(parse_isometry2("0,0,-99999999999999999999999999999999999999"), None);
}

#[test]
fn parse_decimal_scales_by_the_places() {
    assert_eq!(parse_decimal(b"12.3456", 0, 100), Some(12));
    assert_eq!(parse_decimal(b"12.3456", 1, 1000), Some(123));
    assert_eq!(parse_decimal(b"12.3456", 3, 1_000_000), Some(12_345));
    assert_eq!(parse_decimal(b"12.3456", 6, 100_000_000), Some(12_345_600));
    assert_eq!(parse_decimal(b"-12.3456", 6, 100_000_000), Some(-12_345_600));
    assert_eq!(parse_decimal(b"12.3456", 6, 12_345_599), None);
    assert_eq!(parse_decimal(b"12.3456", 6, 12_345_600), Some(12_345_600));
    assert_eq!(parse_decimal(b"", 3, 1000), None);
    assert_eq!(parse_decimal(b"-0.0001", 3, 1000), Some(0));
    assert_eq!(parse_decimal(b"1e3", 3, 10_000_000), None);
    assert_eq!(parse_decimal(b"inf", 3, 10_000_000), None);
}

#[test]
fn find_and_trim() {
    assert_eq!(find(b"a,b,c", b',', 0), 1);
    assert_eq!(find(b"a,b,c", b',', 1), 1);
    assert_eq!(find(b"a,b,c", b',', 2), 3);
    assert_eq!(find(b"a,b,c", b',', 4), 5);
    assert_eq!(find(b"a,b,c", b',', 5), 5);
    assert_eq!(find(b"", b',', 0), 0);
    assert_eq!(trim(b"  a b \t\r\n"), b"a b");
    assert_eq!(trim(b"a"), b"a");
    assert_eq!(trim(b" \n "), b"");
    assert_eq!(trim(b""), b"");
    assert!(blank(b' ') && blank(b'\t') && blank(b'\n') && blank(b'\r') && blank(11) && blank(12));
    assert!(!blank(b'a') && !blank(0) && !blank(8) && !blank(14) && !blank(b'0'));
    assert_eq!(parse_line(b"1,2,3"), Some(sample(1000, 2000, 3_000_000)));
}

#[test]
fn a_file_is_read_line_by_line() {
    let text = "0,0,0\n0.3,0,0\nnot a pose\n\n0.6,0,0.1\r\n1,2\n0.9,0.1,0.2";
    assert_eq!(
        parse_path(text),
        vec![
            sample(0, 0, 0),
            sample(300, 0, 0),
            sample(600, 0, 100_000),
            sample(900, 100, 200_000),
        ]
    );
    assert_eq!(parse_path(""), Vec::<Sample>::new());
    assert_eq!(parse_path("\n\n"), Vec::<Sample>::new());
    assert_eq!(parse_path("1,2,3\n"), vec![sample(1000, 2000, 3_000_000)]);
    assert_eq!(parse_path("1,2,3"), vec![sample(1000, 2000, 3_000_000)]);
    assert_eq!(parse_path("\n1,2,3"), vec![sample(1000, 2000, 3_000_000)]);
}

#[test]
fn a_line_is_written_to_the_millimetre_and_the_microradian() {
    assert_eq!(write_line(&sample(1500, -250, 3_141_593)), b"1.500,-0.250,3.141593\n");
    assert_eq!(write_line(&sample(0, 0, 0)), b"0.000,0.000,0.000000\n");
    assert_eq!(write_line(&sample(-1, 7, -42)), b"-0.001,0.007,-0.000042\n");
    assert_eq!(
        write_line(&sample(1_000_000_000, -1_000_000_000, 1_000_000_000_000)),
        b"1000000.000,-1000000.000,1000000.000000\n"
    );
    assert_eq!(write_line(&sample(12_345, 100, 1_200_000)), b"12.345,0.100,1.200000\n");
}

#[test]
fn what_is_written_is_read_back() {
    let samples = vec![
        sample(0, 0, 0),
        sample(1500, -250, 3_141_593),
        sample(-1, 7, -42),
        sample(1_000_000_000, -1_000_000_000, -1_000_000_000_000),
        sample(999, -999, 999_999),
    ];
    for s in &samples {
        assert_eq!(parse_line(&write_line(s)), Some(*s));
    }
    let text = write_path(&samples);
    assert_eq!(parse_path(std::str::from_utf8(&text).unwrap()), samples);
    assert_eq!(write_path(&[]), b"");
    assert_eq!(write_path(&samples[1..3]), b"1.500,-0.250,3.141593\n-0.001,0.007,-0.000042\n");
}

#[test]
fn numbers_are_written_digit_by_digit() {
    let mut out = b"x".to_vec();
    push_digits(&mut out, 0);
    push_digits(&mut out, 907);
    push_fixed_digits(&mut out, 7, 3);
    push_fixed_digits(&mut out, 12_345, 3);
    push_fixed_digits(&mut out, 5, 0);
    push_decimal(&mut out, -5, 1);
    push_decimal(&mut out, 5, 0);
    assert_eq!(out, b"x0907007345-0.55.");
    let mut out = Vec::new();
    push_digits(&mut out, u64::MAX);
    assert_eq!(out, b"18446744073709551615");
}

#[test]
fn a_path_file_is_named_after_its_path() {
    assert_eq!(path_name(b"yard.path"), Some(&b"yard"[..]));
    assert_eq!(path_name(b"a.b.path"), Some(&b"a.b"[..]));
    assert_eq!(path_name(b".path"), Some(&b""[..]));
    assert_eq!(path_name(b"yard.path.bak"), None);
    assert_eq!(path_name(b"yard.Path"), None);
    assert_eq!(path_name(b"yardpath"), None);
    assert_eq!(path_name(b"path"), None);
    assert_eq!(path_name(b""), None);
    assert_eq!(file_name(b"yard"), b"yard.path");
    assert_eq!(file_name(b""), b".path");
    assert_eq!(path_name(&file_name(b"round the yard")), Some(&b"round the yard"[..]));
}
