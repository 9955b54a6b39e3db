use outside_surface::decimal::parse_coordinate;
use outside_surface::decimal::parse_count;
use outside_surface::decimal::scan_digits;
use outside_surface::decimal::write_coordinate;
use outside_surface::decimal::write_count;
use outside_surface::mesh_text::format_mesh;
use outside_surface::mesh_text::parse_mesh;
use outside_surface::mesh_text::parse_point;
use outside_surface::mesh_text::parse_triangle;
use outside_surface::mesh_text::split_tokens;
use outside_surface::vector::Vector3;
use outside_surface::vector::COORDINATE_LIMIT;

fn coordinate(text: &str) -> Option<i128> {
    parse_coordinate(text.as_bytes())
}

fn count(text: &str) -> Option<usize> {
    parse_count(text.as_bytes())
}

fn written(units: i128) -> String {
    let mut out = Vec::new();
    write_coordinate(units, &mut out);
    String::from_utf8(out).unwrap()
}

#[test]
fn digits_are_scanned_to_their_end() {
    assert_eq!(scan_digits(b"123abc", 0), 3);
    assert_eq!(scan_digits(b"123abc", 1), 3);
    assert_eq!(scan_digits(b"123abc", 3), 3);
    assert_eq!(scan_digits(b"123", 0), 3);
    assert_eq!(scan_digits(b"123", 3), 3);
    assert_eq!(scan_digits(b"", 0), 0);
    assert_eq!(scan_digits(b"/0:", 1), 2);
}

#[test]
fn counts_are_read() {
    assert_eq!(count("12"), Some(12));
    assert_eq!(count("+12"), Some(12));
    assert_eq!(count("0"), Some(0));
    assert_eq!(count("00012"), Some(12));
    assert_eq!(count(&usize::MAX.to_string()), Some(usize::MAX));
}

#[test]
fn bad_counts_are_refused() {
    assert_eq!(count(""), None);
    assert_eq!(count("+"), None);
    assert_eq!(count("-1"), None);
    assert_eq!(count("-0"), None);
    assert_eq!(count(" 12"), None);
    assert_eq!(count("12 "), None);
    assert_eq!(count("12\r"), None);
    assert_eq!(count("1a"), None);
    assert_eq!(count("++1"), None);
    assert_eq!(count("1.0"), None);
    assert_eq!(count("18446744073709551616"), None);
    assert_eq!(count("99999999999999999999999999"), None);
    assert_eq!(count("99999999999999999999999999x"), None);
}

#[test]
fn coordinates_are_read_in_units() {
    assert_eq!(coordinate("0.4"), Some(4_000_000));
    assert_eq!(coordinate("-0.4000001"), Some(-4_000_001));
    assert_eq!(coordinate("1"), Some(10_000_000));
    assert_eq!(coordinate("1."), Some(10_000_000));
    assert_eq!(coordinate(".5"), Some(5_000_000));
    assert_eq!(coordinate("+.5e+1"), Some(50_000_000));
    assert_eq!(coordinate("-1.e1"), Some(-100_000_000));
    assert_eq!(coordinate("-0"), Some(0));
    assert_eq!(coordinate("0.0"), Some(0));
    assert_eq!(coordinate("0000000000000000000000000000001"), Some(10_000_000));
}

#[test]
fn exponents_move_the_point() {
    assert_eq!(coordinate("1e2"), Some(1_000_000_000));
    assert_eq!(coordinate("1E-2"), Some(100_000));
    assert_eq!(coordinate("0.5e1"), Some(50_000_000));
    assert_eq!(coordinate("5e-1"), Some(5_000_000));
    assert_eq!(coordinate("0.0000001e7"), Some(10_000_000));
    assert_eq!(coordinate("1e4"), Some(100_000_000_000));
    assert_eq!(coordinate("1e5"), Some(1_000_000_000_000));
    assert_eq!(coordinate("1e6"), Some(10_000_000_000_000));
    assert_eq!(coordinate("200000"), Some(2_000_000_000_000));
    assert_eq!(coordinate("123456789e-20"), Some(0));
    assert_eq!(coordinate("109951162777.6e-6"), Some(COORDINATE_LIMIT));
}

#[test]
fn coordinates_are_rounded_to_the_nearest_unit() {
    assert_eq!(coordinate("0.00000004"), Some(0));
    assert_eq!(coordinate("0.00000005"), Some(1));
    assert_eq!(coordinate("0.00000015"), Some(2));
    assert_eq!(coordinate("-0.00000005"), Some(-1));
    assert_eq!(coordinate("0.30000000000000004"), Some(3_000_000));
    assert_eq!(coordinate("0.99999995"), Some(10_000_000));
    assert_eq!(coordinate("0.99999994"), Some(9_999_999));
    assert_eq!(coordinate("5e-8"), Some(1));
    assert_eq!(coordinate("4.9999999e-8"), Some(0));
    assert_eq!(coordinate("-5e-8"), Some(-1));
}

#[test]
fn coordinates_beyond_the_range_of_the_intersection_test_are_read() {
    assert_eq!(coordinate("109951.1627776"), Some(COORDINATE_LIMIT));
    assert_eq!(coordinate("-109951.1627776"), Some(-COORDINATE_LIMIT));
    assert_eq!(coordinate("109951.1627777"), Some(COORDINATE_LIMIT + 1));
    assert_eq!(coordinate("109951.16277765"), Some(COORDINATE_LIMIT + 1));
    assert_eq!(coordinate("12345678901234567890"), Some(123_456_789_012_345_678_900_000_000));
    assert_eq!(
        parse_point(b"200000 0 0"),
        Some(Vector3 { x: 2_000_000_000_000, y: 0, z: 0 })
    );
}

#[test]
fn coordinates_that_no_number_holds_are_refused() {
    assert_eq!(coordinate("17014118346046923173168730371588.4105727"), Some(i128::MAX));
    assert_eq!(coordinate("17014118346046923173168730371588.41057274"), Some(i128::MAX));
    assert_eq!(coordinate("17014118346046923173168730371588.41057275"), None);
    assert_eq!(coordinate("17014118346046923173168730371588.4105728"), None);
    assert_eq!(coordinate("-17014118346046923173168730371588.4105728"), Some(i128::MIN));
    assert_eq!(coordinate("-17014118346046923173168730371588.41057284"), Some(i128::MIN));
    assert_eq!(coordinate("-17014118346046923173168730371588.41057285"), None);
    assert_eq!(coordinate("-17014118346046923173168730371588.4105729"), None);
    assert_eq!(coordinate("1e31"), Some(100_000_000_000_000_000_000_000_000_000_000_000_000));
    assert_eq!(coordinate("1e32"), None);
    assert_eq!(coordinate("99999999999999999999999999999999999999999999"), None);
    assert_eq!(coordinate("0.00000000000000000000000000000000000001e70"), None);
    assert_eq!(coordinate("0.00000000000000000000000000000000000001e69"), Some(100_000_000_000_000_000_000_000_000_000_000_000_000));
    assert_eq!(coordinate("0.00000000000000000000000000000000000001e38"), Some(10_000_000));
}

#[test]
fn huge_exponents_are_decided() {
    assert_eq!(coordinate("1e99999999999999999999999999999999999"), None);
    assert_eq!(coordinate("0e99999999999999999999999999999999999"), Some(0));
    assert_eq!(coordinate("0.000e99999999999999999999999999999999999"), Some(0));
    assert_eq!(coordinate("1e-99999999999999999999999999999999999"), Some(0));
    assert_eq!(coordinate("-9e-99999999999999999999999999999999999"), Some(0));
}

#[test]
fn what_is_no_number_is_refused() {
    for text in [
        "", ".", "+", "-", "1e", "e5", "1e+", "1e-", "1.5e3x", "inf", "nan", "NaN", "infinity",
        "1_000", "0x10", "1.2.3", "--1", "+-1", "1e5.5", "1 ", " 1", "1,5", "1e 5", "\u{ff11}",
    ] {
        assert_eq!(coordinate(text), None, "{:?}", text);
    }
}

#[test]
fn tokens_are_runs_without_white_space() {
    assert_eq!(split_tokens(b"  a  bb\tccc "), vec![(2, 3), (5, 7), (8, 11)]);
    assert_eq!(split_tokens(b"abc"), vec![(0, 3)]);
    assert_eq!(split_tokens(b""), Vec::new());
    assert_eq!(split_tokens(b" \t\r\x0b\x0c "), Vec::new());
    assert_eq!(split_tokens(b"1 2 3\r"), vec![(0, 1), (2, 3), (4, 5)]);
    assert_eq!(split_tokens(b"a\xc2\xa0b"), vec![(0, 4)]);
}

#[test]
fn points_are_read_from_lines() {
    assert_eq!(
        parse_point(b"0.5 1 -2"),
        Some(Vector3 { x: 5_000_000, y: 10_000_000, z: -20_000_000 })
    );
    assert_eq!(
        parse_point(b"\t0.5   1e0\t-2.0  "),
        Some(Vector3 { x: 5_000_000, y: 10_000_000, z: -20_000_000 })
    );
    assert_eq!(parse_point(b"0.5 1"), None);
    assert_eq!(parse_point(b"0.5 1 2 3"), None);
    assert_eq!(parse_point(b"0.5,1,2"), None);
    assert_eq!(parse_point(b"0.5 1 x"), None);
    assert_eq!(parse_point(b"x 1 2"), None);
    assert_eq!(parse_point(b"0 nan 2"), None);
    assert_eq!(parse_point(b""), None);
}

#[test]
fn triangles_are_read_from_lines() {
    assert_eq!(parse_triangle(b"0 1 2"), Some((0, 1, 2)));
    assert_eq!(parse_triangle(b" 3\t4  5 "), Some((3, 4, 5)));
    assert_eq!(parse_triangle(b"0 1 -2"), None);
    assert_eq!(parse_triangle(b"0 1 2.0"), None);
    assert_eq!(parse_triangle(b"0 1"), None);
    assert_eq!(parse_triangle(b"0 1 2 3"), None);
}

fn small_mesh() -> (Vec<Vector3>, Vec<(usize, usize, usize)>) {
    (
        vec![
            Vector3 { x: 0, y: 0, z: 0 },
            Vector3 { x: 10_000_000, y: 0, z: -5_000_000 },
            Vector3 { x: 1, y: 12_345_678, z: -COORDINATE_LIMIT },
        ],
        vec![(0, 1, 2), (2, 1, 0)],
    )
}

#[test]
fn a_mesh_is_read() {
    let text = b"3\n0 0 0\n1 0 -0.5\n0.0000001 1.2345678 -109951.1627776\n2\n0 1 2\n2 1 0\n";
    assert_eq!(parse_mesh(text), Some(small_mesh()));
}

#[test]
fn line_ends_of_either_kind_are_read() {
    let text = b"3\r\n0 0 0\r\n1 0 -0.5\r\n0.0000001 1.2345678 -109951.1627776\r\n2\r\n0 1 2\r\n2 1 0\r\n";
    assert_eq!(parse_mesh(text), Some(small_mesh()));
    let text = b"3\n0 0 0\n1 0 -0.5\n0.0000001 1.2345678 -109951.1627776\n2\n0 1 2\n2 1 0";
    assert_eq!(parse_mesh(text), Some(small_mesh()));
    let text = b"3\n0 0 0\n1 0 -0.5\n0.0000001 1.2345678 -109951.1627776\n2\n0 1 2\n2 1 0\r";
    assert_eq!(parse_mesh(text), Some(small_mesh()));
}

#[test]
fn what_follows_the_mesh_is_not_read() {
    let text = b"1\n1 2 3\n0\nthis is not read\n";
    assert_eq!(
        parse_mesh(text),
        Some((vec![Vector3 { x: 10_000_000, y: 20_000_000, z: 30_000_000 }], Vec::new()))
    );
}

#[test]
fn an_empty_mesh_is_read() {
    assert_eq!(parse_mesh(b"0\n0\n"), Some((Vec::new(), Vec::new())));
    assert_eq!(parse_mesh(b"0\n0"), Some((Vec::new(), Vec::new())));
}

#[test]
fn a_text_that_is_no_mesh_is_refused() {
    for text in [
        &b""[..],
        b"\n",
        b"x\n",
        b" 1\n1 2 3\n0\n",
        b"1 \n1 2 3\n0\n",
        b"-1\n0\n",
        b"1\n",
        b"1\n1 2 3\n",
        b"1\n1 2\n0\n",
        b"1\n1 2 3 4\n0\n",
        b"1\n1 2 x\n0\n",
        b"2\n1 2 3\n0\n",
        b"1\n\n1 2 3\n0\n",
        b"1\n1 2 3\n1\n",
        b"1\n1 2 3\n1\n0 0\n",
        b"1\n1 2 3\n1\n0 0 0.5\n",
        b"1\n1 2 3\n2\n0 0 0\n",
        b"1\n1 2 3\nx\n",
        b"0\n0\r",
        b"1\n1e32 0 0\n0\n",
    ] {
        assert_eq!(parse_mesh(text), None, "{:?}", String::from_utf8_lossy(text));
    }
}

#[test]
fn counts_are_written() {
    let mut out = Vec::new();
    write_count(0, &mut out);
    out.push(b' ');
    write_count(7, &mut out);
    out.push(b' ');
    write_count(1234567890, &mut out);
    out.push(b' ');
    write_count(u128::MAX, &mut out);
    assert_eq!(
        String::from_utf8(out).unwrap(),
        "0 7 1234567890 340282366920938463463374607431768211455"
    );
}

#[test]
fn coordinates_are_written() {
    assert_eq!(written(0), "0");
    assert_eq!(written(10_000_000), "1");
    assert_eq!(written(-10_000_000), "-1");
    assert_eq!(written(5_000_000), "0.5");
    assert_eq!(written(-5_000_000), "-0.5");
    assert_eq!(written(1), "0.0000001");
    assert_eq!(written(-1), "-0.0000001");
    assert_eq!(written(10), "0.000001");
    assert_eq!(written(12_345_678), "1.2345678");
    assert_eq!(written(123_456_780), "12.345678");
    assert_eq!(written(100_000_010), "10.000001");
    assert_eq!(written(COORDINATE_LIMIT), "109951.1627776");
    assert_eq!(written(-COORDINATE_LIMIT), "-109951.1627776");
    assert_eq!(written(i128::MAX), "17014118346046923173168730371588.4105727");
    assert_eq!(written(i128::MIN), "-17014118346046923173168730371588.4105728");
}

#[test]
fn a_mesh_is_written() {
    let (points, triangles) = small_mesh();
    let text = format_mesh(&points, &triangles);
    assert_eq!(
        String::from_utf8(text).unwrap(),
        "3\n0 0 0\n1 0 -0.5\n0.0000001 1.2345678 -109951.1627776\n2\n0 1 2\n2 1 0\n"
    );
    assert_eq!(String::from_utf8(format_mesh(&Vec::new(), &Vec::new())).unwrap(), "0\n0\n");
}

#[test]
fn what_is_written_is_read_back() {
    let (points, triangles) = small_mesh();
    let text = format_mesh(&points, &triangles);
    assert_eq!(parse_mesh(&text), Some((points, triangles)));
    for units in [
        0,
        1,
        -1,
        9,
        10,
        99,
        100,
        9_999_999,
        10_000_000,
        10_000_001,
        123_456_789_012,
        COORDINATE_LIMIT,
        -COORDINATE_LIMIT,
        COORDINATE_LIMIT * 1000 + 1,
        i128::MAX,
        i128::MIN,
        i128::MIN + 1,
    ] {
        assert_eq!(coordinate(&written(units)), Some(units));
    }
    for n in [0usize, 1, 9, 10, 11, 99, 100, 12345, usize::MAX] {
        let mut out = Vec::new();
        write_count(n as u128, &mut out);
        assert_eq!(parse_count(&out), Some(n));
    }
}
