use photometric::ies::{
    ies_readings_fit, ies_words, parse_float, parse_ies, parse_int, try_parse_ies, IesData,
};
use photometric::loader::{IesLoaderError, IesLoaderSettings};
use photometric::tokens::tokenize_from_lines;

/// Minimal valid IES file.
const MINIMAL_IES: &str = r#"IESNA:LM-63-2002
[TEST] Test
[MANUFAC] Test Manufacturer
TILT=NONE
1 1000 1.0 3 1 1 2 0.0 0.0 0.0
1.0 1.0 100
0 90 180
0
1000 500 100
"#;

fn readings(text: &str) -> Vec<Vec<Option<u32>>> {
    ies_words(text)
        .iter()
        .map(|line| {
            line.iter()
                .map(|w| w.parse::<f32>().ok().map(f32::to_bits))
                .collect()
        })
        .collect()
}

fn parse(text: &str) -> Option<Result<IesData, IesLoaderError>> {
    let rd = readings(text);
    assert!(ies_readings_fit(text, &rd));
    try_parse_ies(text, &rd)
}

fn message(r: Option<Result<IesData, IesLoaderError>>) -> String {
    match r {
        Some(Err(IesLoaderError::Parse(m))) => m,
        Some(Err(other)) => panic!("unexpected error {other:?}"),
        Some(Ok(d)) => panic!("unexpected success {d:?}"),
        None => panic!("the reader panics on this input"),
    }
}

fn f(bits: u32) -> f32 {
    f32::from_bits(bits)
}

#[test]
fn test_parse_minimal_ies() {
    let rd = readings(MINIMAL_IES);
    let data = parse_ies(MINIMAL_IES, &rd).unwrap();
    let multiplier = f(data.candela_multiplier);
    assert_eq!(data.photometric_type, 1);
    assert_eq!(data.vertical_angles.len(), 3);
    assert_eq!(data.horizontal_angles.len(), 1);
    assert_eq!(data.candela_values.len(), 1);
    assert_eq!(data.candela_values[0].len(), 3);
    assert_eq!(f(data.candela_values[0][0]) * multiplier, 1000.0);
    assert_eq!(f(data.candela_values[0][1]) * multiplier, 500.0);
    assert_eq!(f(data.candela_values[0][2]) * multiplier, 100.0);
}

#[test]
fn minimal_ies_lamp_line_fields() {
    let data = parse(MINIMAL_IES).unwrap().unwrap();
    assert_eq!(data.num_lamps, 1);
    assert_eq!(f(data.lumens_per_lamp), 1000.0);
    assert_eq!(f(data.candela_multiplier), 1.0);
    assert_eq!(data.units_type, 2);
    assert_eq!(f(data.width), 0.0);
    assert_eq!(f(data.length), 0.0);
    assert_eq!(f(data.height), 0.0);
    let vert: Vec<f32> = data.vertical_angles.iter().map(|&b| f(b)).collect();
    assert_eq!(vert, vec![0.0, 90.0, 180.0]);
    assert_eq!(f(data.horizontal_angles[0]), 0.0);
}

#[test]
fn values_wrap_across_lines_and_skip_blank_lines() {
    let text = "IESNA:LM-63-1995\r\nTILT=NONE\r\n1 -1 2.5\r\n\r\n2 2 3 1 0.5 0.25 0.125\r\n1 1 50\r\n0\r\n  45   \r\n0 180\r\n10 20\r\n30\r\n40\r\n";
    let data = parse(text).unwrap().unwrap();
    assert_eq!(data.photometric_type, 3);
    assert_eq!(data.num_lamps, 1);
    assert_eq!(f(data.lumens_per_lamp), -1.0);
    assert_eq!(f(data.candela_multiplier), 2.5);
    assert_eq!(data.units_type, 1);
    assert_eq!(f(data.width), 0.5);
    assert_eq!(f(data.height), 0.125);
    assert_eq!(data.vertical_angles.len(), 2);
    assert_eq!(data.horizontal_angles.len(), 2);
    let rows: Vec<Vec<f32>> = data
        .candela_values
        .iter()
        .map(|r| r.iter().map(|&b| f(b)).collect())
        .collect();
    assert_eq!(rows, vec![vec![10.0, 20.0], vec![30.0, 40.0]]);
}

#[test]
fn extra_values_on_a_line_are_passed_over() {
    // The electrical line holds a fourth value; the reader moves to the next line.
    let text = "TILT=NONE\n1 1000 1 1 1 1 2 0 0 0\n1 1 100 999\n0\n0\n7\n";
    let data = parse(text).unwrap().unwrap();
    assert_eq!(f(data.vertical_angles[0]), 0.0);
    assert_eq!(f(data.candela_values[0][0]), 7.0);
}

#[test]
fn integers_written_as_floats_are_truncated() {
    let text = "TILT=NONE\n1.0 1000 1 2.0 1.9 1.0 2.0 0 0 0\n1 1 1\n0 90\n0\n5 6\n";
    let data = parse(text).unwrap().unwrap();
    assert_eq!(data.num_lamps, 1);
    assert_eq!(data.vertical_angles.len(), 2);
    assert_eq!(data.horizontal_angles.len(), 1);
    assert_eq!(data.photometric_type, 1);
}

#[test]
fn tilt_include_skips_the_tilt_table() {
    let text = "IESNA:LM-63-2002\nTILT=INCLUDE\n1\n3\n0 45 90\n1.0 0.9 0.8\n1 1000 1 1 1 1 2 0 0 0\n1 1 10\n0\n0\n123\n";
    let data = parse(text).unwrap().unwrap();
    assert_eq!(f(data.candela_values[0][0]), 123.0);
}

#[test]
fn missing_tilt_line_is_an_error() {
    assert_eq!(message(parse("IESNA:LM-63-2002\n[TEST] x\n1 2 3\n")), "No TILT line found");
}

#[test]
fn tilt_line_is_found_after_trimming() {
    let text = "  TILTED header?\nTILT=NONE\n";
    // The first line starts with TILT after trimming, so it is the TILT line.
    assert_eq!(
        message(parse(text)),
        "Unexpected end of file, expected 9 more values"
    );
}

#[test]
fn tilt_include_at_end_is_an_error() {
    assert_eq!(
        message(parse("header\nTILT=INCLUDE\n")),
        "Unexpected end after TILT=INCLUDE"
    );
}

#[test]
fn missing_values_are_counted() {
    let text = "TILT=NONE\n1 1000 1 3 1 1 2 0 0 0\n1 1 100\n0 90\n";
    assert_eq!(
        message(parse(text)),
        "Unexpected end of file, expected 1 more values"
    );
}

#[test]
fn invalid_float_is_an_error() {
    let text = "TILT=NONE\n1 abc 1 3 1 1 2 0 0 0\n1 1 100\n0 90 180\n0\n1 2 3\n";
    assert_eq!(message(parse(text)), "Invalid float: 'abc'");
}

#[test]
fn invalid_integer_is_an_error() {
    let text = "TILT=NONE\nx1 1000 1 3 1 1 2 0 0 0\n1 1 100\n0 90 180\n0\n1 2 3\n";
    assert_eq!(message(parse(text)), "Invalid integer: 'x1'");
}

#[test]
fn first_error_in_reading_order_wins() {
    // The vertical angles hold an invalid value, and the file ends early after them.
    let text = "TILT=NONE\n1 1000 1 3 1 1 2 0 0 0\n1 1 100\n0 bad 180\n0\n";
    assert_eq!(message(parse(text)), "Invalid float: 'bad'");
}

#[test]
fn ies_negative_count_makes_the_reader_panic() {
    let text = "TILT=NONE\n1 1000 1 -3 1 1 2 0 0 0\n1 1 100\n0 90 180\n0\n1 2 3\n";
    assert!(parse(text).is_none());
}

#[test]
fn zero_counts_read_nothing() {
    let text = "TILT=NONE\n1 1000 1 0 0 1 2 0 0 0\n1 1 100\n";
    let data = parse(text).unwrap().unwrap();
    assert!(data.vertical_angles.is_empty());
    assert!(data.horizontal_angles.is_empty());
    assert!(data.candela_values.is_empty());
}

#[test]
fn negative_photometric_type_wraps_as_u32() {
    let text = "TILT=NONE\n1 1000 1 1 1 -1 2 0 0 0\n1 1 100\n0\n0\n1\n";
    let data = parse(text).unwrap().unwrap();
    assert_eq!(data.photometric_type, u32::MAX);
}

#[test]
fn ies_words_trim_and_split_every_line() {
    let words = ies_words("a b\r\n\t c\u{3000}d \n\n e");
    assert_eq!(
        words,
        vec![
            vec!["a".to_string(), "b".to_string()],
            vec!["c".to_string(), "d".to_string()],
            vec![],
            vec!["e".to_string()],
        ]
    );
    assert_eq!(ies_words("x\r").len(), 1);
    assert_eq!(ies_words("x\n")[0], vec!["x".to_string()]);
    assert!(ies_words("").is_empty());
}

#[test]
fn readings_that_do_not_fit_are_detected() {
    assert!(!ies_readings_fit("a b\nc", &vec![vec![None, None]]));
    assert!(!ies_readings_fit("a b\nc", &vec![vec![None], vec![None]]));
    assert!(ies_readings_fit("a b\nc", &vec![vec![None, None], vec![None]]));
}

#[test]
fn tokenize_collects_values_across_lines() {
    let lines = ["1 2", "", "  3 4 5", "6"];
    let mut idx = 0;
    let toks = tokenize_from_lines(&lines, &mut idx, 3).unwrap();
    assert_eq!(toks, vec!["1", "2", "3"]);
    // The rest of the third line is passed over.
    assert_eq!(idx, 3);
    let toks = tokenize_from_lines(&lines, &mut idx, 1).unwrap();
    assert_eq!(toks, vec!["6"]);
    assert_eq!(idx, 4);
}

#[test]
fn tokenize_zero_values_reads_no_line() {
    let lines = ["1 2"];
    let mut idx = 0;
    assert!(tokenize_from_lines(&lines, &mut idx, 0).unwrap().is_empty());
    assert_eq!(idx, 0);
}

#[test]
fn tokenize_reports_missing_values() {
    let lines = ["1 2", "3"];
    let mut idx = 0;
    match tokenize_from_lines(&lines, &mut idx, 5) {
        Err(IesLoaderError::Parse(m)) => {
            assert_eq!(m, "Unexpected end of file, expected 2 more values")
        }
        other => panic!("unexpected {other:?}"),
    }
    assert_eq!(idx, 2);
    let mut past = 7;
    match tokenize_from_lines(&lines, &mut past, 12) {
        Err(IesLoaderError::Parse(m)) => {
            assert_eq!(m, "Unexpected end of file, expected 12 more values")
        }
        other => panic!("unexpected {other:?}"),
    }
    assert_eq!(past, 7);
}

fn f32_reading(s: &str) -> Option<u32> {
    s.parse::<f32>().ok().map(f32::to_bits)
}

#[test]
fn parse_int_reads_integer_literals() {
    assert_eq!(parse_int("42", f32_reading("42")).unwrap(), 42);
    assert_eq!(parse_int("-7", f32_reading("-7")).unwrap(), -7);
    assert_eq!(parse_int("+7", f32_reading("+7")).unwrap(), 7);
    assert_eq!(parse_int("-2147483648", None).unwrap(), i32::MIN);
    // The literal wins over the float reading.
    assert_eq!(parse_int("5", Some(0)).unwrap(), 5);
}

#[test]
fn parse_int_truncates_float_literals() {
    for s in ["1.0", "3.9", "-3.9", "1e3", "2147483648", "-1e20", "1e20", "0.5", "nan", "inf"] {
        let expected = s.parse::<f32>().unwrap() as i32;
        assert_eq!(parse_int(s, f32_reading(s)).unwrap(), expected, "{s}");
    }
    assert_eq!(parse_int("1.0", f32_reading("1.0")).unwrap(), 1);
    assert_eq!(parse_int("2147483648", f32_reading("2147483648")).unwrap(), i32::MAX);
}

#[test]
fn parse_int_rejects_other_text() {
    match parse_int("abc", None) {
        Err(IesLoaderError::Parse(m)) => assert_eq!(m, "Invalid integer: 'abc'"),
        other => panic!("unexpected {other:?}"),
    }
}

#[test]
fn parse_float_reads_or_rejects() {
    assert_eq!(parse_float("2.5", f32_reading("2.5")).unwrap(), 2.5f32.to_bits());
    match parse_float("2,5", f32_reading("2,5")) {
        Err(IesLoaderError::Parse(m)) => assert_eq!(m, "Invalid float: '2,5'"),
        other => panic!("unexpected {other:?}"),
    }
}

#[test]
fn ies_settings_default_to_one_degree() {
    let s = IesLoaderSettings::default();
    assert_eq!((s.c_steps, s.g_steps), (361, 181));
}
