use photometric::ldt::{
    ldt_number_text, ldt_number_texts, parse_ldt, parse_ldt_float, parse_ldt_int, try_parse_ldt,
    LdtData,
};
use photometric::loader::{LdtLoaderError, LdtLoaderSettings};

fn reading(text: &str) -> Option<u32> {
    text.parse::<f32>().ok().map(f32::to_bits)
}

fn readings(text: &str) -> Vec<Option<u32>> {
    ldt_number_texts(text).iter().map(|t| reading(t)).collect()
}

fn f(bits: u32) -> f32 {
    f32::from_bits(bits)
}

/// An EULUMDAT file: header, one lamp set, direct ratios, C-plane angles 0, 90,
/// 180, 270, gamma angles 0, 45, 90, and intensities for the planes it keeps.
fn ldt_lines(isym: &str, c_angles: &[&str], intensity_lines: usize) -> Vec<String> {
    let mut l: Vec<String> = vec![
        "ACME Lighting", // 0 company
        "1",             // 1 type
        isym,            // 2 symmetry
        "4",             // 3 number of C-planes
        "90",            // 4 C-plane distance
        "3",             // 5 number of gamma angles
        "45",            // 6 gamma distance
        "report",        // 7
        "luminaire",     // 8
        "number",        // 9
        "file.ldt",      // 10
        "date",          // 11
        "1000",          // 12 length
        "500",           // 13 width
        "100",           // 14 height
        "900",           // 15
        "400",           // 16
        "0",             // 17
        "0",             // 18
        "0",             // 19
        "0",             // 20
        "100",           // 21
        "85,5",          // 22
        "1,5",           // 23 conversion factor
        "0",             // 24 tilt
        "1",             // 25 lamp sets
        "1",             // 26 number of lamps
        "LED",           // 27 lamp type
        " 1000 ",        // 28 flux
        "3000K",         // 29
        "80",            // 30
        "10",            // 31 wattage
    ]
    .into_iter()
    .map(String::from)
    .collect();
    for k in 0..10 {
        l.push(format!("0.{k}"));
    }
    for a in c_angles {
        l.push(a.to_string());
    }
    for g in ["0", "45", "90"] {
        l.push(g.to_string());
    }
    for k in 0..intensity_lines {
        l.push(format!("{}", 100 + k));
    }
    l
}

fn parse(text: &str) -> Option<Result<LdtData, LdtLoaderError>> {
    try_parse_ldt(text, &readings(text))
}

fn message(r: Option<Result<LdtData, LdtLoaderError>>) -> String {
    match r {
        Some(Err(LdtLoaderError::Parse(m))) => m,
        Some(Err(other)) => panic!("unexpected error {other:?}"),
        Some(Ok(d)) => panic!("unexpected success {d:?}"),
        None => panic!("the reader panics on this input"),
    }
}

#[test]
fn test_ldt_float_parsing() {
    let lines = ["  1234.5  ", "1234,5", "0"];
    let values: Vec<f32> = lines
        .iter()
        .map(|l| f(parse_ldt_float(l, reading(&ldt_number_text(l))).unwrap()))
        .collect();
    assert!((values[0] - 1234.5).abs() < 0.01);
    assert!((values[1] - 1234.5).abs() < 0.01);
    assert!(values[2].abs() < 0.01);
}

#[test]
fn ldt_number_text_trims_and_uses_a_decimal_point() {
    assert_eq!(ldt_number_text("  1234,5 \r"), "1234.5");
    assert_eq!(ldt_number_text("1,2,3"), "1.2.3");
    assert_eq!(ldt_number_texts("a, b\r\n 2,5\n"), vec!["a. b".to_string(), "2.5".to_string()]);
}

#[test]
fn parse_ldt_float_quotes_the_trimmed_line() {
    match parse_ldt_float("  abc ", None) {
        Err(LdtLoaderError::Parse(m)) => assert_eq!(m, "Invalid float: 'abc'"),
        other => panic!("unexpected {other:?}"),
    }
}

#[test]
fn parse_ldt_int_reads_integers() {
    assert_eq!(parse_ldt_int(" 4 ", reading("4")).unwrap(), 4);
    assert_eq!(parse_ldt_int("2.0", reading("2.0")).unwrap(), 2);
    assert_eq!(parse_ldt_int("2,7", reading(&ldt_number_text("2,7"))).unwrap(), 2);
    match parse_ldt_int(" x ", None) {
        Err(LdtLoaderError::Parse(m)) => assert_eq!(m, "Invalid integer: 'x'"),
        other => panic!("unexpected {other:?}"),
    }
}

#[test]
fn bilateral_symmetry_keeps_planes_up_to_180() {
    let text = ldt_lines("2", &["0", "90", "180", "270"], 9).join("\n");
    let d = parse(&text).unwrap().unwrap();
    assert_eq!(d.isym, 2);
    assert_eq!(d.num_c_planes, 4);
    assert_eq!(d.num_gamma, 3);
    assert_eq!(f(d.delta_c), 90.0);
    assert_eq!(f(d.delta_gamma), 45.0);
    let c: Vec<f32> = d.c_angles.iter().map(|&b| f(b)).collect();
    assert_eq!(c, vec![0.0, 90.0, 180.0]);
    let g: Vec<f32> = d.gamma_angles.iter().map(|&b| f(b)).collect();
    assert_eq!(g, vec![0.0, 45.0, 90.0]);
    let rows: Vec<Vec<f32>> = d
        .intensities
        .iter()
        .map(|r| r.iter().map(|&b| f(b)).collect())
        .collect();
    assert_eq!(
        rows,
        vec![vec![100.0, 101.0, 102.0], vec![103.0, 104.0, 105.0], vec![106.0, 107.0, 108.0]]
    );
    assert_eq!(f(d.conversion_factor), 1.5);
    assert_eq!(f(d.total_flux), 1000.0);
    assert_eq!((f(d.length_mm), f(d.width_mm), f(d.height_mm)), (1000.0, 500.0, 100.0));
}

#[test]
fn quadrant_symmetry_keeps_planes_up_to_90() {
    let text = ldt_lines("4", &["0", "45", "90", "135"], 9).join("\r\n");
    let d = parse(&text).unwrap().unwrap();
    assert_eq!(d.c_angles.len(), 3);
    assert_eq!(d.intensities.len(), 3);
}

#[test]
fn rotational_symmetry_keeps_one_plane() {
    let text = ldt_lines("1", &["0", "90", "180", "270"], 3).join("\n");
    let d = parse(&text).unwrap().unwrap();
    assert_eq!(d.c_angles.len(), 1);
    assert_eq!(d.intensities.len(), 1);
    assert_eq!(d.intensities[0].len(), 3);
}

#[test]
fn no_symmetry_keeps_every_plane() {
    let text = ldt_lines("0", &["0", "90", "180", "270"], 12).join("\n");
    let d = parse(&text).unwrap().unwrap();
    assert_eq!(d.c_angles.len(), 4);
    assert_eq!(d.intensities.len(), 4);
}

#[test]
fn short_file_is_an_error() {
    let text = ldt_lines("2", &["0"], 0)[..41].join("\n");
    assert_eq!(message(parse(&text)), "File too short for EULUMDAT format");
}

#[test]
fn short_intensity_data_is_described() {
    let text = ldt_lines("2", &["0", "90", "180", "270"], 8).join("\n");
    assert_eq!(
        message(parse(&text)),
        "File too short for intensity data: need 9 lines from offset 49, file has 57 lines (isym=2, data_planes=3, gamma=3)"
    );
}

#[test]
fn invalid_header_field_is_an_error() {
    let mut l = ldt_lines("2", &["0", "90", "180", "270"], 9);
    l[4] = "wide".to_string();
    assert_eq!(message(parse(&l.join("\n"))), "Invalid float: 'wide'");
    l[2] = "sym".to_string();
    assert_eq!(message(parse(&l.join("\n"))), "Invalid integer: 'sym'");
}

#[test]
fn too_many_lamp_sets_is_an_error() {
    let mut l = ldt_lines("2", &["0", "90", "180", "270"], 9);
    l[25] = "6".to_string();
    assert_eq!(message(parse(&l.join("\n"))), "File too short for lamp data");
    l[25] = "4".to_string();
    assert_eq!(message(parse(&l.join("\n"))), "File too short for direct ratios");
}

#[test]
fn too_many_c_planes_is_an_error() {
    let mut l = ldt_lines("0", &["0", "90", "180", "270"], 0);
    l[3] = "40".to_string();
    assert_eq!(message(parse(&l.join("\n"))), "File too short for C-plane angles");
}

#[test]
fn ldt_negative_count_makes_the_reader_panic() {
    let mut l = ldt_lines("2", &["0", "90", "180", "270"], 9);
    l[3] = "-1".to_string();
    assert!(parse(&l.join("\n")).is_none());
}

#[test]
fn rotational_symmetry_without_planes_makes_the_reader_panic() {
    let mut l = ldt_lines("1", &[], 3);
    l[3] = "0".to_string();
    assert!(parse(&l.join("\n")).is_none());
}

#[test]
fn no_lamp_sets_gives_no_flux() {
    let mut l = ldt_lines("2", &["0", "90", "180", "270"], 9);
    l[25] = "0".to_string();
    // Without lamp sets the lamp lines are read as direct ratios and so on.
    let text = l[..26].iter().chain(l[32..].iter()).cloned().collect::<Vec<_>>().join("\n");
    let d = parse(&text).unwrap().unwrap();
    assert_eq!(d.total_flux, 0);
}

#[test]
fn parse_ldt_agrees_with_try_parse_ldt() {
    let text = ldt_lines("3", &["0", "90", "180", "270"], 9).join("\n");
    let d = parse_ldt(&text, &readings(&text)).unwrap();
    assert_eq!(d.isym, 3);
    assert_eq!(d.intensities.len(), 3);
}

#[test]
fn ldt_settings_default_to_one_degree() {
    let s = LdtLoaderSettings::default();
    assert_eq!((s.c_steps, s.g_steps), (361, 181));
}
