use asc_bundler::{parse_table, Bundle, BundleError};

fn measurement(wavelengths: &[i64], intensities: &[i64], exposure: &str) -> String {
    let mut text = String::new();
    for (w, i) in wavelengths.iter().zip(intensities.iter()) {
        text.push_str(&format!("{},{}\n", w, i));
    }
    text.push('\n');
    text.push_str("Date: 2020-01-01\n");
    text.push_str(&format!("Exposure Time(sec): {}\n", exposure));
    text.push_str("Grating: 600\n");
    text
}

fn example(step: i64, exposure: &str) -> String {
    let wl: Vec<i64> = (1..=10).collect();
    let it: Vec<i64> = (1..=10).map(|k| k * step).collect();
    measurement(&wl, &it, exposure)
}

fn strings(v: &[&str]) -> Vec<String> {
    v.iter().map(|s| s.to_string()).collect()
}

#[test]
fn it_works() {
    let e1 = example(12, "4");
    let e2 = example(8, "8");
    let e3 = example(4, "16");
    let mut bundle = Bundle::init(&e1).unwrap();
    assert_eq!(bundle.exposure_time.len(), 0);
    assert_eq!(bundle.wave_length.len(), 10);
    bundle.assign_to_column_from_csv("sample/example1.asc", &e1).unwrap();
    bundle.assign_to_column_from_csv("sample/example2.asc", &e2).unwrap();
    bundle.assign_to_column_from_csv("sample/example3.asc", &e3).unwrap();
    assert_eq!(
        bundle.data,
        vec![
            ["12", "8", "4"],
            ["24", "16", "8"],
            ["36", "24", "12"],
            ["48", "32", "16"],
            ["60", "40", "20"],
            ["72", "48", "24"],
            ["84", "56", "28"],
            ["96", "64", "32"],
            ["108", "72", "36"],
            ["120", "80", "40"],
        ]
    );
    let raw = bundle.raw_table_text();
    assert!(raw.starts_with("Wave Length (nm),example1,example2,example3\n"));
    assert!(bundle.normalized_table_text().is_ok());
}

#[test]
fn raw_table_of_three_files() {
    let wl: Vec<i64> = (0..=10).collect();
    let f1: Vec<i64> = (0..=10).collect();
    let f2: Vec<i64> = (0..=10).map(|k| 2 * k).collect();
    let f3: Vec<i64> = (0..=10).map(|k| 3 * k).collect();
    let t1 = measurement(&wl, &f1, "1");
    let t2 = measurement(&wl, &f2, "1");
    let t3 = measurement(&wl, &f3, "1");
    let mut b = Bundle::init(&t1).unwrap();
    b.assign_to_column_from_csv("in/a.asc", &t1).unwrap();
    b.assign_to_column_from_csv("in/b.asc", &t2).unwrap();
    b.assign_to_column_from_csv("in/c.asc", &t3).unwrap();
    let rows = parse_table(&b.raw_table_text());
    assert_eq!(rows.len(), 13);
    assert_eq!(rows[0], strings(&["Wave Length (nm)", "a", "b", "c"]));
    assert_eq!(rows[1], strings(&["Exposure Time (sec)", "1", "1", "1"]));
    assert_eq!(rows[2], strings(&["0", "0", "0", "0"]));
    assert_eq!(rows[3], strings(&["1", "1", "2", "3"]));
    assert_eq!(rows[12], strings(&["10", "10", "20", "30"]));
    for r in &b.data {
        assert_eq!(r.len(), 3);
    }
}

#[test]
fn normalized_columns_agree() {
    let t1 = example(12, "4");
    let t2 = example(24, "8");
    let t3 = example(48, "16");
    let mut b = Bundle::init(&t1).unwrap();
    b.assign_to_column_from_csv("x/one.asc", &t1).unwrap();
    b.assign_to_column_from_csv("x/two.asc", &t2).unwrap();
    b.assign_to_column_from_csv("x/three.asc", &t3).unwrap();
    let n = b.normalize().unwrap();
    assert_eq!(n.len(), 10);
    for (k, row) in n.iter().enumerate() {
        let expected = format!("{}", 3 * (k + 1));
        assert_eq!(row, &vec![expected.clone(), expected.clone(), expected]);
    }
    let text = b.normalized_table_text().unwrap();
    assert!(text.starts_with("Wave Length (nm),one,two,three\n1,3,3,3\n2,6,6,6\n"));
}

#[test]
fn normalized_values_are_exact_quotients() {
    let text = "1,3\n2,-1.5\n3,0\n\nExposure Time (sec): 0.4\n";
    let mut b = Bundle::init(text).unwrap();
    b.assign_to_column_from_csv("f.asc", text).unwrap();
    let n = b.normalize().unwrap();
    assert_eq!(n, vec![vec!["7.5".to_string()], vec!["-3.75".to_string()], vec!["0".to_string()]]);
}

#[test]
fn misaligned_file_leaves_bundle_unchanged() {
    let t1 = example(12, "4");
    let mut b = Bundle::init(&t1).unwrap();
    b.assign_to_column_from_csv("a.asc", &t1).unwrap();
    let before = b.clone();
    let short = measurement(&[1, 2, 3], &[4, 5, 6], "1");
    assert_eq!(b.assign_to_column_from_csv("b.asc", &short), Err(BundleError::Alignment));
    assert_eq!(b, before);
}

#[test]
fn metadata_report_keeps_reference_lines() {
    let t1 = example(12, "4");
    let mut b = Bundle::init(&t1).unwrap();
    let report = b.metadata_report_text();
    assert_eq!(report, "Date: 2020-01-01\nExposure Time(sec): 4\nGrating: 600\n");
    b.assign_to_column_from_csv("a.asc", &example(2, "9")).unwrap();
    assert_eq!(b.metadata_report_text(), report);
}

#[test]
fn exposure_line_without_colon_is_a_format_error() {
    let mut b = Bundle::init(&example(1, "1")).unwrap();
    let text = "1,1\n2,2\n\nExposure Time 4\n";
    let mut b2 = Bundle::init(text).unwrap();
    assert_eq!(b2.assign_to_column_from_csv("a.asc", text), Err(BundleError::Format));
    let missing = "1,1\n\nIntegration: 4\n";
    let mut b3 = Bundle::init(missing).unwrap();
    assert_eq!(
        b3.assign_to_column_from_csv("a.asc", missing),
        Err(BundleError::MetadataMissing)
    );
    let no_intensity = "1\n2\n3\n4\n5\n6\n7\n8\n9\n10\n\nExposure Time: 1\n";
    assert_eq!(
        b.assign_to_column_from_csv("a.asc", no_intensity),
        Err(BundleError::Format)
    );
    assert_eq!(b.data[0].len(), 0);
}

#[test]
fn empty_reference_is_a_format_error() {
    assert_eq!(Bundle::init("").unwrap_err(), BundleError::Format);
    assert_eq!(Bundle::init("  \n\n ").unwrap_err(), BundleError::Format);
}

#[test]
fn reference_axis_and_metadata() {
    let text = "\r\n 400,1\r\n401,2\r\n\r\nExposure Time: 2 s\r\n\r\nNote\r\n";
    let b = Bundle::init(text).unwrap();
    assert_eq!(b.wave_length, strings(&["400", "401"]));
    assert_eq!(b.info, strings(&["Exposure Time: 2 s", "Note"]));
    assert_eq!(b.data, vec![Vec::<String>::new(), Vec::new()]);
}

#[test]
fn exposure_time_is_trimmed_text_after_colon() {
    let text = "1,10\n\nExposure Time(sec):  2.5 \n";
    let mut b = Bundle::init(text).unwrap();
    b.assign_to_column_from_csv("/data/run/sample.v2.asc", text).unwrap();
    assert_eq!(b.exposure_time, strings(&["2.5"]));
    assert_eq!(b.filename, strings(&["sample.v2"]));
}

#[test]
fn path_without_file_name_is_a_format_error() {
    let text = "1,10\n\nExposure Time: 1\n";
    let mut b = Bundle::init(text).unwrap();
    assert_eq!(b.assign_to_column_from_csv("..", text), Err(BundleError::Format));
    assert_eq!(b.filename.len(), 0);
}

#[test]
fn raw_column_pads_missing_cells() {
    let text = "1,10\n2,20\n3,30\n\nExposure Time: 1\n";
    let mut b = Bundle::init(text).unwrap();
    b.append_raw_column("1,7\n2\n");
    assert_eq!(b.data, vec![strings(&["7"]), strings(&[""]), strings(&[""])]);
    assert_eq!(b.exposure_time.len(), 0);
    assert_eq!(b.filename.len(), 0);
    assert_eq!(b.normalize(), Err(BundleError::Alignment));
}

#[test]
fn bad_numbers_in_normalization() {
    let text = "1,abc\n\nExposure Time: 1\n";
    let mut b = Bundle::init(text).unwrap();
    b.assign_to_column_from_csv("a.asc", text).unwrap();
    assert_eq!(b.normalize(), Err(BundleError::NumericParse));
    assert_eq!(b.normalized_table_text(), Err(BundleError::NumericParse));
    let zero = "1,5\n\nExposure Time: 0.00\n";
    let mut z = Bundle::init(zero).unwrap();
    z.assign_to_column_from_csv("z.asc", zero).unwrap();
    assert_eq!(z.normalize(), Err(BundleError::DivideByZero));
}

#[test]
fn raw_table_with_no_columns() {
    let b = Bundle::init("5,1\n6,2\n").unwrap();
    assert_eq!(
        b.raw_table_text(),
        "Wave Length (nm),\nExposure Time (sec),\n5,\n6,\n"
    );
    assert_eq!(b.metadata_report_text(), "\n");
}
