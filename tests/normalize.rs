use phone_stats::measure::{parse_quantity, Quantity};
use phone_stats::record::{quantity_from_match, status_from_match, year_from_match, Cell};
use phone_stats::text::{blank, check_empty, is_blank_trimmed, parse_u32, single_token};

fn row(fields: &[&str]) -> Vec<String> {
    fields.iter().map(|f| f.to_string()).collect()
}

fn sample_row() -> Vec<String> {
    row(&[
        "Samsung",
        "Galaxy S10",
        "2019, February 20",
        "Available. Released 2020, March",
        "149.9 x 70.4 x 7.8 mm",
        "157 g (5.54 oz)",
        "Single SIM",
        "Dynamic AMOLED",
        "6.1 inches, 93.2 cm2",
        "1440 x 3040 pixels",
        "Fingerprint, accelerometer, gyro",
        "Android 9.0",
    ])
}

#[test]
fn blank_texts_are_absent() {
    assert_eq!(check_empty(""), None);
    assert_eq!(check_empty("   "), None);
    assert_eq!(check_empty("-"), None);
    assert_eq!(check_empty("  -  "), None);
    assert_eq!(check_empty(" x "), Some(" x ".to_string()));
    assert_eq!(check_empty("--"), Some("--".to_string()));
    assert!(blank("\t-\n"));
    assert!(!blank("a"));
    assert!(is_blank_trimmed("-"));
    assert!(!is_blank_trimmed(" -"));
}

#[test]
fn u32_texts() {
    assert_eq!(parse_u32("2019"), Some(2019));
    assert_eq!(parse_u32("+7"), Some(7));
    assert_eq!(parse_u32("+"), None);
    assert_eq!(parse_u32(""), None);
    assert_eq!(parse_u32("-5"), None);
    assert_eq!(parse_u32("4294967295"), Some(4294967295));
    assert_eq!(parse_u32("4294967296"), None);
    assert_eq!(parse_u32("Discontinued"), None);
}

#[test]
fn numeric_literals() {
    assert_eq!(parse_quantity("157"), Some(Quantity { nanos: 157_000_000_000 }));
    assert_eq!(parse_quantity("6.1"), Some(Quantity { nanos: 6_100_000_000 }));
    assert_eq!(parse_quantity("0.1234567891"), Some(Quantity { nanos: 123_456_789 }));
    assert_eq!(parse_quantity("6."), None);
    assert_eq!(parse_quantity(".5"), None);
    assert_eq!(parse_quantity(""), None);
    assert_eq!(parse_quantity("1.2.3"), None);
    assert_eq!(parse_quantity("99999999999"), None);
}

#[test]
fn single_tokens() {
    assert!(single_token("Accelerometer"));
    assert!(single_token(""));
    assert!(!single_token("Accelerometer, Gyro"));
    assert!(!single_token(","));
}

#[test]
fn match_results() {
    assert_eq!(year_from_match(Some("2019".to_string())), Some(2019));
    assert_eq!(year_from_match(None), None);
    assert_eq!(status_from_match("Released 2020".to_string(), Some("2020".to_string())), "2020");
    assert_eq!(status_from_match("Discontinued".to_string(), None), "Discontinued");
    assert_eq!(
        quantity_from_match(Some("5.5".to_string())),
        Some(Quantity { nanos: 5_500_000_000 })
    );
    assert_eq!(quantity_from_match(None), None);
}

#[test]
fn row_is_normalised() {
    let c = Cell::from_row(&sample_row());
    assert_eq!(c.oem.as_deref(), Some("Samsung"));
    assert_eq!(c.model.as_deref(), Some("Galaxy S10"));
    assert_eq!(c.launch_announced, Some(2019));
    assert_eq!(c.launch_status.as_deref(), Some("2020"));
    assert_eq!(c.body_dimensions.as_deref(), Some("149.9 x 70.4 x 7.8 mm"));
    assert_eq!(c.body_weight, Some(Quantity { nanos: 157_000_000_000 }));
    assert_eq!(c.body_sim.as_deref(), Some("Single SIM"));
    assert_eq!(c.display_type.as_deref(), Some("Dynamic AMOLED"));
    assert_eq!(c.display_size, Some(Quantity { nanos: 6_100_000_000 }));
    assert_eq!(c.display_resolution.as_deref(), Some("1440 x 3040 pixels"));
    assert_eq!(c.features_sensors.as_deref(), Some("Fingerprint, accelerometer, gyro"));
    assert_eq!(c.platform_os.as_deref(), Some("Android 9.0"));
}

#[test]
fn row_with_blanks_and_no_numbers() {
    let c = Cell::from_row(&row(&[
        "", "", "Not announced yet", "Discontinued", "-", "-", " ", "-", "no size", "", "V1", "-",
    ]));
    assert_eq!(c.oem.as_deref(), Some(""));
    assert_eq!(c.model.as_deref(), Some(""));
    assert_eq!(c.launch_announced, None);
    assert_eq!(c.launch_status.as_deref(), Some("Discontinued"));
    assert_eq!(c.body_dimensions, None);
    assert_eq!(c.body_weight, None);
    assert_eq!(c.body_sim, None);
    assert_eq!(c.display_type, None);
    assert_eq!(c.display_size, None);
    assert_eq!(c.display_resolution, None);
    assert_eq!(c.features_sensors.as_deref(), Some("V1"));
    assert_eq!(c.platform_os, None);
}

#[test]
fn year_needs_a_standalone_run_of_four_digits() {
    let mut r = sample_row();
    r[2] = "Q12019".to_string();
    r[3] = "Released 20201".to_string();
    let c = Cell::from_row(&r);
    assert_eq!(c.launch_announced, None);
    assert_eq!(c.launch_status.as_deref(), Some("Released 20201"));
}

#[test]
fn short_row_reads_missing_columns_as_empty() {
    let c = Cell::from_row(&row(&["Nokia", "3310"]));
    assert_eq!(c.oem.as_deref(), Some("Nokia"));
    assert_eq!(c.launch_announced, None);
    assert_eq!(c.launch_status.as_deref(), Some(""));
    assert_eq!(c.body_weight, None);
    assert_eq!(c.platform_os, None);
}

#[test]
fn ingesting_twice_gives_the_same_records() {
    let rows = vec![sample_row(), row(&["A", "B", "2001", "2003", "", "80.5 g"])];
    let a = Cell::from_rows(&rows);
    let b = Cell::from_rows(&rows);
    assert_eq!(a.len(), 2);
    assert_eq!(format!("{:?}", a), format!("{:?}", b));
    assert_eq!(a[1].body_weight, Some(Quantity { nanos: 80_500_000_000 }));
}
