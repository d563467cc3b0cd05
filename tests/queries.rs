use phone_stats::measure::{Fraction, Quantity};
use phone_stats::record::Cell;
use phone_stats::stats::{
    count_single_sensor_phones, manufacturer_with_highest_avg_weight, mean_body_weight,
    median_body_weight, mismatched_announce_release_years, most_common_display_size,
    most_common_manufacturer, year_with_most_launches_after,
};

const UNIT: u64 = 1_000_000_000;

fn weighing(grams: u64) -> Cell {
    let mut c = Cell::new();
    c.body_weight = Some(Quantity { nanos: grams * UNIT });
    c
}

fn made_by(oem: &str) -> Cell {
    let mut c = Cell::new();
    c.oem = Some(oem.to_string());
    c
}

#[test]
fn median_of_two_three_and_none() {
    let two = vec![weighing(100), weighing(200)];
    assert_eq!(median_body_weight(&two), Some(Fraction { num: 300 * UNIT as u128, den: 2 }));
    let three = vec![weighing(300), weighing(100), weighing(200)];
    assert_eq!(median_body_weight(&three), Some(Fraction { num: 200 * UNIT as u128, den: 1 }));
    assert_eq!(median_body_weight(&[]), None);
    assert_eq!(median_body_weight(&[Cell::new()]), None);
}

#[test]
fn mean_of_three() {
    let cells = vec![weighing(120), Cell::new(), weighing(130), weighing(140)];
    assert_eq!(mean_body_weight(&cells), Some(Fraction { num: 390 * UNIT as u128, den: 3 }));
    assert_eq!(mean_body_weight(&[]), None);
}

#[test]
fn single_sensor_count() {
    let mut a = Cell::new();
    a.features_sensors = Some("Accelerometer".to_string());
    let mut b = Cell::new();
    b.features_sensors = Some("Accelerometer, Gyro".to_string());
    let cells = vec![Cell::new(), a, b];
    assert_eq!(count_single_sensor_phones(&cells), 1);
    assert_eq!(count_single_sensor_phones(&[]), 0);
}

#[test]
fn most_common_manufacturer_of_five() {
    let cells: Vec<Cell> = ["A", "B", "A", "A", "B"].iter().map(|m| made_by(m)).collect();
    assert_eq!(most_common_manufacturer(&cells), Some("A".to_string()));
    assert_eq!(most_common_manufacturer(&[]), None);
    assert_eq!(most_common_manufacturer(&[Cell::new()]), None);
}

#[test]
fn mismatched_years() {
    let mut x = made_by("X");
    x.model = Some("Y".to_string());
    x.launch_announced = Some(2019);
    x.launch_status = Some("2020".to_string());
    let mut same = made_by("S");
    same.model = Some("T".to_string());
    same.launch_announced = Some(2019);
    same.launch_status = Some("2019".to_string());
    let mut gone = made_by("D");
    gone.model = Some("E".to_string());
    gone.launch_announced = Some(2019);
    gone.launch_status = Some("Discontinued".to_string());
    let mut nameless = Cell::new();
    nameless.launch_announced = Some(2019);
    nameless.launch_status = Some("2021".to_string());
    let cells = vec![x, same, gone, nameless];
    assert_eq!(
        mismatched_announce_release_years(&cells),
        vec![("X".to_string(), "Y".to_string()), ("D".to_string(), "E".to_string())]
    );
    assert!(mismatched_announce_release_years(&[]).is_empty());
}

#[test]
fn year_with_most_launches() {
    let years = [1998, 1998, 1998, 2005, 2007, 2005, 1999];
    let cells: Vec<Cell> = years
        .iter()
        .map(|y| {
            let mut c = Cell::new();
            c.launch_announced = Some(*y);
            c
        })
        .collect();
    assert_eq!(year_with_most_launches_after(&cells, 1999), Some(2005));
    assert_eq!(year_with_most_launches_after(&cells, 1990), Some(1998));
    assert_eq!(year_with_most_launches_after(&cells, 2007), None);
    assert_eq!(year_with_most_launches_after(&[], 1999), None);
}

#[test]
fn highest_average_weight() {
    let mut cells = Vec::new();
    for (m, g) in [("A", 100), ("B", 150), ("A", 300), ("C", 190), ("B", 160)] {
        let mut c = weighing(g);
        c.oem = Some(m.to_string());
        cells.push(c);
    }
    cells.push(made_by("Z"));
    assert_eq!(manufacturer_with_highest_avg_weight(&cells), Some("A".to_string()));
    assert_eq!(manufacturer_with_highest_avg_weight(&[weighing(10), made_by("Q")]), None);
}

#[test]
fn most_common_size() {
    let sizes = [6_100_000_000u64, 5_500_000_000, 6_100_000_000];
    let mut cells: Vec<Cell> = sizes
        .iter()
        .map(|n| {
            let mut c = Cell::new();
            c.display_size = Some(Quantity { nanos: *n });
            c
        })
        .collect();
    cells.push(Cell::new());
    assert_eq!(most_common_display_size(&cells), Some(Quantity { nanos: 6_100_000_000 }));
    assert_eq!(most_common_display_size(&[Cell::new()]), None);
}
