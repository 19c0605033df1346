use sort_steppers::data::create_data;
use sort_steppers::data::MIN_HEIGHT;

#[test]
fn create_data_has_one_entry_per_column() {
    let data = create_data(20, 7);
    assert_eq!(data.len(), 7);
}

#[test]
fn create_data_heights_fit_the_screen() {
    let data = create_data(10, 50);
    assert!(data.iter().all(|&h| (MIN_HEIGHT..10).contains(&h)));
}

#[test]
fn create_data_narrowest_range_pins_every_height() {
    // With rows one above the minimum, [MIN_HEIGHT, rows) holds one value only.
    let data = create_data(MIN_HEIGHT + 1, 12);
    assert!(data.iter().all(|&h| h == MIN_HEIGHT));
}

#[test]
fn create_data_actually_samples_the_range() {
    // 64 draws from a ~100-value range virtually never coincide, so a
    // generator pinned to one value would fail here.
    let data = create_data(100, 64);
    assert!(data.iter().any(|&h| h != data[0]));
}

#[test]
fn create_data_zero_columns() {
    let data = create_data(8, 0);
    assert!(data.is_empty());
}
