use svgy::numeric::{Unit, list_items, split_length, unit_of};

fn pair(a: &str, b: &str) -> (String, String) {
    (a.to_string(), b.to_string())
}

#[test]
fn a_length_splits_into_its_number_and_its_unit() {
    assert_eq!(split_length("  12.5px "), pair("12.5", "px"));
    assert_eq!(split_length("50%"), pair("50", "%"));
    assert_eq!(split_length("-1e-3 em"), pair("-1e-3", "em"));
    assert_eq!(split_length("0.75"), pair("0.75", ""));
}

#[test]
fn a_length_without_a_number_has_an_empty_number() {
    assert_eq!(split_length("auto"), pair("", "auto"));
    assert_eq!(split_length("   "), pair("", ""));
}

#[test]
fn only_plain_numbers_and_px_are_user_units() {
    assert_eq!(unit_of(""), Unit::Plain);
    assert_eq!(unit_of("px"), Unit::Px);
    assert_eq!(unit_of("%"), Unit::Other);
    assert_eq!(unit_of("PX"), Unit::Other);
    assert_eq!(unit_of("pxx"), Unit::Other);
}

#[test]
fn a_list_splits_at_commas_and_white_space() {
    assert_eq!(list_items("0, 0 100\t100\n"), vec!["0", "0", "100", "100"]);
    assert_eq!(list_items("1,,2"), vec!["1", "2"]);
    assert!(list_items(" ,\r, ").is_empty());
    assert!(list_items("").is_empty());
}
