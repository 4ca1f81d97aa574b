use sheet_engine::display::generate_column_label;

#[test]
fn column_labels() {
    assert_eq!(generate_column_label(0), "A");
    assert_eq!(generate_column_label(25), "Z");
    assert_eq!(generate_column_label(26), "AA");
    assert_eq!(generate_column_label(27), "AB");
    assert_eq!(generate_column_label(701), "ZZ");
    assert_eq!(generate_column_label(702), "AAA");
    assert_eq!(generate_column_label(18277), "ZZZ");
}
