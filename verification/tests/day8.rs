use advent::day8::line_to_values;

#[test]
fn test_() {
}

#[test]
fn day8_line_to_values_reads_digits() {
    assert_eq!(line_to_values("25512".to_string()), vec![2, 5, 5, 1, 2]);
}
