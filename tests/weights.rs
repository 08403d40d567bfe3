use fuel_can_packer::weights::{read_gross_for_size, WeightError};

#[test]
fn reads_space_separated_weights() {
    assert_eq!(read_gross_for_size("141 152\t300").unwrap(), vec![141, 152, 300]);
    assert_eq!(read_gross_for_size("  7  ").unwrap(), vec![7]);
}

#[test]
fn blank_line_gives_no_weights() {
    assert_eq!(read_gross_for_size("").unwrap(), Vec::<i32>::new());
    assert_eq!(read_gross_for_size("   \t ").unwrap(), Vec::<i32>::new());
}

#[test]
fn signs_and_limits() {
    assert_eq!(read_gross_for_size("+5 -3 0").unwrap(), vec![5, -3, 0]);
    assert_eq!(read_gross_for_size("2147483647 -2147483648").unwrap(), vec![i32::MAX, i32::MIN]);
}

#[test]
fn rejects_bad_words() {
    assert_eq!(read_gross_for_size("12 1x3 4"), Err(WeightError::NotAnInteger { start: 3, end: 6 }));
    assert_eq!(read_gross_for_size("2147483648"), Err(WeightError::NotAnInteger { start: 0, end: 10 }));
    assert_eq!(read_gross_for_size("5 -"), Err(WeightError::NotAnInteger { start: 2, end: 3 }));
    assert_eq!(read_gross_for_size("99999999999999999999"), Err(WeightError::NotAnInteger { start: 0, end: 20 }));
}

#[test]
fn unicode_whitespace_separates_words() {
    assert_eq!(read_gross_for_size("1\u{a0}2").unwrap(), vec![1, 2]);
    assert_eq!(read_gross_for_size("3\u{3000}4\u{2003} 5\u{85}").unwrap(), vec![3, 4, 5]);
    assert_eq!(read_gross_for_size("\u{2028}\u{1680}").unwrap(), Vec::<i32>::new());
    assert_eq!(read_gross_for_size("\u{a0}1x 2"), Err(WeightError::NotAnInteger { start: 1, end: 3 }));
    assert_eq!(read_gross_for_size("7\u{200b}8"), Err(WeightError::NotAnInteger { start: 0, end: 3 }));
}
