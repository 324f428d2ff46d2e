use limousine_core::{parse_entry_line, parse_i32};

#[test]
fn entry_lines_parse_as_key_and_value() {
    assert_eq!(parse_entry_line(b"12,-34"), Some((12, -34)));
    assert_eq!(parse_entry_line(b"+3,4,9"), Some((3, 4)));
    assert_eq!(parse_entry_line(b"-2147483648,2147483647"), Some((i32::MIN, i32::MAX)));
}

#[test]
fn malformed_entry_lines_are_refused() {
    assert_eq!(parse_entry_line(b"5"), None);
    assert_eq!(parse_entry_line(b"a,1"), None);
    assert_eq!(parse_entry_line(b",1"), None);
    assert_eq!(parse_entry_line(b"1,"), None);
    assert_eq!(parse_entry_line(b"2147483648,0"), None);
    assert_eq!(parse_entry_line(b"1,-"), None);
}

#[test]
fn i32_parsing_agrees_with_std() {
    for text in ["0", "-0", "+7", "-2147483649", "99999999999", "12a", "", "-", "007"] {
        assert_eq!(parse_i32(text.as_bytes(), 0, text.len()), text.parse::<i32>().ok());
    }
}
