use codecompass::source_text::{contains_byte, line_to_offset, offset_to_line_col};

#[test]
fn offsets_become_lines_and_columns() {
    assert_eq!(offset_to_line_col(b"ab\ncd", 4), (2, 2));
    assert_eq!(offset_to_line_col(b"ab\ncd", 0), (1, 1));
    assert_eq!(offset_to_line_col(b"ab\ncd", 99), (2, 3));
    // multi-byte characters count once
    assert_eq!(offset_to_line_col("é=1".as_bytes(), 2), (1, 2));
}

#[test]
fn lines_become_offsets() {
    assert_eq!(line_to_offset(b"ab\ncd", 1), Some(0));
    assert_eq!(line_to_offset(b"ab\ncd", 2), Some(3));
    assert_eq!(line_to_offset(b"ab\ncd", 3), None);
    assert_eq!(line_to_offset(b"ab\n", 2), None);
    assert_eq!(line_to_offset(b"ab", 0), None);
}

#[test]
fn byte_search_in_range() {
    assert!(contains_byte(b"a;b", 0, 3, b';'));
    assert!(!contains_byte(b"a;b", 2, 3, b';'));
    assert!(!contains_byte(b"", 0, 0, b';'));
}

#[test]
fn line_start_round_trip() {
    let src = "x = 1;\n  é + y;\n".as_bytes();
    let offset = 12; // the '+' on line 2
    let (line, _col) = offset_to_line_col(src, offset);
    assert_eq!(line, 2);
    let start = line_to_offset(src, line as usize).unwrap();
    assert!(start <= offset);
    assert_eq!(start, 7);
    assert_eq!(offset_to_line_col(src, start), (2, 1));
}
