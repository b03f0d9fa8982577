use labrs::ident::{ident_used_in, is_ident_byte};
use labrs::parse::byte_offset;

#[test]
fn whole_words_only() {
    assert!(ident_used_in("let x = helper();", "helper"));
    assert!(!ident_used_in("let x = helper2();", "helper"));
    assert!(!ident_used_in("let x = my_helper();", "helper"));
    assert!(ident_used_in("helper", "helper"));
    assert!(!ident_used_in("anything", ""));
    assert!(ident_used_in("é helper é", "helper"));
    assert!(is_ident_byte(b'_'));
    assert!(!is_ident_byte(b'-'));
}

#[test]
fn byte_offsets_of_lines_and_columns() {
    let s = "ab\ncde\nf";
    assert_eq!(byte_offset(s, 1, 1), Some(0));
    assert_eq!(byte_offset(s, 2, 2), Some(4));
    assert_eq!(byte_offset(s, 2, 0), Some(3));
    assert_eq!(byte_offset(s, 2, 99), Some(7));
    assert_eq!(byte_offset(s, 3, 1), Some(7));
    assert_eq!(byte_offset(s, 4, 1), None);
    assert_eq!(byte_offset(s, 0, 1), None);
    assert_eq!(byte_offset("é\nx", 2, 1), Some(3));
}
