use labrs::lsp_frame::{content_length_of, frame_header, header_end};

#[test]
fn the_header_names_the_length() {
    assert_eq!(frame_header(0), "Content-Length: 0\r\n\r\n");
    assert_eq!(frame_header(1234), "Content-Length: 1234\r\n\r\n");
}

#[test]
fn a_blank_line_ends_the_headers() {
    assert!(header_end("\r\n"));
    assert!(header_end("\n"));
    assert!(!header_end("Content-Length: 3\r\n"));
}

#[test]
fn content_length_is_read_in_any_case() {
    assert_eq!(content_length_of("Content-Length: 52\r\n", None), Some(52));
    assert_eq!(content_length_of("content-LENGTH:+7\n", None), Some(7));
    assert_eq!(content_length_of("Content-Type: x\r\n", Some(3)), Some(3));
    assert_eq!(content_length_of("no colon\r\n", Some(3)), Some(3));
    assert_eq!(content_length_of("Content-Length: abc\r\n", Some(3)), None);
    assert_eq!(content_length_of("Content-Length: 99999999999999999999999\r\n", None), None);
    assert_eq!(content_length_of("Content-Length: \r\n", Some(1)), None);
}
