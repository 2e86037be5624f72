use genchat::decoder::SSEFrameDecoder;
use genchat::errors::StreamError;

#[test]
fn one_complete_frame_yields_its_payload() {
    let mut d = SSEFrameDecoder::new();
    let out = d.push_chunk(b"data: {\"x\":1}\n\n").unwrap();
    assert_eq!(out, vec!["{\"x\":1}".to_string()]);
}

#[test]
fn payload_split_across_chunks_is_buffered_and_parsed() {
    let mut d = SSEFrameDecoder::new();
    let first = d.push_chunk(b"data: {\"candidates\"").unwrap();
    assert!(first.is_empty());
    let second = d.push_chunk(b": []}\n").unwrap();
    assert_eq!(second, vec!["{\"candidates\": []}".to_string()]);
}

#[test]
fn non_data_lines_are_ignored() {
    let mut d = SSEFrameDecoder::new();
    let out = d.push_chunk(b": keep-alive\n\nevent: x\ndata: payload\n").unwrap();
    assert_eq!(out, vec!["payload".to_string()]);
}

#[test]
fn several_frames_in_one_chunk_come_out_in_order() {
    let mut d = SSEFrameDecoder::new();
    let out = d.push_chunk(b"data: one\n\ndata: two\n\ndata: three\n").unwrap();
    assert_eq!(out, vec!["one".to_string(), "two".to_string(), "three".to_string()]);
}

#[test]
fn invalid_utf8_payload_is_an_encoding_error() {
    let mut d = SSEFrameDecoder::new();
    let mut bytes = b"data: ".to_vec();
    bytes.push(0xff);
    bytes.push(b'\n');
    match d.push_chunk(&bytes) {
        Err(StreamError::Encoding) => {}
        _ => panic!("expected an encoding error"),
    }
}

#[test]
fn frames_before_a_bad_frame_are_already_delivered() {
    // a failure on the third frame leaves the first two already handed out
    let mut d = SSEFrameDecoder::new();
    let ok = d.push_chunk(b"data: one\ndata: two\n").unwrap();
    assert_eq!(ok.len(), 2);
    let mut bad = b"data: ".to_vec();
    bad.push(0xfe);
    bad.extend_from_slice(b"\ndata: four\ndata: five\n");
    assert!(d.push_chunk(&bad).is_err());
}

#[test]
fn multibyte_text_survives_decoding() {
    let mut d = SSEFrameDecoder::new();
    let out = d.push_chunk("data: h\u{e9}llo \u{4e16}\u{754c}\n".as_bytes()).unwrap();
    assert_eq!(out, vec!["h\u{e9}llo \u{4e16}\u{754c}".to_string()]);
}

#[test]
fn incomplete_line_stays_buffered_without_output() {
    let mut d = SSEFrameDecoder::new();
    let out = d.push_chunk(b"data: not finished yet").unwrap();
    assert!(out.is_empty());
    let rest = d.push_chunk(b" done\n").unwrap();
    assert_eq!(rest, vec!["not finished yet done".to_string()]);
}

#[test]
fn invalid_bytes_in_a_non_data_line_are_fatal_too() {
    // any completed line that is not valid UTF-8 aborts the stream,
    // data prefix or not
    let mut d = SSEFrameDecoder::new();
    let bad = vec![0xff_u8, b'\n'];
    match d.push_chunk(&bad) {
        Err(StreamError::Encoding) => {}
        _ => panic!("expected an encoding error"),
    }
}

#[test]
fn invalid_comment_line_aborts_even_with_a_good_frame() {
    let mut d = SSEFrameDecoder::new();
    let mut bytes = vec![b':', 0xc3_u8, b'\n'];
    bytes.extend_from_slice(b"data: fine\n");
    assert!(d.push_chunk(&bytes).is_err());
}
