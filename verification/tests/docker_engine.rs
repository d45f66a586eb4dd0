use mepul::docker_engine::{
    chunk_frame, chunked_body_end, chunked_step, header_declares_chunked, is_header_end, parse_chunk_size,
    parse_response_head, progress_line_action, split_complete_lines, status_is_success,
    ChunkedInput, ChunkedRead, ProgressAction, ProgressError,
};

#[test]
fn status_line_success_is_a_2xx_code() {
    assert!(status_is_success("HTTP/1.1 200 OK\r\n"));
    assert!(status_is_success("HTTP/1.1   204"));
    assert!(!status_is_success("HTTP/1.1 300 Multiple"));
    assert!(!status_is_success("HTTP/1.1 500 Internal Server Error\r\n"));
    assert!(!status_is_success("HTTP/1.1"));
    assert!(!status_is_success("HTTP/1.1 abc"));
    assert!(!status_is_success("HTTP/1.1 70000"));
    assert!(status_is_success("HTTP/1.1 +200"));
}

#[test]
fn chunked_header_is_recognised_in_any_case() {
    assert!(header_declares_chunked("Transfer-Encoding: chunked\r\n"));
    assert!(header_declares_chunked("TRANSFER-ENCODING: gzip, CHUNKED\r\n"));
    assert!(!header_declares_chunked("Content-Type: chunked\r\n"));
    assert!(is_header_end("\r\n"));
    assert!(is_header_end(""));
    assert!(!is_header_end("Server: x\r\n"));
}

#[test]
fn response_head_collects_status_and_coding() {
    let head = parse_response_head(
        "HTTP/1.1 200 OK\r\n",
        &vec!["Content-Type: application/json\r\n".to_string(), "Transfer-Encoding: chunked\r\n".to_string()],
    );
    assert_eq!(head.status_line, "HTTP/1.1 200 OK");
    assert!(head.status_success);
    assert!(head.chunked);
}

#[test]
fn chunk_size_lines_are_hex() {
    assert_eq!(parse_chunk_size("1a\r\n").unwrap(), 26);
    assert_eq!(parse_chunk_size("FF;name=value\r\n").unwrap(), 255);
    assert_eq!(parse_chunk_size("0\r\n").unwrap(), 0);
    let e = parse_chunk_size("zz\r\n").unwrap_err();
    assert_eq!(e.size_text, "zz");
    assert!(parse_chunk_size("\r\n").is_err());
    assert!(parse_chunk_size("1a ;x\r\n").is_err());
}

#[test]
fn chunk_frame_encodes_size_and_data() {
    assert_eq!(chunk_frame(b"hello"), b"5\r\nhello\r\n".to_vec());
    assert_eq!(chunk_frame(&[7u8; 26])[..4], *b"1a\r\n");
    assert!(chunk_frame(b"").is_empty());
    assert_eq!(chunked_body_end(), b"0\r\n\r\n".to_vec());
}

#[test]
fn chunk_frame_size_line_reads_back() {
    let data = vec![1u8; 300];
    let frame = chunk_frame(&data);
    let line_end = frame.iter().position(|&b| b == b'\n').unwrap();
    let line = std::str::from_utf8(&frame[..=line_end]).unwrap();
    assert_eq!(parse_chunk_size(line).unwrap(), 300);
}

#[test]
fn complete_lines_are_split_off() {
    let mut buffer = b"{\"a\":1}\n{\"b\":2}\npartial".to_vec();
    let lines = split_complete_lines(&mut buffer);
    assert_eq!(lines, vec![b"{\"a\":1}\n".to_vec(), b"{\"b\":2}\n".to_vec()]);
    assert_eq!(buffer, b"partial".to_vec());
}

#[test]
fn progress_lines_are_classified() {
    assert!(matches!(progress_line_action(b"  \n"), Ok(ProgressAction::Nothing)));
    assert!(matches!(progress_line_action(b"{\"stream\":\"Loaded image\\n\"}\n"), Ok(ProgressAction::Print(s)) if s == "Loaded image\n"));
    assert!(matches!(progress_line_action(b"{\"status\":\"Loading\"}"), Ok(ProgressAction::PrintLine(s)) if s == "Loading"));
    assert!(matches!(progress_line_action(b"{\"id\":1}"), Ok(ProgressAction::PrintLine(s)) if s == "{\"id\":1}"));
    assert!(matches!(progress_line_action(b"{\"error\":\"bad\"}"), Err(ProgressError::Docker(s)) if s == "bad"));
    assert!(matches!(progress_line_action(b"not json"), Err(ProgressError::Decode(s)) if s == "not json"));
}

#[test]
fn chunked_reading_follows_size_data_terminator_until_the_empty_chunk() {
    let next = chunked_step(ChunkedRead::SizeLine, ChunkedInput::SizeLine("1a;ext=1\r\n".to_string()));
    assert_eq!(next.unwrap(), ChunkedRead::Data(26));
    assert_eq!(chunked_step(ChunkedRead::Data(26), ChunkedInput::Data).unwrap(), ChunkedRead::Terminator);
    assert_eq!(
        chunked_step(ChunkedRead::Terminator, ChunkedInput::Terminator).unwrap(),
        ChunkedRead::SizeLine
    );
    let end = chunked_step(ChunkedRead::SizeLine, ChunkedInput::SizeLine("0\r\n".to_string()));
    assert_eq!(end.unwrap(), ChunkedRead::Done);
}

#[test]
fn chunked_reading_refuses_a_size_that_is_not_hex() {
    let err = chunked_step(ChunkedRead::SizeLine, ChunkedInput::SizeLine(" zz ; x\r\n".to_string()))
        .unwrap_err();
    assert_eq!(err.size_text, "zz ");
}

#[test]
fn chunked_reading_stays_put_on_an_input_out_of_turn() {
    assert_eq!(chunked_step(ChunkedRead::Done, ChunkedInput::Data).unwrap(), ChunkedRead::Done);
    assert_eq!(
        chunked_step(ChunkedRead::Data(3), ChunkedInput::SizeLine("5".to_string())).unwrap(),
        ChunkedRead::Data(3)
    );
}
