use lsp_bridge::framing::frame_message;
use lsp_bridge::reader::relay_output;
use lsp_bridge::reader::FramedReader;
use lsp_bridge::reader::OutputEvent;

#[test]
fn one_framed_message_yields_one_message_event() {
    let stream: Vec<u8> = b"Content-Length: 5\r\n\r\nhello".to_vec();
    let events = relay_output(&stream);
    assert_eq!(events, vec![OutputEvent::Message("hello".to_string())]);
}

#[test]
fn unframed_line_yields_one_log_event() {
    let stream: Vec<u8> = b"no-such-header\n".to_vec();
    let events = relay_output(&stream);
    assert_eq!(events, vec![OutputEvent::Log(b"no-such-header".to_vec())]);
}

#[test]
fn short_body_yields_no_event() {
    // the stream closes after three of the five declared body bytes
    let stream: Vec<u8> = b"Content-Length: 5\r\n\r\nhel".to_vec();
    let events = relay_output(&stream);
    assert_eq!(events, Vec::new());
}

#[test]
fn invalid_utf8_body_is_dropped_silently() {
    let mut stream: Vec<u8> = b"Content-Length: 2\r\n\r\n".to_vec();
    stream.push(0xff);
    stream.push(0xfe);
    let events = relay_output(&stream);
    assert_eq!(events, Vec::new());
}

#[test]
fn frame_then_parse_round_trips() {
    let body: Vec<u8> = "{\"jsonrpc\":\"2.0\"}".as_bytes().to_vec();
    let stream = frame_message(&body);
    let events = relay_output(&stream);
    assert_eq!(events, vec![OutputEvent::Message("{\"jsonrpc\":\"2.0\"}".to_string())]);
}

#[test]
fn zero_length_frame_yields_empty_message() {
    let stream: Vec<u8> = b"Content-Length: 0\r\n\r\n".to_vec();
    let events = relay_output(&stream);
    assert_eq!(events, vec![OutputEvent::Message(String::new())]);
}

#[test]
fn body_bytes_are_consumed_exactly_not_as_lines() {
    // the body contains line feeds and a header-looking prefix; all of it
    // belongs to the message because exactly eight bytes are consumed
    let stream: Vec<u8> = b"Content-Length: 8\r\n\r\nab\ncd\nef".to_vec();
    let events = relay_output(&stream);
    assert_eq!(events, vec![OutputEvent::Message("ab\ncd\nef".to_string())]);
}

#[test]
fn stream_order_is_preserved_across_events() {
    let stream: Vec<u8> =
        b"startup noise\nContent-Length: 3\r\n\r\nabcmore noise\nContent-Length: 2\r\n\r\nok"
            .to_vec();
    let events = relay_output(&stream);
    assert_eq!(
        events,
        vec![
            OutputEvent::Log(b"startup noise".to_vec()),
            OutputEvent::Message("abc".to_string()),
            OutputEvent::Log(b"more noise".to_vec()),
            OutputEvent::Message("ok".to_string()),
        ]
    );
}

#[test]
fn blank_lines_are_skipped() {
    let stream: Vec<u8> = b"\r\n\n   \nContent-Length: 2\r\n\r\nhi".to_vec();
    let events = relay_output(&stream);
    assert_eq!(events, vec![OutputEvent::Message("hi".to_string())]);
}

#[test]
fn exactly_one_separator_line_is_discarded() {
    // whatever stands on the line after the length header is thrown away,
    // even when it looks like another header
    let stream: Vec<u8> = b"Content-Length: 5\r\nContent-Type: x\r\nhello".to_vec();
    let events = relay_output(&stream);
    assert_eq!(events, vec![OutputEvent::Message("hello".to_string())]);
}

#[test]
fn reader_steps_through_one_frame() {
    let mut reader = FramedReader::new();
    assert_eq!(reader.body_needed(), None);
    assert_eq!(reader.feed_line(&b"Content-Length: 3\r\n".to_vec()), None);
    assert_eq!(reader.body_needed(), None);
    assert_eq!(reader.feed_line(&b"\r\n".to_vec()), None);
    assert_eq!(reader.body_needed(), Some(3));
    assert_eq!(reader.feed_body(b"abc".to_vec()), Some("abc".to_string()));
    assert_eq!(reader.body_needed(), None);
}

#[test]
fn reader_recovers_after_short_body() {
    let mut reader = FramedReader::new();
    assert_eq!(reader.feed_line(&b"Content-Length: 9\r\n".to_vec()), None);
    assert_eq!(reader.feed_line(&b"\r\n".to_vec()), None);
    assert_eq!(reader.body_needed(), Some(9));
    reader.body_short();
    assert_eq!(reader.body_needed(), None);
    assert_eq!(reader.feed_line(&b"late line\n".to_vec()), Some(b"late line".to_vec()));
}

#[test]
fn raw_log_line_loses_only_its_terminator() {
    let mut reader = FramedReader::new();
    let log = reader.feed_line(&b"warning: things\r\n".to_vec());
    assert_eq!(log, Some(b"warning: things".to_vec()));
    assert_eq!(reader.body_needed(), None);
    // trailing blanks inside the line are part of the published content
    let log = reader.feed_line(&b"x \n".to_vec());
    assert_eq!(log, Some(b"x ".to_vec()));
    let log = reader.feed_line(&b"tab\t\r\n".to_vec());
    assert_eq!(log, Some(b"tab\t".to_vec()));
}

#[test]
fn log_event_keeps_trailing_blanks() {
    let stream: Vec<u8> = b"x \n".to_vec();
    let events = relay_output(&stream);
    assert_eq!(events, vec![OutputEvent::Log(b"x ".to_vec())]);
}

#[test]
fn stream_closing_before_the_separator_drops_the_frame() {
    // the header line arrives, but the stream ends before the separator
    // line: no message is published, not even for a declared length of zero
    assert_eq!(relay_output(&b"Content-Length: 0\r\n".to_vec()), Vec::new());
    assert_eq!(relay_output(&b"Content-Length: 5\r\n".to_vec()), Vec::new());
    assert_eq!(relay_output(&b"Content-Length: 5".to_vec()), Vec::new());
}
