use lsp_bridge::channel::diagnostic_event;
use lsp_bridge::channel::plan_send;
use lsp_bridge::channel::relay_diagnostics;
use lsp_bridge::channel::BridgeError;

#[test]
fn send_without_running_process_fails_with_not_running() {
    let r = plan_send(false, &b"x".to_vec());
    assert_eq!(r, Err(BridgeError::NotRunning));
}

#[test]
fn sequential_sends_are_each_length_prefixed() {
    let first = plan_send(true, &b"a".to_vec());
    let second = plan_send(true, &b"bb".to_vec());
    assert_eq!(first, Ok(b"Content-Length: 1\r\n\r\na".to_vec()));
    assert_eq!(second, Ok(b"Content-Length: 2\r\n\r\nbb".to_vec()));
}

#[test]
fn send_length_counts_bytes_not_characters() {
    // a two-character body of three bytes: the header declares bytes
    let body = "aé".to_string().into_bytes();
    assert_eq!(body.len(), 3);
    let r = plan_send(true, &body);
    let mut expected: Vec<u8> = b"Content-Length: 3\r\n\r\n".to_vec();
    expected.extend_from_slice("aé".as_bytes());
    assert_eq!(r, Ok(expected));
}

#[test]
fn diagnostic_line_is_published_when_it_decodes() {
    assert_eq!(
        diagnostic_event(b"server warming up".to_vec()),
        Some("server warming up".to_string())
    );
}

#[test]
fn diagnostic_line_that_does_not_decode_is_skipped() {
    assert_eq!(diagnostic_event(vec![0xff, 0x00, 0x91]), None);
}

#[test]
fn diagnostic_relay_publishes_lines_in_order() {
    let stream: Vec<u8> = b"first warning\r\nsecond warning\nlast".to_vec();
    let lines = relay_diagnostics(&stream);
    assert_eq!(
        lines,
        vec![
            "first warning".to_string(),
            "second warning".to_string(),
            "last".to_string(),
        ]
    );
}

#[test]
fn diagnostic_relay_skips_undecodable_lines_and_keeps_empty_ones() {
    let mut stream: Vec<u8> = b"ok\n".to_vec();
    stream.push(0xff);
    stream.push(b'\n');
    stream.extend_from_slice(b"\nalso ok\n");
    let lines = relay_diagnostics(&stream);
    assert_eq!(lines, vec!["ok".to_string(), String::new(), "also ok".to_string()]);
}
