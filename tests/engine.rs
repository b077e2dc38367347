use mio_websocket::client::{ClientState, Interest, SendError, Token, WebSocketClient, WebSocketEvent};
use mio_websocket::handshake::{gen_key, HandshakeError, HeaderMap};

fn masked(b0: u8, key: [u8; 4], payload: &[u8]) -> Vec<u8> {
    let mut out = vec![b0];
    let len = payload.len();
    if len <= 125 {
        out.push(0x80 | len as u8);
    } else if len <= 65535 {
        out.push(0x80 | 126);
        out.extend_from_slice(&(len as u16).to_be_bytes());
    } else {
        out.push(0x80 | 127);
        out.extend_from_slice(&(len as u64).to_be_bytes());
    }
    out.extend_from_slice(&key);
    for (i, b) in payload.iter().enumerate() {
        out.push(b ^ key[i % 4]);
    }
    out
}

const KEY: [u8; 4] = [0x37, 0xfa, 0x21, 0x3d];

fn request(c: &mut WebSocketClient) {
    c.add_header(b"Host", b"example.com");
    c.add_header(b"Upgrade", b"websocket");
    c.add_header(b"Connection", b"keep-alive, Upgrade");
    c.add_header(b"Sec-WebSocket-Key", b"dGhlIHNhbXBsZSBub25jZQ==");
    c.add_header(b"Sec-WebSocket-Version", b"13");
}

fn flush(c: &mut WebSocketClient) -> (Vec<u8>, Option<WebSocketEvent>) {
    let out = c.output();
    let ev = c.write(out.len());
    (out, ev)
}

fn connected(token: usize) -> WebSocketClient {
    let mut c = WebSocketClient::new(Token(token));
    request(&mut c);
    assert_eq!(c.headers_complete(), Ok(()));
    let (_, ev) = flush(&mut c);
    assert_eq!(ev, Some(WebSocketEvent::Connect(Token(token))));
    c
}

#[test]
fn handshake_accept() {
    assert_eq!(gen_key(b"dGhlIHNhbXBsZSBub25jZQ=="), b"s3pPLMBiTxaQ9kYGzzhZRbK+xOo=".to_vec());
}

#[test]
fn handshake_response_and_connect() {
    let mut c = WebSocketClient::new(Token(3));
    assert_eq!(c.interest(), Interest { readable: true, writable: false, hup: false });
    request(&mut c);
    assert_eq!(c.headers_complete(), Ok(()));
    assert_eq!(c.state(), ClientState::HandshakeResponse);
    assert_eq!(c.interest(), Interest { readable: false, writable: true, hup: false });
    let out = c.output();
    let expected = "HTTP/1.1 101 Switching Protocols\r\nUpgrade: websocket\r\nConnection: Upgrade\r\nSec-WebSocket-Accept: s3pPLMBiTxaQ9kYGzzhZRbK+xOo=\r\n\r\n";
    assert_eq!(out, expected.as_bytes().to_vec());
    assert_eq!(c.write(10), None);
    assert_eq!(c.output(), expected.as_bytes()[10..].to_vec());
    assert_eq!(c.write(out.len() - 10), Some(WebSocketEvent::Connect(Token(3))));
    assert_eq!(c.state(), ClientState::Connected);
    assert_eq!(c.interest(), Interest { readable: true, writable: false, hup: false });
}

#[test]
fn handshake_refused_with_400() {
    let mut c = WebSocketClient::new(Token(1));
    c.add_header(b"Upgrade", b"websocket");
    c.add_header(b"Connection", b"Upgrade");
    c.add_header(b"Sec-WebSocket-Key", b"abc");
    c.add_header(b"Sec-WebSocket-Version", b"8");
    assert_eq!(c.headers_complete(), Err(HandshakeError::UnsupportedVersion));
    let (out, ev) = flush(&mut c);
    assert_eq!(out, b"HTTP/1.1 400 Bad Request\r\nContent-Length: 0\r\n\r\n".to_vec());
    assert_eq!(ev, None);
    assert!(c.is_terminal());
    assert_eq!(c.interest(), Interest { readable: false, writable: false, hup: true });
}

#[test]
fn handshake_errors() {
    let mut h = HeaderMap::new();
    h.add(b"Connection", b"Upgrade");
    assert_eq!(h.check(), Err(HandshakeError::NotUpgrade));
    h.add(b"UPGRADE", b" WebSocket ");
    h.add(b"sec-websocket-version", b"13");
    assert_eq!(h.check(), Err(HandshakeError::MissingKey));
    h.add(b"Sec-WebSocket-Key", b"  k3y ");
    assert_eq!(h.check(), Ok(b"k3y".to_vec()));
}

#[test]
fn repeated_headers_are_joined() {
    let mut h = HeaderMap::new();
    h.add(b"Connection", b"keep-alive");
    h.add(b"connection", b"Upgrade");
    assert_eq!(h.get(b"CONNECTION"), Some(b"keep-alive, Upgrade".to_vec()));
    assert_eq!(h.get(b"upgrade"), None);
}

#[test]
fn text_frame_becomes_text_message() {
    let mut c = connected(7);
    let evs = c.read(&[0x81, 0x85, 0x37, 0xfa, 0x21, 0x3d, 0x7f, 0x9f, 0x4d, 0x51, 0x58]);
    assert_eq!(evs, vec![WebSocketEvent::TextMessage(Token(7), "Hello".to_string())]);
}

#[test]
fn echo_pipeline() {
    let mut c = connected(7);
    let evs = c.read(&[0x81, 0x85, 0x37, 0xfa, 0x21, 0x3d, 0x7f, 0x9f, 0x4d, 0x51, 0x58]);
    assert_eq!(c.send_message(evs[0].clone()), Ok(()));
    assert_eq!(c.interest(), Interest { readable: false, writable: true, hup: false });
    let (out, ev) = flush(&mut c);
    assert_eq!(out, vec![0x81, 0x05, 0x48, 0x65, 0x6c, 0x6c, 0x6f]);
    assert_eq!(ev, None);
    assert_eq!(c.interest(), Interest { readable: true, writable: false, hup: false });
}

#[test]
fn echo_of_multibyte_text() {
    let mut c = connected(2);
    let text = "h\u{e9}llo \u{1f600}";
    let evs = c.read(&masked(0x81, KEY, text.as_bytes()));
    assert_eq!(evs, vec![WebSocketEvent::TextMessage(Token(2), text.to_string())]);
    c.send_message(evs[0].clone()).unwrap();
    let (out, _) = flush(&mut c);
    assert_eq!(out[0], 0x81);
    assert_eq!(out[1] as usize, text.len());
    assert_eq!(&out[2..], text.as_bytes());
}

#[test]
fn fragmented_text() {
    let mut c = connected(4);
    let mut bytes = masked(0x01, KEY, b"Hel");
    bytes.extend(masked(0x80, KEY, b"lo"));
    let evs = c.read(&bytes[..5]);
    assert!(evs.is_empty());
    let evs = c.read(&bytes[5..]);
    assert_eq!(evs, vec![WebSocketEvent::TextMessage(Token(4), "Hello".to_string())]);
}

#[test]
fn control_frame_inside_fragmented_message() {
    let mut c = connected(4);
    let mut bytes = masked(0x02, KEY, b"ab");
    bytes.extend(masked(0x89, KEY, b"p"));
    bytes.extend(masked(0x80, KEY, b"cd"));
    let evs = c.read(&bytes);
    assert_eq!(
        evs,
        vec![
            WebSocketEvent::Ping(Token(4), b"p".to_vec()),
            WebSocketEvent::BinaryMessage(Token(4), b"abcd".to_vec()),
        ]
    );
}

#[test]
fn continuation_without_opener_is_protocol_error() {
    let mut c = connected(4);
    let evs = c.read(&masked(0x80, KEY, b"x"));
    assert_eq!(evs, vec![WebSocketEvent::Close(Token(4), 1002)]);
    let (out, _) = flush(&mut c);
    assert_eq!(out, vec![0x88, 0x02, 0x03, 0xea]);
}

#[test]
fn new_message_inside_fragmented_message_is_protocol_error() {
    let mut c = connected(4);
    let mut bytes = masked(0x01, KEY, b"a");
    bytes.extend(masked(0x81, KEY, b"b"));
    let evs = c.read(&bytes);
    assert_eq!(evs, vec![WebSocketEvent::Close(Token(4), 1002)]);
}

#[test]
fn invalid_utf8_text_closes_with_1007() {
    let mut c = connected(5);
    let evs = c.read(&masked(0x81, KEY, &[0xff, 0xfe]));
    assert_eq!(evs, vec![WebSocketEvent::Close(Token(5), 1007)]);
    assert_eq!(c.state(), ClientState::Closing);
    let (out, ev) = flush(&mut c);
    assert_eq!(out, vec![0x88, 0x02, 0x03, 0xef]);
    assert_eq!(ev, None);
    assert!(c.is_terminal());
}

#[test]
fn peer_close_with_status_is_echoed() {
    let mut c = connected(6);
    let evs = c.read(&masked(0x88, KEY, &[0x03, 0xe8]));
    assert_eq!(evs, vec![WebSocketEvent::Close(Token(6), 1000)]);
    let (out, _) = flush(&mut c);
    assert_eq!(out, vec![0x88, 0x02, 0x03, 0xe8]);
    assert!(c.is_terminal());
    assert_eq!(c.interest(), Interest { readable: false, writable: false, hup: true });
}

#[test]
fn empty_close_reports_1005() {
    let mut c = connected(6);
    let evs = c.read(&masked(0x88, KEY, b""));
    assert_eq!(evs, vec![WebSocketEvent::Close(Token(6), 1005)]);
    let (out, _) = flush(&mut c);
    assert_eq!(out, vec![0x88, 0x00]);
}

#[test]
fn one_byte_close_answers_1002() {
    let mut c = connected(6);
    let evs = c.read(&masked(0x88, KEY, &[0x03]));
    assert_eq!(evs, vec![WebSocketEvent::Close(Token(6), 1002)]);
    let (out, _) = flush(&mut c);
    assert_eq!(out, vec![0x88, 0x02, 0x03, 0xea]);
}

#[test]
fn close_reason_must_be_utf8() {
    let mut c = connected(6);
    let evs = c.read(&masked(0x88, KEY, &[0x03, 0xe8, 0xc3]));
    assert_eq!(evs, vec![WebSocketEvent::Close(Token(6), 1007)]);
    let mut c = connected(6);
    let evs = c.read(&masked(0x88, KEY, &[0x0b, 0xb8, b'o', b'k']));
    assert_eq!(evs, vec![WebSocketEvent::Close(Token(6), 3000)]);
    let (out, _) = flush(&mut c);
    assert_eq!(out, vec![0x88, 0x02, 0x0b, 0xb8]);
}

#[test]
fn ping_is_answered_with_pong() {
    let mut c = connected(8);
    let payload = vec![0x5au8; 125];
    let evs = c.read(&masked(0x89, KEY, &payload));
    assert_eq!(evs, vec![WebSocketEvent::Ping(Token(8), payload.clone())]);
    let (out, _) = flush(&mut c);
    assert_eq!(out[0], 0x8a);
    assert_eq!(out[1], 125);
    assert_eq!(&out[2..], &payload[..]);
}

#[test]
fn long_ping_closes_with_1002() {
    let mut c = connected(8);
    let evs = c.read(&masked(0x89, KEY, &vec![1u8; 126]));
    assert_eq!(evs, vec![WebSocketEvent::Close(Token(8), 1002)]);
    let (out, _) = flush(&mut c);
    assert_eq!(out, vec![0x88, 0x02, 0x03, 0xea]);
}

#[test]
fn pong_is_reported() {
    let mut c = connected(8);
    let evs = c.read(&masked(0x8a, KEY, b"hb"));
    assert_eq!(evs, vec![WebSocketEvent::Pong(Token(8), b"hb".to_vec())]);
    assert_eq!(c.interest(), Interest { readable: true, writable: false, hup: false });
}

#[test]
fn events_follow_byte_order_across_chunks() {
    let mut stream = Vec::new();
    stream.extend(masked(0x81, KEY, b"one"));
    stream.extend(masked(0x82, KEY, &[1, 2, 3]));
    stream.extend(masked(0x8a, KEY, b"two"));
    stream.extend(masked(0x81, KEY, b"three"));
    let expected = vec![
        WebSocketEvent::TextMessage(Token(1), "one".to_string()),
        WebSocketEvent::BinaryMessage(Token(1), vec![1, 2, 3]),
        WebSocketEvent::Pong(Token(1), b"two".to_vec()),
        WebSocketEvent::TextMessage(Token(1), "three".to_string()),
    ];
    for chunk in 1..stream.len() + 1 {
        let mut c = connected(1);
        let mut got = Vec::new();
        for piece in stream.chunks(chunk) {
            got.extend(c.read(piece));
        }
        assert_eq!(got, expected, "chunk size {}", chunk);
    }
}

#[test]
fn frames_after_close_are_not_read() {
    let mut c = connected(1);
    let mut bytes = masked(0x88, KEY, &[0x03, 0xe8]);
    bytes.extend(masked(0x81, KEY, b"late"));
    let evs = c.read(&bytes);
    assert_eq!(evs, vec![WebSocketEvent::Close(Token(1), 1000)]);
}

#[test]
fn host_messages_are_queued_in_order() {
    let mut c = connected(9);
    c.send_message(WebSocketEvent::BinaryMessage(Token(9), vec![1, 2])).unwrap();
    c.send_message(WebSocketEvent::Ping(Token(9), b"p".to_vec())).unwrap();
    c.send_message(WebSocketEvent::Close(Token(9), 1000)).unwrap();
    assert_eq!(
        c.send_message(WebSocketEvent::TextMessage(Token(9), "x".to_string())),
        Err(SendError::NotConnected)
    );
    let (out, _) = flush(&mut c);
    assert_eq!(out, vec![0x82, 0x02, 1, 2, 0x89, 0x01, b'p', 0x88, 0x02, 0x03, 0xe8]);
    assert!(c.is_terminal());
}

#[test]
fn send_errors() {
    let mut c = connected(9);
    assert_eq!(c.send_message(WebSocketEvent::Connect(Token(9))), Err(SendError::WrongMessageType));
    assert_eq!(c.send_message(WebSocketEvent::Pong(Token(9), vec![])), Err(SendError::WrongMessageType));
    assert_eq!(c.send_message(WebSocketEvent::Ping(Token(9), vec![0; 126])), Err(SendError::ControlTooLong));
    let mut fresh = WebSocketClient::new(Token(1));
    assert_eq!(
        fresh.send_message(WebSocketEvent::TextMessage(Token(1), "x".to_string())),
        Err(SendError::NotConnected)
    );
}

#[test]
fn hang_up_reports_abnormal_closure() {
    let mut c = connected(9);
    assert_eq!(c.hang_up(), Some(WebSocketEvent::Close(Token(9), 1006)));
    assert!(c.is_terminal());
    let mut fresh = WebSocketClient::new(Token(1));
    assert_eq!(fresh.hang_up(), None);
}

#[test]
fn interest_reflects_needs() {
    let mut c = connected(9);
    let mut bytes = masked(0x89, KEY, b"a");
    bytes.extend(masked(0x89, KEY, b"b"));
    c.read(&bytes);
    assert_eq!(c.interest(), Interest { readable: false, writable: true, hup: false });
    let out = c.output();
    assert_eq!(out, vec![0x8a, 0x01, b'a', 0x8a, 0x01, b'b']);
    c.write(2);
    assert_eq!(c.interest(), Interest { readable: false, writable: true, hup: false });
    c.write(4);
    assert_eq!(c.interest(), Interest { readable: true, writable: false, hup: false });
}
