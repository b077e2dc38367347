use mio_websocket::client::{ClientState, Token, WebSocketClient};
use mio_websocket::server::{Connections, SERVER_TOKEN};

#[test]
fn tokens_are_issued_in_order_after_the_listener() {
    let mut c = Connections::new();
    let a = c.accept().unwrap();
    let b = c.accept().unwrap();
    assert_eq!(a, Token(1));
    assert_eq!(b, Token(2));
    assert!(a.0 != SERVER_TOKEN && b.0 != SERVER_TOKEN);
    assert_eq!(c.tokens(), vec![Token(1), Token(2)]);
}

#[test]
fn take_and_put_back() {
    let mut c = Connections::new();
    let a = c.accept().unwrap();
    let b = c.accept().unwrap();
    let client = c.take(a).unwrap();
    assert_eq!(client.token(), a);
    assert_eq!(client.state(), ClientState::AwaitingHandshake);
    assert!(c.take(a).is_none());
    assert_eq!(c.tokens(), vec![b]);
    assert!(c.put_back(client));
    assert_eq!(c.tokens(), vec![b, a]);
}

#[test]
fn put_back_refuses_unknown_or_duplicate_tokens() {
    let mut c = Connections::new();
    let a = c.accept().unwrap();
    assert!(!c.put_back(WebSocketClient::new(Token(5))));
    assert!(!c.put_back(WebSocketClient::new(Token(0))));
    assert!(!c.put_back(WebSocketClient::new(a)));
    assert_eq!(c.tokens(), vec![a]);
}

#[test]
fn torn_down_tokens_are_not_issued_again() {
    let mut c = Connections::new();
    let a = c.accept().unwrap();
    c.take(a).unwrap();
    let b = c.accept().unwrap();
    assert_eq!(b, Token(2));
    assert_eq!(c.tokens(), vec![b]);
}
