use deno_ops::debugger::greeting;
use deno_ops::debugger::handle_client_message;
use deno_ops::debugger::CloseData;
use deno_ops::debugger::EchoAction;
use deno_ops::debugger::WsMessage;

#[test]
fn ping_is_answered_with_pong() {
    match handle_client_message(WsMessage::Ping(vec![1, 2, 3])) {
        EchoAction::Send(WsMessage::Pong(p)) => assert_eq!(p, vec![1, 2, 3]),
        _ => panic!("expected a pong"),
    }
}

#[test]
fn pong_is_dropped() {
    assert!(matches!(handle_client_message(WsMessage::Pong(vec![9])), EchoAction::Skip));
}

#[test]
fn text_and_binary_are_echoed() {
    match handle_client_message(WsMessage::Text("hi".to_string())) {
        EchoAction::Send(WsMessage::Text(t)) => assert_eq!(t, "hi"),
        _ => panic!("expected the text back"),
    }
    match handle_client_message(WsMessage::Binary(vec![0, 255])) {
        EchoAction::Send(WsMessage::Binary(b)) => assert_eq!(b, vec![0, 255]),
        _ => panic!("expected the bytes back"),
    }
}

#[test]
fn close_ends_the_session() {
    assert!(matches!(handle_client_message(WsMessage::Close(None)), EchoAction::Close));
    let data = CloseData { status_code: 1000, reason: "bye".to_string() };
    assert!(matches!(handle_client_message(WsMessage::Close(Some(data))), EchoAction::Close));
}

#[test]
fn greeting_says_hello() {
    match greeting() {
        WsMessage::Text(t) => assert_eq!(t, "Hello World!"),
        _ => panic!("expected a text greeting"),
    }
}
