use kanata_listener::event::{Event, FEED_EVENT, INIT_PAYLOAD, PING_EVENT, STARTUP_EVENT};
use kanata_listener::text::{decode_line, forward_lines};

fn message(payload: &str) -> Event {
    Event { name: "kanata-message".to_string(), payload: payload.to_string() }
}

#[test]
fn the_event_names_and_the_init_payload() {
    assert_eq!(FEED_EVENT, "kanata-message");
    assert_eq!(PING_EVENT, "ping-pong");
    assert_eq!(INIT_PAYLOAD, "init1");
    assert_eq!(STARTUP_EVENT, "listener-starting");
}

#[test]
fn the_event_names_differ() {
    assert_ne!(STARTUP_EVENT, FEED_EVENT);
    assert_ne!(STARTUP_EVENT, PING_EVENT);
    assert_ne!(PING_EVENT, FEED_EVENT);
}

#[test]
fn the_event_constructors() {
    assert_eq!(Event::message("x".to_string()), message("x"));
    assert_eq!(
        Event::ping(),
        Event { name: "ping-pong".to_string(), payload: "init1".to_string() }
    );
    assert_eq!(
        Event::startup(),
        Event { name: "listener-starting".to_string(), payload: "init1".to_string() }
    );
    assert_eq!(
        Event::new("a".to_string(), "b".to_string()),
        Event { name: "a".to_string(), payload: "b".to_string() }
    );
}

#[test]
fn plain_text_is_decoded() {
    assert_eq!(decode_line(b"hello"), Some("hello".to_string()));
    assert_eq!(decode_line(b""), Some(String::new()));
    assert_eq!(decode_line(b"{\"key\":1}"), Some("{\"key\":1}".to_string()));
}

#[test]
fn text_of_several_bytes_a_character_is_decoded() {
    assert_eq!(decode_line("héllo wörld".as_bytes()), Some("héllo wörld".to_string()));
    assert_eq!(decode_line(&[0xe2, 0x82, 0xac]), Some("\u{20ac}".to_string()));
    assert_eq!(decode_line(&[0xf0, 0x9f, 0x98, 0x80]), Some("\u{1f600}".to_string()));
    assert_eq!(decode_line("日本語".as_bytes()).map(|text| text.chars().count()), Some(3));
}

#[test]
fn bytes_that_are_not_utf8_are_no_text() {
    assert_eq!(decode_line(&[0xff]), None);
    assert_eq!(decode_line(&[b'a', 0x80]), None);
    // A character cut short.
    assert_eq!(decode_line(&[0xe2, 0x82]), None);
    // An overlong encoding of '/'.
    assert_eq!(decode_line(&[0xc0, 0xaf]), None);
    // A surrogate.
    assert_eq!(decode_line(&[0xed, 0xa0, 0x80]), None);
    // Beyond the last code point.
    assert_eq!(decode_line(&[0xf4, 0x90, 0x80, 0x80]), None);
}

#[test]
fn every_text_line_is_forwarded() {
    let lines = vec![b"a".to_vec(), Vec::new(), "ü".as_bytes().to_vec()];
    let (events, complete) = forward_lines(&lines);
    assert_eq!(events, vec![message("a"), message(""), message("ü")]);
    assert!(complete);
}

#[test]
fn no_lines_give_no_events() {
    let (events, complete) = forward_lines(&Vec::new());
    assert_eq!(events, Vec::<Event>::new());
    assert!(complete);
}

#[test]
fn forwarding_ends_before_the_first_line_that_is_no_text() {
    let lines = vec![b"good".to_vec(), vec![0xff], b"never".to_vec()];
    let (events, complete) = forward_lines(&lines);
    assert_eq!(events, vec![message("good")]);
    assert!(!complete);
    let (events, complete) = forward_lines(&vec![vec![0x80]]);
    assert_eq!(events, Vec::<Event>::new());
    assert!(!complete);
}
