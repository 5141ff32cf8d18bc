use kanata_listener::commands::{ping_pong, start_kanata_listener};
use kanata_listener::endpoint::Endpoint;
use kanata_listener::event::Event;
use kanata_listener::manager::{Action, ConnectionManager, Input};
use kanata_listener::model::Phase;

fn feed(payload: &str) -> Action {
    Action::Emit(Event { name: "kanata-message".to_string(), payload: payload.to_string() })
}

fn startup() -> Action {
    Action::Emit(Event { name: "listener-starting".to_string(), payload: "init1".to_string() })
}

fn connect() -> Action {
    Action::Connect(Endpoint { host: "localhost".to_string(), port: 42041 })
}

fn open_manager() -> ConnectionManager {
    let (mut manager, _) = start_kanata_listener();
    assert_eq!(manager.handle(Input::Connected), vec![Action::Read]);
    manager
}

#[test]
fn one_line_then_close_forwards_it_and_reconnects() {
    let mut manager = open_manager();
    let actions = manager.handle(Input::Data(b"{\"key\":1}\n".to_vec()));
    assert_eq!(actions, vec![feed("{\"key\":1}"), Action::Read]);
    let actions = manager.handle(Input::EndOfStream);
    assert_eq!(actions, vec![Action::Disconnect, connect()]);
    assert_eq!(manager.phase(), Phase::Connecting);
}

#[test]
fn source_down_for_twelve_seconds_is_tried_every_five() {
    // The source comes up at second 12. An attempt takes no time; the only
    // time that passes is the delay that the manager asks for.
    let (mut manager, mut batch) = start_kanata_listener();
    let mut now: u64 = 0;
    let mut failed_at: Vec<u64> = Vec::new();
    let mut connected_at: Option<u64> = None;
    while connected_at.is_none() {
        let mut input = None;
        for action in batch {
            match action {
                Action::Emit(_) => {},
                Action::Connect(_) => {
                    if now < 12 {
                        failed_at.push(now);
                        input = Some(Input::ConnectFailed);
                    } else {
                        connected_at = Some(now);
                        input = Some(Input::Connected);
                    }
                },
                Action::Wait(seconds) => {
                    assert_eq!(seconds, 5);
                    now += seconds;
                    input = Some(Input::DelayElapsed);
                },
                other => panic!("unexpected action {:?}", other),
            }
        }
        batch = manager.handle(input.unwrap());
    }
    assert_eq!(failed_at, vec![0, 5, 10]);
    let in_window = failed_at.iter().filter(|at| **at < 12).count();
    assert!(in_window >= 2 && in_window <= 3);
    assert_eq!(connected_at, Some(15));
    assert_eq!(batch, vec![Action::Read]);
}

#[test]
fn two_lines_in_one_read_are_two_events() {
    let mut manager = open_manager();
    let actions = manager.handle(Input::Data(b"a\nb\n".to_vec()));
    assert_eq!(actions, vec![feed("a"), feed("b"), Action::Read]);
    assert_eq!(manager.buffered(), 0);
}

#[test]
fn lines_arrive_in_order_however_the_bytes_are_cut() {
    let stream = b"first\nsecond line\n\nfourth\n";
    let expected = vec![feed("first"), feed("second line"), feed(""), feed("fourth")];
    for cut_a in 0..=stream.len() {
        for cut_b in cut_a..=stream.len() {
            let mut manager = open_manager();
            let mut events = Vec::new();
            for piece in [&stream[..cut_a], &stream[cut_a..cut_b], &stream[cut_b..]] {
                let mut batch = manager.handle(Input::Data(piece.to_vec()));
                assert_eq!(batch.pop(), Some(Action::Read));
                events.extend(batch);
            }
            assert_eq!(events, expected);
            assert_eq!(manager.phase(), Phase::Open);
            assert_eq!(manager.buffered(), 0);
        }
    }
}

#[test]
fn unreachable_source_is_retried_without_end() {
    let (mut manager, first) = start_kanata_listener();
    assert_eq!(first.last(), Some(&connect()));
    for _ in 0..1000 {
        assert_eq!(manager.handle(Input::ConnectFailed), vec![Action::Wait(5)]);
        assert_eq!(manager.phase(), Phase::Waiting);
        assert_eq!(manager.handle(Input::DelayElapsed), vec![connect()]);
        assert_eq!(manager.phase(), Phase::Connecting);
    }
}

#[test]
fn the_delay_is_the_one_the_manager_was_made_with() {
    let endpoint = Endpoint::new("example.test".to_string(), 7);
    let (mut manager, first) = ConnectionManager::activate(endpoint.clone(), 42);
    assert_eq!(first, vec![startup(), Action::Connect(endpoint.clone())]);
    assert_eq!(manager.retry_delay_secs(), 42);
    assert_eq!(manager.endpoint(), &endpoint);
    assert_eq!(manager.handle(Input::ConnectFailed), vec![Action::Wait(42)]);
    assert_eq!(manager.handle(Input::DelayElapsed), vec![Action::Connect(endpoint)]);
}

#[test]
fn forwarding_resumes_after_a_failed_read_without_repeating_lines() {
    let mut manager = open_manager();
    assert_eq!(
        manager.handle(Input::Data(b"one\ntwo\nthr".to_vec())),
        vec![feed("one"), feed("two"), Action::Read]
    );
    assert_eq!(manager.buffered(), 3);
    // The connection breaks in the middle of the third line. The next attempt
    // is made at once, without a wait.
    assert_eq!(manager.handle(Input::ReadFailed), vec![Action::Disconnect, connect()]);
    assert_eq!(manager.buffered(), 0);
    assert_eq!(manager.handle(Input::Connected), vec![Action::Read]);
    assert_eq!(
        manager.handle(Input::Data(b"ee\nfour\n".to_vec())),
        vec![feed("ee"), feed("four"), Action::Read]
    );
}

#[test]
fn forwarding_resumes_after_the_source_was_away_for_a_while() {
    let mut manager = open_manager();
    assert_eq!(manager.handle(Input::Data(b"before\n".to_vec())), vec![feed("before"), Action::Read]);
    assert_eq!(manager.handle(Input::EndOfStream), vec![Action::Disconnect, connect()]);
    assert_eq!(manager.handle(Input::ConnectFailed), vec![Action::Wait(5)]);
    assert_eq!(manager.handle(Input::DelayElapsed), vec![connect()]);
    assert_eq!(manager.handle(Input::Connected), vec![Action::Read]);
    assert_eq!(manager.handle(Input::Data(b"after\n".to_vec())), vec![feed("after"), Action::Read]);
}

#[test]
fn each_ping_sends_one_ping_event() {
    let expected = Event { name: "ping-pong".to_string(), payload: "init1".to_string() };
    let mut sent = Vec::new();
    for _ in 0..25 {
        sent.push(ping_pong());
    }
    assert_eq!(sent.len(), 25);
    assert!(sent.iter().all(|event| *event == expected));
}

#[test]
fn ping_is_the_same_whatever_the_listener_does() {
    let expected = Event { name: "ping-pong".to_string(), payload: "init1".to_string() };
    assert_eq!(ping_pong(), expected);
    let (mut manager, _) = start_kanata_listener();
    assert_eq!(ping_pong(), expected);
    manager.handle(Input::Connected);
    assert_eq!(ping_pong(), expected);
    manager.handle(Input::Data(b"half a li".to_vec()));
    assert_eq!(ping_pong(), expected);
    manager.handle(Input::DeliveryFailed);
    assert_eq!(ping_pong(), expected);
    assert_eq!(manager.phase(), Phase::Halted);
}

#[test]
fn starting_the_listener_announces_it_and_connects() {
    let (manager, first) = start_kanata_listener();
    assert_eq!(first, vec![startup(), connect()]);
    assert_eq!(manager.phase(), Phase::Connecting);
    assert_eq!(manager.retry_delay_secs(), 5);
    assert_eq!(manager.endpoint(), &Endpoint { host: "localhost".to_string(), port: 42041 });
    assert_eq!(manager.buffered(), 0);
}

#[test]
fn two_listeners_run_side_by_side() {
    let (mut first, _) = start_kanata_listener();
    let (mut second, _) = start_kanata_listener();
    assert_eq!(first.handle(Input::Connected), vec![Action::Read]);
    assert_eq!(second.handle(Input::ConnectFailed), vec![Action::Wait(5)]);
    assert_eq!(first.handle(Input::Data(b"x\n".to_vec())), vec![feed("x"), Action::Read]);
    assert_eq!(first.phase(), Phase::Open);
    assert_eq!(second.phase(), Phase::Waiting);
}

#[test]
fn the_feed_name_carries_forwarded_lines_only() {
    let (mut manager, first) = start_kanata_listener();
    let mut sent: Vec<Event> = Vec::new();
    let mut collect = |batch: Vec<Action>| {
        for action in batch {
            if let Action::Emit(event) = action {
                sent.push(event);
            }
        }
    };
    collect(first);
    collect(manager.handle(Input::ConnectFailed));
    collect(manager.handle(Input::DelayElapsed));
    collect(manager.handle(Input::Connected));
    collect(manager.handle(Input::Data(b"one\ntwo\nthr".to_vec())));
    collect(manager.handle(Input::EndOfStream));
    collect(manager.handle(Input::Connected));
    collect(manager.handle(Input::ReadFailed));
    let on_feed: Vec<&str> = sent
        .iter()
        .filter(|event| event.name == "kanata-message")
        .map(|event| event.payload.as_str())
        .collect();
    assert_eq!(on_feed, vec!["one", "two", "thr"]);
    assert_eq!(sent.len(), 4);
    assert_eq!(sent[0].name, "listener-starting");
}

#[test]
fn a_refused_startup_event_halts_before_any_attempt_to_connect() {
    let (mut manager, first) = start_kanata_listener();
    assert_eq!(first[0], startup());
    // The sink refuses the first action: the rest of the batch is dropped.
    assert_eq!(manager.handle(Input::DeliveryFailed), vec![Action::Abort]);
    assert_eq!(manager.phase(), Phase::Halted);
    assert_eq!(manager.handle(Input::Connected), Vec::<Action>::new());
}

#[test]
fn a_refused_line_halts_the_manager() {
    let mut manager = open_manager();
    let batch = manager.handle(Input::Data(b"a\nb\n".to_vec()));
    assert_eq!(batch, vec![feed("a"), feed("b"), Action::Read]);
    // The sink takes "a" and refuses "b": the read is not carried out.
    assert_eq!(manager.handle(Input::DeliveryFailed), vec![Action::Abort]);
    assert_eq!(manager.phase(), Phase::Halted);
    assert_eq!(manager.handle(Input::Data(b"c\n".to_vec())), Vec::<Action>::new());
}
