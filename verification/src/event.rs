//! The notifications that go to the sink.

use vstd::prelude::*;

verus! {

/// The name under which lines of the remote source are forwarded. Nothing
/// else goes out under this name.
pub const FEED_EVENT: &'static str = "kanata-message";

/// The name under which the start of a listener is announced.
pub const STARTUP_EVENT: &'static str = "listener-starting";

/// The name of the event that answers a ping.
pub const PING_EVENT: &'static str = "ping-pong";

/// The payload of the ping event and of the startup announcement.
pub const INIT_PAYLOAD: &'static str = "init1";

/// A named notification with a text payload, as the sink takes it.
#[derive(Clone, Debug, PartialEq, Eq)]
pub struct Event {
    pub name: String,
    pub payload: String,
}

/// What an [`Event`] holds, as mathematical values.
pub struct EventView {
    pub name: Seq<char>,
    pub payload: Seq<char>,
}

impl View for Event {
    type V = EventView;

    open spec fn view(&self) -> EventView {
        EventView { name: self.name@, payload: self.payload@ }
    }
}

/// The event that forwards one line of the remote source.
pub open spec fn message_event(payload: Seq<char>) -> EventView {
    EventView { name: FEED_EVENT@, payload }
}

/// The event that answers a ping.
pub open spec fn ping_event() -> EventView {
    EventView { name: PING_EVENT@, payload: INIT_PAYLOAD@ }
}

/// The event that announces the start of the listener.
pub open spec fn startup_event() -> EventView {
    EventView { name: STARTUP_EVENT@, payload: INIT_PAYLOAD@ }
}

/// The three event names differ from each other: a listener of one name
/// never sees what goes out under another.
pub proof fn lemma_event_names_differ()
    ensures
        STARTUP_EVENT@ != FEED_EVENT@,
        STARTUP_EVENT@ != PING_EVENT@,
        PING_EVENT@ != FEED_EVENT@,
{
    reveal_strlit("kanata-message");
    reveal_strlit("listener-starting");
    reveal_strlit("ping-pong");
    assert(FEED_EVENT@.len() == 14);
    assert(STARTUP_EVENT@.len() == 17);
    assert(PING_EVENT@.len() == 9);
}

impl Event {
    /// The event with the given name and payload.
    pub fn new(name: String, payload: String) -> (event: Event)
        ensures
            event@ == (EventView { name: name@, payload: payload@ }),
    {
        Event { name, payload }
    }

    /// The event that forwards `payload`, one line of the remote source.
    pub fn message(payload: String) -> (event: Event)
        ensures
            event@ == message_event(payload@),
    {
        Event { name: FEED_EVENT.to_owned(), payload }
    }

    /// The event that answers a ping.
    pub fn ping() -> (event: Event)
        ensures
            event@ == ping_event(),
    {
        Event { name: PING_EVENT.to_owned(), payload: INIT_PAYLOAD.to_owned() }
    }

    /// The event that announces the start of the listener.
    pub fn startup() -> (event: Event)
        ensures
            event@ == startup_event(),
    {
        Event { name: STARTUP_EVENT.to_owned(), payload: INIT_PAYLOAD.to_owned() }
    }
}

} // verus!
