//! The connection manager: the state machine of [`crate::model`], made executable.
//!
//! The manager touches no socket, clock or sink. Whoever runs it carries out
//! the actions of each batch in order and reports the outcome of the last one,
//! the outstanding request, as the next input. If the sink refuses an event,
//! the rest of the batch is dropped and the failed delivery is reported
//! instead: see [`crate::model::carried_out`].

use crate::endpoint::Endpoint;
use crate::event::Event;
use crate::framing::{contents, lemma_unfinished_newline_free, LineBuffer};
use crate::model::{
    activated, activation, emits, reconnect, step, ActionView, InputView, ManagerView, Phase,
};
use crate::text::{event_views, forward_lines};
use vstd::prelude::*;

verus! {

/// The seconds that pass after a failed attempt to connect, unless the
/// manager is made with another delay.
pub const RETRY_DELAY_SECS: u64 = 5;

/// What the surroundings report to the manager.
#[derive(Clone, Debug, PartialEq, Eq)]
pub enum Input {
    /// The attempt to connect succeeded.
    Connected,
    /// The attempt to connect failed.
    ConnectFailed,
    /// The read returned these bytes.
    Data(Vec<u8>),
    /// The read found the stream ended: the peer closed it.
    EndOfStream,
    /// The read failed.
    ReadFailed,
    /// The delay is over.
    DelayElapsed,
    /// The sink did not take an event.
    DeliveryFailed,
}

impl View for Input {
    type V = InputView;

    open spec fn view(&self) -> InputView {
        match self {
            Input::Connected => InputView::Connected,
            Input::ConnectFailed => InputView::ConnectFailed,
            Input::Data(bytes) => InputView::Data(bytes@),
            Input::EndOfStream => InputView::EndOfStream,
            Input::ReadFailed => InputView::ReadFailed,
            Input::DelayElapsed => InputView::DelayElapsed,
            Input::DeliveryFailed => InputView::DeliveryFailed,
        }
    }
}

/// What the manager asks of the surroundings.
#[derive(Clone, Debug, PartialEq, Eq)]
pub enum Action {
    /// Hand the event to the sink.
    Emit(Event),
    /// Try to open a connection to the endpoint.
    Connect(Endpoint),
    /// Read from the open connection.
    Read,
    /// Let this many seconds pass.
    Wait(u64),
    /// Discard the open connection.
    Disconnect,
    /// End the task that runs the manager.
    Abort,
}

impl View for Action {
    type V = ActionView;

    open spec fn view(&self) -> ActionView {
        match self {
            Action::Emit(event) => ActionView::Emit(event@),
            Action::Connect(endpoint) => ActionView::Connect(endpoint@),
            Action::Read => ActionView::Read,
            Action::Wait(seconds) => ActionView::Wait(*seconds),
            Action::Disconnect => ActionView::Disconnect,
            Action::Abort => ActionView::Abort,
        }
    }
}

/// What the actions of `actions` are, in the same order.
pub open spec fn action_views(actions: Seq<Action>) -> Seq<ActionView> {
    Seq::new(actions.len(), |i: int| actions[i]@)
}

/// What a manager is doing, together with what it holds while doing it.
enum Stage {
    Connecting,
    Waiting,
    Open(LineBuffer),
    Halted,
}

/// Keeps one connection to an endpoint alive and forwards what arrives on it.
pub struct ConnectionManager {
    endpoint: Endpoint,
    retry_delay_secs: u64,
    stage: Stage,
}

impl View for ConnectionManager {
    type V = ManagerView;

    closed spec fn view(&self) -> ManagerView {
        ManagerView {
            endpoint: self.endpoint@,
            retry_delay_secs: self.retry_delay_secs,
            phase: match self.stage {
                Stage::Connecting => Phase::Connecting,
                Stage::Waiting => Phase::Waiting,
                Stage::Open(_) => Phase::Open,
                Stage::Halted => Phase::Halted,
            },
            buffer: match self.stage {
                Stage::Open(buffer) => buffer@,
                _ => Seq::empty(),
            },
        }
    }
}

/// Wraps each event of `events` into the action that hands it to the sink.
fn emit_all(events: Vec<Event>) -> (actions: Vec<Action>)
    ensures
        action_views(actions@) == emits(event_views(events@)),
{
    let ghost all = events@;
    let mut actions: Vec<Action> = Vec::new();
    for event in it: events
        invariant
            it.seq() == all,
            action_views(actions@) == emits(event_views(all.take(it.index() as int))),
    {
        let ghost before = action_views(actions@);
        actions.push(Action::Emit(event));
        proof {
            assert(action_views(actions@) =~= before.push(ActionView::Emit(event@)));
            assert(action_views(actions@) =~= emits(
                event_views(all.take(it.index() as int + 1)),
            ));
        }
    }
    proof {
        assert(all.take(all.len() as int) =~= all);
    }
    actions
}

impl ConnectionManager {
    /// Activates a manager for `endpoint` that lets `retry_delay_secs` seconds
    /// pass after each failed attempt to connect. Returns the manager with the
    /// first actions: the startup event goes out, then the first attempt to
    /// connect is made.
    ///
    /// Every activation makes a manager of its own: two of them run side by
    /// side without knowing of each other.
    pub fn activate(endpoint: Endpoint, retry_delay_secs: u64) -> (result: (
        ConnectionManager,
        Vec<Action>,
    ))
        ensures
            result.0@ == activated(endpoint@, retry_delay_secs),
            result.0@.wf(),
            action_views(result.1@) == activation(endpoint@),
    {
        let mut actions: Vec<Action> = Vec::new();
        actions.push(Action::Emit(Event::startup()));
        actions.push(Action::Connect(endpoint.duplicate()));
        let manager = ConnectionManager { endpoint, retry_delay_secs, stage: Stage::Connecting };
        proof {
            assert(action_views(actions@) =~= activation(endpoint@));
        }
        (manager, actions)
    }

    /// What the manager is doing.
    pub fn phase(&self) -> (phase: Phase)
        ensures
            phase == self@.phase,
    {
        match self.stage {
            Stage::Connecting => Phase::Connecting,
            Stage::Waiting => Phase::Waiting,
            Stage::Open(_) => Phase::Open,
            Stage::Halted => Phase::Halted,
        }
    }

    /// Where the remote source listens.
    pub fn endpoint(&self) -> (endpoint: &Endpoint)
        ensures
            endpoint@ == self@.endpoint,
    {
        &self.endpoint
    }

    /// The seconds that pass after a failed attempt to connect.
    pub fn retry_delay_secs(&self) -> (seconds: u64)
        ensures
            seconds == self@.retry_delay_secs,
    {
        self.retry_delay_secs
    }

    /// The number of bytes of the open connection that wait for their newline.
    pub fn buffered(&self) -> (n: usize)
        ensures
            n == self@.buffer.len(),
    {
        match &self.stage {
            Stage::Open(buffer) => buffer.len(),
            _ => 0,
        }
    }

    /// Ends the connection: adds to `actions` what discards it and makes the
    /// next attempt to connect.
    fn drop_connection(&mut self, actions: &mut Vec<Action>)
        ensures
            final(self)@ == old(self)@.enter(Phase::Connecting),
            action_views(final(actions)@) == action_views(old(actions)@) + reconnect(old(self)@),
    {
        let ghost before = action_views(actions@);
        self.stage = Stage::Connecting;
        actions.push(Action::Disconnect);
        actions.push(Action::Connect(self.endpoint.duplicate()));
        proof {
            assert(action_views(actions@) =~= before + reconnect(old(self)@));
        }
    }

    /// Takes the report of what happened and returns what is to be done next,
    /// in order: the step of [`crate::model::step`].
    ///
    /// An input that answers no outstanding request changes nothing and asks
    /// for nothing. So does every input once the manager has halted. Every
    /// manager is well formed, before the call and after it.
    pub fn handle(&mut self, input: Input) -> (actions: Vec<Action>)
        ensures
            final(self)@ == step(old(self)@, input@).0,
            action_views(actions@) == step(old(self)@, input@).1,
            old(self)@.wf(),
            final(self)@.wf(),
    {
        let mut actions: Vec<Action> = Vec::new();
        let mut stage = Stage::Halted;
        std::mem::swap(&mut self.stage, &mut stage);
        proof {
            assert(action_views(actions@) =~= Seq::<ActionView>::empty());
            if let Stage::Open(buffer) = &stage {
                use_type_invariant(buffer);
            }
        }
        match (stage, input) {
            (Stage::Connecting, Input::Connected) => {
                self.stage = Stage::Open(LineBuffer::new());
                actions.push(Action::Read);
                proof {
                    assert(action_views(actions@) =~= seq![ActionView::Read]);
                }
            },
            (Stage::Connecting, Input::ConnectFailed) => {
                self.stage = Stage::Waiting;
                actions.push(Action::Wait(self.retry_delay_secs));
                proof {
                    assert(action_views(actions@) =~= seq![
                        ActionView::Wait(self.retry_delay_secs),
                    ]);
                }
            },
            (Stage::Waiting, Input::DelayElapsed) => {
                self.stage = Stage::Connecting;
                actions.push(Action::Connect(self.endpoint.duplicate()));
                proof {
                    assert(action_views(actions@) =~= seq![ActionView::Connect(self.endpoint@)]);
                }
            },
            (Stage::Open(mut buffer), Input::Data(chunk)) => {
                let ghost bytes = buffer@ + chunk@;
                let lines = buffer.push(chunk.as_slice());
                let (events, complete) = forward_lines(&lines);
                actions = emit_all(events);
                let ghost sent = action_views(actions@);
                if complete {
                    self.stage = Stage::Open(buffer);
                    actions.push(Action::Read);
                    proof {
                        lemma_unfinished_newline_free(bytes);
                        assert(action_views(actions@) =~= sent.push(ActionView::Read));
                    }
                } else {
                    self.drop_connection(&mut actions);
                }
            },
            (Stage::Open(mut buffer), Input::EndOfStream) => {
                let mut lines: Vec<Vec<u8>> = Vec::new();
                let ghost kept = buffer@;
                match buffer.finish() {
                    Some(last) => {
                        lines.push(last);
                        proof {
                            assert(contents(lines@) =~= seq![kept]);
                        }
                    },
                    None => {
                        proof {
                            assert(contents(lines@) =~= Seq::<Seq<u8>>::empty());
                        }
                    },
                }
                let (events, _) = forward_lines(&lines);
                actions = emit_all(events);
                self.drop_connection(&mut actions);
            },
            (Stage::Open(_), Input::ReadFailed) => {
                self.drop_connection(&mut actions);
                proof {
                    assert(action_views(actions@) =~= reconnect(old(self)@));
                }
            },
            (Stage::Halted, _) => {},
            (_, Input::DeliveryFailed) => {
                actions.push(Action::Abort);
                proof {
                    assert(action_views(actions@) =~= seq![ActionView::Abort]);
                }
            },
            (unchanged, _) => {
                self.stage = unchanged;
            },
        }
        actions
    }
}

} // verus!
