//! The connection manager as a mathematical state machine.
//!
//! A manager is in one of four phases, and in each of them one request to the
//! surroundings is outstanding: the attempt to connect, the wait before the
//! next attempt, or the read on the open connection. [`step`] says, for a
//! state and the answer that came back, which state follows and which actions
//! are due, in order. A halted manager asks for nothing any more.

use crate::endpoint::EndpointView;
use crate::event::{startup_event, EventView};
use crate::framing::{complete_lines, newline_free, unfinished};
use crate::text::{all_text, forwarded};
use vstd::prelude::*;

verus! {

/// What a connection manager is doing.
#[derive(Clone, Copy, Debug, PartialEq, Eq, Structural)]
pub enum Phase {
    /// An attempt to connect is under way. No connection is open.
    Connecting,
    /// The last attempt failed, and the delay before the next one runs.
    Waiting,
    /// The connection is open, and a read on it is under way.
    Open,
    /// A delivery failed. The manager has given up for good.
    Halted,
}

/// What the surroundings report to the manager.
pub enum InputView {
    /// The attempt to connect succeeded.
    Connected,
    /// The attempt to connect failed.
    ConnectFailed,
    /// The read returned these bytes.
    Data(Seq<u8>),
    /// The read found the stream ended: the peer closed it.
    EndOfStream,
    /// The read failed.
    ReadFailed,
    /// The delay is over.
    DelayElapsed,
    /// The sink did not take an event.
    DeliveryFailed,
}

/// What the manager asks of the surroundings.
pub enum ActionView {
    /// Hand the event to the sink.
    Emit(EventView),
    /// Try to open a connection to the endpoint.
    Connect(EndpointView),
    /// Read from the open connection.
    Read,
    /// Let this many seconds pass.
    Wait(u64),
    /// Discard the open connection.
    Disconnect,
    /// End the task that runs the manager.
    Abort,
}

/// The state of a connection manager.
#[verifier::ext_equal]
pub struct ManagerView {
    /// Where the remote source listens.
    pub endpoint: EndpointView,
    /// The seconds to let pass after a failed attempt to connect.
    pub retry_delay_secs: u64,
    /// What the manager is doing.
    pub phase: Phase,
    /// The bytes of the open connection that still wait for their newline.
    pub buffer: Seq<u8>,
}

impl ManagerView {
    /// Unfinished bytes exist only on an open connection, and hold no newline.
    pub open spec fn wf(self) -> bool {
        &&& newline_free(self.buffer)
        &&& !(self.phase is Open) ==> self.buffer.len() == 0
    }

    /// The same manager in another phase, with no bytes kept.
    pub open spec fn enter(self, phase: Phase) -> ManagerView {
        ManagerView { phase, buffer: Seq::empty(), ..self }
    }
}

/// The actions that hand `events` to the sink, in the same order.
pub open spec fn emits(events: Seq<EventView>) -> Seq<ActionView> {
    Seq::new(events.len(), |i: int| ActionView::Emit(events[i]))
}

/// The events that `actions` hand to the sink, in the same order.
pub open spec fn emitted(actions: Seq<ActionView>) -> Seq<EventView>
    decreases actions.len(),
{
    if actions.len() == 0 {
        Seq::empty()
    } else {
        let before = emitted(actions.drop_last());
        match actions.last() {
            ActionView::Emit(event) => before.push(event),
            _ => before,
        }
    }
}

/// The state of a manager that has just been activated.
pub open spec fn activated(endpoint: EndpointView, retry_delay_secs: u64) -> ManagerView {
    ManagerView { endpoint, retry_delay_secs, phase: Phase::Connecting, buffer: Seq::empty() }
}

/// What activation asks for: the startup event goes out, then the first
/// attempt to connect is made.
pub open spec fn activation(endpoint: EndpointView) -> Seq<ActionView> {
    seq![ActionView::Emit(startup_event()), ActionView::Connect(endpoint)]
}

/// What ends a connection: it is discarded, and the next attempt to connect
/// follows at once.
pub open spec fn reconnect(m: ManagerView) -> Seq<ActionView> {
    seq![ActionView::Disconnect, ActionView::Connect(m.endpoint)]
}

/// Bytes arrive on the open connection. Each line that they finish is
/// forwarded, and the read goes on. A line that is not UTF-8 ends the
/// connection as a failed read does; the lines before it are still forwarded.
pub open spec fn on_data(m: ManagerView, chunk: Seq<u8>) -> (ManagerView, Seq<ActionView>) {
    let bytes = m.buffer + chunk;
    let lines = complete_lines(bytes);
    if all_text(lines) {
        (ManagerView { buffer: unfinished(bytes), ..m }, emits(forwarded(lines)).push(ActionView::Read))
    } else {
        (m.enter(Phase::Connecting), emits(forwarded(lines)) + reconnect(m))
    }
}

/// The stream of the open connection ends. Bytes that still wait for a
/// newline are the last line and are forwarded.
pub open spec fn on_end(m: ManagerView) -> (ManagerView, Seq<ActionView>) {
    let last = if m.buffer.len() > 0 {
        seq![m.buffer]
    } else {
        Seq::empty()
    };
    (m.enter(Phase::Connecting), emits(forwarded(last)) + reconnect(m))
}

/// Whether `input` answers the request that is outstanding in `phase`, or
/// reports a failed delivery, which may happen in every phase but the last.
pub open spec fn expected(phase: Phase, input: InputView) -> bool {
    match input {
        InputView::Connected | InputView::ConnectFailed => phase is Connecting,
        InputView::DelayElapsed => phase is Waiting,
        InputView::Data(_) | InputView::EndOfStream | InputView::ReadFailed => phase is Open,
        InputView::DeliveryFailed => !(phase is Halted),
    }
}

/// The state that follows `m` on `input`, and the actions that are due, in
/// the order in which they are to be carried out.
///
/// An input that is not [`expected`] changes nothing and asks for nothing.
pub open spec fn step(m: ManagerView, input: InputView) -> (ManagerView, Seq<ActionView>) {
    if !expected(m.phase, input) {
        (m, Seq::empty())
    } else {
        match input {
            InputView::Connected => (m.enter(Phase::Open), seq![ActionView::Read]),
            InputView::ConnectFailed => (
                m.enter(Phase::Waiting),
                seq![ActionView::Wait(m.retry_delay_secs)],
            ),
            InputView::DelayElapsed => (
                m.enter(Phase::Connecting),
                seq![ActionView::Connect(m.endpoint)],
            ),
            InputView::Data(chunk) => on_data(m, chunk),
            InputView::EndOfStream => on_end(m),
            InputView::ReadFailed => (m.enter(Phase::Connecting), reconnect(m)),
            InputView::DeliveryFailed => (m.enter(Phase::Halted), seq![ActionView::Abort]),
        }
    }
}

/// The part of `batch` that is carried out when the sink refuses the event of
/// the action at `refused`: the actions before it. The refused event was not
/// delivered, and the actions behind it are dropped.
pub open spec fn carried_out(batch: Seq<ActionView>, refused: int) -> Seq<ActionView> {
    batch.take(refused)
}

/// What happens on `input` when the sink refuses the event of the action at
/// `refused` in the batch that is due: the state that follows once the failed
/// delivery has been reported, and all that is carried out, in order.
pub open spec fn refused_step(m: ManagerView, input: InputView, refused: int) -> (
    ManagerView,
    Seq<ActionView>,
) {
    let (next, batch) = step(m, input);
    let (last, rest) = step(next, InputView::DeliveryFailed);
    (last, carried_out(batch, refused) + rest)
}

/// The state after `inputs` have come in one after the other, and all the
/// actions that were due on the way, in order.
pub open spec fn run(m: ManagerView, inputs: Seq<InputView>) -> (ManagerView, Seq<ActionView>)
    decreases inputs.len(),
{
    if inputs.len() == 0 {
        (m, Seq::empty())
    } else {
        let (next, first) = step(m, inputs[0]);
        let (last, rest) = run(next, inputs.drop_first());
        (last, first + rest)
    }
}

} // verus!
