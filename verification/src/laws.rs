//! What holds of every run of the connection manager.

use crate::commands::ping_pong;
use crate::endpoint::EndpointView;
use crate::event::{
    lemma_event_names_differ, message_event, ping_event, startup_event, Event, EventView,
    FEED_EVENT, PING_EVENT,
};
use crate::framing::{
    complete_lines, lemma_lines_concat, lemma_newline_free, lemma_unfinished_newline_free,
    lemma_written_read_back, newline_free, strip_cr, stripped, unfinished, written,
};
use crate::model::{
    activated, activation, carried_out, emits, emitted, expected, reconnect, refused_step, run,
    step, ActionView, InputView, ManagerView, Phase,
};
use crate::text::{
    all_text, event_views, forwarded, leading_text, lemma_forwarded_all, lemma_forwarded_concat,
    lemma_leading_text, lemma_strip_cr_text,
};
use vstd::prelude::*;
use vstd::utf8::{decode_utf8, valid_utf8};

verus! {

/// The inputs that report `chunks` as read, one after the other.
pub open spec fn data(chunks: Seq<Seq<u8>>) -> Seq<InputView> {
    Seq::new(chunks.len(), |i: int| InputView::Data(chunks[i]))
}

/// The inputs of `count` attempts to connect that fail, each followed by the
/// end of the delay.
pub open spec fn failed_attempts(count: nat) -> Seq<InputView>
    decreases count,
{
    if count == 0 {
        Seq::empty()
    } else {
        seq![InputView::ConnectFailed, InputView::DelayElapsed] + failed_attempts(
            (count - 1) as nat,
        )
    }
}

/// What `count` failed attempts ask for: each time the fixed delay, then the
/// next attempt to connect.
pub open spec fn retries(m: ManagerView, count: nat) -> Seq<ActionView>
    decreases count,
{
    if count == 0 {
        Seq::empty()
    } else {
        seq![ActionView::Wait(m.retry_delay_secs), ActionView::Connect(m.endpoint)] + retries(
            m,
            (count - 1) as nat,
        )
    }
}

/// The events that `count` pings send, in order.
pub open spec fn pings(count: nat) -> Seq<EventView>
    decreases count,
{
    if count == 0 {
        Seq::empty()
    } else {
        pings((count - 1) as nat).push(ping_event())
    }
}

/// The events of two batches are the events of the first, then those of the second.
pub proof fn lemma_emitted_concat(first: Seq<ActionView>, second: Seq<ActionView>)
    ensures
        emitted(first + second) == emitted(first) + emitted(second),
    decreases second.len(),
{
    if second.len() == 0 {
        assert(first + second =~= first);
        assert(emitted(first) + emitted(second) =~= emitted(first));
    } else {
        assert((first + second).drop_last() =~= first + second.drop_last());
        lemma_emitted_concat(first, second.drop_last());
        match second.last() {
            ActionView::Emit(event) => {
                assert(emitted(first + second) =~= emitted(first) + emitted(second));
            },
            _ => {},
        }
    }
}

/// The actions that hand events to the sink hand over exactly those events.
pub proof fn lemma_emitted_emits(events: Seq<EventView>)
    ensures
        emitted(emits(events)) == events,
    decreases events.len(),
{
    if events.len() == 0 {
        assert(emitted(emits(events)) =~= events);
    } else {
        assert(emits(events).drop_last() =~= emits(events.drop_last()));
        lemma_emitted_emits(events.drop_last());
        assert(emitted(emits(events)) =~= events);
    }
}

/// A request to connect, to wait, to read, to disconnect or to abort hands
/// nothing to the sink.
pub proof fn lemma_emitted_requests(m: ManagerView)
    ensures
        emitted(seq![ActionView::Read]) == Seq::<EventView>::empty(),
        emitted(seq![ActionView::Abort]) == Seq::<EventView>::empty(),
        emitted(seq![ActionView::Wait(m.retry_delay_secs)]) == Seq::<EventView>::empty(),
        emitted(seq![ActionView::Connect(m.endpoint)]) == Seq::<EventView>::empty(),
        emitted(reconnect(m)) == Seq::<EventView>::empty(),
{
    reveal_with_fuel(emitted, 3);
    assert(seq![ActionView::Read].drop_last() =~= Seq::<ActionView>::empty());
    assert(seq![ActionView::Abort].drop_last() =~= Seq::<ActionView>::empty());
    assert(seq![ActionView::Wait(m.retry_delay_secs)].drop_last() =~= Seq::<ActionView>::empty());
    assert(seq![ActionView::Connect(m.endpoint)].drop_last() =~= Seq::<ActionView>::empty());
    assert(reconnect(m).drop_last() =~= seq![ActionView::Disconnect]);
    assert(seq![ActionView::Disconnect].drop_last() =~= Seq::<ActionView>::empty());
}

/// Running through `first + second` is running through `first` and, from
/// where that ends, through `second`.
pub proof fn law_run_concat(m: ManagerView, first: Seq<InputView>, second: Seq<InputView>)
    ensures
        run(m, first + second).0 == run(run(m, first).0, second).0,
        run(m, first + second).1 == run(m, first).1 + run(run(m, first).0, second).1,
    decreases first.len(),
{
    if first.len() == 0 {
        assert(first + second =~= second);
        assert(run(m, first).1 + run(m, second).1 =~= run(m, second).1);
    } else {
        let next = step(m, first[0]).0;
        assert((first + second).drop_first() =~= first.drop_first() + second);
        law_run_concat(next, first.drop_first(), second);
        assert(run(m, first + second).1 =~= run(m, first).1 + run(
            run(m, first).0,
            second,
        ).1);
    }
}

/// A well-formed state is followed by well-formed states only.
pub proof fn law_run_wf(m: ManagerView, inputs: Seq<InputView>)
    requires
        m.wf(),
    ensures
        run(m, inputs).0.wf(),
    decreases inputs.len(),
{
    if inputs.len() > 0 {
        if let InputView::Data(chunk) = inputs[0] {
            lemma_unfinished_newline_free(m.buffer + chunk);
        }
        law_run_wf(step(m, inputs[0]).0, inputs.drop_first());
    }
}

/// A halted manager stays halted and asks for nothing, whatever comes in.
pub proof fn law_halted_is_final(m: ManagerView, inputs: Seq<InputView>)
    requires
        m.phase is Halted,
    ensures
        run(m, inputs) == (m, Seq::<ActionView>::empty()),
    decreases inputs.len(),
{
    if inputs.len() > 0 {
        law_halted_is_final(m, inputs.drop_first());
        assert(Seq::<ActionView>::empty() + Seq::<ActionView>::empty() =~= Seq::<
            ActionView,
        >::empty());
    }
}

/// Only a failed delivery halts the manager: no failure to connect and no
/// failure to read does.
pub proof fn law_only_delivery_halts(m: ManagerView, input: InputView)
    ensures
        step(m, input).0.phase is Halted <==> m.phase is Halted || input is DeliveryFailed,
{
}

/// Unless it has halted, the manager answers every expected input with a
/// batch that ends in the one request that is then outstanding: to read while
/// the connection is open, to connect while it is not, to wait after a failed
/// attempt. Everything before that request is an event for the sink or the
/// order to discard the connection.
pub proof fn law_one_request_outstanding(m: ManagerView, input: InputView)
    requires
        expected(m.phase, input),
    ensures
        step(m, input).1.len() > 0,
        match (step(m, input).0.phase, step(m, input).1.last()) {
            (Phase::Open, ActionView::Read) => true,
            (Phase::Connecting, ActionView::Connect(endpoint)) => endpoint == m.endpoint,
            (Phase::Waiting, ActionView::Wait(seconds)) => seconds == m.retry_delay_secs,
            (Phase::Halted, ActionView::Abort) => true,
            _ => false,
        },
        forall|i: int|
            0 <= i < step(m, input).1.len() - 1 ==> (#[trigger] step(m, input).1[i] is Emit
                || step(m, input).1[i] is Disconnect),
{
}

/// Outside the open phase, bytes that are reported as read are ignored.
pub proof fn lemma_data_ignored(m: ManagerView, chunks: Seq<Seq<u8>>)
    requires
        !(m.phase is Open),
    ensures
        run(m, data(chunks)) == (m, Seq::<ActionView>::empty()),
    decreases chunks.len(),
{
    if chunks.len() > 0 {
        assert(data(chunks).drop_first() =~= data(chunks.drop_first()));
        lemma_data_ignored(m, chunks.drop_first());
        assert(Seq::<ActionView>::empty() + Seq::<ActionView>::empty() =~= Seq::<
            ActionView,
        >::empty());
    }
}

/// Lines are forwarded in the order in which they were read, one event for
/// each line, whatever the pieces in which the bytes arrive.
///
/// On an open connection that holds `m.buffer` unfinished, let the reads
/// return `chunks`, one after the other. Then the events that go to the sink
/// are those that forward the lines of all these bytes taken together, up to
/// the first line that is not UTF-8. If every line is UTF-8, there are as many
/// events as lines, the event at each place carries the text of the line at
/// that place without its terminator, the connection stays open, and the
/// bytes behind the last newline are kept.
pub proof fn law_forwarding_order(m: ManagerView, chunks: Seq<Seq<u8>>)
    requires
        m.wf(),
        m.phase is Open,
    ensures
        ({
            let lines = complete_lines(m.buffer + chunks.flatten());
            let (last, actions) = run(m, data(chunks));
            &&& emitted(actions) == forwarded(lines)
            &&& all_text(lines) ==> {
                &&& emitted(actions).len() == lines.len()
                &&& forall|i: int|
                    0 <= i < lines.len() ==> #[trigger] emitted(actions)[i] == message_event(
                        decode_utf8(lines[i]),
                    )
                &&& last == ManagerView { buffer: unfinished(m.buffer + chunks.flatten()), ..m }
            }
        }),
    decreases chunks.len(),
{
    let bytes = m.buffer + chunks.flatten();
    let lines = complete_lines(bytes);
    if chunks.len() == 0 {
        assert(chunks.flatten() =~= Seq::<u8>::empty());
        assert(bytes =~= m.buffer);
        lemma_newline_free(m.buffer);
        assert(emitted(run(m, data(chunks)).1) =~= forwarded(lines));
    } else {
        let first = chunks[0];
        let rest = chunks.drop_first();
        let head = m.buffer + first;
        let early = complete_lines(head);
        let (next, batch) = step(m, InputView::Data(first));
        let (last, later) = run(next, data(rest));
        assert(data(chunks).drop_first() =~= data(rest));
        assert(data(chunks)[0] == InputView::Data(first));
        assert(chunks.flatten() =~= first + rest.flatten());
        assert(bytes =~= head + rest.flatten());
        lemma_lines_concat(head, rest.flatten());
        let late = complete_lines(unfinished(head) + rest.flatten());
        assert(lines == early + late);
        lemma_forwarded_concat(early, late);
        lemma_emitted_concat(batch, later);
        lemma_emitted_emits(forwarded(early));
        lemma_emitted_requests(m);
        if all_text(early) {
            assert(batch == emits(forwarded(early)).push(ActionView::Read));
            assert(batch =~= emits(forwarded(early)) + seq![ActionView::Read]);
            lemma_emitted_concat(emits(forwarded(early)), seq![ActionView::Read]);
            assert(emitted(batch) =~= forwarded(early));
            lemma_unfinished_newline_free(head);
            law_forwarding_order(next, rest);
            assert(next.buffer == unfinished(head));
            assert(emitted(later) == forwarded(late));
            if all_text(lines) {
                assert(all_text(late)) by {
                    assert forall|i: int| 0 <= i < late.len() implies valid_utf8(
                        #[trigger] late[i],
                    ) by {
                        assert(lines[early.len() + i] == late[i]);
                    }
                }
                assert(unfinished(bytes) == unfinished(unfinished(head) + rest.flatten()));
            }
        } else {
            lemma_emitted_concat(emits(forwarded(early)), reconnect(m));
            assert(emitted(batch) =~= forwarded(early));
            lemma_data_ignored(next, rest);
            assert(emitted(later) =~= Seq::<EventView>::empty());
            assert(!all_text(lines)) by {
                if all_text(lines) {
                    assert forall|i: int| 0 <= i < early.len() implies valid_utf8(
                        #[trigger] early[i],
                    ) by {
                        assert(lines[i] == early[i]);
                    }
                }
            }
        }
        assert(emitted(run(m, data(chunks)).1) =~= forwarded(lines));
        if all_text(lines) {
            lemma_forwarded_all(lines);
        }
    }
}

/// Every line that the remote source writes on a connection reaches the sink,
/// once and in order.
///
/// On a connection that has just been opened, let the remote source write
/// `lines`, each a text without a newline in it and followed by a newline, and
/// let the reads return these bytes in the pieces `chunks`, however they are
/// cut. Then the sink gets as many events as lines were written, in the same
/// order, and the payload of each is the text of its line without the
/// terminator.
pub proof fn law_written_lines_arrive(
    m: ManagerView,
    lines: Seq<Seq<u8>>,
    chunks: Seq<Seq<u8>>,
)
    requires
        m.phase is Open,
        m.buffer.len() == 0,
        forall|i: int| 0 <= i < lines.len() ==> newline_free(#[trigger] lines[i]),
        forall|i: int| 0 <= i < lines.len() ==> valid_utf8(#[trigger] lines[i]),
        chunks.flatten() == written(lines),
    ensures
        emitted(run(m, data(chunks)).1).len() == lines.len(),
        forall|i: int|
            0 <= i < lines.len() ==> #[trigger] emitted(run(m, data(chunks)).1)[i]
                == message_event(decode_utf8(strip_cr(lines[i]))),
        run(m, data(chunks)).0 == m,
{
    lemma_written_read_back(lines);
    assert(m.buffer + chunks.flatten() =~= written(lines));
    assert(all_text(stripped(lines))) by {
        assert forall|i: int| 0 <= i < lines.len() implies valid_utf8(
            #[trigger] stripped(lines)[i],
        ) by {
            assert(valid_utf8(lines[i]));
            lemma_strip_cr_text(lines[i]);
        }
    }
    law_forwarding_order(m, chunks);
    assert(run(m, data(chunks)).0 =~= m);
}

/// While the remote source cannot be reached, the manager tries again and
/// again, with exactly the fixed delay before each new attempt, and never
/// gives up: after any number of failed attempts it is where it was, with the
/// next attempt under way.
pub proof fn law_retry_forever(m: ManagerView, count: nat)
    requires
        m.wf(),
        m.phase is Connecting,
    ensures
        run(m, failed_attempts(count)) == (m, retries(m, count)),
        retries(m, count).len() == 2 * count,
        forall|k: int|
            0 <= k < count ==> #[trigger] retries(m, count)[2 * k] == ActionView::Wait(
                m.retry_delay_secs,
            ) && retries(m, count)[2 * k + 1] == ActionView::Connect(m.endpoint),
    decreases count,
{
    if count > 0 {
        let inputs = failed_attempts(count);
        let rest = failed_attempts((count - 1) as nat);
        let waiting = step(m, InputView::ConnectFailed).0;
        let again = step(waiting, InputView::DelayElapsed).0;
        assert(again =~= m);
        law_retry_forever(m, (count - 1) as nat);
        assert(inputs.drop_first() =~= seq![InputView::DelayElapsed] + rest);
        assert(inputs.drop_first().drop_first() =~= rest);
        assert(run(m, inputs).1 =~= retries(m, count)) by {
            reveal_with_fuel(run, 3);
        }
        assert(run(m, inputs).0 == m) by {
            reveal_with_fuel(run, 3);
        }
        assert forall|k: int| 0 <= k < count implies #[trigger] retries(m, count)[2 * k]
            == ActionView::Wait(m.retry_delay_secs) && retries(m, count)[2 * k + 1]
            == ActionView::Connect(m.endpoint) by {
            if k > 0 {
                assert(retries(m, count)[2 * k] == retries(m, (count - 1) as nat)[2 * (k - 1)]);
                assert(retries(m, count)[2 * k + 1] == retries(m, (count - 1) as nat)[2 * (k - 1)
                    + 1]);
            }
        }
    }
}

/// After a connection is lost, forwarding starts afresh: what the old
/// connection delivered is not sent again.
///
/// Let the open connection end with `end`, the end of the stream or a failed
/// read. The manager discards it and tries to connect at once, without a
/// delay. Let `failures` attempts fail before one succeeds, and let the reads
/// on the new connection return `chunks`. Then the events sent from the loss
/// on are those of the last bytes of the old connection, if its stream ended
/// with an unfinished line, followed by those that forward the lines of
/// `chunks`: every line that arrives on the new connection, and nothing else.
pub proof fn law_resumption(m: ManagerView, end: InputView, failures: nat, chunks: Seq<Seq<u8>>)
    requires
        m.wf(),
        m.phase is Open,
        end is EndOfStream || end is ReadFailed,
    ensures
        ({
            let (lost, batch) = step(m, end);
            let (last, later) = run(
                lost,
                failed_attempts(failures) + seq![InputView::Connected] + data(chunks),
            );
            &&& lost == m.enter(Phase::Connecting)
            &&& batch.len() >= 2
            &&& batch[batch.len() - 2] == ActionView::Disconnect
            &&& batch.last() == ActionView::Connect(m.endpoint)
            &&& end is ReadFailed ==> emitted(batch) == Seq::<EventView>::empty()
            &&& end is EndOfStream ==> emitted(batch) == forwarded(
                if m.buffer.len() > 0 {
                    seq![m.buffer]
                } else {
                    Seq::empty()
                },
            )
            &&& emitted(later) == forwarded(complete_lines(chunks.flatten()))
        }),
{
    let (lost, batch) = step(m, end);
    let last_line = if m.buffer.len() > 0 {
        seq![m.buffer]
    } else {
        Seq::empty()
    };
    lemma_emitted_requests(m);
    if end is EndOfStream {
        lemma_emitted_concat(emits(forwarded(last_line)), reconnect(m));
        lemma_emitted_emits(forwarded(last_line));
        assert(emitted(batch) =~= forwarded(last_line));
    }
    let opened = lost.enter(Phase::Open);
    let inputs = failed_attempts(failures) + seq![InputView::Connected] + data(chunks);
    law_retry_forever(lost, failures);
    assert(inputs =~= failed_attempts(failures) + (seq![InputView::Connected] + data(chunks)));
    law_run_concat(lost, failed_attempts(failures), seq![InputView::Connected] + data(chunks));
    law_run_concat(lost, seq![InputView::Connected], data(chunks));
    assert(run(lost, seq![InputView::Connected]) == (opened, seq![ActionView::Read])) by {
        reveal_with_fuel(run, 2);
        assert(seq![InputView::Connected].drop_first() =~= Seq::<InputView>::empty());
        assert(seq![ActionView::Read] + Seq::<ActionView>::empty() =~= seq![ActionView::Read]);
    }
    law_forwarding_order(opened, chunks);
    assert(opened.buffer + chunks.flatten() =~= chunks.flatten());
    let later = run(lost, inputs).1;
    lemma_retries_emit_nothing(lost, failures);
    lemma_emitted_concat(
        retries(lost, failures),
        run(lost, seq![InputView::Connected] + data(chunks)).1,
    );
    lemma_emitted_concat(seq![ActionView::Read], run(opened, data(chunks)).1);
    assert(emitted(later) =~= forwarded(complete_lines(chunks.flatten())));
}

/// The waits and attempts of a row of failures hand nothing to the sink.
pub proof fn lemma_retries_emit_nothing(m: ManagerView, count: nat)
    ensures
        emitted(retries(m, count)) == Seq::<EventView>::empty(),
    decreases count,
{
    if count > 0 {
        let pair = seq![ActionView::Wait(m.retry_delay_secs), ActionView::Connect(m.endpoint)];
        lemma_retries_emit_nothing(m, (count - 1) as nat);
        lemma_emitted_concat(pair, retries(m, (count - 1) as nat));
        lemma_emitted_requests(m);
        lemma_emitted_concat(
            seq![ActionView::Wait(m.retry_delay_secs)],
            seq![ActionView::Connect(m.endpoint)],
        );
        assert(pair =~= seq![ActionView::Wait(m.retry_delay_secs)] + seq![
            ActionView::Connect(m.endpoint),
        ]);
    }
}

/// How many orders to discard the connection `actions` holds.
pub open spec fn disconnects(actions: Seq<ActionView>) -> nat
    decreases actions.len(),
{
    if actions.len() == 0 {
        0
    } else {
        disconnects(actions.drop_last()) + if actions.last() is Disconnect {
            1nat
        } else {
            0nat
        }
    }
}

/// The number of open connections after `inputs`, when there were `before`
/// of them: an attempt that the manager had asked for and that succeeded adds
/// one, and every order to discard the connection takes one away.
pub open spec fn connections(before: int, m: ManagerView, inputs: Seq<InputView>) -> int
    decreases inputs.len(),
{
    if inputs.len() == 0 {
        before
    } else {
        let (next, batch) = step(m, inputs[0]);
        let opened: int = if m.phase is Connecting && inputs[0] is Connected {
            1
        } else {
            0
        };
        connections(before + opened - disconnects(batch), next, inputs.drop_first())
    }
}

/// Whether `count` open connections fit a manager in `phase`: one while the
/// connection is open, none while the manager connects or waits, and at most
/// the one that a halted manager was stopped on.
pub open spec fn connections_fit(phase: Phase, count: int) -> bool {
    match phase {
        Phase::Open => count == 1,
        Phase::Connecting | Phase::Waiting => count == 0,
        Phase::Halted => 0 <= count <= 1,
    }
}

/// An order to discard the connection is given exactly when an open
/// connection is left for a new attempt, and then once.
pub proof fn lemma_disconnects(m: ManagerView, input: InputView)
    ensures
        disconnects(step(m, input).1) == if m.phase is Open && step(m, input).0.phase
            is Connecting {
            1nat
        } else {
            0nat
        },
{
    let batch = step(m, input).1;
    reveal_with_fuel(disconnects, 3);
    if !expected(m.phase, input) {
    } else {
        match input {
            InputView::Data(chunk) => {
                let events = forwarded(complete_lines(m.buffer + chunk));
                lemma_emits_disconnect_nothing(events);
                if all_text(complete_lines(m.buffer + chunk)) {
                    assert(batch.drop_last() =~= emits(events));
                } else {
                    assert(batch.drop_last().drop_last() =~= emits(events));
                }
            },
            InputView::EndOfStream => {
                let events = forwarded(
                    if m.buffer.len() > 0 {
                        seq![m.buffer]
                    } else {
                        Seq::empty()
                    },
                );
                lemma_emits_disconnect_nothing(events);
                assert(batch.drop_last().drop_last() =~= emits(events));
            },
            InputView::ReadFailed => {
                assert(batch.drop_last().drop_last() =~= Seq::<ActionView>::empty());
            },
            _ => {
                assert(batch.drop_last() =~= Seq::<ActionView>::empty());
            },
        }
    }
}

/// Handing events to the sink discards no connection.
pub proof fn lemma_emits_disconnect_nothing(events: Seq<EventView>)
    ensures
        disconnects(emits(events)) == 0,
    decreases events.len(),
{
    if events.len() > 0 {
        assert(emits(events).drop_last() =~= emits(events.drop_last()));
        lemma_emits_disconnect_nothing(events.drop_last());
    }
}

/// At most one connection is open at any time: it is open exactly while the
/// manager reads, and before each new attempt the old connection has been
/// discarded.
pub proof fn law_single_connection(before: int, m: ManagerView, inputs: Seq<InputView>)
    requires
        connections_fit(m.phase, before),
    ensures
        connections_fit(run(m, inputs).0.phase, connections(before, m, inputs)),
        0 <= connections(before, m, inputs) <= 1,
    decreases inputs.len(),
{
    if inputs.len() > 0 {
        let (next, batch) = step(m, inputs[0]);
        let opened: int = if m.phase is Connecting && inputs[0] is Connected {
            1
        } else {
            0
        };
        lemma_disconnects(m, inputs[0]);
        law_single_connection(before + opened - disconnects(batch), next, inputs.drop_first());
    }
}

/// Whether `event` forwards a line: it goes out under the feed name, and its
/// payload is the text of some line.
pub open spec fn forwards_a_line(event: EventView) -> bool {
    exists|line: Seq<u8>| valid_utf8(line) && event == message_event(decode_utf8(line))
}

/// Every event that forwards lines forwards a line.
pub proof fn lemma_forwarded_lines_only(lines: Seq<Seq<u8>>)
    ensures
        forall|i: int|
            0 <= i < forwarded(lines).len() ==> forwards_a_line(#[trigger] forwarded(lines)[i]),
{
    lemma_leading_text(lines);
    assert forall|i: int| 0 <= i < forwarded(lines).len() implies forwards_a_line(
        #[trigger] forwarded(lines)[i],
    ) by {
        assert(lines.take(leading_text(lines) as int)[i] == lines[i]);
        assert(valid_utf8(lines[i]));
    }
}

/// The events that one step hands to the sink: the lines that the bytes just
/// read have finished, or the last line of a stream that ended, and nothing
/// on any other input.
pub proof fn law_step_emits_lines_only(m: ManagerView, input: InputView)
    ensures
        emitted(step(m, input).1) == if m.phase is Open && input is Data {
            forwarded(complete_lines(m.buffer + input->Data_0))
        } else if m.phase is Open && input is EndOfStream && m.buffer.len() > 0 {
            forwarded(seq![m.buffer])
        } else {
            Seq::<EventView>::empty()
        },
        forall|i: int|
            0 <= i < emitted(step(m, input).1).len() ==> forwards_a_line(
                #[trigger] emitted(step(m, input).1)[i],
            ),
{
    lemma_emitted_requests(m);
    if !expected(m.phase, input) {
    } else {
        match input {
            InputView::Data(chunk) => {
                let events = forwarded(complete_lines(m.buffer + chunk));
                lemma_emitted_emits(events);
                lemma_emitted_concat(emits(events), seq![ActionView::Read]);
                lemma_emitted_concat(emits(events), reconnect(m));
                assert(emits(events).push(ActionView::Read) =~= emits(events) + seq![
                    ActionView::Read,
                ]);
                assert(emitted(step(m, input).1) =~= events);
                lemma_forwarded_lines_only(complete_lines(m.buffer + chunk));
            },
            InputView::EndOfStream => {
                let last = if m.buffer.len() > 0 {
                    seq![m.buffer]
                } else {
                    Seq::empty()
                };
                lemma_emitted_emits(forwarded(last));
                lemma_emitted_concat(emits(forwarded(last)), reconnect(m));
                lemma_leading_text(last);
                assert(emitted(step(m, input).1) =~= forwarded(last));
                lemma_forwarded_lines_only(last);
            },
            _ => {},
        }
    }
}

/// The feed name carries forwarded lines and nothing else. The one event of
/// activation is the startup event, which goes out under a name of its own;
/// whatever comes in afterwards, every event that the manager hands to the
/// sink forwards a line.
pub proof fn law_feed_carries_lines_only(
    endpoint: EndpointView,
    retry_delay_secs: u64,
    inputs: Seq<InputView>,
)
    ensures
        emitted(activation(endpoint)) == seq![startup_event()],
        startup_event().name != FEED_EVENT@,
        startup_event().name != PING_EVENT@,
        forall|i: int|
            0 <= i < emitted(run(activated(endpoint, retry_delay_secs), inputs).1).len()
                ==> forwards_a_line(
                #[trigger] emitted(run(activated(endpoint, retry_delay_secs), inputs).1)[i],
            ),
{
    lemma_event_names_differ();
    assert(emitted(activation(endpoint)) =~= seq![startup_event()]) by {
        reveal_with_fuel(emitted, 3);
        assert(activation(endpoint).drop_last() =~= seq![ActionView::Emit(startup_event())]);
        assert(seq![ActionView::Emit(startup_event())].drop_last() =~= Seq::<
            ActionView,
        >::empty());
    }
    lemma_run_emits_lines_only(activated(endpoint, retry_delay_secs), inputs);
}

/// Whatever comes in, every event that the manager hands to the sink forwards
/// a line.
pub proof fn lemma_run_emits_lines_only(m: ManagerView, inputs: Seq<InputView>)
    ensures
        forall|i: int|
            0 <= i < emitted(run(m, inputs).1).len() ==> forwards_a_line(
                #[trigger] emitted(run(m, inputs).1)[i],
            ),
    decreases inputs.len(),
{
    if inputs.len() > 0 {
        let (next, first) = step(m, inputs[0]);
        let rest = run(next, inputs.drop_first()).1;
        law_step_emits_lines_only(m, inputs[0]);
        lemma_run_emits_lines_only(next, inputs.drop_first());
        lemma_emitted_concat(first, rest);
        assert forall|i: int| 0 <= i < emitted(first + rest).len() implies forwards_a_line(
            #[trigger] emitted(first + rest)[i],
        ) by {
            if i < emitted(first).len() {
                assert(emitted(first + rest)[i] == emitted(first)[i]);
            } else {
                assert(emitted(first + rest)[i] == emitted(rest)[i - emitted(first).len()]);
            }
        }
    }
}

/// An event that the sink refuses cancels the rest of its batch and halts the
/// manager.
///
/// Let the sink refuse the event of the action at `refused` in the batch that
/// is due on `input`. What is carried out of that batch are the actions
/// before the refused one, all of them events that were delivered: no
/// request to connect, to read or to wait is among them, and nothing behind
/// the refused event. The report of the failed delivery then asks for the
/// abort only and leaves the manager halted for good.
pub proof fn law_refusal_cancels_batch(m: ManagerView, input: InputView, refused: int)
    requires
        expected(m.phase, input),
        0 <= refused < step(m, input).1.len(),
        step(m, input).1[refused] is Emit,
    ensures
        ({
            let batch = step(m, input).1;
            let done = carried_out(batch, refused);
            let (last, all) = refused_step(m, input, refused);
            &&& done.len() == refused
            &&& forall|i: int| 0 <= i < refused ==> #[trigger] done[i] == batch[i] && done[i] is Emit
            &&& all == done.push(ActionView::Abort)
            &&& last.phase is Halted
            &&& forall|later: Seq<InputView>| #[trigger]
                run(last, later) == (last, Seq::<ActionView>::empty())
        }),
{
    let (next, batch) = step(m, input);
    let done = carried_out(batch, refused);
    let (last, all) = refused_step(m, input, refused);
    law_one_request_outstanding(m, input);
    assert(!(batch.last() is Emit));
    assert(refused < batch.len() - 1);
    assert forall|i: int| 0 <= i < refused implies #[trigger] done[i] == batch[i]
        && done[i] is Emit by {
        // Everything before the request at the end is an event or the order
        // to disconnect, and that order comes behind all events.
        lemma_events_come_first(m, input, i, refused);
    }
    assert(!(next.phase is Halted));
    assert(all =~= done.push(ActionView::Abort));
    assert forall|later: Seq<InputView>| #[trigger]
        run(last, later) == (last, Seq::<ActionView>::empty()) by {
        law_halted_is_final(last, later);
    }
}

/// In a batch, nothing but events stands before an event.
pub proof fn lemma_events_come_first(m: ManagerView, input: InputView, early: int, late: int)
    requires
        0 <= early <= late < step(m, input).1.len(),
        step(m, input).1[late] is Emit,
    ensures
        step(m, input).1[early] is Emit,
{
    if !expected(m.phase, input) {
    } else {
        match input {
            InputView::Data(chunk) => {
                let events = forwarded(complete_lines(m.buffer + chunk));
                if late < events.len() {
                    assert(step(m, input).1[early] == emits(events)[early]);
                }
            },
            InputView::EndOfStream => {
                let events = forwarded(
                    if m.buffer.len() > 0 {
                        seq![m.buffer]
                    } else {
                        Seq::empty()
                    },
                );
                if late < events.len() {
                    assert(step(m, input).1[early] == emits(events)[early]);
                }
            },
            _ => {},
        }
    }
}

/// A refused startup event cancels the activation: no attempt to connect is
/// made, and the manager halts.
pub proof fn law_refused_startup(endpoint: EndpointView, retry_delay_secs: u64)
    ensures
        carried_out(activation(endpoint), 0) == Seq::<ActionView>::empty(),
        step(activated(endpoint, retry_delay_secs), InputView::DeliveryFailed) == (
            activated(endpoint, retry_delay_secs).enter(Phase::Halted),
            seq![ActionView::Abort],
        ),
{
    assert(carried_out(activation(endpoint), 0) =~= Seq::<ActionView>::empty());
}

/// Every ping sends the ping event, once: however many times the ping
/// command is called, each call returns the ping event, so `events.len()`
/// calls send it that many times. The command takes no state, so nothing
/// that a listener does changes what it sends.
pub proof fn law_ping(events: Seq<Event>)
    requires
        forall|i: int|
            0 <= i < events.len() ==> call_ensures(ping_pong, (), #[trigger] events[i]),
    ensures
        event_views(events) == pings(events.len()),
        forall|i: int| 0 <= i < events.len() ==> (#[trigger] events[i])@ == ping_event(),
    decreases events.len(),
{
    if events.len() > 0 {
        let rest = events.drop_last();
        assert forall|i: int| 0 <= i < rest.len() implies call_ensures(
            ping_pong,
            (),
            #[trigger] rest[i],
        ) by {
            assert(rest[i] == events[i]);
        }
        law_ping(rest);
        assert(call_ensures(ping_pong, (), events[events.len() - 1]));
        assert(event_views(events) =~= event_views(rest).push(ping_event()));
        assert forall|i: int| 0 <= i < events.len() implies (#[trigger] events[i])@
            == ping_event() by {
            assert(call_ensures(ping_pong, (), events[i]));
        }
    } else {
        assert(event_views(events) =~= pings(0));
    }
}

} // verus!
