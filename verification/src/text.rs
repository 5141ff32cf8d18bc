//! Turning lines into events.
//!
//! A line is forwarded as text. A line that is not UTF-8 cannot be read as
//! text: it counts as a read error, and nothing behind it is forwarded.

use crate::event::{message_event, Event, EventView};
use crate::framing::{contents, strip_cr, CARRIAGE_RETURN};
use vstd::prelude::*;
use vstd::utf8::{
    decode_utf8, encode_utf8, encode_utf8_decode_utf8, is_char_boundary_iff_not_is_continuation_byte,
    valid_utf8, valid_utf8_split,
};

verus! {

/// The number of lines at the start of `lines` that are UTF-8, up to the first
/// one that is not.
pub open spec fn leading_text(lines: Seq<Seq<u8>>) -> nat
    decreases lines.len(),
{
    if lines.len() == 0 || !valid_utf8(lines[0]) {
        0
    } else {
        1 + leading_text(lines.drop_first())
    }
}

/// Whether every line of `lines` is UTF-8.
pub open spec fn all_text(lines: Seq<Seq<u8>>) -> bool {
    forall|i: int| 0 <= i < lines.len() ==> valid_utf8(#[trigger] lines[i])
}

/// The events that forward `lines`: one for each line, in the same order, with
/// the line's text as its payload, up to the first line that is not UTF-8.
pub open spec fn forwarded(lines: Seq<Seq<u8>>) -> Seq<EventView> {
    Seq::new(leading_text(lines), |i: int| message_event(decode_utf8(lines[i])))
}

/// What the events of `events` hold, in the same order.
pub open spec fn event_views(events: Seq<Event>) -> Seq<EventView> {
    Seq::new(events.len(), |i: int| events[i]@)
}

/// `leading_text` stops at the first line that is not UTF-8, and only there.
pub proof fn lemma_leading_text(lines: Seq<Seq<u8>>)
    ensures
        leading_text(lines) <= lines.len(),
        all_text(lines.take(leading_text(lines) as int)),
        leading_text(lines) < lines.len() ==> !valid_utf8(lines[leading_text(lines) as int]),
        leading_text(lines) == lines.len() <==> all_text(lines),
    decreases lines.len(),
{
    if lines.len() == 0 || !valid_utf8(lines[0]) {
    } else {
        let rest = lines.drop_first();
        lemma_leading_text(rest);
        let n = leading_text(lines) as int;
        assert forall|i: int| 0 <= i < n implies valid_utf8(#[trigger] lines.take(n)[i]) by {
            if i > 0 {
                assert(rest.take(n - 1)[i - 1] == lines[i]);
            }
        }
        if all_text(lines) {
            assert forall|i: int| 0 <= i < rest.len() implies valid_utf8(#[trigger] rest[i]) by {
                assert(rest[i] == lines[i + 1]);
            }
        }
        if all_text(rest) {
            assert forall|i: int| 0 <= i < lines.len() implies valid_utf8(#[trigger] lines[i]) by {
                if i > 0 {
                    assert(rest[i - 1] == lines[i]);
                }
            }
        }
    }
}

/// How far the text reaches in `head + tail`: through all of `head` and into
/// `tail` if every line of `head` is UTF-8, otherwise as far as in `head`.
pub proof fn lemma_leading_text_concat(head: Seq<Seq<u8>>, tail: Seq<Seq<u8>>)
    ensures
        leading_text(head + tail) == if all_text(head) {
            head.len() + leading_text(tail)
        } else {
            leading_text(head)
        },
    decreases head.len(),
{
    lemma_leading_text(head);
    if head.len() == 0 {
        assert(head + tail =~= tail);
    } else if !valid_utf8(head[0]) {
    } else {
        assert((head + tail).drop_first() =~= head.drop_first() + tail);
        lemma_leading_text(head.drop_first());
        lemma_leading_text_concat(head.drop_first(), tail);
    }
}

/// Forwarding `head + tail` forwards `head` and then `tail`, unless a line of
/// `head` is not UTF-8: then forwarding ends inside `head`.
pub proof fn lemma_forwarded_concat(head: Seq<Seq<u8>>, tail: Seq<Seq<u8>>)
    ensures
        forwarded(head + tail) == if all_text(head) {
            forwarded(head) + forwarded(tail)
        } else {
            forwarded(head)
        },
{
    lemma_leading_text(head);
    lemma_leading_text(tail);
    lemma_leading_text_concat(head, tail);
    if all_text(head) {
        assert(forwarded(head + tail) =~= forwarded(head) + forwarded(tail));
    } else {
        assert(forwarded(head + tail) =~= forwarded(head));
    }
}

/// When every line is UTF-8, each line is forwarded: there are as many events
/// as lines, and the event at each place carries the text of the line there.
pub proof fn lemma_forwarded_all(lines: Seq<Seq<u8>>)
    requires
        all_text(lines),
    ensures
        forwarded(lines).len() == lines.len(),
        forall|i: int|
            0 <= i < lines.len() ==> #[trigger] forwarded(lines)[i] == message_event(
                decode_utf8(lines[i]),
            ),
{
    lemma_leading_text(lines);
}

/// A line that is UTF-8 stays UTF-8 when the carriage return at its end is
/// taken away.
pub proof fn lemma_strip_cr_text(line: Seq<u8>)
    requires
        valid_utf8(line),
    ensures
        valid_utf8(strip_cr(line)),
{
    if line.len() > 0 && line.last() == CARRIAGE_RETURN {
        let cut = line.len() - 1;
        is_char_boundary_iff_not_is_continuation_byte(line, cut);
        valid_utf8_split(line, cut);
        assert(line.subrange(0, cut) =~= line.drop_last());
    }
}

/// Calls `String::from_utf8` of the standard library on a copy of `bytes`.
///
/// The standard library returns a string exactly when the bytes are UTF-8,
/// and the string then consists of those very bytes.
#[verifier::external_body]
fn string_from_utf8(bytes: &[u8]) -> (text: Option<String>)
    ensures
        text is Some <==> valid_utf8(bytes@),
        text matches Some(s) ==> encode_utf8(s@) == bytes@,
{
    String::from_utf8(bytes.to_vec()).ok()
}

/// Reads `line` as text: the string that `line` encodes, or nothing if `line`
/// is not UTF-8.
pub fn decode_line(line: &[u8]) -> (text: Option<String>)
    ensures
        match text {
            Some(s) => valid_utf8(line@) && s@ == decode_utf8(line@),
            None => !valid_utf8(line@),
        },
{
    let text = string_from_utf8(line);
    proof {
        if text is Some {
            encode_utf8_decode_utf8(text->0@);
        }
    }
    text
}

/// Makes the events that forward `lines`, and says whether every line was
/// UTF-8. Forwarding ends before the first line that is not.
pub fn forward_lines(lines: &Vec<Vec<u8>>) -> (result: (Vec<Event>, bool))
    ensures
        event_views(result.0@) == forwarded(contents(lines@)),
        result.1 == all_text(contents(lines@)),
{
    let ghost all = contents(lines@);
    let mut events: Vec<Event> = Vec::new();
    let mut i: usize = 0;
    proof {
        assert(all.take(0) =~= Seq::<Seq<u8>>::empty());
        assert(event_views(events@) =~= forwarded(all.take(0)));
    }
    while i < lines.len()
        invariant
            i <= lines.len(),
            all == contents(lines@),
            all_text(all.take(i as int)),
            event_views(events@) == forwarded(all.take(i as int)),
        decreases lines.len() - i,
    {
        let ghost before = event_views(events@);
        let ghost head = all.take(i as int);
        let ghost line = all[i as int];
        proof {
            assert(all.take(i as int + 1) =~= head + seq![line]);
            lemma_forwarded_concat(head, seq![line]);
            lemma_leading_text(seq![line]);
            assert(seq![line].drop_first() =~= Seq::<Seq<u8>>::empty());
        }
        match decode_line(lines[i].as_slice()) {
            Some(payload) => {
                let event = Event::message(payload);
                events.push(event);
                proof {
                    assert(forwarded(seq![line]) =~= seq![message_event(decode_utf8(line))]);
                    assert(event_views(events@) =~= before + seq![event@]);
                    assert forall|k: int| 0 <= k < i + 1 implies valid_utf8(
                        #[trigger] all.take(i as int + 1)[k],
                    ) by {
                        if k < i {
                            assert(head[k] == all[k]);
                        }
                    }
                }
            },
            None => {
                proof {
                    assert(forwarded(seq![line]) =~= Seq::<EventView>::empty());
                    assert(all =~= all.take(i as int + 1) + all.skip(i as int + 1));
                    assert(!valid_utf8(all.take(i as int + 1)[i as int]));
                    lemma_forwarded_concat(all.take(i as int + 1), all.skip(i as int + 1));
                    assert(forwarded(head) + forwarded(seq![line]) =~= forwarded(head));
                    assert(!valid_utf8(all[i as int]));
                }
                return (events, false);
            },
        }
        i += 1;
    }
    proof {
        assert(all.take(i as int) =~= all);
    }
    (events, true)
}

} // verus!
