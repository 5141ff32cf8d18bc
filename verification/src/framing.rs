//! Cutting a byte stream into lines.
//!
//! A line ends at a newline byte; a carriage return directly before that
//! newline belongs to the terminator. Bytes after the last newline form an
//! unfinished line that waits for more input.

use vstd::prelude::*;

verus! {

/// The byte that ends a line.
pub const NEWLINE: u8 = 10;

/// The byte that may precede the newline as part of the terminator.
pub const CARRIAGE_RETURN: u8 = 13;

/// The number of bytes before the first newline of `bytes`, or the length of
/// `bytes` when it holds no newline.
pub open spec fn line_end(bytes: Seq<u8>) -> nat
    decreases bytes.len(),
{
    if bytes.len() == 0 || bytes[0] == NEWLINE {
        0
    } else {
        1 + line_end(bytes.drop_first())
    }
}

/// Whether `bytes` holds no newline at all.
pub open spec fn newline_free(bytes: Seq<u8>) -> bool {
    forall|i: int| 0 <= i < bytes.len() ==> bytes[i] != NEWLINE
}

/// A line without the carriage return that preceded its newline, if there was one.
pub open spec fn strip_cr(line: Seq<u8>) -> Seq<u8> {
    if line.len() > 0 && line.last() == CARRIAGE_RETURN {
        line.drop_last()
    } else {
        line
    }
}

/// The finished lines of `bytes`, in stream order, each without its terminator.
pub open spec fn complete_lines(bytes: Seq<u8>) -> Seq<Seq<u8>>
    decreases bytes.len(),
{
    let n = line_end(bytes) as int;
    if n >= bytes.len() {
        Seq::empty()
    } else {
        seq![strip_cr(bytes.take(n))] + complete_lines(bytes.skip(n + 1))
    }
}

/// The bytes after the last newline of `bytes`: the line that is not finished yet.
pub open spec fn unfinished(bytes: Seq<u8>) -> Seq<u8>
    decreases bytes.len(),
{
    let n = line_end(bytes) as int;
    if n >= bytes.len() {
        bytes
    } else {
        unfinished(bytes.skip(n + 1))
    }
}

/// `line_end` points at the first newline: nothing before it is a newline, and
/// it stops short of the end only at a newline.
pub proof fn lemma_line_end(bytes: Seq<u8>)
    ensures
        line_end(bytes) <= bytes.len(),
        newline_free(bytes.take(line_end(bytes) as int)),
        line_end(bytes) < bytes.len() ==> bytes[line_end(bytes) as int] == NEWLINE,
        line_end(bytes) == bytes.len() <==> newline_free(bytes),
    decreases bytes.len(),
{
    if bytes.len() == 0 || bytes[0] == NEWLINE {
    } else {
        let rest = bytes.drop_first();
        lemma_line_end(rest);
        let n = line_end(bytes) as int;
        assert forall|i: int| 0 <= i < n implies bytes.take(n)[i] != NEWLINE by {
            if i > 0 {
                assert(rest.take(n - 1)[i - 1] == bytes[i]);
            }
        }
        if newline_free(bytes) {
            assert forall|i: int| 0 <= i < rest.len() implies rest[i] != NEWLINE by {
                assert(rest[i] == bytes[i + 1]);
            }
        }
        if newline_free(rest) {
            assert forall|i: int| 0 <= i < bytes.len() implies bytes[i] != NEWLINE by {
                if i > 0 {
                    assert(rest[i - 1] == bytes[i]);
                }
            }
        }
    }
}

/// Where the first newline of `head + tail` lies: inside `head` if `head` has
/// one, otherwise as far behind `head` as it lies in `tail`.
pub proof fn lemma_line_end_concat(head: Seq<u8>, tail: Seq<u8>)
    ensures
        line_end(head + tail) == if line_end(head) < head.len() {
            line_end(head)
        } else {
            head.len() + line_end(tail)
        },
    decreases head.len(),
{
    if head.len() == 0 {
        assert(head + tail =~= tail);
    } else if head[0] == NEWLINE {
    } else {
        assert((head + tail).drop_first() =~= head.drop_first() + tail);
        lemma_line_end_concat(head.drop_first(), tail);
    }
}

/// The unfinished line holds no newline.
pub proof fn lemma_unfinished_newline_free(bytes: Seq<u8>)
    ensures
        newline_free(unfinished(bytes)),
        unfinished(bytes).len() <= bytes.len(),
    decreases bytes.len(),
{
    lemma_line_end(bytes);
    let n = line_end(bytes) as int;
    if n < bytes.len() {
        lemma_unfinished_newline_free(bytes.skip(n + 1));
    }
}

/// Bytes without a newline hold no finished line and are their own unfinished line.
pub proof fn lemma_newline_free(bytes: Seq<u8>)
    requires
        newline_free(bytes),
    ensures
        complete_lines(bytes) == Seq::<Seq<u8>>::empty(),
        unfinished(bytes) == bytes,
{
    lemma_line_end(bytes);
}

/// How a stream is cut does not matter: the lines of `head + tail` are the
/// lines of `head`, followed by the lines of what `head` left unfinished
/// together with `tail`; and the same bytes stay unfinished.
pub proof fn lemma_lines_concat(head: Seq<u8>, tail: Seq<u8>)
    ensures
        complete_lines(head + tail) == complete_lines(head) + complete_lines(
            unfinished(head) + tail,
        ),
        unfinished(head + tail) == unfinished(unfinished(head) + tail),
    decreases head.len(),
{
    lemma_line_end(head);
    lemma_line_end_concat(head, tail);
    let n = line_end(head) as int;
    if n < head.len() {
        let rest = head.skip(n + 1);
        assert((head + tail).take(n) =~= head.take(n));
        assert((head + tail).skip(n + 1) =~= rest + tail);
        lemma_lines_concat(rest, tail);
        assert(complete_lines(head + tail) =~= complete_lines(head) + complete_lines(
            unfinished(head) + tail,
        ));
    } else {
        assert(complete_lines(head) + complete_lines(head + tail) =~= complete_lines(head + tail));
    }
}

/// One more byte behind bytes without a newline: a newline finishes them as a
/// line, any other byte joins them.
pub proof fn lemma_lines_step(line: Seq<u8>, byte: u8, tail: Seq<u8>)
    requires
        newline_free(line),
    ensures
        byte == NEWLINE ==> complete_lines(line + seq![byte] + tail) == seq![strip_cr(line)]
            + complete_lines(tail),
        byte == NEWLINE ==> unfinished(line + seq![byte] + tail) == unfinished(tail),
        byte != NEWLINE ==> newline_free(line.push(byte)),
        line + seq![byte] + tail == line.push(byte) + tail,
{
    let all = line + seq![byte] + tail;
    assert(all =~= line.push(byte) + tail);
    if byte == NEWLINE {
        assert(all =~= line + (seq![byte] + tail));
        lemma_line_end(line);
        lemma_line_end_concat(line, seq![byte] + tail);
        assert(line_end(seq![byte] + tail) == 0);
        let n = line.len() as int;
        assert(all.take(n) =~= line);
        assert(all.skip(n + 1) =~= tail);
    }
}

/// The bytes on the wire when `lines` are written one after the other, each
/// followed by a newline.
pub open spec fn written(lines: Seq<Seq<u8>>) -> Seq<u8>
    decreases lines.len(),
{
    if lines.len() == 0 {
        Seq::empty()
    } else {
        lines[0].push(NEWLINE) + written(lines.drop_first())
    }
}

/// The lines of `lines`, each without the carriage return at its end, if it has one.
pub open spec fn stripped(lines: Seq<Seq<u8>>) -> Seq<Seq<u8>> {
    Seq::new(lines.len(), |i: int| strip_cr(lines[i]))
}

/// What is written line by line is read back line by line: as many lines as
/// were written, in the same order, each without its terminator, and nothing
/// is left unfinished.
pub proof fn lemma_written_read_back(lines: Seq<Seq<u8>>)
    requires
        forall|i: int| 0 <= i < lines.len() ==> newline_free(#[trigger] lines[i]),
    ensures
        complete_lines(written(lines)) == stripped(lines),
        unfinished(written(lines)) == Seq::<u8>::empty(),
    decreases lines.len(),
{
    if lines.len() == 0 {
        assert(complete_lines(written(lines)) =~= stripped(lines));
    } else {
        let first = lines[0];
        let rest = lines.drop_first();
        assert forall|i: int| 0 <= i < rest.len() implies newline_free(#[trigger] rest[i]) by {
            assert(rest[i] == lines[i + 1]);
        }
        lemma_written_read_back(rest);
        lemma_lines_step(first, NEWLINE, written(rest));
        assert(written(lines) =~= first + seq![NEWLINE] + written(rest));
        assert(complete_lines(written(lines)) =~= stripped(lines)) by {
            assert forall|i: int| 0 < i < lines.len() implies stripped(rest)[i - 1] == stripped(
                lines,
            )[i] by {
                assert(rest[i - 1] == lines[i]);
            }
        }
    }
}

/// The byte sequences that `lines` holds, in the same order.
pub open spec fn contents(lines: Seq<Vec<u8>>) -> Seq<Seq<u8>> {
    Seq::new(lines.len(), |i: int| lines[i]@)
}

/// The unfinished tail of a byte stream that arrives in pieces.
///
/// Bytes go in with [`LineBuffer::push`], which hands back every line they
/// finish. What is kept never holds a newline.
pub struct LineBuffer {
    partial: Vec<u8>,
}

impl View for LineBuffer {
    type V = Seq<u8>;

    closed spec fn view(&self) -> Seq<u8> {
        self.partial@
    }
}

impl LineBuffer {
    /// What is kept holds no newline. This holds of every buffer.
    #[verifier::type_invariant]
    pub open spec fn wf(&self) -> bool {
        newline_free(self@)
    }

    /// A buffer that holds nothing.
    pub fn new() -> (buffer: LineBuffer)
        ensures
            buffer@ == Seq::<u8>::empty(),
    {
        LineBuffer { partial: Vec::new() }
    }

    /// The number of bytes that wait for their newline.
    pub fn len(&self) -> (n: usize)
        ensures
            n == self@.len(),
    {
        self.partial.len()
    }

    /// Whether no byte waits for its newline.
    pub fn is_empty(&self) -> (empty: bool)
        ensures
            empty == (self@.len() == 0),
    {
        self.partial.len() == 0
    }

    /// Takes out what is kept and leaves nothing behind.
    fn take(&mut self) -> (partial: Vec<u8>)
        ensures
            partial@ == old(self)@,
            newline_free(partial@),
            final(self)@ == Seq::<u8>::empty(),
    {
        proof {
            use_type_invariant(&*self);
        }
        let mut taken = LineBuffer::new();
        std::mem::swap(self, &mut taken);
        taken.partial
    }

    /// Takes `chunk` in and returns the lines that it finishes, in stream
    /// order and without their terminators. The bytes behind the last newline
    /// are kept for the next call.
    pub fn push(&mut self, chunk: &[u8]) -> (lines: Vec<Vec<u8>>)
        ensures
            contents(lines@) == complete_lines(old(self)@ + chunk@),
            final(self)@ == unfinished(old(self)@ + chunk@),
    {
        let ghost start = self@;
        let mut partial = self.take();
        let mut lines: Vec<Vec<u8>> = Vec::new();
        let mut i: usize = 0;
        proof {
            assert(chunk@.skip(0) =~= chunk@);
            assert(contents(lines@) =~= Seq::<Seq<u8>>::empty());
            assert(contents(lines@) + complete_lines(start + chunk@) =~= complete_lines(
                start + chunk@,
            ));
        }
        while i < chunk.len()
            invariant
                i <= chunk.len(),
                newline_free(partial@),
                complete_lines(start + chunk@) == contents(lines@) + complete_lines(
                    partial@ + chunk@.skip(i as int),
                ),
                unfinished(start + chunk@) == unfinished(partial@ + chunk@.skip(i as int)),
            decreases chunk.len() - i,
        {
            let byte = chunk[i];
            let ghost line = partial@;
            let ghost tail = chunk@.skip(i as int + 1);
            let ghost before = contents(lines@);
            proof {
                assert(chunk@.skip(i as int) =~= seq![byte] + tail);
                assert(line + chunk@.skip(i as int) =~= line + seq![byte] + tail);
                lemma_lines_step(line, byte, tail);
            }
            if byte == NEWLINE {
                let mut finished: Vec<u8> = Vec::new();
                std::mem::swap(&mut finished, &mut partial);
                let n = finished.len();
                if n > 0 && finished[n - 1] == CARRIAGE_RETURN {
                    finished.pop();
                }
                assert(finished@ =~= strip_cr(line));
                lines.push(finished);
                proof {
                    assert(contents(lines@) =~= before + seq![strip_cr(line)]);
                    assert(partial@ + tail =~= tail);
                    assert(before + (seq![strip_cr(line)] + complete_lines(tail)) =~= contents(
                        lines@,
                    ) + complete_lines(tail));
                }
            } else {
                partial.push(byte);
            }
            i += 1;
        }
        proof {
            assert(chunk@.skip(i as int) =~= Seq::<u8>::empty());
            assert(partial@ + chunk@.skip(i as int) =~= partial@);
            lemma_newline_free(partial@);
            assert(contents(lines@) + Seq::<Seq<u8>>::empty() =~= contents(lines@));
        }
        *self = LineBuffer { partial };
        lines
    }

    /// Ends the stream: hands out the bytes that still wait for a newline, if
    /// there are any, and keeps nothing.
    pub fn finish(&mut self) -> (last: Option<Vec<u8>>)
        ensures
            final(self)@ == Seq::<u8>::empty(),
            match last {
                Some(line) => old(self)@.len() > 0 && line@ == old(self)@,
                None => old(self)@.len() == 0,
            },
    {
        let rest = self.take();
        if rest.len() == 0 {
            None
        } else {
            Some(rest)
        }
    }

    /// Forgets the bytes that wait for a newline.
    pub fn clear(&mut self)
        ensures
            final(self)@ == Seq::<u8>::empty(),
    {
        *self = LineBuffer::new();
    }
}

} // verus!
