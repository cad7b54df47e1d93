//! Reading the messages a peer sends, from bytes that arrive in chunks of
//! any size. The runner feeds the reader what it receives and asks it what
//! to do next: hand on a message, report bytes it skipped, or receive more.
use vstd::prelude::*;

use crate::message::{
    append_bytes, decoded, encoded, encoded_all, ends_in_body, fits_on_wire, lemma_read_of_write,
    MessageModel, ParseError, PizzaMessage, ReadModel,
};

verus! {

/// What a reader does next with the bytes it holds.
pub enum StepModel {
    /// Hands on a message that took the given number of bytes.
    Message(nat, MessageModel),
    /// Skips the given number of bytes that hold no message.
    Skip(nat),
    /// Waits for more bytes.
    NeedBytes,
}

/// What a reader holding `pending` does next. Bytes that end inside a
/// message's contents, or before its length fields are whole, wait for more;
/// an unknown type byte is skipped; so is a whole text or name that is not
/// UTF-8.
pub open spec fn next_step(pending: Seq<u8>) -> StepModel {
    if ends_in_body(pending) {
        StepModel::NeedBytes
    } else {
        match decoded(pending) {
            ReadModel::Message(n, m) => StepModel::Message(n, m),
            ReadModel::Incomplete => StepModel::NeedBytes,
            ReadModel::InvalidType(_) => StepModel::Skip(1),
            ReadModel::InvalidUtf8(n) => StepModel::Skip(n),
        }
    }
}

/// What a reader that holds `pending` yields when it is then fed `chunks`,
/// one after another as it asks for more, and then told that no more will
/// come: the messages, in order, and whether the stream ends. It does not
/// end when the bytes stop inside a message's contents: the reader waits
/// for the rest for ever.
pub open spec fn stream(pending: Seq<u8>, chunks: Seq<Seq<u8>>) -> (Seq<MessageModel>, bool)
    decreases chunks.len(), pending.len(),
{
    proof {
        lemma_decoded_within(pending);
    }
    match next_step(pending) {
        StepModel::Message(n, m) => {
            let (rest, ends) = stream(pending.skip(n as int), chunks);
            (seq![m] + rest, ends)
        },
        StepModel::Skip(n) => stream(pending.skip(n as int), chunks),
        StepModel::NeedBytes => if chunks.len() == 0 {
            (seq![], !ends_in_body(pending))
        } else {
            stream(pending + chunks[0], chunks.drop_first())
        },
    }
}

/// What the runner is told to do next.
#[derive(Debug)]
pub enum ReadStep {
    /// Hand on this message.
    Message(PizzaMessage),
    /// Bytes that hold no message were skipped, for this reason.
    Skipped(ParseError),
    /// Receive more bytes, and feed them to the reader.
    NeedBytes,
}

/// Bytes received from a peer and not read yet.
pub struct MessageReader {
    pending: Vec<u8>,
}

impl View for MessageReader {
    type V = Seq<u8>;

    closed spec fn view(&self) -> Seq<u8> {
        self.pending@
    }
}

impl MessageReader {
    /// A reader that holds no bytes.
    pub fn new() -> (r: MessageReader)
        ensures
            r@ == Seq::<u8>::empty(),
    {
        MessageReader { pending: Vec::new() }
    }

    /// Adds received bytes after those held.
    pub fn feed(&mut self, bytes: &[u8])
        ensures
            final(self)@ == old(self)@ + bytes@,
    {
        append_bytes(&mut self.pending, bytes);
    }

    /// Drops the bytes held, as after a failed receive.
    pub fn clear(&mut self)
        ensures
            final(self)@ == Seq::<u8>::empty(),
    {
        self.pending.clear();
    }

    /// Whether the stream ends when no more bytes will come: it does unless
    /// the bytes held end inside a message's contents.
    pub fn ends_at_close(&self) -> (r: bool)
        ensures
            r == !ends_in_body(self@),
    {
        !PizzaMessage::ends_inside_body(self.pending.as_slice())
    }

    /// The next step, taken: a message handed on or bytes skipped leave the
    /// reader without their bytes; waiting leaves it as it was.
    pub fn next(&mut self) -> (r: ReadStep)
        ensures
            match next_step(old(self)@) {
                StepModel::Message(n, m) => {
                    &&& r matches ReadStep::Message(msg) && msg@ == m
                    &&& final(self)@ == old(self)@.skip(n as int)
                },
                StepModel::Skip(n) => {
                    &&& r matches ReadStep::Skipped(e) && match decoded(old(self)@) {
                        ReadModel::InvalidType(ty) => e == ParseError::InvalidType { ty },
                        _ => e is Utf8,
                    }
                    &&& final(self)@ == old(self)@.skip(n as int)
                },
                StepModel::NeedBytes => {
                    &&& r is NeedBytes
                    &&& final(self)@ == old(self)@
                },
            },
    {
        if PizzaMessage::ends_inside_body(self.pending.as_slice()) {
            return ReadStep::NeedBytes;
        }
        proof {
            lemma_decoded_within(self.pending@);
        }
        match PizzaMessage::read(self.pending.as_slice()) {
            Ok((n, msg)) => {
                let rest = self.pending.split_off(n);
                self.pending = rest;
                ReadStep::Message(msg)
            },
            Err((_, ParseError::UnexpectedEof)) => ReadStep::NeedBytes,
            Err((n, e)) => {
                let rest = self.pending.split_off(n);
                self.pending = rest;
                ReadStep::Skipped(e)
            },
        }
    }
}

/// A read that is not cut short takes at least one byte, and no more than
/// there are.
pub proof fn lemma_decoded_within(b: Seq<u8>)
    ensures
        decoded(b) matches ReadModel::Message(n, _) ==> 0 < n <= b.len(),
        decoded(b) matches ReadModel::InvalidUtf8(n) ==> 0 < n <= b.len(),
        decoded(b) is InvalidType ==> 0 < b.len(),
{
}

/// Bytes that arrive after a read that was not cut short do not change it.
proof fn lemma_decoded_prefix(b: Seq<u8>, q: Seq<u8>)
    requires
        !(decoded(b) is Incomplete),
    ensures
        decoded(b + q) == decoded(b),
{
    let c = b + q;
    if b[0] == 0 {
        assert(c.subrange(1, 5) =~= b.subrange(1, 5));
        let n = crate::wire::be_value(b.subrange(1, 5));
        assert(c.subrange(5, 5 + n as int) =~= b.subrange(5, 5 + n as int));
    } else if b[0] == 1 {
        assert(c[1] == b[1]);
        let n = b[1] as int;
        assert(c.subrange(2, 2 + n) =~= b.subrange(2, 2 + n));
    } else if b[0] == 2 {
        assert(c[1] == b[1] && c[2] == b[2]);
        let end6: int = 3 + 4 * (b[1] as int);
        let end: int = end6 + 16 * (b[2] as int);
        assert(c.subrange(3, end6) =~= b.subrange(3, end6));
        assert(c.subrange(end6, end) =~= b.subrange(end6, end));
    }
}

/// The reader holds the front of what is left of the messages, and the
/// chunks still to come hold the rest.
proof fn lemma_stream_of_rest(ms: Seq<MessageModel>, pending: Seq<u8>, chunks: Seq<Seq<u8>>)
    requires
        forall|i: int| 0 <= i < ms.len() ==> fits_on_wire(#[trigger] ms[i]),
        pending + chunks.flatten() == encoded_all(ms),
    ensures
        stream(pending, chunks) == (ms, true),
    decreases chunks.len(), pending.len(),
{
    let full = encoded_all(ms);
    if ms.len() > 0 {
        let tail = ms.drop_first();
        assert(full == encoded(ms[0]) + encoded_all(tail));
        lemma_read_of_write(ms[0], encoded_all(tail));
    }
    lemma_decoded_within(pending);
    match next_step(pending) {
        StepModel::NeedBytes => {
            if chunks.len() == 0 {
                assert(pending =~= full);
                assert(ms =~= Seq::<MessageModel>::empty());
            } else {
                assert(chunks.flatten() == chunks[0] + chunks.drop_first().flatten());
                assert((pending + chunks[0]) + chunks.drop_first().flatten() =~= pending
                    + chunks.flatten());
                lemma_stream_of_rest(ms, pending + chunks[0], chunks.drop_first());
            }
        },
        _ => {
            lemma_decoded_prefix(pending, chunks.flatten());
            let tail = ms.drop_first();
            assert forall|i: int| 0 <= i < tail.len() implies fits_on_wire(#[trigger] tail[i]) by {
                assert(tail[i] == ms[i + 1]);
            }
            let n = encoded(ms[0]).len();
            assert(full.skip(n as int) =~= encoded_all(tail));
            assert(pending.skip(n as int) + chunks.flatten() =~= full.skip(n as int));
            lemma_stream_of_rest(tail, pending.skip(n as int), chunks);
            assert(seq![ms[0]] + tail =~= ms);
        },
    }
}

/// Messages written to a peer one after another, whose lengths and counts
/// fit their fields, are yielded by its reader exactly and in order, however
/// the bytes are cut into chunks on their way; and once no more bytes come,
/// the stream ends.
pub proof fn lemma_stream_of_writes(ms: Seq<MessageModel>, chunks: Seq<Seq<u8>>)
    requires
        forall|i: int| 0 <= i < ms.len() ==> fits_on_wire(#[trigger] ms[i]),
        chunks.flatten() == encoded_all(ms),
    ensures
        stream(Seq::empty(), chunks) == (ms, true),
{
    assert(Seq::<u8>::empty() + chunks.flatten() =~= chunks.flatten());
    lemma_stream_of_rest(ms, Seq::empty(), chunks);
}

} // verus!
