//! The connection reader: one per connection. It is fed the bytes that
//! arrive and turns them into events for the relay bus: one message event
//! per envelope, in the order of the stream, and a single disconnect event
//! when the stream ends or no longer makes sense.

use vstd::prelude::*;
use crate::bus::{BusEvent, BusEventView, PeerAddr};
use crate::codec::{
    decode_at, decoding, envelope_bytes, lemma_decode_encoded, lemma_decoding_consumes,
    sendable_envelope, Decoded, DecodedView,
};
use crate::model::{views, Envelope, EnvelopeView, Payload, PayloadView};
use crate::wire::{frame, lemma_framing_extends, read_varint, MAX_PAYLOAD};

verus! {

/// What a receive buffer yields when every whole message is taken from
/// its start.
pub struct Drain {
    /// The messages, in stream order.
    pub messages: Seq<EnvelopeView>,
    /// The bytes that are left: the start of a message yet to be completed,
    /// or what the stream broke on.
    pub rest: Seq<u8>,
    /// Whether the bytes that are left are such that no message starts
    /// with them.
    pub corrupt: bool,
}

/// Takes every whole message from the start of a receive buffer.
pub open spec fn drained(buffer: Seq<u8>) -> Drain
    decreases buffer.len(),
{
    match decoding(buffer) {
        DecodedView::Message { envelope, consumed } => if 0 < consumed <= buffer.len() {
            let later = drained(buffer.skip(consumed as int));
            Drain {
                messages: seq![envelope] + later.messages,
                rest: later.rest,
                corrupt: later.corrupt,
            }
        } else {
            Drain { messages: Seq::empty(), rest: buffer, corrupt: true }
        },
        DecodedView::Incomplete => Drain { messages: Seq::empty(), rest: buffer, corrupt: false },
        DecodedView::Corrupt => Drain { messages: Seq::empty(), rest: buffer, corrupt: true },
    }
}

/// One drain after another: what the second yields comes behind what
/// the first yielded.
pub open spec fn resumed(first: Drain, second: Drain) -> Drain {
    Drain {
        messages: first.messages + second.messages,
        rest: second.rest,
        corrupt: second.corrupt,
    }
}

/// Envelopes as a stream: the frame of each, one after the other.
pub open spec fn stream_of(envelopes: Seq<EnvelopeView>) -> Seq<u8>
    decreases envelopes.len(),
{
    if envelopes.len() == 0 {
        Seq::empty()
    } else {
        frame(envelope_bytes(envelopes[0])) + stream_of(envelopes.drop_first())
    }
}

/// The events that a drain gives rise to for a peer: its messages, and a
/// disconnect behind them where the stream is corrupt.
pub open spec fn events_of(drain: Drain, peer: PeerAddr) -> Seq<BusEventView> {
    let messages = Seq::new(
        drain.messages.len(),
        |i: int| BusEventView::Message(drain.messages[i]),
    );
    if drain.corrupt {
        messages.push(BusEventView::Disconnect(peer))
    } else {
        messages
    }
}

/// Mathematical view of a [`Reader`].
pub struct ReaderView {
    pub peer: PeerAddr,
    /// The bytes that arrived and do not yet make a whole message.
    pub pending: Seq<u8>,
    /// Whether the connection still counts as open.
    pub open: bool,
}

/// The reader of one connection.
pub struct Reader {
    peer: PeerAddr,
    pending: Vec<u8>,
    open: bool,
}

impl View for Reader {
    type V = ReaderView;

    closed spec fn view(&self) -> ReaderView {
        ReaderView { peer: self.peer, pending: self.pending@, open: self.open }
    }
}

impl Reader {
    /// Starts reading a connection that was just made. With the reader
    /// come the event that registers the peer with the bus, and the notice
    /// to write to the peer first: that this side is out of sync, so that
    /// the peer sends a full snapshot.
    pub fn start(peer: PeerAddr) -> (started: (Reader, BusEvent, Envelope))
        ensures
            started.0@ == (ReaderView { peer, pending: Seq::empty(), open: true }),
            started.1@ == BusEventView::Connect(peer),
            started.2@.payload == PayloadView::OutOfSync,
    {
        let reader = Reader { peer, pending: Vec::new(), open: true };
        (reader, BusEvent::Connect(peer), Envelope::seal(Payload::OutOfSync))
    }

    /// The peer at the other end.
    pub fn peer(&self) -> (peer: PeerAddr)
        ensures
            peer == self@.peer,
    {
        self.peer
    }

    /// Whether the connection still counts as open.
    pub fn is_open(&self) -> (open: bool)
        ensures
            open == self@.open,
    {
        self.open
    }

    /// Takes bytes that arrived on the connection and returns the events
    /// that they complete: a message event for every envelope that is now
    /// whole, in stream order. Where the bytes make no sense the connection
    /// is given up: a disconnect event follows the messages, and nothing is
    /// read from then on.
    pub fn feed(&mut self, chunk: &[u8]) -> (events: Vec<BusEvent>)
        ensures
            !old(self)@.open ==> events@.len() == 0 && final(self)@ == old(self)@,
            old(self)@.open ==> {
                let drain = drained(old(self)@.pending + chunk@);
                &&& views(events@) == events_of(drain, old(self)@.peer)
                &&& final(self)@ == (ReaderView {
                    peer: old(self)@.peer,
                    pending: drain.rest,
                    open: !drain.corrupt,
                })
            },
    {
        let mut events: Vec<BusEvent> = Vec::new();
        if !self.open {
            return events;
        }
        let ghost before = self.pending@;
        let mut i: usize = 0;
        while i < chunk.len()
            invariant
                i <= chunk.len(),
                self.pending@ == before + chunk@.take(i as int),
                self.peer == old(self).peer,
                self.open,
            decreases chunk.len() - i,
        {
            self.pending.push(chunk[i]);
            assert(self.pending@ =~= before + chunk@.take(i as int + 1));
            i += 1;
        }
        assert(chunk@.take(chunk.len() as int) =~= chunk@);
        let ghost buffer = self.pending@;
        let ghost peer = self.peer;
        let total = self.pending.len();
        let mut at: usize = 0;
        let mut corrupt = false;
        let mut done = false;
        assert(buffer.skip(0) =~= buffer);
        while !done
            invariant
                at <= total,
                total == buffer.len(),
                self.pending@ == buffer,
                self.peer == peer,
                events@.len() <= at,
                !done ==> !corrupt,
                forall|k: int| 0 <= k < events@.len() ==> #[trigger] views(events@)[k] is Message,
                drained(buffer).rest == drained(buffer.skip(at as int)).rest,
                drained(buffer).corrupt == drained(buffer.skip(at as int)).corrupt,
                drained(buffer).messages == Seq::new(
                    events@.len(),
                    |k: int| views(events@)[k]->Message_0,
                ) + drained(buffer.skip(at as int)).messages,
                done ==> drained(buffer.skip(at as int)).messages.len() == 0 && drained(
                    buffer.skip(at as int),
                ).rest == buffer.skip(at as int) && drained(buffer.skip(at as int)).corrupt
                    == corrupt,
            decreases
                (total - at) + (if done {
                    0int
                } else {
                    1int
                }),
        {
            let ghost here = buffer.skip(at as int);
            let ghost sofar = views(events@);
            match decode_at(self.pending.as_slice(), at) {
                Decoded::Message { envelope, consumed } => {
                    proof {
                        lemma_decoding_consumes(here);
                        assert(here.skip(consumed as int) =~= buffer.skip(at + consumed));
                        let later = drained(buffer.skip(at + consumed)).messages;
                        let listed = Seq::new(sofar.len(), |k: int| sofar[k]->Message_0);
                        assert(listed.push(envelope@) + later =~= listed + (seq![envelope@]
                            + later));
                    }
                    events.push(BusEvent::Message(envelope));
                    proof {
                        let listed = Seq::new(sofar.len(), |k: int| sofar[k]->Message_0);
                        assert(views(events@) =~= sofar.push(BusEventView::Message(envelope@)));
                        assert(Seq::new(events@.len(), |k: int| views(events@)[k]->Message_0)
                            =~= listed.push(envelope@));
                    }
                    at = at + consumed;
                },
                Decoded::Incomplete => {
                    done = true;
                },
                Decoded::Corrupt => {
                    corrupt = true;
                    done = true;
                },
            }
        }
        let ghost drain = drained(buffer);
        proof {
            let listed = Seq::new(events@.len(), |k: int| views(events@)[k]->Message_0);
            assert(listed + Seq::<EnvelopeView>::empty() =~= listed);
            assert(drain.messages == listed);
            assert(views(events@) =~= Seq::new(
                drain.messages.len(),
                |k: int| BusEventView::Message(drain.messages[k]),
            ));
        }
        let mut rest: Vec<u8> = Vec::new();
        let mut j: usize = at;
        while j < total
            invariant
                at <= j <= total,
                total == buffer.len(),
                self.pending@ == buffer,
                rest@ == buffer.subrange(at as int, j as int),
            decreases total - j,
        {
            rest.push(self.pending[j]);
            assert(rest@ =~= buffer.subrange(at as int, j + 1));
            j += 1;
        }
        assert(rest@ =~= buffer.skip(at as int));
        self.pending = rest;
        if corrupt {
            let ghost messages = views(events@);
            self.open = false;
            events.push(BusEvent::Disconnect(self.peer));
            assert(views(events@) =~= messages.push(BusEventView::Disconnect(peer)));
        }
        events
    }

    /// Records that the stream ended, or that reading it failed. The
    /// disconnect event comes back once; a reader that had given up the
    /// connection already has nothing more to report.
    pub fn end_of_stream(&mut self) -> (event: Option<BusEvent>)
        ensures
            final(self)@ == (ReaderView { open: false, ..old(self)@ }),
            old(self)@.open ==> event is Some && event->0@ == BusEventView::Disconnect(
                old(self)@.peer,
            ),
            !old(self)@.open ==> event is None,
    {
        if self.open {
            self.open = false;
            Some(BusEvent::Disconnect(self.peer))
        } else {
            None
        }
    }
}

/// What was decoded at the start of a buffer, a message or the lack of
/// one for good, is decoded there when more bytes have arrived.
pub proof fn lemma_decoding_extends(buffer: Seq<u8>, more: Seq<u8>)
    requires
        decoding(buffer) != DecodedView::Incomplete,
    ensures
        decoding(buffer + more) == decoding(buffer),
{
    lemma_framing_extends(buffer, more);
}

/// Chunking does not matter: taking the messages from a buffer and then,
/// with more bytes behind what was left, taking them again yields what
/// taking them from all the bytes at once yields. A stream that was found
/// corrupt stays so whatever follows.
pub proof fn lemma_drained_in_chunks(first: Seq<u8>, second: Seq<u8>)
    ensures
        !drained(first).corrupt ==> drained(first + second) == resumed(
            drained(first),
            drained(drained(first).rest + second),
        ),
        drained(first).corrupt ==> drained(first + second).corrupt && drained(
            first + second,
        ).messages == drained(first).messages,
    decreases first.len(),
{
    let whole = first + second;
    match decoding(first) {
        DecodedView::Message { envelope, consumed } => {
            lemma_decoding_consumes(first);
            lemma_decoding_extends(first, second);
            assert(whole.skip(consumed as int) =~= first.skip(consumed as int) + second);
            lemma_drained_in_chunks(first.skip(consumed as int), second);
            let later = drained(first.skip(consumed as int));
            if !later.corrupt {
                let onward = drained(later.rest + second);
                assert(seq![envelope] + (later.messages + onward.messages) =~= (seq![envelope]
                    + later.messages) + onward.messages);
            }
        },
        DecodedView::Incomplete => {
            assert(Seq::<EnvelopeView>::empty() + drained(whole).messages =~= drained(
                whole,
            ).messages);
        },
        DecodedView::Corrupt => {
            lemma_decoding_extends(first, second);
        },
    }
}

/// Stream order: from a stream of encoded envelopes the reader takes
/// exactly those envelopes, in the order in which they were written, and
/// nothing is left over.
pub proof fn lemma_stream_drained(envelopes: Seq<EnvelopeView>)
    requires
        forall|i: int|
            0 <= i < envelopes.len() ==> sendable_envelope(#[trigger] envelopes[i])
                && envelope_bytes(envelopes[i]).len() <= MAX_PAYLOAD,
    ensures
        drained(stream_of(envelopes)) == (Drain {
            messages: envelopes,
            rest: Seq::empty(),
            corrupt: false,
        }),
    decreases envelopes.len(),
{
    let stream = stream_of(envelopes);
    if envelopes.len() == 0 {
        assert(read_varint(stream) is None);
        assert(drained(stream).messages =~= envelopes);
    } else {
        let first = envelopes[0];
        let others = envelopes.drop_first();
        let head = frame(envelope_bytes(first));
        lemma_decode_encoded(first, stream_of(others));
        lemma_decoding_consumes(stream);
        assert(stream.skip(head.len() as int) =~= stream_of(others));
        assert forall|i: int| 0 <= i < others.len() implies sendable_envelope(#[trigger] others[i])
            && envelope_bytes(others[i]).len() <= MAX_PAYLOAD by {
            assert(others[i] == envelopes[i + 1]);
        }
        lemma_stream_drained(others);
        assert(seq![first] + others =~= envelopes);
    }
}

} // verus!
