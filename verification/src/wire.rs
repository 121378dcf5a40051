//! The wire codec, lower half: variable-length integers and
//! length-delimited frames. A frame is the length of a payload as a
//! variable-length integer, followed by the payload; frames follow each
//! other on a stream without anything between them.

use vstd::prelude::*;
use vstd::utf8::{
    decode_utf8, encode_utf8, encode_utf8_decode_utf8, encode_utf8_valid_utf8, valid_utf8,
};

verus! {

/// The largest payload that a frame carries, in bytes.
pub const MAX_PAYLOAD: usize = 0x7fff_ffff;

/// A number as a variable-length integer: seven bits to a byte, the low
/// ones first, and the top bit set on every byte but the last.
pub open spec fn varint(value: nat) -> Seq<u8>
    decreases value,
{
    if value < 128 {
        seq![value as u8]
    } else {
        seq![(value % 128 + 128) as u8] + varint(value / 128)
    }
}

/// Reads a variable-length integer whose first byte is `bytes[0]`, that
/// byte being the one at `place` within the integer. The result is the
/// value and the number of bytes read. The tenth byte, at place 9, ends the
/// integer and holds one bit; there is no result where the bytes run out
/// before the integer ends, or where the tenth byte holds more.
pub open spec fn read_at(bytes: Seq<u8>, place: nat) -> Option<(nat, nat)>
    decreases bytes.len(),
{
    if bytes.len() == 0 {
        None
    } else if place >= 9 {
        if bytes[0] <= 1 {
            Some((bytes[0] as nat, 1nat))
        } else {
            None
        }
    } else if bytes[0] < 128 {
        Some((bytes[0] as nat, 1nat))
    } else {
        match read_at(bytes.drop_first(), place + 1) {
            Some((high, count)) => Some((((bytes[0] - 128) + 128 * high) as nat, count + 1)),
            None => None,
        }
    }
}

/// Reads the variable-length integer at the start of the bytes.
pub open spec fn read_varint(bytes: Seq<u8>) -> Option<(nat, nat)> {
    read_at(bytes, 0)
}

/// The values that an integer can still take from a given place on.
pub open spec fn room(place: nat) -> nat {
    if place == 0 {
        0x1_0000_0000_0000_0000
    } else if place == 1 {
        0x200_0000_0000_0000
    } else if place == 2 {
        0x4_0000_0000_0000
    } else if place == 3 {
        0x800_0000_0000
    } else if place == 4 {
        0x10_0000_0000
    } else if place == 5 {
        0x2000_0000
    } else if place == 6 {
        0x40_0000
    } else if place == 7 {
        0x8000
    } else if place == 8 {
        0x100
    } else {
        2
    }
}

/// A 32-bit pattern as four bytes, the low one first.
pub open spec fn le32(value: u32) -> Seq<u8> {
    seq![
        (value % 256) as u8,
        (value / 256 % 256) as u8,
        (value / 65536 % 256) as u8,
        (value / 16777216) as u8,
    ]
}

/// The 32-bit pattern that four bytes at an offset hold, the low one
/// first.
pub open spec fn le32_at(bytes: Seq<u8>, at: int) -> u32 {
    (bytes[at] + 256 * bytes[at + 1] + 65536 * bytes[at + 2] + 16777216 * bytes[at + 3]) as u32
}

/// A text as bytes: the length of its UTF-8 form, then that form.
#[verifier::opaque]
pub open spec fn text_bytes(text: Seq<char>) -> Seq<u8> {
    varint(encode_utf8(text).len()) + encode_utf8(text)
}

/// Reads a text at the start of the bytes: the text and the number of
/// bytes it takes. There is none where the length cannot be read, where
/// fewer bytes follow than it announces, or where those bytes are no valid
/// UTF-8.
#[verifier::opaque]
pub open spec fn read_text(bytes: Seq<u8>) -> Option<(Seq<char>, nat)> {
    match read_varint(bytes) {
        Some((length, count)) => {
            let body = bytes.subrange(count as int, (count + length) as int);
            if count + length <= bytes.len() && valid_utf8(body) {
                Some((decode_utf8(body), count + length))
            } else {
                None
            }
        },
        None => None,
    }
}

/// A payload as a frame: its length, then the payload.
pub open spec fn frame(payload: Seq<u8>) -> Seq<u8> {
    varint(payload.len()) + payload
}

/// What the start of a buffer holds.
#[derive(Debug, PartialEq, Eq)]
pub enum Framing {
    /// A whole frame: its payload, and the number of bytes that the frame
    /// takes in the buffer.
    Complete { payload: Vec<u8>, consumed: usize },
    /// The start of a frame, of which more bytes have yet to arrive.
    Incomplete,
    /// Bytes that no frame starts with: a length that is no
    /// variable-length integer, or one above [`MAX_PAYLOAD`].
    Corrupt,
}

/// Mathematical view of a [`Framing`].
pub enum FramingView {
    Complete { payload: Seq<u8>, consumed: nat },
    Incomplete,
    Corrupt,
}

impl View for Framing {
    type V = FramingView;

    open spec fn view(&self) -> FramingView {
        match self {
            Framing::Complete { payload, consumed } => FramingView::Complete {
                payload: payload@,
                consumed: *consumed as nat,
            },
            Framing::Incomplete => FramingView::Incomplete,
            Framing::Corrupt => FramingView::Corrupt,
        }
    }
}

/// What the start of a buffer holds.
pub open spec fn framing(buffer: Seq<u8>) -> FramingView {
    match read_varint(buffer) {
        None => if buffer.len() < 10 {
            FramingView::Incomplete
        } else {
            FramingView::Corrupt
        },
        Some((length, count)) => if length > MAX_PAYLOAD {
            FramingView::Corrupt
        } else if buffer.len() < count + length {
            FramingView::Incomplete
        } else {
            FramingView::Complete {
                payload: buffer.subrange(count as int, (count + length) as int),
                consumed: count + length,
            }
        },
    }
}

/// `protobuf::CodedOutputStream::vec` on `out`, then `write_raw_varint64`
/// and `flush`: the value is appended to `out` as a variable-length
/// integer.
#[verifier::external_body]
pub(crate) fn push_varint(out: &mut Vec<u8>, value: u64)
    ensures
        final(out)@ == old(out)@ + varint(value as nat),
{
    let mut stream = protobuf::CodedOutputStream::vec(out);
    stream.write_raw_varint64(value).unwrap();
    stream.flush().unwrap();
}

/// `protobuf::CodedInputStream::from_bytes` on the bytes from `from` on,
/// then `read_raw_varint64` and `pos`: the variable-length integer that
/// starts there and the number of bytes it takes, or nothing where the
/// stream reports an error.
#[verifier::external_body]
fn take_varint(bytes: &[u8], from: usize) -> (taken: Option<(u64, usize)>)
    requires
        from <= bytes@.len(),
    ensures
        match taken {
            Some((value, count)) => read_varint(bytes@.skip(from as int)) == Some(
                (value as nat, count as nat),
            ),
            None => read_varint(bytes@.skip(from as int)) is None,
        },
{
    let mut stream = protobuf::CodedInputStream::from_bytes(&bytes[from..]);
    match stream.read_raw_varint64() {
        Ok(value) => Some((value, stream.pos() as usize)),
        Err(_) => None,
    }
}

/// `String::from_utf8`: the text that the bytes encode in UTF-8, or
/// nothing where they are no valid UTF-8.
#[verifier::external_body]
fn text_from_utf8(bytes: Vec<u8>) -> (text: Option<String>)
    ensures
        match text {
            Some(text) => valid_utf8(bytes@) && text@ == decode_utf8(bytes@),
            None => !valid_utf8(bytes@),
        },
{
    match String::from_utf8(bytes) {
        Ok(text) => Some(text),
        Err(_) => None,
    }
}

/// Reads the variable-length integer that starts at an offset: its value
/// and the offset behind it.
pub fn take_number(bytes: &[u8], from: usize) -> (taken: Option<(u64, usize)>)
    requires
        from <= bytes@.len(),
    ensures
        match taken {
            Some((value, next)) => {
                &&& from < next <= bytes@.len()
                &&& read_varint(bytes@.skip(from as int)) == Some(
                    (value as nat, (next - from) as nat),
                )
            },
            None => read_varint(bytes@.skip(from as int)) is None,
        },
{
    let total = bytes.len();
    match take_varint(bytes, from) {
        Some((value, count)) => {
            proof {
                lemma_read_bounds(bytes@.skip(from as int), 0);
                assert(bytes@.skip(from as int).len() == total - from);
            }
            Some((value, from + count))
        },
        None => None,
    }
}

/// Appends a 32-bit pattern as four bytes, the low one first.
pub fn push_le32(out: &mut Vec<u8>, value: u32)
    ensures
        final(out)@ == old(out)@ + le32(value),
{
    let ghost before = out@;
    out.push((value % 256) as u8);
    out.push((value / 256 % 256) as u8);
    out.push((value / 65536 % 256) as u8);
    out.push((value / 16777216) as u8);
    assert(out@ =~= before + le32(value));
}

/// Reads the 32-bit pattern that four bytes at an offset hold.
pub fn take_le32(bytes: &[u8], at: usize) -> (value: u32)
    requires
        at + 4 <= bytes@.len(),
    ensures
        value == le32_at(bytes@, at as int),
{
    let low: u32 = bytes[at] as u32 + 256 * (bytes[at + 1] as u32);
    let high: u32 = bytes[at + 2] as u32 + 256 * (bytes[at + 3] as u32);
    low + 65536 * high
}

/// Appends a text: the length of its UTF-8 form, then that form.
pub fn push_text(out: &mut Vec<u8>, text: &String)
    ensures
        final(out)@ == old(out)@ + text_bytes(text@),
{
    let ghost before = out@;
    proof {
        reveal(text_bytes);
    }
    let body = text.as_str().as_bytes();
    push_varint(out, body.len() as u64);
    let ghost head = out@;
    let mut i: usize = 0;
    while i < body.len()
        invariant
            i <= body.len(),
            out@ == head + body@.take(i as int),
        decreases body.len() - i,
    {
        out.push(body[i]);
        assert(out@ =~= head + body@.take(i as int + 1));
        i += 1;
    }
    assert(body@.take(body.len() as int) =~= body@);
    assert(out@ =~= before + text_bytes(text@));
}

/// Reads the text that starts at an offset: the text and the offset
/// behind it.
pub fn take_text(bytes: &[u8], from: usize) -> (taken: Option<(String, usize)>)
    requires
        from <= bytes@.len(),
    ensures
        match taken {
            Some((text, next)) => {
                &&& from < next <= bytes@.len()
                &&& read_text(bytes@.skip(from as int)) == Some((text@, (next - from) as nat))
            },
            None => read_text(bytes@.skip(from as int)) is None,
        },
{
    let ghost tail = bytes@.skip(from as int);
    proof {
        reveal(read_text);
    }
    match take_number(bytes, from) {
        None => None,
        Some((length, start)) => {
            if length > (bytes.len() - start) as u64 {
                return None;
            }
            let length = length as usize;
            let mut body: Vec<u8> = Vec::new();
            let mut i: usize = 0;
            while i < length
                invariant
                    i <= length,
                    start + length <= bytes.len(),
                    body@ == bytes@.subrange(start as int, start + i),
                decreases length - i,
            {
                body.push(bytes[start + i]);
                assert(body@ =~= bytes@.subrange(start as int, start + i + 1));
                i += 1;
            }
            assert(body@ =~= tail.subrange(start - from, start - from + length));
            match text_from_utf8(body) {
                Some(text) => Some((text, start + length)),
                None => None,
            }
        },
    }
}

/// Frames a payload. There is no frame for a payload above
/// [`MAX_PAYLOAD`].
pub fn encode_frame(payload: &[u8]) -> (framed: Option<Vec<u8>>)
    ensures
        framed is Some <==> payload@.len() <= MAX_PAYLOAD,
        framed is Some ==> framed->0@ == frame(payload@),
{
    if payload.len() > MAX_PAYLOAD {
        return None;
    }
    let mut out: Vec<u8> = Vec::new();
    push_varint(&mut out, payload.len() as u64);
    let ghost head = out@;
    let mut i: usize = 0;
    while i < payload.len()
        invariant
            i <= payload.len(),
            out@ == head + payload@.take(i as int),
        decreases payload.len() - i,
    {
        out.push(payload[i]);
        assert(payload@.take(i as int + 1) =~= payload@.take(i as int).push(payload@[i as int]));
        assert(out@ =~= head + payload@.take(i as int + 1));
        i += 1;
    }
    assert(payload@.take(payload.len() as int) =~= payload@);
    assert(head =~= varint(payload@.len()));
    Some(out)
}

/// Looks for a frame at the start of a buffer.
pub fn decode_frame(buffer: &[u8]) -> (found: Framing)
    ensures
        found@ == framing(buffer@),
{
    assert(buffer@.skip(0) =~= buffer@);
    decode_frame_at(buffer, 0)
}

/// Looks for a frame that starts at an offset of a buffer.
pub fn decode_frame_at(buffer: &[u8], from: usize) -> (found: Framing)
    requires
        from <= buffer@.len(),
    ensures
        found@ == framing(buffer@.skip(from as int)),
{
    let ghost tail = buffer@.skip(from as int);
    let left = buffer.len() - from;
    match take_varint(buffer, from) {
        None => {
            if left < 10 {
                Framing::Incomplete
            } else {
                Framing::Corrupt
            }
        },
        Some((length, count)) => {
            proof {
                lemma_read_bounds(tail, 0);
            }
            if length > MAX_PAYLOAD as u64 {
                return Framing::Corrupt;
            }
            let length = length as usize;
            if left - count < length {
                return Framing::Incomplete;
            }
            let start = from + count;
            let mut payload: Vec<u8> = Vec::new();
            let mut i: usize = 0;
            while i < length
                invariant
                    i <= length,
                    start + length <= buffer.len(),
                    payload@ == buffer@.subrange(start as int, start + i),
                decreases length - i,
            {
                payload.push(buffer[start + i]);
                assert(payload@ =~= buffer@.subrange(start as int, start + i + 1));
                i += 1;
            }
            assert(payload@ =~= tail.subrange(count as int, count + length));
            Framing::Complete { payload, consumed: count + length }
        },
    }
}

/// What was read is within bounds: the value fits where it stands, and
/// the bytes read are at least one, at most what was there, and at most ten
/// in all.
pub proof fn lemma_read_bounds(bytes: Seq<u8>, place: nat)
    requires
        place <= 9,
    ensures
        read_at(bytes, place) is Some ==> {
            let (value, count) = read_at(bytes, place)->0;
            &&& value < room(place)
            &&& 1 <= count <= bytes.len()
            &&& count + place <= 10
        },
    decreases bytes.len(),
{
    if bytes.len() > 0 && place < 9 && bytes[0] >= 128 {
        lemma_read_bounds(bytes.drop_first(), place + 1);
    }
}

/// A variable-length integer has between one and ten bytes.
pub proof fn lemma_varint_len(value: nat, place: nat)
    requires
        place <= 9,
        value < room(place),
    ensures
        1 <= varint(value).len() <= 10 - place,
    decreases value,
{
    if value >= 128 {
        lemma_varint_len(value / 128, place + 1);
    }
}

/// Reading back what was written: the integer written at the start of any
/// bytes is read from them, with its length, whatever follows it.
pub proof fn lemma_read_written(value: nat, rest: Seq<u8>, place: nat)
    requires
        place <= 9,
        value < room(place),
    ensures
        read_at(varint(value) + rest, place) == Some((value, varint(value).len())),
    decreases value,
{
    let bytes = varint(value) + rest;
    if value < 128 {
        assert(bytes[0] == value as u8);
    } else {
        assert(place < 9);
        assert(bytes[0] == (value % 128 + 128) as u8);
        assert(bytes.drop_first() =~= varint(value / 128) + rest);
        lemma_read_written(value / 128, rest, place + 1);
    }
}

/// An integer that was read is read the same when more bytes follow.
pub proof fn lemma_read_extends(bytes: Seq<u8>, more: Seq<u8>, place: nat)
    requires
        read_at(bytes, place) is Some,
    ensures
        read_at(bytes + more, place) == read_at(bytes, place),
    decreases bytes.len(),
{
    let longer = bytes + more;
    assert(longer[0] == bytes[0]);
    if place < 9 && bytes[0] >= 128 {
        assert(longer.drop_first() =~= bytes.drop_first() + more);
        lemma_read_extends(bytes.drop_first(), more, place + 1);
    }
}

/// Bytes that hold no integer, though they are as many as an integer can
/// have, hold none when more bytes follow.
pub proof fn lemma_unreadable_extends(bytes: Seq<u8>, more: Seq<u8>, place: nat)
    requires
        place <= 9,
        read_at(bytes, place) is None,
        bytes.len() + place >= 10,
    ensures
        read_at(bytes + more, place) is None,
    decreases bytes.len(),
{
    let longer = bytes + more;
    assert(longer[0] == bytes[0]);
    if place < 9 && bytes[0] >= 128 {
        assert(longer.drop_first() =~= bytes.drop_first() + more);
        lemma_unreadable_extends(bytes.drop_first(), more, place + 1);
    }
}

/// A variable-length integer cut short cannot be read.
proof fn lemma_head_prefix(value: nat, cut: int, place: nat)
    requires
        place <= 9,
        value < room(place),
        0 <= cut < varint(value).len(),
    ensures
        read_at(varint(value).take(cut), place) is None,
    decreases value,
{
    let head = varint(value);
    if value >= 128 && cut > 0 {
        assert(head.take(cut)[0] == (value % 128 + 128) as u8);
        assert(head.take(cut).drop_first() =~= varint(value / 128).take(cut - 1));
        lemma_head_prefix(value / 128, cut - 1, place + 1);
    }
}

/// Four bytes that are those of a pattern hold that pattern.
pub proof fn lemma_le32_window(bytes: Seq<u8>, at: int, value: u32)
    requires
        0 <= at,
        at + 4 <= bytes.len(),
        bytes[at] == le32(value)[0],
        bytes[at + 1] == le32(value)[1],
        bytes[at + 2] == le32(value)[2],
        bytes[at + 3] == le32(value)[3],
    ensures
        le32_at(bytes, at) == value,
{
}

/// A text written and read back gives the text that was written, whatever
/// follows it.
pub proof fn lemma_text_read_written(text: Seq<char>, rest: Seq<u8>)
    requires
        encode_utf8(text).len() < room(0),
    ensures
        read_text(text_bytes(text) + rest) == Some((text, text_bytes(text).len())),
{
    reveal(text_bytes);
    reveal(read_text);
    let body = encode_utf8(text);
    let head = varint(body.len());
    let bytes = text_bytes(text) + rest;
    assert(bytes =~= head + (body + rest));
    lemma_read_written(body.len(), body + rest, 0);
    assert(bytes.subrange(head.len() as int, (head.len() + body.len()) as int) =~= body);
    encode_utf8_valid_utf8(text);
    encode_utf8_decode_utf8(text);
}

/// Framing round trip: a frame, followed by anything at all, is found at
/// the start of the buffer with its payload and its own length. Frames can
/// therefore follow each other on a stream with nothing between them.
pub proof fn lemma_frame_found(payload: Seq<u8>, rest: Seq<u8>)
    requires
        payload.len() <= MAX_PAYLOAD,
    ensures
        framing(frame(payload) + rest) == (FramingView::Complete {
            payload,
            consumed: frame(payload).len(),
        }),
{
    let head = varint(payload.len());
    let buffer = frame(payload) + rest;
    assert(buffer =~= head + (payload + rest));
    lemma_read_written(payload.len(), payload + rest, 0);
    assert(buffer.subrange(head.len() as int, (head.len() + payload.len()) as int) =~= payload);
}

/// A frame cut short is the start of a frame: every proper prefix of a
/// frame is incomplete, never corrupt and never a shorter frame.
pub proof fn lemma_frame_prefix(payload: Seq<u8>, cut: int)
    requires
        payload.len() <= MAX_PAYLOAD,
        0 <= cut < frame(payload).len(),
    ensures
        framing(frame(payload).take(cut)) == FramingView::Incomplete,
{
    let head = varint(payload.len());
    lemma_varint_len(payload.len(), 0);
    if cut < head.len() {
        assert(frame(payload).take(cut) =~= head.take(cut));
        lemma_head_prefix(payload.len(), cut, 0);
    } else {
        let tail = payload.take(cut - head.len());
        assert(frame(payload).take(cut) =~= head + tail);
        lemma_read_written(payload.len(), tail, 0);
    }
}

/// What was found at the start of a buffer, a frame or the lack of one for
/// good, is found there when more bytes have arrived.
pub proof fn lemma_framing_extends(buffer: Seq<u8>, more: Seq<u8>)
    requires
        framing(buffer) != FramingView::Incomplete,
    ensures
        framing(buffer + more) == framing(buffer),
{
    let longer = buffer + more;
    match read_varint(buffer) {
        None => {
            lemma_unreadable_extends(buffer, more, 0);
        },
        Some((length, count)) => {
            lemma_read_extends(buffer, more, 0);
            if length <= MAX_PAYLOAD {
                assert(longer.subrange(count as int, (count + length) as int)
                    =~= buffer.subrange(count as int, (count + length) as int));
            }
        },
    }
}

} // verus!
