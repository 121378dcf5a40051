//! The wire codec, upper half: the byte layout of envelopes.
//!
//! An envelope is its id as a text, one byte that tells the kind of the
//! payload, and the payload's fields in a fixed order. A text is the length
//! of its UTF-8 form and that form; a bit pattern is four bytes, the low one
//! first; a timestamp and the length of a list are variable-length
//! integers.

use vstd::prelude::*;
use crate::model::{
    views, BulletState, BulletStateView, Color, Envelope, EnvelopeView, Input, Payload,
    PayloadView, PlayerState, PlayerStateView, Quat, Snapshot, SnapshotView, Vec2, Vec3,
};
use crate::wire::{
    decode_frame_at, encode_frame, frame, framing, le32, le32_at, lemma_frame_found,
    lemma_read_bounds, lemma_read_written, lemma_text_read_written, push_le32, push_text,
    push_varint, read_text, read_varint, room, take_le32, take_number, take_text, text_bytes,
    varint, Framing, FramingView, MAX_PAYLOAD,
};
use vstd::utf8::encode_utf8;

verus! {

/// A value with a place in the byte layout.
pub trait Wire: View + Sized {
    /// The bytes of a value.
    spec fn bytes_of(v: Self::V) -> Seq<u8>;

    /// The value that the bytes start with, and the number of bytes it
    /// takes.
    spec fn read(bytes: Seq<u8>) -> Option<(Self::V, nat)>;

    /// Whether the lengths within the value fit the layout.
    spec fn sendable(v: Self::V) -> bool;

    /// Appends the bytes of the value.
    fn write(&self, out: &mut Vec<u8>)
        ensures
            final(out)@ == old(out)@ + Self::bytes_of(self@),
    ;

    /// Reads the value that starts at an offset: the value and the offset
    /// behind it.
    fn take(bytes: &[u8], from: usize) -> (taken: Option<(Self, usize)>)
        requires
            from <= bytes@.len(),
        ensures
            match taken {
                Some((value, next)) => {
                    &&& from < next <= bytes@.len()
                    &&& Self::read(bytes@.skip(from as int)) == Some(
                        (value@, (next - from) as nat),
                    )
                },
                None => Self::read(bytes@.skip(from as int)) is None,
            },
    ;

    /// A value written and read back is the value that was written,
    /// whatever follows it.
    proof fn lemma_read_written(v: Self::V, rest: Seq<u8>)
        requires
            Self::sendable(v),
        ensures
            Self::read(Self::bytes_of(v) + rest) == Some((v, Self::bytes_of(v).len())),
    ;
}

/// Whether a text is short enough for its length to be written.
pub open spec fn short(text: Seq<char>) -> bool {
    encode_utf8(text).len() < room(0)
}

/// Bit patterns as bytes, four to a pattern, one pattern after the other.
#[verifier::opaque]
pub open spec fn words(patterns: Seq<u32>) -> Seq<u8> {
    Seq::new(4 * patterns.len(), |i: int| le32(patterns[i / 4])[i % 4])
}

/// The `count` bit patterns that the bytes start with.
#[verifier::opaque]
pub open spec fn read_words(bytes: Seq<u8>, count: nat) -> Option<Seq<u32>> {
    if bytes.len() >= 4 * count {
        Some(Seq::new(count, |k: int| le32_at(bytes, 4 * k)))
    } else {
        None
    }
}

/// Appends bit patterns, four bytes to each.
pub fn push_words(out: &mut Vec<u8>, patterns: &Vec<u32>)
    ensures
        final(out)@ == old(out)@ + words(patterns@),
{
    let ghost before = out@;
    let mut k: usize = 0;
    proof {
        reveal(words);
        assert(out@ =~= before + words(patterns@.take(0)));
    }
    while k < patterns.len()
        invariant
            k <= patterns.len(),
            out@ == before + words(patterns@.take(k as int)),
        decreases patterns.len() - k,
    {
        let ghost sofar = out@;
        push_le32(out, patterns[k]);
        proof {
            reveal(words);
            let shorter = words(patterns@.take(k as int));
            let longer = words(patterns@.take(k as int + 1));
            assert(longer =~= shorter + le32(patterns@[k as int])) by {
                assert forall|i: int| 0 <= i < longer.len() implies longer[i] == (shorter + le32(
                    patterns@[k as int],
                ))[i] by {
                    if i < 4 * k {
                        assert(patterns@.take(k as int + 1)[i / 4] == patterns@.take(k as int)[i
                            / 4]);
                    } else {
                        assert(i / 4 == k as int);
                        assert(i % 4 == i - 4 * k);
                    }
                }
            }
            assert(out@ =~= before + longer);
        }
        k += 1;
    }
    assert(patterns@.take(patterns.len() as int) =~= patterns@);
    proof {
        reveal(words);
        assert(words(patterns@.take(0)) =~= Seq::<u8>::empty());
    }
}

/// Reads `count` bit patterns that start at an offset.
pub fn take_words(bytes: &[u8], from: usize, count: usize) -> (taken: Option<Vec<u32>>)
    requires
        from <= bytes@.len(),
    ensures
        match taken {
            Some(patterns) => {
                &&& from + 4 * count <= bytes@.len()
                &&& patterns@.len() == count
                &&& read_words(bytes@.skip(from as int), count as nat) == Some(patterns@)
            },
            None => read_words(bytes@.skip(from as int), count as nat) is None,
        },
{
    let ghost tail = bytes@.skip(from as int);
    proof {
        reveal(read_words);
    }
    if (bytes.len() - from) / 4 < count {
        return None;
    }
    let mut patterns: Vec<u32> = Vec::new();
    let mut k: usize = 0;
    while k < count
        invariant
            k <= count,
            from + 4 * count <= bytes@.len() <= usize::MAX,
            tail == bytes@.skip(from as int),
            patterns@.len() == k,
            forall|x: int| 0 <= x < k ==> #[trigger] patterns@[x] == le32_at(tail, 4 * x),
        decreases count - k,
    {
        let pattern = take_le32(bytes, from + 4 * k);
        proof {
            assert(tail[4 * k] == bytes@[from + 4 * k]);
            assert(tail[4 * k + 1] == bytes@[from + 4 * k + 1]);
            assert(tail[4 * k + 2] == bytes@[from + 4 * k + 2]);
            assert(tail[4 * k + 3] == bytes@[from + 4 * k + 3]);
        }
        patterns.push(pattern);
        k += 1;
    }
    assert(patterns@ =~= read_words(tail, count as nat)->0);
    Some(patterns)
}

/// The bit patterns of a player's state, in layout order.
pub open spec fn player_words(p: PlayerStateView) -> Seq<u32> {
    seq![
        p.radius,
        p.color.r,
        p.color.g,
        p.color.b,
        p.position.x,
        p.position.y,
        p.position.z,
        p.velocity.x,
        p.velocity.y,
    ]
}

/// The bytes of a player's state.
pub open spec fn player_bytes(p: PlayerStateView) -> Seq<u8> {
    text_bytes(p.id) + text_bytes(p.client_id) + text_bytes(p.spawn_id) + words(player_words(p))
}

/// The player's state that the bytes start with.
pub open spec fn read_player(bytes: Seq<u8>) -> Option<(PlayerStateView, nat)> {
    match read_text(bytes) {
        Some((id, a)) => match read_text(bytes.skip(a as int)) {
            Some((client_id, b)) => match read_text(bytes.skip((a + b) as int)) {
                Some((spawn_id, c)) => match read_words(bytes.skip((a + b + c) as int), 9) {
                    Some(w) => Some(
                        (
                            PlayerStateView {
                                id,
                                client_id,
                                spawn_id,
                                radius: w[0],
                                color: Color { r: w[1], g: w[2], b: w[3] },
                                position: Vec3 { x: w[4], y: w[5], z: w[6] },
                                velocity: Vec2 { x: w[7], y: w[8] },
                            },
                            a + b + c + 36,
                        ),
                    ),
                    None => None,
                },
                None => None,
            },
            None => None,
        },
        None => None,
    }
}

impl Wire for PlayerState {
    open spec fn bytes_of(v: PlayerStateView) -> Seq<u8> {
        player_bytes(v)
    }

    open spec fn read(bytes: Seq<u8>) -> Option<(PlayerStateView, nat)> {
        read_player(bytes)
    }

    open spec fn sendable(v: PlayerStateView) -> bool {
        short(v.id) && short(v.client_id) && short(v.spawn_id)
    }

    fn write(&self, out: &mut Vec<u8>) {
        let ghost before = out@;
        push_text(out, &self.id);
        push_text(out, &self.client_id);
        push_text(out, &self.spawn_id);
        let mut patterns: Vec<u32> = Vec::new();
        patterns.push(self.radius);
        patterns.push(self.color.r);
        patterns.push(self.color.g);
        patterns.push(self.color.b);
        patterns.push(self.position.x);
        patterns.push(self.position.y);
        patterns.push(self.position.z);
        patterns.push(self.velocity.x);
        patterns.push(self.velocity.y);
        assert(patterns@ =~= player_words(self@));
        push_words(out, &patterns);
        assert(out@ =~= before + player_bytes(self@));
    }

    fn take(bytes: &[u8], from: usize) -> (taken: Option<(Self, usize)>) {
        let ghost tail = bytes@.skip(from as int);
        let total = bytes.len();
        let (id, first) = match take_text(bytes, from) {
            Some(found) => found,
            None => { return None; },
        };
        assert(bytes@.skip(first as int) =~= tail.skip(first - from));
        let (client_id, second) = match take_text(bytes, first) {
            Some(found) => found,
            None => { return None; },
        };
        assert(bytes@.skip(second as int) =~= tail.skip(second - from));
        let (spawn_id, third) = match take_text(bytes, second) {
            Some(found) => found,
            None => { return None; },
        };
        assert(bytes@.skip(third as int) =~= tail.skip(third - from));
        let w = match take_words(bytes, third, 9) {
            Some(found) => found,
            None => { return None; },
        };
        Some(
            (
                PlayerState {
                    id,
                    client_id,
                    spawn_id,
                    radius: w[0],
                    color: Color { r: w[1], g: w[2], b: w[3] },
                    position: Vec3 { x: w[4], y: w[5], z: w[6] },
                    velocity: Vec2 { x: w[7], y: w[8] },
                },
                third + 36,
            ),
        )
    }

    proof fn lemma_read_written(v: PlayerStateView, rest: Seq<u8>) {
        let fixed = words(player_words(v));
        let bytes = player_bytes(v) + rest;
        let a = text_bytes(v.id).len();
        let b = text_bytes(v.client_id).len();
        let c = text_bytes(v.spawn_id).len();
        let after_id = text_bytes(v.client_id) + text_bytes(v.spawn_id) + fixed + rest;
        let after_client = text_bytes(v.spawn_id) + fixed + rest;
        assert(bytes =~= text_bytes(v.id) + after_id);
        lemma_text_read_written(v.id, after_id);
        assert(bytes.skip(a as int) =~= text_bytes(v.client_id) + after_client);
        lemma_text_read_written(v.client_id, after_client);
        assert(bytes.skip((a + b) as int) =~= text_bytes(v.spawn_id) + (fixed + rest));
        lemma_text_read_written(v.spawn_id, fixed + rest);
        assert(bytes.skip((a + b + c) as int) =~= fixed + rest);
        lemma_words_read_written(player_words(v), rest);
    }
}

/// The bit patterns of a bullet's state, in layout order.
pub open spec fn bullet_words(b: BulletStateView) -> Seq<u32> {
    seq![
        b.position.x,
        b.position.y,
        b.position.z,
        b.rotation.x,
        b.rotation.y,
        b.rotation.z,
        b.rotation.w,
        b.velocity.x,
        b.velocity.y,
    ]
}

/// The bytes of a bullet's state.
pub open spec fn bullet_bytes(b: BulletStateView) -> Seq<u8> {
    text_bytes(b.id) + words(bullet_words(b))
}

/// The bullet's state that the bytes start with.
pub open spec fn read_bullet(bytes: Seq<u8>) -> Option<(BulletStateView, nat)> {
    match read_text(bytes) {
        Some((id, a)) => match read_words(bytes.skip(a as int), 9) {
            Some(w) => Some(
                (
                    BulletStateView {
                        id,
                        position: Vec3 { x: w[0], y: w[1], z: w[2] },
                        rotation: Quat { x: w[3], y: w[4], z: w[5], w: w[6] },
                        velocity: Vec2 { x: w[7], y: w[8] },
                    },
                    a + 36,
                ),
            ),
            None => None,
        },
        None => None,
    }
}

impl Wire for BulletState {
    open spec fn bytes_of(v: BulletStateView) -> Seq<u8> {
        bullet_bytes(v)
    }

    open spec fn read(bytes: Seq<u8>) -> Option<(BulletStateView, nat)> {
        read_bullet(bytes)
    }

    open spec fn sendable(v: BulletStateView) -> bool {
        short(v.id)
    }

    fn write(&self, out: &mut Vec<u8>) {
        let ghost before = out@;
        push_text(out, &self.id);
        let mut patterns: Vec<u32> = Vec::new();
        patterns.push(self.position.x);
        patterns.push(self.position.y);
        patterns.push(self.position.z);
        patterns.push(self.rotation.x);
        patterns.push(self.rotation.y);
        patterns.push(self.rotation.z);
        patterns.push(self.rotation.w);
        patterns.push(self.velocity.x);
        patterns.push(self.velocity.y);
        assert(patterns@ =~= bullet_words(self@));
        push_words(out, &patterns);
        assert(out@ =~= before + bullet_bytes(self@));
    }

    fn take(bytes: &[u8], from: usize) -> (taken: Option<(Self, usize)>) {
        let ghost tail = bytes@.skip(from as int);
        let total = bytes.len();
        let (id, first) = match take_text(bytes, from) {
            Some(found) => found,
            None => { return None; },
        };
        assert(bytes@.skip(first as int) =~= tail.skip(first - from));
        let w = match take_words(bytes, first, 9) {
            Some(found) => found,
            None => { return None; },
        };
        Some(
            (
                BulletState {
                    id,
                    position: Vec3 { x: w[0], y: w[1], z: w[2] },
                    rotation: Quat { x: w[3], y: w[4], z: w[5], w: w[6] },
                    velocity: Vec2 { x: w[7], y: w[8] },
                },
                first + 36,
            ),
        )
    }

    proof fn lemma_read_written(v: BulletStateView, rest: Seq<u8>) {
        let fixed = words(bullet_words(v));
        let bytes = bullet_bytes(v) + rest;
        assert(bytes =~= text_bytes(v.id) + (fixed + rest));
        lemma_text_read_written(v.id, fixed + rest);
        assert(bytes.skip(text_bytes(v.id).len() as int) =~= fixed + rest);
        lemma_words_read_written(bullet_words(v), rest);
    }
}

/// The bytes of the items of a list, one item after the other.
#[verifier::opaque]
pub open spec fn list_bytes<T: Wire>(items: Seq<T::V>) -> Seq<u8>
    decreases items.len(),
{
    if items.len() == 0 {
        Seq::empty()
    } else {
        T::bytes_of(items[0]) + list_bytes::<T>(items.drop_first())
    }
}

/// The `count` items that the bytes start with, and the number of bytes
/// they take.
#[verifier::opaque]
pub open spec fn read_list<T: Wire>(bytes: Seq<u8>, count: nat) -> Option<(Seq<T::V>, nat)>
    decreases count,
{
    if count == 0 {
        Some((Seq::empty(), 0nat))
    } else {
        match T::read(bytes) {
            Some((first, taken)) => match read_list::<T>(
                bytes.skip(taken as int),
                (count - 1) as nat,
            ) {
                Some((others, more)) => Some((seq![first] + others, taken + more)),
                None => None,
            },
            None => None,
        }
    }
}

/// The bytes of a list: the number of its items, then the items.
#[verifier::opaque]
pub open spec fn counted_bytes<T: Wire>(items: Seq<T::V>) -> Seq<u8> {
    varint(items.len()) + list_bytes::<T>(items)
}

/// The list that the bytes start with, and the number of bytes it takes.
#[verifier::opaque]
pub open spec fn read_counted<T: Wire>(bytes: Seq<u8>) -> Option<(Seq<T::V>, nat)> {
    match read_varint(bytes) {
        Some((count, taken)) => match read_list::<T>(bytes.skip(taken as int), count) {
            Some((items, more)) => Some((items, taken + more)),
            None => None,
        },
        None => None,
    }
}

/// What was read so far, followed by what is read from here on.
pub open spec fn extended<V>(sofar: Seq<V>, offset: nat, onward: Option<(Seq<V>, nat)>) -> Option<
    (Seq<V>, nat),
> {
    match onward {
        Some((others, more)) => Some((sofar + others, offset + more)),
        None => None,
    }
}

/// Appends a list: the number of its items, then the items.
pub fn push_list<T: Wire>(out: &mut Vec<u8>, items: &Vec<T>)
    ensures
        final(out)@ == old(out)@ + counted_bytes::<T>(views(items@)),
{
    let ghost before = out@;
    let ghost listed = views(items@);
    push_varint(out, items.len() as u64);
    let ghost head = out@;
    let mut i: usize = 0;
    proof {
        reveal(list_bytes);
        assert(out@ =~= head + list_bytes::<T>(listed.take(0)));
    }
    while i < items.len()
        invariant
            i <= items.len(),
            listed == views(items@),
            out@ == head + list_bytes::<T>(listed.take(i as int)),
        decreases items.len() - i,
    {
        items[i].write(out);
        proof {
            reveal(list_bytes);
            assert(listed.take(i as int + 1) =~= listed.take(i as int) + seq![listed[i as int]]);
            lemma_list_bytes_join::<T>(listed.take(i as int), seq![listed[i as int]]);
            assert(seq![listed[i as int]].drop_first() =~= Seq::<T::V>::empty());
            assert(list_bytes::<T>(Seq::<T::V>::empty()) =~= Seq::<u8>::empty());
            assert(seq![listed[i as int]][0] == listed[i as int]);
            assert(list_bytes::<T>(seq![listed[i as int]]) =~= T::bytes_of(listed[i as int]));
            assert(out@ =~= head + list_bytes::<T>(listed.take(i as int + 1)));
        }
        i += 1;
    }
    proof {
        reveal(counted_bytes);
        assert(listed.take(items.len() as int) =~= listed);
        assert(out@ =~= before + counted_bytes::<T>(listed));
    }
}

/// Reads the list that starts at an offset: the list and the offset
/// behind it.
pub fn take_list<T: Wire>(bytes: &[u8], from: usize) -> (taken: Option<(Vec<T>, usize)>)
    requires
        from <= bytes@.len(),
    ensures
        match taken {
            Some((items, next)) => {
                &&& from < next <= bytes@.len()
                &&& read_counted::<T>(bytes@.skip(from as int)) == Some(
                    (views(items@), (next - from) as nat),
                )
            },
            None => read_counted::<T>(bytes@.skip(from as int)) is None,
        },
{
    let ghost tail = bytes@.skip(from as int);
    proof {
        reveal(read_counted);
        reveal(read_list);
    }
    let (count, start) = match take_number(bytes, from) {
        Some(found) => found,
        None => { return None; },
    };
    let ghost body = bytes@.skip(start as int);
    assert(body =~= tail.skip(start - from));
    let mut items: Vec<T> = Vec::new();
    let mut at: usize = start;
    let mut i: u64 = 0;
    assert(bytes@.skip(at as int) =~= body);
    assert(views(items@) + Seq::<T::V>::empty() =~= views(items@));
    while i < count
        invariant
            i <= count,
            from < start <= at <= bytes@.len(),
            tail == bytes@.skip(from as int),
            body == tail.skip(start - from),
            read_varint(tail) == Some((count as nat, (start - from) as nat)),
            read_list::<T>(body, count as nat) == extended(
                views(items@),
                (at - start) as nat,
                read_list::<T>(bytes@.skip(at as int), (count - i) as nat),
            ),
        decreases count - i,
    {
        let ghost sofar = views(items@);
        let ghost here = bytes@.skip(at as int);
        proof {
            reveal(read_list);
            reveal(read_counted);
        }
        match T::take(bytes, at) {
            None => {
                return None;
            },
            Some((item, next)) => {
                proof {
                    assert(here.skip(next - at) =~= bytes@.skip(next as int));
                    let onward = read_list::<T>(
                        bytes@.skip(next as int),
                        (count - i - 1) as nat,
                    );
                    if onward is Some {
                        let (others, more) = onward->0;
                        assert((sofar.push(item@)) + others =~= sofar + (seq![item@] + others));
                    }
                }
                items.push(item);
                assert(views(items@) =~= sofar.push(item@));
                at = next;
            },
        }
        i += 1;
    }
    proof {
        reveal(read_list);
        reveal(read_counted);
        assert(views(items@) + Seq::<T::V>::empty() =~= views(items@));
    }
    Some((items, at))
}

/// The bytes of an intent.
pub open spec fn input_bytes(input: Input) -> Seq<u8> {
    match input {
        Input::Spawn => seq![0u8],
        Input::MoveLeft => seq![1u8],
        Input::MoveRight => seq![2u8],
        Input::Jump => seq![3u8],
        Input::Shoot { aim } => seq![4u8] + words(seq![aim.x, aim.y]),
        Input::Block => seq![5u8],
    }
}

/// The intent that the bytes start with.
pub open spec fn read_input(bytes: Seq<u8>) -> Option<(Input, nat)> {
    if bytes.len() == 0 {
        None
    } else if bytes[0] == 0 {
        Some((Input::Spawn, 1nat))
    } else if bytes[0] == 1 {
        Some((Input::MoveLeft, 1nat))
    } else if bytes[0] == 2 {
        Some((Input::MoveRight, 1nat))
    } else if bytes[0] == 3 {
        Some((Input::Jump, 1nat))
    } else if bytes[0] == 4 {
        match read_words(bytes.skip(1), 2) {
            Some(w) => Some((Input::Shoot { aim: Vec2 { x: w[0], y: w[1] } }, 9nat)),
            None => None,
        }
    } else if bytes[0] == 5 {
        Some((Input::Block, 1nat))
    } else {
        None
    }
}

/// Appends an intent.
pub fn push_input(out: &mut Vec<u8>, input: &Input)
    ensures
        final(out)@ == old(out)@ + input_bytes(*input),
{
    let ghost before = out@;
    match input {
        Input::Spawn => out.push(0),
        Input::MoveLeft => out.push(1),
        Input::MoveRight => out.push(2),
        Input::Jump => out.push(3),
        Input::Shoot { aim } => {
            out.push(4);
            let mut patterns: Vec<u32> = Vec::new();
            patterns.push(aim.x);
            patterns.push(aim.y);
            assert(patterns@ =~= seq![aim.x, aim.y]);
            push_words(out, &patterns);
        },
        Input::Block => out.push(5),
    }
    assert(out@ =~= before + input_bytes(*input));
}

/// Reads the intent that starts at an offset: the intent and the offset
/// behind it.
pub fn take_input(bytes: &[u8], from: usize) -> (taken: Option<(Input, usize)>)
    requires
        from <= bytes@.len(),
    ensures
        match taken {
            Some((input, next)) => {
                &&& from < next <= bytes@.len()
                &&& read_input(bytes@.skip(from as int)) == Some((input, (next - from) as nat))
            },
            None => read_input(bytes@.skip(from as int)) is None,
        },
{
    let ghost tail = bytes@.skip(from as int);
    if from >= bytes.len() {
        return None;
    }
    assert(tail[0] == bytes@[from as int]);
    let kind = bytes[from];
    if kind == 0 {
        Some((Input::Spawn, from + 1))
    } else if kind == 1 {
        Some((Input::MoveLeft, from + 1))
    } else if kind == 2 {
        Some((Input::MoveRight, from + 1))
    } else if kind == 3 {
        Some((Input::Jump, from + 1))
    } else if kind == 4 {
        assert(bytes@.skip(from + 1) =~= tail.skip(1));
        match take_words(bytes, from + 1, 2) {
            Some(w) => Some((Input::Shoot { aim: Vec2 { x: w[0], y: w[1] } }, from + 9)),
            None => None,
        }
    } else if kind == 5 {
        Some((Input::Block, from + 1))
    } else {
        None
    }
}

/// The bytes of a snapshot.
pub open spec fn snapshot_bytes(snapshot: SnapshotView) -> Seq<u8> {
    varint(snapshot.timestamp as nat) + counted_bytes::<PlayerState>(snapshot.players)
        + counted_bytes::<BulletState>(snapshot.bullets)
}

/// The snapshot that the bytes start with.
pub open spec fn read_snapshot(bytes: Seq<u8>) -> Option<(SnapshotView, nat)> {
    match read_varint(bytes) {
        Some((timestamp, a)) => match read_counted::<PlayerState>(bytes.skip(a as int)) {
            Some((players, b)) => match read_counted::<BulletState>(bytes.skip((a + b) as int)) {
                Some((bullets, c)) => Some(
                    (SnapshotView { timestamp: timestamp as u64, players, bullets }, a + b + c),
                ),
                None => None,
            },
            None => None,
        },
        None => None,
    }
}

/// Appends a snapshot.
pub fn push_snapshot(out: &mut Vec<u8>, snapshot: &Snapshot)
    ensures
        final(out)@ == old(out)@ + snapshot_bytes(snapshot@),
{
    let ghost before = out@;
    push_varint(out, snapshot.timestamp);
    push_list(out, &snapshot.players);
    push_list(out, &snapshot.bullets);
    assert(out@ =~= before + snapshot_bytes(snapshot@));
}

/// Reads the snapshot that starts at an offset: the snapshot and the
/// offset behind it.
pub fn take_snapshot(bytes: &[u8], from: usize) -> (taken: Option<(Snapshot, usize)>)
    requires
        from <= bytes@.len(),
    ensures
        match taken {
            Some((snapshot, next)) => {
                &&& from < next <= bytes@.len()
                &&& read_snapshot(bytes@.skip(from as int)) == Some(
                    (snapshot@, (next - from) as nat),
                )
            },
            None => read_snapshot(bytes@.skip(from as int)) is None,
        },
{
    let ghost tail = bytes@.skip(from as int);
    let (timestamp, first) = match take_number(bytes, from) {
        Some(found) => found,
        None => { return None; },
    };
    assert(bytes@.skip(first as int) =~= tail.skip(first - from));
    let (players, second) = match take_list::<PlayerState>(bytes, first) {
        Some(found) => found,
        None => { return None; },
    };
    assert(bytes@.skip(second as int) =~= tail.skip(second - from));
    let (bullets, third) = match take_list::<BulletState>(bytes, second) {
        Some(found) => found,
        None => { return None; },
    };
    Some((Snapshot { timestamp, players, bullets }, third))
}

/// The bytes of a payload: the byte that tells its kind, then its fields.
pub open spec fn payload_bytes(payload: PayloadView) -> Seq<u8> {
    match payload {
        PayloadView::Player(state) => seq![1u8] + player_bytes(state),
        PayloadView::Bullet(state) => seq![2u8] + bullet_bytes(state),
        PayloadView::Input { client_id, input } => seq![3u8] + text_bytes(client_id) + input_bytes(
            input,
        ),
        PayloadView::Snapshot(snapshot) => seq![4u8] + snapshot_bytes(snapshot),
        PayloadView::OutOfSync => seq![5u8],
        PayloadView::DespawnPlayer { player_id } => seq![6u8] + text_bytes(player_id),
    }
}

/// The payload that the bytes start with. There is none where the first
/// byte tells no known kind, or where the fields of that kind cannot be
/// read.
pub open spec fn read_payload(bytes: Seq<u8>) -> Option<(PayloadView, nat)> {
    if bytes.len() == 0 {
        None
    } else if bytes[0] == 1 {
        match read_player(bytes.skip(1)) {
            Some((state, a)) => Some((PayloadView::Player(state), 1 + a)),
            None => None,
        }
    } else if bytes[0] == 2 {
        match read_bullet(bytes.skip(1)) {
            Some((state, a)) => Some((PayloadView::Bullet(state), 1 + a)),
            None => None,
        }
    } else if bytes[0] == 3 {
        match read_text(bytes.skip(1)) {
            Some((client_id, a)) => match read_input(bytes.skip((1 + a) as int)) {
                Some((input, b)) => Some((PayloadView::Input { client_id, input }, 1 + a + b)),
                None => None,
            },
            None => None,
        }
    } else if bytes[0] == 4 {
        match read_snapshot(bytes.skip(1)) {
            Some((snapshot, a)) => Some((PayloadView::Snapshot(snapshot), 1 + a)),
            None => None,
        }
    } else if bytes[0] == 5 {
        Some((PayloadView::OutOfSync, 1nat))
    } else if bytes[0] == 6 {
        match read_text(bytes.skip(1)) {
            Some((player_id, a)) => Some((PayloadView::DespawnPlayer { player_id }, 1 + a)),
            None => None,
        }
    } else {
        None
    }
}

/// Appends a payload.
pub fn push_payload(out: &mut Vec<u8>, payload: &Payload)
    ensures
        final(out)@ == old(out)@ + payload_bytes(payload@),
{
    let ghost before = out@;
    match payload {
        Payload::Player(state) => {
            out.push(1);
            state.write(out);
        },
        Payload::Bullet(state) => {
            out.push(2);
            state.write(out);
        },
        Payload::Input { client_id, input } => {
            out.push(3);
            push_text(out, client_id);
            push_input(out, input);
        },
        Payload::Snapshot(snapshot) => {
            out.push(4);
            push_snapshot(out, snapshot);
        },
        Payload::OutOfSync => {
            out.push(5);
        },
        Payload::DespawnPlayer { player_id } => {
            out.push(6);
            push_text(out, player_id);
        },
    }
    assert(out@ =~= before + payload_bytes(payload@));
}

/// Reads the payload that starts at an offset: the payload and the offset
/// behind it.
pub fn take_payload(bytes: &[u8], from: usize) -> (taken: Option<(Payload, usize)>)
    requires
        from <= bytes@.len(),
    ensures
        match taken {
            Some((payload, next)) => {
                &&& from < next <= bytes@.len()
                &&& read_payload(bytes@.skip(from as int)) == Some((payload@, (next - from) as nat))
            },
            None => read_payload(bytes@.skip(from as int)) is None,
        },
{
    let ghost tail = bytes@.skip(from as int);
    if from >= bytes.len() {
        return None;
    }
    assert(tail[0] == bytes@[from as int]);
    assert(bytes@.skip(from + 1) =~= tail.skip(1));
    let kind = bytes[from];
    if kind == 1 {
        match PlayerState::take(bytes, from + 1) {
            Some((state, next)) => Some((Payload::Player(state), next)),
            None => None,
        }
    } else if kind == 2 {
        match BulletState::take(bytes, from + 1) {
            Some((state, next)) => Some((Payload::Bullet(state), next)),
            None => None,
        }
    } else if kind == 3 {
        match take_text(bytes, from + 1) {
            Some((client_id, middle)) => {
                assert(bytes@.skip(middle as int) =~= tail.skip(middle - from));
                match take_input(bytes, middle) {
                    Some((input, next)) => Some((Payload::Input { client_id, input }, next)),
                    None => None,
                }
            },
            None => None,
        }
    } else if kind == 4 {
        match take_snapshot(bytes, from + 1) {
            Some((snapshot, next)) => Some((Payload::Snapshot(snapshot), next)),
            None => None,
        }
    } else if kind == 5 {
        Some((Payload::OutOfSync, from + 1))
    } else if kind == 6 {
        match take_text(bytes, from + 1) {
            Some((player_id, next)) => Some((Payload::DespawnPlayer { player_id }, next)),
            None => None,
        }
    } else {
        None
    }
}

/// The bytes of an envelope: its id, then its payload.
pub open spec fn envelope_bytes(envelope: EnvelopeView) -> Seq<u8> {
    text_bytes(envelope.id) + payload_bytes(envelope.payload)
}

/// The envelope that the bytes hold. There is none where the id or the
/// payload cannot be read, or where bytes are left over.
pub open spec fn read_envelope(bytes: Seq<u8>) -> Option<EnvelopeView> {
    match read_text(bytes) {
        Some((id, a)) => match read_payload(bytes.skip(a as int)) {
            Some((payload, b)) => if a + b == bytes.len() {
                Some(EnvelopeView { id, payload })
            } else {
                None
            },
            None => None,
        },
        None => None,
    }
}

/// The bytes of an envelope.
pub fn serialize(envelope: &Envelope) -> (bytes: Vec<u8>)
    ensures
        bytes@ == envelope_bytes(envelope@),
{
    let mut bytes: Vec<u8> = Vec::new();
    push_text(&mut bytes, &envelope.id);
    push_payload(&mut bytes, &envelope.payload);
    assert(bytes@ =~= envelope_bytes(envelope@));
    bytes
}

/// The envelope that the bytes hold, if they hold one and nothing else.
pub fn parse(bytes: &[u8]) -> (parsed: Option<Envelope>)
    ensures
        match parsed {
            Some(envelope) => read_envelope(bytes@) == Some(envelope@),
            None => read_envelope(bytes@) is None,
        },
{
    assert(bytes@.skip(0) =~= bytes@);
    let (id, middle) = match take_text(bytes, 0) {
        Some(found) => found,
        None => { return None; },
    };
    let (payload, end) = match take_payload(bytes, middle) {
        Some(found) => found,
        None => { return None; },
    };
    if end != bytes.len() {
        return None;
    }
    Some(Envelope { id, payload })
}

/// What the start of a receive buffer holds.
#[derive(Debug, PartialEq, Eq)]
pub enum Decoded {
    /// A whole message, and the number of bytes that it takes in the
    /// buffer.
    Message { envelope: Envelope, consumed: usize },
    /// The start of a message, of which more bytes have yet to arrive.
    Incomplete,
    /// Bytes that no message starts with. The connection they came from is
    /// to be given up.
    Corrupt,
}

/// Mathematical view of a [`Decoded`].
pub enum DecodedView {
    Message { envelope: EnvelopeView, consumed: nat },
    Incomplete,
    Corrupt,
}

impl View for Decoded {
    type V = DecodedView;

    open spec fn view(&self) -> DecodedView {
        match self {
            Decoded::Message { envelope, consumed } => DecodedView::Message {
                envelope: envelope@,
                consumed: *consumed as nat,
            },
            Decoded::Incomplete => DecodedView::Incomplete,
            Decoded::Corrupt => DecodedView::Corrupt,
        }
    }
}

/// What the start of a receive buffer holds: the envelope in the frame
/// that the buffer starts with.
pub open spec fn decoding(buffer: Seq<u8>) -> DecodedView {
    match framing(buffer) {
        FramingView::Complete { payload, consumed } => match read_envelope(payload) {
            Some(envelope) => DecodedView::Message { envelope, consumed },
            None => DecodedView::Corrupt,
        },
        FramingView::Incomplete => DecodedView::Incomplete,
        FramingView::Corrupt => DecodedView::Corrupt,
    }
}

/// Encodes an envelope as one frame, ready to be written to a stream.
/// There is no frame for an envelope whose bytes exceed [`MAX_PAYLOAD`].
pub fn encode(envelope: &Envelope) -> (framed: Option<Vec<u8>>)
    ensures
        framed is Some <==> envelope_bytes(envelope@).len() <= MAX_PAYLOAD,
        framed is Some ==> framed->0@ == frame(envelope_bytes(envelope@)),
{
    let bytes = serialize(envelope);
    encode_frame(bytes.as_slice())
}

/// Decodes the message at the start of a receive buffer.
pub fn decode(buffer: &[u8]) -> (decoded: Decoded)
    ensures
        decoded@ == decoding(buffer@),
{
    assert(buffer@.skip(0) =~= buffer@);
    decode_at(buffer, 0)
}

/// Decodes the message that starts at an offset of a receive buffer.
pub fn decode_at(buffer: &[u8], from: usize) -> (decoded: Decoded)
    requires
        from <= buffer@.len(),
    ensures
        decoded@ == decoding(buffer@.skip(from as int)),
{
    match decode_frame_at(buffer, from) {
        Framing::Complete { payload, consumed } => match parse(payload.as_slice()) {
            Some(envelope) => Decoded::Message { envelope, consumed },
            None => Decoded::Corrupt,
        },
        Framing::Incomplete => Decoded::Incomplete,
        Framing::Corrupt => Decoded::Corrupt,
    }
}

/// Whether a list fits the layout: its length can be written, and so can
/// each of its items.
pub open spec fn sendable_list<T: Wire>(items: Seq<T::V>) -> bool {
    &&& items.len() < room(0)
    &&& forall|i: int| 0 <= i < items.len() ==> T::sendable(#[trigger] items[i])
}

/// Whether a snapshot fits the layout.
pub open spec fn sendable_snapshot(snapshot: SnapshotView) -> bool {
    &&& sendable_list::<PlayerState>(snapshot.players)
    &&& sendable_list::<BulletState>(snapshot.bullets)
}

/// Whether a payload fits the layout.
pub open spec fn sendable_payload(payload: PayloadView) -> bool {
    match payload {
        PayloadView::Player(state) => PlayerState::sendable(state),
        PayloadView::Bullet(state) => BulletState::sendable(state),
        PayloadView::Input { client_id, input } => short(client_id),
        PayloadView::Snapshot(snapshot) => sendable_snapshot(snapshot),
        PayloadView::OutOfSync => true,
        PayloadView::DespawnPlayer { player_id } => short(player_id),
    }
}

/// Whether an envelope fits the layout: every text in it is short enough
/// for its length to be written, and so is every list. This holds of every
/// envelope that a machine can hold.
pub open spec fn sendable_envelope(envelope: EnvelopeView) -> bool {
    short(envelope.id) && sendable_payload(envelope.payload)
}

/// Where the byte at `4 * k + j` stands among bytes written four to a
/// pattern.
proof fn lemma_quarter(k: int, j: int)
    requires
        0 <= k,
        0 <= j < 4,
    ensures
        (4 * k + j) / 4 == k,
        (4 * k + j) % 4 == j,
{
}

/// Bit patterns written and read back are the patterns that were written,
/// whatever follows them.
pub proof fn lemma_words_read_written(patterns: Seq<u32>, rest: Seq<u8>)
    ensures
        words(patterns).len() == 4 * patterns.len(),
        read_words(words(patterns) + rest, patterns.len()) == Some(patterns),
{
    reveal(words);
    reveal(read_words);
    let bytes = words(patterns) + rest;
    let back = Seq::new(patterns.len(), |k: int| le32_at(bytes, 4 * k));
    assert forall|k: int| 0 <= k < patterns.len() implies back[k] == patterns[k] by {
        lemma_quarter(k, 0);
        lemma_quarter(k, 1);
        lemma_quarter(k, 2);
        lemma_quarter(k, 3);
        assert(bytes[4 * k] == words(patterns)[4 * k + 0]);
        assert(bytes[4 * k + 1] == words(patterns)[4 * k + 1]);
        assert(bytes[4 * k + 2] == words(patterns)[4 * k + 2]);
        assert(bytes[4 * k + 3] == words(patterns)[4 * k + 3]);
        crate::wire::lemma_le32_window(bytes, 4 * k, patterns[k]);
    }
    assert(back =~= patterns);
}

/// The bytes of two lists, one after the other, are the bytes of the
/// lists joined.
pub proof fn lemma_list_bytes_join<T: Wire>(front: Seq<T::V>, back: Seq<T::V>)
    ensures
        list_bytes::<T>(front + back) == list_bytes::<T>(front) + list_bytes::<T>(back),
    decreases front.len(),
{
    reveal(list_bytes);
    if front.len() == 0 {
        assert(front + back =~= back);
        assert(list_bytes::<T>(front) + list_bytes::<T>(back) =~= list_bytes::<T>(back));
    } else {
        assert((front + back).drop_first() =~= front.drop_first() + back);
        lemma_list_bytes_join::<T>(front.drop_first(), back);
        assert(list_bytes::<T>(front + back) =~= list_bytes::<T>(front) + list_bytes::<T>(back));
    }
}

/// The items of a list written and read back are the items that were
/// written, whatever follows them.
pub proof fn lemma_list_read_written<T: Wire>(items: Seq<T::V>, rest: Seq<u8>)
    requires
        forall|i: int| 0 <= i < items.len() ==> T::sendable(#[trigger] items[i]),
    ensures
        read_list::<T>(list_bytes::<T>(items) + rest, items.len()) == Some(
            (items, list_bytes::<T>(items).len()),
        ),
    decreases items.len(),
{
    reveal(list_bytes);
    reveal(read_list);
    let bytes = list_bytes::<T>(items) + rest;
    if items.len() == 0 {
    } else {
        let first = items[0];
        let others = items.drop_first();
        let onward = list_bytes::<T>(others) + rest;
        assert(bytes =~= T::bytes_of(first) + onward);
        assert(T::sendable(items[0]));
        T::lemma_read_written(first, onward);
        assert(bytes.skip(T::bytes_of(first).len() as int) =~= onward);
        assert forall|i: int| 0 <= i < others.len() implies T::sendable(#[trigger] others[i]) by {
            assert(others[i] == items[i + 1]);
        }
        lemma_list_read_written::<T>(others, rest);
        assert(seq![first] + others =~= items);
    }
}

/// A list written and read back is the list that was written, whatever
/// follows it.
pub proof fn lemma_counted_read_written<T: Wire>(items: Seq<T::V>, rest: Seq<u8>)
    requires
        sendable_list::<T>(items),
    ensures
        read_counted::<T>(counted_bytes::<T>(items) + rest) == Some(
            (items, counted_bytes::<T>(items).len()),
        ),
{
    reveal(counted_bytes);
    reveal(read_counted);
    let head = varint(items.len());
    let body = list_bytes::<T>(items);
    let bytes = counted_bytes::<T>(items) + rest;
    assert(bytes =~= head + (body + rest));
    lemma_read_written(items.len(), body + rest, 0);
    assert(bytes.skip(head.len() as int) =~= body + rest);
    lemma_list_read_written::<T>(items, rest);
}

/// An intent written and read back is the intent that was written.
pub proof fn lemma_input_read_written(input: Input, rest: Seq<u8>)
    ensures
        read_input(input_bytes(input) + rest) == Some((input, input_bytes(input).len())),
{
    let bytes = input_bytes(input) + rest;
    match input {
        Input::Shoot { aim } => {
            let fixed = words(seq![aim.x, aim.y]);
            assert(bytes[0] == 4u8);
            assert(bytes.skip(1) =~= fixed + rest);
            lemma_words_read_written(seq![aim.x, aim.y], rest);
        },
        _ => {
            assert(bytes[0] == input_bytes(input)[0]);
        },
    }
}

/// A snapshot written and read back is the snapshot that was written.
pub proof fn lemma_snapshot_read_written(snapshot: SnapshotView, rest: Seq<u8>)
    requires
        sendable_snapshot(snapshot),
    ensures
        read_snapshot(snapshot_bytes(snapshot) + rest) == Some(
            (snapshot, snapshot_bytes(snapshot).len()),
        ),
{
    let head = varint(snapshot.timestamp as nat);
    let players = counted_bytes::<PlayerState>(snapshot.players);
    let bullets = counted_bytes::<BulletState>(snapshot.bullets);
    let bytes = snapshot_bytes(snapshot) + rest;
    assert(bytes =~= head + (players + bullets + rest));
    lemma_read_written(snapshot.timestamp as nat, players + bullets + rest, 0);
    assert(bytes.skip(head.len() as int) =~= players + (bullets + rest));
    lemma_counted_read_written::<PlayerState>(snapshot.players, bullets + rest);
    assert(bytes.skip((head.len() + players.len()) as int) =~= bullets + rest);
    lemma_counted_read_written::<BulletState>(snapshot.bullets, rest);
}

/// A payload written and read back is the payload that was written.
pub proof fn lemma_payload_read_written(payload: PayloadView, rest: Seq<u8>)
    requires
        sendable_payload(payload),
    ensures
        read_payload(payload_bytes(payload) + rest) == Some(
            (payload, payload_bytes(payload).len()),
        ),
{
    let bytes = payload_bytes(payload) + rest;
    match payload {
        PayloadView::Player(state) => {
            assert(bytes[0] == 1u8);
            assert(bytes.skip(1) =~= player_bytes(state) + rest);
            PlayerState::lemma_read_written(state, rest);
        },
        PayloadView::Bullet(state) => {
            assert(bytes[0] == 2u8);
            assert(bytes.skip(1) =~= bullet_bytes(state) + rest);
            BulletState::lemma_read_written(state, rest);
        },
        PayloadView::Input { client_id, input } => {
            assert(bytes[0] == 3u8);
            assert(bytes.skip(1) =~= text_bytes(client_id) + (input_bytes(input) + rest));
            lemma_text_read_written(client_id, input_bytes(input) + rest);
            assert(bytes.skip((1 + text_bytes(client_id).len()) as int) =~= input_bytes(input)
                + rest);
            lemma_input_read_written(input, rest);
        },
        PayloadView::Snapshot(snapshot) => {
            assert(bytes[0] == 4u8);
            assert(bytes.skip(1) =~= snapshot_bytes(snapshot) + rest);
            lemma_snapshot_read_written(snapshot, rest);
        },
        PayloadView::OutOfSync => {
            assert(bytes[0] == 5u8);
        },
        PayloadView::DespawnPlayer { player_id } => {
            assert(bytes[0] == 6u8);
            assert(bytes.skip(1) =~= text_bytes(player_id) + rest);
            lemma_text_read_written(player_id, rest);
        },
    }
}

/// Codec round trip: an envelope written and read back is the envelope
/// that was written.
pub proof fn lemma_envelope_read_written(envelope: EnvelopeView)
    requires
        sendable_envelope(envelope),
    ensures
        read_envelope(envelope_bytes(envelope)) == Some(envelope),
{
    let bytes = envelope_bytes(envelope);
    let body = payload_bytes(envelope.payload);
    lemma_text_read_written(envelope.id, body);
    assert(bytes.skip(text_bytes(envelope.id).len() as int) =~= body);
    assert(body =~= body + Seq::<u8>::empty());
    lemma_payload_read_written(envelope.payload, Seq::empty());
}

/// A message that is decoded takes at least one byte of the buffer and
/// no more than the buffer holds.
pub proof fn lemma_decoding_consumes(buffer: Seq<u8>)
    ensures
        decoding(buffer) matches DecodedView::Message { envelope, consumed } ==> 0 < consumed
            <= buffer.len(),
{
    lemma_read_bounds(buffer, 0);
}

/// Wire round trip: an encoded envelope, followed by anything at all, is
/// decoded from the start of the buffer as the envelope that was encoded,
/// with the length of its frame.
pub proof fn lemma_decode_encoded(envelope: EnvelopeView, rest: Seq<u8>)
    requires
        sendable_envelope(envelope),
        envelope_bytes(envelope).len() <= MAX_PAYLOAD,
    ensures
        decoding(frame(envelope_bytes(envelope)) + rest) == (DecodedView::Message {
            envelope,
            consumed: frame(envelope_bytes(envelope)).len(),
        }),
{
    lemma_frame_found(envelope_bytes(envelope), rest);
    lemma_envelope_read_written(envelope);
}

} // verus!
