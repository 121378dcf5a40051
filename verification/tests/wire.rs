use relay_core::codec::{
    decode, decode_at, encode, parse, push_words, serialize, take_words, Decoded,
};
use relay_core::model::{
    BulletState, Color, Envelope, Input, Payload, PlayerState, Quat, Snapshot, Vec2, Vec3,
};
use relay_core::wire::{
    decode_frame, decode_frame_at, encode_frame, push_le32, push_text, take_le32, take_number,
    take_text, Framing, MAX_PAYLOAD,
};

fn player(id: &str) -> PlayerState {
    PlayerState {
        id: id.to_string(),
        client_id: "client".to_string(),
        spawn_id: "spawn".to_string(),
        radius: 50.0f32.to_bits(),
        color: Color { r: 1.0f32.to_bits(), g: 0.5f32.to_bits(), b: 0.25f32.to_bits() },
        position: Vec3 { x: (-3.5f32).to_bits(), y: 2.0f32.to_bits(), z: 0.1f32.to_bits() },
        velocity: Vec2 { x: 400.0f32.to_bits(), y: f32::NAN.to_bits() },
    }
}

fn bullet(id: &str) -> BulletState {
    BulletState {
        id: id.to_string(),
        position: Vec3 { x: 1, y: 2, z: 3 },
        rotation: Quat { x: 4, y: 5, z: 6, w: u32::MAX },
        velocity: Vec2 { x: 7, y: 8 },
    }
}

fn envelope(payload: Payload) -> Envelope {
    Envelope { id: "f47ac10b-58cc-4372-a567-0e02b2c3d479".to_string(), payload }
}

fn round_trip(sent: &Envelope) {
    let framed = encode(sent).unwrap();
    match decode(&framed) {
        Decoded::Message { envelope, consumed } => {
            assert_eq!(&envelope, sent);
            assert_eq!(consumed, framed.len());
        }
        other => panic!("expected a message, got {:?}", other),
    }
}

/// A number as it stands on the wire: the timestamp of an empty snapshot,
/// between the two bytes in front of it and the two behind it.
fn number(value: u64) -> Vec<u8> {
    let empty = Snapshot { timestamp: value, players: vec![], bullets: vec![] };
    let bytes = serialize(&Envelope { id: String::new(), payload: Payload::Snapshot(empty) });
    assert_eq!(&bytes[..2], &[0, 4]);
    assert_eq!(&bytes[bytes.len() - 2..], &[0, 0]);
    bytes[2..bytes.len() - 2].to_vec()
}

#[test]
fn numbers_take_seven_bits_to_a_byte() {
    assert_eq!(number(0), vec![0x00]);
    assert_eq!(number(1), vec![0x01]);
    assert_eq!(number(127), vec![0x7f]);
    assert_eq!(number(128), vec![0x80, 0x01]);
    assert_eq!(number(300), vec![0xac, 0x02]);
    assert_eq!(number(16383), vec![0xff, 0x7f]);
    assert_eq!(number(16384), vec![0x80, 0x80, 0x01]);
    assert_eq!(
        number(u64::MAX),
        vec![0xff, 0xff, 0xff, 0xff, 0xff, 0xff, 0xff, 0xff, 0xff, 0x01]
    );
}

#[test]
fn numbers_are_read_back() {
    for value in [0u64, 1, 127, 128, 300, 16384, 1 << 32, (1 << 63) - 1, 1 << 63, u64::MAX] {
        let mut bytes = number(value);
        let length = bytes.len();
        bytes.extend_from_slice(&[0xff, 0xff]);
        assert_eq!(take_number(&bytes, 0), Some((value, length)), "{value}");
    }
}

#[test]
fn number_is_read_from_an_offset() {
    let bytes = vec![0xff, 0xff, 0xac, 0x02, 0x05];
    assert_eq!(take_number(&bytes, 2), Some((300, 4)));
    assert_eq!(take_number(&bytes, 4), Some((5, 5)));
    assert_eq!(take_number(&bytes, 5), None);
}

#[test]
fn padded_number_is_accepted() {
    assert_eq!(take_number(&[0x80, 0x00], 0), Some((0, 2)));
    assert_eq!(take_number(&[0x81, 0x80, 0x00, 0x77], 0), Some((1, 3)));
}

#[test]
fn number_cut_short_is_not_read() {
    assert_eq!(take_number(&[], 0), None);
    assert_eq!(take_number(&[0x80], 0), None);
    assert_eq!(take_number(&[0xff, 0xff, 0xff], 0), None);
    assert_eq!(take_number(&[0xff; 9], 0), None);
}

#[test]
fn tenth_byte_holds_one_bit() {
    let mut bytes = vec![0xff; 9];
    bytes.push(0x01);
    assert_eq!(take_number(&bytes, 0), Some((u64::MAX, 10)));
    bytes[9] = 0x00;
    assert_eq!(take_number(&bytes, 0), Some((u64::MAX >> 1, 10)));
    bytes[9] = 0x02;
    assert_eq!(take_number(&bytes, 0), None);
    bytes[9] = 0x81;
    assert_eq!(take_number(&bytes, 0), None);
    assert_eq!(take_number(&[0x80; 11], 0), None);
}

#[test]
fn patterns_take_four_bytes_low_one_first() {
    let mut out = Vec::new();
    push_le32(&mut out, 0x0403_0201);
    push_le32(&mut out, 0);
    push_le32(&mut out, u32::MAX);
    assert_eq!(out, vec![1, 2, 3, 4, 0, 0, 0, 0, 255, 255, 255, 255]);
    assert_eq!(take_le32(&out, 0), 0x0403_0201);
    assert_eq!(take_le32(&out, 4), 0);
    assert_eq!(take_le32(&out, 8), u32::MAX);
    assert_eq!(take_le32(&out, 1), 0x0004_0302);
}

#[test]
fn float_bits_survive_the_wire() {
    for value in [0.0f32, -0.0, 1.5, -1000.25, f32::MAX, f32::MIN_POSITIVE, f32::INFINITY] {
        let mut out = Vec::new();
        push_le32(&mut out, value.to_bits());
        assert_eq!(out, value.to_le_bytes().to_vec());
        assert_eq!(f32::from_bits(take_le32(&out, 0)), value);
    }
}

#[test]
fn text_is_its_length_and_its_utf8_form() {
    let mut out = Vec::new();
    push_text(&mut out, &"abc".to_string());
    assert_eq!(out, vec![3, b'a', b'b', b'c']);
    push_text(&mut out, &"".to_string());
    push_text(&mut out, &"\u{e9}".to_string());
    assert_eq!(out, vec![3, b'a', b'b', b'c', 0, 2, 0xc3, 0xa9]);
    assert_eq!(take_text(&out, 0), Some(("abc".to_string(), 4)));
    assert_eq!(take_text(&out, 4), Some(("".to_string(), 5)));
    assert_eq!(take_text(&out, 5), Some(("\u{e9}".to_string(), 8)));
    assert_eq!(take_text(&out, 8), None);
}

#[test]
fn long_text_has_a_two_byte_length() {
    let text = "x".repeat(200);
    let mut out = Vec::new();
    push_text(&mut out, &text);
    assert_eq!(&out[..2], &[0xc8, 0x01]);
    assert_eq!(out.len(), 202);
    assert_eq!(take_text(&out, 0), Some((text, 202)));
}

#[test]
fn text_that_is_cut_short_or_no_utf8_is_not_read() {
    assert_eq!(take_text(&[3, b'a', b'b'], 0), None);
    assert_eq!(take_text(&[2, 0xc3, 0x28], 0), None);
    assert_eq!(take_text(&[1, 0xff], 0), None);
    assert_eq!(take_text(&[0xff, 0xff, 0xff, 0xff, 0xff, 0xff, 0xff, 0xff, 0xff, 0x01], 0), None);
}

#[test]
fn frame_is_length_then_payload() {
    assert_eq!(encode_frame(&[]), Some(vec![0]));
    assert_eq!(encode_frame(&[7, 8, 9]), Some(vec![3, 7, 8, 9]));
    let long = vec![0xab; 300];
    let framed = encode_frame(&long).unwrap();
    assert_eq!(&framed[..2], &[0xac, 0x02]);
    assert_eq!(&framed[2..], &long[..]);
}

#[test]
fn frame_is_found_at_the_start_of_a_buffer() {
    let mut buffer = encode_frame(&[7, 8, 9]).unwrap();
    buffer.extend_from_slice(&[1, 2, 3, 4]);
    assert_eq!(decode_frame(&buffer), Framing::Complete { payload: vec![7, 8, 9], consumed: 4 });
}

#[test]
fn frames_follow_each_other_without_delimiters() {
    let mut buffer = encode_frame(&[1]).unwrap();
    buffer.extend(encode_frame(&[]).unwrap());
    buffer.extend(encode_frame(&[2, 3]).unwrap());
    assert_eq!(decode_frame_at(&buffer, 0), Framing::Complete { payload: vec![1], consumed: 2 });
    assert_eq!(decode_frame_at(&buffer, 2), Framing::Complete { payload: vec![], consumed: 1 });
    assert_eq!(decode_frame_at(&buffer, 3), Framing::Complete { payload: vec![2, 3], consumed: 3 });
    assert_eq!(decode_frame_at(&buffer, 6), Framing::Incomplete);
}

#[test]
fn every_proper_prefix_of_a_frame_is_incomplete() {
    let framed = encode_frame(&vec![5u8; 200]).unwrap();
    for cut in 0..framed.len() {
        assert_eq!(decode_frame(&framed[..cut]), Framing::Incomplete, "cut at {cut}");
    }
}

#[test]
fn length_that_is_no_number_is_corrupt() {
    let mut buffer = vec![0xff; 9];
    buffer.push(0x02);
    assert_eq!(decode_frame(&buffer), Framing::Corrupt);
    assert_eq!(decode_frame(&[0x80; 12]), Framing::Corrupt);
    assert_eq!(decode_frame(&[0x80; 9]), Framing::Incomplete);
}

#[test]
fn length_above_the_limit_is_corrupt() {
    assert_eq!(MAX_PAYLOAD, 0x7fff_ffff);
    // 0x8000_0000 as a length.
    assert_eq!(decode_frame(&[0x80, 0x80, 0x80, 0x80, 0x08, 1, 2, 3]), Framing::Corrupt);
    // 0x7fff_ffff is within the limit: the frame is merely not there yet.
    assert_eq!(decode_frame(&[0xff, 0xff, 0xff, 0xff, 0x07, 1, 2, 3]), Framing::Incomplete);
}

#[test]
fn out_of_sync_has_the_smallest_layout() {
    let notice = Envelope { id: "ab".to_string(), payload: Payload::OutOfSync };
    assert_eq!(serialize(&notice), vec![2, b'a', b'b', 5]);
    assert_eq!(encode(&notice), Some(vec![4, 2, b'a', b'b', 5]));
}

#[test]
fn despawn_layout_is_kind_then_player_id() {
    let gone = Envelope {
        id: "i".to_string(),
        payload: Payload::DespawnPlayer { player_id: "r1".to_string() },
    };
    assert_eq!(serialize(&gone), vec![1, b'i', 6, 2, b'r', b'1']);
}

#[test]
fn input_layout_is_kind_client_and_intent() {
    let jump = Envelope {
        id: "i".to_string(),
        payload: Payload::Input { client_id: "c".to_string(), input: Input::Jump },
    };
    assert_eq!(serialize(&jump), vec![1, b'i', 3, 1, b'c', 3]);
    let shoot = Envelope {
        id: "i".to_string(),
        payload: Payload::Input {
            client_id: "c".to_string(),
            input: Input::Shoot { aim: Vec2 { x: 0x0102_0304, y: 1 } },
        },
    };
    assert_eq!(serialize(&shoot), vec![1, b'i', 3, 1, b'c', 4, 4, 3, 2, 1, 1, 0, 0, 0]);
}

#[test]
fn bullet_layout_is_id_then_nine_patterns() {
    let state = Envelope { id: "i".to_string(), payload: Payload::Bullet(bullet("b")) };
    let mut expected = vec![1, b'i', 2, 1, b'b'];
    for pattern in [1u32, 2, 3, 4, 5, 6, u32::MAX, 7, 8] {
        expected.extend_from_slice(&pattern.to_le_bytes());
    }
    assert_eq!(serialize(&state), expected);
}

#[test]
fn player_layout_is_three_texts_then_nine_patterns() {
    let p = player("p");
    let state = Envelope { id: "i".to_string(), payload: Payload::Player(p.clone()) };
    let mut expected = vec![1, b'i', 1, 1, b'p'];
    expected.push(6);
    expected.extend_from_slice(b"client");
    expected.push(5);
    expected.extend_from_slice(b"spawn");
    for pattern in [
        p.radius, p.color.r, p.color.g, p.color.b, p.position.x, p.position.y, p.position.z,
        p.velocity.x, p.velocity.y,
    ] {
        expected.extend_from_slice(&pattern.to_le_bytes());
    }
    assert_eq!(serialize(&state), expected);
}

#[test]
fn snapshot_layout_is_timestamp_and_two_counted_lists() {
    let empty = Envelope {
        id: "i".to_string(),
        payload: Payload::Snapshot(Snapshot { timestamp: 300, players: vec![], bullets: vec![] }),
    };
    assert_eq!(serialize(&empty), vec![1, b'i', 4, 0xac, 0x02, 0, 0]);
    let one = Envelope {
        id: "i".to_string(),
        payload: Payload::Snapshot(Snapshot {
            timestamp: 1,
            players: vec![],
            bullets: vec![bullet("b")],
        }),
    };
    let bytes = serialize(&one);
    assert_eq!(&bytes[..8], &[1, b'i', 4, 1, 0, 1, 1, b'b']);
    assert_eq!(bytes.len(), 8 + 36);
}

#[test]
fn every_kind_of_payload_round_trips() {
    round_trip(&envelope(Payload::OutOfSync));
    round_trip(&envelope(Payload::Player(player("red"))));
    round_trip(&envelope(Payload::Bullet(bullet("b1"))));
    round_trip(&envelope(Payload::DespawnPlayer { player_id: "red".to_string() }));
    for input in [
        Input::Spawn,
        Input::MoveLeft,
        Input::MoveRight,
        Input::Jump,
        Input::Shoot { aim: Vec2 { x: 0.6f32.to_bits(), y: (-0.8f32).to_bits() } },
        Input::Block,
    ] {
        round_trip(&envelope(Payload::Input { client_id: "c-1".to_string(), input }));
    }
    round_trip(&envelope(Payload::Snapshot(Snapshot {
        timestamp: u64::MAX,
        players: vec![player("red"), player("blue"), player("")],
        bullets: vec![bullet("b1"), bullet("b2")],
    })));
    round_trip(&envelope(Payload::Snapshot(Snapshot {
        timestamp: 0,
        players: vec![],
        bullets: vec![],
    })));
}

#[test]
fn texts_beyond_ascii_round_trip() {
    let mut p = player("\u{4e2d}\u{6587}-\u{1f600}");
    p.client_id = "caf\u{e9}".to_string();
    p.spawn_id = String::new();
    round_trip(&Envelope { id: "\u{e9}".to_string(), payload: Payload::Player(p) });
    round_trip(&Envelope { id: String::new(), payload: Payload::OutOfSync });
}

#[test]
fn large_snapshot_round_trips() {
    let players = (0..200).map(|i| player(&format!("player-{i}"))).collect();
    let bullets = (0..300).map(|i| bullet(&format!("bullet-{i}"))).collect();
    round_trip(&envelope(Payload::Snapshot(Snapshot { timestamp: 123_456, players, bullets })));
}

#[test]
fn message_is_decoded_from_the_front_of_a_stream() {
    let first = envelope(Payload::OutOfSync);
    let second = envelope(Payload::Bullet(bullet("b")));
    let mut stream = encode(&first).unwrap();
    let boundary = stream.len();
    stream.extend(encode(&second).unwrap());
    assert_eq!(decode(&stream), Decoded::Message { envelope: first, consumed: boundary });
    assert_eq!(
        decode_at(&stream, boundary),
        Decoded::Message { envelope: second, consumed: stream.len() - boundary }
    );
    assert_eq!(decode_at(&stream, stream.len()), Decoded::Incomplete);
}

#[test]
fn message_cut_short_is_incomplete() {
    let framed = encode(&envelope(Payload::Player(player("p")))).unwrap();
    for cut in 0..framed.len() {
        assert_eq!(decode(&framed[..cut]), Decoded::Incomplete, "cut at {cut}");
    }
}

#[test]
fn unknown_kind_is_corrupt() {
    for kind in [0u8, 7, 8, 100, 255] {
        assert_eq!(parse(&[1, b'i', kind]), None, "kind {kind}");
        assert_eq!(decode(&[3, 1, b'i', kind]), Decoded::Corrupt, "kind {kind}");
    }
}

#[test]
fn unknown_intent_is_corrupt() {
    assert_eq!(parse(&[1, b'i', 3, 1, b'c', 6]), None);
    assert_eq!(parse(&[1, b'i', 3, 1, b'c']), None);
    assert!(parse(&[1, b'i', 3, 1, b'c', 5]).is_some());
}

#[test]
fn bytes_left_over_in_a_frame_are_corrupt() {
    assert!(parse(&[1, b'i', 5]).is_some());
    assert_eq!(parse(&[1, b'i', 5, 0]), None);
    assert_eq!(decode(&[4, 1, b'i', 5, 0]), Decoded::Corrupt);
}

#[test]
fn payload_cut_short_within_its_frame_is_corrupt() {
    let bytes = serialize(&envelope(Payload::Player(player("p"))));
    for cut in 0..bytes.len() {
        assert_eq!(parse(&bytes[..cut]), None, "cut at {cut}");
        let framed = encode_frame(&bytes[..cut]).unwrap();
        assert_eq!(decode(&framed), Decoded::Corrupt, "cut at {cut}");
    }
}

#[test]
fn id_that_is_no_utf8_is_corrupt() {
    assert_eq!(parse(&[2, 0xc3, 0x28, 5]), None);
    assert_eq!(decode(&[4, 2, 0xc3, 0x28, 5]), Decoded::Corrupt);
}

#[test]
fn list_that_announces_more_than_it_holds_is_corrupt() {
    // A snapshot that announces three players and holds none.
    assert_eq!(parse(&[1, b'i', 4, 9, 3]), None);
    // A snapshot that announces a number of players beyond any buffer.
    let mut bytes = vec![1, b'i', 4, 9];
    bytes.extend_from_slice(&[0xff, 0xff, 0xff, 0xff, 0xff, 0xff, 0xff, 0xff, 0xff, 0x01]);
    assert_eq!(parse(&bytes), None);
}

#[test]
fn empty_frame_holds_no_message() {
    assert_eq!(decode(&[0]), Decoded::Corrupt);
    assert_eq!(decode(&[]), Decoded::Incomplete);
}

/// The reading of a number, written out plainly: seven bits to a byte, ten
/// bytes at most, one bit in the tenth.
fn read_plainly(bytes: &[u8]) -> Option<(u64, usize)> {
    let mut value: u64 = 0;
    for (place, byte) in bytes.iter().enumerate() {
        if place == 9 {
            return if *byte <= 1 { Some((value | (*byte as u64) << 63, 10)) } else { None };
        }
        value |= ((*byte & 0x7f) as u64) << (7 * place);
        if *byte < 0x80 {
            return Some((value, place + 1));
        }
    }
    None
}

/// A small generator of numbers that look random and are the same on every
/// run.
fn next(state: &mut u64) -> u64 {
    *state ^= *state << 13;
    *state ^= *state >> 7;
    *state ^= *state << 17;
    *state
}

#[test]
fn numbers_are_read_as_described_from_many_buffers() {
    let mut state = 0x9e37_79b9_7f4a_7c15u64;
    for _ in 0..20_000 {
        let length = (next(&mut state) % 14) as usize;
        let mut bytes = Vec::with_capacity(length);
        for _ in 0..length {
            let drawn = next(&mut state);
            // Mostly bytes that go on, so that long numbers are common.
            let byte = (drawn >> 8) as u8;
            let byte = if drawn % 5 == 0 { byte & 0x7f } else { byte | 0x80 };
            // Now and then a byte with few bits, as the tenth byte must be.
            bytes.push(if next(&mut state) % 7 == 0 { byte & 0x83 } else { byte });
        }
        let expected = read_plainly(&bytes);
        assert_eq!(take_number(&bytes, 0), expected, "{bytes:?}");
        let framed_as = match expected {
            None if bytes.len() < 10 => Framing::Incomplete,
            None => Framing::Corrupt,
            Some((length, count)) if length > MAX_PAYLOAD as u64 => {
                let _ = count;
                Framing::Corrupt
            }
            Some((length, count)) if bytes.len() - count < length as usize => Framing::Incomplete,
            Some((length, count)) => Framing::Complete {
                payload: bytes[count..count + length as usize].to_vec(),
                consumed: count + length as usize,
            },
        };
        assert_eq!(decode_frame(&bytes), framed_as, "{bytes:?}");
    }
}

#[test]
fn numbers_written_are_the_numbers_read_for_many_values() {
    let mut state = 0x2545_f491_4f6c_dd1du64;
    for round in 0..20_000 {
        let value = next(&mut state) >> (round % 64);
        let mut bytes = vec![0xee];
        bytes.extend(number(value));
        let length = bytes.len();
        assert_eq!(read_plainly(&bytes[1..]), Some((value, length - 1)));
        assert_eq!(take_number(&bytes, 1), Some((value, length)));
        assert!(length - 1 <= 10);
    }
}

#[test]
fn any_number_of_patterns_is_read() {
    let patterns: Vec<u32> = (0..40u32).map(|i| i.wrapping_mul(0x0101_0101)).collect();
    let mut bytes = vec![0xaa];
    push_words(&mut bytes, &patterns);
    assert_eq!(bytes.len(), 1 + 160);
    assert_eq!(take_words(&bytes, 1, 40), Some(patterns.clone()));
    assert_eq!(take_words(&bytes, 1, 17), Some(patterns[..17].to_vec()));
    assert_eq!(take_words(&bytes, 1, 0), Some(vec![]));
    assert_eq!(take_words(&bytes, 2, 40), None);
    assert_eq!(take_words(&bytes, 1, 41), None);
    assert_eq!(take_words(&bytes, 1, usize::MAX), None);
    assert_eq!(take_words(&bytes, bytes.len(), 1), None);
}
