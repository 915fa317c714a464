use fasttalk::block::Block;
use fasttalk::codec::{decode, encode};

fn text(s: &str) -> Block {
    Block::Text(s.chars().collect::<Vec<char>>())
}

// Classification boundaries: every threshold of the type-code table.
#[test]
fn boundary_type_codes() {
    assert_eq!(Block::Int(0).type_code(), 0);
    assert_eq!(Block::Int(1).type_code(), 1);
    assert_eq!(Block::Int(2).type_code(), 2);
    assert_eq!(Block::Int(255).type_code(), 2);
    assert_eq!(Block::Int(256).type_code(), 4);
    assert_eq!(Block::Int(65535).type_code(), 4);
    assert_eq!(Block::Int(65536).type_code(), 6);
    assert_eq!(Block::Int(4294967295).type_code(), 6);
    assert_eq!(Block::Int(-1).type_code(), 3);
    assert_eq!(Block::Int(-256).type_code(), 3);
    assert_eq!(Block::Int(-257).type_code(), 5);
    assert_eq!(Block::Int(-65536).type_code(), 5);
    assert_eq!(Block::Int(-65537).type_code(), 7);
    assert_eq!(Block::Int(-4294967296).type_code(), 7);
    assert_eq!(Block::Bool(false).type_code(), 0);
    assert_eq!(Block::Bool(true).type_code(), 1);
    // A number at or beyond 2^32 reaches the wire as a single-precision
    // float, so it classifies as code 8.
    assert_eq!(Block::F32((4294967296.0f32).to_bits()).type_code(), 8);
    assert_eq!(Block::F32((0.4f32).to_bits()).type_code(), 8);
    assert_eq!(text("").type_code(), 9);
    assert_eq!(text("a").type_code(), 9);
    assert_eq!(text("ab").type_code(), 10);
    assert_eq!(text("\u{1D4F1}").type_code(), 11);
}

#[test]
fn boundary_values_round_trip() {
    // ordered so that no two neighbours share a type code (a run of exactly
    // two is the format's known ambiguity)
    let msg = vec![
        Block::Int(0),
        Block::Int(2),
        Block::Int(1),
        Block::Int(255),
        Block::Int(256),
        Block::Int(-1),
        Block::Int(65535),
        Block::Int(-256),
        Block::Int(65536),
        Block::Int(-257),
        Block::Int(4294967295),
        Block::Int(-65536),
        Block::Int(-65537),
        Block::Int(0),
        Block::Int(-4294967296),
    ];
    let packet = encode(msg.clone());
    assert_eq!(decode(packet), Some(msg));
}

// Run-length correctness: N identical values decode to N values, and the
// header region has the size the compression rules give it. N == 2 is the
// known exception: its run marker stands for 2 extra repeats, so a third
// value appears.
#[test]
fn run_length_round_trips() {
    for &(n, header_bytes) in &[
        (1usize, 2usize),
        (3, 2),
        (4, 2),
        (19, 3),
        (20, 3),
        (38, 4),
        (39, 4),
    ] {
        let msg = vec![Block::Int(5); n];
        let packet = encode(msg.clone());
        // one content byte per value (code 2)
        assert_eq!(packet.len() - n, header_bytes, "header size for N={}", n);
        assert_eq!(decode(packet), Some(msg), "round trip for N={}", n);
    }
}

#[test]
fn run_length_two_is_ambiguous() {
    // Two equal values share the run marker with three, so the header asks
    // for three content bytes; only two exist, and decoding fails.
    let msg = vec![Block::Int(5), Block::Int(5)];
    let packet = encode(msg);
    assert_eq!(packet.len(), 2 + 2);
    assert_eq!(decode(packet), None);
    // With no content bytes in play, the extra value simply appears.
    let packet = encode(vec![Block::Bool(true), Block::Bool(true)]);
    assert_eq!(
        decode(packet),
        Some(vec![Block::Int(1), Block::Int(1), Block::Int(1)])
    );
}

// Sentinel validation: a first byte whose high nibble is not 15 fails.
#[test]
fn sentinel_required() {
    assert_eq!(decode(vec![]), None);
    assert_eq!(decode(vec![0x1F]), None);
    assert_eq!(decode(vec![0x0F, 0xFF]), None);
    assert_eq!(decode(vec![0xEF, 0xFF]), None);
}

// Truncation safety: every proper prefix of a valid packet fails to decode.
#[test]
fn truncation_always_fails() {
    let msg = vec![
        Block::Bool(true),
        Block::Int(300),
        text("hello"),
        Block::F32((3.14f32).to_bits()),
        text("\u{1D4F1}a"),
        Block::Int(-70000),
    ];
    let packet = encode(msg.clone());
    assert_eq!(decode(packet.clone()), Some(decode(packet.clone()).unwrap()));
    for cut in 0..packet.len() {
        let truncated: Vec<u8> = packet[..cut].to_vec();
        assert_eq!(decode(truncated), None, "prefix of {} bytes", cut);
    }
}

// The worked example: [true, true, 0.4, "hi"] classifies as [1, 1, 8, 10]
// and the two 1s collapse into a literal and one run marker.
#[test]
fn example_true_true_num_text() {
    let bits = (0.4f32).to_bits();
    assert_eq!(bits, 0x3ECCCCCD);
    let msg = vec![
        Block::Bool(true),
        Block::Bool(true),
        Block::F32(bits),
        text("hi"),
    ];
    assert_eq!(msg[0].type_code(), 1);
    assert_eq!(msg[1].type_code(), 1);
    assert_eq!(msg[2].type_code(), 8);
    assert_eq!(msg[3].type_code(), 10);
    let packet = encode(msg);
    // header nibbles 15,1,12,8,10,15 then the float bytes and "hi\0"
    assert_eq!(
        packet,
        vec![0xF1, 0xC8, 0xAF, 0xCD, 0xCC, 0xCC, 0x3E, 0x68, 0x69, 0x00]
    );
}

// The empty-text example: code 9 with content byte 0, and back.
#[test]
fn example_empty_text() {
    let packet = encode(vec![text("")]);
    assert_eq!(packet, vec![0xF9, 0xFF, 0x00]);
    assert_eq!(decode(packet), Some(vec![text("")]));
}

#[test]
fn single_char_text_content() {
    let packet = encode(vec![text("A")]);
    assert_eq!(packet, vec![0xF9, 0xFF, 0x41]);
    assert_eq!(decode(packet), Some(vec![text("A")]));
}

// Unicode round trip: a character outside the basic plane travels as a
// little-endian surrogate pair and comes back identical.
#[test]
fn unicode_surrogate_pair_round_trip() {
    let msg = vec![text("\u{1D4F1}")];
    assert_eq!(msg[0].type_code(), 11);
    let packet = encode(msg.clone());
    // header 15,11,15,15; units D835 DCF1, little-endian, then 0x0000
    assert_eq!(packet, vec![0xFB, 0xFF, 0x35, 0xD8, 0xF1, 0xDC, 0x00, 0x00]);
    assert_eq!(decode(packet), Some(msg));
}

#[test]
fn mixed_unicode_round_trip() {
    let msg = vec![
        text("caf\u{E9}"),
        Block::Int(7),
        text("\u{1F600}\u{45}\u{1F601}"),
    ];
    let packet = encode(msg.clone());
    assert_eq!(decode(packet), Some(msg));
}

#[test]
fn booleans_decode_as_numbers() {
    let packet = encode(vec![Block::Bool(false), Block::Int(9)]);
    assert_eq!(decode(packet), Some(vec![Block::Int(0), Block::Int(9)]));
}

#[test]
fn empty_message_round_trip() {
    let packet = encode(vec![]);
    assert_eq!(packet, vec![0xFF]);
    assert_eq!(decode(packet), Some(vec![]));
}

#[test]
fn negative_byte_content() {
    let packet = encode(vec![Block::Int(-1)]);
    assert_eq!(packet, vec![0xF3, 0xFF, 0xFF]);
    assert_eq!(decode(packet), Some(vec![Block::Int(-1)]));
}

// Decode failures in the content region.
#[test]
fn truncated_content_fails() {
    // header asks for one code-2 byte; none follows
    assert_eq!(decode(vec![0xF2, 0xFF]), None);
    // header asks for a four-byte float; only two follow
    assert_eq!(decode(vec![0xF8, 0xFF, 0x01, 0x02]), None);
    // ASCII text without its zero terminator
    assert_eq!(decode(vec![0xFA, 0xFF, 0x68, 0x69]), None);
    // UTF-16 text without its zero unit
    assert_eq!(decode(vec![0xFB, 0xFF, 0x41, 0x00]), None);
}

#[test]
fn truncated_header_fails() {
    // a literal then no terminator
    assert_eq!(decode(vec![0xF2]), None);
    // an escape marker missing its count nibble
    assert_eq!(decode(vec![0xF2, 0xE0]), None);
}

#[test]
fn invalid_utf16_fails() {
    // lone high surrogate before the terminator
    assert_eq!(decode(vec![0xFB, 0xFF, 0x35, 0xD8, 0x00, 0x00]), None);
    // low surrogate first
    assert_eq!(decode(vec![0xFB, 0xFF, 0xF1, 0xDC, 0x00, 0x00]), None);
    // high surrogate followed by a non-surrogate unit
    assert_eq!(
        decode(vec![0xFB, 0xFF, 0x35, 0xD8, 0x41, 0x00, 0x00, 0x00]),
        None
    );
}

// The escape marker 14 with count nibble 15 means 19 extra repeats.
#[test]
fn long_run_escape_decodes() {
    let msg = vec![Block::Bool(true); 20];
    let packet = encode(msg);
    // codes are 20 ones: nibbles 15,1,14,15,15 and a padding 15
    assert_eq!(packet, vec![0xF1, 0xEF, 0xFF]);
    assert_eq!(decode(packet), Some(vec![Block::Int(1); 20]));
}

#[test]
fn trailing_bytes_are_ignored() {
    // a complete packet for [Int(0)] with junk after the content region
    let packet = vec![0xF0, 0xFF, 0x99, 0x77];
    assert_eq!(decode(packet), Some(vec![Block::Int(0)]));
}

#[test]
fn run_marker_before_any_literal_yields_nothing() {
    // a run marker before any literal repeats the pending sentinel, which
    // describes no value
    assert_eq!(decode(vec![0xFC, 0xFF]), Some(vec![]));
}
