//! Framing and codec-composition behaviour, exercised on concrete buffers.
use eligos::{Codec, CodecStack, Framed};
use eligos::{array_to_usize, usize_to_array};

fn decode_all(codec: &mut Framed, bytes: &[u8]) -> Vec<Vec<u8>> {
    let mut buf = bytes.to_vec();
    codec.decode(&mut buf)
}

#[test]
fn round_trip_basic() {
    let codec = Framed::new(4);
    let payload = vec![1u8, 2, 3, 4, 5];
    let encoded = codec.encode(&payload);
    assert_eq!(encoded, vec![0u8, 0, 0, 5, 1, 2, 3, 4, 5]);

    let mut decoder = Framed::new(4);
    let msgs = decode_all(&mut decoder, &encoded);
    assert_eq!(msgs, vec![payload]);
}

#[test]
fn round_trip_empty_payload() {
    let codec = Framed::new(4);
    let payload: Vec<u8> = vec![];
    let encoded = codec.encode(&payload);
    assert_eq!(encoded, vec![0u8, 0, 0, 0]);

    let mut decoder = Framed::new(4);
    let msgs = decode_all(&mut decoder, &encoded);
    assert_eq!(msgs, vec![payload]);
}

#[test]
fn round_trip_large_multi_frame_buffer() {
    let codec = Framed::new(2);
    let payloads: Vec<Vec<u8>> = vec![
        vec![9u8; 1000],
        vec![],
        (0u8..=255).collect(),
        vec![7u8],
    ];
    let mut stream: Vec<u8> = Vec::new();
    for p in &payloads {
        stream.extend_from_slice(&codec.encode(p));
    }
    let mut decoder = Framed::new(2);
    let msgs = decode_all(&mut decoder, &stream);
    assert_eq!(msgs, payloads);
}

#[test]
fn one_byte_at_a_time_three_byte_prefix() {
    // A framed message with a 3-byte length prefix and a 5-byte payload,
    // delivered one byte per read: nothing decodes until the final byte.
    let codec = Framed::new(3);
    let payload = vec![10u8, 20, 30, 40, 50];
    let encoded = codec.encode(&payload);
    assert_eq!(encoded.len(), 8);

    let mut decoder = Framed::new(3);
    for (i, b) in encoded.iter().enumerate() {
        let mut chunk = vec![*b];
        let msgs = decoder.decode(&mut chunk);
        if i + 1 < encoded.len() {
            assert_eq!(msgs.len(), 0);
        } else {
            assert_eq!(msgs, vec![payload.clone()]);
        }
    }
}

#[test]
fn decode_is_read_boundary_independent() {
    let codec = Framed::new(2);
    let payloads: Vec<Vec<u8>> = vec![vec![1], vec![2, 3], vec![], vec![4, 5, 6, 7]];
    let mut stream: Vec<u8> = Vec::new();
    for p in &payloads {
        stream.extend_from_slice(&codec.encode(p));
    }

    let mut whole = Framed::new(2);
    let expect = decode_all(&mut whole, &stream);
    assert_eq!(expect, payloads);

    for split in 0..=stream.len() {
        let mut decoder = Framed::new(2);
        let mut got = decode_all(&mut decoder, &stream[..split]);
        got.extend(decode_all(&mut decoder, &stream[split..]));
        assert_eq!(got, expect, "split at {split}");
    }
}

#[test]
fn pipelined_messages_in_one_read() {
    let codec = Framed::new(4);
    let mut stream = codec.encode(&vec![1u8, 1]);
    stream.extend_from_slice(&codec.encode(&vec![2u8, 2, 2]));
    let mut decoder = Framed::new(4);
    let msgs = decode_all(&mut decoder, &stream);
    assert_eq!(msgs, vec![vec![1u8, 1], vec![2u8, 2, 2]]);
}

#[test]
fn stack_composes_decode_and_encode() {
    // Outer framing (width 4) under inner framing (width 2): encoding wraps
    // twice, decoding unwraps twice.
    let stack: CodecStack<Vec<u8>, Vec<u8>, Vec<u8>, Framed, Framed> =
        CodecStack::new(Framed::new(4), Framed::new(2));
    let payload = vec![42u8, 43, 44];
    let encoded = stack.encode(&payload);
    assert_eq!(encoded, vec![0u8, 0, 0, 5, 0, 3, 42, 43, 44]);

    let mut decoder: CodecStack<Vec<u8>, Vec<u8>, Vec<u8>, Framed, Framed> =
        CodecStack::new(Framed::new(4), Framed::new(2));
    let mut buf = encoded;
    let msgs = decoder.decode(&mut buf);
    assert_eq!(msgs, vec![payload]);
}

#[test]
fn stack_decode_equals_decoding_in_stages() {
    // One outer frame fanning out into two inner messages: the stacked
    // decode equals decoding with the outer codec, then feeding each
    // intermediate into the inner codec and concatenating.
    let inner = Framed::new(2);
    let outer = Framed::new(4);
    let mut mid = inner.encode(&vec![5u8]);
    mid.extend_from_slice(&inner.encode(&vec![6u8, 7]));
    let stream = outer.encode(&mid);

    let mut by_stages_outer = Framed::new(4);
    let mut buf = stream.clone();
    let mids = by_stages_outer.decode(&mut buf);
    let mut by_stages_inner = Framed::new(2);
    let mut staged: Vec<Vec<u8>> = Vec::new();
    for m in mids {
        let mut mbuf = m;
        staged.extend(by_stages_inner.decode(&mut mbuf));
    }

    let mut stacked: CodecStack<Vec<u8>, Vec<u8>, Vec<u8>, Framed, Framed> =
        CodecStack::new(Framed::new(4), Framed::new(2));
    let mut buf2 = stream;
    let direct = stacked.decode(&mut buf2);

    assert_eq!(direct, staged);
    assert_eq!(direct, vec![vec![5u8], vec![6u8, 7]]);
}

#[test]
fn can_encode_respects_prefix_width() {
    let narrow = Framed::new(1);
    assert!(narrow.can_encode(&vec![0u8; 255]));
    assert!(!narrow.can_encode(&vec![0u8; 256]));
    let wide = Framed::new(8);
    assert!(wide.can_encode(&vec![0u8; 10000]));
}

#[test]
fn prefix_primitives_round_trip() {
    let bytes = usize_to_array(0x010203, 3);
    assert_eq!(bytes, vec![1u8, 2, 3]);
    assert_eq!(array_to_usize(&bytes, 3), 0x010203);
    assert_eq!(usize_to_array(5, 4), vec![0u8, 0, 0, 5]);
    assert_eq!(array_to_usize(&vec![0u8, 0, 0, 5, 9, 9], 4), 5);
}
