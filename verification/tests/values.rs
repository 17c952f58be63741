use any_store::codec::{ByteBuffer, Serializable};
use any_store::value::Something;

#[test]
fn canonical_order_ranks_null_first() {
    // Null < Int(0) < Text("") in the fixed canonical order
    let null = Something::Null;
    let zero = Something::Int(0);
    let empty_text = Something::string(vec![]);
    assert!(null.lt_canonical(&zero));
    assert!(zero.lt_canonical(&empty_text));
    assert!(null.lt_canonical(&empty_text));
    assert!(!zero.lt_canonical(&null));
    assert!(!null.lt_canonical(&null));
}

#[test]
fn canonical_order_within_variants() {
    assert!(Something::Int(-3).lt_canonical(&Something::Int(4)));
    assert!(Something::string(b"abc".to_vec()).lt_canonical(&Something::string(b"abd".to_vec())));
    assert!(Something::string(b"ab".to_vec()).lt_canonical(&Something::string(b"abc".to_vec())));
    assert!(Something::Blob(vec![1]).lt_canonical(&Something::Blob(vec![2])));
    assert!(Something::Float(1).lt_canonical(&Something::Float(2)));
    // every variant orders after Int in the fixed ranking
    assert!(Something::Int(i64::MAX).lt_canonical(&Something::Float(0)));
    assert!(Something::Float2(9, 9).lt_canonical(&Something::string(vec![])));
    assert!(Something::string(b"zzz".to_vec()).lt_canonical(&Something::Blob(vec![])));
}

#[test]
fn hash_agrees_with_equality() {
    let a = Something::string(b"hello".to_vec());
    let b = Something::string(b"hello".to_vec());
    assert!(a == b);
    assert_eq!(a.hash64(), b.hash64());

    let c = Something::Int(5);
    let d = Something::Int(5);
    assert_eq!(c.hash64(), d.hash64());

    // the tag is mixed in: equal payloads of different variants differ
    let t = Something::string(vec![1, 2]);
    let bl = Something::Blob(vec![1, 2]);
    assert!(t != bl);
    assert_ne!(t.hash64(), bl.hash64());
}

#[test]
fn tags_follow_the_canonical_ranking() {
    assert_eq!(Something::Null.tag(), 0);
    assert_eq!(Something::Int(1).tag(), 1);
    assert_eq!(Something::Float(0).tag(), 2);
    assert_eq!(Something::Float2(0, 0).tag(), 3);
    assert_eq!(Something::string(vec![]).tag(), 4);
    assert_eq!(Something::Blob(vec![]).tag(), 5);
}

#[test]
fn default_is_null() {
    assert_eq!(Something::default(), Something::Null);
}

#[test]
fn int_encoding_is_tag_and_le_bytes() {
    let mut buffer = ByteBuffer::new();
    Something::Int(1).serialize(&mut buffer);
    let mut expect = vec![0u8, 1, 0, 0, 0, 0, 0, 0, 0];
    let mut out = buffer.read_bytes(9);
    assert_eq!(out, expect);

    let mut buffer = ByteBuffer::new();
    Something::Int(-1).serialize(&mut buffer);
    expect = vec![0u8, 255, 255, 255, 255, 255, 255, 255, 255];
    out = buffer.read_bytes(9);
    assert_eq!(out, expect);
}

#[test]
fn text_encoding_is_tag_len_bytes() {
    let mut buffer = ByteBuffer::new();
    Something::string(b"ab".to_vec()).serialize(&mut buffer);
    assert_eq!(buffer.read_bytes(4), vec![1u8, 2, 97, 98]);

    let mut buffer = ByteBuffer::new();
    Something::Null.serialize(&mut buffer);
    assert_eq!(buffer.read_bytes(1), vec![2u8]);
}

#[test]
fn encoding_round_trips() {
    let values = vec![
        Something::Int(0),
        Something::Int(i64::MIN),
        Something::Int(i64::MAX),
        Something::Float(0x400921fb54442d18),
        Something::Float2(1, u64::MAX),
        Something::string(b"hello".to_vec()),
        Something::string(vec![]),
        Something::Blob(vec![0, 255, 7]),
        Something::Blob(vec![]),
        Something::Null,
    ];
    let mut buffer = ByteBuffer::new();
    for v in &values {
        v.serialize(&mut buffer);
    }
    for v in &values {
        let back = Something::deserialize(&mut buffer).unwrap();
        assert!(&back == v);
    }
    // nothing left: another read finds no value
    assert!(Something::deserialize(&mut buffer).is_none());
}

#[test]
fn decoding_garbage_is_refused() {
    let mut buffer = ByteBuffer::from_vec(vec![9, 9, 9]);
    assert!(Something::deserialize(&mut buffer).is_none());

    // a truncated integer is refused
    let mut buffer = ByteBuffer::from_vec(vec![0u8, 1, 2]);
    assert!(Something::deserialize(&mut buffer).is_none());

    // a text whose length prefix overruns the buffer is refused
    let mut buffer = ByteBuffer::from_vec(vec![1u8, 5, 97]);
    assert!(Something::deserialize(&mut buffer).is_none());
}

#[test]
fn byte_buffer_reads_and_writes() {
    let mut buffer = ByteBuffer::new();
    buffer.write_u8(7);
    buffer.write_i64(-2);
    buffer.write_bytes(&[1, 2, 3]);
    assert_eq!(buffer.read_u8(), 7);
    assert_eq!(buffer.read_i64(), -2);
    assert_eq!(buffer.read_bytes(3), vec![1, 2, 3]);
    buffer.reset();
    assert_eq!(buffer.read_u8(), 7);

    let mut buffer = ByteBuffer::from_vec(vec![42]);
    assert_eq!(buffer.read_u8(), 42);
}

#[test]
fn oversized_text_is_refused_by_the_encoder() {
    let mut buffer = ByteBuffer::new();
    let long = Something::string(vec![7u8; 300]);
    assert!(!long.encode_into(&mut buffer));
    // nothing was written
    assert_eq!(buffer.remaining(), 0);
}
