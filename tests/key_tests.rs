use wdis::buffer::buf;
use wdis::key::{build_mem_key, build_mem_value, decode_varint, extend_varint, varint_len, ValueType};
use wdis::log::StatusCode;

#[test]
fn test_build_memtable() {
    assert_eq!(
        build_mem_key(231, ValueType::TypeValue, "abc".as_bytes()).unwrap(),
        vec![11, 97, 98, 99, 1, 231, 0, 0, 0, 0, 0, 0]
    );

    println!("{:?}", build_mem_value("123".as_bytes()));
}

#[test]
fn value_is_length_prefixed() {
    assert_eq!(build_mem_value(b"123"), vec![3, 49, 50, 51]);
    assert_eq!(build_mem_value(b""), vec![0]);
}

#[test]
fn deletion_key_has_zero_tag() {
    assert_eq!(
        build_mem_key(1, ValueType::TypeDeletion, b"k").unwrap(),
        vec![9, 107, 0, 1, 0, 0, 0, 0, 0, 0]
    );
}

#[test]
fn sequence_of_56_bits_is_rejected() {
    assert_eq!(
        build_mem_key(1u64 << 56, ValueType::TypeValue, b"abc"),
        Err(StatusCode::InvalidInput)
    );
    assert!(build_mem_key((1u64 << 56) - 1, ValueType::TypeValue, b"abc").is_ok());
}

#[test]
fn key_decodes_back() {
    let key = vec![7u8; 200];
    let seq: u64 = (1u64 << 56) - 5;
    let enc = build_mem_key(seq, ValueType::TypeValue, &key).unwrap();
    let (len, used) = decode_varint(&enc, 0).unwrap();
    assert_eq!(len, 208);
    assert_eq!(used, 2);
    assert_eq!(&enc[used..used + 200], &key[..]);
    let mut word = [0u8; 8];
    word.copy_from_slice(&enc[enc.len() - 8..]);
    let w = u64::from_le_bytes(word);
    assert_eq!(w & 0xff, 1);
    assert_eq!(w >> 8, seq);
}

#[test]
fn varint_encoding_and_length() {
    let mut v = Vec::new();
    extend_varint(&mut v, 300);
    assert_eq!(v, vec![0xac, 0x02]);
    assert_eq!(varint_len(300), 2);
    assert_eq!(varint_len(0), 1);
    assert_eq!(varint_len(127), 1);
    assert_eq!(varint_len(128), 2);
    assert_eq!(varint_len(usize::MAX), 10);
    let mut w = Vec::new();
    extend_varint(&mut w, usize::MAX);
    assert_eq!(decode_varint(&w, 0), Some((usize::MAX, 10)));
}

#[test]
fn varint_decoder_edges() {
    assert_eq!(decode_varint(&[], 0), None);
    assert_eq!(decode_varint(&[0x80], 0), None);
    assert_eq!(decode_varint(&[5, 0xac, 0x02], 1), Some((300, 2)));
    let too_big = [0xff, 0xff, 0xff, 0xff, 0xff, 0xff, 0xff, 0xff, 0xff, 0xff, 0x01];
    assert_eq!(decode_varint(&too_big, 0), None);
}

#[test]
fn buffer_is_zeroed() {
    let b = buf::new(5);
    assert_eq!(b.size, 5);
    assert_eq!(b.data, vec![0u8; 5]);
}
