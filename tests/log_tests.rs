use wdis::log::{
    checksum_matches, crc32, encode_frame, mask_crc, unmask_crc, LogReader, LogWriter, StatusCode,
    BLOCK_SIZE, HEADER_SIZE,
};

#[test]
fn test_crc_mask_crc() {
    let sum = crc32("abcde".as_bytes());
    assert_eq!(sum, unmask_crc(mask_crc(sum)));
    assert!(sum != mask_crc(sum));
}

#[test]
fn test_crc_sanity() {
    assert_eq!(0x8a9136aa, crc32(&[0_u8; 32]));
    assert_eq!(0x62a8ab43, crc32(&[0xff_u8; 32]));
}

#[test]
fn mask_has_exact_value() {
    assert_eq!(mask_crc(0), 0xa282ead8);
    assert_eq!(mask_crc(1), (1u32.rotate_right(15)).wrapping_add(0xa282ead8));
    assert!(checksum_matches(mask_crc(1234), 1234));
    assert!(!checksum_matches(mask_crc(1234), 1235));
}

#[test]
fn frame_layout() {
    let f = encode_frame(1, b"ab", 0);
    assert_eq!(f, vec![0xd8, 0xea, 0x82, 0xa2, 2, 0, 1, 97, 98]);
}

#[test]
fn test_writer() {
    let data = &["hello world. My first log entry.", "and my second", "and my third"];
    let mut lw = LogWriter::new(Vec::new());
    let total_len = data.iter().fold(0, |l, d| l + d.len());

    for d in data {
        let _ = lw.add_record(d.as_bytes());
    }

    assert_eq!(lw.current_block_offset(), total_len + 3 * HEADER_SIZE);
}

#[test]
fn test_writer_append() {
    let data = &["hello world. My first log entry.", "and my second", "and my third"];

    let mut dst = vec![0_u8; 1024];

    {
        let mut lw = LogWriter::new(Vec::new());
        for d in data {
            let _ = lw.add_record(d.as_bytes());
        }
        let out = lw.into_inner();
        dst[..out.len()].copy_from_slice(&out);
    }

    let old = dst.clone();

    {
        let offset = data[0].len() + HEADER_SIZE;
        let mut lw = LogWriter::new_with_off(Vec::new(), offset);
        for d in &data[1..] {
            let _ = lw.add_record(d.as_bytes());
        }
        let out = lw.into_inner();
        dst[offset..offset + out.len()].copy_from_slice(&out);
    }
    assert_eq!(old, dst);
}

#[test]
fn test_reader() {
    let data = [
        "abcdefghi".as_bytes().to_vec(),
        "123456789012".as_bytes().to_vec(),
        "0101010101010101010101".as_bytes().to_vec(),
    ];
    let mut lw = LogWriter::with_block_size(Vec::new(), HEADER_SIZE + 10).unwrap();

    for e in data.iter() {
        assert!(lw.add_record(e).is_ok());
    }

    assert_eq!(lw.contents().len(), 93);
    let mut stream = lw.into_inner();
    // Corrupt the checksum of the first record.
    stream[2] += 1;

    let mut lr = LogReader::with_block_size(stream.as_slice(), true, HEADER_SIZE + 10).unwrap();
    let mut dst = Vec::with_capacity(128);

    assert_eq!(lr.read(&mut dst), Err(StatusCode::Corruption));

    let mut i = 1;
    loop {
        let r = lr.read(&mut dst);

        if r.is_err() {
            panic!("{:?}", r.unwrap_err());
        } else if r.unwrap() == 0 {
            break;
        }

        assert_eq!(dst, data[i]);
        i += 1;
    }
    assert_eq!(i, data.len());
}

#[test]
fn records_round_trip_in_order() {
    let records: Vec<Vec<u8>> = vec![b"one".to_vec(), vec![9u8; 70000], b"three".to_vec()];
    let mut lw = LogWriter::new(Vec::new());
    for r in &records {
        lw.add_record(r).unwrap();
    }
    let stream = lw.into_inner();
    for chk in [true, false] {
        let mut lr = LogReader::new(&stream, chk);
        let mut dst = Vec::new();
        for r in &records {
            assert_eq!(lr.read(&mut dst), Ok(r.len()));
            assert_eq!(&dst, r);
        }
        assert_eq!(lr.read(&mut dst), Ok(0));
        assert!(dst.is_empty());
    }
}

#[test]
fn long_record_is_split_into_first_middle_last() {
    let record: Vec<u8> = (0..25u8).collect();
    let mut lw = LogWriter::with_block_size(Vec::new(), 17).unwrap();
    let written = lw.add_record(&record).unwrap();
    let stream = lw.into_inner();
    assert_eq!(written, stream.len());
    // Three frames of 10, 10 and 5 bytes.
    assert_eq!(stream.len(), 17 + 17 + 12);
    assert_eq!(stream[6], 2);
    assert_eq!(stream[17 + 6], 3);
    assert_eq!(stream[34 + 6], 4);
    let mut lr = LogReader::with_block_size(&stream, true, 17).unwrap();
    let mut dst = Vec::new();
    assert_eq!(lr.read(&mut dst), Ok(25));
    assert_eq!(dst, record);
}

#[test]
fn empty_record_is_one_full_frame() {
    let mut lw = LogWriter::new(Vec::new());
    assert_eq!(lw.add_record(b""), Ok(HEADER_SIZE));
    let stream = lw.into_inner();
    assert_eq!(stream.len(), HEADER_SIZE);
    assert_eq!(stream[4], 0);
    assert_eq!(stream[5], 0);
    assert_eq!(stream[6], 1);
}

#[test]
fn block_tail_is_padded() {
    let mut lw = LogWriter::with_block_size(Vec::new(), 17).unwrap();
    lw.add_record(b"abcdefghi").unwrap();
    assert_eq!(lw.current_block_offset(), 16);
    assert_eq!(lw.add_record(b"x"), Ok(1 + HEADER_SIZE + 1));
    let stream = lw.into_inner();
    assert_eq!(stream[16], 0);
    assert_eq!(stream.len(), 17 + 8);
}

#[test]
fn corruption_in_any_field_is_detected() {
    let mut lw = LogWriter::new(Vec::new());
    lw.add_record(b"hello log").unwrap();
    lw.add_record(b"second").unwrap();
    let clean = lw.into_inner();
    for at in [0usize, 3, 4, 6, 7, 15] {
        let mut s = clean.clone();
        s[at] ^= 0x01;
        let mut lr = LogReader::new(&s, true);
        let mut dst = Vec::new();
        assert_eq!(lr.read(&mut dst), Err(StatusCode::Corruption), "byte {}", at);
    }
}

#[test]
fn corruption_is_ignored_without_checksums() {
    let mut lw = LogWriter::new(Vec::new());
    lw.add_record(b"hello log").unwrap();
    let mut s = lw.into_inner();
    s[1] ^= 0xff;
    s[8] ^= 0x01;
    let mut lr = LogReader::new(&s, false);
    let mut dst = Vec::new();
    assert_eq!(lr.read(&mut dst), Ok(9));
    assert_eq!(dst, b"hdllo log".to_vec());
}

#[test]
fn truncated_frame_is_corruption() {
    let mut lw = LogWriter::new(Vec::new());
    lw.add_record(b"hello log").unwrap();
    let s = lw.into_inner();
    let mut lr = LogReader::new(&s[..10], true);
    let mut dst = Vec::new();
    assert_eq!(lr.read(&mut dst), Err(StatusCode::Corruption));
    let mut lr = LogReader::new(&s[..4], true);
    assert_eq!(lr.read(&mut dst), Err(StatusCode::Corruption));
    let mut lr = LogReader::new(&s[..4], false);
    assert_eq!(lr.read(&mut dst), Ok(0));
    let mut lr = LogReader::new(&s[..10], false);
    assert_eq!(lr.read(&mut dst), Ok(3));
    assert_eq!(dst, b"hel".to_vec());
    let mut lr = LogReader::new(&[], true);
    assert_eq!(lr.read(&mut dst), Ok(0));
}

#[test]
fn bad_block_sizes_are_rejected() {
    assert!(matches!(LogWriter::with_block_size(Vec::new(), 7), Err(StatusCode::InvalidInput)));
    assert!(matches!(LogWriter::with_block_size(Vec::new(), 70000), Err(StatusCode::InvalidInput)));
    assert!(matches!(LogReader::with_block_size(&[], true, 3), Err(StatusCode::InvalidInput)));
    assert_eq!(LogWriter::new(Vec::new()).block_size(), BLOCK_SIZE);
    assert_eq!(LogWriter::new_with_off(Vec::new(), BLOCK_SIZE + 5).current_block_offset(), 5);
}

#[test]
fn take_output_keeps_block_position() {
    let mut lw = LogWriter::new(Vec::new());
    lw.add_record(b"abc").unwrap();
    let first = lw.take_output();
    assert_eq!(first.len(), 10);
    assert!(lw.contents().is_empty());
    assert_eq!(lw.current_block_offset(), 10);
    assert_eq!(lw.flush(), Ok(()));
}

#[test]
fn damaged_length_is_ignored_without_checksums() {
    let mut lw = LogWriter::new(Vec::new());
    lw.add_record(b"hello log").unwrap();
    let mut s = lw.into_inner();
    s[5] = 255;
    let mut lr = LogReader::new(&s, false);
    let mut dst = Vec::new();
    assert_eq!(lr.read(&mut dst), Ok(9));
    assert_eq!(dst, b"hello log".to_vec());
    assert_eq!(lr.read(&mut dst), Ok(0));
    let mut lr = LogReader::new(&s, true);
    assert_eq!(lr.read(&mut dst), Err(StatusCode::Corruption));
}

#[test]
fn damaged_type_is_ignored_without_checksums() {
    let mut lw = LogWriter::new(Vec::new());
    lw.add_record(b"one").unwrap();
    lw.add_record(b"two").unwrap();
    let mut s = lw.into_inner();
    s[6] = 9;
    let mut lr = LogReader::new(&s, false);
    let mut dst = Vec::new();
    assert_eq!(lr.read(&mut dst), Ok(6));
    assert_eq!(dst, b"onetwo".to_vec());
    let mut lr = LogReader::new(&s, true);
    assert_eq!(lr.read(&mut dst), Err(StatusCode::Corruption));
}
