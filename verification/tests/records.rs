use sorter::error::EngineError;
use sorter::record::append_record;
use sorter::record::decode_len;
use sorter::record::decode_records;
use sorter::record::encode_len;
use sorter::record::encode_records;
use sorter::record::read_next_word;
use sorter::record::MergeCursor;
use sorter::record::MAX_TOKEN_LEN;
use sorter::record::PREFIX_LEN;

#[test]
fn length_prefix_is_little_endian() {
    assert_eq!(encode_len(0), [0, 0, 0, 0]);
    assert_eq!(encode_len(2), [2, 0, 0, 0]);
    assert_eq!(encode_len(300), [44, 1, 0, 0]);
    assert_eq!(encode_len(0x0403_0201), [1, 2, 3, 4]);
    assert_eq!(encode_len(u32::MAX), [255, 255, 255, 255]);
    assert_eq!(decode_len(&[44, 1, 0, 0]), 300);
    assert_eq!(decode_len(&[1, 2, 3, 4]), 0x0403_0201);
    assert_eq!(decode_len(&[255, 255, 255, 255]), u32::MAX);
    assert_eq!(PREFIX_LEN, 4);
    assert_eq!(MAX_TOKEN_LEN, u32::MAX as usize);
}

#[test]
fn length_prefix_agrees_with_std() {
    for n in [0u32, 1, 255, 256, 65535, 65536, 16777215, 16777216, 123456789, u32::MAX] {
        assert_eq!(encode_len(n), n.to_le_bytes());
        assert_eq!(decode_len(&n.to_le_bytes()), n);
    }
}

#[test]
fn records_are_length_then_bytes() {
    let tokens = vec![b"ab".to_vec(), b"".to_vec(), b"xyz".to_vec()];
    let stream = encode_records(&tokens).unwrap();
    assert_eq!(
        stream,
        vec![2, 0, 0, 0, b'a', b'b', 0, 0, 0, 0, 3, 0, 0, 0, b'x', b'y', b'z']
    );
    assert_eq!(decode_records(stream).unwrap(), tokens);
}

#[test]
fn append_record_extends_the_stream() {
    let mut out = vec![9u8];
    assert_eq!(append_record(&mut out, b"hi"), Ok(()));
    assert_eq!(out, vec![9, 2, 0, 0, 0, b'h', b'i']);
}

#[test]
fn empty_stream_has_no_records() {
    assert_eq!(encode_records(&Vec::new()).unwrap(), Vec::<u8>::new());
    assert_eq!(decode_records(Vec::new()).unwrap(), Vec::<Vec<u8>>::new());
}

#[test]
fn record_cut_short_is_a_decode_error() {
    assert_eq!(decode_records(vec![5, 0, 0, 0, b'a']), Err(EngineError::Decode));
    assert_eq!(
        decode_records(vec![1, 0, 0, 0, b'a', 2, 0, 0, 0, b'b']),
        Err(EngineError::Decode)
    );
    assert_eq!(decode_records(vec![255, 255, 255, 255]), Err(EngineError::Decode));
}

#[test]
fn fewer_than_four_bytes_end_the_stream() {
    assert_eq!(decode_records(vec![1, 0, 0]).unwrap(), Vec::<Vec<u8>>::new());
    assert_eq!(decode_records(vec![1, 0, 0, 0, b'a', 7]).unwrap(), vec![b"a".to_vec()]);
}

#[test]
fn read_next_word_steps_through_the_stream() {
    let mut cursor = MergeCursor::new(vec![1, 0, 0, 0, b'a', 2, 0, 0, 0, b'b', b'c']);
    assert_eq!(read_next_word(&mut cursor), Ok(Some(b"a".to_vec())));
    assert_eq!(read_next_word(&mut cursor), Ok(Some(b"bc".to_vec())));
    assert_eq!(read_next_word(&mut cursor), Ok(None));
    assert_eq!(read_next_word(&mut cursor), Ok(None));
}

#[test]
fn read_next_word_stays_put_on_a_corrupt_record() {
    let mut cursor = MergeCursor::new(vec![0, 0, 0, 0, 9, 0, 0, 0, b'a']);
    assert_eq!(read_next_word(&mut cursor), Ok(Some(Vec::new())));
    assert_eq!(read_next_word(&mut cursor), Err(EngineError::Decode));
    assert_eq!(read_next_word(&mut cursor), Err(EngineError::Decode));
}

#[test]
fn records_may_hold_any_bytes() {
    let tokens = vec![vec![0u8, 255, 10, 13], vec![0xff, 0xfe]];
    let stream = encode_records(&tokens).unwrap();
    assert_eq!(decode_records(stream).unwrap(), tokens);
}
