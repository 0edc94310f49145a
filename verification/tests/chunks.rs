use sorter::chunk::align_from;
use sorter::chunk::chunk_bounds;
use sorter::chunk::chunk_count;
use sorter::chunk::chunk_start;
use sorter::chunk::nominal_start;
use sorter::chunk::read_chunk;
use sorter::chunk::Chunk;
use sorter::chunk::ChunkScan;
use sorter::token::tokenize;

#[test]
fn chunk_count_rounds_up() {
    assert_eq!(chunk_count(0, 4), 0);
    assert_eq!(chunk_count(1, 4), 1);
    assert_eq!(chunk_count(4, 4), 1);
    assert_eq!(chunk_count(5, 4), 2);
    assert_eq!(chunk_count(11, 4), 3);
    assert_eq!(chunk_count(usize::MAX, 1), usize::MAX);
    assert_eq!(chunk_count(usize::MAX, usize::MAX), 1);
}

#[test]
fn align_moves_behind_the_next_whitespace() {
    let data = b"aaa bbb ccc";
    assert_eq!(align_from(data, 0), 4);
    assert_eq!(align_from(data, 3), 4);
    assert_eq!(align_from(data, 4), 8);
    assert_eq!(align_from(data, 7), 8);
    assert_eq!(align_from(data, 8), 11);
    assert_eq!(align_from(data, 11), 11);
    assert_eq!(align_from(data, 99), 11);
}

#[test]
fn nominal_start_stays_inside_the_file() {
    assert_eq!(nominal_start(11, 4, 0), 0);
    assert_eq!(nominal_start(11, 4, 2), 8);
    assert_eq!(nominal_start(11, 4, 3), 11);
    assert_eq!(nominal_start(11, 4, usize::MAX), 11);
}

#[test]
fn chunk_bounds_follow_whitespace() {
    let data = b"aaa bbb ccc";
    assert_eq!(chunk_bounds(7, data, 4, 0), Chunk { file: 7, start: 0, end: 8 });
    assert_eq!(chunk_bounds(7, data, 4, 1), Chunk { file: 7, start: 8, end: 11 });
    assert_eq!(chunk_bounds(7, data, 4, 2), Chunk { file: 7, start: 11, end: 11 });
    assert_eq!(chunk_bounds(7, data, 4, usize::MAX), Chunk { file: 7, start: 11, end: 11 });
    assert_eq!(chunk_start(data, 4, 1), 8);
}

#[test]
fn chunks_tile_the_file() {
    let data = b"the  quick\tbrown\nfox jumps over the lazy dog\r\n and more";
    for size in 1..=data.len() + 2 {
        let count = chunk_count(data.len(), size);
        let mut joined: Vec<u8> = Vec::new();
        let mut previous_end = 0;
        for index in 0..count {
            let bounds = chunk_bounds(0, data, size, index);
            assert_eq!(bounds.start, previous_end);
            previous_end = bounds.end;
            let bytes = read_chunk(data, size, index);
            assert_eq!(bytes, data[bounds.start..bounds.end].to_vec());
            joined.extend_from_slice(&bytes);
        }
        assert_eq!(previous_end, data.len());
        assert_eq!(joined, data.to_vec());
    }
}

#[test]
fn chunking_keeps_the_tokens() {
    let data = b"alpha beta  gamma\ndelta epsilon zeta eta theta";
    let whole = tokenize(data);
    for size in 1..=data.len() {
        let mut found: Vec<Vec<u8>> = Vec::new();
        for index in 0..chunk_count(data.len(), size) {
            found.extend(tokenize(&read_chunk(data, size, index)));
        }
        assert_eq!(found, whole);
    }
}

#[test]
fn token_longer_than_a_chunk_leaves_empty_chunks() {
    let data = b"ab abcdefghijkl yz";
    assert_eq!(read_chunk(data, 4, 0), b"ab abcdefghijkl ".to_vec());
    assert_eq!(read_chunk(data, 4, 1), b"".to_vec());
    assert_eq!(read_chunk(data, 4, 2), b"".to_vec());
    assert_eq!(read_chunk(data, 4, 3), b"yz".to_vec());
    assert_eq!(read_chunk(data, 4, 4), b"".to_vec());
    assert_eq!(chunk_count(data.len(), 4), 5);
}

#[test]
fn read_chunk_of_an_empty_file_is_empty() {
    assert_eq!(read_chunk(b"", 4, 0), Vec::<u8>::new());
    assert_eq!(read_chunk(b"", 4, 5), Vec::<u8>::new());
}

#[test]
fn scan_skips_fills_and_extends() {
    // A chunk that is not the first, with three nominal bytes, fed "xy abcde fg".
    let mut scan = ChunkScan::new(false, 3);
    for &b in b"xy " {
        assert!(!scan.is_done());
        scan.feed(Some(b));
    }
    // Three bytes were skipped, the nominal end is reached: the scan extends.
    for &b in b"abcde " {
        assert!(!scan.is_done());
        scan.feed(Some(b));
    }
    assert!(scan.is_done());
    scan.feed(Some(b'f'));
    assert_eq!(scan.into_bytes(), b"abcde ".to_vec());
}

#[test]
fn scan_of_first_chunk_keeps_bytes_from_the_start() {
    let mut scan = ChunkScan::new(true, 2);
    for &b in b"abc" {
        scan.feed(Some(b));
    }
    assert!(!scan.is_done());
    scan.feed(None);
    assert!(scan.is_done());
    assert_eq!(scan.into_bytes(), b"abc".to_vec());
}

#[test]
fn scan_that_skips_past_its_nominal_end_is_empty() {
    let mut scan = ChunkScan::new(false, 2);
    for &b in b"abcd " {
        scan.feed(Some(b));
    }
    assert!(scan.is_done());
    assert_eq!(scan.into_bytes(), Vec::<u8>::new());
}

#[test]
fn scan_stops_filling_at_end_of_file() {
    let mut scan = ChunkScan::new(false, 10);
    for &b in b"ab cd" {
        scan.feed(Some(b));
    }
    scan.feed(None);
    assert!(scan.is_done());
    assert_eq!(scan.into_bytes(), b"cd".to_vec());
}
