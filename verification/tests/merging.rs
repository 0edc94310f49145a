use sorter::compact::arrange;
use sorter::compact::compact;
use sorter::compact::distinct;
use sorter::compact::sort_distinct;
use sorter::engine::compact_all;
use sorter::engine::scan_corpus;
use sorter::engine::scan_file;
use sorter::error::EngineError;
use sorter::heap::heap_pop;
use sorter::heap::heap_push;
use sorter::heap::key_less;
use sorter::merge::merge_streams;
use sorter::merge::next_from;
use sorter::merge::open_cursors;
use sorter::merge::MergeEngine;
use sorter::record::decode_records;
use sorter::record::encode_records;
use sorter::report::Config;
use sorter::report::Report;
use sorter::route::hash_partition;
use sorter::route::Partitions;

fn list(words: &[&str]) -> Vec<Vec<u8>> {
    words.iter().map(|w| w.as_bytes().to_vec()).collect()
}

fn stream(words: &[&str]) -> Vec<u8> {
    encode_records(&list(words)).unwrap()
}

#[test]
fn distinct_removes_repetitions() {
    let mut items = distinct(list(&["b", "a", "b", "c", "a", "b"]));
    items.sort();
    assert_eq!(items, list(&["a", "b", "c"]));
    assert!(distinct(Vec::new()).is_empty());
}

#[test]
fn arrange_sorts_by_bytes() {
    assert_eq!(
        arrange(list(&["b", "ab", "a", "", "B", "b"])),
        list(&["", "B", "a", "ab", "b", "b"])
    );
}

#[test]
fn sort_distinct_sorts_and_removes_repetitions() {
    assert_eq!(
        sort_distinct(list(&["pear", "fig", "pear", "apple", "fig", "figs"])),
        list(&["apple", "fig", "figs", "pear"])
    );
}

#[test]
fn compact_writes_sorted_distinct_records() {
    let bytes = compact(list(&["b", "a", "b"])).unwrap();
    assert_eq!(bytes, vec![1, 0, 0, 0, b'a', 1, 0, 0, 0, b'b']);
    assert_eq!(decode_records(bytes).unwrap(), list(&["a", "b"]));
    assert_eq!(compact(Vec::new()).unwrap(), Vec::<u8>::new());
}

#[test]
fn compact_all_keeps_the_order_of_the_stores() {
    let stores = vec![list(&["d", "c", "d"]), Vec::new(), list(&["a"])];
    let streams = compact_all(stores).unwrap();
    assert_eq!(streams, vec![stream(&["c", "d"]), Vec::new(), stream(&["a"])]);
}

#[test]
fn heap_hands_out_partitions_by_rank() {
    let heads = list(&["m", "c", "x", "c", "a"]);
    let mut heap: Vec<usize> = Vec::new();
    for p in [2usize, 3, 0, 4, 1] {
        heap_push(&mut heap, &heads, p);
    }
    let mut order = Vec::new();
    while let Some(p) = heap_pop(&mut heap, &heads) {
        order.push(p);
    }
    assert_eq!(order, vec![4, 1, 3, 0, 2]);
    assert_eq!(heap_pop(&mut heap, &heads), None);
}

#[test]
fn key_less_breaks_ties_by_partition() {
    let heads = list(&["same", "same", "other"]);
    assert!(key_less(&heads, 0, 1));
    assert!(!key_less(&heads, 1, 0));
    assert!(!key_less(&heads, 0, 0));
    assert!(key_less(&heads, 2, 0));
    assert!(!key_less(&heads, 0, 2));
}

#[test]
fn engine_pops_in_order_and_marks_repetitions() {
    let mut engine = MergeEngine::new(3);
    assert!(engine.pop().is_none());
    assert!(engine.offer(2, b"b".to_vec()));
    assert!(engine.offer(1, b"a".to_vec()));
    assert!(engine.offer(0, b"b".to_vec()));
    let first = engine.pop().unwrap();
    assert_eq!((first.partition, first.token.clone(), first.fresh), (1, b"a".to_vec(), true));
    let second = engine.pop().unwrap();
    assert_eq!((second.partition, second.token.clone(), second.fresh), (0, b"b".to_vec(), true));
    let third = engine.pop().unwrap();
    assert_eq!((third.partition, third.token.clone(), third.fresh), (2, b"b".to_vec(), false));
    assert!(engine.pop().is_none());
}

#[test]
fn engine_refuses_unknown_and_queued_partitions() {
    let mut engine = MergeEngine::new(2);
    assert!(!engine.offer(2, b"x".to_vec()));
    assert!(engine.offer(1, b"x".to_vec()));
    assert!(!engine.offer(1, b"a".to_vec()));
    let popped = engine.pop().unwrap();
    assert_eq!((popped.partition, popped.token, popped.fresh), (1, b"x".to_vec(), true));
    assert!(engine.offer(1, b"y".to_vec()));
    let next = engine.pop().unwrap();
    assert_eq!((next.partition, next.token, next.fresh), (1, b"y".to_vec(), true));
}

#[test]
fn merge_interleaves_sorted_streams() {
    let streams = vec![stream(&["a", "c", "e"]), Vec::new(), stream(&["b", "d"]), stream(&["f"])];
    assert_eq!(merge_streams(streams).unwrap(), list(&["a", "b", "c", "d", "e", "f"]));
}

#[test]
fn merge_collapses_equal_tokens() {
    let streams = vec![stream(&["a", "b", "b"]), stream(&["b", "c"]), stream(&["a", "c"])];
    assert_eq!(merge_streams(streams).unwrap(), list(&["a", "b", "c"]));
}

#[test]
fn merge_of_nothing_is_empty() {
    assert_eq!(merge_streams(Vec::new()).unwrap(), Vec::<Vec<u8>>::new());
    assert_eq!(merge_streams(vec![Vec::new(), Vec::new()]).unwrap(), Vec::<Vec<u8>>::new());
}

#[test]
fn merge_fails_on_a_corrupt_stream() {
    let mut broken = stream(&["a", "b"]);
    broken.extend_from_slice(&[9, 0, 0, 0, b'x']);
    assert_eq!(merge_streams(vec![stream(&["c"]), broken]), Err(EngineError::Decode));
    assert_eq!(merge_streams(vec![vec![4, 0, 0, 0]]), Err(EngineError::Decode));
}

#[test]
fn cursors_read_their_own_stream() {
    let mut cursors = open_cursors(vec![stream(&["a", "b"]), stream(&["c"])]);
    assert_eq!(cursors.len(), 2);
    assert_eq!(next_from(&mut cursors, 1), Ok(Some(b"c".to_vec())));
    assert_eq!(next_from(&mut cursors, 0), Ok(Some(b"a".to_vec())));
    assert_eq!(next_from(&mut cursors, 1), Ok(None));
    assert_eq!(next_from(&mut cursors, 0), Ok(Some(b"b".to_vec())));
    assert_eq!(next_from(&mut cursors, 0), Ok(None));
}

#[test]
fn scan_file_routes_and_counts() {
    let mut parts = Partitions::new(4);
    let mut report = Report::new();
    scan_file(b"To be or not to BE", 5, &mut parts, &mut report);
    assert_eq!(report, Report { total_tokens: 6, distinct_tokens: 0, skipped_units: 0 });
    let stores = parts.into_stores();
    let be = &stores[hash_partition(b"be", 4)];
    assert_eq!(be.iter().filter(|t| t.as_slice() == b"be").count(), 2);
    assert_eq!(stores.iter().map(|s| s.len()).sum::<usize>(), 6);
}

#[test]
fn scan_corpus_fills_the_stores_in_order() {
    let files = vec![b"b a".to_vec(), b"a c b".to_vec()];
    let (parts, report) = scan_corpus(&files, &Config::new(1, 2).unwrap());
    assert_eq!(report.total_tokens, 5);
    assert_eq!(parts.into_stores(), vec![list(&["b", "a", "a", "c", "b"])]);
}
