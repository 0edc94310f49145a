use sorter::engine::render_lines;
use sorter::engine::run;
use sorter::error::EngineError;
use sorter::report::Config;
use sorter::report::Report;

fn corpus(texts: &[&str]) -> Vec<Vec<u8>> {
    texts.iter().map(|t| t.as_bytes().to_vec()).collect()
}

fn output(files: &Vec<Vec<u8>>, partitions: usize, chunk_size: usize) -> Vec<u8> {
    let config = Config::new(partitions, chunk_size).unwrap();
    let outcome = run(files, &config).unwrap();
    render_lines(&outcome.tokens)
}

fn words(files: &Vec<Vec<u8>>, partitions: usize, chunk_size: usize) -> Vec<String> {
    let config = Config::new(partitions, chunk_size).unwrap();
    let outcome = run(files, &config).unwrap();
    outcome.tokens.iter().map(|t| String::from_utf8(t.clone()).unwrap()).collect()
}

#[test]
fn apple_banana_gives_two_lines() {
    let files = corpus(&["Apple banana APPLE\nBanana apple\n"]);
    assert_eq!(output(&files, 328, 256 * 1024 * 1024), b"apple\nbanana\n".to_vec());
    let config = Config::new(328, 256 * 1024 * 1024).unwrap();
    let outcome = run(&files, &config).unwrap();
    assert_eq!(outcome.report.total_tokens, 5);
    assert_eq!(outcome.report.distinct_tokens, 2);
    assert_eq!(outcome.report.skipped_units, 0);
    assert!(!outcome.report.has_warning());
}

#[test]
fn zebra_and_aardvark_for_every_partition_count() {
    let files = corpus(&["zebra", "aardvark zebra"]);
    for partitions in [1usize, 2, 3, 7, 64, 328, 512] {
        assert_eq!(words(&files, partitions, 1024), vec!["aardvark", "zebra"]);
        assert_eq!(output(&files, partitions, 1024), b"aardvark\nzebra\n".to_vec());
    }
}

#[test]
fn empty_corpus_gives_empty_output() {
    let files: Vec<Vec<u8>> = Vec::new();
    let config = Config::new(8, 16).unwrap();
    let outcome = run(&files, &config).unwrap();
    assert!(outcome.tokens.is_empty());
    assert_eq!(render_lines(&outcome.tokens), Vec::<u8>::new());
    assert_eq!(outcome.report, Report { total_tokens: 0, distinct_tokens: 0, skipped_units: 0 });
}

#[test]
fn empty_files_give_empty_output() {
    let files = corpus(&["", "   \n\t ", ""]);
    assert_eq!(output(&files, 4, 2), Vec::<u8>::new());
}

#[test]
fn output_is_strictly_ascending() {
    let files = corpus(&["pear Apple fig\nkiwi apple FIG date", "banana cherry date\r\nelder fig"]);
    let got = words(&files, 5, 7);
    assert_eq!(
        got,
        vec!["apple", "banana", "cherry", "date", "elder", "fig", "kiwi", "pear"]
    );
    for pair in got.windows(2) {
        assert!(pair[0].as_bytes() < pair[1].as_bytes());
    }
}

#[test]
fn output_holds_exactly_the_distinct_tokens() {
    let text = "The quick brown fox jumps over the lazy dog. THE DOG sleeps; the fox runs.";
    let files = corpus(&[text]);
    let mut expected: Vec<String> =
        text.split_whitespace().map(|w| w.to_lowercase()).collect();
    expected.sort();
    expected.dedup();
    assert_eq!(words(&files, 16, 10), expected);
}

#[test]
fn running_twice_gives_identical_bytes() {
    let files = corpus(&["one two three two one", "three four FIVE five"]);
    let first = output(&files, 9, 6);
    let second = output(&files, 9, 6);
    assert_eq!(first, second);
    assert_eq!(first, b"five\nfour\none\nthree\ntwo\n".to_vec());
}

#[test]
fn straddling_token_appears_once() {
    // With chunks of 4 bytes "straddle" lies across three nominal ranges.
    let files = corpus(&["ab straddle cd"]);
    let got = words(&files, 3, 4);
    assert_eq!(got, vec!["ab", "cd", "straddle"]);
    assert_eq!(got.iter().filter(|w| w.as_str() == "straddle").count(), 1);
}

#[test]
fn partition_count_and_chunk_size_do_not_matter() {
    let text = "delta alpha Charlie bravo echo ALPHA foxtrot golf delta hotel india juliet";
    let files = corpus(&[text, "kilo lima MIKE alpha"]);
    let reference = output(&files, 1, 1 << 30);
    for partitions in [1usize, 2, 5, 17, 128, 512] {
        for chunk_size in [1usize, 2, 3, 8, 1024, 1 << 30] {
            assert_eq!(output(&files, partitions, chunk_size), reference);
        }
    }
}

#[test]
fn last_token_without_trailing_whitespace_is_kept() {
    let files = corpus(&["first second third"]);
    assert_eq!(words(&files, 4, 5), vec!["first", "second", "third"]);
}

#[test]
fn unicode_words_are_lowercased_and_ordered_by_bytes() {
    let files = corpus(&["ZÜRICH \u{c9}cole zebra \u{e9}cole"]);
    // 'z' (0x7a) sorts before the two-byte encodings of the accented letters.
    assert_eq!(words(&files, 2, 3), vec!["zebra", "zürich", "école"]);
}

fn letters(mut n: u64, state: &mut u64) -> Vec<u8> {
    // Five letters that spell the counter, then one to three pseudo-random letters.
    let mut word = Vec::with_capacity(9);
    for _ in 0..5 {
        word.push(b'a' + (n % 26) as u8);
        n /= 26;
    }
    *state = state.wrapping_mul(6364136223846793005).wrapping_add(1442695040888963407);
    let extra = 1 + ((*state >> 33) % 3) as usize;
    for k in 0..extra {
        word.push(b'A' + ((*state >> (40 + 5 * k)) % 26) as u8);
    }
    word
}

#[test]
fn ten_megabytes_in_twenty_chunks_match_one_chunk() {
    let size: usize = 10 * 1024 * 1024;
    let mut data: Vec<u8> = Vec::with_capacity(size + 16);
    let mut state: u64 = 0x5eed;
    let mut n: u64 = 0;
    while data.len() < size {
        data.extend_from_slice(&letters(n, &mut state));
        data.push(b' ');
        n += 1;
    }
    let files = vec![data];
    let len = files[0].len();
    let split = run(&files, &Config::new(64, (len + 19) / 20).unwrap()).unwrap();
    let whole = run(&files, &Config::new(64, len).unwrap()).unwrap();
    assert_eq!(split.report.distinct_tokens, n);
    assert_eq!(whole.report.distinct_tokens, n);
    assert_eq!(split.report.distinct_tokens, whole.report.distinct_tokens);
    assert_eq!(split.report.total_tokens, n);
    assert_eq!(split.tokens.len(), whole.tokens.len());
}

#[test]
fn zero_partitions_or_zero_chunk_size_is_refused() {
    assert!(Config::new(0, 16).is_none());
    assert!(Config::new(16, 0).is_none());
    assert!(Config::new(0, 0).is_none());
    let config = Config::new(328, 1024).unwrap();
    assert_eq!(config.partitions(), 328);
    assert_eq!(config.chunk_size(), 1024);
}

#[test]
fn report_counts_and_saturates() {
    let mut report = Report::new();
    report.add_tokens(7);
    report.add_tokens(5);
    report.add_skipped();
    report.set_distinct(3);
    assert_eq!(report, Report { total_tokens: 12, distinct_tokens: 3, skipped_units: 1 });
    assert!(report.has_warning());
    let mut other = Report { total_tokens: u64::MAX - 5, distinct_tokens: 1, skipped_units: 0 };
    other.absorb(&report);
    assert_eq!(
        other,
        Report { total_tokens: u64::MAX, distinct_tokens: 4, skipped_units: 1 }
    );
    let mut full = Report { total_tokens: 0, distinct_tokens: 0, skipped_units: u64::MAX };
    full.add_skipped();
    assert_eq!(full.skipped_units, u64::MAX);
}

#[test]
fn error_messages_tell_the_kinds_apart() {
    assert_eq!(EngineError::Io.message(), "file operation failed");
    assert_eq!(EngineError::Decode.message(), "corrupt record");
    assert_eq!(EngineError::Directory.message(), "input directory unavailable");
    assert_ne!(EngineError::Io, EngineError::Decode);
}

#[test]
fn render_lines_ends_every_token_with_a_line_feed() {
    let tokens = vec![b"a".to_vec(), b"bc".to_vec()];
    assert_eq!(render_lines(&tokens), b"a\nbc\n".to_vec());
    assert_eq!(render_lines(&Vec::new()), Vec::<u8>::new());
}
