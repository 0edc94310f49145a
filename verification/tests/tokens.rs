use sorter::order::bytes_equal;
use sorter::order::bytes_less;
use sorter::route::hash_partition;
use sorter::route::hash_token;
use sorter::route::route_all;
use sorter::route::Partitions;
use sorter::route::FNV_OFFSET;
use sorter::route::FNV_PRIME;
use sorter::token::byte_is_space;
use sorter::token::char_is_space;
use sorter::token::push_text_tokens;
use sorter::token::push_word_tokens;
use sorter::token::split_words;
use sorter::token::tokenize;

fn texts(tokens: &Vec<Vec<u8>>) -> Vec<String> {
    tokens.iter().map(|t| String::from_utf8(t.clone()).unwrap()).collect()
}

#[test]
fn tokenize_splits_and_lowercases() {
    let found = tokenize(b"Apple banana APPLE\nBanana apple\n");
    assert_eq!(texts(&found), vec!["apple", "banana", "apple", "banana", "apple"]);
}

#[test]
fn tokenize_never_gives_an_empty_token() {
    assert!(tokenize(b"").is_empty());
    assert!(tokenize(b" \t\r\n\x0c  ").is_empty());
    let found = tokenize(b"  a   b  ");
    assert_eq!(texts(&found), vec!["a", "b"]);
    assert!(found.iter().all(|t| !t.is_empty()));
}

#[test]
fn tokenize_replaces_invalid_bytes() {
    let found = tokenize(&[b'F', 0xff, b'O', b' ', 0xc3]);
    assert_eq!(found, vec![vec![b'f', 0xef, 0xbf, 0xbd, b'o'], vec![0xef, 0xbf, 0xbd]]);
}

#[test]
fn tokenize_splits_at_unicode_whitespace() {
    let found = tokenize("One\u{a0}TWO\u{2003}three\u{b}Four\u{3000}five\u{85}six".as_bytes());
    assert_eq!(texts(&found), vec!["one", "two", "three", "four", "five", "six"]);
}

#[test]
fn tokenize_lowercases_beyond_ascii() {
    let found = tokenize("\u{c9}COLE \u{3a9}MEGA STRASSE \u{130}".as_bytes());
    let expected: Vec<String> = ["\u{c9}COLE", "\u{3a9}MEGA", "STRASSE", "\u{130}"]
        .iter()
        .map(|w| w.to_lowercase())
        .collect();
    assert_eq!(texts(&found), expected);
    assert_eq!(texts(&found)[0], "\u{e9}cole");
}

#[test]
fn tokenize_agrees_with_std_on_mixed_text() {
    let text = "Mixed\tCASE\r\nlines and\u{2028}separators \u{1680} End";
    let expected: Vec<String> = text
        .lines()
        .flat_map(|l| l.split_whitespace())
        .map(|w| w.to_lowercase())
        .collect();
    assert_eq!(texts(&tokenize(text.as_bytes())), expected);
}

#[test]
fn whitespace_tests_match_std() {
    for b in 0u8..=255 {
        assert_eq!(byte_is_space(b), b.is_ascii_whitespace());
    }
    for u in 0u32..0x11_0000 {
        if let Some(c) = char::from_u32(u) {
            assert_eq!(char_is_space(c), c.is_whitespace());
        }
    }
}

#[test]
fn split_words_gives_the_runs_between_whitespace() {
    let text: Vec<char> = " ab\u{a0}c  d ".chars().collect();
    let words = split_words(&text);
    assert_eq!(words, vec![vec!['a', 'b'], vec!['c'], vec!['d']]);
    assert!(split_words(&[]).is_empty());
}

#[test]
fn push_word_tokens_appends_in_order() {
    let words = vec![vec!['H', 'i'], vec!['Y', 'O', 'U']];
    let mut out = vec![b"first".to_vec()];
    push_word_tokens(&words, &mut out);
    assert_eq!(texts(&out), vec!["first", "hi", "you"]);
    let text: Vec<char> = "More WORDS".chars().collect();
    push_text_tokens(&text, &mut out);
    assert_eq!(texts(&out), vec!["first", "hi", "you", "more", "words"]);
}

#[test]
fn bytes_are_ordered_lexicographically() {
    assert!(bytes_less(b"", b"a"));
    assert!(bytes_less(b"a", b"ab"));
    assert!(bytes_less(b"ab", b"b"));
    assert!(bytes_less(b"Z", b"a"));
    assert!(bytes_less(&[0x7f], &[0x80]));
    assert!(!bytes_less(b"a", b"a"));
    assert!(!bytes_less(b"b", b"ab"));
    assert!(!bytes_less(b"ab", b"a"));
    assert!(!bytes_less(b"", b""));
    assert!(bytes_equal(b"abc", b"abc"));
    assert!(bytes_equal(b"", b""));
    assert!(!bytes_equal(b"abc", b"abd"));
    assert!(!bytes_equal(b"abc", b"ab"));
}

#[test]
fn bytes_less_agrees_with_std() {
    let samples: [&[u8]; 7] = [b"", b"a", b"aa", b"ab", b"b", &[0xff], &[0x00, 0x01]];
    for a in samples {
        for b in samples {
            assert_eq!(bytes_less(a, b), a < b);
            assert_eq!(bytes_equal(a, b), a == b);
        }
    }
}

#[test]
fn hash_is_fnv1a() {
    assert_eq!(FNV_OFFSET, 0xcbf29ce484222325);
    assert_eq!(FNV_PRIME, 0x100000001b3);
    assert_eq!(hash_token(b""), 0xcbf29ce484222325);
    assert_eq!(hash_token(b"a"), 0xaf63dc4c8601ec8c);
    assert_eq!(hash_token(b"foobar"), 0x85944171f73967e8);
}

#[test]
fn hash_partition_is_the_hash_modulo_the_count() {
    assert_eq!(hash_partition(b"a", 1), 0);
    assert_eq!(hash_partition(b"a", 328), (0xaf63dc4c8601ec8cu64 % 328) as usize);
    assert_eq!(hash_partition(b"foobar", 512), (0x85944171f73967e8u64 % 512) as usize);
    for partitions in 1usize..40 {
        assert!(hash_partition(b"token", partitions) < partitions);
        assert_eq!(hash_partition(b"token", partitions), hash_partition(b"token", partitions));
    }
}

#[test]
fn equal_tokens_meet_in_one_store() {
    let mut parts = Partitions::new(5);
    assert_eq!(parts.len(), 5);
    let tokens: Vec<Vec<u8>> =
        ["x", "y", "x", "z", "y", "x"].iter().map(|t| t.as_bytes().to_vec()).collect();
    route_all(&mut parts, tokens.clone());
    let extra = parts.append(b"x".to_vec());
    assert_eq!(extra, hash_partition(b"x", 5));
    let stores = parts.into_stores();
    assert_eq!(stores.len(), 5);
    for (p, store) in stores.iter().enumerate() {
        for token in store {
            assert_eq!(hash_partition(token, 5), p);
        }
    }
    let x_store = &stores[hash_partition(b"x", 5)];
    assert_eq!(x_store.iter().filter(|t| t.as_slice() == b"x").count(), 4);
    let total: usize = stores.iter().map(|s| s.len()).sum();
    assert_eq!(total, 7);
}
