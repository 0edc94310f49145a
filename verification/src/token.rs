//! The tokenizer: a chunk's bytes are cut at ASCII whitespace, each piece is
//! decoded permissively and cut again at Unicode whitespace, and every word
//! is put in lower case.

use crate::split::lemma_runs_concat;
use crate::split::lemma_runs_step;
use crate::split::lemma_seqs_of_push;
use crate::split::runs;
use crate::split::seqs_of;
use vstd::prelude::*;
use vstd::slice::slice_subrange;
use vstd::slice::slice_to_vec;

verus! {

/// The ASCII whitespace bytes: space, tab, line feed, form feed, carriage
/// return. Chunk boundaries fall directly behind one of these.
pub open spec fn is_ascii_space(b: u8) -> bool {
    b == 0x20 || b == 0x09 || b == 0x0a || b == 0x0c || b == 0x0d
}

/// The characters with the Unicode property White_Space.
pub open spec fn is_space(c: char) -> bool {
    let u = c as u32;
    ||| 0x09 <= u <= 0x0d
    ||| u == 0x20
    ||| u == 0x85
    ||| u == 0xa0
    ||| u == 0x1680
    ||| 0x2000 <= u <= 0x200a
    ||| u == 0x2028
    ||| u == 0x2029
    ||| u == 0x202f
    ||| u == 0x205f
    ||| u == 0x3000
}

/// `is_ascii_space` as a separator test.
pub open spec fn ascii_sep() -> spec_fn(u8) -> bool {
    |b: u8| is_ascii_space(b)
}

/// `is_space` as a separator test.
pub open spec fn space_sep() -> spec_fn(char) -> bool {
    |c: char| is_space(c)
}

/// The text that permissive UTF-8 decoding makes of `bytes`: every invalid
/// byte sequence is replaced by U+FFFD.
pub uninterp spec fn lossy_text(bytes: Seq<u8>) -> Seq<char>;

/// The UTF-8 bytes of the lower-case form of `word`.
pub uninterp spec fn lower_utf8(word: Seq<char>) -> Seq<u8>;

/// The tokens of a list of words: each word in lower case, as UTF-8, in
/// order. A word whose lower-case form is empty gives no token.
pub open spec fn word_tokens(words: Seq<Seq<char>>) -> Seq<Seq<u8>>
    decreases words.len(),
{
    if words.len() == 0 {
        Seq::empty()
    } else {
        let before = word_tokens(words.drop_last());
        let token = lower_utf8(words.last());
        if token.len() == 0 {
            before
        } else {
            before.push(token)
        }
    }
}

/// The tokens of one piece of bytes that holds no ASCII whitespace.
pub open spec fn piece_tokens(piece: Seq<u8>) -> Seq<Seq<u8>> {
    word_tokens(runs(lossy_text(piece), space_sep()))
}

/// The tokens of a list of pieces, in order.
pub open spec fn pieces_tokens(pieces: Seq<Seq<u8>>) -> Seq<Seq<u8>>
    decreases pieces.len(),
{
    if pieces.len() == 0 {
        Seq::empty()
    } else {
        pieces_tokens(pieces.drop_last()) + piece_tokens(pieces.last())
    }
}

/// The tokens of a byte buffer, in order of appearance.
pub open spec fn tokens(bytes: Seq<u8>) -> Seq<Seq<u8>> {
    pieces_tokens(runs(bytes, ascii_sep()))
}

/// No token is empty.
pub proof fn lemma_word_tokens_nonempty(words: Seq<Seq<char>>)
    ensures
        forall|i: int|
            0 <= i < word_tokens(words).len() ==> (#[trigger] word_tokens(words)[i]).len() > 0,
    decreases words.len(),
{
    if words.len() > 0 {
        let before = word_tokens(words.drop_last());
        lemma_word_tokens_nonempty(words.drop_last());
        assert forall|i: int| 0 <= i < word_tokens(words).len() implies (#[trigger] word_tokens(
            words,
        )[i]).len() > 0 by {
            if i < before.len() {
                assert(word_tokens(words)[i] == before[i]);
            }
        }
    }
}

/// No token of a list of pieces is empty.
pub proof fn lemma_pieces_tokens_nonempty(pieces: Seq<Seq<u8>>)
    ensures
        forall|i: int|
            0 <= i < pieces_tokens(pieces).len() ==> (#[trigger] pieces_tokens(pieces)[i]).len()
                > 0,
    decreases pieces.len(),
{
    if pieces.len() > 0 {
        let before = pieces_tokens(pieces.drop_last());
        let last = piece_tokens(pieces.last());
        lemma_pieces_tokens_nonempty(pieces.drop_last());
        lemma_word_tokens_nonempty(runs(lossy_text(pieces.last()), space_sep()));
        assert forall|i: int| 0 <= i < pieces_tokens(pieces).len() implies (
        #[trigger] pieces_tokens(pieces)[i]).len() > 0 by {
            if i < before.len() {
                assert(pieces_tokens(pieces)[i] == before[i]);
            } else {
                assert(pieces_tokens(pieces)[i] == last[i - before.len()]);
            }
        }
    }
}

/// An empty buffer has no tokens.
pub proof fn lemma_tokens_empty()
    ensures
        tokens(Seq::<u8>::empty()) == Seq::<Seq<u8>>::empty(),
{
    assert(runs(Seq::<u8>::empty(), ascii_sep()) =~= Seq::<Seq<u8>>::empty());
}

/// No token of a buffer is empty.
pub proof fn lemma_tokens_nonempty(bytes: Seq<u8>)
    ensures
        forall|i: int| 0 <= i < tokens(bytes).len() ==> (#[trigger] tokens(bytes)[i]).len() > 0,
{
    lemma_pieces_tokens_nonempty(runs(bytes, ascii_sep()));
}

/// The tokens of two lists of pieces, one after the other, are the tokens of
/// the first list followed by those of the second.
pub proof fn lemma_pieces_tokens_concat(p: Seq<Seq<u8>>, q: Seq<Seq<u8>>)
    ensures
        pieces_tokens(p + q) == pieces_tokens(p) + pieces_tokens(q),
    decreases q.len(),
{
    if q.len() == 0 {
        assert(p + q =~= p);
        assert(pieces_tokens(p) + pieces_tokens(q) =~= pieces_tokens(p));
    } else {
        lemma_pieces_tokens_concat(p, q.drop_last());
        assert((p + q).drop_last() =~= p + q.drop_last());
        assert((p + q).last() == q.last());
        assert(pieces_tokens(p + q) =~= pieces_tokens(p) + pieces_tokens(q));
    }
}

/// Cutting a buffer directly behind an ASCII whitespace byte cuts no token:
/// the tokens of the whole are those of the front part followed by those of
/// the back part.
pub proof fn lemma_tokens_concat(a: Seq<u8>, b: Seq<u8>)
    requires
        a.len() == 0 || is_ascii_space(a.last()),
    ensures
        tokens(a + b) == tokens(a) + tokens(b),
{
    lemma_runs_concat(a, b, ascii_sep());
    lemma_pieces_tokens_concat(runs(a, ascii_sep()), runs(b, ascii_sep()));
}

/// Whether `b` is an ASCII whitespace byte.
pub fn byte_is_space(b: u8) -> (r: bool)
    ensures
        r == is_ascii_space(b),
{
    b == 0x20 || b == 0x09 || b == 0x0a || b == 0x0c || b == 0x0d
}

/// Whether `c` has the Unicode property White_Space.
pub fn char_is_space(c: char) -> (r: bool)
    ensures
        r == is_space(c),
{
    let u: u32 = c as u32;
    (0x09 <= u && u <= 0x0d) || u == 0x20 || u == 0x85 || u == 0xa0 || u == 0x1680 || (0x2000 <= u
        && u <= 0x200a) || u == 0x2028 || u == 0x2029 || u == 0x202f || u == 0x205f || u == 0x3000
}

/// Permissive decoding, by `String::from_utf8_lossy`. Trusted: the result is
/// the text that this function makes of the bytes, character by character.
#[verifier::external_body]
fn decode_lossy(bytes: &[u8]) -> (text: Vec<char>)
    ensures
        text@ == lossy_text(bytes@),
{
    String::from_utf8_lossy(bytes).chars().collect()
}

/// Lower case, by `str::to_lowercase`. Trusted: the result is the UTF-8
/// encoding of the string that this function makes of the word.
#[verifier::external_body]
fn lowercase_utf8(word: &[char]) -> (lowered: Vec<u8>)
    ensures
        lowered@ == lower_utf8(word@),
{
    word.iter().collect::<String>().to_lowercase().into_bytes()
}

/// The words of a decoded text: its maximal runs of characters that are not
/// whitespace.
pub fn split_words(text: &[char]) -> (words: Vec<Vec<char>>)
    ensures
        seqs_of(words@) == runs(text@, space_sep()),
{
    let mut words: Vec<Vec<char>> = Vec::new();
    let mut i: usize = 0;
    proof {
        assert(text@.skip(0) =~= text@);
        assert(seqs_of(words@) =~= Seq::<Seq<char>>::empty());
    }
    while i < text.len()
        invariant
            i <= text.len(),
            seqs_of(words@) + runs(text@.skip(i as int), space_sep()) == runs(text@, space_sep()),
        decreases text.len() - i,
    {
        let mut start = i;
        while start < text.len() && char_is_space(text[start])
            invariant
                i <= start <= text.len(),
                forall|k: int| i <= k < start ==> space_sep()(#[trigger] text@[k]),
            decreases text.len() - start,
        {
            start += 1;
        }
        let mut end = start;
        while end < text.len() && !char_is_space(text[end])
            invariant
                start <= end <= text.len(),
                forall|k: int| start <= k < end ==> !space_sep()(#[trigger] text@[k]),
            decreases text.len() - end,
        {
            end += 1;
        }
        proof {
            lemma_runs_step(text@, space_sep(), i as int, start as int, end as int);
        }
        if start < end {
            let word = slice_to_vec(slice_subrange(text, start, end));
            proof {
                lemma_seqs_of_push(words@, word);
                assert(seqs_of(words@).push(word@) + runs(text@.skip(end as int), space_sep())
                    =~= seqs_of(words@) + (seq![word@] + runs(
                    text@.skip(end as int),
                    space_sep(),
                )));
            }
            words.push(word);
        }
        i = end;
    }
    proof {
        assert(text@.skip(text@.len() as int) =~= Seq::<char>::empty());
        assert(seqs_of(words@) + Seq::<Seq<char>>::empty() =~= seqs_of(words@));
    }
    words
}

/// Appends the tokens of `words` to `out`: each word in lower case, those
/// with an empty lower-case form left out.
pub fn push_word_tokens(words: &Vec<Vec<char>>, out: &mut Vec<Vec<u8>>)
    ensures
        seqs_of(final(out)@) == seqs_of(old(out)@) + word_tokens(seqs_of(words@)),
{
    let mut k: usize = 0;
    proof {
        assert(seqs_of(words@).take(0) =~= Seq::<Seq<char>>::empty());
        assert(seqs_of(out@) + Seq::<Seq<u8>>::empty() =~= seqs_of(out@));
    }
    while k < words.len()
        invariant
            k <= words.len(),
            seqs_of(out@) == seqs_of(old(out)@) + word_tokens(seqs_of(words@).take(k as int)),
        decreases words.len() - k,
    {
        let lowered = lowercase_utf8(words[k].as_slice());
        proof {
            let next = seqs_of(words@).take(k + 1);
            assert(next.drop_last() =~= seqs_of(words@).take(k as int));
            assert(next.last() == words@[k as int]@);
        }
        if lowered.len() > 0 {
            proof {
                lemma_seqs_of_push(out@, lowered);
                assert(seqs_of(out@).push(lowered@) =~= seqs_of(old(out)@) + word_tokens(
                    seqs_of(words@).take(k as int),
                ).push(lowered@));
            }
            out.push(lowered);
        }
        k += 1;
    }
    proof {
        assert(seqs_of(words@).take(words@.len() as int) =~= seqs_of(words@));
    }
}

/// Appends the tokens of one piece to `out`, where `text` is the piece as
/// decoded.
pub fn push_text_tokens(text: &[char], out: &mut Vec<Vec<u8>>)
    ensures
        seqs_of(final(out)@) == seqs_of(old(out)@) + word_tokens(runs(text@, space_sep())),
{
    let words = split_words(text);
    push_word_tokens(&words, out);
}

/// The tokens of a chunk, in order of appearance.
pub fn tokenize(chunk: &[u8]) -> (found: Vec<Vec<u8>>)
    ensures
        seqs_of(found@) == tokens(chunk@),
{
    let mut found: Vec<Vec<u8>> = Vec::new();
    let ghost mut done: Seq<Seq<u8>> = Seq::empty();
    let mut i: usize = 0;
    proof {
        assert(chunk@.skip(0) =~= chunk@);
        assert(seqs_of(found@) =~= Seq::<Seq<u8>>::empty());
        assert(done + runs(chunk@, ascii_sep()) =~= runs(chunk@, ascii_sep()));
    }
    while i < chunk.len()
        invariant
            i <= chunk.len(),
            done + runs(chunk@.skip(i as int), ascii_sep()) == runs(chunk@, ascii_sep()),
            seqs_of(found@) == pieces_tokens(done),
        decreases chunk.len() - i,
    {
        let mut start = i;
        while start < chunk.len() && byte_is_space(chunk[start])
            invariant
                i <= start <= chunk.len(),
                forall|k: int| i <= k < start ==> ascii_sep()(#[trigger] chunk@[k]),
            decreases chunk.len() - start,
        {
            start += 1;
        }
        let mut end = start;
        while end < chunk.len() && !byte_is_space(chunk[end])
            invariant
                start <= end <= chunk.len(),
                forall|k: int| start <= k < end ==> !ascii_sep()(#[trigger] chunk@[k]),
            decreases chunk.len() - end,
        {
            end += 1;
        }
        proof {
            lemma_runs_step(chunk@, ascii_sep(), i as int, start as int, end as int);
        }
        if start < end {
            let piece = slice_subrange(chunk, start, end);
            let text = decode_lossy(piece);
            push_text_tokens(text.as_slice(), &mut found);
            proof {
                let next = done.push(piece@);
                assert(next.drop_last() =~= done);
                assert(next + runs(chunk@.skip(end as int), ascii_sep()) =~= done + (seq![piece@]
                    + runs(chunk@.skip(end as int), ascii_sep())));
                done = next;
            }
        }
        i = end;
    }
    proof {
        assert(chunk@.skip(chunk@.len() as int) =~= Seq::<u8>::empty());
        assert(done + Seq::<Seq<u8>>::empty() =~= done);
    }
    found
}

} // verus!
