//! The binary record stream of a compacted partition: each token is written
//! as a four-byte little-endian length followed by the token's bytes.

use crate::error::EngineError;
use crate::split::seqs_of;
use vstd::prelude::*;
use vstd::slice::slice_subrange;
use vstd::slice::slice_to_vec;

verus! {

/// Number of bytes in a record's length prefix.
pub const PREFIX_LEN: usize = 4;

/// Largest token length that a length prefix can express.
pub const MAX_TOKEN_LEN: usize = 0xffff_ffff;

/// The number that four little-endian bytes stand for.
pub open spec fn le_value(b0: u8, b1: u8, b2: u8, b3: u8) -> nat {
    (b0 + 256 * b1 + 65536 * b2 + 16777216 * b3) as nat
}

/// The four little-endian bytes of `n`, for `n` below 2^32.
pub open spec fn le_bytes(n: nat) -> Seq<u8> {
    seq![
        (n % 256) as u8,
        ((n / 256) % 256) as u8,
        ((n / 65536) % 256) as u8,
        ((n / 16777216) % 256) as u8,
    ]
}

/// One record: the token's length, then the token.
pub open spec fn record(token: Seq<u8>) -> Seq<u8> {
    le_bytes(token.len()) + token
}

/// The record stream of a list of tokens: their records, one after another.
pub open spec fn framed(tokens: Seq<Seq<u8>>) -> Seq<u8>
    decreases tokens.len(),
{
    if tokens.len() == 0 {
        Seq::empty()
    } else {
        record(tokens[0]) + framed(tokens.drop_first())
    }
}

/// Every token is short enough for a length prefix.
pub open spec fn all_fit(tokens: Seq<Seq<u8>>) -> bool {
    forall|i: int| 0 <= i < tokens.len() ==> (#[trigger] tokens[i]).len() <= MAX_TOKEN_LEN
}

/// The length that the first four bytes of a stream declare.
pub open spec fn declared_len(bytes: Seq<u8>) -> nat
    recommends
        bytes.len() >= 4,
{
    le_value(bytes[0], bytes[1], bytes[2], bytes[3])
}

/// What stands at the front of a record stream.
pub enum Frame {
    /// Fewer than four bytes are left: the stream ends here.
    End,
    /// The declared length exceeds the bytes that are left.
    Corrupt,
    /// A whole record, and the stream behind it.
    Record { token: Seq<u8>, rest: Seq<u8> },
}

/// Reads the front of a record stream.
pub open spec fn first_frame(bytes: Seq<u8>) -> Frame {
    if bytes.len() < 4 {
        Frame::End
    } else if declared_len(bytes) > bytes.len() - 4 {
        Frame::Corrupt
    } else {
        Frame::Record {
            token: bytes.subrange(4, 4 + declared_len(bytes) as int),
            rest: bytes.skip(4 + declared_len(bytes) as int),
        }
    }
}

/// The tokens of a record stream, or `None` where some record is cut short.
pub open spec fn decoded(bytes: Seq<u8>) -> Option<Seq<Seq<u8>>>
    decreases bytes.len(),
{
    match first_frame(bytes) {
        Frame::End => Some(Seq::empty()),
        Frame::Corrupt => None,
        Frame::Record { token, rest } => match decoded(rest) {
            Some(more) => Some(seq![token] + more),
            None => None,
        },
    }
}

/// The length prefix of a token of `n` bytes.
pub fn encode_len(n: u32) -> (prefix: [u8; 4])
    ensures
        prefix@ == le_bytes(n as nat),
{
    let prefix = [
        (n % 256) as u8,
        ((n / 256) % 256) as u8,
        ((n / 65536) % 256) as u8,
        ((n / 16777216) % 256) as u8,
    ];
    assert(prefix@ =~= le_bytes(n as nat));
    prefix
}

/// The token length that a length prefix declares.
pub fn decode_len(prefix: &[u8; 4]) -> (n: u32)
    ensures
        n == declared_len(prefix@),
{
    let b0: u32 = prefix[0] as u32;
    let b1: u32 = prefix[1] as u32;
    let b2: u32 = prefix[2] as u32;
    let b3: u32 = prefix[3] as u32;
    b0 + 256 * b1 + 65536 * b2 + 16777216 * b3
}

/// A length prefix declares the length it was made from.
pub proof fn lemma_len_roundtrip(n: nat)
    requires
        n <= MAX_TOKEN_LEN,
    ensures
        le_bytes(n).len() == 4,
        declared_len(le_bytes(n)) == n,
{
    let p = le_bytes(n);
    assert(p[0] == n % 256);
    assert(p[1] == (n / 256) % 256);
    assert(p[2] == (n / 65536) % 256);
    assert(p[3] == (n / 16777216) % 256);
}

/// Appending a token to a list appends its record to the stream.
pub proof fn lemma_framed_push(tokens: Seq<Seq<u8>>, token: Seq<u8>)
    ensures
        framed(tokens.push(token)) == framed(tokens) + record(token),
    decreases tokens.len(),
{
    if tokens.len() == 0 {
        reveal_with_fuel(framed, 2);
        assert(tokens.push(token).drop_first() =~= Seq::<Seq<u8>>::empty());
        assert(framed(tokens.push(token)) =~= record(token) + Seq::<u8>::empty());
        assert(framed(tokens) + record(token) =~= record(token));
    } else {
        lemma_framed_push(tokens.drop_first(), token);
        assert(tokens.push(token).drop_first() =~= tokens.drop_first().push(token));
        assert(framed(tokens.push(token)) =~= framed(tokens) + record(token));
    }
}

/// A record at the front of a stream is read back as its token, and the
/// stream behind it is left.
pub proof fn lemma_first_frame_of_record(token: Seq<u8>, rest: Seq<u8>)
    requires
        token.len() <= MAX_TOKEN_LEN,
    ensures
        first_frame(record(token) + rest) == (Frame::Record { token, rest }),
{
    let bytes = record(token) + rest;
    let n = token.len();
    lemma_len_roundtrip(n);
    let p = le_bytes(n);
    assert(bytes[0] == p[0] && bytes[1] == p[1] && bytes[2] == p[2] && bytes[3] == p[3]);
    assert(declared_len(bytes) == n);
    assert(bytes.subrange(4, 4 + n as int) =~= token);
    assert(bytes.skip(4 + n as int) =~= rest);
}

/// Decoding undoes framing: a stream made from tokens that fit their length
/// prefixes decodes to those tokens, in order.
pub proof fn lemma_decode_framed(tokens: Seq<Seq<u8>>)
    requires
        all_fit(tokens),
    ensures
        decoded(framed(tokens)) == Some(tokens),
    decreases tokens.len(),
{
    if tokens.len() == 0 {
        assert(decoded(framed(tokens)) == Some(Seq::<Seq<u8>>::empty()));
        assert(tokens =~= Seq::<Seq<u8>>::empty());
    } else {
        let tail = tokens.drop_first();
        assert forall|i: int| 0 <= i < tail.len() implies (#[trigger] tail[i]).len()
            <= MAX_TOKEN_LEN by {
            assert(tail[i] == tokens[i + 1]);
        }
        lemma_decode_framed(tail);
        lemma_first_frame_of_record(tokens[0], framed(tail));
        assert(seq![tokens[0]] + tail =~= tokens);
    }
}

/// Appends the record of `token` to `out`. A token too long for the length
/// prefix is refused and `out` is left as it was.
pub fn append_record(out: &mut Vec<u8>, token: &[u8]) -> (r: Result<(), EngineError>)
    ensures
        match r {
            Ok(_) => token@.len() <= MAX_TOKEN_LEN && final(out)@ == old(out)@ + record(token@),
            Err(e) => e == EngineError::Decode && token@.len() > MAX_TOKEN_LEN && final(out)@
                == old(out)@,
        },
{
    if token.len() > MAX_TOKEN_LEN {
        return Err(EngineError::Decode);
    }
    let prefix = encode_len(token.len() as u32);
    out.push(prefix[0]);
    out.push(prefix[1]);
    out.push(prefix[2]);
    out.push(prefix[3]);
    let mut i: usize = 0;
    while i < token.len()
        invariant
            i <= token.len(),
            out@ == old(out)@ + le_bytes(token@.len()) + token@.take(i as int),
        decreases token.len() - i,
    {
        out.push(token[i]);
        assert(token@.take(i + 1) =~= token@.take(i as int).push(token@[i as int]));
        i += 1;
    }
    assert(token@.take(token@.len() as int) =~= token@);
    assert(out@ =~= old(out)@ + record(token@));
    Ok(())
}

/// The record stream of `tokens`, or `Decode` where a token is too long for
/// the length prefix.
pub fn encode_records(tokens: &Vec<Vec<u8>>) -> (r: Result<Vec<u8>, EngineError>)
    ensures
        match r {
            Ok(bytes) => all_fit(seqs_of(tokens@)) && bytes@ == framed(seqs_of(tokens@)),
            Err(e) => e == EngineError::Decode && !all_fit(seqs_of(tokens@)),
        },
{
    let mut out: Vec<u8> = Vec::new();
    let mut i: usize = 0;
    while i < tokens.len()
        invariant
            i <= tokens.len(),
            all_fit(seqs_of(tokens@).take(i as int)),
            out@ == framed(seqs_of(tokens@).take(i as int)),
        decreases tokens.len() - i,
    {
        let ghost done = seqs_of(tokens@).take(i as int);
        match append_record(&mut out, tokens[i].as_slice()) {
            Ok(_) => {},
            Err(e) => {
                assert(seqs_of(tokens@)[i as int].len() > MAX_TOKEN_LEN);
                return Err(e);
            },
        }
        proof {
            let next = seqs_of(tokens@).take(i + 1);
            assert(next =~= done.push(tokens@[i as int]@));
            lemma_framed_push(done, tokens@[i as int]@);
        }
        i += 1;
    }
    assert(seqs_of(tokens@).take(tokens@.len() as int) =~= seqs_of(tokens@));
    Ok(out)
}

/// A read position over the record stream of one compacted partition.
pub struct MergeCursor {
    buf: Vec<u8>,
    pos: usize,
}

impl MergeCursor {
    #[verifier::type_invariant]
    spec fn inv(self) -> bool {
        self.pos <= self.buf.len()
    }

    /// The part of the stream that has not been read yet.
    pub closed spec fn rest(&self) -> Seq<u8> {
        self.buf@.skip(self.pos as int)
    }

    /// A cursor at the start of `stream`.
    pub fn new(stream: Vec<u8>) -> (cursor: MergeCursor)
        ensures
            cursor.rest() == stream@,
    {
        assert(stream@.skip(0) =~= stream@);
        MergeCursor { buf: stream, pos: 0 }
    }
}

/// Reads the next record. At the end of the stream (fewer than four bytes
/// left) the result is `Ok(None)`; a record cut short is `Decode`; in both
/// cases the cursor stays where it was.
pub fn read_next_word(reader: &mut MergeCursor) -> (r: Result<Option<Vec<u8>>, EngineError>)
    ensures
        match first_frame(old(reader).rest()) {
            Frame::End => r == Ok::<Option<Vec<u8>>, EngineError>(None) && final(reader).rest()
                == old(reader).rest(),
            Frame::Corrupt => r == Err::<Option<Vec<u8>>, EngineError>(EngineError::Decode)
                && final(reader).rest() == old(reader).rest(),
            Frame::Record { token, rest } => r matches Ok(Some(word)) && word@ == token
                && final(reader).rest() == rest,
        },
{
    proof {
        use_type_invariant(&*reader);
    }
    let left = reader.buf.len() - reader.pos;
    if left < PREFIX_LEN {
        return Ok(None);
    }
    let start = reader.pos;
    let ghost bytes = reader.rest();
    let prefix = [
        reader.buf[start],
        reader.buf[start + 1],
        reader.buf[start + 2],
        reader.buf[start + 3],
    ];
    assert(prefix@[0] == bytes[0] && prefix@[1] == bytes[1] && prefix@[2] == bytes[2] && prefix@[3]
        == bytes[3]);
    let len = decode_len(&prefix) as usize;
    if len > left - PREFIX_LEN {
        return Err(EngineError::Decode);
    }
    let body = slice_subrange(reader.buf.as_slice(), start + PREFIX_LEN, start + PREFIX_LEN + len);
    let word = slice_to_vec(body);
    reader.pos = start + PREFIX_LEN + len;
    proof {
        assert(word@ =~= bytes.subrange(4, 4 + len as int));
        assert(reader.rest() =~= bytes.skip(4 + len as int));
    }
    Ok(Some(word))
}

/// All tokens of a record stream, in order, or `Decode` where some record is
/// cut short.
pub fn decode_records(stream: Vec<u8>) -> (r: Result<Vec<Vec<u8>>, EngineError>)
    ensures
        match r {
            Ok(tokens) => decoded(stream@) == Some(seqs_of(tokens@)),
            Err(e) => e == EngineError::Decode && decoded(stream@) is None,
        },
{
    let ghost whole = stream@;
    let mut cursor = MergeCursor::new(stream);
    let mut tokens: Vec<Vec<u8>> = Vec::new();
    loop
        invariant
            whole == stream@,
            decoded(whole) == match decoded(cursor.rest()) {
                Some(more) => Some(seqs_of(tokens@) + more),
                None => None,
            },
        decreases cursor.rest().len(),
    {
        let ghost before = cursor.rest();
        let ghost seen = seqs_of(tokens@);
        match read_next_word(&mut cursor) {
            Err(e) => {
                return Err(e);
            },
            Ok(None) => {
                assert(seen + Seq::<Seq<u8>>::empty() =~= seen);
                return Ok(tokens);
            },
            Ok(Some(word)) => {
                proof {
                    let more = decoded(cursor.rest());
                    if more is Some {
                        assert(seqs_of(tokens@.push(word)) + more->0 =~= seen + (seq![word@]
                            + more->0));
                    }
                }
                tokens.push(word);
            },
        }
    }
}

} // verus!
