//! The chunk scanner: a file is cut into byte ranges of a nominal size, and
//! every cut is moved forward to the first position behind an ASCII
//! whitespace byte, so that no token lies across two chunks.

use crate::token::byte_is_space;
use crate::token::is_ascii_space;
use crate::token::lemma_tokens_concat;
use crate::token::lemma_tokens_empty;
use crate::token::tokens;
use vstd::prelude::*;

verus! {

/// A byte range of one input file, with whitespace-aligned ends.
#[derive(Debug, Clone, Copy, PartialEq, Eq, Structural)]
pub struct Chunk {
    /// Position of the file among the inputs.
    pub file: usize,
    /// Offset of the first byte of the chunk.
    pub start: usize,
    /// Offset behind the last byte of the chunk.
    pub end: usize,
}

/// The aligned form of position `p`: the position directly behind the first
/// ASCII whitespace byte at or after `p`, or the end of `data` where no
/// whitespace follows.
pub open spec fn align(data: Seq<u8>, p: int) -> int
    decreases data.len() - p,
{
    if p < 0 || p >= data.len() {
        data.len() as int
    } else if is_ascii_space(data[p]) {
        p + 1
    } else {
        align(data, p + 1)
    }
}

/// Number of chunks of a file of `len` bytes at a nominal chunk size of
/// `size`: `len / size`, rounded up.
pub open spec fn count(len: nat, size: nat) -> nat
    recommends
        size > 0,
{
    ((len + size - 1) / size as int) as nat
}

/// Where chunk `i` nominally starts: `i * size`, but not behind the end.
pub open spec fn nominal(len: nat, size: nat, i: nat) -> int {
    if i * size < len {
        (i * size) as int
    } else {
        len as int
    }
}

/// Where chunk `i` starts in fact, which is also where chunk `i - 1` ends:
/// the start of the file for `i == 0`, else the aligned nominal start.
pub open spec fn boundary(data: Seq<u8>, size: nat, i: nat) -> int {
    if i == 0 {
        0
    } else {
        align(data, nominal(data.len(), size, i))
    }
}

/// The bytes of chunk `i`.
pub open spec fn chunk_bytes(data: Seq<u8>, size: nat, i: nat) -> Seq<u8> {
    data.subrange(boundary(data, size, i), boundary(data, size, i + 1))
}

/// The first `n` chunks, one after another.
pub open spec fn joined(data: Seq<u8>, size: nat, n: nat) -> Seq<u8>
    decreases n,
{
    if n == 0 {
        Seq::empty()
    } else {
        joined(data, size, (n - 1) as nat) + chunk_bytes(data, size, (n - 1) as nat)
    }
}

/// The tokens of the first `n` chunks, chunk by chunk.
pub open spec fn chunked_tokens(data: Seq<u8>, size: nat, n: nat) -> Seq<Seq<u8>>
    decreases n,
{
    if n == 0 {
        Seq::empty()
    } else {
        chunked_tokens(data, size, (n - 1) as nat) + tokens(
            chunk_bytes(data, size, (n - 1) as nat),
        )
    }
}

/// An aligned position lies at or behind the position it was made from and
/// inside the data; it is the end of the data or follows a whitespace byte;
/// and no whitespace byte lies between the position and the byte before its
/// aligned form.
pub proof fn lemma_align_bounds(data: Seq<u8>, p: int)
    requires
        0 <= p <= data.len(),
    ensures
        p <= align(data, p) <= data.len(),
        p < data.len() ==> p < align(data, p),
        align(data, p) == data.len() || is_ascii_space(data[align(data, p) - 1]),
        forall|k: int| p <= k < align(data, p) - 1 ==> !is_ascii_space(#[trigger] data[k]),
        p < align(data, p) < data.len() ==> is_ascii_space(data[align(data, p) - 1]),
    decreases data.len() - p,
{
    if p < data.len() && !is_ascii_space(data[p]) {
        lemma_align_bounds(data, p + 1);
    }
}

/// Aligning keeps the order of positions.
pub proof fn lemma_align_monotone(data: Seq<u8>, p: int, q: int)
    requires
        0 <= p <= q <= data.len(),
    ensures
        align(data, p) <= align(data, q),
    decreases q - p,
{
    lemma_align_bounds(data, q);
    if p < q {
        if is_ascii_space(data[p]) {
        } else {
            lemma_align_monotone(data, p + 1, q);
        }
    }
}

/// The nominal starts ascend with the chunk index and stay inside the file.
pub proof fn lemma_nominal_monotone(len: nat, size: nat, i: nat, j: nat)
    requires
        i <= j,
    ensures
        0 <= nominal(len, size, i) <= nominal(len, size, j) <= len,
{
    assert(i * size <= j * size) by (nonlinear_arith)
        requires
            i <= j,
    ;
}

/// The boundaries ascend with the chunk index and stay inside the file.
pub proof fn lemma_boundary_monotone(data: Seq<u8>, size: nat, i: nat, j: nat)
    requires
        i <= j,
    ensures
        0 <= boundary(data, size, i) <= boundary(data, size, j) <= data.len(),
{
    lemma_nominal_monotone(data.len(), size, i, j);
    lemma_align_bounds(data, nominal(data.len(), size, j));
    if i > 0 {
        lemma_align_bounds(data, nominal(data.len(), size, i));
        lemma_align_monotone(
            data,
            nominal(data.len(), size, i),
            nominal(data.len(), size, j),
        );
    }
}

/// The boundary behind the last chunk is the end of the file.
pub proof fn lemma_last_boundary(data: Seq<u8>, size: nat, n: nat)
    requires
        size > 0,
        n >= count(data.len(), size),
    ensures
        boundary(data, size, n) == data.len(),
{
    let len = data.len();
    if n > 0 {
        assert(n * size >= len) by (nonlinear_arith)
            requires
                size > 0,
                n >= (len + size - 1) / (size as int),
        ;
        assert(nominal(len, size, n) == len);
    } else {
        assert(len == 0) by (nonlinear_arith)
            requires
                size > 0,
                (len + size - 1) / (size as int) <= 0,
        ;
    }
}

/// A boundary is the start of the file, its end, or the position directly
/// behind a whitespace byte.
pub proof fn lemma_boundary_follows_space(data: Seq<u8>, size: nat, i: nat)
    ensures
        boundary(data, size, i) == 0 || boundary(data, size, i) == data.len() || is_ascii_space(
            data[boundary(data, size, i) - 1],
        ),
{
    if i > 0 {
        lemma_nominal_monotone(data.len(), size, i, i);
        lemma_align_bounds(data, nominal(data.len(), size, i));
    }
}

/// The first `n` chunks, one after another, are the file up to the boundary
/// behind them: no byte is left out and none comes twice.
pub proof fn lemma_joined_prefix(data: Seq<u8>, size: nat, n: nat)
    ensures
        joined(data, size, n) == data.take(boundary(data, size, n)),
    decreases n,
{
    if n == 0 {
        assert(data.take(0) =~= Seq::<u8>::empty());
    } else {
        let m = (n - 1) as nat;
        lemma_joined_prefix(data, size, m);
        lemma_boundary_monotone(data, size, m, n);
        assert(data.take(boundary(data, size, m)) + chunk_bytes(data, size, m) =~= data.take(
            boundary(data, size, n),
        ));
    }
}

/// The chunks of a file, one after another, are the file.
pub proof fn lemma_chunks_tile(data: Seq<u8>, size: nat)
    requires
        size > 0,
    ensures
        joined(data, size, count(data.len(), size)) == data,
{
    let n = count(data.len(), size);
    lemma_joined_prefix(data, size, n);
    lemma_last_boundary(data, size, n);
    assert(data.take(data.len() as int) =~= data);
}

/// The tokens of the first `n` chunks, chunk by chunk, are the tokens of the
/// file up to the boundary behind them.
pub proof fn lemma_chunked_tokens_prefix(data: Seq<u8>, size: nat, n: nat)
    ensures
        chunked_tokens(data, size, n) == tokens(data.take(boundary(data, size, n))),
    decreases n,
{
    if n == 0 {
        assert(data.take(0) =~= Seq::<u8>::empty());
        lemma_tokens_empty();
    } else {
        let m = (n - 1) as nat;
        let front = data.take(boundary(data, size, m));
        let back = chunk_bytes(data, size, m);
        lemma_chunked_tokens_prefix(data, size, m);
        lemma_boundary_monotone(data, size, m, n);
        lemma_boundary_follows_space(data, size, m);
        assert(front + back =~= data.take(boundary(data, size, n)));
        if boundary(data, size, m) == data.len() {
            assert(back =~= Seq::<u8>::empty());
            assert(front + back =~= front);
            lemma_tokens_empty();
            assert(tokens(front) + tokens(back) =~= tokens(front));
        } else {
            if boundary(data, size, m) > 0 {
                assert(front.last() == data[boundary(data, size, m) - 1]);
            }
            lemma_tokens_concat(front, back);
        }
    }
}

/// Cutting a file into chunks neither loses, repeats nor splits a token, at
/// any chunk size: the tokens of the chunks, chunk by chunk, are the tokens
/// of the file.
pub proof fn lemma_chunking_keeps_tokens(data: Seq<u8>, size: nat)
    requires
        size > 0,
    ensures
        chunked_tokens(data, size, count(data.len(), size)) == tokens(data),
{
    let n = count(data.len(), size);
    lemma_chunked_tokens_prefix(data, size, n);
    lemma_last_boundary(data, size, n);
    assert(data.take(data.len() as int) =~= data);
}

/// Number of chunks of a file of `len` bytes at a nominal chunk size of
/// `size`.
pub fn chunk_count(len: usize, size: usize) -> (n: usize)
    requires
        size > 0,
    ensures
        n == count(len as nat, size as nat),
{
    let whole = len / size;
    let part = len % size;
    proof {
        let l = len as int;
        let s = size as int;
        assert(l == s * (l / s) + l % s && 0 <= l % s < s) by (nonlinear_arith)
            requires
                s > 0,
                l >= 0,
        ;
        if l % s == 0 {
            assert((l + s - 1) / s == l / s) by (nonlinear_arith)
                requires
                    s > 0,
                    l >= 0,
                    l % s == 0,
                    l == s * (l / s) + l % s,
            ;
        } else {
            assert((l + s - 1) / s == l / s + 1) by (nonlinear_arith)
                requires
                    s > 0,
                    l >= 0,
                    0 < l % s < s,
                    l == s * (l / s) + l % s,
            ;
            assert(l / s < l) by (nonlinear_arith)
                requires
                    s > 0,
                    l >= 0,
                    0 < l % s < s,
                    l == s * (l / s) + l % s,
            ;
        }
    }
    if part == 0 {
        whole
    } else {
        whole + 1
    }
}

/// The aligned form of position `p` in `data`.
pub fn align_from(data: &[u8], p: usize) -> (q: usize)
    ensures
        q == align(data@, p as int),
{
    if p >= data.len() {
        return data.len();
    }
    let mut k = p;
    while k < data.len() && !byte_is_space(data[k])
        invariant
            p <= k <= data.len(),
            align(data@, p as int) == align(data@, k as int),
        decreases data.len() - k,
    {
        k += 1;
    }
    if k < data.len() {
        k + 1
    } else {
        k
    }
}

/// Where chunk `index` nominally starts.
pub fn nominal_start(len: usize, size: usize, index: usize) -> (p: usize)
    ensures
        p == nominal(len as nat, size as nat, index as nat),
{
    match index.checked_mul(size) {
        Some(p) => if p < len {
            p
        } else {
            len
        },
        None => len,
    }
}

/// Where chunk `index` of `data` starts in fact.
pub fn chunk_start(data: &[u8], size: usize, index: usize) -> (p: usize)
    ensures
        p == boundary(data@, size as nat, index as nat),
{
    if index == 0 {
        0
    } else {
        align_from(data, nominal_start(data.len(), size, index))
    }
}

/// The range of chunk `index` of the file at position `file`, whose content
/// is `data`.
pub fn chunk_bounds(file: usize, data: &[u8], size: usize, index: usize) -> (chunk: Chunk)
    requires
        size > 0,
    ensures
        chunk.file == file,
        chunk.start == boundary(data@, size as nat, index as nat),
        chunk.end == boundary(data@, size as nat, index as nat + 1),
        chunk.start <= chunk.end <= data@.len(),
{
    let start = chunk_start(data, size, index);
    let end = if index == usize::MAX {
        data.len()
    } else {
        chunk_start(data, size, index + 1)
    };
    proof {
        lemma_boundary_monotone(data@, size as nat, index as nat, index as nat + 1);
        if index == usize::MAX {
            let next = index as nat + 1;
            assert(next * size as nat >= data@.len()) by (nonlinear_arith)
                requires
                    next > data@.len(),
                    size as nat > 0,
            ;
            assert(nominal(data@.len(), size as nat, next) == data@.len());
        }
    }
    Chunk { file, start, end }
}

/// What a scan of one chunk does with the bytes it is fed.
#[derive(Debug, Clone, Copy, PartialEq, Eq, Structural)]
pub enum ScanPhase {
    /// Bytes are dropped, up to and including the first whitespace byte.
    Skipping,
    /// Bytes are kept until the nominal end is reached.
    Filling,
    /// Bytes are kept, up to and including the first whitespace byte.
    Extending,
    /// The chunk is complete.
    Done,
}

/// The state of a scan: its phase, the number of bytes before the nominal
/// end that it has not been fed yet, and the bytes it has kept.
pub struct ScanState {
    pub phase: ScanPhase,
    pub left: nat,
    pub taken: Seq<u8>,
}

/// The state in which a scan starts. The first chunk of a file keeps its
/// bytes from the start; every other chunk first skips to a whitespace byte.
pub open spec fn scan_start(first: bool, nominal_len: nat) -> ScanState {
    ScanState {
        phase: if !first {
            ScanPhase::Skipping
        } else if nominal_len > 0 {
            ScanPhase::Filling
        } else {
            ScanPhase::Extending
        },
        left: nominal_len,
        taken: Seq::empty(),
    }
}

/// The state after one more byte of the file, or after its end (`None`).
pub open spec fn scan_step(state: ScanState, event: Option<u8>) -> ScanState {
    let left = if state.left > 0 {
        (state.left - 1) as nat
    } else {
        0
    };
    match event {
        None => ScanState { phase: ScanPhase::Done, left: state.left, taken: state.taken },
        Some(b) => match state.phase {
            ScanPhase::Skipping => ScanState {
                phase: if !is_ascii_space(b) {
                    ScanPhase::Skipping
                } else if state.left == 0 {
                    ScanPhase::Done
                } else if left > 0 {
                    ScanPhase::Filling
                } else {
                    ScanPhase::Extending
                },
                left,
                taken: state.taken,
            },
            ScanPhase::Filling => ScanState {
                phase: if left > 0 {
                    ScanPhase::Filling
                } else {
                    ScanPhase::Extending
                },
                left,
                taken: state.taken.push(b),
            },
            ScanPhase::Extending => ScanState {
                phase: if is_ascii_space(b) {
                    ScanPhase::Done
                } else {
                    ScanPhase::Extending
                },
                left,
                taken: state.taken.push(b),
            },
            ScanPhase::Done => state,
        },
    }
}

/// A scan of one chunk, fed byte by byte from the chunk's nominal start.
pub struct ChunkScan {
    phase: ScanPhase,
    left: usize,
    taken: Vec<u8>,
}

impl View for ChunkScan {
    type V = ScanState;

    closed spec fn view(&self) -> ScanState {
        ScanState { phase: self.phase, left: self.left as nat, taken: self.taken@ }
    }
}

impl ChunkScan {
    /// A scan of a chunk of `nominal_len` nominal bytes; `first` says whether
    /// the chunk starts the file.
    pub fn new(first: bool, nominal_len: usize) -> (scan: ChunkScan)
        ensures
            scan@ == scan_start(first, nominal_len as nat),
    {
        let phase = if !first {
            ScanPhase::Skipping
        } else if nominal_len > 0 {
            ScanPhase::Filling
        } else {
            ScanPhase::Extending
        };
        ChunkScan { phase, left: nominal_len, taken: Vec::new() }
    }

    /// Whether the chunk is complete, so that no more bytes are wanted.
    pub fn is_done(&self) -> (done: bool)
        ensures
            done == (self@.phase == ScanPhase::Done),
    {
        self.phase == ScanPhase::Done
    }

    /// Takes the next byte of the file, or its end (`None`).
    pub fn feed(&mut self, event: Option<u8>)
        ensures
            final(self)@ == scan_step(old(self)@, event),
    {
        match event {
            None => {
                self.phase = ScanPhase::Done;
            },
            Some(b) => {
                let before = self.left;
                let space = byte_is_space(b);
                match self.phase {
                    ScanPhase::Skipping => {
                        if before > 0 {
                            self.left = before - 1;
                        }
                        if space {
                            self.phase = if before == 0 {
                                ScanPhase::Done
                            } else if before > 1 {
                                ScanPhase::Filling
                            } else {
                                ScanPhase::Extending
                            };
                        }
                    },
                    ScanPhase::Filling => {
                        if before > 0 {
                            self.left = before - 1;
                        }
                        self.taken.push(b);
                        if before <= 1 {
                            self.phase = ScanPhase::Extending;
                        }
                    },
                    ScanPhase::Extending => {
                        if before > 0 {
                            self.left = before - 1;
                        }
                        self.taken.push(b);
                        if space {
                            self.phase = ScanPhase::Done;
                        }
                    },
                    ScanPhase::Done => {},
                }
            },
        }
    }

    /// The bytes that the scan has kept.
    pub fn into_bytes(self) -> (bytes: Vec<u8>)
        ensures
            bytes@ == self@.taken,
    {
        self.taken
    }
}

/// How a scan of chunk `i` stands after it was fed the bytes of `data` from
/// the chunk's nominal start up to position `k`.
pub open spec fn scan_agrees(state: ScanState, data: Seq<u8>, size: nat, i: nat, k: int) -> bool {
    let s = nominal(data.len(), size, i);
    let e = nominal(data.len(), size, i + 1);
    let from = boundary(data, size, i);
    let to = boundary(data, size, i + 1);
    &&& s <= k <= data.len()
    &&& state.left == if k < e {
        e - k
    } else {
        0
    }
    &&& match state.phase {
        ScanPhase::Skipping => {
            &&& i > 0
            &&& state.taken.len() == 0
            &&& forall|j: int| s <= j < k ==> !is_ascii_space(#[trigger] data[j])
        },
        ScanPhase::Filling => {
            &&& from <= k < e
            &&& state.taken == data.subrange(from, k)
        },
        ScanPhase::Extending => {
            &&& from <= k
            &&& e <= k
            &&& state.taken == data.subrange(from, k)
            &&& forall|j: int| e <= j < k ==> !is_ascii_space(#[trigger] data[j])
        },
        ScanPhase::Done => state.taken == data.subrange(from, to),
    }
}

/// Where no whitespace byte lies in `[p, w)`, the aligned form of `p` is that
/// of `w`.
pub proof fn lemma_align_skips(data: Seq<u8>, p: int, w: int)
    requires
        0 <= p <= w <= data.len(),
        forall|j: int| p <= j < w ==> !is_ascii_space(#[trigger] data[j]),
    ensures
        align(data, p) == align(data, w),
    decreases w - p,
{
    if p < w {
        assert(!is_ascii_space(data[p]));
        lemma_align_skips(data, p + 1, w);
    }
}

/// Feeding a scan the next byte of the file, or the end of the file once all
/// bytes were fed, keeps it in agreement with the file.
pub proof fn lemma_scan_step(state: ScanState, data: Seq<u8>, size: nat, i: nat, k: int)
    requires
        size > 0,
        scan_agrees(state, data, size, i, k),
        state.phase != ScanPhase::Done,
    ensures
        k < data.len() ==> scan_agrees(
            scan_step(state, Some(data[k])),
            data,
            size,
            i,
            k + 1,
        ),
        k == data.len() ==> scan_agrees(scan_step(state, None), data, size, i, k),
{
    let s = nominal(data.len(), size, i);
    let e = nominal(data.len(), size, i + 1);
    let from = boundary(data, size, i);
    let to = boundary(data, size, i + 1);
    lemma_nominal_monotone(data.len(), size, i, i + 1);
    lemma_boundary_monotone(data, size, i, i + 1);
    lemma_align_bounds(data, e);
    if state.phase == ScanPhase::Skipping {
        assert(state.taken =~= Seq::<u8>::empty());
    }
    if k < data.len() {
        let b = data[k];
        let next = scan_step(state, Some(b));
        match state.phase {
            ScanPhase::Skipping => {
                if is_ascii_space(b) {
                    lemma_align_skips(data, s, k);
                    assert(from == k + 1);
                    if k >= e {
                        lemma_align_skips(data, e, k);
                        assert(to == k + 1);
                        assert(data.subrange(from, to) =~= Seq::<u8>::empty());
                    } else {
                        assert(data.subrange(from, k + 1) =~= Seq::<u8>::empty());
                    }
                }
            },
            ScanPhase::Filling => {
                assert(data.subrange(from, k + 1) =~= data.subrange(from, k).push(b));
            },
            ScanPhase::Extending => {
                assert(data.subrange(from, k + 1) =~= data.subrange(from, k).push(b));
                if is_ascii_space(b) {
                    lemma_align_skips(data, e, k);
                    assert(to == k + 1);
                }
            },
            ScanPhase::Done => {},
        }
    } else {
        match state.phase {
            ScanPhase::Skipping => {
                lemma_align_skips(data, s, k);
                lemma_align_skips(data, e, k);
                assert(data.subrange(from, to) =~= Seq::<u8>::empty());
            },
            ScanPhase::Filling => {},
            ScanPhase::Extending => {
                lemma_align_skips(data, e, k);
            },
            ScanPhase::Done => {},
        }
    }
}

/// The bytes of chunk `index` of `data`, gathered by a scan from the chunk's
/// nominal start.
pub fn read_chunk(data: &[u8], size: usize, index: usize) -> (bytes: Vec<u8>)
    requires
        size > 0,
    ensures
        bytes@ == chunk_bytes(data@, size as nat, index as nat),
{
    let start = nominal_start(data.len(), size, index);
    let end = if index == usize::MAX {
        data.len()
    } else {
        nominal_start(data.len(), size, index + 1)
    };
    proof {
        lemma_nominal_monotone(data@.len(), size as nat, index as nat, index as nat + 1);
        if index == usize::MAX {
            let next = index as nat + 1;
            assert(next * size as nat >= data@.len()) by (nonlinear_arith)
                requires
                    next > data@.len(),
                    size as nat > 0,
            ;
        }
        assert(data@.subrange(0, 0) =~= Seq::<u8>::empty());
    }
    let mut scan = ChunkScan::new(index == 0, end - start);
    let mut k = start;
    while !scan.is_done()
        invariant
            size > 0,
            scan_agrees(scan@, data@, size as nat, index as nat, k as int),
        decreases
            data.len() - k,
            if scan@.phase == ScanPhase::Done {
                0nat
            } else {
                1nat
            },
    {
        proof {
            lemma_scan_step(scan@, data@, size as nat, index as nat, k as int);
        }
        if k < data.len() {
            scan.feed(Some(data[k]));
            k += 1;
        } else {
            scan.feed(None);
        }
    }
    scan.into_bytes()
}

} // verus!
