//! The whole run on a corpus held in memory: scan, route, compact, merge.

use crate::chunk::chunk_count;
use crate::chunk::chunked_tokens;
use crate::chunk::count;
use crate::chunk::lemma_chunking_keeps_tokens;
use crate::chunk::read_chunk;
use crate::compact::compact;
use crate::error::EngineError;
use crate::merge::all_ascending;
use crate::merge::all_decodable;
use crate::merge::merge_streams;
use crate::merge::stream_tokens;
use crate::order::lemma_sorted_unique;
use crate::order::lemma_strictly_ascending_distinct;
use crate::order::lists_sorted;
use crate::order::sorted;
use crate::order::strictly_ascending;
use crate::record::all_fit;
use crate::record::decoded;
use crate::record::framed;
use crate::record::lemma_decode_framed;
use crate::record::MAX_TOKEN_LEN;
use crate::report::lemma_saturated_sum;
use crate::report::saturated;
use crate::report::Config;
use crate::report::Report;
use crate::route::lemma_routed_concat;
use crate::route::lemma_routed_member;
use crate::route::route;
use crate::route::route_all;
use crate::route::routed_to;
use crate::route::Partitions;
use crate::split::seqs_of;
use crate::token::tokenize;
use crate::token::tokens;
use vstd::prelude::*;

verus! {

/// The tokens of a corpus: those of its files, file after file.
pub open spec fn corpus_tokens(files: Seq<Seq<u8>>) -> Seq<Seq<u8>>
    decreases files.len(),
{
    if files.len() == 0 {
        Seq::empty()
    } else {
        corpus_tokens(files.drop_last()) + tokens(files.last())
    }
}

/// The output file of a list of tokens: each token, then a line feed.
pub open spec fn lines(tokens: Seq<Seq<u8>>) -> Seq<u8>
    decreases tokens.len(),
{
    if tokens.len() == 0 {
        Seq::empty()
    } else {
        lines(tokens.drop_last()) + tokens.last() + seq![0x0au8]
    }
}

/// What a run hands back: the distinct tokens in ascending order, and the
/// counts.
pub struct Outcome {
    /// The distinct tokens of the corpus, ascending.
    pub tokens: Vec<Vec<u8>>,
    /// The counts of the run.
    pub report: Report,
}

/// `stream` is the compacted form of `store`: the record stream of the
/// distinct tokens of `store` in ascending order, all of which fit their
/// length prefixes.
pub open spec fn compacted(store: Seq<Seq<u8>>, stream: Seq<u8>) -> bool {
    &&& all_fit(store)
    &&& lists_sorted(sorted(store.to_set()), store.to_set())
    &&& stream == framed(sorted(store.to_set()))
}

/// A token list fits its length prefixes exactly when the list of every
/// partition does.
pub proof fn lemma_all_fit_routed(all: Seq<Seq<u8>>, partitions: nat)
    requires
        partitions > 0,
    ensures
        all_fit(all) <==> forall|p: nat| p < partitions ==> all_fit(#[trigger] routed_to(all, partitions, p)),
{
    if all_fit(all) {
        assert forall|p: nat| p < partitions implies all_fit(#[trigger] routed_to(all, partitions, p)) by {
            let part = routed_to(all, partitions, p);
            assert forall|i: int| 0 <= i < part.len() implies (#[trigger] part[i]).len()
                <= MAX_TOKEN_LEN by {
                lemma_routed_member(all, partitions, p, part[i]);
                assert(part.contains(part[i]));
                let j = choose|j: int| 0 <= j < all.len() && all[j] == part[i];
                assert(all[j].len() <= MAX_TOKEN_LEN);
            }
        }
    }
    if forall|p: nat| p < partitions ==> all_fit(#[trigger] routed_to(all, partitions, p)) {
        assert forall|i: int| 0 <= i < all.len() implies (#[trigger] all[i]).len()
            <= MAX_TOKEN_LEN by {
            let p = route(all[i], partitions);
            let part = routed_to(all, partitions, p);
            assert(p < partitions) by (nonlinear_arith)
                requires
                    partitions > 0,
                    p == (crate::route::fnv1a(all[i]) as nat) % partitions,
            ;
            assert(all_fit(part));
            lemma_routed_member(all, partitions, p, all[i]);
            assert(all.contains(all[i]));
            let j = choose|j: int| 0 <= j < part.len() && part[j] == all[i];
            assert(part[j].len() <= MAX_TOKEN_LEN);
        }
    }
}

/// Where stream `p` holds the sorted distinct tokens of partition `p`, for
/// every partition, the streams decode, ascend, and hold between them
/// exactly the tokens of the corpus.
pub proof fn lemma_streams_cover(all: Seq<Seq<u8>>, partitions: nat, streams: Seq<Seq<u8>>)
    requires
        partitions > 0,
        streams.len() == partitions,
        forall|p: int|
            0 <= p < partitions ==> compacted(
                routed_to(all, partitions, p as nat),
                #[trigger] streams[p],
            ),
    ensures
        all_decodable(streams),
        all_ascending(streams),
        stream_tokens(streams) == all.to_set(),
{
    assert forall|p: int| 0 <= p < partitions implies decoded(#[trigger] streams[p]) == Some(
        sorted(routed_to(all, partitions, p as nat).to_set()),
    ) by {
        let part = routed_to(all, partitions, p as nat);
        let kept = sorted(part.to_set());
        assert(compacted(part, streams[p]));
        assert forall|i: int| 0 <= i < kept.len() implies (#[trigger] kept[i]).len()
            <= MAX_TOKEN_LEN by {
            assert(kept.to_set().contains(kept[i]));
            assert(part.contains(kept[i]));
            let j = choose|j: int| 0 <= j < part.len() && part[j] == kept[i];
            assert(part[j].len() <= MAX_TOKEN_LEN);
        }
        lemma_decode_framed(kept);
    }
    assert forall|p: int|
        0 <= p < streams.len() && decoded(#[trigger] streams[p]) is Some implies crate::order::ascending(
        decoded(streams[p])->0,
    ) by {
        let q = decoded(streams[p])->0;
        assert(strictly_ascending(q));
        assert forall|i: int, j: int| 0 <= i < j < q.len() implies crate::order::lex_le(
            #[trigger] q[i],
            #[trigger] q[j],
        ) by {
            assert(crate::order::lex_lt(q[i], q[j]));
        }
    }
    assert forall|t: Seq<u8>| stream_tokens(streams).contains(t) <==> all.to_set().contains(t) by {
        if stream_tokens(streams).contains(t) {
            let p = choose|p: int|
                0 <= p < streams.len() && decoded(#[trigger] streams[p]) is Some && decoded(
                    streams[p],
                )->0.contains(t);
            let set = routed_to(all, partitions, p as nat).to_set();
            assert(compacted(routed_to(all, partitions, p as nat), streams[p]));
            assert(sorted(set).to_set().contains(t));
            assert(routed_to(all, partitions, p as nat).contains(t));
            lemma_routed_member(all, partitions, p as nat, t);
        }
        if all.contains(t) {
            let p = route(t, partitions);
            assert(p < partitions) by (nonlinear_arith)
                requires
                    partitions > 0,
                    p == (crate::route::fnv1a(t) as nat) % partitions,
            ;
            lemma_routed_member(all, partitions, p, t);
            let set = routed_to(all, partitions, p).to_set();
            assert(compacted(routed_to(all, partitions, p), streams[p as int]));
            assert(set.contains(t));
            assert(sorted(set).to_set().contains(t));
            assert(sorted(set).contains(t));
            assert(decoded(streams[p as int]) == Some(sorted(set)));
        }
    }
    assert(stream_tokens(streams) =~= all.to_set());
}

/// Scans one file: cuts it into chunks, splits every chunk into tokens,
/// counts them and routes each to its partition.
pub fn scan_file(data: &[u8], chunk_size: usize, parts: &mut Partitions, report: &mut Report)
    requires
        chunk_size > 0,
    ensures
        final(parts).count() == old(parts).count(),
        forall|p: int|
            0 <= p < old(parts).count() ==> #[trigger] final(parts).store(p) == old(parts).store(p)
                + routed_to(tokens(data@), old(parts).count(), p as nat),
        final(report).total_tokens == saturated(
            old(report).total_tokens as nat + tokens(data@).len(),
        ),
        final(report).distinct_tokens == old(report).distinct_tokens,
        final(report).skipped_units == old(report).skipped_units,
{
    let ghost n = parts.count();
    let ghost size = chunk_size as nat;
    let chunks = chunk_count(data.len(), chunk_size);
    let mut i: usize = 0;
    proof {
        assert forall|p: int| 0 <= p < n implies #[trigger] parts.store(p) == old(parts).store(p)
            + routed_to(chunked_tokens(data@, size, 0), n, p as nat) by {
            assert(old(parts).store(p) + Seq::<Seq<u8>>::empty() =~= old(parts).store(p));
        }
    }
    while i < chunks
        invariant
            i <= chunks,
            chunk_size > 0,
            size == chunk_size,
            chunks == count(data@.len(), size),
            parts.count() == n,
            n == old(parts).count(),
            forall|p: int|
                0 <= p < n ==> #[trigger] parts.store(p) == old(parts).store(p) + routed_to(
                    chunked_tokens(data@, size, i as nat),
                    n,
                    p as nat,
                ),
            report.total_tokens == saturated(
                old(report).total_tokens as nat + chunked_tokens(data@, size, i as nat).len(),
            ),
            report.distinct_tokens == old(report).distinct_tokens,
            report.skipped_units == old(report).skipped_units,
        decreases chunks - i,
    {
        let bytes = read_chunk(data, chunk_size, i);
        let found = tokenize(bytes.as_slice());
        let ghost before = *parts;
        let ghost done = chunked_tokens(data@, size, i as nat);
        let ghost more = seqs_of(found@);
        proof {
            lemma_saturated_sum(old(report).total_tokens as nat + done.len(), more.len());
        }
        report.add_tokens(found.len());
        route_all(parts, found);
        proof {
            assert(chunked_tokens(data@, size, (i + 1) as nat) == done + more);
            assert forall|p: int| 0 <= p < n implies #[trigger] parts.store(p) == old(parts).store(
                p,
            ) + routed_to(done + more, n, p as nat) by {
                lemma_routed_concat(done, more, n, p as nat);
                assert(parts.store(p) == before.store(p) + routed_to(more, n, p as nat));
                assert(before.store(p) == old(parts).store(p) + routed_to(done, n, p as nat));
                assert((old(parts).store(p) + routed_to(done, n, p as nat)) + routed_to(
                    more,
                    n,
                    p as nat,
                ) =~= old(parts).store(p) + (routed_to(done, n, p as nat) + routed_to(
                    more,
                    n,
                    p as nat,
                )));
            }
        }
        i += 1;
    }
    proof {
        lemma_chunking_keeps_tokens(data@, size);
    }
}

/// Scans all files. Afterwards the store of every partition holds the
/// tokens of the corpus that are routed to it, in order of appearance.
pub fn scan_corpus(files: &Vec<Vec<u8>>, config: &Config) -> (scanned: (Partitions, Report))
    ensures
        scanned.0.count() == config.parts(),
        scanned.0.count() > 0,
        forall|p: int|
            0 <= p < config.parts() ==> #[trigger] scanned.0.store(p) == routed_to(
                corpus_tokens(seqs_of(files@)),
                config.parts(),
                p as nat,
            ),
        scanned.1.total_tokens == saturated(corpus_tokens(seqs_of(files@)).len()),
        scanned.1.distinct_tokens == 0,
        scanned.1.skipped_units == 0,
{
    let ghost given = seqs_of(files@);
    let ghost n = config.parts();
    let mut parts = Partitions::new(config.partitions());
    let mut report = Report::new();
    let chunk_size = config.chunk_size();
    let mut f: usize = 0;
    proof {
        assert(given.take(0) =~= Seq::<Seq<u8>>::empty());
    }
    while f < files.len()
        invariant
            f <= files@.len(),
            chunk_size > 0,
            given == seqs_of(files@),
            parts.count() == n,
            n == config.parts(),
            forall|p: int|
                0 <= p < n ==> #[trigger] parts.store(p) == routed_to(
                    corpus_tokens(given.take(f as int)),
                    n,
                    p as nat,
                ),
            report.total_tokens == saturated(corpus_tokens(given.take(f as int)).len()),
            report.distinct_tokens == 0,
            report.skipped_units == 0,
        decreases files@.len() - f,
    {
        let ghost before = parts;
        let ghost done = corpus_tokens(given.take(f as int));
        let ghost more = tokens(files@[f as int]@);
        proof {
            lemma_saturated_sum(done.len(), more.len());
        }
        scan_file(files[f].as_slice(), chunk_size, &mut parts, &mut report);
        proof {
            let next = given.take(f + 1);
            assert(next.drop_last() =~= given.take(f as int));
            assert(next.last() == files@[f as int]@);
            assert(corpus_tokens(next) == done + more);
            assert forall|p: int| 0 <= p < n implies #[trigger] parts.store(p) == routed_to(
                done + more,
                n,
                p as nat,
            ) by {
                lemma_routed_concat(done, more, n, p as nat);
                assert(parts.store(p) == before.store(p) + routed_to(more, n, p as nat));
            }
        }
        f += 1;
    }
    proof {
        assert(given.take(files@.len() as int) =~= given);
    }
    (parts, report)
}

/// Compacts every partition. The result holds one record stream for each
/// store, in the order of the stores; a token too long for a length prefix
/// makes the whole step fail with `Decode`.
pub fn compact_all(stores: Vec<Vec<Vec<u8>>>) -> (r: Result<Vec<Vec<u8>>, EngineError>)
    ensures
        match r {
            Ok(streams) => {
                &&& streams@.len() == stores@.len()
                &&& forall|p: int|
                    0 <= p < stores@.len() ==> compacted(
                        seqs_of(stores@[p]@),
                        (#[trigger] streams@[p])@,
                    )
            },
            Err(e) => e == EngineError::Decode && exists|p: int|
                0 <= p < stores@.len() && !all_fit(seqs_of(#[trigger] stores@[p]@)),
        },
{
    let ghost given = stores@;
    let mut left = stores;
    let n = left.len();
    let mut streams: Vec<Vec<u8>> = Vec::new();
    let mut p: usize = 0;
    while p < n
        invariant
            p <= n,
            given == stores@,
            n == given.len(),
            left@.len() == n,
            streams@.len() == p,
            forall|q: int| p <= q < n ==> #[trigger] left@[q] == given[q],
            forall|q: int|
                0 <= q < p ==> compacted(seqs_of(given[q]@), (#[trigger] streams@[q])@),
        decreases n - p,
    {
        let mut store: Vec<Vec<u8>> = Vec::new();
        left.set_and_swap(p, &mut store);
        let ghost done = streams@;
        assert(store == given[p as int]);
        match compact(store) {
            Ok(stream) => {
                streams.push(stream);
                proof {
                    assert forall|q: int| 0 <= q < p + 1 implies compacted(
                        seqs_of(given[q]@),
                        (#[trigger] streams@[q])@,
                    ) by {
                        if q < p {
                            assert(streams@[q] == done[q]);
                        }
                    }
                }
            },
            Err(e) => {
                assert(!all_fit(seqs_of(given[p as int]@)));
                return Err(e);
            },
        }
        p += 1;
    }
    Ok(streams)
}

/// The bytes of the output file: every token on a line of its own.
pub fn render_lines(tokens: &Vec<Vec<u8>>) -> (text: Vec<u8>)
    ensures
        text@ == lines(seqs_of(tokens@)),
{
    let mut text: Vec<u8> = Vec::new();
    let mut i: usize = 0;
    proof {
        assert(seqs_of(tokens@).take(0) =~= Seq::<Seq<u8>>::empty());
    }
    while i < tokens.len()
        invariant
            i <= tokens@.len(),
            text@ == lines(seqs_of(tokens@).take(i as int)),
        decreases tokens@.len() - i,
    {
        let token = &tokens[i];
        let ghost start = text@;
        let mut j: usize = 0;
        while j < token.len()
            invariant
                j <= token@.len(),
                text@ == start + token@.take(j as int),
            decreases token@.len() - j,
        {
            text.push(token[j]);
            proof {
                assert(token@.take(j + 1) =~= token@.take(j as int).push(token@[j as int]));
            }
            j += 1;
        }
        text.push(0x0a);
        proof {
            let next = seqs_of(tokens@).take(i + 1);
            assert(next.drop_last() =~= seqs_of(tokens@).take(i as int));
            assert(next.last() == token@);
            assert(token@.take(token@.len() as int) =~= token@);
            assert(text@ =~= start + token@ + seq![0x0au8]);
        }
        i += 1;
    }
    proof {
        assert(seqs_of(tokens@).take(tokens@.len() as int) =~= seqs_of(tokens@));
    }
    text
}

/// Runs the whole pipeline on a corpus held in memory. The result lists
/// every distinct token of the corpus once, in ascending byte order,
/// whatever the partition count and the chunk size are. The run fails with
/// `Decode` exactly when a token is too long for a record's length prefix.
pub fn run(files: &Vec<Vec<u8>>, config: &Config) -> (r: Result<Outcome, EngineError>)
    ensures
        match r {
            Ok(outcome) => {
                let all = corpus_tokens(seqs_of(files@));
                &&& all_fit(all)
                &&& lists_sorted(seqs_of(outcome.tokens@), all.to_set())
                &&& seqs_of(outcome.tokens@) == sorted(all.to_set())
                &&& outcome.report.total_tokens == saturated(all.len())
                &&& outcome.report.distinct_tokens == saturated(outcome.tokens@.len())
                &&& outcome.report.skipped_units == 0
            },
            Err(e) => e == EngineError::Decode && !all_fit(corpus_tokens(seqs_of(files@))),
        },
{
    let ghost all = corpus_tokens(seqs_of(files@));
    let ghost n = config.parts();
    let (parts, mut report) = scan_corpus(files, config);
    let stores = parts.into_stores();
    proof {
        lemma_all_fit_routed(all, n);
        assert forall|p: int| 0 <= p < n implies seqs_of((#[trigger] stores@[p])@) == routed_to(
            all,
            n,
            p as nat,
        ) by {
            assert(parts.store(p) == routed_to(all, n, p as nat));
        }
    }
    let streams = match compact_all(stores) {
        Ok(streams) => streams,
        Err(e) => {
            proof {
                let p = choose|p: int|
                    0 <= p < stores@.len() && !all_fit(seqs_of(#[trigger] stores@[p]@));
                assert(!all_fit(routed_to(all, n, p as nat)));
            }
            return Err(e);
        },
    };
    proof {
        let given = seqs_of(streams@);
        assert forall|p: int| 0 <= p < n implies compacted(
            routed_to(all, n, p as nat),
            #[trigger] given[p],
        ) by {
            assert(seqs_of(stores@[p]@) == routed_to(all, n, p as nat));
            assert(compacted(seqs_of(stores@[p]@), streams@[p]@));
        }
        assert forall|p: nat| p < n implies all_fit(#[trigger] routed_to(all, n, p)) by {
            assert(compacted(routed_to(all, n, p), given[p as int]));
        }
        lemma_streams_cover(all, n, given);
    }
    match merge_streams(streams) {
        Ok(tokens) => {
            report.set_distinct(tokens.len());
            Ok(Outcome { tokens, report })
        },
        Err(e) => {
            // The streams were written by the compactor: each of them decodes.
            assert(false);
            Err(e)
        },
    }
}

/// Two runs on the same corpus give the same list, whatever the partition
/// counts and chunk sizes were: a list that holds the distinct tokens of the
/// corpus in strictly ascending order is determined by the corpus alone.
pub proof fn lemma_output_determined(files: Seq<Seq<u8>>, first: Seq<Seq<u8>>, second: Seq<Seq<u8>>)
    requires
        lists_sorted(first, corpus_tokens(files).to_set()),
        lists_sorted(second, corpus_tokens(files).to_set()),
    ensures
        first == second,
        lines(first) == lines(second),
{
    lemma_sorted_unique(first, second);
}

/// A list that holds the distinct tokens of the corpus in strictly ascending
/// order holds every token of the corpus exactly once.
pub proof fn lemma_each_token_once(files: Seq<Seq<u8>>, out: Seq<Seq<u8>>, t: Seq<u8>)
    requires
        lists_sorted(out, corpus_tokens(files).to_set()),
        corpus_tokens(files).contains(t),
    ensures
        exists|i: int| 0 <= i < out.len() && out[i] == t,
        forall|i: int, j: int| 0 <= i < out.len() && 0 <= j < out.len() && out[i] == t && out[j] == t
            ==> i == j,
{
    lemma_strictly_ascending_distinct(out);
    assert(out.to_set().contains(t));
    assert(out.contains(t));
}

/// A corpus without files has no tokens, and its sorted list is empty.
pub proof fn lemma_empty_corpus(out: Seq<Seq<u8>>)
    requires
        lists_sorted(out, corpus_tokens(Seq::<Seq<u8>>::empty()).to_set()),
    ensures
        corpus_tokens(Seq::<Seq<u8>>::empty()).len() == 0,
        out.len() == 0,
        lines(out).len() == 0,
{
    if out.len() > 0 {
        assert(out.to_set().contains(out[0]));
        assert(corpus_tokens(Seq::<Seq<u8>>::empty()).contains(out[0]));
    }
}

} // verus!
