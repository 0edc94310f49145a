//! The merge engine: a k-way merge of the sorted record streams of all
//! partitions into one ascending list without repetitions.

use crate::error::EngineError;
use crate::heap::heap_pop;
use crate::heap::heap_push;
use crate::heap::is_heap;
use crate::heap::key_le;
use crate::order::ascending;
use crate::order::bytes_equal;
use crate::order::lemma_lex_transitive;
use crate::order::lemma_sorted_is;
use crate::order::lex_le;
use crate::order::lex_lt;
use crate::order::sorted;
use crate::order::strictly_ascending;
use crate::record::decoded;
use crate::record::first_frame;
use crate::record::Frame;
use crate::record::read_next_word;
use crate::record::MergeCursor;
use crate::heap::lemma_heap_ignores_others;
use crate::split::lemma_seqs_of_push;
use crate::split::seqs_of;
use vstd::prelude::*;
use vstd::slice::slice_to_vec;

verus! {

/// What one step of the merge takes from the queue.
pub struct Popped {
    /// The partition whose head was taken.
    pub partition: usize,
    /// The token that was taken.
    pub token: Vec<u8>,
    /// Whether the token differs from the one taken before it, so that it
    /// belongs in the output.
    pub fresh: bool,
}

/// The state of a merge: the head token of every queued partition, the queue
/// of these partitions by rank, and the token that was taken last.
pub struct MergeEngine {
    heads: Vec<Vec<u8>>,
    queued: Vec<bool>,
    heap: Vec<usize>,
    last: Option<Vec<u8>>,
}

impl MergeEngine {
    /// The queue is a heap over the heads, and the engine knows which
    /// partitions are in it.
    pub closed spec fn wf(&self) -> bool {
        &&& is_heap(self.heap@, seqs_of(self.heads@))
        &&& self.queued@.len() == self.heads@.len()
        &&& forall|p: usize|
            p < self.queued@.len() ==> (#[trigger] self.queued@[p as int]) == self.heap@.contains(p)
    }

    /// Number of partitions that the merge was made for.
    pub closed spec fn partitions(&self) -> nat {
        self.heads@.len()
    }

    /// The head token of every partition; it counts for the queued ones.
    pub closed spec fn heads(&self) -> Seq<Seq<u8>> {
        seqs_of(self.heads@)
    }

    /// The partitions that are queued.
    pub closed spec fn waiting(&self) -> Set<usize> {
        self.heap@.to_set()
    }

    /// The token that was taken last, if any was.
    pub closed spec fn last_taken(&self) -> Option<Seq<u8>> {
        match self.last {
            Some(token) => Some(token@),
            None => None,
        }
    }

    /// A merge of `partitions` streams, with nothing queued and nothing taken.
    pub fn new(partitions: usize) -> (engine: MergeEngine)
        ensures
            engine.wf(),
            engine.partitions() == partitions,
            engine.waiting() == Set::<usize>::empty(),
            engine.last_taken() is None,
    {
        let mut heads: Vec<Vec<u8>> = Vec::new();
        let mut queued: Vec<bool> = Vec::new();
        let mut p: usize = 0;
        while p < partitions
            invariant
                p <= partitions,
                heads@.len() == p,
                queued@.len() == p,
                forall|q: int| 0 <= q < p ==> !(#[trigger] queued@[q]),
            decreases partitions - p,
        {
            heads.push(Vec::new());
            queued.push(false);
            p += 1;
        }
        let heap: Vec<usize> = Vec::new();
        assert(heap@.to_set() =~= Set::<usize>::empty());
        MergeEngine { heads, queued, heap, last: None }
    }

    /// Queues `partition` with `token` as its head. A partition that does not
    /// exist or is queued already is refused, and nothing changes.
    pub fn offer(&mut self, partition: usize, token: Vec<u8>) -> (accepted: bool)
        requires
            old(self).wf(),
        ensures
            final(self).wf(),
            final(self).partitions() == old(self).partitions(),
            final(self).last_taken() == old(self).last_taken(),
            accepted == (partition < old(self).partitions() && !old(self).waiting().contains(
                partition,
            )),
            accepted ==> final(self).waiting() == old(self).waiting().insert(partition)
                && final(self).heads() == old(self).heads().update(partition as int, token@),
            !accepted ==> final(self).waiting() == old(self).waiting() && final(self).heads()
                == old(self).heads(),
    {
        if partition >= self.heads.len() {
            return false;
        }
        if self.queued[partition] {
            return false;
        }
        proof {
            let changed = seqs_of(self.heads@.update(partition as int, token));
            lemma_heap_ignores_others(self.heap@, seqs_of(self.heads@), changed);
            assert(changed =~= seqs_of(self.heads@).update(partition as int, token@));
        }
        self.heads.set(partition, token);
        heap_push(&mut self.heap, &self.heads, partition);
        self.queued.set(partition, true);
        proof {
            let flags = old(self).queued@;
            let was = old(self).heap@;
            let now = self.heap@;
            assert forall|u: usize| u < self.queued@.len() implies (#[trigger] self.queued@[u as int])
                == now.contains(u) by {
                assert(flags[u as int] == was.contains(u));
                assert(was.to_set().contains(u) == was.contains(u));
                assert(now.to_set().contains(u) == now.contains(u));
            }
        }
        true
    }

    /// Takes the queued partition that ranks first, with its head token, and
    /// says whether the token differs from the one taken before. `None`
    /// where nothing is queued.
    pub fn pop(&mut self) -> (step: Option<Popped>)
        requires
            old(self).wf(),
        ensures
            final(self).wf(),
            final(self).partitions() == old(self).partitions(),
            match step {
                None => {
                    &&& old(self).waiting() == Set::<usize>::empty()
                    &&& final(self).waiting() == old(self).waiting()
                    &&& final(self).heads() == old(self).heads()
                    &&& final(self).last_taken() == old(self).last_taken()
                },
                Some(popped) => {
                    &&& old(self).waiting().contains(popped.partition)
                    &&& popped.partition < old(self).partitions()
                    &&& popped.token@ == old(self).heads()[popped.partition as int]
                    &&& forall|q: usize|
                        old(self).waiting().contains(q) ==> key_le(
                            old(self).heads(),
                            popped.partition as int,
                            q as int,
                        )
                    &&& popped.fresh == (old(self).last_taken() != Some(popped.token@))
                    &&& final(self).waiting() == old(self).waiting().remove(popped.partition)
                    &&& final(self).last_taken() == Some(popped.token@)
                    &&& final(self).heads() == old(self).heads().update(
                        popped.partition as int,
                        Seq::<u8>::empty(),
                    )
                },
            },
    {
        let ghost before = seqs_of(self.heads@);
        let least = heap_pop(&mut self.heap, &self.heads);
        match least {
            None => {
                proof {
                    assert(old(self).heap@.to_set() =~= Set::<usize>::empty());
                }
                None
            },
            Some(p) => {
                proof {
                    assert(old(self).heap@.to_set().contains(p));
                    assert forall|q: usize| old(self).heap@.to_set().contains(q) implies key_le(
                        before,
                        p as int,
                        q as int,
                    ) by {
                        assert(old(self).heap@.contains(q));
                    }
                    assert(!self.heap@.to_set().contains(p));
                    assert(!self.heap@.contains(p));
                }
                self.queued.set(p, false);
                let mut token: Vec<u8> = Vec::new();
                proof {
                    let changed = seqs_of(self.heads@.update(p as int, token));
                    assert forall|k: int| 0 <= k < self.heap@.len() implies changed[self.heap@[k] as int]
                        == before[self.heap@[k] as int] by {
                        assert(self.heap@.contains(self.heap@[k]));
                    }
                    lemma_heap_ignores_others(self.heap@, before, changed);
                    assert(changed =~= before.update(p as int, Seq::<u8>::empty()));
                }
                self.heads.set_and_swap(p, &mut token);
                let fresh = match &self.last {
                    Some(prev) => !bytes_equal(prev.as_slice(), token.as_slice()),
                    None => true,
                };
                if fresh {
                    self.last = Some(slice_to_vec(token.as_slice()));
                }
                proof {
                    let flags = old(self).queued@;
                    let was = old(self).heap@;
                    let now = self.heap@;
                    assert(self.queued@ == flags.update(p as int, false));
                    assert forall|u: usize| u < self.queued@.len() implies (
                    #[trigger] self.queued@[u as int]) == now.contains(u) by {
                        if u != p {
                            assert(flags[u as int] == was.contains(u));
                            assert(was.to_set().contains(u) == was.contains(u));
                            assert(now.to_set().contains(u) == now.contains(u));
                        }
                    }
                }
                Some(Popped { partition: p, token, fresh })
            },
        }
    }
}

/// Every stream decodes: no record is cut short.
pub open spec fn all_decodable(streams: Seq<Seq<u8>>) -> bool {
    forall|p: int| 0 <= p < streams.len() ==> decoded(#[trigger] streams[p]) is Some
}

/// The tokens of every stream that decodes ascend.
pub open spec fn all_ascending(streams: Seq<Seq<u8>>) -> bool {
    forall|p: int|
        0 <= p < streams.len() && decoded(#[trigger] streams[p]) is Some ==> ascending(
            decoded(streams[p])->0,
        )
}

/// The tokens of all streams that decode.
pub open spec fn stream_tokens(streams: Seq<Seq<u8>>) -> Set<Seq<u8>> {
    Set::new(
        |t: Seq<u8>|
            exists|p: int|
                0 <= p < streams.len() && decoded(#[trigger] streams[p]) is Some && decoded(
                    streams[p],
                )->0.contains(t),
    )
}

/// No token is followed by an equal one.
pub open spec fn no_repeats(out: Seq<Seq<u8>>) -> bool {
    forall|i: int| 0 <= i < out.len() - 1 ==> #[trigger] out[i] != out[i + 1]
}

/// The tokens in front of what is left of a stream.
pub open spec fn prepend(read: Seq<Seq<u8>>, rest: Option<Seq<Seq<u8>>>) -> Option<Seq<Seq<u8>>> {
    match rest {
        Some(more) => Some(read + more),
        None => None,
    }
}

/// Of the tokens read from a partition, those that have left the queue: all
/// but the last one while the partition waits, else all.
pub open spec fn taken(read: Seq<Seq<u8>>, waits: bool) -> Seq<Seq<u8>> {
    if waits && read.len() > 0 {
        read.drop_last()
    } else {
        read
    }
}

/// The tokens that have left the queue, over all partitions.
pub open spec fn emitted(read: Seq<Seq<Seq<u8>>>, waiting: Set<usize>) -> Set<Seq<u8>> {
    Set::new(
        |t: Seq<u8>|
            exists|p: usize|
                p < read.len() && (#[trigger] taken(read[p as int], waiting.contains(p))).contains(
                    t,
                ),
    )
}

/// What is left to read of every stream.
pub open spec fn rests_of(cursors: Seq<MergeCursor>) -> Seq<Seq<u8>> {
    Seq::new(cursors.len(), |p: int| cursors[p].rest())
}

/// How a merge stands. Of the streams `given`, the first `started` have been
/// opened; `rests` is what is left to read of each, `read` what was read of
/// each. A waiting partition has its last token at the head of the queue; a
/// started one that does not wait is read to its end. `out` holds the tokens
/// that left the queue, without repetitions next to each other.
pub open spec fn merge_state(
    given: Seq<Seq<u8>>,
    rests: Seq<Seq<u8>>,
    read: Seq<Seq<Seq<u8>>>,
    waiting: Set<usize>,
    heads: Seq<Seq<u8>>,
    last: Option<Seq<u8>>,
    out: Seq<Seq<u8>>,
    started: int,
) -> bool {
    &&& rests.len() == given.len()
    &&& read.len() == given.len()
    &&& heads.len() == given.len()
    &&& 0 <= started <= given.len()
    &&& forall|p: int|
        0 <= p < given.len() ==> decoded(#[trigger] given[p]) == prepend(read[p], decoded(rests[p]))
    &&& forall|p: usize| #[trigger]
        waiting.contains(p) ==> p < started && read[p as int].len() > 0 && heads[p as int]
            == read[p as int].last()
    &&& forall|p: usize|
        p < started && !(#[trigger] waiting.contains(p)) ==> first_frame(rests[p as int]) is End
    &&& forall|p: int| started <= p < given.len() ==> (#[trigger] read[p]).len() == 0
    &&& out.to_set() == emitted(read, waiting)
    &&& last == if out.len() == 0 {
        None
    } else {
        Some(out.last())
    }
    &&& no_repeats(out)
    &&& all_decodable(given) && all_ascending(given) ==> strictly_ascending(out) && (out.len() > 0
        ==> forall|p: usize| #[trigger] waiting.contains(p) ==> lex_le(out.last(), heads[p as int]))
}

/// When the head of a waiting partition leaves the queue, it joins the
/// tokens that have left it; nothing else changes.
pub proof fn lemma_emitted_pop(read: Seq<Seq<Seq<u8>>>, waiting: Set<usize>, p: usize)
    requires
        p < read.len(),
        waiting.contains(p),
        read[p as int].len() > 0,
    ensures
        emitted(read, waiting.remove(p)) == emitted(read, waiting).insert(read[p as int].last()),
{
    let token = read[p as int].last();
    let after = waiting.remove(p);
    assert forall|t: Seq<u8>| emitted(read, after).contains(t) <==> emitted(
        read,
        waiting,
    ).insert(token).contains(t) by {
        if emitted(read, after).contains(t) {
            let q = choose|q: usize|
                q < read.len() && (#[trigger] taken(read[q as int], after.contains(q))).contains(t);
            if q == p {
                let i = choose|i: int| 0 <= i < read[p as int].len() && read[p as int][i] == t;
                if i < read[p as int].len() - 1 {
                    assert(read[p as int].drop_last()[i] == t);
                    assert(taken(read[p as int], waiting.contains(p)).contains(t));
                }
            } else {
                assert(taken(read[q as int], waiting.contains(q)).contains(t));
            }
        }
        if emitted(read, waiting).contains(t) {
            let q = choose|q: usize|
                q < read.len() && (#[trigger] taken(read[q as int], waiting.contains(q))).contains(
                    t,
                );
            if q == p {
                let i = choose|i: int|
                    0 <= i < read[p as int].drop_last().len() && read[p as int].drop_last()[i] == t;
                assert(read[p as int][i] == t);
            }
            assert(taken(read[q as int], after.contains(q)).contains(t));
        }
        if t == token {
            assert(read[p as int][read[p as int].len() - 1] == t);
            assert(taken(read[p as int], after.contains(p)).contains(t));
        }
    }
    assert(emitted(read, after) =~= emitted(read, waiting).insert(token));
}

/// When a partition that was read to its last token gets a new head and
/// waits again, the tokens that have left the queue stay the same.
pub proof fn lemma_emitted_refill(
    read: Seq<Seq<Seq<u8>>>,
    waiting: Set<usize>,
    p: usize,
    word: Seq<u8>,
)
    requires
        p < read.len(),
        !waiting.contains(p),
    ensures
        emitted(read.update(p as int, read[p as int].push(word)), waiting.insert(p)) == emitted(
            read,
            waiting,
        ),
{
    let grown = read.update(p as int, read[p as int].push(word));
    let after = waiting.insert(p);
    assert(grown[p as int].drop_last() =~= read[p as int]);
    assert forall|t: Seq<u8>| emitted(grown, after).contains(t) <==> emitted(
        read,
        waiting,
    ).contains(t) by {
        if emitted(grown, after).contains(t) {
            let q = choose|q: usize|
                q < grown.len() && (#[trigger] taken(grown[q as int], after.contains(q))).contains(
                    t,
                );
            assert(taken(read[q as int], waiting.contains(q)).contains(t));
        }
        if emitted(read, waiting).contains(t) {
            let q = choose|q: usize|
                q < read.len() && (#[trigger] taken(read[q as int], waiting.contains(q))).contains(
                    t,
                );
            assert(taken(grown[q as int], after.contains(q)).contains(t));
        }
    }
    assert(emitted(grown, after) =~= emitted(read, waiting));
}

/// Pushing a token onto a list adds it to the set of the list's tokens.
pub proof fn lemma_push_to_set(out: Seq<Seq<u8>>, token: Seq<u8>)
    ensures
        out.push(token).to_set() == out.to_set().insert(token),
{
    let more = out.push(token);
    assert forall|t: Seq<u8>| more.to_set().contains(t) <==> out.to_set().insert(token).contains(
        t,
    ) by {
        if more.contains(t) {
            let i = choose|i: int| 0 <= i < more.len() && more[i] == t;
            if i < out.len() {
                assert(out[i] == t);
            }
        }
        if out.contains(t) {
            let i = choose|i: int| 0 <= i < out.len() && out[i] == t;
            assert(more[i] == t);
        }
        assert(more[out.len() as int] == token);
    }
    assert(more.to_set() =~= out.to_set().insert(token));
}

/// What a partition still owes the merge: its unread bytes, and one more
/// while it waits in the queue.
pub open spec fn weight(rests: Seq<Seq<u8>>, waiting: Set<usize>, p: int) -> nat {
    rests[p].len() + if waiting.contains(p as usize) {
        1nat
    } else {
        0nat
    }
}

/// What the first `upto` partitions still owe the merge.
pub open spec fn pending(rests: Seq<Seq<u8>>, waiting: Set<usize>, upto: int) -> nat
    decreases upto,
{
    if upto <= 0 {
        0
    } else {
        pending(rests, waiting, upto - 1) + weight(rests, waiting, upto - 1)
    }
}

/// Where one partition owes less than before and the others owe the same,
/// all together owe less.
pub proof fn lemma_pending_less(
    rests: Seq<Seq<u8>>,
    waiting: Set<usize>,
    rests2: Seq<Seq<u8>>,
    waiting2: Set<usize>,
    p: int,
    upto: int,
)
    requires
        0 <= upto <= rests.len(),
        upto <= usize::MAX,
        rests2.len() == rests.len(),
        forall|q: int| 0 <= q < upto && q != p ==> weight(rests2, waiting2, q) == weight(rests, waiting, q),
        0 <= p < rests.len(),
        weight(rests2, waiting2, p) < weight(rests, waiting, p),
    ensures
        p < upto ==> pending(rests2, waiting2, upto) < pending(rests, waiting, upto),
        p >= upto ==> pending(rests2, waiting2, upto) == pending(rests, waiting, upto),
    decreases upto,
{
    if upto > 0 {
        lemma_pending_less(rests, waiting, rests2, waiting2, p, upto - 1);
    }
}

/// The token at the head of the queue goes to the output unless it repeats
/// the token before it. Afterwards the output ends in that token, holds what
/// has left the queue, and is in order where the streams are.
pub proof fn lemma_pop_out(
    given: Seq<Seq<u8>>,
    rests: Seq<Seq<u8>>,
    read: Seq<Seq<Seq<u8>>>,
    waiting: Set<usize>,
    heads: Seq<Seq<u8>>,
    last: Option<Seq<u8>>,
    out: Seq<Seq<u8>>,
    p: usize,
    fresh: bool,
)
    requires
        merge_state(given, rests, read, waiting, heads, last, out, given.len() as int),
        waiting.contains(p),
        forall|q: usize| waiting.contains(q) ==> key_le(heads, p as int, q as int),
        fresh == (last != Some(heads[p as int])),
    ensures
        ({
            let token = heads[p as int];
            let next = if fresh {
                out.push(token)
            } else {
                out
            };
            &&& next.len() > 0
            &&& next.last() == token
            &&& next.to_set() == emitted(read, waiting.remove(p))
            &&& no_repeats(next)
            &&& all_decodable(given) && all_ascending(given) ==> strictly_ascending(next)
                && forall|q: usize| #[trigger]
                waiting.remove(p).contains(q) ==> lex_le(token, heads[q as int])
        }),
{
    let token = heads[p as int];
    let next = if fresh {
        out.push(token)
    } else {
        out
    };
    lemma_emitted_pop(read, waiting, p);
    if fresh {
        lemma_push_to_set(out, token);
        assert forall|i: int| 0 <= i < next.len() - 1 implies #[trigger] next[i] != next[i + 1] by {
            if i < out.len() - 1 {
                assert(out[i] != out[i + 1]);
            }
        }
    } else {
        assert(out.to_set().contains(out.last()));
        assert(out.to_set().insert(token) =~= out.to_set());
    }
    if all_decodable(given) && all_ascending(given) {
        assert forall|q: usize| #[trigger] waiting.remove(p).contains(q) implies lex_le(
            token,
            heads[q as int],
        ) by {
            assert(waiting.contains(q));
            assert(key_le(heads, p as int, q as int));
        }
        if fresh && out.len() > 0 {
            assert(lex_le(out.last(), token));
            assert forall|i: int, j: int| 0 <= i < j < next.len() implies lex_lt(
                #[trigger] next[i],
                #[trigger] next[j],
            ) by {
                if j < out.len() {
                    assert(lex_lt(out[i], out[j]));
                } else if i < out.len() - 1 {
                    assert(lex_lt(out[i], out[out.len() - 1]));
                    lemma_lex_transitive(out[i], out.last(), token);
                }
            }
        }
    }
}

/// A step of the merge at the end of a stream: the head of partition `p`
/// leaves the queue and the partition has no more records.
pub proof fn lemma_step_end(
    given: Seq<Seq<u8>>,
    rests: Seq<Seq<u8>>,
    read: Seq<Seq<Seq<u8>>>,
    waiting: Set<usize>,
    heads: Seq<Seq<u8>>,
    last: Option<Seq<u8>>,
    out: Seq<Seq<u8>>,
    p: usize,
    fresh: bool,
)
    requires
        merge_state(given, rests, read, waiting, heads, last, out, given.len() as int),
        given.len() <= usize::MAX,
        waiting.contains(p),
        forall|q: usize| waiting.contains(q) ==> key_le(heads, p as int, q as int),
        fresh == (last != Some(heads[p as int])),
        first_frame(rests[p as int]) is End,
    ensures
        merge_state(
            given,
            rests,
            read,
            waiting.remove(p),
            heads.update(p as int, Seq::<u8>::empty()),
            Some(heads[p as int]),
            if fresh {
                out.push(heads[p as int])
            } else {
                out
            },
            given.len() as int,
        ),
        pending(rests, waiting.remove(p), given.len() as int) < pending(
            rests,
            waiting,
            given.len() as int,
        ),
{
    lemma_pop_out(given, rests, read, waiting, heads, last, out, p, fresh);
    lemma_pending_less(rests, waiting, rests, waiting.remove(p), p as int, given.len() as int);
}

/// A step of the merge with a record: the head of partition `p` leaves the
/// queue and the next token of the partition takes its place.
pub proof fn lemma_step_record(
    given: Seq<Seq<u8>>,
    rests: Seq<Seq<u8>>,
    read: Seq<Seq<Seq<u8>>>,
    waiting: Set<usize>,
    heads: Seq<Seq<u8>>,
    last: Option<Seq<u8>>,
    out: Seq<Seq<u8>>,
    p: usize,
    fresh: bool,
    word: Seq<u8>,
    rest: Seq<u8>,
)
    requires
        merge_state(given, rests, read, waiting, heads, last, out, given.len() as int),
        given.len() <= usize::MAX,
        waiting.contains(p),
        forall|q: usize| waiting.contains(q) ==> key_le(heads, p as int, q as int),
        fresh == (last != Some(heads[p as int])),
        first_frame(rests[p as int]) == (Frame::Record { token: word, rest }),
    ensures
        merge_state(
            given,
            rests.update(p as int, rest),
            read.update(p as int, read[p as int].push(word)),
            waiting,
            heads.update(p as int, word),
            Some(heads[p as int]),
            if fresh {
                out.push(heads[p as int])
            } else {
                out
            },
            given.len() as int,
        ),
        pending(rests.update(p as int, rest), waiting, given.len() as int) < pending(
            rests,
            waiting,
            given.len() as int,
        ),
{
    let token = heads[p as int];
    let next = if fresh {
        out.push(token)
    } else {
        out
    };
    let rests2 = rests.update(p as int, rest);
    let read2 = read.update(p as int, read[p as int].push(word));
    let heads2 = heads.update(p as int, word);
    lemma_pop_out(given, rests, read, waiting, heads, last, out, p, fresh);
    lemma_emitted_refill(read, waiting.remove(p), p, word);
    assert(waiting.remove(p).insert(p) =~= waiting);
    lemma_pending_less(rests, waiting, rests2, waiting, p as int, given.len() as int);
    lemma_record_read(given[p as int], read[p as int], rests[p as int], word, rest);
    assert forall|q: int| 0 <= q < given.len() implies decoded(#[trigger] given[q]) == prepend(
        read2[q],
        decoded(rests2[q]),
    ) by {
        if q != p {
            assert(decoded(given[q]) == prepend(read[q], decoded(rests[q])));
        }
    }
    if all_decodable(given) && all_ascending(given) {
        assert(decoded(given[p as int]) is Some);
        let full = decoded(given[p as int])->0;
        let n = read[p as int].len() as int;
        assert(full[n - 1] == token);
        assert(full[n] == word);
        assert(lex_le(full[n - 1], full[n]));
        assert forall|q: usize| #[trigger] waiting.contains(q) implies lex_le(
            next.last(),
            heads2[q as int],
        ) by {
            if q != p {
                assert(waiting.remove(p).contains(q));
            }
        }
    }
}

/// Reading one record moves its token from what is left of a stream to what
/// was read of it.
pub proof fn lemma_record_read(
    whole: Seq<u8>,
    read: Seq<Seq<u8>>,
    left: Seq<u8>,
    word: Seq<u8>,
    rest: Seq<u8>,
)
    requires
        decoded(whole) == prepend(read, decoded(left)),
        first_frame(left) == (Frame::Record { token: word, rest }),
    ensures
        decoded(whole) == prepend(read.push(word), decoded(rest)),
        rest.len() < left.len(),
        decoded(whole) matches Some(full) ==> full.len() > read.len() && full[read.len() as int]
            == word && forall|i: int| 0 <= i < read.len() ==> full[i] == read[i],
{
    match decoded(rest) {
        Some(more) => {
            assert(read + (seq![word] + more) =~= read.push(word) + more);
        },
        None => {},
    }
}

/// A step of the seeding at the end of a stream: partition `started` holds
/// no record.
pub proof fn lemma_seed_end(
    given: Seq<Seq<u8>>,
    rests: Seq<Seq<u8>>,
    read: Seq<Seq<Seq<u8>>>,
    waiting: Set<usize>,
    heads: Seq<Seq<u8>>,
    started: usize,
)
    requires
        merge_state(given, rests, read, waiting, heads, None, Seq::empty(), started as int),
        started < given.len(),
        first_frame(rests[started as int]) is End,
    ensures
        merge_state(given, rests, read, waiting, heads, None, Seq::empty(), started + 1),
{
}

/// A step of the seeding with a record: the first token of partition
/// `started` enters the queue.
pub proof fn lemma_seed_record(
    given: Seq<Seq<u8>>,
    rests: Seq<Seq<u8>>,
    read: Seq<Seq<Seq<u8>>>,
    waiting: Set<usize>,
    heads: Seq<Seq<u8>>,
    started: usize,
    word: Seq<u8>,
    rest: Seq<u8>,
)
    requires
        merge_state(given, rests, read, waiting, heads, None, Seq::empty(), started as int),
        started < given.len(),
        first_frame(rests[started as int]) == (Frame::Record { token: word, rest }),
    ensures
        !waiting.contains(started),
        merge_state(
            given,
            rests.update(started as int, rest),
            read.update(started as int, read[started as int].push(word)),
            waiting.insert(started),
            heads.update(started as int, word),
            None,
            Seq::empty(),
            started + 1,
        ),
{
    let p = started;
    let rests2 = rests.update(p as int, rest);
    let read2 = read.update(p as int, read[p as int].push(word));
    if waiting.contains(p) {
        assert(p < started);
    }
    lemma_emitted_refill(read, waiting, p, word);
    lemma_record_read(given[p as int], read[p as int], rests[p as int], word, rest);
    assert forall|q: int| 0 <= q < given.len() implies decoded(#[trigger] given[q]) == prepend(
        read2[q],
        decoded(rests2[q]),
    ) by {
        if q != p {
            assert(decoded(given[q]) == prepend(read[q], decoded(rests[q])));
        }
    }
}

/// A record cut short in what is left of a stream makes the stream
/// undecodable.
pub proof fn lemma_corrupt(
    given: Seq<Seq<u8>>,
    rests: Seq<Seq<u8>>,
    read: Seq<Seq<Seq<u8>>>,
    p: int,
)
    requires
        0 <= p < given.len(),
        decoded(given[p]) == prepend(read[p], decoded(rests[p])),
        first_frame(rests[p]) is Corrupt,
    ensures
        !all_decodable(given),
{
}

/// When nothing waits and every stream was opened, every stream is read to
/// its end: all decode, and the output holds exactly their tokens.
pub proof fn lemma_merge_done(
    given: Seq<Seq<u8>>,
    rests: Seq<Seq<u8>>,
    read: Seq<Seq<Seq<u8>>>,
    heads: Seq<Seq<u8>>,
    last: Option<Seq<u8>>,
    out: Seq<Seq<u8>>,
)
    requires
        merge_state(given, rests, read, Set::empty(), heads, last, out, given.len() as int),
        given.len() <= usize::MAX,
    ensures
        all_decodable(given),
        out.to_set() == stream_tokens(given),
        no_repeats(out),
        all_ascending(given) ==> strictly_ascending(out) && out == sorted(stream_tokens(given)),
{
    let none = Set::<usize>::empty();
    assert forall|p: int| 0 <= p < given.len() implies decoded(#[trigger] given[p]) == Some(
        read[p],
    ) by {
        let u = p as usize;
        assert(!none.contains(u));
        assert(first_frame(rests[u as int]) is End);
        assert(decoded(rests[p]) == Some(Seq::<Seq<u8>>::empty()));
        assert(read[p] + Seq::<Seq<u8>>::empty() =~= read[p]);
    }
    assert forall|t: Seq<u8>| emitted(read, none).contains(t) <==> stream_tokens(given).contains(
        t,
    ) by {
        if emitted(read, none).contains(t) {
            let q = choose|q: usize|
                q < read.len() && (#[trigger] taken(read[q as int], none.contains(q))).contains(t);
            assert(decoded(given[q as int]) == Some(read[q as int]));
        }
        if stream_tokens(given).contains(t) {
            let q = choose|q: int|
                0 <= q < given.len() && decoded(#[trigger] given[q]) is Some && decoded(
                    given[q],
                )->0.contains(t);
            let u = q as usize;
            assert(taken(read[u as int], none.contains(u)).contains(t));
        }
    }
    assert(emitted(read, none) =~= stream_tokens(given));
    if all_ascending(given) {
        lemma_sorted_is(out, stream_tokens(given));
    }
}

/// Cursors at the start of every stream.
pub fn open_cursors(streams: Vec<Vec<u8>>) -> (cursors: Vec<MergeCursor>)
    ensures
        rests_of(cursors@) == seqs_of(streams@),
{
    let ghost given = seqs_of(streams@);
    let mut streams = streams;
    let n = streams.len();
    let mut cursors: Vec<MergeCursor> = Vec::new();
    let mut p: usize = 0;
    while p < n
        invariant
            p <= n,
            streams@.len() == n,
            given.len() == n,
            cursors@.len() == p,
            forall|q: int| p <= q < n ==> (#[trigger] streams@[q])@ == given[q],
            forall|q: int| 0 <= q < p ==> (#[trigger] cursors@[q]).rest() == given[q],
        decreases n - p,
    {
        let mut stream: Vec<u8> = Vec::new();
        streams.set_and_swap(p, &mut stream);
        cursors.push(MergeCursor::new(stream));
        p += 1;
    }
    assert(rests_of(cursors@) =~= given);
    cursors
}

/// Reads the next record of stream `p`, as `read_next_word` does, and leaves
/// the other cursors alone.
pub fn next_from(cursors: &mut Vec<MergeCursor>, p: usize) -> (r: Result<
    Option<Vec<u8>>,
    EngineError,
>)
    requires
        p < old(cursors)@.len(),
    ensures
        final(cursors)@.len() == old(cursors)@.len(),
        match first_frame(rests_of(old(cursors)@)[p as int]) {
            Frame::End => r == Ok::<Option<Vec<u8>>, EngineError>(None) && rests_of(
                final(cursors)@,
            ) == rests_of(old(cursors)@),
            Frame::Corrupt => r == Err::<Option<Vec<u8>>, EngineError>(EngineError::Decode)
                && rests_of(final(cursors)@) == rests_of(old(cursors)@),
            Frame::Record { token, rest } => r matches Ok(Some(word)) && word@ == token
                && rests_of(final(cursors)@) == rests_of(old(cursors)@).update(p as int, rest),
        },
{
    let mut cursor = MergeCursor::new(Vec::new());
    cursors.set_and_swap(p, &mut cursor);
    let r = read_next_word(&mut cursor);
    let ghost moved = cursor;
    cursors.set_and_swap(p, &mut cursor);
    proof {
        let before = rests_of(old(cursors)@);
        let after = rests_of(cursors@);
        assert(cursors@ =~= old(cursors)@.update(p as int, moved));
        assert(after =~= before.update(p as int, moved.rest()));
        assert(before.update(p as int, before[p as int]) =~= before);
    }
    r
}

/// Merges the record streams of all partitions. The result holds every
/// token of every stream, with no token next to an equal one; where every
/// stream ascends, it is the sorted list of the distinct tokens. A stream
/// with a record cut short makes the merge fail with `Decode`.
pub fn merge_streams(streams: Vec<Vec<u8>>) -> (r: Result<Vec<Vec<u8>>, EngineError>)
    ensures
        match r {
            Ok(out) => {
                &&& all_decodable(seqs_of(streams@))
                &&& seqs_of(out@).to_set() == stream_tokens(seqs_of(streams@))
                &&& no_repeats(seqs_of(out@))
                &&& all_ascending(seqs_of(streams@)) ==> strictly_ascending(seqs_of(out@))
                    && seqs_of(out@) == sorted(stream_tokens(seqs_of(streams@)))
            },
            Err(e) => e == EngineError::Decode && !all_decodable(seqs_of(streams@)),
        },
{
    let ghost given = seqs_of(streams@);
    let mut cursors = open_cursors(streams);
    let n = cursors.len();
    let mut engine = MergeEngine::new(n);
    let mut out: Vec<Vec<u8>> = Vec::new();
    let ghost mut read: Seq<Seq<Seq<u8>>> = Seq::new(n as nat, |p: int| Seq::<Seq<u8>>::empty());
    proof {
        assert forall|p: int| 0 <= p < given.len() implies decoded(#[trigger] given[p]) == prepend(
            read[p],
            decoded(rests_of(cursors@)[p]),
        ) by {
            match decoded(given[p]) {
                Some(more) => {
                    assert(read[p] + more =~= more);
                },
                None => {},
            }
        }
        assert(seqs_of(out@) =~= Seq::<Seq<u8>>::empty());
        assert(seqs_of(out@).to_set() =~= emitted(read, engine.waiting())) by {
            assert forall|t: Seq<u8>| !emitted(read, engine.waiting()).contains(t) by {
                if emitted(read, engine.waiting()).contains(t) {
                    let q = choose|q: usize|
                        q < read.len() && (#[trigger] taken(
                            read[q as int],
                            engine.waiting().contains(q),
                        )).contains(t);
                }
            }
        }
    }
    let mut k: usize = 0;
    while k < n
        invariant
            k <= n,
            given == seqs_of(streams@),
            n == given.len(),
            cursors@.len() == n,
            engine.wf(),
            engine.partitions() == n,
            out@.len() == 0,
            merge_state(
                given,
                rests_of(cursors@),
                read,
                engine.waiting(),
                engine.heads(),
                None,
                Seq::empty(),
                k as int,
            ),
            engine.last_taken() is None,
        decreases n - k,
    {
        let ghost rests = rests_of(cursors@);
        match next_from(&mut cursors, k) {
            Err(e) => {
                proof {
                    lemma_corrupt(given, rests, read, k as int);
                }
                return Err(e);
            },
            Ok(None) => {
                proof {
                    lemma_seed_end(given, rests, read, engine.waiting(), engine.heads(), k);
                }
            },
            Ok(Some(word)) => {
                proof {
                    let rest = rests_of(cursors@)[k as int];
                    lemma_seed_record(
                        given,
                        rests,
                        read,
                        engine.waiting(),
                        engine.heads(),
                        k,
                        word@,
                        rest,
                    );
                    read = read.update(k as int, read[k as int].push(word@));
                }
                let accepted = engine.offer(k, word);
                assert(accepted);
            },
        }
        k += 1;
    }
    proof {
        assert(seqs_of(out@) =~= Seq::<Seq<u8>>::empty());
    }
    loop
        invariant
            given == seqs_of(streams@),
            n == given.len(),
            cursors@.len() == n,
            engine.wf(),
            engine.partitions() == n,
            merge_state(
                given,
                rests_of(cursors@),
                read,
                engine.waiting(),
                engine.heads(),
                engine.last_taken(),
                seqs_of(out@),
                n as int,
            ),
        ensures
            all_decodable(given),
            seqs_of(out@).to_set() == stream_tokens(given),
            no_repeats(seqs_of(out@)),
            all_ascending(given) ==> strictly_ascending(seqs_of(out@)) && seqs_of(out@) == sorted(
                stream_tokens(given),
            ),
        decreases pending(rests_of(cursors@), engine.waiting(), n as int),
    {
        let ghost rests = rests_of(cursors@);
        let ghost waiting = engine.waiting();
        let ghost before = engine.heads();
        let ghost last = engine.last_taken();
        let ghost written = seqs_of(out@);
        match engine.pop() {
            None => {
                proof {
                    lemma_merge_done(given, rests, read, before, last, written);
                }
                break;
            },
            Some(popped) => {
                let p = popped.partition;
                let fresh = popped.fresh;
                if fresh {
                    proof {
                        lemma_seqs_of_push(out@, popped.token);
                    }
                    out.push(popped.token);
                }
                match next_from(&mut cursors, p) {
                    Err(e) => {
                        proof {
                            lemma_corrupt(given, rests, read, p as int);
                        }
                        return Err(e);
                    },
                    Ok(None) => {
                        proof {
                            lemma_step_end(
                                given,
                                rests,
                                read,
                                waiting,
                                before,
                                last,
                                written,
                                p,
                                fresh,
                            );
                        }
                    },
                    Ok(Some(word)) => {
                        proof {
                            let rest = rests_of(cursors@)[p as int];
                            lemma_step_record(
                                given,
                                rests,
                                read,
                                waiting,
                                before,
                                last,
                                written,
                                p,
                                fresh,
                                word@,
                                rest,
                            );
                            read = read.update(p as int, read[p as int].push(word@));
                            assert(before.update(p as int, Seq::<u8>::empty()).update(
                                p as int,
                                word@,
                            ) =~= before.update(p as int, word@));
                            assert(waiting.remove(p).insert(p) =~= waiting);
                        }
                        let accepted = engine.offer(p, word);
                        assert(accepted);
                    },
                }
            },
        }
    }
    Ok(out)
}

} // verus!
