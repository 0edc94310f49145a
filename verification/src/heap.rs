//! A binary min-heap of partition indices. A partition is ranked by the token
//! at the head of its stream; where two heads are equal, the smaller index
//! comes first.

use crate::order::bytes_equal;
use crate::order::bytes_less;
use crate::order::lemma_lex_asymmetric;
use crate::order::lemma_lex_irreflexive;
use crate::order::lemma_lex_total;
use crate::order::lemma_lex_transitive;
use crate::order::lex_lt;
use crate::split::seqs_of;
use vstd::prelude::*;

verus! {

/// Partition `a` ranks strictly before partition `b`.
pub open spec fn key_lt(heads: Seq<Seq<u8>>, a: int, b: int) -> bool {
    lex_lt(heads[a], heads[b]) || (heads[a] == heads[b] && a < b)
}

/// Partition `a` is `b` or ranks before it.
pub open spec fn key_le(heads: Seq<Seq<u8>>, a: int, b: int) -> bool {
    a == b || key_lt(heads, a, b)
}

/// Position of the parent of position `i` in the heap.
pub open spec fn parent(i: int) -> int {
    (i - 1) / 2
}

/// Every entry ranks at or behind its parent.
pub open spec fn heap_ordered(heap: Seq<usize>, heads: Seq<Seq<u8>>) -> bool {
    forall|i: int|
        0 < i < heap.len() ==> key_le(heads, heap[parent(i)] as int, #[trigger] heap[i] as int)
}

/// The entries are partitions that exist, none comes twice, and the heap is
/// ordered.
pub open spec fn is_heap(heap: Seq<usize>, heads: Seq<Seq<u8>>) -> bool {
    &&& forall|i: int| 0 <= i < heap.len() ==> (#[trigger] heap[i]) < heads.len()
    &&& heap.no_duplicates()
    &&& heap_ordered(heap, heads)
}

/// The ranking is transitive.
pub proof fn lemma_key_le_transitive(heads: Seq<Seq<u8>>, a: int, b: int, c: int)
    requires
        key_le(heads, a, b),
        key_le(heads, b, c),
    ensures
        key_le(heads, a, c),
{
    if a != b && b != c {
        if lex_lt(heads[a], heads[b]) && lex_lt(heads[b], heads[c]) {
            lemma_lex_transitive(heads[a], heads[b], heads[c]);
        }
    }
}

/// Two different partitions are ranked one way or the other, never both.
pub proof fn lemma_key_total(heads: Seq<Seq<u8>>, a: int, b: int)
    ensures
        a != b ==> (key_lt(heads, a, b) <==> !key_lt(heads, b, a)),
        !key_lt(heads, a, a),
{
    lemma_lex_total(heads[a], heads[b]);
    lemma_lex_asymmetric(heads[a], heads[b]);
    lemma_lex_irreflexive(heads[a]);
    lemma_lex_irreflexive(heads[b]);
}

/// The entry at the top of an ordered heap ranks before all others.
pub proof fn lemma_root_is_least(heap: Seq<usize>, heads: Seq<Seq<u8>>, i: int)
    requires
        heap_ordered(heap, heads),
        0 <= i < heap.len(),
    ensures
        key_le(heads, heap[0] as int, heap[i] as int),
    decreases i,
{
    if i > 0 {
        lemma_root_is_least(heap, heads, parent(i));
        lemma_key_le_transitive(heads, heap[0] as int, heap[parent(i)] as int, heap[i] as int);
    }
}

/// Exchanging two entries changes neither which partitions the heap holds
/// nor that none comes twice.
pub proof fn lemma_swap_keeps_entries(heap: Seq<usize>, i: int, j: int)
    requires
        0 <= i < heap.len(),
        0 <= j < heap.len(),
    ensures
        heap.update(i, heap[j]).update(j, heap[i]).to_set() == heap.to_set(),
        heap.no_duplicates() ==> heap.update(i, heap[j]).update(j, heap[i]).no_duplicates(),
{
    let swapped = heap.update(i, heap[j]).update(j, heap[i]);
    assert forall|x: usize| swapped.to_set().contains(x) <==> heap.to_set().contains(x) by {
        if swapped.contains(x) {
            let k = choose|k: int| 0 <= k < swapped.len() && swapped[k] == x;
            if k == i {
                assert(heap[j] == x);
            } else if k == j {
                assert(heap[i] == x);
            } else {
                assert(heap[k] == x);
            }
        }
        if heap.contains(x) {
            let k = choose|k: int| 0 <= k < heap.len() && heap[k] == x;
            if k == i {
                assert(swapped[j] == x);
            } else if k == j {
                assert(swapped[i] == x);
            } else {
                assert(swapped[k] == x);
            }
        }
    }
    assert(swapped.to_set() =~= heap.to_set());
}

/// Whether partition `a` ranks strictly before partition `b`.
pub fn key_less(heads: &Vec<Vec<u8>>, a: usize, b: usize) -> (r: bool)
    requires
        a < heads@.len(),
        b < heads@.len(),
    ensures
        r == key_lt(seqs_of(heads@), a as int, b as int),
{
    if bytes_less(heads[a].as_slice(), heads[b].as_slice()) {
        true
    } else {
        a < b && bytes_equal(heads[a].as_slice(), heads[b].as_slice())
    }
}

/// Exchanges the entries at positions `i` and `j`.
fn swap_entries(heap: &mut Vec<usize>, i: usize, j: usize)
    requires
        i < old(heap)@.len(),
        j < old(heap)@.len(),
    ensures
        final(heap)@ == old(heap)@.update(i as int, old(heap)@[j as int]).update(
            j as int,
            old(heap)@[i as int],
        ),
{
    let a = heap[i];
    let b = heap[j];
    heap.set(i, b);
    heap.set(j, a);
}

/// Puts partition `p` into the heap.
pub fn heap_push(heap: &mut Vec<usize>, heads: &Vec<Vec<u8>>, p: usize)
    requires
        is_heap(old(heap)@, seqs_of(heads@)),
        p < heads@.len(),
        !old(heap)@.contains(p),
    ensures
        is_heap(final(heap)@, seqs_of(heads@)),
        final(heap)@.to_set() == old(heap)@.to_set().insert(p),
        final(heap)@.len() == old(heap)@.len() + 1,
{
    let ghost keys = seqs_of(heads@);
    heap.push(p);
    let mut i: usize = heap.len() - 1;
    proof {
        let before = old(heap)@;
        let now = heap@;
        assert forall|x: usize| now.to_set().contains(x) <==> before.to_set().insert(p).contains(
            x,
        ) by {
            if now.contains(x) {
                let k = choose|k: int| 0 <= k < now.len() && now[k] == x;
                if k < before.len() {
                    assert(before[k] == x);
                }
            }
            if before.contains(x) {
                let k = choose|k: int| 0 <= k < before.len() && before[k] == x;
                assert(now[k] == x);
            }
            assert(now[now.len() - 1] == p);
        }
        assert(now.to_set() =~= before.to_set().insert(p));
        assert forall|j: int| 0 < j < now.len() && j != i implies key_le(
            keys,
            now[parent(j)] as int,
            #[trigger] now[j] as int,
        ) by {
            assert(key_le(keys, before[parent(j)] as int, before[j] as int));
        }
    }
    while i > 0
        invariant
            keys == seqs_of(heads@),
            i < heap@.len(),
            heap@.len() == old(heap)@.len() + 1,
            heap@.to_set() == old(heap)@.to_set().insert(p),
            heap@.no_duplicates(),
            forall|k: int| 0 <= k < heap@.len() ==> (#[trigger] heap@[k]) < heads@.len(),
            forall|j: int|
                0 < j < heap@.len() && j != i ==> key_le(
                    keys,
                    heap@[parent(j)] as int,
                    #[trigger] heap@[j] as int,
                ),
            forall|c: int|
                0 < i && 0 < c < heap@.len() && parent(c) == i ==> key_le(
                    keys,
                    heap@[parent(i as int)] as int,
                    #[trigger] heap@[c] as int,
                ),
        ensures
            heap_ordered(heap@, keys),
        decreases i,
    {
        let up = (i - 1) / 2;
        if !key_less(heads, heap[i], heap[up]) {
            proof {
                lemma_key_total(keys, heap@[i as int] as int, heap@[up as int] as int);
            }
            break;
        }
        let ghost before = heap@;
        proof {
            lemma_swap_keeps_entries(before, i as int, up as int);
        }
        swap_entries(heap, i, up);
        proof {
            let now = heap@;
            assert forall|j: int| 0 < j < now.len() && j != up implies key_le(
                keys,
                now[parent(j)] as int,
                #[trigger] now[j] as int,
            ) by {
                if j == i {
                } else if parent(j) == up {
                    assert(key_le(keys, before[up as int] as int, before[j] as int));
                    lemma_key_le_transitive(
                        keys,
                        before[i as int] as int,
                        before[up as int] as int,
                        before[j] as int,
                    );
                } else if parent(j) == i {
                    assert(key_le(keys, before[parent(i as int)] as int, before[j] as int));
                } else {
                    assert(key_le(keys, before[parent(j)] as int, before[j] as int));
                }
            }
            assert forall|c: int| 0 < up && 0 < c < now.len() && parent(c) == up implies key_le(
                keys,
                now[parent(up as int)] as int,
                #[trigger] now[c] as int,
            ) by {
                assert(key_le(keys, before[parent(up as int)] as int, before[up as int] as int));
                if c != i {
                    assert(key_le(keys, before[up as int] as int, before[c] as int));
                    lemma_key_le_transitive(
                        keys,
                        before[parent(up as int)] as int,
                        before[up as int] as int,
                        before[c] as int,
                    );
                }
            }
        }
        i = up;
    }
}

/// Takes the partition that ranks first out of the heap; `None` where the
/// heap is empty.
pub fn heap_pop(heap: &mut Vec<usize>, heads: &Vec<Vec<u8>>) -> (least: Option<usize>)
    requires
        is_heap(old(heap)@, seqs_of(heads@)),
    ensures
        is_heap(final(heap)@, seqs_of(heads@)),
        old(heap)@.len() == 0 ==> least is None && final(heap)@ == old(heap)@,
        old(heap)@.len() > 0 ==> {
            &&& least matches Some(p)
            &&& old(heap)@.contains(p)
            &&& forall|q: usize| old(heap)@.contains(q) ==> key_le(seqs_of(heads@), p as int, q as int)
            &&& final(heap)@.to_set() == old(heap)@.to_set().remove(p)
            &&& final(heap)@.len() == old(heap)@.len() - 1
        },
{
    let ghost keys = seqs_of(heads@);
    if heap.len() == 0 {
        return None;
    }
    let least = heap[0];
    proof {
        let before = old(heap)@;
        assert(before[0] == least);
        assert forall|q: usize| before.contains(q) implies key_le(
            keys,
            least as int,
            q as int,
        ) by {
            let k = choose|k: int| 0 <= k < before.len() && before[k] == q;
            lemma_root_is_least(before, keys, k);
        }
    }
    let moved = heap.pop().unwrap();
    if heap.len() == 0 {
        proof {
            let before = old(heap)@;
            assert(heap@.to_set() =~= before.to_set().remove(least)) by {
                assert forall|x: usize| before.to_set().remove(least).contains(x) implies false by {
                    let k = choose|k: int| 0 <= k < before.len() && before[k] == x;
                }
            }
        }
        return Some(least);
    }
    heap.set(0, moved);
    proof {
        let before = old(heap)@;
        let now = heap@;
        let n = before.len() - 1;
        assert(moved == before[n]);
        assert forall|k: int| 0 <= k < now.len() implies (#[trigger] now[k]) < heads@.len() by {
            if k > 0 {
                assert(now[k] == before[k]);
            }
        }
        assert forall|a: int, b: int| 0 <= a < now.len() && 0 <= b < now.len() && a != b implies now[a]
            != now[b] by {
            let a0 = if a == 0 {
                n
            } else {
                a
            };
            let b0 = if b == 0 {
                n
            } else {
                b
            };
            assert(now[a] == before[a0] && now[b] == before[b0]);
        }
        assert forall|x: usize| now.to_set().contains(x) <==> before.to_set().remove(
            least,
        ).contains(x) by {
            if now.contains(x) {
                let k = choose|k: int| 0 <= k < now.len() && now[k] == x;
                let k0 = if k == 0 {
                    n
                } else {
                    k
                };
                assert(before[k0] == x);
            }
            if before.contains(x) && x != least {
                let k = choose|k: int| 0 <= k < before.len() && before[k] == x;
                if k == n {
                    assert(now[0] == x);
                } else {
                    assert(now[k] == x);
                }
            }
        }
        assert(now.to_set() =~= before.to_set().remove(least));
        assert forall|j: int| 0 < j < now.len() && parent(j) != 0 implies key_le(
            keys,
            now[parent(j)] as int,
            #[trigger] now[j] as int,
        ) by {
            assert(key_le(keys, before[parent(j)] as int, before[j] as int));
        }
    }
    let len = heap.len();
    let mut i: usize = 0;
    while i < len / 2
        invariant
            keys == seqs_of(heads@),
            len == heap@.len(),
            len == old(heap)@.len() - 1,
            heap@.to_set() == old(heap)@.to_set().remove(least),
            heap@.no_duplicates(),
            forall|k: int| 0 <= k < heap@.len() ==> (#[trigger] heap@[k]) < heads@.len(),
            forall|j: int|
                0 < j < heap@.len() && parent(j) != i ==> key_le(
                    keys,
                    heap@[parent(j)] as int,
                    #[trigger] heap@[j] as int,
                ),
            forall|c: int|
                0 < i < heap@.len() && 0 < c < heap@.len() && parent(c) == i ==> key_le(
                    keys,
                    heap@[parent(i as int)] as int,
                    #[trigger] heap@[c] as int,
                ),
        ensures
            heap_ordered(heap@, keys),
        decreases len - i,
    {
        let left = 2 * i + 1;
        let right = left + 1;
        let mut child = left;
        if right < len && key_less(heads, heap[right], heap[left]) {
            child = right;
        }
        proof {
            if right < len {
                lemma_key_total(keys, heap@[right as int] as int, heap@[left as int] as int);
            }
        }
        if !key_less(heads, heap[child], heap[i]) {
            proof {
                lemma_key_total(keys, heap@[child as int] as int, heap@[i as int] as int);
                assert forall|j: int| 0 < j < heap@.len() && parent(j) == i implies key_le(
                    keys,
                    heap@[i as int] as int,
                    #[trigger] heap@[j] as int,
                ) by {
                    assert(j == left || j == right);
                    lemma_key_le_transitive(
                        keys,
                        heap@[i as int] as int,
                        heap@[child as int] as int,
                        heap@[j] as int,
                    );
                }
            }
            break;
        }
        let ghost before = heap@;
        proof {
            lemma_swap_keeps_entries(before, i as int, child as int);
        }
        swap_entries(heap, i, child);
        proof {
            let now = heap@;
            assert forall|j: int| 0 < j < now.len() && parent(j) != child implies key_le(
                keys,
                now[parent(j)] as int,
                #[trigger] now[j] as int,
            ) by {
                if j == child {
                } else if parent(j) == i {
                    assert(j == left || j == right);
                } else if j == i {
                    assert(key_le(keys, before[parent(i as int)] as int, before[child as int] as int));
                } else {
                    assert(key_le(keys, before[parent(j)] as int, before[j] as int));
                }
            }
            assert forall|c: int| 0 < c < now.len() && parent(c) == child implies key_le(
                keys,
                now[parent(child as int)] as int,
                #[trigger] now[c] as int,
            ) by {
                assert(key_le(keys, before[child as int] as int, before[c] as int));
            }
        }
        i = child;
    }
    Some(least)
}

/// A heap stays a heap when the heads of partitions outside it change.
pub proof fn lemma_heap_ignores_others(heap: Seq<usize>, heads: Seq<Seq<u8>>, changed: Seq<Seq<u8>>)
    requires
        is_heap(heap, heads),
        changed.len() == heads.len(),
        forall|k: int| 0 <= k < heap.len() ==> changed[heap[k] as int] == heads[heap[k] as int],
    ensures
        is_heap(heap, changed),
{
    assert forall|i: int| 0 < i < heap.len() implies key_le(
        changed,
        heap[parent(i)] as int,
        #[trigger] heap[i] as int,
    ) by {
        assert(key_le(heads, heap[parent(i)] as int, heap[i] as int));
        assert(changed[heap[parent(i)] as int] == heads[heap[parent(i)] as int]);
        assert(changed[heap[i] as int] == heads[heap[i] as int]);
    }
}

} // verus!
