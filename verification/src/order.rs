//! Byte-lexicographic order on tokens, and sequences that ascend under it.

use vstd::prelude::*;

verus! {

/// The first `k` bytes of `a` and `b` agree.
pub open spec fn agree_upto(a: Seq<u8>, b: Seq<u8>, k: int) -> bool {
    &&& 0 <= k <= a.len()
    &&& k <= b.len()
    &&& forall|i: int| 0 <= i < k ==> a[i] == b[i]
}

/// `a` and `b` agree on their first `k` bytes and `a` is smaller at position
/// `k`: either `a` ends there and `b` goes on, or `a` holds the smaller byte.
pub open spec fn splits_at(a: Seq<u8>, b: Seq<u8>, k: int) -> bool {
    &&& agree_upto(a, b, k)
    &&& k < b.len()
    &&& (k == a.len() || a[k] < b[k])
}

/// Strict byte-lexicographic order: a proper prefix comes before its
/// extensions, otherwise the first differing byte decides.
pub open spec fn lex_lt(a: Seq<u8>, b: Seq<u8>) -> bool {
    exists|k: int| splits_at(a, b, k)
}

/// Non-strict byte-lexicographic order.
pub open spec fn lex_le(a: Seq<u8>, b: Seq<u8>) -> bool {
    a == b || lex_lt(a, b)
}

/// Two sequences that agree on the whole of both are the same sequence.
pub proof fn lemma_agree_whole(a: Seq<u8>, b: Seq<u8>)
    requires
        agree_upto(a, b, a.len() as int),
        a.len() == b.len(),
    ensures
        a == b,
{
    assert(a =~= b);
}

/// The position at which `a` is smaller than `b` is the only place where a
/// decision between the two can fall.
pub proof fn lemma_split_unique(a: Seq<u8>, b: Seq<u8>, k: int, j: int)
    requires
        splits_at(a, b, k),
        splits_at(a, b, j) || splits_at(b, a, j),
    ensures
        j == k,
        splits_at(a, b, j),
{
    if j < k {
        assert(a[j] == b[j]);
    } else if k < j {
        assert(a[k] == b[k]);
    }
}

/// No token is smaller than itself.
pub proof fn lemma_lex_irreflexive(a: Seq<u8>)
    ensures
        !lex_lt(a, a),
{
    if lex_lt(a, a) {
        let k = choose|k: int| splits_at(a, a, k);
        assert(splits_at(a, a, k));
    }
}

/// Of two tokens at most one is smaller than the other.
pub proof fn lemma_lex_asymmetric(a: Seq<u8>, b: Seq<u8>)
    ensures
        !(lex_lt(a, b) && lex_lt(b, a)),
{
    if lex_lt(a, b) && lex_lt(b, a) {
        let k = choose|k: int| splits_at(a, b, k);
        let j = choose|j: int| splits_at(b, a, j);
        lemma_split_unique(a, b, k, j);
    }
}

/// The order is transitive.
pub proof fn lemma_lex_transitive(a: Seq<u8>, b: Seq<u8>, c: Seq<u8>)
    requires
        lex_lt(a, b),
        lex_lt(b, c),
    ensures
        lex_lt(a, c),
{
    let k = choose|k: int| splits_at(a, b, k);
    let j = choose|j: int| splits_at(b, c, j);
    let m = if k <= j { k } else { j };
    assert forall|i: int| 0 <= i < m implies a[i] == c[i] by {
        assert(a[i] == b[i]);
        assert(b[i] == c[i]);
    }
    if k < j {
        assert(b[k] == c[k]);
    }
    assert(splits_at(a, c, m));
}

/// Any two distinct tokens are ordered one way or the other.
pub proof fn lemma_lex_total(a: Seq<u8>, b: Seq<u8>)
    ensures
        a == b || lex_lt(a, b) || lex_lt(b, a),
{
    lemma_lex_total_from(a, b, 0);
}

proof fn lemma_lex_total_from(a: Seq<u8>, b: Seq<u8>, k: int)
    requires
        agree_upto(a, b, k),
    ensures
        a == b || lex_lt(a, b) || lex_lt(b, a),
    decreases a.len() - k,
{
    if k == a.len() {
        if k == b.len() {
            lemma_agree_whole(a, b);
        } else {
            assert(splits_at(a, b, k));
        }
    } else if k == b.len() {
        assert(splits_at(b, a, k));
    } else if a[k] < b[k] {
        assert(splits_at(a, b, k));
    } else if b[k] < a[k] {
        assert(splits_at(b, a, k));
    } else {
        lemma_lex_total_from(a, b, k + 1);
    }
}

/// Whether `a` comes strictly before `b` in byte-lexicographic order.
pub fn bytes_less(a: &[u8], b: &[u8]) -> (r: bool)
    ensures
        r == lex_lt(a@, b@),
{
    let mut i: usize = 0;
    while i < a.len() && i < b.len() && a[i] == b[i]
        invariant
            agree_upto(a@, b@, i as int),
        decreases a.len() - i,
    {
        i += 1;
    }
    let r = i < b.len() && (i == a.len() || a[i] < b[i]);
    proof {
        if r {
            assert(splits_at(a@, b@, i as int));
        } else if lex_lt(a@, b@) {
            let k = choose|k: int| splits_at(a@, b@, k);
            if i == b.len() {
                if k < i {
                    assert(a@[k] == b@[k]);
                }
            } else {
                assert(splits_at(b@, a@, i as int) || a@[i as int] == b@[i as int]);
                if splits_at(b@, a@, i as int) {
                    lemma_split_unique(b@, a@, i as int, k);
                }
            }
        }
    }
    r
}

/// Whether `a` and `b` hold the same bytes.
pub fn bytes_equal(a: &[u8], b: &[u8]) -> (r: bool)
    ensures
        r == (a@ == b@),
{
    if a.len() != b.len() {
        return false;
    }
    let mut i: usize = 0;
    while i < a.len()
        invariant
            a.len() == b.len(),
            agree_upto(a@, b@, i as int),
        decreases a.len() - i,
    {
        if a[i] != b[i] {
            return false;
        }
        i += 1;
    }
    proof {
        lemma_agree_whole(a@, b@);
    }
    true
}

/// Each token of `s` is smaller than all that follow it.
pub open spec fn strictly_ascending(s: Seq<Seq<u8>>) -> bool {
    forall|i: int, j: int| 0 <= i < j < s.len() ==> lex_lt(#[trigger] s[i], #[trigger] s[j])
}

/// No token of `s` is greater than one that follows it.
pub open spec fn ascending(s: Seq<Seq<u8>>) -> bool {
    forall|i: int, j: int| 0 <= i < j < s.len() ==> lex_le(#[trigger] s[i], #[trigger] s[j])
}

/// `q` lists the tokens of `set`, each once, in ascending order.
pub open spec fn lists_sorted(q: Seq<Seq<u8>>, set: Set<Seq<u8>>) -> bool {
    strictly_ascending(q) && q.to_set() == set
}

/// The tokens of a finite set in ascending order.
pub open spec fn sorted(set: Set<Seq<u8>>) -> Seq<Seq<u8>> {
    choose|q: Seq<Seq<u8>>| lists_sorted(q, set)
}

/// A strictly ascending list holds no token twice.
pub proof fn lemma_strictly_ascending_distinct(s: Seq<Seq<u8>>)
    requires
        strictly_ascending(s),
    ensures
        s.no_duplicates(),
{
    assert forall|i: int, j: int| 0 <= i < s.len() && 0 <= j < s.len() && i != j implies s[i]
        != s[j] by {
        lemma_lex_irreflexive(s[i]);
        if i < j {
            assert(lex_lt(s[i], s[j]));
        } else {
            assert(lex_lt(s[j], s[i]));
        }
    }
}

/// An ascending list without repetitions is strictly ascending.
pub proof fn lemma_ascending_distinct_strict(s: Seq<Seq<u8>>)
    requires
        ascending(s),
        s.no_duplicates(),
    ensures
        strictly_ascending(s),
{
    assert forall|i: int, j: int| 0 <= i < j < s.len() implies lex_lt(
        #[trigger] s[i],
        #[trigger] s[j],
    ) by {
        assert(lex_le(s[i], s[j]));
        assert(s[i] != s[j]);
    }
}

/// Two strictly ascending lists of the same tokens are the same list.
pub proof fn lemma_sorted_unique(a: Seq<Seq<u8>>, b: Seq<Seq<u8>>)
    requires
        strictly_ascending(a),
        strictly_ascending(b),
        a.to_set() == b.to_set(),
    ensures
        a == b,
    decreases a.len(),
{
    if a.len() == 0 {
        if b.len() > 0 {
            assert(b.to_set().contains(b[0]));
            assert(a.contains(b[0]));
        }
        assert(a =~= b);
    } else if b.len() == 0 {
        assert(a.to_set().contains(a[0]));
        assert(b.contains(a[0]));
    } else {
        let x = a.last();
        let y = b.last();
        assert(a.to_set().contains(x));
        assert(b.contains(x));
        assert(b.to_set().contains(y));
        assert(a.contains(y));
        let j = choose|j: int| 0 <= j < b.len() && b[j] == x;
        let i = choose|i: int| 0 <= i < a.len() && a[i] == y;
        if x != y {
            assert(lex_lt(b[j], y));
            assert(lex_lt(a[i], x));
            lemma_lex_asymmetric(x, y);
        }
        let a0 = a.drop_last();
        let b0 = b.drop_last();
        lemma_strictly_ascending_distinct(a);
        lemma_strictly_ascending_distinct(b);
        assert forall|t: Seq<u8>| a0.to_set().contains(t) <==> b0.to_set().contains(t) by {
            if a0.contains(t) {
                let k = choose|k: int| 0 <= k < a0.len() && a0[k] == t;
                assert(a[k] == t);
                assert(a.to_set().contains(t));
                assert(b.contains(t));
                let m = choose|m: int| 0 <= m < b.len() && b[m] == t;
                assert(m < b.len() - 1);
                assert(b0[m] == t);
            }
            if b0.contains(t) {
                let k = choose|k: int| 0 <= k < b0.len() && b0[k] == t;
                assert(b[k] == t);
                assert(b.to_set().contains(t));
                assert(a.contains(t));
                let m = choose|m: int| 0 <= m < a.len() && a[m] == t;
                assert(m < a.len() - 1);
                assert(a0[m] == t);
            }
        }
        assert(a0.to_set() =~= b0.to_set());
        assert(strictly_ascending(a0)) by {
            assert forall|p: int, q: int| 0 <= p < q < a0.len() implies lex_lt(
                #[trigger] a0[p],
                #[trigger] a0[q],
            ) by {
                assert(lex_lt(a[p], a[q]));
            }
        }
        assert(strictly_ascending(b0)) by {
            assert forall|p: int, q: int| 0 <= p < q < b0.len() implies lex_lt(
                #[trigger] b0[p],
                #[trigger] b0[q],
            ) by {
                assert(lex_lt(b[p], b[q]));
            }
        }
        lemma_sorted_unique(a0, b0);
        assert(a =~= a0.push(x));
        assert(b =~= b0.push(y));
    }
}

/// A strictly ascending list is the sorted form of the set of its tokens.
pub proof fn lemma_sorted_is(q: Seq<Seq<u8>>, set: Set<Seq<u8>>)
    requires
        lists_sorted(q, set),
    ensures
        sorted(set) == q,
{
    lemma_sorted_unique(sorted(set), q);
}

} // verus!
