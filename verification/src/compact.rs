//! The partition compactor: the tokens of one partition are gathered in a
//! hash set, which removes the duplicates, then sorted and written as a
//! record stream.

use crate::error::EngineError;
use crate::order::ascending;
use crate::order::lemma_ascending_distinct_strict;
use crate::order::lemma_sorted_is;
use crate::order::lists_sorted;
use crate::order::sorted;
use crate::record::all_fit;
use crate::record::encode_records;
use crate::record::framed;
use crate::record::MAX_TOKEN_LEN;
use crate::split::seqs_of;
use fxhash::FxHashSet;
use vstd::prelude::*;

verus! {

/// The hasher of `fxhash`, `fxhash::FxHasher`. Declared so that the type of
/// the hash set can be written; nothing is said of its values.
#[verifier::external_type_specification]
#[verifier::external_body]
pub struct ExFxHasher(fxhash::FxHasher);

/// The hasher factory `core::hash::BuildHasherDefault`, which `fxhash` uses
/// to make its hashers. Declared so that the type of the hash set can be
/// written; nothing is said of its values.
#[verifier::external_type_specification]
#[verifier::external_body]
#[verifier::reject_recursive_types(H)]
pub struct ExBuildHasherDefault<H>(core::hash::BuildHasherDefault<H>);

/// The tokens that a hash set of `fxhash` holds, each as its bytes. The
/// wrappers below state what `FxHashSet::default`, `insert` and `into_iter`
/// do to this set.
pub uninterp spec fn held(set: FxHashSet<Vec<u8>>) -> Set<Seq<u8>>;

/// An empty set, by `FxHashSet::default`. Trusted: the new set holds nothing.
#[verifier::external_body]
fn set_new() -> (set: FxHashSet<Vec<u8>>)
    ensures
        held(set) == Set::<Seq<u8>>::empty(),
{
    FxHashSet::default()
}

/// `HashSet::insert`. Trusted: afterwards the set holds the token beside what
/// it held before, and the result says whether the token was new.
#[verifier::external_body]
fn set_insert(set: &mut FxHashSet<Vec<u8>>, token: Vec<u8>) -> (fresh: bool)
    ensures
        held(*final(set)) == held(*old(set)).insert(token@),
        fresh == !held(*old(set)).contains(token@),
{
    set.insert(token)
}

/// `HashSet::into_iter`, gathered in a vector. Trusted: every token that the
/// set holds comes out once, and nothing else; the order is left open.
#[verifier::external_body]
fn set_into_vec(set: FxHashSet<Vec<u8>>) -> (items: Vec<Vec<u8>>)
    ensures
        seqs_of(items@).no_duplicates(),
        seqs_of(items@).to_set() == held(set),
{
    set.into_iter().collect()
}

/// `sort_unstable` on byte vectors. Trusted: the tokens are rearranged, none
/// is added or lost, and afterwards they ascend in byte-lexicographic order.
#[verifier::external_body]
fn sort_tokens(items: &mut Vec<Vec<u8>>)
    ensures
        seqs_of(final(items)@).to_multiset() == seqs_of(old(items)@).to_multiset(),
        ascending(seqs_of(final(items)@)),
{
    items.sort_unstable()
}

/// A rearrangement keeps the set of tokens, and keeps a list free of
/// repetitions free of them.
pub proof fn lemma_rearranged(a: Seq<Seq<u8>>, b: Seq<Seq<u8>>)
    requires
        a.to_multiset() == b.to_multiset(),
    ensures
        a.to_set() == b.to_set(),
        a.no_duplicates() ==> b.no_duplicates(),
{
    broadcast use vstd::seq_lib::group_to_multiset_ensures;

    assert forall|t: Seq<u8>| a.to_set().contains(t) <==> b.to_set().contains(t) by {
        assert(a.contains(t) <==> a.to_multiset().count(t) > 0);
        assert(b.contains(t) <==> b.to_multiset().count(t) > 0);
    }
    assert(a.to_set() =~= b.to_set());
    if a.no_duplicates() {
        a.lemma_multiset_has_no_duplicates();
        b.lemma_multiset_has_no_duplicates_conv();
    }
}

/// The distinct tokens of `tokens`, in an order that is left open.
pub fn distinct(tokens: Vec<Vec<u8>>) -> (items: Vec<Vec<u8>>)
    ensures
        seqs_of(items@).no_duplicates(),
        seqs_of(items@).to_set() == seqs_of(tokens@).to_set(),
{
    let ghost all = seqs_of(tokens@);
    let mut tokens = tokens;
    let mut set = set_new();
    proof {
        assert(all.take(all.len() as int) =~= all);
        assert(all.skip(all.len() as int).to_set() =~= Set::<Seq<u8>>::empty());
    }
    while tokens.len() > 0
        invariant
            tokens@.len() <= all.len(),
            seqs_of(tokens@) == all.take(tokens@.len() as int),
            held(set) == all.skip(tokens@.len() as int).to_set(),
        decreases tokens.len(),
    {
        let ghost n = tokens@.len() as int;
        let ghost before = seqs_of(tokens@);
        let token = tokens.pop().unwrap();
        proof {
            assert(token@ == before[n - 1]);
            assert(seqs_of(tokens@) =~= all.take(n - 1));
            let tail = all.skip(n);
            let more = all.skip(n - 1);
            assert forall|t: Seq<u8>| more.to_set().contains(t) <==> tail.to_set().insert(
                token@,
            ).contains(t) by {
                if more.contains(t) {
                    let k = choose|k: int| 0 <= k < more.len() && more[k] == t;
                    if k > 0 {
                        assert(tail[k - 1] == t);
                    }
                }
                if tail.contains(t) {
                    let k = choose|k: int| 0 <= k < tail.len() && tail[k] == t;
                    assert(more[k + 1] == t);
                }
                assert(more[0] == token@);
            }
            assert(more.to_set() =~= tail.to_set().insert(token@));
        }
        set_insert(&mut set, token);
    }
    proof {
        assert(all.skip(0) =~= all);
    }
    set_into_vec(set)
}

/// The tokens of `items` in ascending order. Where `items` holds no token
/// twice, this is the sorted form of the set of its tokens.
pub fn arrange(items: Vec<Vec<u8>>) -> (sorted_items: Vec<Vec<u8>>)
    ensures
        seqs_of(sorted_items@).to_multiset() == seqs_of(items@).to_multiset(),
        ascending(seqs_of(sorted_items@)),
        seqs_of(items@).no_duplicates() ==> seqs_of(sorted_items@) == sorted(
            seqs_of(items@).to_set(),
        ),
{
    let mut sorted_items = items;
    sort_tokens(&mut sorted_items);
    proof {
        lemma_rearranged(seqs_of(items@), seqs_of(sorted_items@));
        if seqs_of(items@).no_duplicates() {
            lemma_ascending_distinct_strict(seqs_of(sorted_items@));
            lemma_sorted_is(seqs_of(sorted_items@), seqs_of(items@).to_set());
        }
    }
    sorted_items
}

/// The distinct tokens of `tokens` in ascending order.
pub fn sort_distinct(tokens: Vec<Vec<u8>>) -> (sorted_items: Vec<Vec<u8>>)
    ensures
        seqs_of(sorted_items@) == sorted(seqs_of(tokens@).to_set()),
        lists_sorted(seqs_of(sorted_items@), seqs_of(tokens@).to_set()),
{
    let items = distinct(tokens);
    let sorted_items = arrange(items);
    proof {
        lemma_rearranged(seqs_of(items@), seqs_of(sorted_items@));
        lemma_ascending_distinct_strict(seqs_of(sorted_items@));
    }
    sorted_items
}

/// Compacts one partition: the distinct tokens of its store, in ascending
/// order, as a record stream. A token too long for a length prefix makes the
/// partition fail with `Decode`.
pub fn compact(tokens: Vec<Vec<u8>>) -> (r: Result<Vec<u8>, EngineError>)
    ensures
        match r {
            Ok(stream) => {
                &&& all_fit(seqs_of(tokens@))
                &&& stream@ == framed(sorted(seqs_of(tokens@).to_set()))
                &&& lists_sorted(sorted(seqs_of(tokens@).to_set()), seqs_of(tokens@).to_set())
            },
            Err(e) => e == EngineError::Decode && !all_fit(seqs_of(tokens@)),
        },
{
    let sorted_items = sort_distinct(tokens);
    let r = encode_records(&sorted_items);
    proof {
        let given = seqs_of(tokens@);
        let kept = seqs_of(sorted_items@);
        if all_fit(given) {
            assert forall|i: int| 0 <= i < kept.len() implies (#[trigger] kept[i]).len()
                <= MAX_TOKEN_LEN by {
                assert(kept.to_set().contains(kept[i]));
                assert(given.contains(kept[i]));
            }
        }
        if all_fit(kept) {
            assert forall|i: int| 0 <= i < given.len() implies (#[trigger] given[i]).len()
                <= MAX_TOKEN_LEN by {
                assert(given.to_set().contains(given[i]));
                assert(kept.contains(given[i]));
            }
        }
    }
    r
}

} // verus!
