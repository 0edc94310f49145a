//! The partition router: every token goes to the partition that a fixed
//! 64-bit hash of its bytes selects, so that equal tokens always meet in the
//! same partition.

use crate::split::lemma_seqs_of_push;
use crate::split::seqs_of;
use vstd::prelude::*;

verus! {

/// Offset basis of the 64-bit FNV-1a hash.
pub const FNV_OFFSET: u64 = 0xcbf2_9ce4_8422_2325;

/// Prime of the 64-bit FNV-1a hash.
pub const FNV_PRIME: u64 = 0x0000_0100_0000_01b3;

/// One round of FNV-1a: the byte is xor-ed into the hash, which is then
/// multiplied by the prime, modulo 2^64.
pub open spec fn fnv1a_step(hash: u64, byte: u8) -> u64 {
    (hash ^ (byte as u64)).wrapping_mul(FNV_PRIME)
}

/// The 64-bit FNV-1a hash of `bytes`.
pub open spec fn fnv1a(bytes: Seq<u8>) -> u64
    decreases bytes.len(),
{
    if bytes.len() == 0 {
        FNV_OFFSET
    } else {
        fnv1a_step(fnv1a(bytes.drop_last()), bytes.last())
    }
}

/// The partition of a token among `partitions` partitions.
pub open spec fn route(token: Seq<u8>, partitions: nat) -> nat
    recommends
        partitions > 0,
{
    (fnv1a(token) as nat) % partitions
}

/// The tokens of `tokens` that are routed to partition `p`, in order.
pub open spec fn routed_to(tokens: Seq<Seq<u8>>, partitions: nat, p: nat) -> Seq<Seq<u8>>
    decreases tokens.len(),
{
    if tokens.len() == 0 {
        Seq::empty()
    } else {
        let before = routed_to(tokens.drop_last(), partitions, p);
        if route(tokens.last(), partitions) == p {
            before.push(tokens.last())
        } else {
            before
        }
    }
}

/// A token goes to the end of the list of its own partition and to no other.
pub proof fn lemma_routed_push(tokens: Seq<Seq<u8>>, token: Seq<u8>, partitions: nat, p: nat)
    ensures
        routed_to(tokens.push(token), partitions, p) == if route(token, partitions) == p {
            routed_to(tokens, partitions, p).push(token)
        } else {
            routed_to(tokens, partitions, p)
        },
{
    assert(tokens.push(token).drop_last() =~= tokens);
}

/// Routing a list and then another is routing the two in a row.
pub proof fn lemma_routed_concat(a: Seq<Seq<u8>>, b: Seq<Seq<u8>>, partitions: nat, p: nat)
    ensures
        routed_to(a + b, partitions, p) == routed_to(a, partitions, p) + routed_to(b, partitions, p),
    decreases b.len(),
{
    if b.len() == 0 {
        assert(a + b =~= a);
        assert(routed_to(a, partitions, p) + routed_to(b, partitions, p) =~= routed_to(
            a,
            partitions,
            p,
        ));
    } else {
        lemma_routed_concat(a, b.drop_last(), partitions, p);
        assert((a + b).drop_last() =~= a + b.drop_last());
        assert(routed_to(a + b, partitions, p) =~= routed_to(a, partitions, p) + routed_to(
            b,
            partitions,
            p,
        ));
    }
}

/// The list of a partition holds exactly the tokens that are routed to it:
/// a token is in the list of its partition and in no other list.
pub proof fn lemma_routed_member(tokens: Seq<Seq<u8>>, partitions: nat, p: nat, t: Seq<u8>)
    ensures
        routed_to(tokens, partitions, p).contains(t) <==> tokens.contains(t) && route(
            t,
            partitions,
        ) == p,
    decreases tokens.len(),
{
    if tokens.len() > 0 {
        let front = tokens.drop_last();
        let last = tokens.last();
        lemma_routed_member(front, partitions, p, t);
        let here = routed_to(tokens, partitions, p);
        let before = routed_to(front, partitions, p);
        if here.contains(t) {
            let i = choose|i: int| 0 <= i < here.len() && here[i] == t;
            if i < before.len() {
                assert(before[i] == t);
                assert(before.contains(t));
                assert(front.contains(t));
                let j = choose|j: int| 0 <= j < front.len() && front[j] == t;
                assert(tokens[j] == t);
            } else {
                assert(t == last);
                assert(tokens[tokens.len() - 1] == t);
            }
        }
        if tokens.contains(t) && route(t, partitions) == p {
            let j = choose|j: int| 0 <= j < tokens.len() && tokens[j] == t;
            if j < front.len() {
                assert(front[j] == t);
                assert(front.contains(t));
                assert(before.contains(t));
                let i = choose|i: int| 0 <= i < before.len() && before[i] == t;
                assert(here[i] == t);
            } else {
                assert(here[here.len() - 1] == t);
            }
        }
    }
}

/// The 64-bit FNV-1a hash of a token.
pub fn hash_token(token: &[u8]) -> (hash: u64)
    ensures
        hash == fnv1a(token@),
{
    let mut hash = FNV_OFFSET;
    let mut i: usize = 0;
    assert(token@.take(0) =~= Seq::<u8>::empty());
    while i < token.len()
        invariant
            i <= token.len(),
            hash == fnv1a(token@.take(i as int)),
        decreases token.len() - i,
    {
        proof {
            let next = token@.take(i + 1);
            assert(next.drop_last() =~= token@.take(i as int));
            assert(next.last() == token@[i as int]);
        }
        hash = (hash ^ (token[i] as u64)).wrapping_mul(FNV_PRIME);
        i += 1;
    }
    assert(token@.take(token@.len() as int) =~= token@);
    hash
}

/// The partition that `word` belongs to, among `partitions` partitions.
pub fn hash_partition(word: &[u8], partitions: usize) -> (p: usize)
    requires
        partitions > 0,
    ensures
        p == route(word@, partitions as nat),
        p < partitions,
{
    let hash = hash_token(word);
    let p = hash % (partitions as u64);
    p as usize
}

/// The append-only token stores of all partitions.
pub struct Partitions {
    stores: Vec<Vec<Vec<u8>>>,
}

impl Partitions {
    #[verifier::type_invariant]
    spec fn inv(self) -> bool {
        self.stores.len() > 0
    }

    /// Number of partitions.
    pub closed spec fn count(&self) -> nat {
        self.stores@.len()
    }

    /// The tokens in the store of partition `p`, in order of arrival.
    pub closed spec fn store(&self, p: int) -> Seq<Seq<u8>> {
        seqs_of(self.stores@[p]@)
    }

    /// `partitions` empty stores.
    pub fn new(partitions: usize) -> (parts: Partitions)
        requires
            partitions > 0,
        ensures
            parts.count() == partitions,
            forall|p: int| 0 <= p < partitions ==> parts.store(p) == Seq::<Seq<u8>>::empty(),
    {
        let mut stores: Vec<Vec<Vec<u8>>> = Vec::new();
        let mut p: usize = 0;
        while p < partitions
            invariant
                p <= partitions,
                stores@.len() == p,
                forall|q: int| 0 <= q < p ==> seqs_of((#[trigger] stores@[q])@) == Seq::<
                    Seq<u8>,
                >::empty(),
            decreases partitions - p,
        {
            let empty: Vec<Vec<u8>> = Vec::new();
            assert(seqs_of(empty@) =~= Seq::<Seq<u8>>::empty());
            stores.push(empty);
            p += 1;
        }
        Partitions { stores }
    }

    /// Number of partitions.
    pub fn len(&self) -> (n: usize)
        ensures
            n == self.count(),
            n > 0,
    {
        proof {
            use_type_invariant(self);
        }
        self.stores.len()
    }

    /// Appends `token` to the store of its partition and leaves the other
    /// stores as they are. Returns the partition.
    pub fn append(&mut self, token: Vec<u8>) -> (p: usize)
        ensures
            final(self).count() == old(self).count(),
            p == route(token@, old(self).count()),
            final(self).store(p as int) == old(self).store(p as int).push(token@),
            forall|q: int|
                0 <= q < old(self).count() && q != p ==> final(self).store(q) == old(self).store(q),
    {
        proof {
            use_type_invariant(&*self);
        }
        let p = hash_partition(token.as_slice(), self.stores.len());
        proof {
            lemma_seqs_of_push(self.stores@[p as int]@, token);
        }
        self.stores[p].push(token);
        p
    }

    /// Hands out the stores, one list of tokens for each partition.
    pub fn into_stores(self) -> (stores: Vec<Vec<Vec<u8>>>)
        ensures
            stores@.len() == self.count(),
            forall|p: int| 0 <= p < stores@.len() ==> seqs_of((#[trigger] stores@[p])@) == self.store(p),
    {
        self.stores
    }
}

/// Routes every token of `tokens`, in order, to the store of its partition.
pub fn route_all(parts: &mut Partitions, tokens: Vec<Vec<u8>>)
    ensures
        final(parts).count() == old(parts).count(),
        forall|p: int|
            0 <= p < old(parts).count() ==> #[trigger] final(parts).store(p) == old(parts).store(p)
                + routed_to(seqs_of(tokens@), old(parts).count(), p as nat),
{
    let ghost all = seqs_of(tokens@);
    let ghost n = parts.count();
    let mut tokens = tokens;
    let len = tokens.len();
    let mut j: usize = 0;
    proof {
        assert(all.take(0) =~= Seq::<Seq<u8>>::empty());
        assert forall|p: int| 0 <= p < n implies #[trigger] parts.store(p) == old(parts).store(p)
            + routed_to(all.take(0), n, p as nat) by {
            assert(old(parts).store(p) + Seq::<Seq<u8>>::empty() =~= old(parts).store(p));
        }
    }
    while j < len
        invariant
            j <= len,
            len == tokens@.len(),
            all.len() == len,
            parts.count() == n,
            n == old(parts).count(),
            forall|q: int| j <= q < len ==> (#[trigger] tokens@[q])@ == all[q],
            forall|p: int|
                0 <= p < n ==> #[trigger] parts.store(p) == old(parts).store(p) + routed_to(
                    all.take(j as int),
                    n,
                    p as nat,
                ),
        decreases len - j,
    {
        let mut token: Vec<u8> = Vec::new();
        tokens.set_and_swap(j, &mut token);
        let ghost before = *parts;
        let ghost done = all.take(j as int);
        let dest = parts.append(token);
        proof {
            assert(all.take(j + 1) =~= done.push(all[j as int]));
            assert forall|p: int| 0 <= p < n implies #[trigger] parts.store(p) == old(parts).store(
                p,
            ) + routed_to(all.take(j + 1), n, p as nat) by {
                lemma_routed_push(done, all[j as int], n, p as nat);
                assert(before.store(p) == old(parts).store(p) + routed_to(done, n, p as nat));
                if p == dest {
                    assert((old(parts).store(p) + routed_to(done, n, p as nat)).push(all[j as int])
                        =~= old(parts).store(p) + routed_to(done, n, p as nat).push(
                        all[j as int],
                    ));
                }
            }
        }
        j += 1;
    }
    proof {
        assert(all.take(len as int) =~= all);
    }
}

} // verus!
