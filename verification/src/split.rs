//! Cutting a sequence into its maximal runs of items that are not separators.

use vstd::prelude::*;

verus! {

/// The sequences that a list of vectors holds.
pub open spec fn seqs_of<T>(items: Seq<Vec<T>>) -> Seq<Seq<T>> {
    Seq::new(items.len(), |i: int| items[i]@)
}

/// Pushing a vector onto a list pushes its contents onto what the list holds.
pub proof fn lemma_seqs_of_push<T>(items: Seq<Vec<T>>, item: Vec<T>)
    ensures
        seqs_of(items.push(item)) == seqs_of(items).push(item@),
{
    assert(seqs_of(items.push(item)) =~= seqs_of(items).push(item@));
}

/// Length of the longest prefix of `s` that holds no separator.
pub open spec fn run_len<T>(s: Seq<T>, sep: spec_fn(T) -> bool) -> int
    decreases s.len(),
{
    if s.len() == 0 || sep(s[0]) {
        0
    } else {
        1 + run_len(s.drop_first(), sep)
    }
}

/// The maximal runs of non-separators in `s`, in order of appearance. No run
/// is empty and none holds a separator.
pub open spec fn runs<T>(s: Seq<T>, sep: spec_fn(T) -> bool) -> Seq<Seq<T>>
    decreases s.len(),
    via runs_decreases::<T>
{
    if s.len() == 0 {
        Seq::empty()
    } else if sep(s[0]) {
        runs(s.drop_first(), sep)
    } else {
        seq![s.take(run_len(s, sep))] + runs(s.skip(run_len(s, sep)), sep)
    }
}

#[via_fn]
proof fn runs_decreases<T>(s: Seq<T>, sep: spec_fn(T) -> bool) {
    if s.len() != 0 && !sep(s[0]) {
        lemma_run_len_bounds(s, sep);
    }
}

/// The leading run ends inside `s`, holds no separator, and is followed by a
/// separator or by the end of `s`.
pub proof fn lemma_run_len_bounds<T>(s: Seq<T>, sep: spec_fn(T) -> bool)
    ensures
        0 <= run_len(s, sep) <= s.len(),
        s.len() > 0 && !sep(s[0]) ==> run_len(s, sep) > 0,
        forall|i: int| 0 <= i < run_len(s, sep) ==> !sep(#[trigger] s[i]),
        run_len(s, sep) < s.len() ==> sep(s[run_len(s, sep)]),
    decreases s.len(),
{
    if s.len() == 0 || sep(s[0]) {
    } else {
        let t = s.drop_first();
        lemma_run_len_bounds(t, sep);
        assert forall|i: int| 0 <= i < run_len(s, sep) implies !sep(#[trigger] s[i]) by {
            if i > 0 {
                assert(s[i] == t[i - 1]);
            }
        }
        if run_len(s, sep) < s.len() {
            assert(s[run_len(s, sep)] == t[run_len(t, sep)]);
        }
    }
}

/// The leading run is marked by the first separator: where `s` holds none
/// before position `n` and one at `n`, or ends at `n`, its length is `n`.
pub proof fn lemma_run_len_is<T>(s: Seq<T>, sep: spec_fn(T) -> bool, n: int)
    requires
        0 <= n <= s.len(),
        forall|i: int| 0 <= i < n ==> !sep(#[trigger] s[i]),
        n < s.len() ==> sep(s[n]),
    ensures
        run_len(s, sep) == n,
    decreases s.len(),
{
    if n == 0 {
    } else {
        let t = s.drop_first();
        assert(!sep(s[0]));
        assert forall|i: int| 0 <= i < n - 1 implies !sep(#[trigger] t[i]) by {
            assert(t[i] == s[i + 1]);
        }
        if n - 1 < t.len() {
            assert(t[n - 1] == s[n]);
        }
        lemma_run_len_is(t, sep, n - 1);
    }
}

/// Leading separators do not matter: the runs of `s` are those of `s`
/// without its first `n` items, where all of these are separators.
pub proof fn lemma_runs_skip_separators<T>(s: Seq<T>, sep: spec_fn(T) -> bool, n: int)
    requires
        0 <= n <= s.len(),
        forall|i: int| 0 <= i < n ==> sep(#[trigger] s[i]),
    ensures
        runs(s, sep) == runs(s.skip(n), sep),
    decreases n,
{
    if n == 0 {
        assert(s.skip(0) =~= s);
    } else {
        let t = s.drop_first();
        assert(sep(s[0]));
        assert forall|i: int| 0 <= i < n - 1 implies sep(#[trigger] t[i]) by {
            assert(t[i] == s[i + 1]);
        }
        lemma_runs_skip_separators(t, sep, n - 1);
        assert(t.skip(n - 1) =~= s.skip(n));
    }
}

/// Where `a` is empty or ends in a separator, no run straddles the seam
/// between `a` and `b`: the runs of `a + b` are those of `a`, then those of
/// `b`.
pub proof fn lemma_runs_concat<T>(a: Seq<T>, b: Seq<T>, sep: spec_fn(T) -> bool)
    requires
        a.len() == 0 || sep(a.last()),
    ensures
        runs(a + b, sep) == runs(a, sep) + runs(b, sep),
    decreases a.len(),
{
    if a.len() == 0 {
        assert(a + b =~= b);
        assert(runs(a, sep) + runs(b, sep) =~= runs(b, sep));
    } else if sep(a[0]) {
        let t = a.drop_first();
        assert((a + b).drop_first() =~= t + b);
        if t.len() > 0 {
            assert(t.last() == a.last());
        }
        lemma_runs_concat(t, b, sep);
    } else {
        let n = run_len(a, sep);
        lemma_run_len_bounds(a, sep);
        assert(n < a.len()) by {
            if n == a.len() {
                assert(!sep(a[a.len() - 1]));
            }
        }
        assert forall|i: int| 0 <= i < n implies !sep(#[trigger] (a + b)[i]) by {
            assert((a + b)[i] == a[i]);
        }
        assert((a + b)[n] == a[n]);
        lemma_run_len_is(a + b, sep, n);
        let t = a.skip(n);
        assert(t.last() == a.last());
        assert((a + b).skip(n) =~= t + b);
        assert((a + b).take(n) =~= a.take(n));
        lemma_runs_concat(t, b, sep);
        assert(runs(a + b, sep) =~= runs(a, sep) + runs(b, sep));
    }
}

/// One step of a scan for runs. From position `i`, separators fill
/// `[i, start)` and a run fills `[start, end)`, bounded by a separator or by
/// the end of `s`. Then that run is the first one from `i` on, and the scan
/// goes on from `end`; where the run is empty, none is left.
pub proof fn lemma_runs_step<T>(s: Seq<T>, sep: spec_fn(T) -> bool, i: int, start: int, end: int)
    requires
        0 <= i <= start <= end <= s.len(),
        forall|k: int| i <= k < start ==> sep(#[trigger] s[k]),
        forall|k: int| start <= k < end ==> !sep(#[trigger] s[k]),
        end < s.len() ==> sep(s[end]),
        start == end ==> start == s.len(),
    ensures
        start == end ==> runs(s.skip(i), sep) == Seq::<Seq<T>>::empty(),
        start < end ==> runs(s.skip(i), sep) == seq![s.subrange(start, end)] + runs(
            s.skip(end),
            sep,
        ),
{
    let from_i = s.skip(i);
    assert forall|k: int| 0 <= k < start - i implies sep(#[trigger] from_i[k]) by {
        assert(from_i[k] == s[i + k]);
    }
    lemma_runs_skip_separators(from_i, sep, start - i);
    let from_start = s.skip(start);
    assert(from_i.skip(start - i) =~= from_start);
    if start == end {
        assert(from_start =~= Seq::<T>::empty());
    } else {
        let n = end - start;
        assert forall|k: int| 0 <= k < n implies !sep(#[trigger] from_start[k]) by {
            assert(from_start[k] == s[start + k]);
        }
        if n < from_start.len() {
            assert(from_start[n] == s[end]);
        }
        lemma_run_len_is(from_start, sep, n);
        assert(!sep(from_start[0]));
        assert(from_start.take(n) =~= s.subrange(start, end));
        assert(from_start.skip(n) =~= s.skip(end));
    }
}

} // verus!
