//! Facts about sequences.

use vstd::prelude::*;

verus! {

/// What a filter keeps stood in the sequence.
pub proof fn lemma_filter_source<A>(s: Seq<A>, keep: spec_fn(A) -> bool, k: int) -> (q: int)
    requires
        0 <= k < s.filter(keep).len(),
    ensures
        0 <= q < s.len(),
        s[q] == s.filter(keep)[k],
        keep(s[q]),
    decreases s.len(),
{
    reveal(Seq::filter);
    let front = s.drop_last();
    if k < front.filter(keep).len() {
        let q = lemma_filter_source(front, keep, k);
        assert(s[q] == front[q]);
        q
    } else {
        s.len() - 1
    }
}

/// What stood in the sequence and passes the filter is kept.
pub proof fn lemma_filter_keeps<A>(s: Seq<A>, keep: spec_fn(A) -> bool, q: int) -> (k: int)
    requires
        0 <= q < s.len(),
        keep(s[q]),
    ensures
        0 <= k < s.filter(keep).len(),
        s.filter(keep)[k] == s[q],
    decreases s.len(),
{
    reveal(Seq::filter);
    let front = s.drop_last();
    if q < s.len() - 1 {
        let k = lemma_filter_keeps(front, keep, q);
        assert(front[q] == s[q]);
        k
    } else {
        s.filter(keep).len() - 1
    }
}

/// A filter that every element passes leaves all of them.
pub proof fn lemma_all_kept<A>(s: Seq<A>, keep: spec_fn(A) -> bool)
    requires
        forall|k: int| 0 <= k < s.len() ==> keep(#[trigger] s[k]),
    ensures
        s.filter(keep) == s,
    decreases s.len(),
{
    reveal(Seq::filter);
    if s.len() > 0 {
        lemma_all_kept(s.drop_last(), keep);
        assert(s.drop_last().push(s.last()) =~= s);
    }
}

/// A filter that no element passes leaves nothing.
pub proof fn lemma_none_kept<A>(s: Seq<A>, keep: spec_fn(A) -> bool)
    requires
        forall|k: int| 0 <= k < s.len() ==> !keep(#[trigger] s[k]),
    ensures
        s.filter(keep).len() == 0,
    decreases s.len(),
{
    reveal(Seq::filter);
    if s.len() > 0 {
        lemma_none_kept(s.drop_last(), keep);
        assert(!keep(s[s.len() - 1]));
    }
}

/// A filter works piece by piece.
pub proof fn lemma_filter_append<A>(a: Seq<A>, b: Seq<A>, keep: spec_fn(A) -> bool)
    ensures
        (a + b).filter(keep) == a.filter(keep) + b.filter(keep),
    decreases b.len(),
{
    reveal(Seq::filter);
    if b.len() == 0 {
        assert(a + b =~= a);
        assert(a.filter(keep) + b.filter(keep) =~= a.filter(keep));
    } else {
        lemma_filter_append(a, b.drop_last(), keep);
        assert((a + b).drop_last() =~= a + b.drop_last());
        assert((a + b).filter(keep) =~= a.filter(keep) + b.filter(keep));
    }
}

/// A filter that passes all that a second one passes makes no difference to it.
pub proof fn lemma_filter_twice<A>(s: Seq<A>, wide: spec_fn(A) -> bool, keep: spec_fn(A) -> bool)
    requires
        forall|x: A| #[trigger] keep(x) ==> wide(x),
    ensures
        s.filter(wide).filter(keep) == s.filter(keep),
    decreases s.len(),
{
    reveal(Seq::filter);
    if s.len() > 0 {
        let front = s.drop_last();
        lemma_filter_twice(front, wide, keep);
        if wide(s.last()) {
            assert(s.filter(wide).drop_last() =~= front.filter(wide));
        }
    }
}

/// Lists flatten piece by piece.
pub proof fn lemma_flatten_first<A>(s: Seq<Seq<A>>)
    requires
        s.len() > 0,
    ensures
        s.flatten() == s[0] + s.drop_first().flatten(),
{
    reveal(Seq::flatten);
}

/// What two filters keep, one behind the other, is what passes both.
pub proof fn lemma_filter_both<A>(
    s: Seq<A>,
    first: spec_fn(A) -> bool,
    second: spec_fn(A) -> bool,
    both: spec_fn(A) -> bool,
)
    requires
        forall|x: A| #[trigger] both(x) <==> first(x) && second(x),
    ensures
        s.filter(first).filter(second) == s.filter(both),
    decreases s.len(),
{
    reveal(Seq::filter);
    if s.len() > 0 {
        let front = s.drop_last();
        lemma_filter_both(front, first, second, both);
        assert(both(s.last()) <==> first(s.last()) && second(s.last()));
        if first(s.last()) {
            assert(s.filter(first).drop_last() =~= front.filter(first));
        }
    }
}

} // verus!
