//! Maximal runs in a mask: the shape shared by words, marks and phoneme groups.

use vstd::prelude::*;

verus! {

/// The first place at or after `i` where the mask reads `v`, or its length.
pub open spec fn next_at(mask: Seq<bool>, v: bool, i: int) -> int
    decreases mask.len() - i,
{
    if i >= mask.len() || mask[i] == v {
        i
    } else {
        next_at(mask, v, i + 1)
    }
}

/// The maximal runs of `true` that lie at or after `i`, from left to right,
/// each as its first place and the place behind its last.
pub open spec fn runs_from(mask: Seq<bool>, i: int) -> Seq<(int, int)>
    decreases mask.len() - i,
    via runs_from_decreases
{
    let a = next_at(mask, true, i);
    let b = next_at(mask, false, a);
    if i < 0 || a >= mask.len() {
        Seq::empty()
    } else {
        seq![(a, b)] + runs_from(mask, b)
    }
}

#[via_fn]
proof fn runs_from_decreases(mask: Seq<bool>, i: int) {
    let a = next_at(mask, true, i);
    lemma_next_at(mask, true, i);
    lemma_next_at(mask, false, a);
}

/// The maximal runs of `true` in a mask.
pub open spec fn runs(mask: Seq<bool>) -> Seq<(int, int)> {
    runs_from(mask, 0)
}

/// `next_at` passes over the other value only.
pub proof fn lemma_next_at(mask: Seq<bool>, v: bool, i: int)
    ensures
        i <= next_at(mask, v, i),
        i <= mask.len() ==> next_at(mask, v, i) <= mask.len(),
        0 <= next_at(mask, v, i) < mask.len() ==> mask[next_at(mask, v, i)] == v,
        forall|k: int| i <= k < next_at(mask, v, i) ==> #[trigger] mask[k] != v,
    decreases mask.len() - i,
{
    if i < mask.len() && mask[i] != v {
        lemma_next_at(mask, v, i + 1);
    }
}

/// The place where a stretch of the other value ends is `next_at`.
pub proof fn lemma_next_at_is(mask: Seq<bool>, v: bool, i: int, j: int)
    requires
        0 <= i <= j <= mask.len(),
        forall|k: int| i <= k < j ==> #[trigger] mask[k] != v,
        j < mask.len() ==> mask[j] == v,
    ensures
        next_at(mask, v, i) == j,
{
    lemma_next_at(mask, v, i);
    let n = next_at(mask, v, i);
    if n < j {
        assert(mask[n] != v);
    }
    if j < n {
        assert(mask[j] != v);
    }
}

/// What makes a list of runs the runs of a mask from `i` on: they are made of
/// `true`, they are bounded by `false`, they follow one another with something
/// between, and nothing that is `true` lies outside them.
pub open spec fn are_runs(mask: Seq<bool>, i: int, r: Seq<(int, int)>) -> bool {
    &&& forall|k: int|
        0 <= k < r.len() ==> {
            &&& i <= (#[trigger] r[k]).0 < r[k].1 <= mask.len()
            &&& r[k].1 < mask.len() ==> !mask[r[k].1]
            &&& (r[k].0 > i ==> !mask[r[k].0 - 1])
            &&& forall|x: int| r[k].0 <= x < r[k].1 ==> #[trigger] mask[x]
        }
    &&& forall|k: int, l: int|
        0 <= k < l < r.len() ==> (#[trigger] r[k]).1 < (#[trigger] r[l]).0
    &&& forall|x: int|
        i <= x < mask.len() && #[trigger] mask[x] ==> exists|k: int|
            0 <= k < r.len() && (#[trigger] r[k]).0 <= x < r[k].1
}

/// `runs_from` is the list of runs.
pub proof fn lemma_runs_from(mask: Seq<bool>, i: int)
    requires
        0 <= i <= mask.len(),
    ensures
        are_runs(mask, i, runs_from(mask, i)),
    decreases mask.len() - i,
{
    let a = next_at(mask, true, i);
    let b = next_at(mask, false, a);
    lemma_next_at(mask, true, i);
    lemma_next_at(mask, false, a);
    let r = runs_from(mask, i);
    if a >= mask.len() {
        assert(r == Seq::<(int, int)>::empty());
    } else {
        lemma_runs_from(mask, b);
        let rest = runs_from(mask, b);
        assert(r == seq![(a, b)] + rest);
        assert forall|k: int| 0 < k < r.len() implies #[trigger] r[k] == rest[k - 1] by {}
        assert forall|k: int| 0 <= k < r.len() implies {
            &&& i <= (#[trigger] r[k]).0 < r[k].1 <= mask.len()
            &&& r[k].1 < mask.len() ==> !mask[r[k].1]
            &&& (r[k].0 > i ==> !mask[r[k].0 - 1])
            &&& forall|x: int| r[k].0 <= x < r[k].1 ==> #[trigger] mask[x]
        } by {
            if k > 0 {
                let q = rest[k - 1];
                assert(r[k] == q);
                assert(b <= q.0);
                if q.0 == b {
                    assert(mask[q.0]);
                }
            } else if a > i {
                assert(mask[a - 1] != true);
            }
        }
        assert forall|k: int, l: int| 0 <= k < l < r.len() implies (#[trigger] r[k]).1 < (
        #[trigger] r[l]).0 by {
            assert(r[l] == rest[l - 1]);
            if k == 0 {
                let q = rest[l - 1];
                assert(mask[q.0]);
                assert(b < mask.len());
            } else {
                assert(r[k] == rest[k - 1]);
            }
        }
        assert forall|x: int| i <= x < mask.len() && #[trigger] mask[x] implies exists|k: int|
            0 <= k < r.len() && (#[trigger] r[k]).0 <= x < r[k].1 by {
            if x < a {
                assert(mask[x] != true);
            } else if x < b {
                assert(r[0].0 <= x < r[0].1);
            } else {
                let k = choose|k: int| 0 <= k < rest.len() && (#[trigger] rest[k]).0 <= x < rest[k].1;
                assert(r[k + 1] == rest[k]);
            }
        }
    }
}

/// The runs of a mask are its maximal stretches of `true`, in order.
pub proof fn lemma_runs(mask: Seq<bool>)
    ensures
        are_runs(mask, 0, runs(mask)),
{
    lemma_runs_from(mask, 0);
}

/// Pairs of machine integers as pairs of mathematical ones.
pub open spec fn pairs(v: Seq<(usize, usize)>) -> Seq<(int, int)> {
    v.map_values(|p: (usize, usize)| (p.0 as int, p.1 as int))
}

/// The maximal runs of `true` in a mask.
pub fn find_runs(mask: &[bool]) -> (r: Vec<(usize, usize)>)
    ensures
        pairs(r@) == runs(mask@),
{
    let mut r: Vec<(usize, usize)> = Vec::new();
    let mut i: usize = 0;
    assert(pairs(r@) + runs_from(mask@, 0) =~= runs(mask@));
    while i < mask.len()
        invariant
            i <= mask.len(),
            pairs(r@) + runs_from(mask@, i as int) == runs(mask@),
        ensures
            i == mask.len(),
        decreases mask.len() - i,
    {
        let start: usize = i;
        while i < mask.len() && !mask[i]
            invariant
                start <= i <= mask.len(),
                forall|k: int| start <= k < i ==> #[trigger] mask@[k] != true,
            decreases mask.len() - i,
        {
            i += 1;
        }
        proof {
            lemma_next_at_is(mask@, true, start as int, i as int);
        }
        if i >= mask.len() {
            assert(runs_from(mask@, start as int) =~= Seq::empty());
            assert(runs_from(mask@, i as int) =~= Seq::empty());
            break ;
        }
        let st: usize = i;
        while i < mask.len() && mask[i]
            invariant
                st <= i <= mask.len(),
                forall|k: int| st <= k < i ==> #[trigger] mask@[k] != false,
            decreases mask.len() - i,
        {
            i += 1;
        }
        proof {
            lemma_next_at_is(mask@, false, st as int, i as int);
        }
        let ghost before = r@;
        r.push((st, i));
        assert(pairs(r@) =~= pairs(before).push((st as int, i as int)));
        assert(pairs(before) + runs_from(mask@, start as int) =~= pairs(r@) + runs_from(
            mask@,
            i as int,
        ));
    }
    assert(runs_from(mask@, i as int) =~= Seq::empty());
    assert(pairs(r@) + runs_from(mask@, i as int) =~= pairs(r@));
    r
}

} // verus!
