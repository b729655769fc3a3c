//! Phoneme strings: cut into batches the model takes, and into the words its
//! durations are summed over.

use crate::g2p::{tokens, G2p, MAX_PHONEME_LENGTH};
use crate::runs::{
    find_runs, lemma_next_at, lemma_next_at_is, lemma_runs, next_at, pairs, runs, runs_from,
};
use crate::seqs::{lemma_all_kept, lemma_filter_append, lemma_filter_twice, lemma_none_kept};
use crate::text::{
    alphanumeric, chars_of, glued, lemma_glued_first, lemma_glued_keeps, lists, other_than,
    push_all, slice_of, string_of, texts, without,
};
use vstd::prelude::*;

verus! {

/// Which phonemes are not a space.
pub open spec fn unspaced(s: Seq<char>) -> Seq<bool> {
    Seq::new(s.len(), |i: int| s[i] != ' ')
}

/// Where the words of a phoneme string lie: the runs between spaces.
pub open spec fn phoneme_runs(s: Seq<char>) -> Seq<(int, int)> {
    runs(unspaced(s))
}

fn find_phoneme_runs(s: &Vec<char>) -> (r: Vec<(usize, usize)>)
    ensures
        pairs(r@) == phoneme_runs(s@),
        forall|i: int| 0 <= i < r.len() ==> (#[trigger] r@[i]).0 < r@[i].1 <= s.len(),
{
    let mut mask: Vec<bool> = Vec::new();
    let mut i: usize = 0;
    while i < s.len()
        invariant
            i <= s.len(),
            mask@ == unspaced(s@).take(i as int),
        decreases s.len() - i,
    {
        mask.push(s[i] != ' ');
        i += 1;
        assert(mask@ =~= unspaced(s@).take(i as int));
    }
    assert(mask@ =~= unspaced(s@));
    let r = find_runs(mask.as_slice());
    proof {
        lemma_runs(mask@);
        assert forall|i: int| 0 <= i < r.len() implies (#[trigger] r@[i]).0 < r@[i].1
            <= s.len() by {
            assert(pairs(r@)[i] == (r@[i].0 as int, r@[i].1 as int));
        }
    }
    r
}

/// A word in pieces of at most `MAX_PHONEME_LENGTH` phonemes.
pub open spec fn chunked(w: Seq<char>) -> Seq<Seq<char>>
    decreases w.len(),
{
    if w.len() <= MAX_PHONEME_LENGTH {
        seq![w]
    } else {
        seq![w.take(MAX_PHONEME_LENGTH as int)] + chunked(w.skip(MAX_PHONEME_LENGTH as int))
    }
}

/// The words at the given places, in pieces the model can take.
pub open spec fn units_at(s: Seq<char>, r: Seq<(int, int)>) -> Seq<Seq<char>>
    decreases r.len(),
{
    if r.len() == 0 {
        Seq::empty()
    } else {
        units_at(s, r.drop_last()) + chunked(s.subrange(r.last().0, r.last().1))
    }
}

/// What batches are made of: the words of a phoneme string, one that is too long
/// for the model in pieces.
pub open spec fn units(s: Seq<char>) -> Seq<Seq<char>> {
    units_at(s, phoneme_runs(s))
}

/// The batches that are full, and the one being filled, after the given units:
/// each goes to the current batch if it fits there.
pub open spec fn packed(u: Seq<Seq<char>>) -> (Seq<Seq<char>>, Seq<char>)
    decreases u.len(),
{
    if u.len() == 0 {
        (Seq::empty(), Seq::empty())
    } else {
        let (full, cur) = packed(u.drop_last());
        if cur.len() == 0 {
            (full, u.last())
        } else if cur.len() + 1 + u.last().len() <= MAX_PHONEME_LENGTH {
            (full, cur.push(' ') + u.last())
        } else {
            (full.push(cur), u.last())
        }
    }
}

/// The batches made of the given units.
pub open spec fn batches_of(u: Seq<Seq<char>>) -> Seq<Seq<char>> {
    let (full, cur) = packed(u);
    if cur.len() > 0 {
        full.push(cur)
    } else {
        full
    }
}

/// The batches of a phoneme string.
pub open spec fn batches(s: Seq<char>) -> Seq<Seq<char>> {
    batches_of(units(s))
}

fn push_chunks(s: &Vec<char>, a: usize, b: usize, out: &mut Vec<Vec<char>>)
    requires
        a <= b <= s.len(),
    ensures
        lists(final(out)@) == lists(old(out)@) + chunked(s@.subrange(a as int, b as int)),
{
    let ghost base = lists(out@);
    let ghost all = chunked(s@.subrange(a as int, b as int));
    let mut i: usize = a;
    let ghost mut done: Seq<Seq<char>> = Seq::empty();
    assert(done + all =~= all);
    assert(base + done =~= base);
    while b - i > MAX_PHONEME_LENGTH
        invariant
            a <= i <= b <= s.len(),
            done + chunked(s@.subrange(i as int, b as int)) == all,
            lists(out@) == base + done,
        decreases b - i,
    {
        let ghost w = s@.subrange(i as int, b as int);
        let ghost before = out@;
        let ghost was = done;
        let piece = slice_of(s.as_slice(), i, i + MAX_PHONEME_LENGTH);
        assert(piece@ =~= w.take(MAX_PHONEME_LENGTH as int));
        out.push(piece);
        proof {
            done = done.push(piece@);
        }
        assert(lists(out@) =~= lists(before).push(piece@));
        i += MAX_PHONEME_LENGTH;
        assert(w.skip(MAX_PHONEME_LENGTH as int) =~= s@.subrange(i as int, b as int));
        assert(done + chunked(s@.subrange(i as int, b as int)) =~= was + chunked(w));
        assert(lists(out@) =~= base + done);
    }
    let ghost before = out@;
    let piece = slice_of(s.as_slice(), i, b);
    out.push(piece);
    assert(lists(out@) =~= lists(before).push(piece@));
    assert(all =~= done.push(piece@));
    assert(lists(out@) =~= base + all);
}

/// Batch a phoneme string under the model's limit, breaking at spaces: a batch
/// never exceeds `MAX_PHONEME_LENGTH`.
pub fn split_phonemes(phonemes: &str) -> (r: Vec<String>)
    ensures
        texts(r@) == batches(phonemes@),
{
    let s = chars_of(phonemes);
    let found = find_phoneme_runs(&s);
    let ghost all = phoneme_runs(s@);
    assert(pairs(found@).len() == found.len());
    let mut u: Vec<Vec<char>> = Vec::new();
    let mut k: usize = 0;
    assert(lists(u@) =~= units_at(s@, all.take(0)));
    while k < found.len()
        invariant
            k <= found.len(),
            pairs(found@) == all,
            all.len() == found.len(),
            forall|i: int|
                0 <= i < found.len() ==> (#[trigger] found@[i]).0 < found@[i].1 <= s.len(),
            lists(u@) == units_at(s@, all.take(k as int)),
        decreases found.len() - k,
    {
        let (a, b) = found[k];
        assert(all[k as int] == (a as int, b as int));
        assert(all.take(k + 1).drop_last() =~= all.take(k as int));
        push_chunks(&s, a, b, &mut u);
        k += 1;
    }
    assert(all.take(k as int) =~= all);
    let ghost all_units = lists(u@);
    let mut full: Vec<String> = Vec::new();
    let mut cur: Vec<char> = Vec::new();
    let mut i: usize = 0;
    assert(all_units.len() == u.len());
    proof {
        lemma_units_fit(s@, all);
    }
    assert(texts(full@) =~= packed(all_units.take(0)).0);
    assert(cur@ =~= packed(all_units.take(0)).1);
    while i < u.len()
        invariant
            i <= u.len(),
            all_units == lists(u@),
            forall|j: int|
                0 <= j < all_units.len() ==> (#[trigger] all_units[j]).len() <= MAX_PHONEME_LENGTH,
            cur.len() <= MAX_PHONEME_LENGTH,
            (texts(full@), cur@) == packed(all_units.take(i as int)),
        decreases u.len() - i,
    {
        assert(all_units.take(i + 1).drop_last() =~= all_units.take(i as int));
        assert(all_units[i as int] == u@[i as int]@);
        let ghost before = full@;
        let ghost c = cur@;
        if cur.len() > 0 && cur.len() + 1 + u[i].len() > MAX_PHONEME_LENGTH {
            full.push(string_of(cur.as_slice()));
            assert(texts(full@) =~= texts(before).push(c));
            cur = Vec::new();
        }
        if cur.len() > 0 {
            cur.push(' ');
        }
        push_all(&mut cur, u[i].as_slice());
        proof {
            if c.len() == 0 || c.len() + 1 + u@[i as int].len() > MAX_PHONEME_LENGTH {
                assert(cur@ =~= u@[i as int]@);
            }
        }
        i += 1;
    }
    assert(all_units.take(i as int) =~= all_units);
    if cur.len() > 0 {
        let ghost before = full@;
        full.push(string_of(cur.as_slice()));
        assert(texts(full@) =~= texts(before).push(cur@));
    }
    full
}

proof fn lemma_chunked_fits(w: Seq<char>)
    ensures
        chunked(w).len() > 0,
        forall|j: int|
            0 <= j < chunked(w).len() ==> (#[trigger] chunked(w)[j]).len() <= MAX_PHONEME_LENGTH,
        w.len() > 0 ==> forall|j: int|
            0 <= j < chunked(w).len() ==> (#[trigger] chunked(w)[j]).len() > 0,
        forall|j: int|
            0 <= j < chunked(w).len() - 1 ==> (#[trigger] chunked(w)[j]).len()
                == MAX_PHONEME_LENGTH,
        chunked(w).flatten() == w,
    decreases w.len(),
{
    if w.len() <= MAX_PHONEME_LENGTH {
        seq![w].lemma_flatten_one_element();
    } else {
        let n = MAX_PHONEME_LENGTH as int;
        let rest = chunked(w.skip(n));
        lemma_chunked_fits(w.skip(n));
        assert forall|j: int| 0 <= j < chunked(w).len() implies (
        #[trigger] chunked(w)[j]).len() <= MAX_PHONEME_LENGTH && chunked(w)[j].len() > 0 && (j
            < chunked(w).len() - 1 ==> chunked(w)[j].len() == MAX_PHONEME_LENGTH) by {
            if j > 0 {
                assert(chunked(w)[j] == rest[j - 1]);
            }
        }
        seq![w.take(n)].lemma_flatten_one_element();
        vstd::seq_lib::lemma_flatten_concat(seq![w.take(n)], rest);
        assert(w.take(n) + w.skip(n) =~= w);
    }
}

proof fn lemma_units_fit(s: Seq<char>, r: Seq<(int, int)>)
    ensures
        forall|j: int|
            0 <= j < units_at(s, r).len() ==> (#[trigger] units_at(s, r)[j]).len()
                <= MAX_PHONEME_LENGTH,
        (forall|i: int| 0 <= i < r.len() ==> 0 <= (#[trigger] r[i]).0 < r[i].1 <= s.len()) ==> (
        forall|j: int| 0 <= j < units_at(s, r).len() ==> (#[trigger] units_at(s, r)[j]).len() > 0),
    decreases r.len(),
{
    if r.len() > 0 {
        let front = units_at(s, r.drop_last());
        let w = s.subrange(r.last().0, r.last().1);
        let all = units_at(s, r);
        lemma_units_fit(s, r.drop_last());
        lemma_chunked_fits(w);
        assert forall|j: int| 0 <= j < all.len() implies (#[trigger] all[j]).len()
            <= MAX_PHONEME_LENGTH by {
            if j < front.len() {
                assert(all[j] == front[j]);
            } else {
                assert(all[j] == chunked(w)[j - front.len()]);
            }
        }
        if forall|i: int| 0 <= i < r.len() ==> 0 <= (#[trigger] r[i]).0 < r[i].1 <= s.len() {
            assert forall|i: int| 0 <= i < r.drop_last().len() implies 0 <= (
            #[trigger] r.drop_last()[i]).0 < r.drop_last()[i].1 <= s.len() by {
                assert(r.drop_last()[i] == r[i]);
            }
            assert(r[r.len() - 1].0 < r[r.len() - 1].1);
            assert forall|j: int| 0 <= j < all.len() implies (#[trigger] all[j]).len() > 0 by {
                if j < front.len() {
                    assert(all[j] == front[j]);
                } else {
                    assert(all[j] == chunked(w)[j - front.len()]);
                }
            }
        }
    }
}

proof fn lemma_packed_fits(u: Seq<Seq<char>>)
    requires
        forall|j: int| 0 <= j < u.len() ==> 0 < (#[trigger] u[j]).len() <= MAX_PHONEME_LENGTH,
    ensures
        packed(u).1.len() <= MAX_PHONEME_LENGTH,
        u.len() > 0 ==> packed(u).1.len() > 0,
        forall|j: int|
            0 <= j < packed(u).0.len() ==> 0 < (#[trigger] packed(u).0[j]).len()
                <= MAX_PHONEME_LENGTH,
        glued(batches_of(u), seq![' ']) == glued(u, seq![' ']),
    decreases u.len(),
{
    let sep = seq![' '];
    if u.len() > 0 {
        let front = u.drop_last();
        let last = u[u.len() - 1];
        assert(last == u.last());
        assert forall|j: int| 0 <= j < front.len() implies 0 < (#[trigger] front[j]).len()
            <= MAX_PHONEME_LENGTH by {
            assert(front[j] == u[j]);
        }
        lemma_packed_fits(front);
        let (full, cur) = packed(front);
        let b = batches_of(u);
        if cur.len() == 0 {
            assert(front.len() == 0);
            assert(b =~= seq![last]);
            assert(u =~= seq![last]);
        } else {
            assert(batches_of(front) =~= full.push(cur));
            if cur.len() + 1 + last.len() <= MAX_PHONEME_LENGTH {
                let both = cur.push(' ') + last;
                assert(b =~= full.push(both));
                assert(b.drop_last() =~= full);
                assert(full.push(cur).drop_last() =~= full);
                if full.len() == 0 {
                    assert(glued(b, sep) =~= cur + sep + last);
                } else {
                    assert(glued(b, sep) =~= glued(full, sep) + sep + cur + sep + last);
                    assert(glued(full.push(cur), sep) == glued(full, sep) + sep + cur);
                }
                assert(glued(b, sep) =~= glued(front, sep) + sep + last);
            } else {
                assert(b =~= full.push(cur).push(last));
                assert(b.drop_last() =~= full.push(cur));
            }
        }
    } else {
        assert(batches_of(u) =~= u);
    }
}

/// A batch is never empty and never too long for the model, and the batches say
/// one after the other what the units say.
pub proof fn lemma_batches_fit(s: Seq<char>)
    ensures
        forall|j: int|
            0 <= j < batches(s).len() ==> 0 < (#[trigger] batches(s)[j]).len()
                <= MAX_PHONEME_LENGTH,
        glued(batches(s), seq![' ']) == glued(units(s), seq![' ']),
{
    let r = phoneme_runs(s);
    lemma_runs(unspaced(s));
    assert forall|i: int| 0 <= i < r.len() implies 0 <= (#[trigger] r[i]).0 < r[i].1
        <= s.len() by {}
    lemma_units_fit(s, r);
    lemma_packed_fits(units(s));
}

/// Spaces up to `a` and a word from there to `b` leave the word.
proof fn lemma_word_is_left(s: Seq<char>, i: int, a: int, b: int)
    requires
        0 <= i <= a <= b <= s.len(),
        forall|k: int| i <= k < a ==> #[trigger] s[k] == ' ',
        forall|k: int| a <= k < b ==> #[trigger] s[k] != ' ',
    ensures
        without(s.skip(i), ' ') == s.subrange(a, b) + without(s.skip(b), ' '),
{
    let keep = other_than(' ');
    let gap = s.subrange(i, a);
    let w = s.subrange(a, b);
    assert forall|k: int| 0 <= k < gap.len() implies !keep(#[trigger] gap[k]) by {
        assert(s[i + k] == ' ');
    }
    lemma_none_kept(gap, keep);
    assert forall|k: int| 0 <= k < w.len() implies keep(#[trigger] w[k]) by {
        assert(s[a + k] != ' ');
    }
    lemma_all_kept(w, keep);
    lemma_filter_append(gap, w, keep);
    lemma_filter_append(gap + w, s.skip(b), keep);
    assert(s.skip(i) =~= gap + w + s.skip(b));
    assert(gap.filter(keep) + w.filter(keep) =~= w);
}

proof fn lemma_units_from(s: Seq<char>, i: int)
    requires
        0 <= i <= s.len(),
    ensures
        units_at(s, runs_from(unspaced(s), i)).flatten() == without(s.skip(i), ' '),
    decreases s.len() - i,
{
    let mask = unspaced(s);
    let a = next_at(mask, true, i);
    let b = next_at(mask, false, a);
    lemma_next_at(mask, true, i);
    lemma_next_at(mask, false, a);
    assert forall|k: int| i <= k < a implies #[trigger] s[k] == ' ' by {
        assert(mask[k] != true);
    }
    if a >= s.len() {
        lemma_word_is_left(s, i, a, a);
        assert(s.subrange(a, a) + without(s.skip(a), ' ') =~= Seq::empty()) by {
            reveal(Seq::filter);
        }
        assert(units_at(s, runs_from(mask, i)) =~= Seq::empty());
        assert(Seq::<Seq<char>>::empty().flatten() =~= Seq::<char>::empty()) by {
            reveal(Seq::flatten);
        }
    } else {
        assert(mask[a]);
        assert(b > a);
        assert forall|k: int| a <= k < b implies #[trigger] s[k] != ' ' by {
            assert(mask[k] != false);
        }
        let w = s.subrange(a, b);
        let rest = runs_from(mask, b);
        lemma_word_is_left(s, i, a, b);
        lemma_units_from(s, b);
        lemma_units_prepend(s, (a, b), rest);
        lemma_chunked_fits(w);
        vstd::seq_lib::lemma_flatten_concat(chunked(w), units_at(s, rest));
    }
}

proof fn lemma_units_prepend(s: Seq<char>, p: (int, int), r: Seq<(int, int)>)
    ensures
        units_at(s, seq![p] + r) == chunked(s.subrange(p.0, p.1)) + units_at(s, r),
    decreases r.len(),
{
    let all = seq![p] + r;
    let w = chunked(s.subrange(p.0, p.1));
    if r.len() == 0 {
        assert(all =~= seq![p]);
        assert(all.drop_last() =~= Seq::empty());
        assert(units_at(s, all.drop_last()) =~= Seq::empty());
        assert(units_at(s, all) =~= w + units_at(s, r));
    } else {
        lemma_units_prepend(s, p, r.drop_last());
        assert(all.drop_last() =~= seq![p] + r.drop_last());
        assert(units_at(s, all) =~= w + units_at(s, r));
    }
}

/// No phoneme is lost: put together, the units are the phoneme string without its
/// spaces.
pub proof fn lemma_no_phoneme_is_lost(s: Seq<char>)
    ensures
        units(s).flatten() == without(s, ' '),
{
    lemma_units_from(s, 0);
    assert(s.skip(0) =~= s);
}

spec fn all_known(s: Seq<char>, vocab: Map<char, i64>) -> bool {
    forall|k: int| 0 <= k < s.len() ==> vocab.contains_key(#[trigger] s[k])
}

proof fn lemma_chunked_known(w: Seq<char>, vocab: Map<char, i64>)
    requires
        all_known(w, vocab),
    ensures
        forall|j: int| 0 <= j < chunked(w).len() ==> all_known(#[trigger] chunked(w)[j], vocab),
    decreases w.len(),
{
    if w.len() > MAX_PHONEME_LENGTH {
        let n = MAX_PHONEME_LENGTH as int;
        assert(all_known(w.take(n), vocab)) by {
            assert forall|k: int| 0 <= k < n implies vocab.contains_key(
                #[trigger] w.take(n)[k],
            ) by {
                assert(w.take(n)[k] == w[k]);
            }
        }
        assert(all_known(w.skip(n), vocab)) by {
            assert forall|k: int| 0 <= k < w.len() - n implies vocab.contains_key(
                #[trigger] w.skip(n)[k],
            ) by {
                assert(w.skip(n)[k] == w[n + k]);
            }
        }
        lemma_chunked_known(w.skip(n), vocab);
        assert forall|j: int| 0 <= j < chunked(w).len() implies all_known(
            #[trigger] chunked(w)[j],
            vocab,
        ) by {
            if j > 0 {
                assert(chunked(w)[j] == chunked(w.skip(n))[j - 1]);
            }
        }
    }
}

proof fn lemma_units_known(s: Seq<char>, r: Seq<(int, int)>, vocab: Map<char, i64>)
    requires
        all_known(s, vocab),
        forall|i: int| 0 <= i < r.len() ==> 0 <= (#[trigger] r[i]).0 < r[i].1 <= s.len(),
    ensures
        forall|j: int|
            0 <= j < units_at(s, r).len() ==> all_known(#[trigger] units_at(s, r)[j], vocab),
    decreases r.len(),
{
    if r.len() > 0 {
        let front = r.drop_last();
        let p = r[r.len() - 1];
        let w = s.subrange(p.0, p.1);
        assert forall|i: int| 0 <= i < front.len() implies 0 <= (#[trigger] front[i]).0
            < front[i].1 <= s.len() by {
            assert(front[i] == r[i]);
        }
        lemma_units_known(s, front, vocab);
        assert(all_known(w, vocab)) by {
            assert forall|k: int| 0 <= k < w.len() implies vocab.contains_key(
                #[trigger] w[k],
            ) by {
                assert(w[k] == s[p.0 + k]);
            }
        }
        lemma_chunked_known(w, vocab);
        let all = units_at(s, r);
        let n = units_at(s, front).len();
        assert forall|j: int| 0 <= j < all.len() implies all_known(#[trigger] all[j], vocab) by {
            if j < n {
                assert(all[j] == units_at(s, front)[j]);
            } else {
                assert(all[j] == chunked(w)[j - n]);
            }
        }
    }
}

proof fn lemma_packed_known(u: Seq<Seq<char>>, vocab: Map<char, i64>)
    requires
        forall|j: int| 0 <= j < u.len() ==> all_known(#[trigger] u[j], vocab) && u[j].len() > 0,
        vocab.contains_key(' ') || forall|j: int|
            0 <= j < u.len() - 1 ==> (#[trigger] u[j]).len() == MAX_PHONEME_LENGTH,
    ensures
        all_known(packed(u).1, vocab),
        forall|j: int| 0 <= j < packed(u).0.len() ==> all_known(#[trigger] packed(u).0[j], vocab),
        u.len() > 0 && !vocab.contains_key(' ') ==> packed(u).1 == u.last(),
    decreases u.len(),
{
    if u.len() > 0 {
        let front = u.drop_last();
        let last = u[u.len() - 1];
        assert forall|j: int| 0 <= j < front.len() implies all_known(#[trigger] front[j], vocab)
            && front[j].len() > 0 by {
            assert(front[j] == u[j]);
        }
        if !vocab.contains_key(' ') {
            assert forall|j: int| 0 <= j < front.len() - 1 implies (#[trigger] front[j]).len()
                == MAX_PHONEME_LENGTH by {
                assert(front[j] == u[j]);
            }
            if front.len() > 0 {
                assert(u[u.len() - 2].len() == MAX_PHONEME_LENGTH);
                assert(front.last() == u[u.len() - 2]);
            }
        }
        lemma_packed_known(front, vocab);
        let (full, cur) = packed(front);
        let both = cur.push(' ') + last;
        if vocab.contains_key(' ') {
            assert(all_known(both, vocab)) by {
                assert forall|k: int| 0 <= k < both.len() implies vocab.contains_key(
                    #[trigger] both[k],
                ) by {
                    if k < cur.len() {
                        assert(both[k] == cur[k]);
                    } else if k > cur.len() {
                        assert(both[k] == last[k - cur.len() - 1]);
                    }
                }
            }
        }
    }
}

/// Durations line up with phonemes: every phoneme of a batch of known phonemes
/// becomes one token.
pub proof fn lemma_tokens_line_up(s: Seq<char>, vocab: Map<char, i64>, j: int)
    requires
        forall|k: int| 0 <= k < s.len() ==> vocab.contains_key(#[trigger] s[k]),
        0 <= j < batches(s).len(),
    ensures
        tokens(batches(s)[j], vocab).len() == batches(s)[j].len(),
{
    let mask = unspaced(s);
    let r = phoneme_runs(s);
    let u = units(s);
    lemma_runs(mask);
    assert forall|i: int| 0 <= i < r.len() implies 0 <= (#[trigger] r[i]).0 < r[i].1
        <= s.len() by {}
    lemma_units_fit(s, r);
    lemma_units_known(s, r, vocab);
    if !vocab.contains_key(' ') {
        assert forall|k: int| 0 <= k < s.len() implies #[trigger] mask[k] != false by {
            assert(vocab.contains_key(s[k]));
        }
        if s.len() > 0 {
            assert(mask[0] != false);
            lemma_next_at_is(mask, true, 0, 0);
            lemma_next_at_is(mask, false, 0, s.len() as int);
            lemma_next_at_is(mask, true, s.len() as int, s.len() as int);
            assert(runs_from(mask, s.len() as int) =~= Seq::empty());
            assert(r =~= seq![(0int, s.len() as int)]);
            lemma_units_prepend(s, (0int, s.len() as int), Seq::empty());
            assert(seq![(0int, s.len() as int)] + Seq::empty() =~= r);
            assert(s.subrange(0, s.len() as int) =~= s);
            assert(u =~= chunked(s));
            lemma_chunked_fits(s);
        } else {
            assert(u =~= Seq::empty());
        }
    }
    lemma_packed_known(u, vocab);
    let b = batches(s)[j];
    assert(all_known(b, vocab));
    lemma_all_kept(b, crate::g2p::known(vocab));
}

/// One run of the model: the phonemes it speaks and their ids.
#[derive(Debug)]
pub struct Batch {
    pub phonemes: String,
    pub ids: Vec<i64>,
}

/// The batches that have anything to say to the model.
pub open spec fn voiced_batches(s: Seq<char>, vocab: Map<char, i64>) -> Seq<Seq<char>> {
    batches(s).filter(has_tokens(vocab))
}

pub open spec fn has_tokens(vocab: Map<char, i64>) -> spec_fn(Seq<char>) -> bool {
    |b: Seq<char>| tokens(b, vocab).len() > 0
}

/// The model's runs for a phoneme string.
pub fn plan_batches(g2p: &G2p, phonemes: &str) -> (r: Vec<Batch>)
    ensures
        r@.map_values(|b: Batch| b.phonemes@) == voiced_batches(phonemes@, g2p.vocab@),
        forall|i: int|
            0 <= i < r.len() ==> (#[trigger] r@[i]).ids@ == tokens(r@[i].phonemes@, g2p.vocab@),
{
    let parts = split_phonemes(phonemes);
    let ghost all = texts(parts@);
    let ghost keep = has_tokens(g2p.vocab@);
    let mut r: Vec<Batch> = Vec::new();
    let mut i: usize = 0;
    assert(all.len() == parts.len());
    assert(r@.map_values(|b: Batch| b.phonemes@) =~= all.take(0).filter(keep)) by {
        reveal(Seq::filter);
    }
    while i < parts.len()
        invariant
            i <= parts.len(),
            all == texts(parts@),
            keep == has_tokens(g2p.vocab@),
            r@.map_values(|b: Batch| b.phonemes@) == all.take(i as int).filter(keep),
            forall|k: int|
                0 <= k < r.len() ==> (#[trigger] r@[k]).ids@ == tokens(
                    r@[k].phonemes@,
                    g2p.vocab@,
                ),
        decreases parts.len() - i,
    {
        assert(all.take(i + 1) =~= all.take(i as int).push(all[i as int]));
        proof {
            all.take(i as int).lemma_filter_push(all[i as int], keep);
        }
        let ghost before = r@.map_values(|b: Batch| b.phonemes@);
        let phonemes = parts[i].clone();
        let ids = g2p.tokenize(phonemes.as_str());
        if ids.len() > 0 {
            r.push(Batch { phonemes, ids });
            assert(r@.map_values(|b: Batch| b.phonemes@) =~= before.push(all[i as int]));
        }
        i += 1;
    }
    assert(all.take(i as int) =~= all);
    r
}

/// The model's input for a batch: its ids between two pads.
pub fn padded(ids: &Vec<i64>) -> (r: Vec<i64>)
    ensures
        r@ == seq![0i64] + ids@ + seq![0i64],
{
    let mut r: Vec<i64> = Vec::new();
    r.push(0);
    let mut i: usize = 0;
    assert(r@ =~= seq![0i64] + ids@.take(0));
    while i < ids.len()
        invariant
            i <= ids.len(),
            r@ == seq![0i64] + ids@.take(i as int),
        decreases ids.len() - i,
    {
        r.push(ids[i]);
        i += 1;
        assert(r@ =~= seq![0i64] + ids@.take(i as int));
    }
    r.push(0);
    assert(r@ =~= seq![0i64] + ids@ + seq![0i64]);
    r
}

/// The words that `n` durations cover. The duration of the phoneme at `k` is the
/// one at `k + 1`, and a word counts if the one behind its last is still there.
pub open spec fn timed(r: Seq<(int, int)>, n: int) -> Seq<(int, int)>
    decreases r.len(),
{
    if r.len() == 0 || r[0].1 + 1 >= n {
        Seq::empty()
    } else {
        seq![r[0]] + timed(r.drop_first(), n)
    }
}

/// A word of a batch: its phonemes, and which durations are its own.
#[derive(Debug)]
pub struct Timed {
    pub phonemes: String,
    pub first: usize,
    pub last: usize,
    /// A space follows, whose duration comes behind the word's own.
    pub spaced: bool,
}

impl Timed {
    /// This is the word that lies at `p` in a batch: it is made of the phonemes
    /// there, and its durations are those from `first` up to `last`.
    pub open spec fn is_at(&self, s: Seq<char>, p: (int, int)) -> bool {
        &&& self.phonemes@ == s.subrange(p.0, p.1)
        &&& self.first == p.0 + 1
        &&& self.last == p.1 + 1
        &&& self.spaced == (p.1 < s.len())
    }
}

/// The words of a batch whose durations the model gave.
pub fn timed_words(phonemes: &str, n: usize) -> (r: Vec<Timed>)
    ensures
        r.len() == timed(phoneme_runs(phonemes@), n as int).len(),
        forall|i: int|
            0 <= i < r.len() ==> (#[trigger] r@[i]).is_at(
                phonemes@,
                timed(phoneme_runs(phonemes@), n as int)[i],
            ),
        forall|i: int|
            0 <= i < r.len() ==> {
                let (a, b) = timed(phoneme_runs(phonemes@), n as int)[i];
                let x = #[trigger] r@[i];
                &&& x.phonemes@ == phonemes@.subrange(a, b)
                &&& x.first == a + 1 && x.last == b + 1
                &&& x.spaced == (b < phonemes@.len())
            },
{
    let s = chars_of(phonemes);
    let found = find_phoneme_runs(&s);
    let ghost all = phoneme_runs(s@);
    assert(pairs(found@).len() == found.len());
    let ghost whole = timed(all, n as int);
    let mut r: Vec<Timed> = Vec::new();
    let mut k: usize = 0;
    assert(all.skip(0) =~= all);
    while k < found.len() && found[k].1 < n && n - found[k].1 > 1
        invariant
            k <= found.len(),
            s@ == phonemes@,
            pairs(found@) == all,
            all.len() == found.len(),
            forall|i: int|
                0 <= i < found.len() ==> (#[trigger] found@[i]).0 < found@[i].1 <= s.len(),
            r.len() == k,
            whole.len() == k + timed(all.skip(k as int), n as int).len(),
            forall|i: int|
                0 <= i < timed(all.skip(k as int), n as int).len() ==> whole[k + i] == (
                #[trigger] timed(all.skip(k as int), n as int)[i]),
            forall|i: int| 0 <= i < k ==> (#[trigger] r@[i]).is_at(s@, whole[i]),
        decreases found.len() - k,
    {
        let (a, b) = found[k];
        let ghost rest = all.skip(k as int);
        let ghost here = timed(rest, n as int);
        assert(all[k as int] == (a as int, b as int));
        assert(rest[0] == all[k as int]);
        assert(rest.drop_first() =~= all.skip(k + 1));
        assert(here[0] == (a as int, b as int));
        assert(whole[k + 0] == here[0]);
        let word = slice_of(s.as_slice(), a, b);
        r.push(
            Timed {
                phonemes: string_of(word.as_slice()),
                first: a + 1,
                last: b + 1,
                spaced: b < s.len(),
            },
        );
        let ghost next = timed(all.skip(k + 1), n as int);
        assert forall|i: int| 0 <= i < next.len() implies whole[k + 1 + i] == (
        #[trigger] next[i]) by {
            assert(here[i + 1] == next[i]);
            assert(whole[k + (i + 1)] == here[i + 1]);
        }
        k += 1;
    }
    proof {
        let rest = all.skip(k as int);
        if k < found.len() {
            assert(all[k as int] == (found@[k as int].0 as int, found@[k as int].1 as int));
            assert(rest[0] == all[k as int]);
        }
        assert(timed(rest, n as int) =~= Seq::empty());
    }
    r
}

/// Does a word hold anything but punctuation?
pub open spec fn lettered(w: Seq<char>) -> bool {
    exists|k: int| 0 <= k < w.len() && alphanumeric(#[trigger] w[k])
}

fn is_lettered(w: &str) -> (b: bool)
    ensures
        b == lettered(w@),
{
    let s = chars_of(w);
    let mut i: usize = 0;
    while i < s.len()
        invariant
            i <= s.len(),
            s@ == w@,
            forall|k: int| 0 <= k < i ==> !alphanumeric(#[trigger] s@[k]),
        decreases s.len() - i,
    {
        if s[i].is_alphanumeric() {
            assert(alphanumeric(w@[i as int]));
            return true;
        }
        i += 1;
    }
    false
}

/// The places of the words that are more than punctuation.
pub open spec fn letter_places(w: Seq<Seq<char>>) -> Seq<int>
    decreases w.len(),
{
    if w.len() == 0 {
        Seq::empty()
    } else if lettered(w.last()) {
        letter_places(w.drop_last()).push(w.len() - 1)
    } else {
        letter_places(w.drop_last())
    }
}

/// A phoneme-word with the punctuation around it: it sounds as the `core`, and
/// lasts from the start of `first` to the end of `last`.
#[derive(Debug, Clone, Copy, PartialEq, Eq, Structural)]
pub struct Group {
    pub core: usize,
    pub first: usize,
    pub last: usize,
}

/// Where punctuation goes: what leads belongs to the first word, all else to the
/// word before it; alone it is a word of its own.
pub open spec fn grouped(w: Seq<Seq<char>>) -> Seq<(int, int, int)> {
    let at = letter_places(w);
    if w.len() == 0 {
        Seq::empty()
    } else if at.len() == 0 {
        seq![(0int, 0int, w.len() - 1)]
    } else {
        Seq::new(
            at.len(),
            |k: int|
                (
                    at[k],
                    if k == 0 {
                        0
                    } else {
                        at[k]
                    },
                    if k + 1 < at.len() {
                        at[k + 1] - 1
                    } else {
                        w.len() - 1
                    },
                ),
        )
    }
}

/// A list of groups as plain numbers.
pub open spec fn groups_view(g: Seq<Group>) -> Seq<(int, int, int)> {
    g.map_values(|x: Group| (x.core as int, x.first as int, x.last as int))
}

/// The places of words that are more than punctuation are places of such words, in order.
pub proof fn lemma_letter_places(w: Seq<Seq<char>>)
    ensures
        forall|k: int|
            0 <= k < letter_places(w).len() ==> 0 <= (#[trigger] letter_places(w)[k]) < w.len()
                && lettered(w[letter_places(w)[k]]),
        forall|j: int, k: int|
            0 <= j < k < letter_places(w).len() ==> (#[trigger] letter_places(w)[j]) < (
            #[trigger] letter_places(w)[k]),
    decreases w.len(),
{
    if w.len() > 0 {
        let front = w.drop_last();
        let before = letter_places(front);
        let at = letter_places(w);
        lemma_letter_places(front);
        assert forall|k: int| 0 <= k < at.len() implies 0 <= (#[trigger] at[k]) < w.len()
            && lettered(w[at[k]]) by {
            if k < before.len() {
                assert(at[k] == before[k]);
                assert(w[at[k]] == front[before[k]]);
            }
        }
        assert forall|j: int, k: int| 0 <= j < k < at.len() implies (#[trigger] at[j]) < (
        #[trigger] at[k]) by {
            assert(at[j] == before[j]);
            if k < before.len() {
                assert(at[k] == before[k]);
            }
        }
    }
}

/// What one more phoneme-word does to the groups.
proof fn lemma_one_more(w: Seq<Seq<char>>, x: Seq<char>)
    ensures
        ({
            let g = grouped(w);
            let n = w.len() as int;
            let more = grouped(w.push(x));
            &&& (g.len() == 0 <==> n == 0)
            &&& if n == 0 {
                more == seq![(0int, 0int, 0int)]
            } else if !lettered(x) {
                more == g.update(g.len() - 1, (g.last().0, g.last().1, n))
            } else if letter_places(w).len() == 0 {
                more == g.update(g.len() - 1, (n, g.last().1, n))
            } else {
                more == g.push((n, n, n))
            }
        }),
{
    let g = grouped(w);
    let n = w.len() as int;
    let all = w.push(x);
    let more = grouped(all);
    let at = letter_places(w);
    assert(all.drop_last() =~= w);
    assert(all.last() == x);
    if n == 0 {
        assert(at =~= Seq::empty());
        assert(more =~= seq![(0int, 0int, 0int)]);
    } else if !lettered(x) {
        assert(letter_places(all) == at);
        assert(more =~= g.update(g.len() - 1, (g.last().0, g.last().1, n)));
    } else if at.len() == 0 {
        assert(letter_places(all) =~= seq![n]);
        assert(more =~= g.update(g.len() - 1, (n, g.last().1, n)));
    } else {
        assert(letter_places(all) =~= at.push(n));
        assert(more =~= g.push((n, n, n)));
    }
}

/// Merge punctuation-only phoneme-words into their neighbours.
pub fn merge_words(words: &Vec<String>) -> (r: Vec<Group>)
    ensures
        groups_view(r@) == grouped(texts(words@)),
{
    let ghost all = texts(words@);
    let mut r: Vec<Group> = Vec::new();
    let mut core_lettered: bool = false;
    let mut i: usize = 0;
    assert(groups_view(r@) =~= grouped(all.take(0)));
    assert(letter_places(all.take(0)) =~= Seq::empty());
    while i < words.len()
        invariant
            i <= words.len(),
            all == texts(words@),
            groups_view(r@) == grouped(all.take(i as int)),
            core_lettered == (letter_places(all.take(i as int)).len() > 0),
        decreases words.len() - i,
    {
        let ghost part = all.take(i as int);
        let ghost next = all.take(i + 1);
        let ghost before = groups_view(r@);
        assert(next =~= part.push(words@[i as int]@));
        assert(next.drop_last() =~= part);
        assert(before.len() == r.len());
        proof {
            lemma_one_more(part, words@[i as int]@);
            if r.len() > 0 {
                let x = r@.last();
                assert(before.last() == (x.core as int, x.first as int, x.last as int));
            }
        }
        let this: bool = is_lettered(words[i].as_str());
        let n: usize = r.len();
        if !this {
            if n > 0 {
                let old_group: Group = r[n - 1];
                r.set(n - 1, Group { core: old_group.core, first: old_group.first, last: i });
            } else {
                r.push(Group { core: i, first: i, last: i });
            }
        } else if n > 0 && !core_lettered {
            let old_group: Group = r[n - 1];
            r.set(n - 1, Group { core: i, first: old_group.first, last: i });
        } else {
            r.push(Group { core: i, first: i, last: i });
        }
        assert(groups_view(r@) =~= grouped(next));
        core_lettered = core_lettered || this;
        i += 1;
    }
    assert(all.take(i as int) =~= all);
    r
}

/// Merging loses no time: the groups follow one another without a gap, from the
/// first phoneme-word to the last, and each word that is more than punctuation is
/// the core of one group.
pub proof fn lemma_groups_cover(w: Seq<Seq<char>>)
    requires
        w.len() > 0,
    ensures
        grouped(w).len() > 0,
        grouped(w)[0].1 == 0,
        grouped(w).last().2 == w.len() - 1,
        forall|k: int|
            0 <= k < grouped(w).len() - 1 ==> (#[trigger] grouped(w)[k]).2 + 1 == grouped(w)[k
                + 1].1,
        forall|k: int|
            0 <= k < grouped(w).len() ==> (#[trigger] grouped(w)[k]).1 <= grouped(w)[k].0
                <= grouped(w)[k].2,
        letter_places(w).len() > 0 ==> grouped(w).map_values(|g: (int, int, int)| g.0)
            == letter_places(w),
{
    lemma_letter_places(w);
    let g = grouped(w);
    let at = letter_places(w);
    if at.len() > 0 {
        assert(g.map_values(|x: (int, int, int)| x.0) =~= at);
        assert forall|k: int| 0 <= k < g.len() implies (#[trigger] g[k]).1 <= g[k].0
            <= g[k].2 by {
            if k + 1 < g.len() {
                assert(at[k] < at[k + 1]);
            }
        }
    }
}

/// The words of a batch that are timed are what stands between its spaces, in order, as far
/// as `n` durations reach: the word from `a` to `b` needs more than `b + 1` of them.
pub proof fn lemma_timed_words_stand_between_spaces(s: Seq<char>, n: int, i: int)
    requires
        0 <= i < timed(phoneme_runs(s), n).len(),
    ensures
        ({
            let r = timed(phoneme_runs(s), n);
            let (a, b) = r[i];
            &&& 0 <= a < b <= s.len()
            &&& b + 1 < n
            &&& forall|k: int| a <= k < b ==> #[trigger] s[k] != ' '
            &&& a > 0 ==> s[a - 1] == ' '
            &&& b < s.len() ==> s[b] == ' '
            &&& i + 1 < r.len() ==> b < r[i + 1].0
        }),
{
    let mask = unspaced(s);
    let all = phoneme_runs(s);
    lemma_runs(mask);
    lemma_timed(all, n);
    let (a, b) = timed(all, n)[i];
    assert((a, b) == all[i]);
    assert forall|k: int| a <= k < b implies #[trigger] s[k] != ' ' by {
        assert(mask[k]);
    }
    if a > 0 {
        assert(!mask[a - 1]);
    }
    if b < s.len() {
        assert(!mask[b]);
    }
    if i + 1 < timed(all, n).len() {
        assert(all[i].1 < all[i + 1].0);
    }
}

proof fn lemma_timed(r: Seq<(int, int)>, n: int)
    ensures
        timed(r, n).len() <= r.len(),
        forall|i: int| 0 <= i < timed(r, n).len() ==> #[trigger] timed(r, n)[i] == r[i],
        forall|i: int| 0 <= i < timed(r, n).len() ==> (#[trigger] timed(r, n)[i]).1 + 1 < n,
        timed(r, n).len() < r.len() ==> r[timed(r, n).len() as int].1 + 1 >= n,
    decreases r.len(),
{
    if r.len() > 0 && r[0].1 + 1 < n {
        let rest = timed(r.drop_first(), n);
        lemma_timed(r.drop_first(), n);
        let all = timed(r, n);
        assert(all == seq![r[0]] + rest);
        assert forall|i: int| 0 <= i < all.len() implies #[trigger] all[i] == r[i] && all[i].1 + 1
            < n by {
            if i > 0 {
                assert(all[i] == rest[i - 1]);
            }
        }
    }
}

/// Every phoneme that is not a space is timed with its word, if the durations reach behind
/// the word's end.
pub proof fn lemma_every_phoneme_is_timed(s: Seq<char>, n: int, k: int) -> (i: int)
    requires
        0 <= k < s.len(),
        s[k] != ' ',
        s.len() + 1 < n,
    ensures
        0 <= i < timed(phoneme_runs(s), n).len(),
        timed(phoneme_runs(s), n)[i].0 <= k < timed(phoneme_runs(s), n)[i].1,
{
    let mask = unspaced(s);
    let all = phoneme_runs(s);
    lemma_runs(mask);
    lemma_timed(all, n);
    assert(mask[k]);
    let i = choose|i: int| 0 <= i < all.len() && (#[trigger] all[i]).0 <= k < all[i].1;
    if timed(all, n).len() < all.len() {
        assert(all[timed(all, n).len() as int].1 <= s.len());
    }
    assert(timed(all, n)[i] == all[i]);
    i
}

/// A phoneme-word is the core of a group exactly if it holds a letter or a digit, as long as
/// any word does; the groups follow one another, from the first word to the last.
pub proof fn lemma_lettered_words_are_cores(w: Seq<Seq<char>>, k: int)
    requires
        0 <= k < w.len(),
        exists|q: int, c: int|
            0 <= q < w.len() && 0 <= c < w[q].len() && alphanumeric(#[trigger] w[q][c]),
    ensures
        (exists|c: int| 0 <= c < w[k].len() && alphanumeric(#[trigger] w[k][c])) <==> (exists|
            g: int,
        |
            0 <= g < grouped(w).len() && (#[trigger] grouped(w)[g]).0 == k),
        grouped(w)[0].1 == 0,
        grouped(w).last().2 == w.len() - 1,
        forall|g: int|
            #![trigger grouped(w)[g]]
            0 <= g < grouped(w).len() ==> grouped(w)[g].1 <= grouped(w)[g].0 <= grouped(w)[g].2
                && (g > 0 ==> grouped(w)[g].1 == grouped(w)[g].0) && (g + 1 < grouped(w).len()
                ==> grouped(w)[g].2 + 1 == grouped(w)[g + 1].1),
{
    lemma_groups_cover(w);
    lemma_letter_places(w);
    let at = letter_places(w);
    let (q, c) = choose|q: int, c: int|
        0 <= q < w.len() && 0 <= c < w[q].len() && alphanumeric(#[trigger] w[q][c]);
    assert(lettered(w[q]));
    lemma_letter_places_all(w, q);
    assert(at.len() > 0);
    if lettered(w[k]) {
        lemma_letter_places_all(w, k);
        let g = choose|g: int| 0 <= g < at.len() && at[g] == k;
        assert(grouped(w)[g].0 == k);
    } else {
        assert forall|g: int| 0 <= g < grouped(w).len() implies (#[trigger] grouped(w)[g]).0
            != k by {
            assert(grouped(w)[g].0 == at[g]);
            assert(lettered(w[at[g]]));
        }
    }
}

proof fn lemma_letter_places_all(w: Seq<Seq<char>>, k: int)
    requires
        0 <= k < w.len(),
        lettered(w[k]),
    ensures
        exists|g: int| 0 <= g < letter_places(w).len() && #[trigger] letter_places(w)[g] == k,
    decreases w.len(),
{
    let front = letter_places(w.drop_last());
    if k == w.len() - 1 {
        assert(letter_places(w)[front.len() as int] == k);
    } else {
        lemma_letter_places_all(w.drop_last(), k);
        let g = choose|g: int| 0 <= g < front.len() && #[trigger] front[g] == k;
        assert(letter_places(w)[g] == k);
    }
}

/// Without a letter or a digit in any of them, all phoneme-words are one group.
pub proof fn lemma_marks_alone_are_one_group(w: Seq<Seq<char>>)
    requires
        w.len() > 0,
        forall|q: int, c: int|
            0 <= q < w.len() && 0 <= c < w[q].len() ==> !alphanumeric(#[trigger] w[q][c]),
    ensures
        grouped(w) == seq![(0int, 0int, w.len() - 1)],
{
    lemma_letter_places(w);
    let at = letter_places(w);
    if at.len() > 0 {
        assert(lettered(w[at[0]]));
        let c = choose|c: int| 0 <= c < w[at[0]].len() && alphanumeric(#[trigger] w[at[0]][c]);
        assert(!alphanumeric(w[at[0]][c]));
    }
}

/// Batches lose no phoneme and add none: apart from spaces they are the phoneme string, in
/// order; none is empty, and none is longer than 510 phonemes.
pub proof fn lemma_batches_lose_nothing(s: Seq<char>)
    ensures
        batches(s).flatten().filter(|c: char| c != ' ') == s.filter(|c: char| c != ' '),
        forall|j: int| 0 <= j < batches(s).len() ==> 0 < (#[trigger] batches(s)[j]).len() <= 510,
{
    let keep = other_than(' ');
    let sep = seq![' '];
    lemma_batches_fit(s);
    lemma_glued_keeps(batches(s), sep, keep);
    lemma_glued_keeps(units(s), sep, keep);
    lemma_no_phoneme_is_lost(s);
    lemma_filter_twice(s, keep, keep);
    assert(keep =~= |c: char| c != ' ');
}

/// A phoneme string with single spaces between its words and none at its ends, no word of it
/// longer than 510 phonemes.
pub open spec fn plainly_spaced(s: Seq<char>) -> bool {
    &&& s.len() > 0 ==> s[0] != ' ' && s.last() != ' '
    &&& forall|k: int| 0 < k < s.len() ==> s[k - 1] != ' ' || #[trigger] s[k] != ' '
    &&& forall|a: int|
        0 <= a && a + 510 < s.len() && #[trigger] s[a] != ' ' ==> exists|k: int|
            a < k <= a + 510 && #[trigger] s[k] == ' '
}

proof fn lemma_plain_units(s: Seq<char>, i: int)
    requires
        plainly_spaced(s),
        0 <= i < s.len(),
        s[i] != ' ',
    ensures
        units_at(s, runs_from(unspaced(s), i)).len() > 0,
        glued(units_at(s, runs_from(unspaced(s), i)), seq![' ']) == s.skip(i),
    decreases s.len() - i,
{
    let mask = unspaced(s);
    let n = s.len() as int;
    let b = next_at(mask, false, i);
    lemma_next_at(mask, false, i);
    assert(mask[i]);
    lemma_next_at_is(mask, true, i, i);
    assert(b > i);
    let w = s.subrange(i, b);
    assert forall|k: int| i <= k < b implies #[trigger] s[k] != ' ' by {
        assert(mask[k] != false);
    }
    if b - i > 510 {
        let k = choose|k: int| i < k <= i + 510 && #[trigger] s[k] == ' ';
        assert(s[k] != ' ');
    }
    assert(chunked(w) == seq![w]);
    let rest = runs_from(mask, b);
    lemma_units_prepend(s, (i, b), rest);
    if b == n {
        lemma_next_at_is(mask, true, n, n);
        assert(rest =~= Seq::<(int, int)>::empty());
        assert(units_at(s, rest) =~= Seq::<Seq<char>>::empty());
        assert(units_at(s, runs_from(mask, i)) =~= seq![w]);
        lemma_glued_first(w, Seq::empty(), seq![' ']);
        assert(w =~= s.skip(i));
    } else {
        assert(!mask[b]);
        assert(s[b] == ' ');
        if b + 1 == n {
            assert(s.last() == s[b]);
        }
        assert(s[b + 1 - 1] != ' ' || s[b + 1] != ' ');
        assert(mask[b + 1]);
        lemma_next_at_is(mask, true, b, b + 1);
        lemma_next_at_is(mask, true, b + 1, b + 1);
        assert(rest =~= runs_from(mask, b + 1));
        lemma_plain_units(s, b + 1);
        lemma_glued_first(w, units_at(s, rest), seq![' ']);
        assert(w + seq![' '] + s.skip(b + 1) =~= s.skip(i));
    }
}

/// No word is cut and none is moved: with single spaces between them, the batches of a
/// string of words that the model can take are the string again.
pub proof fn lemma_batches_keep_words(s: Seq<char>)
    requires
        plainly_spaced(s),
    ensures
        glued(batches(s), seq![' ']) == s,
{
    lemma_batches_fit(s);
    if s.len() > 0 {
        lemma_plain_units(s, 0);
        assert(s.skip(0) =~= s);
    } else {
        lemma_next_at_is(unspaced(s), true, 0, 0);
        assert(units(s) =~= Seq::<Seq<char>>::empty());
        assert(glued(units(s), seq![' ']) =~= s);
    }
}

/// `b` begins with a word that did not fit behind `len` phonemes and a space.
pub open spec fn did_not_fit(len: int, b: Seq<char>) -> bool {
    exists|n: int|
        {
            &&& 0 < n <= b.len()
            &&& n < b.len() ==> b[n] == ' '
            &&& forall|q: int| 0 <= q < n ==> #[trigger] b[q] != ' '
            &&& len + 1 + n > 510
            &&& #[trigger] b.take(n).len() == n
        }
}

proof fn lemma_packed_is_full(u: Seq<Seq<char>>)
    requires
        forall|j: int| 0 <= j < u.len() ==> 0 < (#[trigger] u[j]).len() <= MAX_PHONEME_LENGTH,
        forall|j: int, q: int|
            0 <= j < u.len() && 0 <= q < u[j].len() ==> #[trigger] u[j][q] != ' ',
    ensures
        u.len() > 0 ==> packed(u).1.len() > 0 && packed(u).1[0] != ' ',
        forall|k: int|
            0 < k < packed(u).0.len() ==> did_not_fit(
                packed(u).0[k - 1].len() as int,
                #[trigger] packed(u).0[k],
            ),
        packed(u).0.len() > 0 ==> did_not_fit(packed(u).0.last().len() as int, packed(u).1),
    decreases u.len(),
{
    if u.len() > 0 {
        let front = u.drop_last();
        let last = u[u.len() - 1];
        assert forall|j: int| 0 <= j < front.len() implies 0 < (#[trigger] front[j]).len()
            <= MAX_PHONEME_LENGTH by {
            assert(front[j] == u[j]);
        }
        assert forall|j: int, q: int|
            0 <= j < front.len() && 0 <= q < front[j].len() implies #[trigger] front[j][q]
            != ' ' by {
            assert(front[j] == u[j]);
            assert(u[j][q] != ' ');
        }
        lemma_packed_is_full(front);
        let (full, cur) = packed(front);
        assert(u[u.len() - 1][0] != ' ');
        if cur.len() > 0 && cur.len() + 1 + last.len() <= MAX_PHONEME_LENGTH {
            let both = cur.push(' ') + last;
            if full.len() > 0 {
                let len = full.last().len() as int;
                let n = choose|n: int|
                    {
                        &&& 0 < n <= cur.len()
                        &&& n < cur.len() ==> cur[n] == ' '
                        &&& forall|q: int| 0 <= q < n ==> #[trigger] cur[q] != ' '
                        &&& len + 1 + n > 510
                        &&& #[trigger] cur.take(n).len() == n
                    };
                assert forall|q: int| 0 <= q < n implies #[trigger] both[q] != ' ' by {
                    assert(both[q] == cur[q]);
                }
                assert(both.take(n).len() == n);
                assert(did_not_fit(len, both));
            }
        } else if cur.len() > 0 {
            assert forall|q: int| 0 <= q < last.len() implies #[trigger] last[q] != ' ' by {
                assert(u[u.len() - 1][q] != ' ');
            }
            assert(last.take(last.len() as int).len() == last.len());
            assert(did_not_fit(cur.len() as int, last));
            let more = full.push(cur);
            assert forall|k: int| 0 < k < more.len() implies did_not_fit(
                more[k - 1].len() as int,
                #[trigger] more[k],
            ) by {
                if k < full.len() {
                    assert(more[k] == full[k]);
                }
            }
        }
    }
}

proof fn lemma_units_hold_no_space(s: Seq<char>, r: Seq<(int, int)>)
    requires
        forall|i: int| 0 <= i < r.len() ==> 0 <= (#[trigger] r[i]).0 < r[i].1 <= s.len(),
        forall|i: int, k: int|
            0 <= i < r.len() && (#[trigger] r[i]).0 <= k < r[i].1 ==> #[trigger] s[k] != ' ',
    ensures
        forall|j: int, q: int|
            0 <= j < units_at(s, r).len() && 0 <= q < units_at(s, r)[j].len()
                ==> #[trigger] units_at(s, r)[j][q] != ' ',
    decreases r.len(),
{
    if r.len() > 0 {
        let front = r.drop_last();
        let p = r[r.len() - 1];
        let w = s.subrange(p.0, p.1);
        assert forall|i: int| 0 <= i < front.len() implies 0 <= (#[trigger] front[i]).0
            < front[i].1 <= s.len() by {
            assert(front[i] == r[i]);
        }
        assert forall|i: int, k: int|
            0 <= i < front.len() && (#[trigger] front[i]).0 <= k < front[i].1 implies #[trigger] s[k]
            != ' ' by {
            assert(front[i] == r[i]);
        }
        lemma_units_hold_no_space(s, front);
        assert forall|k: int| 0 <= k < w.len() implies #[trigger] w[k] != ' ' by {
            assert(s[p.0 + k] != ' ');
        }
        lemma_chunked_no_space(w);
        let all = units_at(s, r);
        let n = units_at(s, front).len();
        assert forall|j: int, q: int|
            0 <= j < all.len() && 0 <= q < all[j].len() implies #[trigger] all[j][q] != ' ' by {
            if j < n {
                assert(all[j] == units_at(s, front)[j]);
                assert(units_at(s, front)[j][q] != ' ');
            } else {
                assert(all[j] == chunked(w)[j - n]);
                assert(chunked(w)[j - n][q] != ' ');
            }
        }
    }
}

proof fn lemma_chunked_no_space(w: Seq<char>)
    requires
        forall|k: int| 0 <= k < w.len() ==> #[trigger] w[k] != ' ',
    ensures
        forall|j: int, q: int|
            0 <= j < chunked(w).len() && 0 <= q < chunked(w)[j].len() ==> #[trigger] chunked(
                w,
            )[j][q] != ' ',
    decreases w.len(),
{
    if w.len() > MAX_PHONEME_LENGTH {
        let n = MAX_PHONEME_LENGTH as int;
        let rest = w.skip(n);
        assert forall|k: int| 0 <= k < rest.len() implies #[trigger] rest[k] != ' ' by {
            assert(rest[k] == w[n + k]);
        }
        lemma_chunked_no_space(rest);
        assert forall|j: int, q: int|
            0 <= j < chunked(w).len() && 0 <= q < chunked(w)[j].len() implies #[trigger] chunked(
            w,
        )[j][q] != ' ' by {
            if j > 0 {
                assert(chunked(w)[j] == chunked(rest)[j - 1]);
                assert(chunked(rest)[j - 1][q] != ' ');
            } else {
                assert(chunked(w)[0][q] == w[q]);
            }
        }
    }
}

/// Batches are as few as can be, taken from the front: the first word of a batch did not fit
/// in the batch before it.
pub proof fn lemma_batches_are_full(s: Seq<char>, k: int)
    requires
        0 < k < batches(s).len(),
    ensures
        did_not_fit(batches(s)[k - 1].len() as int, batches(s)[k]),
{
    let mask = unspaced(s);
    let r = phoneme_runs(s);
    lemma_runs(mask);
    assert forall|i: int| 0 <= i < r.len() implies 0 <= (#[trigger] r[i]).0 < r[i].1
        <= s.len() by {}
    assert forall|i: int, q: int|
        0 <= i < r.len() && (#[trigger] r[i]).0 <= q < r[i].1 implies #[trigger] s[q] != ' ' by {
        assert(mask[q]);
    }
    lemma_units_fit(s, r);
    lemma_units_hold_no_space(s, r);
    let u = units(s);
    lemma_packed_is_full(u);
    let (full, cur) = packed(u);
    if k < full.len() {
        assert(batches(s)[k] == full[k]);
        assert(batches(s)[k - 1] == full[k - 1]);
    }
}

/// A phoneme string that the model can take in one go is one batch.
pub proof fn lemma_short_string_is_one_batch(s: Seq<char>)
    requires
        plainly_spaced(s),
        0 < s.len() <= 510,
    ensures
        batches(s) == seq![s],
{
    let b = batches(s);
    let sep = seq![' '];
    lemma_batches_keep_words(s);
    if b.len() == 0 {
        assert(glued(b, sep).len() == 0);
    } else if b.len() == 1 {
        assert(b =~= seq![b[0]]);
        lemma_glued_first(b[0], Seq::empty(), sep);
    } else {
        lemma_batches_are_full(s, 1);
        let rest = b.drop_first();
        assert(b =~= seq![b[0]] + rest);
        lemma_glued_first(b[0], rest, sep);
        let more = rest.drop_first();
        assert(rest =~= seq![rest[0]] + more);
        assert(rest[0] == b[1]);
        lemma_glued_first(rest[0], more, sep);
        if more.len() == 0 {
            assert(rest =~= seq![rest[0]]);
        }
        assert(glued(rest, sep).len() >= b[1].len());
    }
}

/// Nothing that can be said is left unsaid: where the vocabulary holds all phonemes, every
/// batch goes to the model.
pub proof fn lemma_every_batch_is_spoken(s: Seq<char>, vocab: Map<char, i64>)
    requires
        forall|k: int| 0 <= k < s.len() ==> vocab.contains_key(#[trigger] s[k]),
    ensures
        voiced_batches(s, vocab) == batches(s),
{
    let b = batches(s);
    lemma_batches_fit(s);
    assert forall|j: int| 0 <= j < b.len() implies (has_tokens(vocab))(#[trigger] b[j]) by {
        lemma_tokens_line_up(s, vocab, j);
    }
    lemma_all_kept(b, has_tokens(vocab));
}

proof fn lemma_full_units(u: Seq<Seq<char>>)
    requires
        u.len() > 0,
        forall|j: int| 0 <= j < u.len() - 1 ==> (#[trigger] u[j]).len() == MAX_PHONEME_LENGTH,
        u.last().len() > 0,
    ensures
        packed(u) == (u.drop_last(), u.last()),
    decreases u.len(),
{
    let front = u.drop_last();
    if front.len() == 0 {
        assert(packed(front) == (Seq::<Seq<char>>::empty(), Seq::<char>::empty()));
        assert(front =~= Seq::<Seq<char>>::empty());
    } else {
        assert(front.last() == u[u.len() - 2]);
        assert forall|j: int| 0 <= j < front.len() - 1 implies (#[trigger] front[j]).len()
            == MAX_PHONEME_LENGTH by {
            assert(front[j] == u[j]);
        }
        lemma_full_units(front);
        assert(front.drop_last().push(front.last()) =~= front);
    }
}

proof fn lemma_one_word(w: Seq<char>)
    requires
        w.len() > 0,
        forall|k: int| 0 <= k < w.len() ==> #[trigger] w[k] != ' ',
    ensures
        batches(w) == chunked(w),
{
    let mask = unspaced(w);
    let r = phoneme_runs(w);
    lemma_runs(mask);
    assert(mask[0]);
    let k = choose|k: int| 0 <= k < r.len() && (#[trigger] r[k]).0 <= 0 < r[k].1;
    if r[k].1 < w.len() {
        assert(mask[r[k].1]);
    }
    if r.len() > 1 {
        if k == 0 {
            assert(r[0].1 < r[1].0);
        } else {
            assert(r[0].1 < r[k].0);
        }
    }
    assert(r =~= seq![(0int, w.len() as int)]);
    assert(r.drop_last() =~= Seq::<(int, int)>::empty());
    assert(w.subrange(0, w.len() as int) =~= w);
    assert(units_at(w, r.drop_last()) =~= Seq::<Seq<char>>::empty());
    assert(units(w) =~= chunked(w));
    lemma_chunked_fits(w);
    let u = chunked(w);
    assert(u.last() == u[u.len() - 1]);
    lemma_full_units(u);
    assert(u.drop_last().push(u.last()) =~= u);
}

/// A word that is too long for the model is cut behind every 510 phonemes.
pub proof fn lemma_long_word_is_cut(w: Seq<char>)
    requires
        w.len() > 510,
        forall|k: int| 0 <= k < w.len() ==> #[trigger] w[k] != ' ',
    ensures
        batches(w) == seq![w.take(510)] + batches(w.skip(510)),
{
    lemma_one_word(w);
    lemma_one_word(w.skip(510));
}

} // verus!
