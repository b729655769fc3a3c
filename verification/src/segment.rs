//! Sentences: where they lie in a text, none too long to speak in one go.

use crate::bytes::{
    byte_at, chars_and_offsets, lemma_byte_boundary, lemma_byte_order, lemma_byte_step,
    lemma_encode_append,
};
use crate::runs::pairs;
use crate::text::{
    chars_of, is_white, lead, lemma_behind_trimmed, lemma_lead, lemma_lead_is, lemma_trimmed_end,
    lemma_trimmed_end_is, lemma_trimmed_ends, lemma_trimmed_within, texts, trim_bounds, trimmed,
    trimmed_end, white,
};
use unicode_segmentation::UnicodeSegmentation;
use vstd::prelude::*;
use vstd::utf8::{encode_utf8, is_char_boundary};

verus! {

/// A sentence of more bytes than this is cut.
pub const SPLIT_OVER: usize = 1200;

/// It is cut at the last space within this many bytes.
pub const SPLIT_WITHIN: usize = 1000;

/// The stretches between the sentence boundaries of a text.
pub uninterp spec fn sentences(text: Seq<char>) -> Seq<Seq<char>>;

/// `UnicodeSegmentation::split_sentence_bound_indices` cuts a text at the sentence
/// boundaries of UAX #29. Where these lie is a function of the text, named
/// `sentences`. The stretches between them make up the text, and none is empty.
#[verifier::external_body]
fn split_sentences(text: &str) -> (r: Vec<String>)
    ensures
        texts(r@) == sentences(text@),
        texts(r@).flatten() == text@,
        forall|i: int| 0 <= i < r.len() ==> (#[trigger] r@[i])@.len() > 0,
{
    let mut r = Vec::new();
    for (_, sentence) in text.split_sentence_bound_indices() {
        r.push(sentence.to_string());
    }
    r
}

/// The last place at or before `w` that lies no further than `target` bytes in.
pub open spec fn snap(s: Seq<char>, w: int, target: int) -> int
    decreases w,
{
    if w <= 0 || byte_at(s, w) <= target {
        w
    } else {
        snap(s, w - 1, target)
    }
}

/// The last space in `s` from `a` up to `w`, or `w`.
pub open spec fn last_space(s: Seq<char>, a: int, w: int) -> int {
    last_space_below(s, a, w, w)
}

pub open spec fn last_space_below(s: Seq<char>, a: int, w: int, k: int) -> int
    decreases k,
{
    if k <= a || k <= 0 {
        w
    } else if s[k - 1] == ' ' {
        k - 1
    } else {
        last_space_below(s, a, w, k - 1)
    }
}

/// Where a sentence from `a` to `b` that is too long is cut: at the last space
/// within reach, else as far as characters are whole.
pub open spec fn cut_at(s: Seq<char>, a: int, b: int) -> int {
    last_space(s, a, snap(s, b, byte_at(s, a) + SPLIT_WITHIN))
}

/// The first place at or after `c` that is not white.
pub open spec fn past_white(s: Seq<char>, c: int) -> int {
    c + lead(s.skip(c))
}

/// Where a piece from `a` that is cut at `c` ends: behind its last character that is
/// not white.
pub open spec fn piece_end(s: Seq<char>, a: int, c: int) -> int {
    a + trimmed_end(s.subrange(a, c)).len()
}

/// A stretch of `s` that begins and ends in a character that is not white.
pub open spec fn tight(s: Seq<char>, a: int, b: int) -> bool {
    0 <= a < b <= s.len() && !white(s[a]) && !white(s[b - 1])
}

/// The pieces that the sentence from `a` to `b` is spoken in.
pub open spec fn pieces(s: Seq<char>, a: int, b: int) -> Seq<(int, int)>
    decreases b - a,
    when tight(s, a, b)
    via pieces_decreases
{
    if byte_at(s, b) - byte_at(s, a) <= SPLIT_OVER {
        seq![(a, b)]
    } else {
        let c = cut_at(s, a, b);
        seq![(a, piece_end(s, a, c))] + pieces(s, past_white(s, c), b)
    }
}

#[via_fn]
proof fn pieces_decreases(s: Seq<char>, a: int, b: int) {
    if byte_at(s, b) - byte_at(s, a) > SPLIT_OVER {
        lemma_cut(s, a, b);
    }
}

proof fn lemma_snap(s: Seq<char>, w: int, target: int)
    requires
        0 <= w <= s.len(),
        0 <= target,
    ensures
        0 <= snap(s, w, target) <= w,
        byte_at(s, snap(s, w, target)) <= target,
        forall|k: int| snap(s, w, target) < k <= w ==> #[trigger] byte_at(s, k) > target,
    decreases w,
{
    if w <= 0 {
        assert(s.take(0) =~= Seq::empty());
    } else if byte_at(s, w) > target {
        lemma_snap(s, w - 1, target);
    }
}

proof fn lemma_last_space(s: Seq<char>, a: int, w: int, k: int)
    requires
        0 <= a <= k <= w <= s.len(),
    ensures
        ({
            let c = last_space_below(s, a, w, k);
            c == w || (a <= c < k && s[c] == ' ')
        }),
    decreases k,
{
    if k > a && s[k - 1] != ' ' {
        lemma_last_space(s, a, w, k - 1);
    }
}

/// A cut lies inside the stretch, within reach, and what follows it begins in a
/// character that is not white.
proof fn lemma_cut(s: Seq<char>, a: int, b: int)
    requires
        tight(s, a, b),
        byte_at(s, b) - byte_at(s, a) > SPLIT_OVER,
    ensures
        a < cut_at(s, a, b) < b,
        byte_at(s, cut_at(s, a, b)) - byte_at(s, a) <= SPLIT_WITHIN,
        cut_at(s, a, b) <= past_white(s, cut_at(s, a, b)) < b,
        tight(s, past_white(s, cut_at(s, a, b)), b),
        forall|k: int|
            cut_at(s, a, b) <= k < past_white(s, cut_at(s, a, b)) ==> white(#[trigger] s[k]),
{
    let target = byte_at(s, a) + SPLIT_WITHIN;
    let w = snap(s, b, target);
    lemma_snap(s, b, target);
    if w < a {
        assert(byte_at(s, a) > target);
    }
    lemma_byte_step(s, a);
    if w == a {
        assert(byte_at(s, a + 1) > target);
    }
    lemma_last_space(s, a, w, w);
    let c = cut_at(s, a, b);
    assert(white(' '));
    assert(a < c);
    lemma_byte_order(s, c, w);
    let t = s.skip(c);
    lemma_lead(t);
    if lead(t) > b - 1 - c {
        assert(white(t[b - 1 - c]));
        assert(s[b - 1] == t[b - 1 - c]);
    }
    let n = past_white(s, c);
    assert(s[n] == t[n - c]);
    assert forall|k: int| c <= k < n implies white(#[trigger] s[k]) by {
        assert(white(t[k - c]));
    }
}

/// A piece ends in a character that is not white, and what is left of it up to the cut
/// is white.
proof fn lemma_piece_end(s: Seq<char>, a: int, c: int)
    requires
        0 <= a < c <= s.len(),
        !white(s[a]),
    ensures
        a < piece_end(s, a, c) <= c,
        !white(s[piece_end(s, a, c) - 1]),
        forall|k: int| piece_end(s, a, c) <= k < c ==> white(#[trigger] s[k]),
        byte_at(s, piece_end(s, a, c)) <= byte_at(s, c),
{
    let t = s.subrange(a, c);
    let e = piece_end(s, a, c);
    lemma_trimmed_end(t);
    if e == a {
        assert(white(t[0]));
    }
    assert(trimmed_end(t).last() == s[e - 1]);
    assert forall|k: int| e <= k < c implies white(#[trigger] s[k]) by {
        assert(t[k - a] == s[k]);
    }
    lemma_byte_order(s, e, c);
}

/// The pieces of the sentences of a text, from the `k`th sentence on, which
/// begins at `at`.
pub open spec fn spans_from(s: Seq<char>, segs: Seq<Seq<char>>, k: int, at: int) -> Seq<(int, int)>
    decreases segs.len() - k,
{
    if k < 0 || k >= segs.len() {
        Seq::empty()
    } else {
        segment_pieces(s, segs[k], at) + spans_from(s, segs, k + 1, at + segs[k].len())
    }
}

/// Where the sentences of a text lie, in characters: each without the white space
/// around it, and in pieces where it is too long.
pub open spec fn spans(s: Seq<char>) -> Seq<(int, int)> {
    spans_from(s, sentences(s), 0, 0)
}

/// Where stretches of characters lie in bytes.
pub open spec fn byte_spans(s: Seq<char>, r: Seq<(int, int)>) -> Seq<(int, int)> {
    r.map_values(|p: (int, int)| (byte_at(s, p.0) as int, byte_at(s, p.1) as int))
}

fn find_cut(s: &Vec<char>, offs: &Vec<usize>, a: usize, b: usize) -> (c: usize)
    requires
        tight(s@, a as int, b as int),
        offs.len() == s.len() + 1,
        forall|i: int| 0 <= i <= s.len() ==> #[trigger] offs@[i] == byte_at(s@, i),
        byte_at(s@, b as int) - byte_at(s@, a as int) > SPLIT_OVER,
    ensures
        c == cut_at(s@, a as int, b as int),
{
    proof {
        lemma_byte_order(s@, a as int, b as int);
    }
    assert(offs@[b as int] - offs@[a as int] > SPLIT_OVER);
    let target: usize = offs[a] + SPLIT_WITHIN;
    let mut w: usize = b;
    while w > 0 && offs[w] > target
        invariant
            w <= b <= s.len(),
            offs.len() == s.len() + 1,
            forall|i: int| 0 <= i <= s.len() ==> #[trigger] offs@[i] == byte_at(s@, i),
            snap(s@, b as int, target as int) == snap(s@, w as int, target as int),
        decreases w,
    {
        w -= 1;
    }
    let mut k: usize = w;
    while k > a && s[k - 1] != ' '
        invariant
            k <= w <= s.len(),
            last_space(s@, a as int, w as int) == last_space_below(
                s@,
                a as int,
                w as int,
                k as int,
            ),
        decreases k,
    {
        k -= 1;
    }
    if k > a {
        k - 1
    } else {
        w
    }
}

fn find_piece_end(s: &Vec<char>, a: usize, c: usize) -> (e: usize)
    requires
        a < c <= s.len(),
        !white(s@[a as int]),
    ensures
        e == piece_end(s@, a as int, c as int),
{
    let ghost t = s@.subrange(a as int, c as int);
    let mut e: usize = c;
    while is_white(s[e - 1])
        invariant
            a < e <= c <= s.len(),
            !white(s@[a as int]),
            t == s@.subrange(a as int, c as int),
            forall|k: int| e - a <= k < t.len() ==> white(#[trigger] t[k]),
        ensures
            a < e <= c,
            !white(s@[e - 1]),
            forall|k: int| e - a <= k < t.len() ==> white(#[trigger] t[k]),
        decreases e,
    {
        e -= 1;
    }
    proof {
        assert(t[e - a - 1] == s@[e - 1]);
        lemma_trimmed_end_is(t, e - a);
    }
    e
}

fn push_pieces(
    s: &Vec<char>,
    offs: &Vec<usize>,
    first: usize,
    b: usize,
    out: &mut Vec<(usize, usize)>,
)
    requires
        tight(s@, first as int, b as int),
        offs.len() == s.len() + 1,
        forall|i: int| 0 <= i <= s.len() ==> #[trigger] offs@[i] == byte_at(s@, i),
    ensures
        pairs(final(out)@) == pairs(old(out)@) + pieces(s@, first as int, b as int),
{
    let ghost all = pieces(s@, first as int, b as int);
    let ghost base = pairs(out@);
    let ghost mut done: Seq<(int, int)> = Seq::empty();
    let mut a: usize = first;
    assert(done + pieces(s@, a as int, b as int) =~= all);
    assert(base + done =~= base);
    proof {
        lemma_byte_order(s@, a as int, b as int);
    }
    while offs[b] - offs[a] > SPLIT_OVER
        invariant
            tight(s@, a as int, b as int),
            offs.len() == s.len() + 1,
            forall|i: int| 0 <= i <= s.len() ==> #[trigger] offs@[i] == byte_at(s@, i),
            offs@[a as int] <= offs@[b as int],
            done + pieces(s@, a as int, b as int) == all,
            pairs(out@) == base + done,
        decreases b - a,
    {
        let c: usize = find_cut(s, offs, a, b);
        proof {
            lemma_cut(s@, a as int, b as int);
        }
        let ghost before = out@;
        let ghost was = done;
        let e: usize = find_piece_end(s, a, c);
        out.push((a, e));
        proof {
            done = done.push((a as int, e as int));
        }
        assert(pairs(out@) =~= pairs(before).push((a as int, e as int)));
        let mut n: usize = c;
        let ghost t = s@.skip(c as int);
        while n < s.len() && is_white(s[n])
            invariant
                c <= n <= s.len(),
                t == s@.skip(c as int),
                forall|k: int| 0 <= k < n - c ==> white(#[trigger] t[k]),
            decreases s.len() - n,
        {
            n += 1;
        }
        proof {
            lemma_lead_is(t, n - c);
        }
        assert(n == past_white(s@, c as int));
        assert(done + pieces(s@, n as int, b as int) =~= was + pieces(s@, a as int, b as int));
        a = n;
        proof {
            lemma_byte_order(s@, a as int, b as int);
        }
    }
    let ghost before = out@;
    out.push((a, b));
    assert(all =~= done.push((a as int, b as int)));
    assert(pairs(out@) =~= pairs(before).push((a as int, b as int)));
    assert(pairs(out@) =~= base + all);
}

/// Stretches of `s` between `from` and `to` that can be spoken one by one: they
/// follow one another, none is empty, begins or ends in white space or is too long, and
/// what lies outside them is white.
pub open spec fn well_cut(s: Seq<char>, r: Seq<(int, int)>, from: int, to: int) -> bool {
    &&& forall|i: int|
        0 <= i < r.len() ==> from <= (#[trigger] r[i]).0 < r[i].1 <= to && !white(s[r[i].0])
            && !white(s[r[i].1 - 1]) && byte_at(s, r[i].1) - byte_at(s, r[i].0) <= SPLIT_OVER
    &&& forall|i: int, j: int|
        0 <= i < j < r.len() ==> (#[trigger] r[i]).1 <= (#[trigger] r[j]).0
    &&& forall|k: int| from <= k < to && !white(#[trigger] s[k]) ==> covers(r, k)
}

/// Some stretch holds the place `k`.
pub open spec fn covers(r: Seq<(int, int)>, k: int) -> bool {
    exists|i: int| 0 <= i < r.len() && (#[trigger] r[i]).0 <= k < r[i].1
}

proof fn lemma_well_cut_joins(
    s: Seq<char>,
    x: Seq<(int, int)>,
    y: Seq<(int, int)>,
    from: int,
    mid: int,
    next: int,
    to: int,
)
    requires
        well_cut(s, x, from, mid),
        well_cut(s, y, next, to),
        from <= mid <= next <= to,
        forall|k: int| mid <= k < next ==> white(#[trigger] s[k]),
    ensures
        well_cut(s, x + y, from, to),
{
    let r = x + y;
    assert forall|i: int| 0 <= i < r.len() implies from <= (#[trigger] r[i]).0 < r[i].1 <= to
        && !white(s[r[i].0]) && !white(s[r[i].1 - 1]) && byte_at(s, r[i].1) - byte_at(
        s,
        r[i].0,
    ) <= SPLIT_OVER by {
        if i < x.len() {
            assert(r[i] == x[i]);
        } else {
            assert(r[i] == y[i - x.len()]);
        }
    }
    assert forall|i: int, j: int| 0 <= i < j < r.len() implies (#[trigger] r[i]).1 <= (
    #[trigger] r[j]).0 by {
        if j < x.len() {
            assert(r[i] == x[i] && r[j] == x[j]);
        } else if i >= x.len() {
            assert(r[i] == y[i - x.len()] && r[j] == y[j - x.len()]);
        } else {
            assert(r[i] == x[i] && r[j] == y[j - x.len()]);
        }
    }
    assert forall|k: int| from <= k < to && !white(#[trigger] s[k]) implies covers(r, k) by {
        if k < mid {
            assert(covers(x, k));
            let i = choose|i: int| 0 <= i < x.len() && (#[trigger] x[i]).0 <= k < x[i].1;
            assert(r[i] == x[i]);
        } else {
            assert(covers(y, k));
            let i = choose|i: int| 0 <= i < y.len() && (#[trigger] y[i]).0 <= k < y[i].1;
            assert(r[i + x.len()] == y[i]);
        }
    }
}

proof fn lemma_one_piece(s: Seq<char>, a: int, b: int)
    requires
        tight(s, a, b),
        byte_at(s, b) - byte_at(s, a) <= SPLIT_OVER,
    ensures
        well_cut(s, seq![(a, b)], a, b),
{
    let r = seq![(a, b)];
    assert forall|k: int| a <= k < b && !white(#[trigger] s[k]) implies covers(r, k) by {
        assert(r[0].0 <= k < r[0].1);
    }
}

proof fn lemma_pieces_well_cut(s: Seq<char>, a: int, b: int)
    requires
        tight(s, a, b),
    ensures
        well_cut(s, pieces(s, a, b), a, b),
    decreases b - a,
{
    if byte_at(s, b) - byte_at(s, a) <= SPLIT_OVER {
        lemma_one_piece(s, a, b);
    } else {
        let c = cut_at(s, a, b);
        let n = past_white(s, c);
        lemma_cut(s, a, b);
        let e = piece_end(s, a, c);
        lemma_piece_end(s, a, c);
        lemma_one_piece(s, a, e);
        lemma_pieces_well_cut(s, n, b);
        lemma_well_cut_joins(s, seq![(a, e)], pieces(s, n, b), a, e, n, b);
    }
}

/// The pieces of one stretch between sentence boundaries, which begins at `at`.
pub open spec fn segment_pieces(s: Seq<char>, seg: Seq<char>, at: int) -> Seq<(int, int)> {
    let a = at + lead(seg);
    let b = a + trimmed(seg).len();
    if a < b {
        pieces(s, a, b)
    } else {
        Seq::empty()
    }
}

/// White space around a stretch changes nothing.
proof fn lemma_well_cut_widens(
    s: Seq<char>,
    r: Seq<(int, int)>,
    from: int,
    a: int,
    b: int,
    to: int,
)
    requires
        from <= a <= b <= to,
        well_cut(s, r, a, b),
        forall|k: int| from <= k < a || b <= k < to ==> white(#[trigger] s[k]),
    ensures
        well_cut(s, r, from, to),
{
    assert forall|k: int| from <= k < to && !white(#[trigger] s[k]) implies covers(r, k) by {
        assert(a <= k < b);
    }
}

proof fn lemma_segment_well_cut(s: Seq<char>, seg: Seq<char>, at: int)
    requires
        0 <= at,
        at + seg.len() <= s.len(),
        seg == s.subrange(at, at + seg.len() as int),
    ensures
        well_cut(s, segment_pieces(s, seg, at), at, at + seg.len()),
{
    let next = at + seg.len();
    lemma_trimmed_within(seg);
    lemma_trimmed_ends(seg);
    lemma_lead(seg);
    lemma_behind_trimmed(seg);
    let a = at + lead(seg);
    let b = a + trimmed(seg).len();
    assert forall|i: int| at <= i < a || b <= i < next implies white(#[trigger] s[i]) by {
        assert(s[i] == seg[i - at]);
    }
    if a < b {
        assert(s[a] == seg[a - at]);
        assert(s[b - 1] == seg[b - 1 - at]);
        lemma_pieces_well_cut(s, a, b);
        lemma_well_cut_widens(s, pieces(s, a, b), at, a, b, next);
    }
}

proof fn lemma_spans_from_well_cut(s: Seq<char>, segs: Seq<Seq<char>>, k: int)
    requires
        0 <= k <= segs.len(),
        segs.flatten() == s,
    ensures
        start_of(segs, k) <= s.len(),
        well_cut(s, spans_from(s, segs, k, start_of(segs, k)), start_of(segs, k), s.len() as int),
    decreases segs.len() - k,
{
    if k == segs.len() {
        assert(segs.take(k) =~= segs);
    } else {
        let at = start_of(segs, k);
        let next = start_of(segs, k + 1);
        lemma_segment_place(segs, k);
        lemma_spans_from_well_cut(s, segs, k + 1);
        lemma_segment_well_cut(s, segs[k], at);
        lemma_well_cut_joins(
            s,
            segment_pieces(s, segs[k], at),
            spans_from(s, segs, k + 1, next),
            at,
            next,
            next,
            s.len() as int,
        );
    }
}

/// Where the stretches of a flat text begin.
pub open spec fn start_of(segs: Seq<Seq<char>>, k: int) -> int {
    segs.take(k).flatten().len() as int
}

proof fn lemma_segment_place(segs: Seq<Seq<char>>, k: int)
    requires
        0 <= k < segs.len(),
    ensures
        start_of(segs, k + 1) == start_of(segs, k) + segs[k].len(),
        start_of(segs, k + 1) <= segs.flatten().len(),
        segs[k] == segs.flatten().subrange(start_of(segs, k), start_of(segs, k + 1)),
{
    let head = segs.take(k);
    let tail = segs.skip(k + 1);
    assert(segs.take(k + 1) =~= head.push(segs[k]));
    head.lemma_flatten_push(segs[k]);
    assert(segs =~= segs.take(k + 1) + tail);
    vstd::seq_lib::lemma_flatten_concat(segs.take(k + 1), tail);
    assert(segs[k] =~= segs.flatten().subrange(start_of(segs, k), start_of(segs, k + 1)));
}

/// However a text is cut into sentences, the stretches that are spoken follow one
/// another, none is empty, begins or ends in white space or is too long, and nothing but
/// white space is left out.
pub proof fn lemma_everything_is_spoken(s: Seq<char>, segs: Seq<Seq<char>>)
    requires
        segs.flatten() == s,
    ensures
        well_cut(s, spans_from(s, segs, 0, 0), 0, s.len() as int),
{
    lemma_spans_from_well_cut(s, segs, 0);
    assert(segs.take(0) =~= Seq::empty());
    reveal(Seq::flatten);
}

/// The stretches that are spoken are trimmed, those from a hard split too.
pub proof fn lemma_spoken_is_trimmed(s: Seq<char>, r: Seq<(int, int)>, i: int)
    requires
        well_cut(s, r, 0, s.len() as int),
        0 <= i < r.len(),
    ensures
        trimmed(s.subrange(r[i].0, r[i].1)) == s.subrange(r[i].0, r[i].1),
{
    let t = s.subrange(r[i].0, r[i].1);
    assert(t[0] == s[r[i].0]);
    assert(t.last() == s[r[i].1 - 1]);
    lemma_lead_is(t, 0);
    assert(t.skip(0) =~= t);
}

/// What is spoken of the stretches before the `k`th comes first, and lies before it.
proof fn lemma_spans_before(s: Seq<char>, segs: Seq<Seq<char>>, k: int) -> (before: Seq<
    (int, int),
>)
    requires
        0 <= k <= segs.len(),
        segs.flatten() == s,
    ensures
        spans_from(s, segs, 0, 0) == before + spans_from(s, segs, k, start_of(segs, k)),
        well_cut(s, before, 0, start_of(segs, k)),
    decreases k,
{
    if k == 0 {
        assert(segs.take(0) =~= Seq::empty());
        assert(start_of(segs, 0) == 0) by {
            reveal(Seq::flatten);
        }
        let none = Seq::<(int, int)>::empty();
        assert(none + spans_from(s, segs, 0, 0) =~= spans_from(s, segs, 0, 0));
        none
    } else {
        let before = lemma_spans_before(s, segs, k - 1);
        let at = start_of(segs, k - 1);
        let next = start_of(segs, k);
        let here = segment_pieces(s, segs[k - 1], at);
        lemma_segment_place(segs, k - 1);
        lemma_segment_well_cut(s, segs[k - 1], at);
        lemma_well_cut_joins(s, before, here, 0, at, at, next);
        assert(before + (here + spans_from(s, segs, k, next)) =~= (before + here) + spans_from(
            s,
            segs,
            k,
            next,
        ));
        before + here
    }
}

/// What is spoken of the `k`th stretch, and where it stands among what is spoken.
proof fn lemma_spans_here(s: Seq<char>, segs: Seq<Seq<char>>, k: int, a: int, b: int) -> (n: int)
    requires
        segs.flatten() == s,
        0 <= k < segs.len(),
        start_of(segs, k) <= a < b <= start_of(segs, k + 1),
        forall|i: int|
            start_of(segs, k) <= i < a || b <= i < start_of(segs, k + 1) ==> white(
                #[trigger] s[i],
            ),
        !white(s[a]),
        !white(s[b - 1]),
    ensures
        tight(s, a, b),
        ({
            let r = spans_from(s, segs, 0, 0);
            let here = pieces(s, a, b);
            &&& 0 <= n <= n + here.len() <= r.len()
            &&& forall|i: int| 0 <= i < here.len() ==> r[n + i] == #[trigger] here[i]
            &&& forall|i: int|
                0 <= i < n ==> 0 <= (#[trigger] r[i]).0 < r[i].1 <= start_of(segs, k)
            &&& forall|i: int|
                n + here.len() <= i < r.len() ==> start_of(segs, k + 1) <= (#[trigger] r[i]).0
                    < r[i].1 <= s.len()
        }),
{
    let at = start_of(segs, k);
    let next = start_of(segs, k + 1);
    let seg = segs[k];
    lemma_segment_place(segs, k);
    lemma_stretch_bounds(s, seg, at, a, b);
    let before = lemma_spans_before(s, segs, k);
    lemma_spans_from_well_cut(s, segs, k + 1);
    let here = pieces(s, a, b);
    lemma_pieces_well_cut(s, a, b);
    let after = spans_from(s, segs, k + 1, next);
    let r = spans_from(s, segs, 0, 0);
    let n = before.len() as int;
    assert(r == before + (here + after));
    assert forall|i: int| 0 <= i < here.len() implies r[n + i] == #[trigger] here[i] by {}
    assert forall|i: int| 0 <= i < n implies 0 <= (#[trigger] r[i]).0 < r[i].1 <= at by {
        assert(r[i] == before[i]);
    }
    assert forall|i: int| n + here.len() <= i < r.len() implies next <= (#[trigger] r[i]).0
        < r[i].1 <= s.len() by {
        assert(r[i] == after[i - n - here.len()]);
    }
    n
}

/// A stretch without the white space around it.
proof fn lemma_stretch_bounds(s: Seq<char>, seg: Seq<char>, at: int, a: int, b: int)
    requires
        0 <= at <= a < b <= at + seg.len() <= s.len(),
        seg == s.subrange(at, at + seg.len() as int),
        forall|i: int| at <= i < a || b <= i < at + seg.len() ==> white(#[trigger] s[i]),
        !white(s[a]),
        !white(s[b - 1]),
    ensures
        lead(seg) == a - at,
        trimmed(seg).len() == b - a,
        segment_pieces(s, seg, at) == pieces(s, a, b),
{
    assert forall|i: int| 0 <= i < a - at implies white(#[trigger] seg[i]) by {
        assert(seg[i] == s[at + i]);
    }
    assert(seg[a - at] == s[a]);
    lemma_lead_is(seg, a - at);
    let t = seg.skip(a - at);
    assert forall|i: int| b - a <= i < t.len() implies white(#[trigger] t[i]) by {
        assert(t[i] == s[a + i]);
    }
    assert(t[b - a - 1] == s[b - 1]);
    lemma_trimmed_end_is(t, b - a);
}

/// The bytes of a stretch of a text.
proof fn lemma_stretch_bytes(s: Seq<char>, a: int, b: int)
    requires
        0 <= a <= b <= s.len(),
    ensures
        encode_utf8(s.subrange(a, b)).len() == byte_at(s, b) - byte_at(s, a),
{
    assert(s.take(b) =~= s.take(a) + s.subrange(a, b));
    lemma_encode_append(s.take(a), s.subrange(a, b));
}

/// A sentence that is not too long stays whole. However a text is cut into stretches, a
/// stretch that holds `a..b` and else white space is spoken in one piece, exactly `a..b`,
/// if that takes at most 1200 bytes; every other piece lies before the stretch or behind it.
pub proof fn lemma_short_sentence_stays_whole(
    s: Seq<char>,
    segs: Seq<Seq<char>>,
    k: int,
    a: int,
    b: int,
) -> (n: int)
    requires
        segs.flatten() == s,
        0 <= k < segs.len(),
        segs.take(k).flatten().len() <= a < b <= segs.take(k + 1).flatten().len(),
        forall|i: int|
            segs.take(k).flatten().len() <= i < a || b <= i < segs.take(
                k + 1,
            ).flatten().len() ==> white(#[trigger] s[i]),
        !white(s[a]),
        !white(s[b - 1]),
        encode_utf8(s.subrange(a, b)).len() <= 1200,
    ensures
        ({
            let r = byte_spans(s, spans_from(s, segs, 0, 0));
            &&& 0 <= n < r.len()
            &&& r[n] == (
                encode_utf8(s.take(a)).len() as int,
                encode_utf8(s.take(b)).len() as int,
            )
            &&& forall|i: int|
                0 <= i < n ==> (#[trigger] r[i]).1 <= encode_utf8(
                    s.take(segs.take(k).flatten().len() as int),
                ).len()
            &&& forall|i: int|
                n < i < r.len() ==> (#[trigger] r[i]).0 >= encode_utf8(
                    s.take(segs.take(k + 1).flatten().len() as int),
                ).len()
        }),
{
    lemma_segment_place(segs, k);
    let at = start_of(segs, k);
    let next = start_of(segs, k + 1);
    let n = lemma_spans_here(s, segs, k, a, b);
    lemma_stretch_bytes(s, a, b);
    assert(pieces(s, a, b) == seq![(a, b)]);
    assert(pieces(s, a, b)[0] == (a, b));
    let c = spans_from(s, segs, 0, 0);
    let r = byte_spans(s, c);
    assert forall|i: int| 0 <= i < n implies (#[trigger] r[i]).1 <= byte_at(s, at) by {
        assert(c[i].1 <= at);
        lemma_byte_order(s, c[i].1, at);
    }
    assert forall|i: int| n < i < r.len() implies (#[trigger] r[i]).0 >= byte_at(s, next) by {
        assert(c[i].0 >= next);
        lemma_byte_order(s, next, c[i].0);
    }
    n
}

/// The last space before `w`, if there is one.
proof fn lemma_last_space_is_last(s: Seq<char>, a: int, w: int, k: int)
    requires
        0 <= a <= k <= w <= s.len(),
    ensures
        ({
            let c = last_space_below(s, a, w, k);
            &&& c < k ==> forall|q: int| c < q < k ==> #[trigger] s[q] != ' '
            &&& c >= k ==> c == w && forall|q: int| a <= q < k ==> #[trigger] s[q] != ' '
        }),
    decreases k,
{
    if k > a && s[k - 1] != ' ' {
        lemma_last_space_is_last(s, a, w, k - 1);
        lemma_last_space(s, a, w, k - 1);
    }
}

/// Where to cut what stands from `x` to `b`: at the last space that ends within 1000 bytes,
/// and where there is none, as far as whole characters fit in 1000 bytes.
pub open spec fn is_cut(s: Seq<char>, x: int, c: int, b: int) -> bool {
    let last_space = {
        &&& s[c] == ' '
        &&& encode_utf8(s.take(c + 1)).len() - encode_utf8(s.take(x)).len() <= 1000
        &&& forall|q: int|
            c < q < b && #[trigger] s[q] == ' ' ==> encode_utf8(s.take(q + 1)).len()
                - encode_utf8(s.take(x)).len() > 1000
    };
    let no_space = {
        &&& encode_utf8(s.take(c)).len() - encode_utf8(s.take(x)).len() <= 1000
        &&& encode_utf8(s.take(c + 1)).len() - encode_utf8(s.take(x)).len() > 1000
        &&& forall|q: int| x <= q < c ==> #[trigger] s[q] != ' '
    };
    x < c < b && (last_space || no_space)
}

proof fn lemma_is_cut(s: Seq<char>, a: int, b: int)
    requires
        tight(s, a, b),
        byte_at(s, b) - byte_at(s, a) > SPLIT_OVER,
    ensures
        is_cut(s, a, cut_at(s, a, b), b),
{
    let c = cut_at(s, a, b);
    lemma_cut(s, a, b);
    let target = byte_at(s, a) + SPLIT_WITHIN;
    let w = snap(s, b, target);
    lemma_snap(s, b, target);
    assert(w >= a);
    assert(w < b);
    assert(byte_at(s, w + 1) > target);
    lemma_last_space(s, a, w, w);
    lemma_last_space_is_last(s, a, w, w);
    if c < w {
        lemma_byte_order(s, c + 1, w);
        assert forall|q: int| c < q < b && #[trigger] s[q] == ' ' implies byte_at(s, q + 1)
            > target by {
            assert(q >= w);
        }
    }
}

/// Where a piece that is cut off ends, and where the next begins.
proof fn lemma_piece_is_cut(s: Seq<char>, a: int, b: int, i: int) -> (c: int)
    requires
        tight(s, a, b),
        0 <= i < pieces(s, a, b).len(),
    ensures
        ({
            let r = pieces(s, a, b);
            let (x, y) = r[i];
            &&& a <= x < y <= b
            &&& i + 1 == r.len() ==> y == b && byte_at(s, b) - byte_at(s, x) <= 1200
            &&& i + 1 < r.len() ==> {
                &&& byte_at(s, b) - byte_at(s, x) > 1200
                &&& y <= c <= r[i + 1].0 < b
                &&& !white(s[y - 1])
                &&& !white(s[r[i + 1].0])
                &&& forall|q: int| y <= q < r[i + 1].0 ==> white(#[trigger] s[q])
                &&& is_cut(s, x, c, b)
            }
        }),
    decreases b - a,
{
    if byte_at(s, b) - byte_at(s, a) <= SPLIT_OVER {
        0
    } else {
        let c = cut_at(s, a, b);
        let n = past_white(s, c);
        let e = piece_end(s, a, c);
        lemma_cut(s, a, b);
        lemma_is_cut(s, a, b);
        lemma_piece_end(s, a, c);
        lemma_first_piece(s, n, b);
        let rest = pieces(s, n, b);
        let r = pieces(s, a, b);
        assert(r == seq![(a, e)] + rest);
        if i > 0 {
            let d = lemma_piece_is_cut(s, n, b, i - 1);
            assert(r[i] == rest[i - 1]);
            if i + 1 < r.len() {
                assert(r[i + 1] == rest[i]);
            }
            d
        } else {
            assert(r[1] == rest[0]);
            c
        }
    }
}

/// Of a stretch that holds `a..b` and else white space, what is spoken first begins at `a`.
pub proof fn lemma_sentence_begins(
    s: Seq<char>,
    segs: Seq<Seq<char>>,
    k: int,
    a: int,
    b: int,
) -> (n: int)
    requires
        segs.flatten() == s,
        0 <= k < segs.len(),
        segs.take(k).flatten().len() <= a < b <= segs.take(k + 1).flatten().len(),
        forall|i: int|
            segs.take(k).flatten().len() <= i < a || b <= i < segs.take(
                k + 1,
            ).flatten().len() ==> white(#[trigger] s[i]),
        !white(s[a]),
        !white(s[b - 1]),
    ensures
        0 <= n < spans_from(s, segs, 0, 0).len(),
        spans_from(s, segs, 0, 0)[n].0 == a,
{
    lemma_segment_place(segs, k);
    let n = lemma_spans_here(s, segs, k, a, b);
    lemma_first_piece(s, a, b);
    let here = pieces(s, a, b);
    assert(spans_from(s, segs, 0, 0)[n + 0] == here[0]);
    n
}

/// A sentence that is too long is cut where it should be. In a stretch that holds `a..b`
/// and else white space, whatever piece begins at `x`: if more than 1200 bytes are left
/// from there, it is the text up to a cut (see `is_cut`), trimmed, and the next piece
/// begins behind the cut, past white space; else it is everything that is left.
pub proof fn lemma_long_sentence_is_cut(
    s: Seq<char>,
    segs: Seq<Seq<char>>,
    k: int,
    a: int,
    b: int,
    i: int,
)
    requires
        segs.flatten() == s,
        0 <= k < segs.len(),
        segs.take(k).flatten().len() <= a < b <= segs.take(k + 1).flatten().len(),
        forall|i: int|
            segs.take(k).flatten().len() <= i < a || b <= i < segs.take(
                k + 1,
            ).flatten().len() ==> white(#[trigger] s[i]),
        !white(s[a]),
        !white(s[b - 1]),
        0 <= i < spans_from(s, segs, 0, 0).len(),
        a <= spans_from(s, segs, 0, 0)[i].0 < b,
    ensures
        ({
            let r = spans_from(s, segs, 0, 0);
            let (x, y) = r[i];
            &&& byte_spans(s, r)[i] == (
                encode_utf8(s.take(x)).len() as int,
                encode_utf8(s.take(y)).len() as int,
            )
            &&& if encode_utf8(s.subrange(x, b)).len() <= 1200 {
                y == b
            } else {
                &&& i + 1 < r.len()
                &&& x < y <= r[i + 1].0 < b
                &&& !white(s[y - 1])
                &&& !white(s[r[i + 1].0])
                &&& forall|q: int| y <= q < r[i + 1].0 ==> white(#[trigger] s[q])
                &&& exists|c: int| y <= c <= r[i + 1].0 && #[trigger] is_cut(s, x, c, b)
            }
        }),
{
    let q = lemma_span_is_piece(s, segs, k, a, b, i);
    let (x, y) = spans_from(s, segs, 0, 0)[i];
    let c = lemma_piece_is_cut(s, a, b, q);
    lemma_stretch_bytes(s, x, b);
}

/// Which piece of its stretch a span is.
proof fn lemma_span_is_piece(
    s: Seq<char>,
    segs: Seq<Seq<char>>,
    k: int,
    a: int,
    b: int,
    i: int,
) -> (q: int)
    requires
        segs.flatten() == s,
        0 <= k < segs.len(),
        start_of(segs, k) <= a < b <= start_of(segs, k + 1),
        forall|i: int|
            start_of(segs, k) <= i < a || b <= i < start_of(segs, k + 1) ==> white(
                #[trigger] s[i],
            ),
        !white(s[a]),
        !white(s[b - 1]),
        0 <= i < spans_from(s, segs, 0, 0).len(),
        a <= spans_from(s, segs, 0, 0)[i].0 < b,
    ensures
        tight(s, a, b),
        0 <= q < pieces(s, a, b).len(),
        spans_from(s, segs, 0, 0)[i] == pieces(s, a, b)[q],
        q + 1 < pieces(s, a, b).len() ==> i + 1 < spans_from(s, segs, 0, 0).len()
            && spans_from(s, segs, 0, 0)[i + 1] == pieces(s, a, b)[q + 1],
{
    lemma_segment_place(segs, k);
    let n = lemma_spans_here(s, segs, k, a, b);
    let here = pieces(s, a, b);
    let r = spans_from(s, segs, 0, 0);
    let q = i - n;
    if i < n {
        assert(r[i].1 <= start_of(segs, k));
    }
    if i >= n + here.len() {
        assert(start_of(segs, k + 1) <= r[i].0);
    }
    assert(r[n + q] == here[q]);
    if q + 1 < here.len() {
        assert(r[n + (q + 1)] == here[q + 1]);
    }
    q
}

proof fn lemma_first_piece(s: Seq<char>, a: int, b: int)
    requires
        tight(s, a, b),
    ensures
        pieces(s, a, b).len() > 0,
        pieces(s, a, b)[0].0 == a,
{
}

/// Where the sentences of a text lie, in characters, if it is cut into the given
/// stretches.
fn find_spans(s: &Vec<char>, offs: &Vec<usize>, segs: &Vec<String>) -> (r: Vec<(usize, usize)>)
    requires
        texts(segs@).flatten() == s@,
        offs.len() == s.len() + 1,
        forall|i: int| 0 <= i <= s.len() ==> #[trigger] offs@[i] == byte_at(s@, i),
    ensures
        pairs(r@) == spans_from(s@, texts(segs@), 0, 0),
{
    let ghost g = texts(segs@);
    let ghost all = spans_from(s@, g, 0, 0);
    let mut out: Vec<(usize, usize)> = Vec::new();
    let mut at: usize = 0;
    let mut k: usize = 0;
    assert(pairs(out@) + all =~= all);
    assert(g.take(0) =~= Seq::empty());
    assert(start_of(g, 0) == 0) by {
        reveal(Seq::flatten);
    }
    while k < segs.len()
        invariant
            k <= segs.len(),
            g == texts(segs@),
            g.flatten() == s@,
            at == start_of(g, k as int),
            offs.len() == s.len() + 1,
            forall|i: int| 0 <= i <= s.len() ==> #[trigger] offs@[i] == byte_at(s@, i),
            pairs(out@) + spans_from(s@, g, k as int, at as int) == all,
        decreases segs.len() - k,
    {
        let seg = chars_of(segs[k].as_str());
        proof {
            lemma_segment_place(g, k as int);
            lemma_trimmed_within(g[k as int]);
            lemma_trimmed_ends(g[k as int]);
        }
        let (x, y) = trim_bounds(seg.as_slice());
        let ghost before = pairs(out@);
        if x < y {
            let a: usize = at + x;
            let b: usize = at + y;
            proof {
                let t = trimmed(seg@);
                assert(t[0] == seg@[x as int]);
                assert(t.last() == seg@[y - 1]);
                assert(seg@[x as int] == s@[a as int]);
                assert(seg@[y - 1] == s@[b - 1]);
            }
            push_pieces(s, offs, a, b, &mut out);
        }
        assert(pairs(out@) =~= before + segment_pieces(s@, seg@, at as int));
        at += seg.len();
        assert(pairs(out@) + spans_from(s@, g, k + 1, at as int) =~= before + spans_from(
            s@,
            g,
            k as int,
            at - seg.len(),
        ));
        k += 1;
    }
    assert(pairs(out@) =~= all);
    out
}

/// Where stretches of characters lie in bytes.
pub fn to_bytes(s: &Vec<char>, offs: &Vec<usize>, r: &Vec<(usize, usize)>) -> (o: Vec<
    (usize, usize),
>)
    requires
        offs.len() == s.len() + 1,
        forall|i: int| 0 <= i <= s.len() ==> #[trigger] offs@[i] == byte_at(s@, i),
        forall|i: int|
            0 <= i < r.len() ==> (#[trigger] r@[i]).0 <= s.len() && r@[i].1 <= s.len(),
    ensures
        pairs(o@) == byte_spans(s@, pairs(r@)),
{
    let mut o: Vec<(usize, usize)> = Vec::new();
    let mut k: usize = 0;
    while k < r.len()
        invariant
            k <= r.len(),
            offs.len() == s.len() + 1,
            forall|i: int| 0 <= i <= s.len() ==> #[trigger] offs@[i] == byte_at(s@, i),
            forall|i: int|
                0 <= i < r.len() ==> (#[trigger] r@[i]).0 <= s.len() && r@[i].1 <= s.len(),
            o.len() == k,
            forall|i: int|
                0 <= i < k ==> (#[trigger] o@[i]).0 == byte_at(s@, r@[i].0 as int) && o@[i].1
                    == byte_at(s@, r@[i].1 as int),
        decreases r.len() - k,
    {
        let (a, b) = r[k];
        o.push((offs[a], offs[b]));
        k += 1;
    }
    assert(pairs(o@) =~= byte_spans(s@, pairs(r@)));
    o
}

/// Spans that are well cut lie in the text.
pub proof fn lemma_spans_in_bounds(s: Seq<char>, r: Seq<(usize, usize)>)
    requires
        well_cut(s, pairs(r), 0, s.len() as int),
    ensures
        forall|i: int|
            0 <= i < r.len() ==> (#[trigger] r[i]).0 < r[i].1 && r[i].1 <= s.len(),
{
    assert forall|i: int| 0 <= i < r.len() implies (#[trigger] r[i]).0 < r[i].1 && r[i].1
        <= s.len() by {
        assert(pairs(r)[i] == (r[i].0 as int, r[i].1 as int));
    }
}

/// There are no more sentences than characters between the white space at the ends.
pub proof fn lemma_sentence_count(s: Seq<char>, r: Seq<(int, int)>)
    requires
        well_cut(s, r, 0, s.len() as int),
    ensures
        r.len() <= trimmed(s).len(),
{
    if r.len() > 0 {
        let n = r.len() as int;
        lemma_starts_apart(s, r, n - 1);
        lemma_trimmed_within(s);
        lemma_lead(s);
        lemma_behind_trimmed(s);
        let first = r[0].0;
        let last = r[n - 1].0;
        assert(!white(s[first]));
        assert(!white(s[last]));
        if first < lead(s) {
            assert(white(s[first]));
        }
        if last >= lead(s) + trimmed(s).len() {
            assert(white(s[last]));
        }
    }
}

proof fn lemma_starts_apart(s: Seq<char>, r: Seq<(int, int)>, k: int)
    requires
        well_cut(s, r, 0, s.len() as int),
        0 <= k < r.len(),
    ensures
        r[k].0 >= r[0].0 + k,
    decreases k,
{
    if k > 0 {
        lemma_starts_apart(s, r, k - 1);
        assert(r[k - 1].0 < r[k - 1].1);
        assert(r[k - 1].1 <= r[k].0);
    }
}

/// Trimmed sentence byte ranges over a text that is cut into the given stretches,
/// long run-ons cut further.
pub fn ranges_of(raw: &str, segs: &Vec<String>) -> (r: Vec<(usize, usize)>)
    requires
        texts(segs@).flatten() == raw@,
    ensures
        pairs(r@) == byte_spans(raw@, spans_from(raw@, texts(segs@), 0, 0)),
{
    let (s, offs) = chars_and_offsets(raw);
    let found = find_spans(&s, &offs, segs);
    proof {
        lemma_everything_is_spoken(s@, texts(segs@));
        lemma_spans_in_bounds(s@, found@);
    }
    to_bytes(&s, &offs, &found)
}

/// Where the sentences of a text lie, in characters.
pub fn sentence_spans(raw: &str, s: &Vec<char>, offs: &Vec<usize>) -> (r: Vec<(usize, usize)>)
    requires
        s@ == raw@,
        offs.len() == s.len() + 1,
        forall|i: int| 0 <= i <= s.len() ==> #[trigger] offs@[i] == byte_at(s@, i),
    ensures
        sentences(raw@).flatten() == raw@,
        pairs(r@) == spans_from(raw@, sentences(raw@), 0, 0),
        pairs(r@) == spans(raw@),
        well_cut(raw@, spans(raw@), 0, raw@.len() as int),
        forall|i: int|
            0 <= i < r.len() ==> (#[trigger] r@[i]).0 < r@[i].1 && r@[i].1 <= s.len(),
{
    let segs = split_sentences(raw);
    let r = find_spans(s, offs, &segs);
    proof {
        lemma_everything_is_spoken(s@, texts(segs@));
        lemma_spans_in_bounds(s@, r@);
    }
    r
}

/// Trimmed sentence byte ranges over the raw text, long run-ons cut.
pub fn sentence_ranges(raw: &str) -> (r: Vec<(usize, usize)>)
    ensures
        sentences(raw@).flatten() == raw@,
        pairs(r@) == byte_spans(raw@, spans_from(raw@, sentences(raw@), 0, 0)),
        pairs(r@) == byte_spans(raw@, spans(raw@)),
        well_cut(raw@, spans(raw@), 0, raw@.len() as int),
        forall|i: int|
            0 <= i < r.len() ==> is_char_boundary(encode_utf8(raw@), (#[trigger] r@[i]).0 as int)
                && is_char_boundary(encode_utf8(raw@), r@[i].1 as int),
{
    let segs = split_sentences(raw);
    let r = ranges_of(raw, &segs);
    proof {
        let all = spans(raw@);
        lemma_everything_is_spoken(raw@, texts(segs@));
        assert(pairs(r@).len() == byte_spans(raw@, all).len());
        assert(all.len() == r.len());
        assert forall|i: int| 0 <= i < r.len() implies is_char_boundary(
            encode_utf8(raw@),
            (#[trigger] r@[i]).0 as int,
        ) && is_char_boundary(encode_utf8(raw@), r@[i].1 as int) by {
            assert(pairs(r@)[i] == byte_spans(raw@, all)[i]);
            assert(all[i].0 < all[i].1);
            lemma_byte_boundary(raw@, all[i].0);
            lemma_byte_boundary(raw@, all[i].1);
        }
    }
    r
}

} // verus!
