//! Punctuation around a phonemizer that knows only words.
//!
//! A line is cut into chunks without punctuation and the marks between them,
//! the chunks are turned into phonemes elsewhere, and the marks are put back.

use crate::runs::{are_runs, find_runs, lemma_runs, pairs, runs};
use crate::seqs::{
    lemma_filter_append, lemma_filter_keeps, lemma_filter_source, lemma_filter_twice,
    lemma_flatten_first, lemma_none_kept,
};
use crate::text::{
    chars_of, chars_of_all, drop_char, first_at, is_white, lemma_first_at, lemma_occurs_char,
    lemma_replaced_all, lemma_replaced_append, lemma_replaced_ends, lemma_replaced_keeps,
    lemma_replaced_none, lemma_split_joins, lemma_split_one, lemma_trimmed_blank,
    lemma_trimmed_is, lemma_trimmed_keeps, lists, occurs_at, other_than, push_all, replace,
    replaced, slice_of, split, split_at_char, string_of, strings_of, texts, trim, trimmed, white,
    without,
};
use vstd::prelude::*;

verus! {

/// The punctuation marks.
pub open spec fn mark(c: char) -> bool {
    ||| c == ';'
    ||| c == ':'
    ||| c == ','
    ||| c == '.'
    ||| c == '!'
    ||| c == '?'
    ||| c == '¡'
    ||| c == '¿'
    ||| c == '—'
    ||| c == '…'
    ||| c == '"'
    ||| c == '«'
    ||| c == '»'
    ||| c == '“'
    ||| c == '”'
    ||| c == '('
    ||| c == ')'
    ||| c == '{'
    ||| c == '}'
    ||| c == '['
    ||| c == ']'
}

/// Is `c` a punctuation mark?
pub fn is_mark(c: char) -> (b: bool)
    ensures
        b == mark(c),
{
    c == ';' || c == ':' || c == ',' || c == '.' || c == '!' || c == '?' || c == '¡' || c == '¿'
        || c == '—' || c == '…' || c == '"' || c == '«' || c == '»' || c == '“' || c == '”' || c
        == '(' || c == ')' || c == '{' || c == '}' || c == '[' || c == ']'
}

/// Where a stretch of marks stood in its line.
#[derive(Debug, Clone, Copy, PartialEq, Eq, Structural)]
pub enum Position {
    /// At the start of the line.
    Begin,
    /// At the end of the line.
    End,
    /// Between two chunks.
    Inside,
    /// The line is nothing else.
    Alone,
}

/// A stretch of marks, with the white space around them.
#[derive(Debug)]
pub struct Mark {
    pub text: String,
    pub position: Position,
}

/// The model of a [`Mark`].
#[verifier::ext_equal]
pub struct MarkView {
    pub text: Seq<char>,
    pub position: Position,
}

impl View for Mark {
    type V = MarkView;

    open spec fn view(&self) -> MarkView {
        MarkView { text: self.text@, position: self.position }
    }
}

pub open spec fn mark_views(m: Seq<Mark>) -> Seq<MarkView> {
    m.map_values(|x: Mark| x@)
}

/// Where a line holds marks or white space.
pub open spec fn cut_mask(s: Seq<char>) -> Seq<bool> {
    Seq::new(s.len(), |i: int| mark(s[i]) || white(s[i]))
}

/// The stretches of `s` that hold a mark.
pub open spec fn holds_mark(s: Seq<char>) -> spec_fn((int, int)) -> bool {
    |r: (int, int)| exists|k: int| r.0 <= k < r.1 && mark(#[trigger] s[k])
}

/// The maximal stretches of marks and white space that hold a mark.
pub open spec fn mark_runs(s: Seq<char>) -> Seq<(int, int)> {
    runs(cut_mask(s)).filter(holds_mark(s))
}

/// Where the gap before run `k` begins.
pub open spec fn gap_start(r: Seq<(int, int)>, k: int) -> int {
    if k == 0 {
        0
    } else {
        r[k - 1].1
    }
}

/// Where the gap before run `k` ends.
pub open spec fn gap_end(r: Seq<(int, int)>, k: int, len: int) -> int {
    if k == r.len() {
        len
    } else {
        r[k].0
    }
}

/// What stands before the first run, between the runs and behind the last.
pub open spec fn gaps(s: Seq<char>, r: Seq<(int, int)>) -> Seq<Seq<char>> {
    Seq::new(
        r.len() + 1,
        |k: int| s.subrange(gap_start(r, k), gap_end(r, k, s.len() as int)),
    )
}

/// The gaps that are not empty.
pub open spec fn filled() -> spec_fn(Seq<char>) -> bool {
    |c: Seq<char>| c.len() > 0
}

pub open spec fn position_of(r: Seq<(int, int)>, k: int, len: int) -> Position {
    if k == 0 && r[0].0 == 0 {
        Position::Begin
    } else if k == r.len() - 1 && r[k].1 == len {
        Position::End
    } else {
        Position::Inside
    }
}

pub open spec fn run_marks(s: Seq<char>, r: Seq<(int, int)>) -> Seq<MarkView> {
    Seq::new(
        r.len(),
        |k: int|
            MarkView {
                text: s.subrange(r[k].0, r[k].1),
                position: position_of(r, k, s.len() as int),
            },
    )
}

/// A line cut into chunks without punctuation, and the marks between them.
pub open spec fn preserved(s: Seq<char>) -> (Seq<Seq<char>>, Seq<MarkView>) {
    let r = mark_runs(s);
    if r.len() == 0 {
        (seq![s], Seq::empty())
    } else if r.len() == 1 && r[0] == (0int, s.len() as int) {
        (Seq::empty(), seq![MarkView { text: s, position: Position::Alone }])
    } else {
        (gaps(s, r).filter(filled()), run_marks(s, r))
    }
}

/// The runs with marks are runs, and every mark lies in one of them.
pub proof fn lemma_mark_runs(s: Seq<char>)
    ensures
        ({
            let r = mark_runs(s);
            &&& forall|k: int|
                0 <= k < r.len() ==> {
                    &&& 0 <= (#[trigger] r[k]).0 < r[k].1 <= s.len()
                    &&& r[k].1 < s.len() ==> !mark(s[r[k].1]) && !white(s[r[k].1])
                    &&& r[k].0 > 0 ==> !mark(s[r[k].0 - 1]) && !white(s[r[k].0 - 1])
                    &&& holds_mark(s)(r[k])
                }
            &&& forall|k: int, l: int|
                0 <= k < l < r.len() ==> (#[trigger] r[k]).1 < (#[trigger] r[l]).0
            &&& forall|x: int|
                0 <= x < s.len() && mark(#[trigger] s[x]) ==> exists|k: int|
                    0 <= k < r.len() && (#[trigger] r[k]).0 <= x < r[k].1
        }),
{
    let mask = cut_mask(s);
    let all = runs(mask);
    let keep = holds_mark(s);
    let r = mark_runs(s);
    lemma_runs(mask);
    lemma_filter_ordered(all, keep);
    assert forall|k: int| 0 <= k < r.len() implies {
        &&& 0 <= (#[trigger] r[k]).0 < r[k].1 <= s.len()
        &&& r[k].1 < s.len() ==> !mark(s[r[k].1]) && !white(s[r[k].1])
        &&& r[k].0 > 0 ==> !mark(s[r[k].0 - 1]) && !white(s[r[k].0 - 1])
        &&& holds_mark(s)(r[k])
    } by {
        let q = lemma_filter_source(all, keep, k);
        assert(all[q] == r[k]);
        if r[k].1 < s.len() {
            assert(!mask[r[k].1]);
        }
        if r[k].0 > 0 {
            assert(!mask[r[k].0 - 1]);
        }
    }
    assert forall|x: int| 0 <= x < s.len() && mark(#[trigger] s[x]) implies exists|k: int|
        0 <= k < r.len() && (#[trigger] r[k]).0 <= x < r[k].1 by {
        assert(mask[x]);
        let q = choose|q: int| 0 <= q < all.len() && (#[trigger] all[q]).0 <= x < all[q].1;
        assert(keep(all[q]));
        let k = lemma_filter_keeps(all, keep, q);
        assert(r[k].0 <= x < r[k].1);
    }
}

/// Dropping runs keeps the others in order.
proof fn lemma_filter_ordered(r: Seq<(int, int)>, keep: spec_fn((int, int)) -> bool)
    requires
        forall|k: int, l: int| 0 <= k < l < r.len() ==> (#[trigger] r[k]).1 < (#[trigger] r[l]).0,
    ensures
        forall|k: int, l: int|
            0 <= k < l < r.filter(keep).len() ==> (#[trigger] r.filter(keep)[k]).1 < (
            #[trigger] r.filter(keep)[l]).0,
    decreases r.len(),
{
    reveal(Seq::filter);
    if r.len() > 0 {
        let front = r.drop_last();
        lemma_filter_ordered(front, keep);
        let f = r.filter(keep);
        let g = front.filter(keep);
        assert forall|k: int, l: int| 0 <= k < l < f.len() implies (#[trigger] f[k]).1 < (
        #[trigger] f[l]).0 by {
            if l < g.len() {
                assert(f[k] == g[k] && f[l] == g[l]);
            } else {
                assert(f[k] == g[k]);
                assert(f[l] == r.last());
                let q = lemma_filter_source(front, keep, k);
                assert(r[q] == g[k]);
            }
        }
    }
}

proof fn lemma_mark_in_run(s: Seq<char>, x: int) -> (k: int)
    requires
        0 <= x < s.len(),
        mark(s[x]),
    ensures
        0 <= k < mark_runs(s).len(),
        mark_runs(s)[k].0 <= x < mark_runs(s)[k].1,
{
    lemma_mark_runs(s);
    let r = mark_runs(s);
    choose|k: int| 0 <= k < r.len() && (#[trigger] r[k]).0 <= x < r[k].1
}

proof fn lemma_runs_apart(s: Seq<char>, k: int, l: int)
    requires
        0 <= k < l < mark_runs(s).len(),
    ensures
        mark_runs(s)[k].1 < mark_runs(s)[l].0,
        mark_runs(s)[l].0 < mark_runs(s)[l].1,
{
    lemma_mark_runs(s);
}

proof fn lemma_gap_holds_no_mark(s: Seq<char>, k: int, x: int)
    requires
        0 <= k <= mark_runs(s).len(),
        gap_start(mark_runs(s), k) <= x < gap_end(mark_runs(s), k, s.len() as int),
    ensures
        0 <= x < s.len(),
        !mark(s[x]),
{
    lemma_gap_bounds(s, k);
    if mark(s[x]) {
        let q = lemma_mark_in_run(s, x);
        if q < k - 1 {
            lemma_runs_apart(s, q, k - 1);
        } else if k < q {
            lemma_runs_apart(s, k, q);
        }
    }
}

/// The chunks of a line hold no punctuation.
pub proof fn lemma_chunks_hold_no_mark(s: Seq<char>, c: int, i: int)
    requires
        0 <= c < preserved(s).0.len(),
        0 <= i < preserved(s).0[c].len(),
    ensures
        !mark(preserved(s).0[c][i]),
{
    let r = mark_runs(s);
    if r.len() == 0 {
        lemma_gap_holds_no_mark(s, 0, i);
    } else {
        let k = lemma_filter_source(gaps(s, r), filled(), c);
        lemma_gap_bounds(s, k);
        lemma_gap_holds_no_mark(s, k, gap_start(r, k) + i);
    }
}

proof fn lemma_gap_bounds(s: Seq<char>, k: int)
    requires
        0 <= k <= mark_runs(s).len(),
    ensures
        0 <= gap_start(mark_runs(s), k) <= gap_end(mark_runs(s), k, s.len() as int) <= s.len(),
        0 < k < mark_runs(s).len() ==> gap_start(mark_runs(s), k) < gap_end(
            mark_runs(s),
            k,
            s.len() as int,
        ),
{
    lemma_mark_runs(s);
    let r = mark_runs(s);
    if k > 0 {
        assert(r[k - 1].1 <= s.len());
    }
    if k < r.len() {
        assert(r[k].0 < s.len());
        if k > 0 {
            assert(r[k - 1].1 < r[k].0);
        }
    }
}

fn find_mark_runs(s: &[char]) -> (r: Vec<(usize, usize)>)
    ensures
        pairs(r@) == mark_runs(s@),
{
    let mut mask: Vec<bool> = Vec::new();
    let mut i: usize = 0;
    while i < s.len()
        invariant
            i <= s.len(),
            mask.len() == i,
            forall|k: int| 0 <= k < i ==> #[trigger] mask@[k] == (mark(s@[k]) || white(s@[k])),
        decreases s.len() - i,
    {
        mask.push(is_mark(s[i]) || is_white(s[i]));
        i += 1;
    }
    assert(mask@ =~= cut_mask(s@));
    let all = find_runs(mask.as_slice());
    proof {
        lemma_runs(mask@);
    }
    let mut r: Vec<(usize, usize)> = Vec::new();
    let mut j: usize = 0;
    let ghost keep = holds_mark(s@);
    assert(pairs(all@).take(0).filter(keep) =~= Seq::<(int, int)>::empty());
    assert(pairs(r@) =~= Seq::<(int, int)>::empty());
    while j < all.len()
        invariant
            j <= all.len(),
            keep == holds_mark(s@),
            are_runs(mask@, 0, pairs(all@)),
            mask@.len() == s@.len(),
            pairs(r@) == pairs(all@).take(j as int).filter(keep),
        decreases all.len() - j,
    {
        let (a, b) = all[j];
        let ghost head = pairs(all@).take(j as int);
        assert(pairs(all@)[j as int] == (a as int, b as int));
        proof {
            head.lemma_filter_push((a as int, b as int), keep);
            assert(pairs(all@).take(j + 1) =~= head.push((a as int, b as int)));
        }
        let mut found = false;
        let mut x: usize = a;
        while x < b
            invariant
                a <= x <= b <= s.len(),
                found ==> exists|k: int| a <= k < b && mark(#[trigger] s@[k]),
                !found ==> forall|k: int| a <= k < x ==> !mark(#[trigger] s@[k]),
            decreases b - x,
        {
            if is_mark(s[x]) {
                found = true;
            }
            x += 1;
        }
        assert(found == keep((a as int, b as int)));
        if found {
            let ghost before = r@;
            r.push((a, b));
            assert(pairs(r@) =~= pairs(before).push((a as int, b as int)));
        }
        j += 1;
    }
    assert(pairs(all@).take(j as int) =~= pairs(all@));
    r
}

/// Cut a line into chunks without punctuation, and the marks between them.
pub fn preserve(line: &str) -> (r: (Vec<String>, Vec<Mark>))
    ensures
        (texts(r.0@), mark_views(r.1@)) == preserved(line@),
{
    let s = chars_of(line);
    let cuts = find_mark_runs(s.as_slice());
    let ghost r = mark_runs(s@);
    let n: usize = cuts.len();
    assert(pairs(cuts@).len() == cuts@.len());
    let mut chunks: Vec<String> = Vec::new();
    let mut marks: Vec<Mark> = Vec::new();
    if n == 0 {
        chunks.push(string_of(s.as_slice()));
        assert(texts(chunks@) =~= seq![s@]);
        assert(mark_views(marks@) =~= Seq::empty());
        return (chunks, marks);
    }
    assert(r[0] == (cuts@[0].0 as int, cuts@[0].1 as int));
    if n == 1 && cuts[0].0 == 0 && cuts[0].1 == s.len() {
        marks.push(Mark { text: string_of(s.as_slice()), position: Position::Alone });
        assert(texts(chunks@) =~= Seq::empty());
        assert(mark_views(marks@) =~= seq![MarkView { text: s@, position: Position::Alone }]);
        return (chunks, marks);
    }
    let ghost g = gaps(s@, r);
    let mut k: usize = 0;
    assert(g.take(0).filter(filled()) =~= Seq::<Seq<char>>::empty());
    assert(texts(chunks@) =~= Seq::<Seq<char>>::empty());
    while k < n
        invariant
            k <= n,
            n == cuts.len(),
            r == mark_runs(s@),
            r == pairs(cuts@),
            g == gaps(s@, r),
            texts(chunks@) == g.take(k as int).filter(filled()),
            mark_views(marks@) == run_marks(s@, r).take(k as int),
        decreases n - k,
    {
        let (a, b) = cuts[k];
        assert(r[k as int] == (a as int, b as int));
        let mut from: usize = 0;
        if k > 0 {
            from = cuts[k - 1].1;
            assert(r[k - 1] == (cuts@[k - 1].0 as int, cuts@[k - 1].1 as int));
        }
        proof {
            lemma_gap_bounds(s@, k as int);
            lemma_mark_runs(s@);
            g.take(k as int).lemma_filter_push(g[k as int], filled());
            assert(g.take(k + 1) =~= g.take(k as int).push(g[k as int]));
        }
        if from < a {
            let ghost before = chunks@;
            let piece = slice_of(s.as_slice(), from, a);
            let chunk = string_of(piece.as_slice());
            assert(chunk@ =~= g[k as int]);
            chunks.push(chunk);
            assert(texts(chunks@) =~= texts(before).push(chunk@));
        }
        let position = if k == 0 && a == 0 {
            Position::Begin
        } else if k == n - 1 && b == s.len() {
            Position::End
        } else {
            Position::Inside
        };
        let ghost before = marks@;
        let piece = slice_of(s.as_slice(), a, b);
        let m = Mark { text: string_of(piece.as_slice()), position };
        marks.push(m);
        proof {
            let all = run_marks(s@, r);
            assert(m@ =~= all[k as int]);
            assert(mark_views(marks@) =~= mark_views(before).push(m@));
            assert(all.take(k + 1) =~= all.take(k as int).push(all[k as int]));
        }
        k += 1;
    }
    let from: usize = cuts[n - 1].1;
    proof {
        assert(r[n - 1] == (cuts@[n - 1].0 as int, cuts@[n - 1].1 as int));
        lemma_gap_bounds(s@, n as int);
        g.take(n as int).lemma_filter_push(g[n as int], filled());
        assert(g.take(n + 1) =~= g.take(n as int).push(g[n as int]));
        assert(g.take(n + 1) =~= g);
        assert(run_marks(s@, r).take(n as int) =~= run_marks(s@, r));
    }
    if from < s.len() {
        let ghost before = chunks@;
        let piece = slice_of(s.as_slice(), from, s.len());
        let chunk = string_of(piece.as_slice());
        assert(chunk@ =~= g[n as int]);
        chunks.push(chunk);
        assert(texts(chunks@) =~= texts(before).push(chunk@));
    }
    (chunks, marks)
}

/// `s` without a space at its end.
pub open spec fn without_space(s: Seq<char>) -> Seq<char> {
    if s.len() > 0 && s.last() == ' ' {
        s.drop_last()
    } else {
        s
    }
}

/// `s` with a space at its end.
pub open spec fn with_space(s: Seq<char>) -> Seq<char> {
    if s.len() > 0 && s.last() == ' ' {
        s
    } else {
        s.push(' ')
    }
}

pub open spec fn mark_texts(m: Seq<MarkView>) -> Seq<Seq<char>> {
    m.map_values(|x: MarkView| x.text)
}

/// Chunks with their marks put back. The first mark at an end of the line
/// closes it (`closed`): chunks that are left then follow as they are, and
/// marks that are left follow all in one.
pub open spec fn restored(
    chunks: Seq<Seq<char>>,
    marks: Seq<MarkView>,
    closed: bool,
) -> Seq<Seq<char>>
    decreases chunks.len() + marks.len(),
{
    if marks.len() == 0 {
        chunks.map_values(|c: Seq<char>| with_space(c))
    } else if chunks.len() == 0 {
        seq![mark_texts(marks).flatten()]
    } else if closed {
        seq![chunks[0]] + restored(chunks.drop_first(), marks, true)
    } else {
        let text = marks[0].text;
        let later = marks.drop_first();
        let head = without_space(chunks[0]);
        match marks[0].position {
            Position::Begin => restored(chunks.update(0, text + head), later, false),
            Position::End => seq![head + with_space(text)] + restored(
                chunks.drop_first(),
                later,
                true,
            ),
            Position::Alone => seq![with_space(text)] + restored(
                chunks.update(0, head),
                later,
                true,
            ),
            Position::Inside => if chunks.len() == 1 {
                restored(seq![head + text], later, false)
            } else {
                restored(chunks.drop_first().update(0, head + text + chunks[1]), later, false)
            },
        }
    }
}

/// The gaps from number `k` on that are not empty.
spec fn later_chunks(s: Seq<char>, k: int) -> Seq<Seq<char>> {
    gaps(s, mark_runs(s)).skip(k).filter(filled())
}

proof fn lemma_later_chunks(s: Seq<char>, k: int)
    requires
        0 <= k <= mark_runs(s).len(),
    ensures
        ({
            let gap = gaps(s, mark_runs(s))[k];
            later_chunks(s, k) == if gap.len() > 0 {
                seq![gap] + later_chunks(s, k + 1)
            } else {
                later_chunks(s, k + 1)
            }
        }),
{
    let g = gaps(s, mark_runs(s));
    assert(g.skip(k) =~= seq![g[k]] + g.skip(k + 1));
    g.skip(k + 1).lemma_filter_prepend(g[k], filled());
    assert(Seq::<Seq<char>>::empty() + later_chunks(s, k + 1) =~= later_chunks(s, k + 1));
}

/// One run: where it lies, and that no space stands before it.
proof fn lemma_one_run(s: Seq<char>, k: int)
    requires
        0 <= k < mark_runs(s).len(),
    ensures
        0 <= mark_runs(s)[k].0 < mark_runs(s)[k].1 <= s.len(),
        mark_runs(s)[k].0 > 0 ==> s[mark_runs(s)[k].0 - 1] != ' ',
        k + 1 < mark_runs(s).len() ==> mark_runs(s)[k].1 < mark_runs(s)[k + 1].0,
{
    lemma_mark_runs(s);
}

proof fn lemma_weave(s: Seq<char>, k: int)
    requires
        s.len() > 0,
        s.last() != ' ',
        0 <= k <= mark_runs(s).len(),
        gap_end(mark_runs(s), k, s.len() as int) > 0,
    ensures
        restored(
            seq![s.take(gap_end(mark_runs(s), k, s.len() as int))] + later_chunks(s, k + 1),
            run_marks(s, mark_runs(s)).skip(k),
            false,
        ) == seq![s.push(' ')],
    decreases mark_runs(s).len() - k,
{
    let r = mark_runs(s);
    let n = r.len() as int;
    let len = s.len() as int;
    let marks = run_marks(s, r).skip(k);
    let chunks = seq![s.take(gap_end(r, k, len))] + later_chunks(s, k + 1);
    if k == n {
        assert(gaps(s, r).skip(n + 1) =~= Seq::empty());
        assert(later_chunks(s, n + 1) =~= Seq::empty());
        assert(s.take(len) =~= s);
        assert(chunks =~= seq![s]);
        assert(chunks.map_values(|c: Seq<char>| with_space(c)) =~= seq![s.push(' ')]);
    } else {
        lemma_one_run(s, k);
        let c = s.take(r[k].0);
        let text = s.subrange(r[k].0, r[k].1);
        assert(chunks[0] == c);
        assert(c.last() == s[r[k].0 - 1]);
        assert(without_space(c) == c);
        assert(marks[0].text == text);
        assert(marks[0].position == position_of(r, k, len));
        let later = marks.drop_first();
        assert(later =~= run_marks(s, r).skip(k + 1));
        lemma_later_chunks(s, k + 1);
        let gap = gaps(s, r)[k + 1];
        lemma_gap_bounds(s, k + 1);
        if k == n - 1 && r[k].1 == len {
            assert(gap.len() == 0);
            assert(gaps(s, r).skip(n + 1) =~= Seq::empty());
            assert(later_chunks(s, k + 1) =~= Seq::empty());
            assert(chunks =~= seq![c]);
            assert(chunks.drop_first() =~= Seq::empty());
            assert(later =~= Seq::empty());
            assert(restored(chunks.drop_first(), later, true) =~= Seq::empty());
            assert(text.last() == s.last());
            assert(c + with_space(text) =~= s.push(' '));
            assert(restored(chunks, marks, false) =~= seq![s.push(' ')]);
        } else {
            assert(gap.len() > 0);
            assert(chunks[1] == gap);
            let more = chunks.drop_first().update(0, c + text + chunks[1]);
            assert(c + text + gap =~= s.take(gap_end(r, k + 1, len)));
            assert(more =~= seq![s.take(gap_end(r, k + 1, len))] + later_chunks(s, k + 2));
            lemma_weave(s, k + 1);
        }
    }
}

/// Cutting a line that does not end in white space and putting its marks back gives the
/// line again, closed by a space unless it is nothing but marks.
pub proof fn lemma_marks_come_back(s: Seq<char>)
    requires
        s.len() > 0,
        !white(s.last()),
    ensures
        restored(preserved(s).0, preserved(s).1, false) == seq![
            if mark_runs(s) == seq![(0int, s.len() as int)] {
                s
            } else {
                s.push(' ')
            },
        ],
{
    let r = mark_runs(s);
    let n = r.len() as int;
    let len = s.len() as int;
    let (chunks, marks) = preserved(s);
    if n == 0 {
        assert(chunks.map_values(|c: Seq<char>| with_space(c)) =~= seq![s.push(' ')]);
    } else if n == 1 && r[0] == (0int, len) {
        assert(r =~= seq![(0int, len)]);
        assert(mark_texts(marks) =~= seq![s]);
        seq![s].lemma_flatten_one_element();
    } else {
        lemma_one_run(s, 0);
        if n > 1 {
            lemma_one_run(s, 1);
        }
        let g = gaps(s, r);
        assert(g.skip(0) =~= g);
        lemma_later_chunks(s, 0);
        lemma_gap_bounds(s, 0);
        assert(run_marks(s, r).skip(0) =~= run_marks(s, r));
        if r[0].0 > 0 {
            assert(g[0] =~= s.take(r[0].0));
            lemma_weave(s, 0);
        } else {
            lemma_later_chunks(s, 1);
            lemma_gap_bounds(s, 1);
            let gap = g[1];
            let text = s.subrange(0, r[0].1);
            assert(gap.len() > 0);
            assert(chunks == seq![gap] + later_chunks(s, 2));
            assert(gap.last() == s[gap_end(r, 1, len) - 1]);
            assert(without_space(gap) == gap);
            assert(text + gap =~= s.take(gap_end(r, 1, len)));
            assert(chunks.update(0, text + gap) =~= seq![s.take(gap_end(r, 1, len))]
                + later_chunks(s, 2));
            assert(marks.drop_first() =~= run_marks(s, r).skip(1));
            lemma_weave(s, 1);
        }
    }
}

fn spaced(s: &Vec<char>) -> (r: Vec<char>)
    ensures
        r@ == with_space(s@),
{
    let mut r = slice_of(s.as_slice(), 0, s.len());
    assert(r@ =~= s@);
    if !(r.len() > 0 && r[r.len() - 1] == ' ') {
        r.push(' ');
    }
    r
}

fn unspaced(s: &Vec<char>) -> (r: Vec<char>)
    ensures
        r@ == without_space(s@),
{
    if s.len() > 0 && s[s.len() - 1] == ' ' {
        let r = slice_of(s.as_slice(), 0, s.len() - 1);
        assert(r@ =~= s@.drop_last());
        r
    } else {
        let r = slice_of(s.as_slice(), 0, s.len());
        assert(r@ =~= s@);
        r
    }
}

/// Put the marks back between the chunks they were cut from.
pub fn restore(chunks: &Vec<String>, marks: &Vec<Mark>) -> (r: Vec<String>)
    ensures
        texts(r@) == restored(texts(chunks@), mark_views(marks@), false),
{
    let mut left = chars_of_all(chunks);
    let mut out: Vec<Vec<char>> = Vec::new();
    let mut closed = false;
    let mut next: usize = 0;
    let ghost all = mark_views(marks@);
    let ghost whole = restored(texts(chunks@), all, false);
    assert(all.skip(0) =~= all);
    assert(lists(out@) + whole =~= whole);
    while next < marks.len() && left.len() > 0
        invariant
            next <= marks.len(),
            all == mark_views(marks@),
            lists(out@) + restored(lists(left@), all.skip(next as int), closed) == whole,
        decreases left.len() + (marks.len() - next),
    {
        let ghost chunks_now = lists(left@);
        let ghost marks_now = all.skip(next as int);
        let ghost out_now = lists(out@);
        let ghost later = marks_now.drop_first();
        assert(marks_now[0] == marks@[next as int]@);
        assert(later =~= all.skip(next + 1));
        if closed {
            let c = left.remove(0);
            assert(lists(left@) =~= chunks_now.drop_first());
            out.push(c);
            assert(lists(out@) =~= out_now.push(chunks_now[0]));
            assert(out_now + restored(chunks_now, marks_now, true) =~= lists(out@) + restored(
                lists(left@),
                marks_now,
                true,
            ));
        } else {
            let text = chars_of(marks[next].text.as_str());
            let head = unspaced(&left[0]);
            assert(head@ == without_space(chunks_now[0]));
            next += 1;
            match marks[next - 1].position {
                Position::Begin => {
                    let mut c = text;
                    push_all(&mut c, head.as_slice());
                    left.set(0, c);
                    assert(lists(left@) =~= chunks_now.update(0, text@ + head@));
                },
                Position::End => {
                    let mut line = head;
                    push_all(&mut line, spaced(&text).as_slice());
                    left.remove(0);
                    assert(lists(left@) =~= chunks_now.drop_first());
                    out.push(line);
                    closed = true;
                    assert(lists(out@) =~= out_now.push(line@));
                    assert(out_now + restored(chunks_now, marks_now, false) =~= lists(out@)
                        + restored(lists(left@), later, true));
                },
                Position::Alone => {
                    let line = spaced(&text);
                    left.set(0, head);
                    assert(lists(left@) =~= chunks_now.update(0, head@));
                    out.push(line);
                    closed = true;
                    assert(lists(out@) =~= out_now.push(line@));
                    assert(out_now + restored(chunks_now, marks_now, false) =~= lists(out@)
                        + restored(lists(left@), later, true));
                },
                Position::Inside => {
                    let mut c = head;
                    push_all(&mut c, text.as_slice());
                    if left.len() == 1 {
                        left.set(0, c);
                        assert(lists(left@) =~= seq![c@]);
                    } else {
                        push_all(&mut c, left[1].as_slice());
                        left.remove(0);
                        left.set(0, c);
                        assert(lists(left@) =~= chunks_now.drop_first().update(0, c@));
                        assert(c@ =~= head@ + text@ + chunks_now[1]);
                    }
                },
            }
        }
    }
    if next >= marks.len() {
        let ghost rest = lists(left@);
        let ghost out_now = lists(out@);
        assert(all.skip(next as int) =~= Seq::empty());
        let mut i: usize = 0;
        while i < left.len()
            invariant
                i <= left.len(),
                rest == lists(left@),
                lists(out@) == out_now + rest.map_values(|c: Seq<char>| with_space(c)).take(
                    i as int,
                ),
            decreases left.len() - i,
        {
            let ghost before = lists(out@);
            let line = spaced(&left[i]);
            out.push(line);
            proof {
                let lines = rest.map_values(|c: Seq<char>| with_space(c));
                assert(lists(out@) =~= before.push(line@));
                assert(lines[i as int] == line@);
                assert(lines.take(i + 1) =~= lines.take(i as int).push(lines[i as int]));
            }
            i += 1;
        }
        proof {
            let lines = rest.map_values(|c: Seq<char>| with_space(c));
            assert(lines.take(i as int) =~= lines);
        }
    } else {
        let ghost rest = all.skip(next as int);
        let ghost out_now = lists(out@);
        assert(lists(left@) =~= Seq::empty());
        let mut line: Vec<char> = Vec::new();
        let mut i: usize = next;
        assert(mark_texts(rest).take(0) =~= Seq::empty());
        while i < marks.len()
            invariant
                next <= i <= marks.len(),
                all == mark_views(marks@),
                rest == all.skip(next as int),
                line@ == mark_texts(rest).take(i - next).flatten(),
            decreases marks.len() - i,
        {
            let text = chars_of(marks[i].text.as_str());
            push_all(&mut line, text.as_slice());
            proof {
                let t = mark_texts(rest);
                assert(t[i - next] == text@);
                t.take(i - next).lemma_flatten_push(text@);
                assert(t.take(i - next + 1) =~= t.take(i - next).push(text@));
            }
            i += 1;
        }
        assert(mark_texts(rest).take(i - next) =~= mark_texts(rest));
        out.push(line);
        assert(lists(out@) =~= out_now.push(line@));
    }
    let r = strings_of(&out);
    assert(texts(r@) =~= whole);
    r
}

/// `s` with every stretch of underscores made one.
pub open spec fn collapsed(s: Seq<char>) -> Seq<char>
    decreases s.len(),
{
    if s.len() == 0 {
        s
    } else if s.len() >= 2 && s.last() == '_' && s[s.len() - 2] == '_' {
        collapsed(s.drop_last())
    } else {
        collapsed(s.drop_last()).push(s.last())
    }
}

fn collapse(s: &Vec<char>) -> (r: Vec<char>)
    ensures
        r@ == collapsed(s@),
{
    let mut r: Vec<char> = Vec::new();
    let mut i: usize = 0;
    while i < s.len()
        invariant
            i <= s.len(),
            r@ == collapsed(s@.take(i as int)),
        decreases s.len() - i,
    {
        assert(s@.take(i + 1).drop_last() =~= s@.take(i as int));
        if !(i > 0 && s[i] == '_' && s[i - 1] == '_') {
            r.push(s[i]);
        }
        i += 1;
    }
    assert(s@.take(i as int) =~= s@);
    r
}

/// A word of raw phonemes as it is handed on: no underscores, one space behind.
pub open spec fn finished_word(w: Seq<char>) -> Seq<char> {
    without(trimmed(w), '_').push(' ')
}

pub open spec fn finished_words(w: Seq<Seq<char>>) -> Seq<char> {
    w.map_values(|x: Seq<char>| finished_word(x)).flatten()
}

/// A line of raw phonemes (`_` between phonemes) as plain phonemes: every word
/// followed by a space, and no underscores.
pub open spec fn postprocessed(line: Seq<char>) -> Seq<char> {
    let one_line = replaced(trimmed(line), seq!['\n'], seq![' ']);
    let single = replaced(one_line, seq![' ', ' '], seq![' ']);
    let l = replaced(collapsed(single), seq!['_', ' '], seq![' ']);
    if l.len() == 0 {
        l
    } else {
        finished_words(split(l, ' '))
    }
}

/// A line of raw phonemes as plain phonemes.
pub fn postprocess_line(line: &str) -> (r: String)
    ensures
        r@ == postprocessed(line@),
{
    let raw = chars_of(line);
    let t = trim(raw.as_slice());
    let newline: [char; 1] = ['\n'];
    let space: [char; 1] = [' '];
    let spaces: [char; 2] = [' ', ' '];
    let stop: [char; 2] = ['_', ' '];
    assert(newline@ =~= seq!['\n']);
    assert(space@ =~= seq![' ']);
    assert(spaces@ =~= seq![' ', ' ']);
    assert(stop@ =~= seq!['_', ' ']);
    let one_line = replace(t.as_slice(), newline.as_slice(), space.as_slice());
    let single = replace(one_line.as_slice(), spaces.as_slice(), space.as_slice());
    let l = replace(collapse(&single).as_slice(), stop.as_slice(), space.as_slice());
    if l.len() == 0 {
        return string_of(l.as_slice());
    }
    let words = split_at_char(l.as_slice(), ' ');
    let ghost w = lists(words@);
    let ghost done = w.map_values(|x: Seq<char>| finished_word(x));
    let mut out: Vec<char> = Vec::new();
    let mut i: usize = 0;
    assert(done.take(0) =~= Seq::empty());
    while i < words.len()
        invariant
            i <= words.len(),
            w == lists(words@),
            done == w.map_values(|x: Seq<char>| finished_word(x)),
            out@ == done.take(i as int).flatten(),
        decreases words.len() - i,
    {
        let bare = trim(words[i].as_slice());
        let mut word = drop_char(bare.as_slice(), '_');
        word.push(' ');
        push_all(&mut out, word.as_slice());
        proof {
            assert(done[i as int] == word@);
            done.take(i as int).lemma_flatten_push(word@);
            assert(done.take(i + 1) =~= done.take(i as int).push(word@));
        }
        i += 1;
    }
    assert(done.take(i as int) =~= done);
    string_of(out.as_slice())
}

/// The phonemes of a line: what is neither white space nor an underscore.
spec fn phoneme() -> spec_fn(char) -> bool {
    |c: char| !white(c) && c != '_'
}

proof fn lemma_collapsed_keeps(s: Seq<char>)
    ensures
        collapsed(s).filter(phoneme()) == s.filter(phoneme()),
    decreases s.len(),
{
    reveal(Seq::filter);
    if s.len() > 0 {
        let front = s.drop_last();
        lemma_collapsed_keeps(front);
        if !(s.len() >= 2 && s.last() == '_' && s[s.len() - 2] == '_') {
            assert(collapsed(s).drop_last() =~= collapsed(front));
        }
    }
}

proof fn lemma_finished_word_keeps(w: Seq<char>)
    ensures
        finished_word(w).filter(phoneme()) == w.filter(phoneme()),
        forall|k: int| 0 <= k < finished_word(w).len() ==> #[trigger] finished_word(w)[k] != '_',
{
    let keep = phoneme();
    let t = trimmed(w);
    let x = without(t, '_');
    lemma_trimmed_keeps(w, keep);
    lemma_filter_twice(t, other_than('_'), keep);
    x.lemma_filter_push(' ', keep);
    assert forall|k: int| 0 <= k < finished_word(w).len() implies #[trigger] finished_word(w)[k]
        != '_' by {
        if k < x.len() {
            let q = lemma_filter_source(t, other_than('_'), k);
        }
    }
}

proof fn lemma_finished_words_first(w: Seq<Seq<char>>)
    requires
        w.len() > 0,
    ensures
        finished_words(w) == finished_word(w[0]) + finished_words(w.drop_first()),
{
    let m = w.map_values(|x: Seq<char>| finished_word(x));
    lemma_flatten_first(m);
    assert(m.drop_first() =~= w.drop_first().map_values(|x: Seq<char>| finished_word(x)));
}

proof fn lemma_finished_words_keep(s: Seq<char>)
    ensures
        finished_words(split(s, ' ')).filter(phoneme()) == s.filter(phoneme()),
        forall|k: int|
            0 <= k < finished_words(split(s, ' ')).len() ==> #[trigger] finished_words(
                split(s, ' '),
            )[k] != '_',
    decreases s.len(),
{
    let keep = phoneme();
    let w = split(s, ' ');
    let i = first_at(s, seq![' '], 0);
    lemma_first_at(s, seq![' '], 0);
    lemma_finished_words_first(w);
    lemma_finished_word_keeps(w[0]);
    if i >= s.len() {
        assert(w.drop_first() =~= Seq::<Seq<char>>::empty());
        assert(w.drop_first().map_values(|x: Seq<char>| finished_word(x)) =~= Seq::<
            Seq<char>,
        >::empty());
        assert(finished_words(w.drop_first()) =~= Seq::<char>::empty()) by {
            reveal(Seq::flatten);
        }
        assert(finished_words(w) =~= finished_word(s));
    } else {
        let rest = s.skip(i + 1);
        lemma_occurs_char(s, ' ', i);
        lemma_finished_words_keep(rest);
        assert(w.drop_first() =~= split(rest, ' '));
        lemma_filter_append(finished_word(w[0]), finished_words(split(rest, ' ')), keep);
        let head = s.take(i);
        assert(s =~= head + (seq![' '] + rest));
        lemma_filter_append(head, seq![' '] + rest, keep);
        lemma_filter_append(seq![' '], rest, keep);
        lemma_none_kept(seq![' '], keep);
        assert(s.filter(keep) =~= head.filter(keep) + rest.filter(keep));
        assert(w[0] == head);
    }
}

/// Finishing a line loses no phoneme and adds none: what is neither white space nor an
/// underscore comes out in order, and no underscore does.
pub proof fn lemma_no_phoneme_is_lost(line: Seq<char>)
    ensures
        postprocessed(line).filter(|c: char| !white(c) && c != '_') == line.filter(
            |c: char| !white(c) && c != '_',
        ),
        forall|k: int|
            0 <= k < postprocessed(line).len() ==> #[trigger] postprocessed(line)[k] != '_',
{
    let keep = phoneme();
    let one_line = replaced(trimmed(line), seq!['\n'], seq![' ']);
    let single = replaced(one_line, seq![' ', ' '], seq![' ']);
    let l = replaced(collapsed(single), seq!['_', ' '], seq![' ']);
    lemma_trimmed_keeps(line, keep);
    lemma_replaced_keeps(trimmed(line), seq!['\n'], seq![' '], keep);
    lemma_replaced_keeps(one_line, seq![' ', ' '], seq![' '], keep);
    lemma_collapsed_keeps(single);
    lemma_replaced_keeps(collapsed(single), seq!['_', ' '], seq![' '], keep);
    lemma_finished_words_keep(l);
    assert(keep =~= |c: char| !white(c) && c != '_');
}

proof fn lemma_collapsed_ends(s: Seq<char>)
    requires
        s.len() > 0,
    ensures
        collapsed(s).len() > 0,
        collapsed(s)[0] == s[0],
        collapsed(s).last() == s.last(),
        forall|k: int|
            0 < k < collapsed(s).len() ==> collapsed(s)[k - 1] != '_' || #[trigger] collapsed(s)[k]
                != '_',
    decreases s.len(),
{
    if s.len() > 1 {
        lemma_collapsed_ends(s.drop_last());
    } else {
        assert(s.drop_last() =~= Seq::<char>::empty());
        assert(collapsed(s.drop_last()) =~= Seq::<char>::empty());
    }
}

proof fn lemma_collapsed_append(x: Seq<char>, y: Seq<char>)
    requires
        x.len() > 0 && y.len() > 0 ==> x.last() != '_' || y[0] != '_',
    ensures
        collapsed(x + y) == collapsed(x) + collapsed(y),
    decreases y.len(),
{
    let s = x + y;
    if y.len() == 0 {
        assert(s =~= x);
        assert(collapsed(x) + collapsed(y) =~= collapsed(x));
    } else {
        lemma_collapsed_append(x, y.drop_last());
        assert(s.drop_last() =~= x + y.drop_last());
        assert(s.last() == y.last());
        if y.len() == 1 {
            if x.len() > 0 {
                assert(s[s.len() - 2] == x.last());
            }
        } else {
            assert(s[s.len() - 2] == y[y.len() - 2]);
        }
        assert(collapsed(s) =~= collapsed(x) + collapsed(y));
    }
}

proof fn lemma_collapsed_all(s: Seq<char>, ok: spec_fn(char) -> bool)
    requires
        forall|k: int| 0 <= k < s.len() ==> ok(#[trigger] s[k]),
    ensures
        forall|k: int| 0 <= k < collapsed(s).len() ==> ok(#[trigger] collapsed(s)[k]),
    decreases s.len(),
{
    if s.len() > 0 {
        assert forall|k: int| 0 <= k < s.drop_last().len() implies ok(
            #[trigger] s.drop_last()[k],
        ) by {
            assert(s.drop_last()[k] == s[k]);
        }
        lemma_collapsed_all(s.drop_last(), ok);
        assert(ok(s[s.len() - 1]));
        let front = collapsed(s.drop_last());
        assert forall|k: int| 0 <= k < collapsed(s).len() implies ok(
            #[trigger] collapsed(s)[k],
        ) by {
            if k < front.len() {
                assert(collapsed(s)[k] == front[k]);
            }
        }
    } else {
        assert(collapsed(s).len() == 0);
    }
}

/// A line of raw phonemes with single spaces between its words.
spec fn spaced_out(t: Seq<char>) -> Seq<char> {
    collapsed(replaced(replaced(t, seq!['\n'], seq![' ']), seq![' ', ' '], seq![' ']))
}

spec fn unstopped(t: Seq<char>) -> Seq<char> {
    replaced(t, seq!['_', ' '], seq![' '])
}

/// The only white space is spaces and line feeds.
pub open spec fn plain_white(s: Seq<char>) -> bool {
    forall|k: int| 0 <= k < s.len() && white(#[trigger] s[k]) ==> s[k] == ' ' || s[k] == '\n'
}

spec fn only_spaces() -> spec_fn(char) -> bool {
    |c: char| white(c) ==> c == ' '
}

spec fn all_only_spaces(s: Seq<char>) -> bool {
    forall|k: int| 0 <= k < s.len() ==> (only_spaces())(#[trigger] s[k])
}

/// Line feeds become spaces, and everything else stays.
proof fn lemma_feeds_to_spaces(s: Seq<char>)
    ensures
        replaced(s, seq!['\n'], seq![' ']).len() == s.len(),
        forall|k: int|
            0 <= k < s.len() ==> #[trigger] replaced(s, seq!['\n'], seq![' '])[k] == (if s[k]
                == '\n' {
                ' '
            } else {
                s[k]
            }),
    decreases s.len(),
{
    if s.len() > 0 {
        let pat = seq!['\n'];
        let r = replaced(s, pat, seq![' ']);
        let rest = s.skip(1);
        lemma_feeds_to_spaces(rest);
        lemma_occurs_char(s, '\n', 0);
        let later = replaced(rest, pat, seq![' ']);
        assert(r =~= seq![
            if s[0] == '\n' {
                ' '
            } else {
                s[0]
            },
        ] + later);
        assert forall|k: int| 0 <= k < s.len() implies #[trigger] r[k] == (if s[k] == '\n' {
            ' '
        } else {
            s[k]
        }) by {
            if k > 0 {
                assert(r[k] == later[k - 1]);
                assert(rest[k - 1] == s[k]);
            }
        }
    }
}

proof fn lemma_spaced_out(t: Seq<char>)
    requires
        t.len() > 0,
        !white(t[0]),
        !white(t.last()),
        plain_white(t),
    ensures
        spaced_out(t).len() > 0,
        spaced_out(t)[0] == t[0],
        spaced_out(t).last() == t.last(),
        all_only_spaces(spaced_out(t)),
        forall|k: int|
            0 < k < spaced_out(t).len() ==> spaced_out(t)[k - 1] != '_' || #[trigger] spaced_out(
                t,
            )[k] != '_',
{
    let one = replaced(t, seq!['\n'], seq![' ']);
    lemma_feeds_to_spaces(t);
    assert(white(' ') && white('\n'));
    assert(one[0] == t[0]);
    assert(one[t.len() - 1] == t[t.len() - 1]);
    let ok = only_spaces();
    assert forall|k: int| 0 <= k < one.len() implies ok(#[trigger] one[k]) by {
        assert(white(t[k]) ==> t[k] == ' ' || t[k] == '\n');
    }
    let two = replaced(one, seq![' ', ' '], seq![' ']);
    lemma_replaced_ends(one, seq![' ', ' '], seq![' ']);
    lemma_replaced_all(one, seq![' ', ' '], seq![' '], ok);
    lemma_collapsed_ends(two);
    lemma_collapsed_all(two, ok);
}

proof fn lemma_spaced_out_joins(x: Seq<char>, sep: Seq<char>, y: Seq<char>)
    requires
        x.len() > 0 && !white(x[0]) && !white(x.last()),
        y.len() > 0 && !white(y[0]) && !white(y.last()),
        1 <= sep.len() <= 2,
        forall|k: int| 0 <= k < sep.len() ==> #[trigger] sep[k] == ' ' || sep[k] == '\n',
    ensures
        spaced_out(x + sep + y) == spaced_out(x) + seq![' '] + spaced_out(y),
{
    let feed = seq!['\n'];
    let space = seq![' '];
    let two = seq![' ', ' '];
    assert(white(' ') && white('\n'));
    lemma_replaced_append(x + sep, y, feed, space);
    lemma_replaced_append(x, sep, feed, space);
    let (p, q, r) = (
        replaced(x, feed, space),
        replaced(sep, feed, space),
        replaced(y, feed, space),
    );
    lemma_feeds_to_spaces(x);
    lemma_feeds_to_spaces(sep);
    lemma_feeds_to_spaces(y);
    assert forall|k: int| 0 <= k < q.len() implies q[k] == ' ' by {
        assert(sep[k] == ' ' || sep[k] == '\n');
    }
    assert(p[0] == x[0] && p[x.len() - 1] == x[x.len() - 1]);
    assert(r[0] == y[0] && r[y.len() - 1] == y[y.len() - 1]);
    lemma_replaced_append(p, q + r, two, space);
    assert(p + q + r =~= p + (q + r));
    assert(replaced(q + r, two, space) == space + replaced(r, two, space)) by {
        let t = q + r;
        if q.len() == 1 {
            assert(t[1] == r[0]);
            if occurs_at(t, two, 0) {
                assert(t.subrange(0, 2)[1] == t[1]);
            }
            assert(t.skip(1) =~= r);
            assert(seq![t[0]] =~= space);
        } else {
            assert(t.subrange(0, 2) =~= two);
            assert(t.skip(2) =~= r);
        }
    }
    let (a, b) = (replaced(p, two, space), replaced(r, two, space));
    lemma_replaced_ends(p, two, space);
    lemma_replaced_ends(r, two, space);
    lemma_collapsed_append(a, space + b);
    lemma_collapsed_append(space, b);
    assert(collapsed(space) =~= space) by {
        assert(space.drop_last() =~= Seq::<char>::empty());
        assert(collapsed(space.drop_last()) =~= Seq::<char>::empty());
    }
    assert(spaced_out(x + sep + y) =~= spaced_out(x) + space + spaced_out(y));
}

/// A space behind what is left of a line takes the underscore before it away.
proof fn lemma_unstopped_joins(a: Seq<char>, b: Seq<char>)
    requires
        a.len() > 0,
        a.len() > 1 && a.last() == '_' ==> a[a.len() - 2] != '_',
    ensures
        unstopped(a + seq![' '] + b) == unstopped(if a.last() == '_' {
            a.drop_last()
        } else {
            a
        }) + seq![' '] + unstopped(b),
        a.last() == '_' ==> unstopped(a) == unstopped(a.drop_last()).push('_'),
{
    let stop = seq!['_', ' '];
    let space = seq![' '];
    let t = space + b;
    assert(a + space + b =~= a + t);
    if a.last() == '_' {
        let c = a.drop_last();
        let u = seq!['_'] + t;
        assert(a + t =~= c + u);
        lemma_replaced_append(c, u, stop, space);
        assert(u.subrange(0, 2) =~= stop);
        assert(u.skip(2) =~= b);
        assert(unstopped(u) =~= space + unstopped(b));
        assert(a =~= c + seq!['_']);
        lemma_replaced_append(c, seq!['_'], stop, space);
        let under = seq!['_'];
        assert(under.skip(1) =~= Seq::<char>::empty());
        assert(!occurs_at(under, stop, 0));
        assert(replaced(under.skip(1), stop, space) =~= Seq::<char>::empty());
        assert(unstopped(under) =~= under);
        assert(unstopped(a + space + b) =~= unstopped(c) + space + unstopped(b));
        assert(unstopped(a) =~= unstopped(c).push('_'));
    } else {
        lemma_replaced_append(a, t, stop, space);
        if occurs_at(t, stop, 0) {
            assert(t.subrange(0, 2)[0] == ' ');
        }
        assert(t.skip(1) =~= b);
        assert(unstopped(t) =~= space + unstopped(b));
        assert(unstopped(a + space + b) =~= unstopped(a) + space + unstopped(b));
    }
}

proof fn lemma_finished_words_append(v: Seq<Seq<char>>, w: Seq<Seq<char>>)
    ensures
        finished_words(v + w) == finished_words(v) + finished_words(w),
{
    let f = |x: Seq<char>| finished_word(x);
    assert((v + w).map_values(f) =~= v.map_values(f) + w.map_values(f));
    vstd::seq_lib::lemma_flatten_concat(v.map_values(f), w.map_values(f));
}

proof fn lemma_bare_word(w: Seq<char>)
    requires
        forall|k: int| 0 <= k < w.len() ==> !white(#[trigger] w[k]),
    ensures
        finished_word(w) == w.filter(other_than('_')).push(' '),
{
    if w.len() > 0 {
        let none = Seq::<char>::empty();
        assert(!white(w[w.len() - 1]));
        lemma_trimmed_is(none, w, none);
        assert(none + w + none =~= w);
    } else {
        lemma_trimmed_blank(w);
        assert(w =~= Seq::<char>::empty());
    }
}

/// An underscore at the end of a line is not heard.
proof fn lemma_last_stop_is_nothing(s: Seq<char>)
    requires
        all_only_spaces(s),
    ensures
        finished_words(split(s.push('_'), ' ')) == finished_words(split(s, ' ')),
    decreases s.len(),
{
    let pat = seq![' '];
    let t = s.push('_');
    let i = first_at(s, pat, 0);
    lemma_first_at(s, pat, 0);
    if i < s.len() {
        lemma_occurs_char(s, ' ', i);
        let (a, b) = (s.take(i), s.skip(i + 1));
        assert(s =~= a + pat + b);
        assert(t =~= a + pat + b.push('_'));
        lemma_split_joins(a, ' ', b);
        lemma_split_joins(a, ' ', b.push('_'));
        lemma_finished_words_append(split(a, ' '), split(b, ' '));
        lemma_finished_words_append(split(a, ' '), split(b.push('_'), ' '));
        assert forall|k: int| 0 <= k < b.len() implies (only_spaces())(#[trigger] b[k]) by {
            assert(b[k] == s[i + 1 + k]);
        }
        lemma_last_stop_is_nothing(b);
    } else {
        assert forall|k: int| 0 <= k < s.len() implies #[trigger] s[k] != ' ' && !white(s[k]) by {
            lemma_occurs_char(s, ' ', k);
            assert((only_spaces())(s[k]));
        }
        lemma_split_one(s, ' ');
        lemma_split_one(t, ' ');
        lemma_bare_word(s);
        lemma_bare_word(t);
        s.lemma_filter_push('_', other_than('_'));
        assert(seq![t].map_values(|x: Seq<char>| finished_word(x)) =~= seq![s].map_values(
            |x: Seq<char>| finished_word(x),
        ));
    }
}

/// A line that neither begins nor ends in white space, in words.
proof fn lemma_postprocessed_tight(t: Seq<char>)
    requires
        t.len() > 0,
        !white(t[0]),
        !white(t.last()),
        plain_white(t),
    ensures
        postprocessed(t) == finished_words(split(unstopped(spaced_out(t)), ' ')),
{
    let none = Seq::<char>::empty();
    lemma_trimmed_is(none, t, none);
    assert(none + t + none =~= t);
    lemma_spaced_out(t);
    let a = spaced_out(t);
    if unstopped(a).len() == 0 {
        assert(white(' '));
        if a.last() != '_' {
            let keep = |c: char| c == a.last();
            lemma_replaced_keeps(a, seq!['_', ' '], seq![' '], keep);
            let k = lemma_filter_keeps(a, keep, a.len() - 1);
            assert(unstopped(a).filter(keep) =~= none) by {
                reveal(Seq::filter);
            }
        } else {
            lemma_unstopped_joins(a, none);
        }
    }
}

/// Words stay apart: two stretches of phonemes with a space, a line feed or two of these
/// between them are finished one by one, each word with a space behind it.
pub proof fn lemma_words_stay_apart(x: Seq<char>, sep: Seq<char>, y: Seq<char>)
    requires
        x.len() > 0 && !white(x[0]) && !white(x.last()),
        y.len() > 0 && !white(y[0]) && !white(y.last()),
        plain_white(x),
        plain_white(y),
        1 <= sep.len() <= 2,
        forall|k: int| 0 <= k < sep.len() ==> #[trigger] sep[k] == ' ' || sep[k] == '\n',
    ensures
        postprocessed(x + sep + y) == postprocessed(x) + postprocessed(y),
{
    let t = x + sep + y;
    assert(t[0] == x[0] && t.last() == y.last());
    assert forall|k: int| 0 <= k < t.len() && white(#[trigger] t[k]) implies t[k] == ' ' || t[k]
        == '\n' by {
        if k < x.len() {
            assert(t[k] == x[k]);
        } else if k < x.len() + sep.len() {
            assert(t[k] == sep[k - x.len()]);
        } else {
            assert(t[k] == y[k - x.len() - sep.len()]);
        }
    }
    lemma_postprocessed_tight(x);
    lemma_postprocessed_tight(y);
    lemma_postprocessed_tight(t);
    lemma_spaced_out_joins(x, sep, y);
    lemma_spaced_out(x);
    let (a, b) = (spaced_out(x), spaced_out(y));
    assert(a.len() > 1 ==> a[a.len() - 2] != '_' || a[a.len() - 1] != '_');
    lemma_unstopped_joins(a, b);
    let c = if a.last() == '_' {
        a.drop_last()
    } else {
        a
    };
    let (p, q) = (unstopped(c), unstopped(b));
    lemma_split_joins(p, ' ', q);
    lemma_finished_words_append(split(p, ' '), split(q, ' '));
    if a.last() == '_' {
        assert forall|k: int| 0 <= k < c.len() implies (only_spaces())(#[trigger] c[k]) by {
            assert(c[k] == a[k]);
        }
        lemma_replaced_all(c, seq!['_', ' '], seq![' '], only_spaces());
        lemma_last_stop_is_nothing(p);
    }
}

/// A word comes out without its underscores and with one space behind it.
pub proof fn lemma_one_word_is_finished(w: Seq<char>)
    requires
        w.len() > 0,
        forall|k: int| 0 <= k < w.len() ==> !white(#[trigger] w[k]),
    ensures
        postprocessed(w) == w.filter(|c: char| c != '_').push(' '),
{
    let keep = other_than('_');
    let (feed, two, stop) = (seq!['\n'], seq![' ', ' '], seq!['_', ' ']);
    assert(white(' ') && white('\n'));
    assert(!white(w[w.len() - 1]));
    lemma_postprocessed_tight(w);
    assert forall|k: int| 0 <= k < w.len() implies !occurs_at(w, feed, k) && !occurs_at(
        w,
        two,
        k,
    ) by {
        if occurs_at(w, feed, k) {
            assert(w.subrange(k, k + 1)[0] == w[k]);
        }
        if occurs_at(w, two, k) {
            assert(w.subrange(k, k + 2)[0] == w[k]);
        }
    }
    lemma_replaced_none(w, feed, seq![' ']);
    lemma_replaced_none(w, two, seq![' ']);
    let a = collapsed(w);
    lemma_collapsed_all(w, |c: char| !white(c));
    assert forall|k: int| 0 <= k < a.len() implies !occurs_at(a, stop, k) && a[k] != ' ' by {
        if occurs_at(a, stop, k) {
            assert(a.subrange(k, k + 2)[1] == a[k + 1]);
        }
    }
    lemma_replaced_none(a, stop, seq![' ']);
    lemma_split_one(a, ' ');
    lemma_bare_word(a);
    lemma_collapsed_without(w);
    let f = |x: Seq<char>| finished_word(x);
    assert(seq![a].map_values(f) =~= seq![finished_word(a)]);
    seq![finished_word(a)].lemma_flatten_one_element();
    assert(keep =~= |c: char| c != '_');
}

proof fn lemma_collapsed_without(s: Seq<char>)
    ensures
        collapsed(s).filter(other_than('_')) == s.filter(
            other_than('_'),
        ),
    decreases s.len(),
{
    reveal(Seq::filter);
    if s.len() > 0 {
        let front = s.drop_last();
        lemma_collapsed_without(front);
        if !(s.len() >= 2 && s.last() == '_' && s[s.len() - 2] == '_') {
            assert(collapsed(s).drop_last() =~= collapsed(front));
        }
    }
}

/// White space around a line says nothing, and a line of white space is nothing.
pub proof fn lemma_outer_white_says_nothing(front: Seq<char>, line: Seq<char>, back: Seq<char>)
    requires
        line.len() > 0 ==> !white(line[0]) && !white(line.last()),
        forall|k: int| 0 <= k < front.len() ==> white(#[trigger] front[k]),
        forall|k: int| 0 <= k < back.len() ==> white(#[trigger] back[k]),
    ensures
        postprocessed(front + line + back) == postprocessed(line),
        line.len() == 0 ==> postprocessed(line) == Seq::<char>::empty(),
{
    let none = Seq::<char>::empty();
    if line.len() > 0 {
        lemma_trimmed_is(front, line, back);
        lemma_trimmed_is(none, line, none);
        assert(none + line + none =~= line);
    } else {
        let s = front + line + back;
        assert forall|k: int| 0 <= k < s.len() implies white(#[trigger] s[k]) by {
            if k < front.len() {
                assert(s[k] == front[k]);
            } else {
                assert(s[k] == back[k - front.len()]);
            }
        }
        lemma_trimmed_blank(s);
        lemma_trimmed_blank(line);
        assert(replaced(none, seq!['\n'], seq![' ']) =~= none);
        assert(replaced(none, seq![' ', ' '], seq![' ']) =~= none);
        assert(collapsed(none) =~= none);
        assert(replaced(none, seq!['_', ' '], seq![' ']) =~= none);
    }
}

/// The punctuation marks are these.
pub proof fn lemma_marks_are_these(c: char)
    ensures
        mark(c) <==> ";:,.!?¡¿—…\"«»“”(){}[]"@.contains(c),
{
    reveal_strlit(";:,.!?¡¿—…\"«»“”(){}[]");
    let all = ";:,.!?¡¿—…\"«»“”(){}[]"@;
    assert(all =~= seq![
        ';', ':', ',', '.', '!', '?', '¡', '¿', '—', '…', '"', '«', '»', '“', '”', '(', ')', '{',
        '}', '[', ']',
    ]);
    if mark(c) {
        let k: int = if c == ';' {
            0
        } else if c == ':' {
            1
        } else if c == ',' {
            2
        } else if c == '.' {
            3
        } else if c == '!' {
            4
        } else if c == '?' {
            5
        } else if c == '¡' {
            6
        } else if c == '¿' {
            7
        } else if c == '—' {
            8
        } else if c == '…' {
            9
        } else if c == '"' {
            10
        } else if c == '«' {
            11
        } else if c == '»' {
            12
        } else if c == '“' {
            13
        } else if c == '”' {
            14
        } else if c == '(' {
            15
        } else if c == ')' {
            16
        } else if c == '{' {
            17
        } else if c == '}' {
            18
        } else if c == '[' {
            19
        } else {
            20
        };
        assert(all[k] == c);
    }
}

/// Chunks with what stands between them.
pub open spec fn interleaved(chunks: Seq<Seq<char>>, between: Seq<Seq<char>>) -> Seq<char>
    decreases between.len(),
{
    if chunks.len() == 0 {
        Seq::empty()
    } else if between.len() == 0 {
        chunks[0]
    } else {
        chunks[0] + between[0] + interleaved(chunks.drop_first(), between.drop_first())
    }
}

proof fn lemma_interleaved_prefix(
    x: Seq<char>,
    chunks: Seq<Seq<char>>,
    between: Seq<Seq<char>>,
)
    requires
        chunks.len() > 0,
    ensures
        interleaved(chunks.update(0, x + chunks[0]), between) == x + interleaved(chunks, between),
{
    let more = chunks.update(0, x + chunks[0]);
    if between.len() > 0 {
        assert(more.drop_first() =~= chunks.drop_first());
        assert(interleaved(more, between) =~= x + interleaved(chunks, between));
    }
}

/// A stretch of marks at the start of a line, between two chunks, or at its end.
spec fn marks_at(texts: Seq<Seq<char>>, position: Position) -> Seq<MarkView> {
    texts.map_values(|t: Seq<char>| MarkView { text: t, position })
}

proof fn lemma_marks_at_first(texts: Seq<Seq<char>>, position: Position, more: Seq<MarkView>)
    requires
        texts.len() > 0,
    ensures
        (marks_at(texts, position) + more)[0] == (MarkView { text: texts[0], position }),
        (marks_at(texts, position) + more).drop_first() == marks_at(
            texts.drop_first(),
            position,
        ) + more,
{
    assert((marks_at(texts, position) + more).drop_first() =~= marks_at(
        texts.drop_first(),
        position,
    ) + more);
}

proof fn lemma_inner_marks(
    bare: Seq<Seq<char>>,
    said: Seq<Seq<char>>,
    between: Seq<Seq<char>>,
    end: Seq<Seq<char>>,
)
    requires
        bare.len() == between.len() + 1,
        said.len() == bare.len(),
        forall|k: int| 0 <= k < bare.len() ==> (#[trigger] bare[k]).len() > 0,
        forall|k: int| 0 <= k < bare.len() ==> (#[trigger] bare[k]).last() != ' ',
        forall|k: int|
            0 <= k < bare.len() ==> #[trigger] said[k] == bare[k] || said[k] == bare[k].push(' '),
        end.len() <= 1,
        end.len() == 1 ==> end[0].len() > 0 && end[0].last() != ' ',
    ensures
        restored(
            said,
            marks_at(between, Position::Inside) + marks_at(end, Position::End),
            false,
        ) == seq![(interleaved(bare, between) + end.flatten()).push(' ')],
    decreases between.len(),
{
    let tail = marks_at(end, Position::End);
    let marks = marks_at(between, Position::Inside) + tail;
    let none = Seq::<char>::empty();
    assert(bare[0].len() > 0 && bare[0].last() != ' ');
    assert(said[0] == bare[0] || said[0] == bare[0].push(' '));
    assert(without_space(said[0]) =~= bare[0]);
    if between.len() == 0 {
        assert(marks =~= tail);
        if end.len() == 0 {
            assert(end =~= Seq::<Seq<char>>::empty());
            assert(end.flatten() =~= none) by {
                reveal(Seq::flatten);
            }
            assert(said.map_values(|c: Seq<char>| with_space(c)) =~= seq![
                (interleaved(bare, between) + end.flatten()).push(' '),
            ]);
        } else {
            assert(end =~= seq![end[0]]);
            seq![end[0]].lemma_flatten_one_element();
            assert(marks[0] == (MarkView { text: end[0], position: Position::End }));
            assert(marks.drop_first() =~= Seq::<MarkView>::empty());
            assert(said.drop_first() =~= Seq::<Seq<char>>::empty());
            assert(restored(said.drop_first(), marks.drop_first(), true) =~= Seq::<
                Seq<char>,
            >::empty());
            assert(restored(said, marks, false) =~= seq![
                (interleaved(bare, between) + end.flatten()).push(' '),
            ]);
        }
    } else {
        lemma_marks_at_first(between, Position::Inside, tail);
        let text = between[0];
        let later = between.drop_first();
        let said2 = said.drop_first().update(0, bare[0] + text + said[1]);
        let bare2 = bare.drop_first().update(0, bare[0] + text + bare[1]);
        assert(bare[1].len() > 0 && bare[1].last() != ' ');
        assert(said[1] == bare[1] || said[1] == bare[1].push(' '));
        assert forall|k: int| 0 <= k < bare2.len() implies (#[trigger] bare2[k]).len() > 0
            && bare2[k].last() != ' ' by {
            if k > 0 {
                assert(bare2[k] == bare[k + 1]);
            } else {
                assert(bare2[0].last() == bare[1].last());
            }
        }
        assert forall|k: int| 0 <= k < bare2.len() implies #[trigger] said2[k] == bare2[k]
            || said2[k] == bare2[k].push(' ') by {
            if k > 0 {
                assert(bare2[k] == bare[k + 1]);
                assert(said2[k] == said[k + 1]);
            } else if said[1] == bare[1].push(' ') {
                assert(said2[0] =~= bare2[0].push(' '));
            }
        }
        lemma_inner_marks(bare2, said2, later, end);
        lemma_interleaved_prefix(bare[0] + text, bare.drop_first(), later);
        assert(restored(said, marks, false) == restored(said2, marks.drop_first(), false));
    }
}

/// Marks come back where they stood, around whatever was said for the chunks: what stood at
/// the start comes first, each stretch between two chunks comes between what was said for
/// them, and what stood at the end comes last; one space closes the line. A space behind
/// what was said for a chunk goes.
pub proof fn lemma_marks_go_between(
    begin: Seq<Seq<char>>,
    bare: Seq<Seq<char>>,
    said: Seq<Seq<char>>,
    between: Seq<Seq<char>>,
    end: Seq<Seq<char>>,
)
    requires
        bare.len() == between.len() + 1,
        said.len() == bare.len(),
        forall|k: int| 0 <= k < bare.len() ==> (#[trigger] bare[k]).len() > 0,
        forall|k: int| 0 <= k < bare.len() ==> (#[trigger] bare[k]).last() != ' ',
        forall|k: int|
            0 <= k < bare.len() ==> #[trigger] said[k] == bare[k] || said[k] == bare[k].push(' '),
        begin.len() <= 1,
        end.len() <= 1,
        end.len() == 1 ==> end[0].len() > 0 && end[0].last() != ' ',
    ensures
        restored(
            said,
            begin.map_values(|t: Seq<char>| MarkView { text: t, position: Position::Begin })
                + between.map_values(
                |t: Seq<char>| MarkView { text: t, position: Position::Inside },
            ) + end.map_values(|t: Seq<char>| MarkView { text: t, position: Position::End }),
            false,
        ) == seq![(begin.flatten() + interleaved(bare, between) + end.flatten()).push(' ')],
{
    let inner = marks_at(between, Position::Inside) + marks_at(end, Position::End);
    let marks = begin.map_values(|t: Seq<char>| MarkView { text: t, position: Position::Begin })
        + between.map_values(|t: Seq<char>| MarkView { text: t, position: Position::Inside })
        + end.map_values(|t: Seq<char>| MarkView { text: t, position: Position::End });
    if begin.len() == 0 {
        assert(begin =~= Seq::<Seq<char>>::empty());
        assert(begin.flatten() =~= Seq::<char>::empty()) by {
            reveal(Seq::flatten);
        }
        assert(marks =~= inner);
        lemma_inner_marks(bare, said, between, end);
        assert(begin.flatten() + interleaved(bare, between) =~= interleaved(bare, between));
    } else {
        assert(begin =~= seq![begin[0]]);
        seq![begin[0]].lemma_flatten_one_element();
        assert(marks[0] == (MarkView { text: begin[0], position: Position::Begin }));
        assert(marks.drop_first() =~= inner);
        assert(bare[0].len() > 0 && bare[0].last() != ' ');
        assert(said[0] == bare[0] || said[0] == bare[0].push(' '));
        assert(without_space(said[0]) =~= bare[0]);
        let said2 = said.update(0, begin[0] + bare[0]);
        let bare2 = bare.update(0, begin[0] + bare[0]);
        assert forall|k: int| 0 <= k < bare2.len() implies (#[trigger] bare2[k]).len() > 0
            && bare2[k].last() != ' ' by {
            if k > 0 {
                assert(bare2[k] == bare[k]);
            } else {
                assert(bare2[0].last() == bare[0].last());
            }
        }
        assert forall|k: int| 0 <= k < bare2.len() implies #[trigger] said2[k] == bare2[k]
            || said2[k] == bare2[k].push(' ') by {
            if k > 0 {
                assert(bare2[k] == bare[k]);
                assert(said2[k] == said[k]);
            }
        }
        lemma_inner_marks(bare2, said2, between, end);
        lemma_interleaved_prefix(begin[0], bare, between);
        assert(restored(said, marks, false) == restored(said2, inner, false));
    }
}

proof fn lemma_without_space_keeps(s: Seq<char>, keep: spec_fn(char) -> bool)
    requires
        !keep(' '),
    ensures
        without_space(s).filter(keep) == s.filter(keep),
        with_space(s).filter(keep) == s.filter(keep),
{
    reveal(Seq::filter);
    assert(s.push(' ').drop_last() =~= s);
}

proof fn lemma_inner_marks_keep(
    said: Seq<Seq<char>>,
    between: Seq<Seq<char>>,
    end: Seq<Seq<char>>,
    keep: spec_fn(char) -> bool,
)
    requires
        said.len() == between.len() + 1,
        end.len() <= 1,
        !keep(' '),
    ensures
        restored(
            said,
            marks_at(between, Position::Inside) + marks_at(end, Position::End),
            false,
        ).flatten().filter(keep) == (interleaved(said, between) + end.flatten()).filter(keep),
    decreases between.len(),
{
    let tail = marks_at(end, Position::End);
    let marks = marks_at(between, Position::Inside) + tail;
    let none = Seq::<char>::empty();
    let head = without_space(said[0]);
    lemma_without_space_keeps(said[0], keep);
    if between.len() == 0 {
        assert(marks =~= tail);
        if end.len() == 0 {
            assert(end =~= Seq::<Seq<char>>::empty());
            assert(end.flatten() =~= none) by {
                reveal(Seq::flatten);
            }
            let one = with_space(said[0]);
            assert(said.map_values(|c: Seq<char>| with_space(c)) =~= seq![one]);
            seq![one].lemma_flatten_one_element();
            assert(interleaved(said, between) + end.flatten() =~= said[0]);
        } else {
            assert(end =~= seq![end[0]]);
            seq![end[0]].lemma_flatten_one_element();
            assert(marks[0] == (MarkView { text: end[0], position: Position::End }));
            assert(marks.drop_first() =~= Seq::<MarkView>::empty());
            assert(said.drop_first() =~= Seq::<Seq<char>>::empty());
            assert(restored(said.drop_first(), marks.drop_first(), true) =~= Seq::<
                Seq<char>,
            >::empty());
            let one = head + with_space(end[0]);
            assert(restored(said, marks, false) =~= seq![one]);
            seq![one].lemma_flatten_one_element();
            lemma_without_space_keeps(end[0], keep);
            lemma_filter_append(head, with_space(end[0]), keep);
            lemma_filter_append(said[0], end[0], keep);
        }
    } else {
        lemma_marks_at_first(between, Position::Inside, tail);
        let text = between[0];
        let later = between.drop_first();
        let rest = said.drop_first();
        let said2 = rest.update(0, head + text + said[1]);
        lemma_inner_marks_keep(said2, later, end, keep);
        lemma_interleaved_prefix(head + text, rest, later);
        assert(restored(said, marks, false) == restored(said2, marks.drop_first(), false));
        let more = interleaved(rest, later) + end.flatten();
        assert((head + text) + interleaved(rest, later) + end.flatten() =~= (head + text) + more);
        assert(interleaved(said, between) + end.flatten() =~= (said[0] + text) + more);
        lemma_filter_append(head + text, more, keep);
        lemma_filter_append(said[0] + text, more, keep);
        lemma_filter_append(head, text, keep);
        lemma_filter_append(said[0], text, keep);
    }
}

/// Putting marks back loses no character but spaces, and keeps the order: what stood at the
/// start, what was said for the chunks with the marks between, what stood at the end.
pub proof fn lemma_restoring_loses_nothing(
    begin: Seq<Seq<char>>,
    said: Seq<Seq<char>>,
    between: Seq<Seq<char>>,
    end: Seq<Seq<char>>,
    keep: spec_fn(char) -> bool,
)
    requires
        said.len() == between.len() + 1,
        begin.len() <= 1,
        end.len() <= 1,
        !keep(' '),
    ensures
        restored(
            said,
            begin.map_values(|t: Seq<char>| MarkView { text: t, position: Position::Begin })
                + between.map_values(
                |t: Seq<char>| MarkView { text: t, position: Position::Inside },
            ) + end.map_values(|t: Seq<char>| MarkView { text: t, position: Position::End }),
            false,
        ).flatten().filter(keep) == (begin.flatten() + interleaved(said, between)
            + end.flatten()).filter(keep),
{
    let inner = marks_at(between, Position::Inside) + marks_at(end, Position::End);
    let marks = begin.map_values(|t: Seq<char>| MarkView { text: t, position: Position::Begin })
        + between.map_values(|t: Seq<char>| MarkView { text: t, position: Position::Inside })
        + end.map_values(|t: Seq<char>| MarkView { text: t, position: Position::End });
    if begin.len() == 0 {
        assert(begin =~= Seq::<Seq<char>>::empty());
        assert(begin.flatten() =~= Seq::<char>::empty()) by {
            reveal(Seq::flatten);
        }
        assert(marks =~= inner);
        lemma_inner_marks_keep(said, between, end, keep);
        assert(begin.flatten() + interleaved(said, between) =~= interleaved(said, between));
    } else {
        assert(begin =~= seq![begin[0]]);
        seq![begin[0]].lemma_flatten_one_element();
        assert(marks[0] == (MarkView { text: begin[0], position: Position::Begin }));
        assert(marks.drop_first() =~= inner);
        let head = without_space(said[0]);
        lemma_without_space_keeps(said[0], keep);
        let bare = said.update(0, head);
        let said2 = said.update(0, begin[0] + head);
        lemma_inner_marks_keep(said2, between, end, keep);
        lemma_interleaved_prefix(begin[0], bare, between);
        assert(bare.update(0, begin[0] + bare[0]) =~= said2);
        assert(restored(said, marks, false) == restored(said2, inner, false));
        let (a, b) = (interleaved(bare, between), interleaved(said, between));
        assert(a.filter(keep) == b.filter(keep)) by {
            if between.len() > 0 {
                let more = between[0] + interleaved(said.drop_first(), between.drop_first());
                assert(bare.drop_first() =~= said.drop_first());
                assert(a =~= head + more);
                assert(b =~= said[0] + more);
                lemma_filter_append(head, more, keep);
                lemma_filter_append(said[0], more, keep);
            }
        }
        lemma_filter_append(begin[0] + a, end.flatten(), keep);
        lemma_filter_append(begin[0] + b, end.flatten(), keep);
        lemma_filter_append(begin[0], a, keep);
        lemma_filter_append(begin[0], b, keep);
    }
}

/// What a filter keeps of chunks and what stands between them depends on what it keeps of
/// the chunks alone.
pub proof fn lemma_interleaved_keeps(
    x: Seq<Seq<char>>,
    y: Seq<Seq<char>>,
    between: Seq<Seq<char>>,
    keep: spec_fn(char) -> bool,
)
    requires
        x.len() == y.len(),
        forall|k: int| 0 <= k < x.len() ==> (#[trigger] x[k]).filter(keep) == y[k].filter(keep),
    ensures
        interleaved(x, between).filter(keep) == interleaved(y, between).filter(keep),
    decreases between.len(),
{
    if x.len() > 0 {
        assert(x[0].filter(keep) == y[0].filter(keep));
        if between.len() > 0 {
            let (p, q) = (x.drop_first(), y.drop_first());
            assert forall|k: int| 0 <= k < p.len() implies (#[trigger] p[k]).filter(keep)
                == q[k].filter(keep) by {
                assert(x[k + 1].filter(keep) == y[k + 1].filter(keep));
            }
            let later = between.drop_first();
            lemma_interleaved_keeps(p, q, later, keep);
            lemma_filter_append(x[0] + between[0], interleaved(p, later), keep);
            lemma_filter_append(y[0] + between[0], interleaved(q, later), keep);
            lemma_filter_append(x[0], between[0], keep);
            lemma_filter_append(y[0], between[0], keep);
        }
    }
}

proof fn lemma_later_count(s: Seq<char>, k: int)
    requires
        1 <= k <= mark_runs(s).len(),
    ensures
        later_chunks(s, k).len() == mark_runs(s).len() - k + (if mark_runs(s).last().1 < s.len() {
            1int
        } else {
            0int
        }),
    decreases mark_runs(s).len() - k,
{
    let r = mark_runs(s);
    let n = r.len() as int;
    lemma_later_chunks(s, k);
    lemma_gap_bounds(s, k);
    if k == n {
        assert(gaps(s, r).skip(n + 1) =~= Seq::empty());
        assert(later_chunks(s, n + 1) =~= Seq::empty());
    } else {
        lemma_later_count(s, k + 1);
    }
}

/// The marks of a line stand around its chunks: only the first can stand at the start, only
/// the last at the end, and of the others one stands between any two chunks.
pub proof fn lemma_marks_fit_chunks(s: Seq<char>)
    requires
        preserved(s).0.len() > 0,
    ensures
        ({
            let (chunks, marks) = preserved(s);
            let at_start = marks.len() > 0 && marks[0].position == Position::Begin;
            let at_end = marks.len() > 0 && marks.last().position == Position::End;
            &&& chunks.len() + (if at_start {
                1int
            } else {
                0int
            }) + (if at_end {
                1int
            } else {
                0int
            }) == marks.len() + 1
            &&& forall|k: int|
                0 <= k < marks.len() ==> {
                    ||| (#[trigger] marks[k]).position == Position::Inside
                    ||| k == 0 && marks[k].position == Position::Begin
                    ||| k == marks.len() - 1 && marks[k].position == Position::End
                }
        }),
{
    let r = mark_runs(s);
    let n = r.len() as int;
    lemma_mark_runs(s);
    if n > 0 {
        let g = gaps(s, r);
        assert(g.skip(0) =~= g);
        lemma_later_chunks(s, 0);
        lemma_gap_bounds(s, 0);
        lemma_later_count(s, 1);
        assert(r[n - 1].1 <= s.len());
        assert(r[0].0 >= 0);
        if n > 1 {
            assert(r[0].1 < r[n - 1].0);
        }
    }
}

/// A text counts as filled if there is a character in it.
pub proof fn lemma_what_is_filled(s: Seq<char>)
    ensures
        filled()(s) <==> s.len() > 0,
{
}

/// Chunks without marks are left as they are, a space at the end of each; marks without
/// chunks are one line; a mark that was all there was is a line of its own, with a space at
/// its end.
pub proof fn lemma_marks_or_chunks_alone(
    chunks: Seq<Seq<char>>,
    marks: Seq<MarkView>,
    closed: bool,
    k: int,
)
    ensures
        marks.len() == 0 ==> restored(chunks, marks, closed).len() == chunks.len(),
        marks.len() == 0 && 0 <= k < chunks.len() ==> restored(chunks, marks, closed)[k] == (
        if chunks[k].len() > 0 && chunks[k].last() == ' ' {
            chunks[k]
        } else {
            chunks[k].push(' ')
        }),
        marks.len() > 0 && chunks.len() == 0 ==> restored(chunks, marks, closed) == seq![
            marks.map_values(|m: MarkView| m.text).flatten(),
        ],
        marks.len() > 0 && chunks.len() > 0 && !closed && marks[0].position is Alone ==> {
            let t = marks[0].text;
            let r = restored(chunks, marks, closed);
            &&& r.len() > 0
            &&& t.len() > 0 && t.last() == ' ' ==> r[0] == t
            &&& t.len() == 0 || t.last() != ' ' ==> r[0] == t.push(' ')
        },
{
    if marks.len() > 0 && chunks.len() == 0 {
        assert(mark_texts(marks) =~= marks.map_values(|m: MarkView| m.text));
    }
}

} // verus!
