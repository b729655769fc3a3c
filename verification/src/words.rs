//! Words: maximal runs of characters that are not ASCII white space.

use crate::bytes::{byte_at, chars_and_offsets};
use crate::runs::{find_runs, lemma_runs, pairs, runs};
use crate::segment::{byte_spans, to_bytes};
use crate::text::{slice_of, string_of, white};
use vstd::prelude::*;
use vstd::utf8::encode_utf8;

verus! {

/// The white space of ASCII: space, tab, line feed, form feed and return.
pub open spec fn ascii_white(c: char) -> bool {
    c == ' ' || c == '\t' || c == '\n' || c == '\u{c}' || c == '\r'
}

/// Is `c` ASCII white space?
pub fn is_ascii_white(c: char) -> (b: bool)
    ensures
        b == ascii_white(c),
{
    c == ' ' || c == '\t' || c == '\n' || c == '\u{c}' || c == '\r'
}

/// Which characters belong to words.
pub open spec fn wordy(s: Seq<char>) -> Seq<bool> {
    Seq::new(s.len(), |i: int| !ascii_white(s[i]))
}

/// Where the words of a text lie, in characters.
pub open spec fn word_spans(s: Seq<char>) -> Seq<(int, int)> {
    runs(wordy(s))
}

/// Where the words lie in the stretch of `s` from `a` to `b`, in characters of `s`.
pub open spec fn word_spans_within(s: Seq<char>, a: int, b: int) -> Seq<(int, int)> {
    word_spans(s.subrange(a, b)).map_values(|p: (int, int)| (a + p.0, a + p.1))
}

/// Where the words lie in a stretch of a text.
pub fn words_within(s: &Vec<char>, a: usize, b: usize) -> (r: Vec<(usize, usize)>)
    requires
        a <= b <= s.len(),
    ensures
        pairs(r@) == word_spans_within(s@, a as int, b as int),
        forall|i: int| 0 <= i < r.len() ==> a <= (#[trigger] r@[i]).0 < r@[i].1 <= b,
{
    let ghost part = s@.subrange(a as int, b as int);
    let mut mask: Vec<bool> = Vec::new();
    let mut i: usize = a;
    while i < b
        invariant
            a <= i <= b <= s.len(),
            part == s@.subrange(a as int, b as int),
            mask@ == wordy(part).take(i - a),
        decreases b - i,
    {
        mask.push(!is_ascii_white(s[i]));
        i += 1;
        assert(mask@ =~= wordy(part).take(i - a));
    }
    assert(mask@ =~= wordy(part));
    let found = find_runs(mask.as_slice());
    proof {
        lemma_runs(mask@);
    }
    let mut r: Vec<(usize, usize)> = Vec::new();
    let mut k: usize = 0;
    while k < found.len()
        invariant
            k <= found.len(),
            a <= b <= s.len(),
            mask.len() == b - a,
            pairs(found@) == runs(mask@),
            crate::runs::are_runs(mask@, 0, runs(mask@)),
            r.len() == k,
            forall|i: int|
                0 <= i < k ==> (#[trigger] r@[i]).0 == a + found@[i].0 && r@[i].1 == a
                    + found@[i].1 && a <= r@[i].0 < r@[i].1 <= b,
        decreases found.len() - k,
    {
        let (x, y) = found[k];
        assert(pairs(found@)[k as int] == (x as int, y as int));
        r.push((a + x, a + y));
        k += 1;
    }
    assert(pairs(r@) =~= word_spans_within(s@, a as int, b as int)) by {
        assert(pairs(found@).len() == found.len());
        assert forall|i: int| 0 <= i < r.len() implies #[trigger] pairs(r@)[i]
            == word_spans_within(s@, a as int, b as int)[i] by {
            assert(pairs(found@)[i] == (found@[i].0 as int, found@[i].1 as int));
        }
    }
    r
}

/// The byte ranges of the words of a text.
pub fn word_ranges(raw: &str) -> (r: Vec<(usize, usize)>)
    ensures
        pairs(r@) == byte_spans(raw@, word_spans(raw@)),
{
    let (s, offs) = chars_and_offsets(raw);
    let found = words_within(&s, 0, s.len());
    proof {
        assert(s@.subrange(0, s.len() as int) =~= s@);
        assert(pairs(found@) =~= word_spans(s@));
    }
    to_bytes(&s, &offs, &found)
}

/// A word of a text and where it lies in it, in bytes.
#[derive(Debug)]
pub struct TextWord {
    pub start: usize,
    pub end: usize,
    pub text: String,
}

/// A word of a text and where it lies in it, in bytes.
pub struct TextWordView {
    pub start: int,
    pub end: int,
    pub text: Seq<char>,
}

impl View for TextWord {
    type V = TextWordView;

    open spec fn view(&self) -> TextWordView {
        TextWordView { start: self.start as int, end: self.end as int, text: self.text@ }
    }
}

/// The words of a text.
pub open spec fn text_words(s: Seq<char>) -> Seq<TextWordView> {
    word_spans(s).map_values(
        |p: (int, int)|
            TextWordView {
                start: byte_at(s, p.0) as int,
                end: byte_at(s, p.1) as int,
                text: s.subrange(p.0, p.1),
            },
    )
}

/// The words of a text, each with its byte range.
pub fn words_of(text: &str) -> (r: Vec<TextWord>)
    ensures
        r@.map_values(|w: TextWord| w@) == text_words(text@),
{
    let (s, offs) = chars_and_offsets(text);
    let found = words_within(&s, 0, s.len());
    proof {
        assert(s@.subrange(0, s.len() as int) =~= s@);
        assert(pairs(found@) =~= word_spans(s@));
    }
    let ghost all = text_words(s@);
    let mut r: Vec<TextWord> = Vec::new();
    let mut k: usize = 0;
    while k < found.len()
        invariant
            k <= found.len(),
            s@ == text@,
            all == text_words(s@),
            pairs(found@) == word_spans(s@),
            forall|i: int|
                0 <= i < found.len() ==> (#[trigger] found@[i]).0 < found@[i].1 <= s.len(),
            offs.len() == s.len() + 1,
            forall|i: int| 0 <= i <= s.len() ==> #[trigger] offs@[i] == byte_at(s@, i),
            r.len() == k,
            forall|i: int| 0 <= i < k ==> (#[trigger] r@[i])@ == all[i],
        decreases found.len() - k,
    {
        let (a, b) = found[k];
        assert(pairs(found@)[k as int] == (a as int, b as int));
        let word = slice_of(s.as_slice(), a, b);
        r.push(TextWord { start: offs[a], end: offs[b], text: string_of(word.as_slice()) });
        k += 1;
    }
    assert(r@.map_values(|w: TextWord| w@) =~= all) by {
        assert(pairs(found@).len() == found.len());
    }
    r
}

/// A stretch that begins in a character that is not white holds a word, and its
/// first word begins where it begins.
pub proof fn lemma_first_word(s: Seq<char>, a: int, b: int)
    requires
        0 <= a < b <= s.len(),
        !white(s[a]),
    ensures
        word_spans_within(s, a, b).len() > 0,
        word_spans_within(s, a, b)[0].0 == a,
{
    let part = s.subrange(a, b);
    let mask = wordy(part);
    assert(part[0] == s[a]);
    assert(mask[0]);
    crate::runs::lemma_next_at_is(mask, true, 0, 0);
    assert(runs(mask).len() > 0);
    assert(runs(mask)[0].0 == 0);
}

/// The words of a text are what stands between its ASCII white space: a word holds none of
/// it, is bounded by it or by the ends of the text, and nothing else of the text is left
/// out. They come in order, each with its characters and its bytes.
pub proof fn lemma_words_stand_between_white_space(s: Seq<char>, w: int)
    requires
        0 <= w < text_words(s).len(),
    ensures
        text_words(s).len() == word_spans(s).len(),
        ({
            let (a, b) = word_spans(s)[w];
            &&& 0 <= a < b <= s.len()
            &&& forall|k: int|
                a <= k < b ==> #[trigger] s[k] != ' ' && s[k] != '\t' && s[k] != '\n' && s[k]
                    != '\u{c}' && s[k] != '\r'
            &&& a > 0 ==> s[a - 1] == ' ' || s[a - 1] == '\t' || s[a - 1] == '\n' || s[a - 1]
                == '\u{c}' || s[a - 1] == '\r'
            &&& b < s.len() ==> s[b] == ' ' || s[b] == '\t' || s[b] == '\n' || s[b] == '\u{c}'
                || s[b] == '\r'
            &&& text_words(s)[w].text == s.subrange(a, b)
            &&& text_words(s)[w].start == encode_utf8(s.take(a)).len()
            &&& text_words(s)[w].end == encode_utf8(s.take(b)).len()
            &&& byte_spans(s, word_spans(s))[w] == (
                encode_utf8(s.take(a)).len() as int,
                encode_utf8(s.take(b)).len() as int,
            )
            &&& w + 1 < word_spans(s).len() ==> b < word_spans(s)[w + 1].0
        }),
{
    let mask = wordy(s);
    lemma_runs(mask);
    let (a, b) = word_spans(s)[w];
    assert forall|k: int| a <= k < b implies #[trigger] s[k] != ' ' && s[k] != '\t' && s[k]
        != '\n' && s[k] != '\u{c}' && s[k] != '\r' by {
        assert(mask[k]);
    }
    if a > 0 {
        assert(!mask[a - 1]);
    }
    if b < s.len() {
        assert(!mask[b]);
    }
    if w + 1 < word_spans(s).len() {
        assert(runs(mask)[w].1 < runs(mask)[w + 1].0);
    }
}

/// Every character that is not ASCII white space stands in a word.
pub proof fn lemma_every_character_is_in_a_word(s: Seq<char>, k: int) -> (w: int)
    requires
        0 <= k < s.len(),
        s[k] != ' ' && s[k] != '\t' && s[k] != '\n' && s[k] != '\u{c}' && s[k] != '\r',
    ensures
        0 <= w < word_spans(s).len(),
        word_spans(s)[w].0 <= k < word_spans(s)[w].1,
{
    let mask = wordy(s);
    lemma_runs(mask);
    assert(mask[k]);
    let r = runs(mask);
    choose|w: int| 0 <= w < r.len() && (#[trigger] r[w]).0 <= k < r[w].1
}

} // verus!
