//! Pronunciation overrides: terms and how to respell them.

use crate::runs::{lemma_next_at, lemma_next_at_is, next_at};
use crate::text::{
    alphanumeric, chars_of, find, first_at, is_ascii_text, is_small, lead, lemma_first_at,
    lemma_lead, lemma_lead_is, lemma_occurs_char, lemma_small_twice, lemma_split_joins,
    lemma_split_nonempty, lemma_split_one, lemma_trimmed_end_is, lines, lines_of, lists, lowercase,
    occurs_at, push_all, same_text, slice_of, small, split, string_of, trim, trimmed, white,
    without_return,
};
use vstd::prelude::*;

verus! {

/// The terms and respellings of a list of entries, later ones first.
pub open spec fn entry_map(e: Seq<(String, String)>) -> Map<Seq<char>, Seq<char>>
    decreases e.len(),
{
    if e.len() == 0 {
        Map::empty()
    } else {
        entry_map(e.drop_last()).insert(e.last().0@, e.last().1@)
    }
}

spec fn distinct(e: Seq<(String, String)>) -> bool {
    forall|i: int, j: int| 0 <= i < j < e.len() ==> (#[trigger] e[i]).0@ != (#[trigger] e[j]).0@
}

proof fn lemma_entry_map(e: Seq<(String, String)>)
    requires
        distinct(e),
    ensures
        entry_map(e).dom().finite(),
        entry_map(e).dom().len() == e.len(),
        forall|i: int|
            0 <= i < e.len() ==> entry_map(e).contains_key((#[trigger] e[i]).0@) && entry_map(
                e,
            )[e[i].0@] == e[i].1@,
        forall|k: Seq<char>|
            #[trigger] entry_map(e).contains_key(k) ==> exists|i: int|
                0 <= i < e.len() && (#[trigger] e[i]).0@ == k,
    decreases e.len(),
{
    if e.len() > 0 {
        let front = e.drop_last();
        lemma_entry_map(front);
        assert forall|i: int| 0 <= i < e.len() implies entry_map(e).contains_key(
            (#[trigger] e[i]).0@,
        ) && entry_map(e)[e[i].0@] == e[i].1@ by {
            if i < e.len() - 1 {
                assert(e[i] == front[i]);
            }
        }
        assert forall|k: Seq<char>| #[trigger] entry_map(e).contains_key(k) implies exists|i: int|
            0 <= i < e.len() && (#[trigger] e[i]).0@ == k by {
            if k == e.last().0@ {
                assert(e[e.len() - 1].0@ == k);
            } else {
                assert(entry_map(front).contains_key(k));
                let i = choose|i: int| 0 <= i < front.len() && (#[trigger] front[i]).0@ == k;
                assert(e[i].0@ == k);
            }
        }
        if entry_map(front).contains_key(e.last().0@) {
            let i = choose|i: int|
                0 <= i < front.len() && (#[trigger] front[i]).0@ == e.last().0@;
            assert(e[i].0@ != e[e.len() - 1].0@);
        }
    }
}

proof fn lemma_entry_map_set(e: Seq<(String, String)>, i: int, v: (String, String))
    requires
        distinct(e),
        0 <= i < e.len(),
        v.0@ == e[i].0@,
    ensures
        entry_map(e.update(i, v)) == entry_map(e).insert(v.0@, v.1@),
    decreases e.len(),
{
    let f = e.update(i, v);
    let front = e.drop_last();
    if i == e.len() - 1 {
        assert(f.drop_last() =~= front);
        assert(entry_map(f) =~= entry_map(e).insert(v.0@, v.1@));
    } else {
        assert(f.drop_last() =~= front.update(i, v));
        lemma_entry_map_set(front, i, v);
        assert(e[i].0@ != e[e.len() - 1].0@);
        assert(entry_map(f) =~= entry_map(e).insert(v.0@, v.1@));
    }
}

/// Terms, in lower case, and how to respell them.
#[derive(Debug)]
pub struct Lexicon {
    entries: Vec<(String, String)>,
}

impl View for Lexicon {
    type V = Map<Seq<char>, Seq<char>>;

    closed spec fn view(&self) -> Map<Seq<char>, Seq<char>> {
        entry_map(self.entries@)
    }
}

impl Lexicon {
    /// No term stands in the lexicon twice.
    pub closed spec fn wf(&self) -> bool {
        distinct(self.entries@)
    }

    pub fn new() -> (r: Lexicon)
        ensures
            r.wf(),
            r@ == Map::<Seq<char>, Seq<char>>::empty(),
    {
        Lexicon { entries: Vec::new() }
    }

    /// How many terms there are.
    pub fn len(&self) -> (n: usize)
        requires
            self.wf(),
        ensures
            self@.dom().finite(),
            n == self@.dom().len(),
    {
        proof {
            lemma_entry_map(self.entries@);
        }
        self.entries.len()
    }

    fn place(&self, term: &str) -> (r: Option<usize>)
        ensures
            match r {
                Some(i) => i < self.entries.len() && self.entries@[i as int].0@ == term@,
                None => forall|k: int|
                    0 <= k < self.entries.len() ==> (#[trigger] self.entries@[k]).0@ != term@,
            },
    {
        let mut i: usize = 0;
        while i < self.entries.len()
            invariant
                i <= self.entries.len(),
                forall|k: int| 0 <= k < i ==> (#[trigger] self.entries@[k]).0@ != term@,
            decreases self.entries.len() - i,
        {
            if same_text(self.entries[i].0.as_str(), term) {
                return Some(i);
            }
            i += 1;
        }
        None
    }

    /// Respell `term` as `say` from now on.
    pub fn insert(&mut self, term: String, say: String)
        requires
            old(self).wf(),
        ensures
            final(self).wf(),
            final(self)@ == old(self)@.insert(term@, say@),
    {
        match self.place(term.as_str()) {
            Some(i) => {
                let ghost before = self.entries@;
                let ghost v = (term, say);
                self.entries.set(i, (term, say));
                proof {
                    lemma_entry_map_set(before, i as int, v);
                }
            },
            None => {
                let ghost before = self.entries@;
                self.entries.push((term, say));
                assert(self.entries@.drop_last() =~= before);
            },
        }
    }

    /// How to respell `term`, exactly as it is written.
    pub fn get(&self, term: &str) -> (r: Option<&str>)
        requires
            self.wf(),
        ensures
            r is Some <==> self@.contains_key(term@),
            r is Some ==> r->0@ == self@[term@],
    {
        proof {
            lemma_entry_map(self.entries@);
        }
        match self.place(term) {
            Some(i) => Some(self.entries[i].1.as_str()),
            None => None,
        }
    }
}

/// What one line of a lexicon file says: a term and its respelling with a tab
/// between them, or at least two spaces; nothing where the line is empty, a
/// comment, or lacks either of the two.
pub open spec fn entry_of(line: Seq<char>) -> Option<(Seq<char>, Seq<char>)> {
    let l = trimmed(line);
    let tab = first_at(l, seq!['\t'], 0);
    let gap = first_at(l, seq![' ', ' '], 0);
    let (term, say) = if tab < l.len() {
        (trimmed(l.take(tab)), trimmed(l.skip(tab + 1)))
    } else if gap < l.len() {
        (trimmed(l.take(gap)), trimmed(l.skip(gap + 2)))
    } else {
        (Seq::empty(), Seq::empty())
    };
    if l.len() == 0 || l[0] == '#' || term.len() == 0 || say.len() == 0 {
        None
    } else {
        Some((lowercase(term), say))
    }
}

/// The lexicon that the given lines make, later lines overriding earlier ones.
pub open spec fn lexicon_of(l: Seq<Seq<char>>) -> Map<Seq<char>, Seq<char>>
    decreases l.len(),
{
    if l.len() == 0 {
        Map::empty()
    } else {
        let before = lexicon_of(l.drop_last());
        match entry_of(l.last()) {
            Some((term, say)) => before.insert(term, say),
            None => before,
        }
    }
}

fn read_entry(line: &Vec<char>) -> (r: Option<(String, String)>)
    ensures
        match r {
            Some((term, say)) => entry_of(line@) == Some((term@, say@)) && is_small(term@),
            None => entry_of(line@) is None,
        },
{
    let l = trim(line.as_slice());
    if l.len() == 0 || l[0] == '#' {
        return None;
    }
    let tab_pat: [char; 1] = ['\t'];
    let gap_pat: [char; 2] = [' ', ' '];
    assert(tab_pat@ =~= seq!['\t']);
    assert(gap_pat@ =~= seq![' ', ' ']);
    let tab: usize = find(l.as_slice(), tab_pat.as_slice(), 0);
    let mut cut: usize = tab;
    let mut rest: usize = tab;
    if tab < l.len() {
        rest = tab + 1;
    } else {
        cut = find(l.as_slice(), gap_pat.as_slice(), 0);
        if cut >= l.len() {
            return None;
        }
        proof {
            crate::text::lemma_first_at(l@, gap_pat@, 0);
        }
        rest = cut + 2;
    }
    let before = slice_of(l.as_slice(), 0, cut);
    let behind = slice_of(l.as_slice(), rest, l.len());
    let term = trim(before.as_slice());
    let say = trim(behind.as_slice());
    assert(before@ =~= l@.take(cut as int));
    assert(behind@ =~= l@.skip(rest as int));
    if term.len() == 0 || say.len() == 0 {
        return None;
    }
    let written = string_of(term.as_slice());
    Some((written.as_str().to_lowercase(), string_of(say.as_slice())))
}

/// No term of a lexicon holds an ASCII capital.
pub open spec fn small_terms(lexicon: Map<Seq<char>, Seq<char>>) -> bool {
    forall|term: Seq<char>| #[trigger] lexicon.contains_key(term) ==> is_small(term)
}

/// Read a lexicon file: `term<TAB>respelling`, one per line, `#` comments.
pub fn load_lexicon(text: &str) -> (r: Lexicon)
    ensures
        r.wf(),
        r@ == lexicon_of(lines(text@)),
        small_terms(r@),
{
    let chars = chars_of(text);
    let all = lines_of(chars.as_slice());
    let ghost l = lists(all@);
    let mut r = Lexicon::new();
    let mut i: usize = 0;
    while i < all.len()
        invariant
            i <= all.len(),
            l == lists(all@),
            r.wf(),
            r@ == lexicon_of(l.take(i as int)),
            small_terms(r@),
        decreases all.len() - i,
    {
        assert(l.take(i + 1).drop_last() =~= l.take(i as int));
        assert(l.take(i + 1).last() == all@[i as int]@);
        match read_entry(&all[i]) {
            Some((term, say)) => {
                r.insert(term, say);
            },
            None => {},
        }
        i += 1;
    }
    assert(l.take(i as int) =~= l);
    r
}

/// How to respell a word: as it is written, else in lower case.
pub open spec fn respelling(
    word: Seq<char>,
    lexicon: Map<Seq<char>, Seq<char>>,
) -> Option<Seq<char>> {
    if lexicon.contains_key(word) {
        Some(lexicon[word])
    } else if lexicon.contains_key(lowercase(word)) {
        Some(lexicon[lowercase(word)])
    } else {
        None
    }
}

/// The replacement for one word, or `None` to keep it. Where no term holds a capital, the
/// case of an ASCII word does not matter.
pub fn lookup<'a>(word: &str, lexicon: &'a Lexicon) -> (r: Option<&'a str>)
    requires
        lexicon.wf(),
    ensures
        match r {
            Some(say) => respelling(word@, lexicon@) == Some(say@),
            None => respelling(word@, lexicon@) is None,
        },
        is_ascii_text(word@) && small_terms(lexicon@) ==> {
            &&& r is Some <==> lexicon@.contains_key(small(word@))
            &&& r is Some ==> r->0@ == lexicon@[small(word@)]
        },
        r is Some <==> lexicon@.contains_key(word@) || lexicon@.contains_key(lowercase(word@)),
        lexicon@.contains_key(word@) ==> r->0@ == lexicon@[word@],
        r is Some && !lexicon@.contains_key(word@) ==> r->0@ == lexicon@[lowercase(word@)],
{
    proof {
        lemma_small_twice(word@);
    }
    if let Some(say) = lexicon.get(word) {
        return Some(say);
    }
    let low = word.to_lowercase();
    lexicon.get(low.as_str())
}

/// The characters a word is made of.
pub open spec fn word_char(c: char) -> bool {
    alphanumeric(c) || c == '\''
}

pub open spec fn word_mask(s: Seq<char>) -> Seq<bool> {
    Seq::new(s.len(), |i: int| word_char(s[i]))
}

/// A word, or what the lexicon says in its place.
pub open spec fn said(word: Seq<char>, lexicon: Map<Seq<char>, Seq<char>>) -> Seq<char> {
    match respelling(word, lexicon) {
        Some(say) => say,
        None => word,
    }
}

/// What stands in `s` from `i` on, with the words the lexicon knows respelled.
pub open spec fn respelled_from(
    s: Seq<char>,
    lexicon: Map<Seq<char>, Seq<char>>,
    i: int,
) -> Seq<char>
    decreases s.len() - i,
    via respelled_from_decreases
{
    let a = next_at(word_mask(s), true, i);
    let b = next_at(word_mask(s), false, a);
    if i < 0 || a >= s.len() {
        s.skip(i)
    } else {
        s.subrange(i, a) + said(s.subrange(a, b), lexicon) + respelled_from(s, lexicon, b)
    }
}

#[via_fn]
proof fn respelled_from_decreases(s: Seq<char>, lexicon: Map<Seq<char>, Seq<char>>, i: int) {
    let a = next_at(word_mask(s), true, i);
    lemma_next_at(word_mask(s), true, i);
    lemma_next_at(word_mask(s), false, a);
}

/// A text with every whole word that the lexicon knows respelled.
pub open spec fn respelled(s: Seq<char>, lexicon: Map<Seq<char>, Seq<char>>) -> Seq<char> {
    respelled_from(s, lexicon, 0)
}

fn is_word_char(c: char) -> (b: bool)
    ensures
        b == word_char(c),
{
    c.is_alphanumeric() || c == '\''
}

/// Replace whole words the lexicon knows about; everything around them stays.
pub fn respell(text: &str, lexicon: &Lexicon) -> (r: String)
    requires
        lexicon.wf(),
    ensures
        r@ == respelled(text@, lexicon@),
{
    let s = chars_of(text);
    let ghost mask = word_mask(s@);
    let mut out: Vec<char> = Vec::new();
    let mut i: usize = 0;
    assert(out@ + respelled_from(s@, lexicon@, 0) =~= respelled(s@, lexicon@));
    while i < s.len()
        invariant
            i <= s.len(),
            lexicon.wf(),
            mask == word_mask(s@),
            out@ + respelled_from(s@, lexicon@, i as int) == respelled(s@, lexicon@),
        decreases s.len() - i,
    {
        let start: usize = i;
        let ghost before = out@;
        while i < s.len() && !is_word_char(s[i])
            invariant
                start <= i <= s.len(),
                mask == word_mask(s@),
                out@ == before + s@.subrange(start as int, i as int),
                forall|k: int| start <= k < i ==> #[trigger] mask[k] != true,
            decreases s.len() - i,
        {
            out.push(s[i]);
            i += 1;
            assert(s@.subrange(start as int, i as int) =~= s@.subrange(start as int, i - 1).push(
                s@[i - 1],
            ));
        }
        proof {
            lemma_next_at_is(mask, true, start as int, i as int);
        }
        if i < s.len() {
            let st: usize = i;
            while i < s.len() && is_word_char(s[i])
                invariant
                    st <= i <= s.len(),
                    mask == word_mask(s@),
                    forall|k: int| st <= k < i ==> #[trigger] mask[k] != false,
                decreases s.len() - i,
            {
                i += 1;
            }
            proof {
                lemma_next_at_is(mask, false, st as int, i as int);
            }
            assert(i > st) by {
                if i == st {
                    assert(mask[st as int] == true);
                }
            }
            let word = slice_of(s.as_slice(), st, i);
            let written = string_of(word.as_slice());
            match lookup(written.as_str(), lexicon) {
                Some(say) => {
                    let chars = chars_of(say);
                    push_all(&mut out, chars.as_slice());
                },
                None => {
                    push_all(&mut out, word.as_slice());
                },
            }
            assert(before + respelled_from(s@, lexicon@, start as int) =~= out@ + respelled_from(
                s@,
                lexicon@,
                i as int,
            ));
        } else {
            assert(s@.skip(start as int) =~= s@.subrange(start as int, i as int));
            assert(s@.skip(i as int) =~= Seq::empty());
            assert(respelled_from(s@, lexicon@, i as int) =~= Seq::empty());
            assert(before + respelled_from(s@, lexicon@, start as int) =~= out@ + respelled_from(
                s@,
                lexicon@,
                i as int,
            ));
        }
    }
    assert(respelled_from(s@, lexicon@, i as int) =~= Seq::empty());
    assert(out@ + respelled_from(s@, lexicon@, i as int) =~= out@);
    string_of(out.as_slice())
}

/// No whole word of `s` is one that the lexicon knows.
pub open spec fn all_unknown(s: Seq<char>, lexicon: Map<Seq<char>, Seq<char>>) -> bool {
    forall|a: int, b: int|
        0 <= a < b <= s.len() && (a == 0 || !word_char(s[a - 1])) && (b == s.len() || !word_char(
            s[b],
        )) ==> respelling(#[trigger] s.subrange(a, b), lexicon) is None
}

proof fn lemma_unknown_from(s: Seq<char>, lexicon: Map<Seq<char>, Seq<char>>, i: int)
    requires
        0 <= i <= s.len(),
        i == 0 || i == s.len() || !word_char(s[i]),
        all_unknown(s, lexicon),
    ensures
        respelled_from(s, lexicon, i) == s.skip(i),
    decreases s.len() - i,
{
    let mask = word_mask(s);
    let a = next_at(mask, true, i);
    let b = next_at(mask, false, a);
    lemma_next_at(mask, true, i);
    lemma_next_at(mask, false, a);
    if a < s.len() {
        assert(mask[a]);
        assert(b > a);
        if b < s.len() {
            assert(!mask[b]);
        }
        if a > i {
            assert(mask[a - 1] != true);
        }
        assert(a == 0 || !word_char(s[a - 1]));
        lemma_unknown_from(s, lexicon, b);
        assert(respelling(s.subrange(a, b), lexicon) is None);
        assert(s.skip(i) =~= s.subrange(i, a) + s.subrange(a, b) + s.skip(b));
    }
}

/// A text none of whose whole words the lexicon knows stays as it is.
pub proof fn lemma_unknown_words_stay(s: Seq<char>, lexicon: Map<Seq<char>, Seq<char>>)
    requires
        all_unknown(s, lexicon),
    ensures
        respelled(s, lexicon) == s,
{
    lemma_unknown_from(s, lexicon, 0);
    assert(s.skip(0) =~= s);
}

/// Case does not matter: a word that the lexicon does not have as it is written is
/// respelled as its lower case is.
pub proof fn lemma_case_does_not_matter(word: Seq<char>, lexicon: Map<Seq<char>, Seq<char>>)
    requires
        !lexicon.contains_key(word),
    ensures
        respelling(word, lexicon) == (if lexicon.contains_key(lowercase(word)) {
            Some(lexicon[lowercase(word)])
        } else {
            None
        }),
        lexicon.contains_key(lowercase(word)) ==> said(word, lexicon) == said(
            lowercase(word),
            lexicon,
        ),
{
}

/// A word that stands alone between characters of no word is respelled, and
/// what stands before and after it is treated as if it stood alone.
pub proof fn lemma_whole_word_is_respelled(
    before: Seq<char>,
    word: Seq<char>,
    after: Seq<char>,
    lexicon: Map<Seq<char>, Seq<char>>,
)
    requires
        word.len() > 0,
        forall|k: int| 0 <= k < word.len() ==> word_char(#[trigger] word[k]),
        forall|k: int| 0 <= k < before.len() ==> !word_char(#[trigger] before[k]),
        after.len() > 0 ==> !word_char(after[0]),
    ensures
        respelled(before + word + after, lexicon) == before + said(word, lexicon) + respelled(
            after,
            lexicon,
        ),
{
    let s = before + word + after;
    let mask = word_mask(s);
    let a = before.len() as int;
    let b = a + word.len();
    assert forall|k: int| 0 <= k < a implies #[trigger] mask[k] != true by {
        assert(s[k] == before[k]);
    }
    assert(mask[a]) by {
        assert(s[a] == word[0]);
    }
    lemma_next_at_is(mask, true, 0, a);
    assert forall|k: int| a <= k < b implies #[trigger] mask[k] != false by {
        assert(s[k] == word[k - a]);
    }
    if after.len() > 0 {
        assert(s[b] == after[0]);
        assert(!mask[b]);
    }
    lemma_next_at_is(mask, false, a, b);
    assert(s.subrange(0, a) =~= before);
    assert(s.subrange(a, b) =~= word);
    assert(s.skip(b) =~= after);
    lemma_respelled_skip(s, lexicon, b, 0);
}

/// What is respelled from `i` on depends on what stands from `i` on alone.
proof fn lemma_respelled_skip(s: Seq<char>, lexicon: Map<Seq<char>, Seq<char>>, n: int, i: int)
    requires
        0 <= n,
        0 <= i,
        n + i <= s.len(),
    ensures
        respelled_from(s, lexicon, n + i) == respelled_from(s.skip(n), lexicon, i),
    decreases s.len() - n - i,
{
    let t = s.skip(n);
    let mask = word_mask(s);
    let part = word_mask(t);
    let a = next_at(part, true, i);
    let b = next_at(part, false, a);
    lemma_next_at(part, true, i);
    lemma_next_at(part, false, a);
    assert forall|k: int| n + i <= k < n + a implies #[trigger] mask[k] != true by {
        assert(part[k - n] != true);
    }
    if a < t.len() {
        assert(part[a]);
    }
    lemma_next_at_is(mask, true, n + i, n + a);
    assert(t.skip(i) =~= s.skip(n + i));
    if a < t.len() {
        assert forall|k: int| n + a <= k < n + b implies #[trigger] mask[k] != false by {
            assert(part[k - n] != false);
        }
        assert(b > a);
        if b < t.len() {
            assert(!part[b]);
        }
        lemma_next_at_is(mask, false, n + a, n + b);
        lemma_respelled_skip(s, lexicon, n, b);
        assert(t.subrange(i, a) =~= s.subrange(n + i, n + a));
        assert(t.subrange(a, b) =~= s.subrange(n + a, n + b));
    }
}

proof fn lemma_respelled_append(
    x: Seq<char>,
    y: Seq<char>,
    lexicon: Map<Seq<char>, Seq<char>>,
    i: int,
)
    requires
        0 <= i <= x.len(),
        x.len() == 0 || y.len() == 0 || !word_char(x.last()) || !word_char(y[0]),
    ensures
        respelled_from(x + y, lexicon, i) == respelled_from(x, lexicon, i) + respelled(y, lexicon),
    decreases x.len() - i,
{
    let s = x + y;
    let n = x.len() as int;
    let mask = word_mask(s);
    let part = word_mask(x);
    let a = next_at(part, true, i);
    let b = next_at(part, false, a);
    lemma_next_at(part, true, i);
    lemma_next_at(part, false, a);
    assert forall|k: int| i <= k < a implies #[trigger] mask[k] != true by {
        assert(part[k] != true);
    }
    if a < n {
        assert(part[a]);
        assert(mask[a]);
        lemma_next_at_is(mask, true, i, a);
        assert forall|k: int| a <= k < b implies #[trigger] mask[k] != false by {
            assert(part[k] != false);
        }
        assert(b > a);
        if b < n {
            assert(!part[b]);
            assert(!mask[b]);
        } else if y.len() > 0 {
            assert(part[n - 1] != false);
            assert(word_char(x.last()));
            assert(s[n] == y[0]);
            assert(!mask[n]);
        }
        lemma_next_at_is(mask, false, a, b);
        lemma_respelled_append(x, y, lexicon, b);
        assert(s.subrange(i, a) =~= x.subrange(i, a));
        assert(s.subrange(a, b) =~= x.subrange(a, b));
        assert(respelled_from(s, lexicon, i) =~= respelled_from(x, lexicon, i) + respelled(
            y,
            lexicon,
        ));
    } else {
        let last = word_mask(y);
        let c = next_at(last, true, 0);
        let d = next_at(last, false, c);
        lemma_next_at(last, true, 0);
        lemma_next_at(last, false, c);
        assert forall|k: int| i <= k < n + c implies #[trigger] mask[k] != true by {
            if k < n {
                assert(part[k] != true);
            } else {
                assert(last[k - n] != true);
            }
        }
        if c < y.len() {
            assert(last[c]);
            assert(mask[n + c]);
        }
        lemma_next_at_is(mask, true, i, n + c);
        if c < y.len() {
            assert forall|k: int| n + c <= k < n + d implies #[trigger] mask[k] != false by {
                assert(last[k - n] != false);
            }
            if d < y.len() {
                assert(!last[d]);
                assert(!mask[n + d]);
            }
            lemma_next_at_is(mask, false, n + c, n + d);
            assert(s.skip(n) =~= y);
            lemma_respelled_skip(s, lexicon, n, d);
            assert(s.subrange(i, n + c) =~= x.skip(i) + y.subrange(0, c));
            assert(s.subrange(n + c, n + d) =~= y.subrange(c, d));
            assert(respelled_from(s, lexicon, i) =~= x.skip(i) + respelled(y, lexicon));
        } else {
            assert(y.skip(0) =~= y);
            assert(s.skip(i) =~= x.skip(i) + y);
        }
    }
}

/// Texts are respelled one by one: where no word runs across the place between two texts,
/// the whole is respelled as its parts are. A word is a run of letters, digits and
/// apostrophes.
pub proof fn lemma_respelled_joins(
    x: Seq<char>,
    y: Seq<char>,
    lexicon: Map<Seq<char>, Seq<char>>,
)
    requires
        x.len() > 0 && y.len() > 0 ==> !(alphanumeric(x.last()) || x.last() == '\'') || !(
        alphanumeric(y[0]) || y[0] == '\''),
    ensures
        respelled(x + y, lexicon) == respelled(x, lexicon) + respelled(y, lexicon),
{
    lemma_respelled_append(x, y, lexicon, 0);
}

/// A word is respelled as the lexicon has it: as it is written, else in lower case, and else
/// it stays.
pub proof fn lemma_word_is_looked_up(word: Seq<char>, lexicon: Map<Seq<char>, Seq<char>>)
    requires
        word.len() > 0,
        forall|k: int|
            0 <= k < word.len() ==> alphanumeric(#[trigger] word[k]) || word[k] == '\'',
    ensures
        lexicon.contains_key(word) ==> respelled(word, lexicon) == lexicon[word],
        !lexicon.contains_key(word) && lexicon.contains_key(lowercase(word)) ==> respelled(
            word,
            lexicon,
        ) == lexicon[lowercase(word)],
        !lexicon.contains_key(word) && !lexicon.contains_key(lowercase(word)) ==> respelled(
            word,
            lexicon,
        ) == word,
{
    let none = Seq::<char>::empty();
    assert(none + word + none =~= word);
    lemma_whole_word_is_respelled(none, word, none, lexicon);
    assert(respelled(none, lexicon) =~= none);
    assert(none + said(word, lexicon) + none =~= said(word, lexicon));
}

/// What holds no letter, digit or apostrophe stays as it is.
pub proof fn lemma_marks_stay(s: Seq<char>, lexicon: Map<Seq<char>, Seq<char>>)
    requires
        forall|k: int| 0 <= k < s.len() ==> !(alphanumeric(#[trigger] s[k]) || s[k] == '\''),
    ensures
        respelled(s, lexicon) == s,
{
    let mask = word_mask(s);
    assert forall|k: int| 0 <= k < s.len() implies #[trigger] mask[k] != true by {
        assert(!alphanumeric(s[k]));
    }
    lemma_next_at_is(mask, true, 0, s.len() as int);
    assert(s.skip(0) =~= s);
}

/// A word that the lexicon knows is respelled wherever it stands whole, whatever
/// punctuation or white space stands around it; the rest is respelled for itself.
pub proof fn lemma_known_word_is_respelled(
    before: Seq<char>,
    word: Seq<char>,
    after: Seq<char>,
    lexicon: Map<Seq<char>, Seq<char>>,
)
    requires
        word.len() > 0,
        forall|k: int|
            0 <= k < word.len() ==> alphanumeric(#[trigger] word[k]) || word[k] == '\'',
        before.len() > 0 ==> !(alphanumeric(before.last()) || before.last() == '\''),
        after.len() > 0 ==> !(alphanumeric(after[0]) || after[0] == '\''),
        lexicon.contains_key(word) || lexicon.contains_key(lowercase(word)),
    ensures
        respelled(before + word + after, lexicon) == respelled(before, lexicon) + (
        if lexicon.contains_key(word) {
            lexicon[word]
        } else {
            lexicon[lowercase(word)]
        }) + respelled(after, lexicon),
{
    lemma_respelled_joins(before, word, lexicon);
    lemma_respelled_joins(before + word, after, lexicon);
    lemma_word_is_looked_up(word, lexicon);
}

/// Between any two characters that are neither letters, digits nor apostrophes, a word is
/// respelled and they stay: `(AWS)` keeps its parentheses.
pub proof fn lemma_enclosed_word_is_respelled(
    x: char,
    word: Seq<char>,
    y: char,
    lexicon: Map<Seq<char>, Seq<char>>,
)
    requires
        word.len() > 0,
        forall|k: int|
            0 <= k < word.len() ==> alphanumeric(#[trigger] word[k]) || word[k] == '\'',
        !alphanumeric(x) && x != '\'',
        !alphanumeric(y) && y != '\'',
    ensures
        respelled(seq![x] + word + seq![y], lexicon) == seq![x] + respelled(word, lexicon) + seq![
            y,
        ],
        lexicon.contains_key(word) ==> respelled(seq![x] + word + seq![y], lexicon) == seq![x]
            + lexicon[word] + seq![y],
{
    lemma_respelled_joins(seq![x], word, lexicon);
    lemma_respelled_joins(seq![x] + word, seq![y], lexicon);
    lemma_marks_stay(seq![x], lexicon);
    lemma_marks_stay(seq![y], lexicon);
    lemma_word_is_looked_up(word, lexicon);
}

proof fn lemma_tight_is_trimmed(s: Seq<char>)
    requires
        s.len() > 0 ==> !white(s[0]) && !white(s.last()),
    ensures
        trimmed(s) == s,
{
    lemma_lead_is(s, 0);
    assert(s.skip(0) =~= s);
    lemma_trimmed_end_is(s, s.len() as int);
    assert(s.take(s.len() as int) =~= s);
}

/// A carriage return at the end of a line says nothing.
proof fn lemma_return_says_nothing(line: Seq<char>)
    ensures
        entry_of(without_return(line)) == entry_of(line),
{
    if line.len() > 0 && line.last() == '\r' {
        let t = line.drop_last();
        assert(white('\r'));
        lemma_lead(t);
        lemma_lead(line);
        if lead(t) < t.len() {
            assert forall|k: int| 0 <= k < lead(t) implies white(#[trigger] line[k]) by {
                assert(white(t[k]));
            }
            lemma_lead_is(line, lead(t) as int);
            assert(line.skip(lead(t) as int).drop_last() =~= t.skip(lead(t) as int));
            assert(line.skip(lead(t) as int).last() == '\r');
        } else {
            assert forall|k: int| 0 <= k < line.len() implies white(#[trigger] line[k]) by {
                if k < t.len() {
                    assert(white(t[k]));
                }
            }
            lemma_lead_is(line, line.len() as int);
            assert(t.skip(t.len() as int) =~= line.skip(line.len() as int));
        }
        assert(trimmed(t) == trimmed(line));
    }
}

proof fn lemma_lexicon_append(x: Seq<Seq<char>>, y: Seq<Seq<char>>)
    ensures
        lexicon_of(x + y) == lexicon_of(x).union_prefer_right(lexicon_of(y)),
    decreases y.len(),
{
    if y.len() == 0 {
        assert(x + y =~= x);
        assert(lexicon_of(x).union_prefer_right(lexicon_of(y)) =~= lexicon_of(x));
    } else {
        lemma_lexicon_append(x, y.drop_last());
        assert((x + y).drop_last() =~= x + y.drop_last());
        assert(lexicon_of(x + y) =~= lexicon_of(x).union_prefer_right(lexicon_of(y)));
    }
}

proof fn lemma_returns_say_nothing(l: Seq<Seq<char>>)
    ensures
        lexicon_of(l.map_values(|p: Seq<char>| without_return(p))) == lexicon_of(l),
    decreases l.len(),
{
    if l.len() > 0 {
        let m = l.map_values(|p: Seq<char>| without_return(p));
        lemma_returns_say_nothing(l.drop_last());
        lemma_return_says_nothing(l.last());
        assert(m.drop_last() =~= l.drop_last().map_values(|p: Seq<char>| without_return(p)));
    }
}

/// A lexicon is made of what stands between the line feeds.
proof fn lemma_lexicon_of_pieces(s: Seq<char>)
    ensures
        lexicon_of(lines(s)) == lexicon_of(split(s, '\n')),
{
    let pieces = split(s, '\n');
    lemma_split_nonempty(s, '\n');
    let front = pieces.drop_last();
    lemma_returns_say_nothing(front);
    let ended = front.map_values(|p: Seq<char>| without_return(p));
    if pieces.last().len() == 0 {
        lemma_tight_is_trimmed(pieces.last());
        assert(entry_of(pieces.last()) is None);
    } else {
        assert(lines(s).drop_last() =~= ended);
    }
}

/// Files of a lexicon one behind the other: the terms of both, and where both have a term,
/// the later one counts.
pub proof fn lemma_later_lines_count(a: Seq<char>, b: Seq<char>)
    ensures
        lexicon_of(lines(a + seq!['\n'] + b)) == lexicon_of(lines(a)).union_prefer_right(
            lexicon_of(lines(b)),
        ),
{
    lemma_split_joins(a, '\n', b);
    lemma_lexicon_append(split(a, '\n'), split(b, '\n'));
    lemma_lexicon_of_pieces(a);
    lemma_lexicon_of_pieces(b);
    lemma_lexicon_of_pieces(a + seq!['\n'] + b);
}

proof fn lemma_one_line(s: Seq<char>)
    requires
        forall|k: int| 0 <= k < s.len() ==> #[trigger] s[k] != '\n',
    ensures
        lexicon_of(lines(s)) == (match entry_of(s) {
            Some((term, say)) => map![term => say],
            None => Map::empty(),
        }),
{
    lemma_split_one(s, '\n');
    lemma_lexicon_of_pieces(s);
    assert(seq![s].drop_last() =~= Seq::empty());
    assert(lexicon_of(Seq::<Seq<char>>::empty()) =~= Map::empty());
    assert(lexicon_of(lines(s)) =~= (match entry_of(s) {
        Some((term, say)) => map![term => say],
        None => Map::empty(),
    }));
}

/// A term, a tab and its respelling: the term is kept in lower case, the respelling as it
/// is written.
pub proof fn lemma_tab_line_is_an_entry(term: Seq<char>, say: Seq<char>)
    requires
        term.len() > 0 && !white(term[0]) && !white(term.last()) && term[0] != '#',
        say.len() > 0 && !white(say[0]) && !white(say.last()),
        forall|k: int| 0 <= k < term.len() ==> #[trigger] term[k] != '\n' && term[k] != '\t',
        forall|k: int| 0 <= k < say.len() ==> #[trigger] say[k] != '\n',
    ensures
        lexicon_of(lines(term + seq!['\t'] + say)) == map![lowercase(term) => say],
{
    let s = term + seq!['\t'] + say;
    let n = term.len() as int;
    let pat = seq!['\t'];
    assert forall|k: int| 0 <= k < s.len() implies #[trigger] s[k] != '\n' by {
        if k < n {
            assert(s[k] == term[k]);
        } else if k > n {
            assert(s[k] == say[k - n - 1]);
        }
    }
    lemma_one_line(s);
    assert(s[0] == term[0]);
    assert(s.last() == say.last());
    lemma_tight_is_trimmed(s);
    lemma_tight_is_trimmed(term);
    lemma_tight_is_trimmed(say);
    lemma_first_at(s, pat, 0);
    let i = first_at(s, pat, 0);
    lemma_occurs_char(s, '\t', n);
    lemma_occurs_char(s, '\t', i);
    if i < n {
        assert(s[i] == term[i]);
    }
    assert(i == n);
    assert(s.take(n) =~= term);
    assert(s.skip(n + 1) =~= say);
}

/// A term, two spaces and its respelling say the same, if there is no tab.
pub proof fn lemma_gap_line_is_an_entry(term: Seq<char>, say: Seq<char>)
    requires
        term.len() > 0 && !white(term[0]) && !white(term.last()) && term[0] != '#',
        say.len() > 0 && !white(say[0]) && !white(say.last()),
        forall|k: int| 0 <= k < term.len() ==> #[trigger] term[k] != '\n' && term[k] != '\t',
        forall|k: int| 0 <= k < term.len() - 1 ==> #[trigger] term[k] != ' ' || term[k + 1] != ' ',
        forall|k: int| 0 <= k < say.len() ==> #[trigger] say[k] != '\n' && say[k] != '\t',
    ensures
        lexicon_of(lines(term + seq![' ', ' '] + say)) == map![lowercase(term) => say],
{
    let s = term + seq![' ', ' '] + say;
    let n = term.len() as int;
    let tab = seq!['\t'];
    let gap = seq![' ', ' '];
    assert forall|k: int| 0 <= k < s.len() implies #[trigger] s[k] != '\n' && s[k] != '\t' by {
        if k < n {
            assert(s[k] == term[k]);
        } else if k > n + 1 {
            assert(s[k] == say[k - n - 2]);
        }
    }
    lemma_one_line(s);
    assert(s[0] == term[0]);
    assert(s.last() == say.last());
    lemma_tight_is_trimmed(s);
    lemma_tight_is_trimmed(term);
    lemma_tight_is_trimmed(say);
    lemma_first_at(s, tab, 0);
    lemma_occurs_char(s, '\t', first_at(s, tab, 0));
    lemma_first_at(s, gap, 0);
    let i = first_at(s, gap, 0);
    assert(s.subrange(n, n + 2) =~= gap);
    assert(occurs_at(s, gap, n));
    if i < n {
        assert(s.subrange(i, i + 2)[0] == ' ' && s.subrange(i, i + 2)[1] == ' ');
        assert(s[i] == term[i]);
        if i + 1 < n {
            assert(s[i + 1] == term[i + 1]);
        } else {
            assert(white(' '));
            assert(term[i] == term.last());
        }
    }
    assert(i == n);
    assert(s.take(n) =~= term);
    assert(s.skip(n + 2) =~= say);
}

/// A comment, and a line that separates nothing, say nothing: neither a line whose first
/// character behind white space is `#`, nor one that holds no tab and no two spaces between
/// its first and its last character that are not white.
pub proof fn lemma_other_lines_say_nothing(s: Seq<char>, a: int, b: int)
    requires
        0 <= a <= b <= s.len(),
        forall|k: int| 0 <= k < s.len() ==> #[trigger] s[k] != '\n',
        forall|k: int| 0 <= k < a || b <= k < s.len() ==> white(#[trigger] s[k]),
        a < b ==> !white(s[a]) && !white(s[b - 1]),
        a < b ==> s[a] == '#' || forall|k: int|
            a <= k < b ==> #[trigger] s[k] != '\t' && (k + 1 < b ==> s[k] != ' ' || s[k + 1]
                != ' '),
    ensures
        lexicon_of(lines(s)) == Map::<Seq<char>, Seq<char>>::empty(),
{
    lemma_one_line(s);
    let t = s.subrange(a, b);
    assert(trimmed(s) == t) by {
        if a < b {
            lemma_lead_is(s, a);
            let u = s.skip(a);
            assert forall|k: int| b - a <= k < u.len() implies white(#[trigger] u[k]) by {
                assert(u[k] == s[a + k]);
            }
            assert(u[b - a - 1] == s[b - 1]);
            lemma_trimmed_end_is(u, b - a);
            assert(u.take(b - a) =~= t);
        } else {
            assert forall|k: int| 0 <= k < s.len() implies white(#[trigger] s[k]) by {}
            lemma_lead_is(s, s.len() as int);
            assert(s.skip(s.len() as int) =~= t);
            lemma_trimmed_end_is(t, 0);
            assert(t.take(0) =~= t);
        }
    }
    if a < b && s[a] != '#' {
        let tab = seq!['\t'];
        let gap = seq![' ', ' '];
        let i = first_at(t, tab, 0);
        let j = first_at(t, gap, 0);
        lemma_first_at(t, tab, 0);
        lemma_first_at(t, gap, 0);
        if i < t.len() {
            lemma_occurs_char(t, '\t', i);
            assert(t[i] == s[a + i]);
        }
        if j < t.len() {
            assert(t.subrange(j, j + 2)[0] == ' ' && t.subrange(j, j + 2)[1] == ' ');
            assert(t[j] == s[a + j]);
            assert(t[j + 1] == s[a + j + 1]);
        }
    }
}

} // verus!
