//! Characters and text: the small vocabulary the other modules are written in.
//!
//! A text is modelled as the sequence of its characters, `Seq<char>`.

use crate::seqs::{lemma_filter_append, lemma_none_kept};
use vstd::prelude::*;
use vstd::utf8::{encode_utf8, valid_utf8};

verus! {

/// `String::push` appends its argument to the end of the string.
pub assume_specification[ String::push ](s: &mut String, ch: char)
    ensures
        final(s)@ == old(s)@.push(ch),
;

/// What `char::is_alphanumeric` answers for a character.
pub uninterp spec fn alphanumeric(c: char) -> bool;

/// `char::is_alphanumeric` answers from tables of the standard library, so its
/// answer for a character is always the same; it is named `alphanumeric`.
pub assume_specification[ char::is_alphanumeric ](c: char) -> (b: bool)
    ensures
        b == alphanumeric(c),
;

/// An ASCII capital.
pub open spec fn ascii_capital(c: char) -> bool {
    'A' <= c <= 'Z'
}

/// An ASCII capital as the small letter.
pub open spec fn folded(c: char) -> char {
    if 'A' <= c <= 'Z' {
        (c as u32 + 32) as char
    } else {
        c
    }
}

/// A text of ASCII characters alone.
pub open spec fn is_ascii_text(s: Seq<char>) -> bool {
    forall|k: int| 0 <= k < s.len() ==> #[trigger] s[k] <= '\u{7f}'
}

/// A text with its ASCII capitals as small letters.
pub open spec fn small(s: Seq<char>) -> Seq<char> {
    s.map_values(|c: char| folded(c))
}

/// A text without an ASCII capital.
pub open spec fn is_small(s: Seq<char>) -> bool {
    forall|k: int| 0 <= k < s.len() ==> !ascii_capital(#[trigger] s[k])
}

/// What `str::to_lowercase` makes of a text.
pub uninterp spec fn lowercase(s: Seq<char>) -> Seq<char>;

/// `str::to_lowercase` maps a text by tables of the standard library; the result
/// is named `lowercase`. It holds no ASCII capital, and of a text of ASCII characters it
/// is the text with its capitals as small letters.
pub assume_specification[ str::to_lowercase ](s: &str) -> (r: String)
    ensures
        r@ == lowercase(s@),
        is_small(r@),
        is_ascii_text(s@) ==> r@ == small(s@),
;

/// Making capitals small twice is making them small once, and leaves none.
pub proof fn lemma_small_twice(s: Seq<char>)
    ensures
        small(small(s)) == small(s),
        is_small(small(s)),
        is_small(s) ==> small(s) == s,
        is_ascii_text(s) ==> is_ascii_text(small(s)),
{
    assert(small(small(s)) =~= small(s));
    if is_small(s) {
        assert forall|k: int| 0 <= k < s.len() implies small(s)[k] == s[k] by {
            assert(!ascii_capital(s[k]));
        }
        assert(small(s) =~= s);
    }
    if is_ascii_text(s) {
        assert forall|k: int| 0 <= k < small(s).len() implies #[trigger] small(s)[k]
            <= '\u{7f}' by {
            assert(s[k] <= '\u{7f}');
        }
    }
}

/// `std::str::from_utf8` reads bytes as UTF-8: it succeeds exactly on bytes that are
/// valid UTF-8, with the text that they encode.
#[verifier::external_body]
pub(crate) fn text_of_utf8(bytes: &[u8]) -> (r: Option<String>)
    ensures
        r is Some <==> valid_utf8(bytes@),
        r is Some ==> encode_utf8(r->0@) == bytes@,
{
    std::str::from_utf8(bytes).ok().map(|s| s.to_string())
}

/// The characters of a list of texts.
pub open spec fn texts(v: Seq<String>) -> Seq<Seq<char>> {
    v.map_values(|s: String| s@)
}

/// The characters of a list of lists.
pub open spec fn lists(v: Seq<Vec<char>>) -> Seq<Seq<char>> {
    v.map_values(|s: Vec<char>| s@)
}

/// The characters of Unicode's `White_Space` property.
pub open spec fn white(c: char) -> bool {
    ||| '\u{9}' <= c <= '\u{d}'
    ||| c == ' '
    ||| c == '\u{85}'
    ||| c == '\u{a0}'
    ||| c == '\u{1680}'
    ||| '\u{2000}' <= c <= '\u{200a}'
    ||| c == '\u{2028}'
    ||| c == '\u{2029}'
    ||| c == '\u{202f}'
    ||| c == '\u{205f}'
    ||| c == '\u{3000}'
}

/// Is `c` white space?
pub fn is_white(c: char) -> (b: bool)
    ensures
        b == white(c),
{
    ('\u{9}' <= c && c <= '\u{d}') || c == ' ' || c == '\u{85}' || c == '\u{a0}' || c == '\u{1680}'
        || ('\u{2000}' <= c && c <= '\u{200a}') || c == '\u{2028}' || c == '\u{2029}'
        || c == '\u{202f}' || c == '\u{205f}' || c == '\u{3000}'
}

/// The characters of a text.
pub fn chars_of(s: &str) -> (v: Vec<char>)
    ensures
        v@ == s@,
{
    let mut v: Vec<char> = Vec::new();
    for c in it: s.chars()
        invariant
            it.seq() == s@,
            v@ == s@.take(it.index()),
    {
        v.push(c);
        assert(s@.take(it.index() + 1) =~= s@.take(it.index()).push(c));
    }
    assert(s@.take(s@.len() as int) =~= s@);
    v
}

/// The text made of the given characters.
pub fn string_of(v: &[char]) -> (s: String)
    ensures
        s@ == v@,
{
    let mut s = String::new();
    let mut i: usize = 0;
    while i < v.len()
        invariant
            i <= v.len(),
            s@ == v@.take(i as int),
        decreases v.len() - i,
    {
        s.push(v[i]);
        i += 1;
        assert(v@.take(i as int) =~= v@.take(i - 1).push(v@[i - 1]));
    }
    assert(v@.take(i as int) =~= v@);
    s
}

/// The characters of each text.
pub fn chars_of_all(w: &Vec<String>) -> (r: Vec<Vec<char>>)
    ensures
        lists(r@) == texts(w@),
{
    let mut r: Vec<Vec<char>> = Vec::new();
    let mut i: usize = 0;
    while i < w.len()
        invariant
            i <= w.len(),
            r.len() == i,
            forall|k: int| 0 <= k < i ==> #[trigger] r@[k]@ == w@[k]@,
        decreases w.len() - i,
    {
        r.push(chars_of(w[i].as_str()));
        i += 1;
    }
    assert(lists(r@) =~= texts(w@));
    r
}

/// The texts made of each list of characters.
pub fn strings_of(w: &Vec<Vec<char>>) -> (r: Vec<String>)
    ensures
        texts(r@) == lists(w@),
{
    let mut r: Vec<String> = Vec::new();
    let mut i: usize = 0;
    while i < w.len()
        invariant
            i <= w.len(),
            r.len() == i,
            forall|k: int| 0 <= k < i ==> #[trigger] r@[k]@ == w@[k]@,
        decreases w.len() - i,
    {
        r.push(string_of(w[i].as_slice()));
        i += 1;
    }
    assert(texts(r@) =~= lists(w@));
    r
}

/// How many characters at the front of `s` are white space.
pub open spec fn lead(s: Seq<char>) -> nat
    decreases s.len(),
{
    if s.len() == 0 || !white(s[0]) {
        0
    } else {
        1 + lead(s.drop_first())
    }
}

/// `s` without the white space at its front.
pub open spec fn trimmed_start(s: Seq<char>) -> Seq<char> {
    s.skip(lead(s) as int)
}

/// `s` without the white space at its end.
pub open spec fn trimmed_end(s: Seq<char>) -> Seq<char>
    decreases s.len(),
{
    if s.len() == 0 || !white(s.last()) {
        s
    } else {
        trimmed_end(s.drop_last())
    }
}

/// `s` without the white space at either end.
pub open spec fn trimmed(s: Seq<char>) -> Seq<char> {
    trimmed_end(trimmed_start(s))
}

/// `lead` counts white characters only, and stops at the first other one.
pub proof fn lemma_lead(s: Seq<char>)
    ensures
        lead(s) <= s.len(),
        forall|k: int| 0 <= k < lead(s) ==> white(#[trigger] s[k]),
        lead(s) < s.len() ==> !white(s[lead(s) as int]),
    decreases s.len(),
{
    if s.len() > 0 && white(s[0]) {
        lemma_lead(s.drop_first());
        assert forall|k: int| 0 <= k < lead(s) implies white(#[trigger] s[k]) by {
            if k > 0 {
                assert(s[k] == s.drop_first()[k - 1]);
            }
        }
    }
}

/// The place where a run of white characters ends is `lead`.
pub proof fn lemma_lead_is(s: Seq<char>, n: int)
    requires
        0 <= n <= s.len(),
        forall|k: int| 0 <= k < n ==> white(#[trigger] s[k]),
        n < s.len() ==> !white(s[n]),
    ensures
        lead(s) == n,
{
    lemma_lead(s);
    if lead(s) < n {
        assert(white(s[lead(s) as int]));
    }
    if n < lead(s) {
        assert(white(s[n]));
    }
}

/// A prefix that ends in a character that is not white, and is followed by
/// white characters only, is the text without its trailing white space.
pub proof fn lemma_trimmed_end_is(s: Seq<char>, n: int)
    requires
        0 <= n <= s.len(),
        forall|k: int| n <= k < s.len() ==> white(#[trigger] s[k]),
        n > 0 ==> !white(s[n - 1]),
    ensures
        trimmed_end(s) == s.take(n),
    decreases s.len(),
{
    if n < s.len() {
        lemma_trimmed_end_is(s.drop_last(), n);
        assert(s.drop_last().take(n) =~= s.take(n));
    } else {
        assert(s.take(n) =~= s);
    }
}

/// Trimming ends is a matter of the last character that is not white.
pub proof fn lemma_trimmed_end(s: Seq<char>)
    ensures
        trimmed_end(s).len() <= s.len(),
        trimmed_end(s) == s.take(trimmed_end(s).len() as int),
        trimmed_end(s).len() > 0 ==> !white(trimmed_end(s).last()),
        forall|k: int| trimmed_end(s).len() <= k < s.len() ==> white(#[trigger] s[k]),
    decreases s.len(),
{
    if s.len() == 0 || !white(s.last()) {
        assert(s.take(s.len() as int) =~= s);
    } else {
        lemma_trimmed_end(s.drop_last());
        let n = trimmed_end(s).len() as int;
        assert(s.drop_last().take(n) =~= s.take(n));
        assert forall|k: int| n <= k < s.len() implies white(#[trigger] s[k]) by {
            if k < s.len() - 1 {
                assert(s[k] == s.drop_last()[k]);
            }
        }
    }
}

/// A trimmed text neither begins nor ends in white space, and trimming leaves it
/// as it is.
pub proof fn lemma_trimmed_ends(s: Seq<char>)
    ensures
        trimmed(s).len() > 0 ==> !white(trimmed(s)[0]) && !white(trimmed(s).last()),
        trimmed(trimmed(s)) == trimmed(s),
{
    let a = trimmed_start(s);
    lemma_lead(s);
    lemma_trimmed_end(a);
    let t = trimmed(s);
    if t.len() > 0 {
        assert(t[0] == a[0]);
        assert(a[0] == s[lead(s) as int]);
    }
    lemma_lead_is(t, 0);
    assert(t.skip(0) =~= t);
    lemma_trimmed_end_is(t, t.len() as int);
    assert(t.take(t.len() as int) =~= t);
}

/// A trimmed text is a stretch of the text.
pub proof fn lemma_trimmed_within(s: Seq<char>)
    ensures
        lead(s) + trimmed(s).len() <= s.len(),
        trimmed(s) == s.subrange(lead(s) as int, lead(s) + trimmed(s).len() as int),
{
    lemma_lead(s);
    lemma_trimmed_end(trimmed_start(s));
    assert(trimmed(s) =~= s.subrange(lead(s) as int, lead(s) + trimmed(s).len() as int));
}

/// What stands behind a trimmed text is white.
pub proof fn lemma_behind_trimmed(s: Seq<char>)
    ensures
        forall|k: int| lead(s) + trimmed(s).len() <= k < s.len() ==> white(#[trigger] s[k]),
{
    let a = trimmed_start(s);
    lemma_lead(s);
    lemma_trimmed_end(a);
    assert forall|k: int| lead(s) + trimmed(s).len() <= k < s.len() implies white(
        #[trigger] s[k],
    ) by {
        assert(a[k - lead(s)] == s[k]);
    }
}

/// The bounds of `s` without the white space at either end.
pub fn trim_bounds(s: &[char]) -> (r: (usize, usize))
    ensures
        r.0 <= r.1 <= s.len(),
        s@.subrange(r.0 as int, r.1 as int) == trimmed(s@),
        r.0 == lead(s@),
{
    let mut a: usize = 0;
    while a < s.len() && is_white(s[a])
        invariant
            a <= s.len(),
            forall|k: int| 0 <= k < a ==> white(#[trigger] s@[k]),
        decreases s.len() - a,
    {
        a += 1;
    }
    let mut b: usize = s.len();
    while b > a && is_white(s[b - 1])
        invariant
            a <= b <= s.len(),
            forall|k: int| b <= k < s.len() ==> white(#[trigger] s@[k]),
        decreases b,
    {
        b -= 1;
    }
    proof {
        lemma_lead_is(s@, a as int);
        let t = s@.skip(a as int);
        assert(t == trimmed_start(s@));
        assert forall|k: int| b - a <= k < t.len() implies white(#[trigger] t[k]) by {
            assert(white(s@[k + a]));
        }
        lemma_trimmed_end_is(t, b - a);
        assert(t.take(b - a) =~= s@.subrange(a as int, b as int));
    }
    (a, b)
}

/// `s` without the white space at either end.
pub fn trim(s: &[char]) -> (r: Vec<char>)
    ensures
        r@ == trimmed(s@),
{
    let (a, b) = trim_bounds(s);
    slice_of(s, a, b)
}

/// The characters of `s` from `a` up to `b`.
pub fn slice_of(s: &[char], a: usize, b: usize) -> (r: Vec<char>)
    requires
        a <= b <= s.len(),
    ensures
        r@ == s@.subrange(a as int, b as int),
{
    let mut r: Vec<char> = Vec::new();
    let mut i: usize = a;
    while i < b
        invariant
            a <= i <= b <= s.len(),
            r@ == s@.subrange(a as int, i as int),
        decreases b - i,
    {
        r.push(s[i]);
        i += 1;
        assert(s@.subrange(a as int, i as int) =~= s@.subrange(a as int, i - 1).push(s@[i - 1]));
    }
    r
}

/// Does `pat` stand in `s` at place `i`?
pub open spec fn occurs_at(s: Seq<char>, pat: Seq<char>, i: int) -> bool {
    &&& 0 <= i
    &&& i + pat.len() <= s.len()
    &&& s.subrange(i, i + pat.len()) == pat
}

/// Does `pat` stand in `s` at place `i`?
pub fn stands_at(s: &[char], pat: &[char], i: usize) -> (b: bool)
    ensures
        b == occurs_at(s@, pat@, i as int),
{
    if i > s.len() || pat.len() > s.len() - i {
        return false;
    }
    let mut k: usize = 0;
    while k < pat.len()
        invariant
            k <= pat.len(),
            i + pat.len() <= s.len(),
            forall|x: int| 0 <= x < k ==> s@[i + x] == #[trigger] pat@[x],
        decreases pat.len() - k,
    {
        if s[i + k] != pat[k] {
            assert(s@.subrange(i as int, i + pat@.len())[k as int] != pat@[k as int]);
            return false;
        }
        k += 1;
    }
    assert(s@.subrange(i as int, i + pat@.len()) =~= pat@);
    true
}

/// The first place at or after `i` where `pat` stands in `s`, or the length of `s`
/// where it stands nowhere.
pub open spec fn first_at(s: Seq<char>, pat: Seq<char>, i: int) -> int
    decreases s.len() - i,
{
    if i >= s.len() {
        s.len() as int
    } else if occurs_at(s, pat, i) {
        i
    } else {
        first_at(s, pat, i + 1)
    }
}

/// `first_at` finds an occurrence with none before it.
pub proof fn lemma_first_at(s: Seq<char>, pat: Seq<char>, i: int)
    requires
        0 <= i <= s.len(),
    ensures
        i <= first_at(s, pat, i) <= s.len(),
        first_at(s, pat, i) < s.len() ==> occurs_at(s, pat, first_at(s, pat, i)),
        forall|k: int| i <= k < first_at(s, pat, i) ==> !occurs_at(s, pat, k),
    decreases s.len() - i,
{
    if i < s.len() && !occurs_at(s, pat, i) {
        lemma_first_at(s, pat, i + 1);
    }
}

/// The first place where `pat` stands in `s`, or the length of `s`.
pub fn find(s: &[char], pat: &[char], from: usize) -> (r: usize)
    requires
        from <= s.len(),
    ensures
        r == first_at(s@, pat@, from as int),
        from <= r <= s.len(),
{
    let mut i: usize = from;
    while i < s.len() && !stands_at(s, pat, i)
        invariant
            from <= i <= s.len(),
            first_at(s@, pat@, from as int) == first_at(s@, pat@, i as int),
        decreases s.len() - i,
    {
        i += 1;
    }
    i
}

/// `s` with every occurrence of `pat`, from left to right and none overlapping
/// another, replaced by `rep`.
pub open spec fn replaced(s: Seq<char>, pat: Seq<char>, rep: Seq<char>) -> Seq<char>
    decreases s.len(),
{
    if s.len() == 0 || pat.len() == 0 {
        s
    } else if occurs_at(s, pat, 0) {
        rep + replaced(s.skip(pat.len() as int), pat, rep)
    } else {
        seq![s[0]] + replaced(s.skip(1), pat, rep)
    }
}

/// Replacing works piece by piece, where no occurrence runs across the place between.
pub proof fn lemma_replaced_append(
    x: Seq<char>,
    y: Seq<char>,
    pat: Seq<char>,
    rep: Seq<char>,
)
    requires
        1 <= pat.len() <= 2,
        pat.len() == 2 && x.len() > 0 ==> x.last() != pat[0],
    ensures
        replaced(x + y, pat, rep) == replaced(x, pat, rep) + replaced(y, pat, rep),
    decreases x.len(),
{
    let s = x + y;
    let n = pat.len() as int;
    if x.len() == 0 {
        assert(s =~= y);
        assert(replaced(x, pat, rep) + replaced(y, pat, rep) =~= replaced(y, pat, rep));
    } else {
        if x.len() >= n {
            assert(s.subrange(0, n) =~= x.subrange(0, n));
        } else {
            assert(x.last() == x[0]);
            if occurs_at(s, pat, 0) {
                assert(s.subrange(0, n)[0] == pat[0]);
                assert(s[0] == x[0]);
            }
        }
        if occurs_at(x, pat, 0) {
            assert(s.skip(n) =~= x.skip(n) + y);
            if x.skip(n).len() > 0 {
                assert(x.skip(n).last() == x.last());
            }
            lemma_replaced_append(x.skip(n), y, pat, rep);
            assert(replaced(s, pat, rep) =~= replaced(x, pat, rep) + replaced(y, pat, rep));
        } else {
            assert(s.skip(1) =~= x.skip(1) + y);
            if x.skip(1).len() > 0 {
                assert(x.skip(1).last() == x.last());
            }
            lemma_replaced_append(x.skip(1), y, pat, rep);
            assert(replaced(s, pat, rep) =~= replaced(x, pat, rep) + replaced(y, pat, rep));
        }
    }
}

/// Replacing changes nothing of what a filter keeps, if neither the pattern nor what
/// stands for it holds anything of that.
pub proof fn lemma_replaced_keeps(
    s: Seq<char>,
    pat: Seq<char>,
    rep: Seq<char>,
    keep: spec_fn(char) -> bool,
)
    requires
        forall|k: int| 0 <= k < pat.len() ==> !keep(#[trigger] pat[k]),
        forall|k: int| 0 <= k < rep.len() ==> !keep(#[trigger] rep[k]),
    ensures
        replaced(s, pat, rep).filter(keep) == s.filter(keep),
    decreases s.len(),
{
    if s.len() > 0 && pat.len() > 0 {
        let none = Seq::<char>::empty();
        if occurs_at(s, pat, 0) {
            let rest = s.skip(pat.len() as int);
            lemma_replaced_keeps(rest, pat, rep, keep);
            lemma_none_kept(pat, keep);
            lemma_none_kept(rep, keep);
            lemma_filter_append(rep, replaced(rest, pat, rep), keep);
            lemma_filter_append(pat, rest, keep);
            assert(s =~= pat + rest);
            assert(rep.filter(keep) =~= none);
            assert(pat.filter(keep) =~= none);
        } else {
            let rest = s.skip(1);
            lemma_replaced_keeps(rest, pat, rep, keep);
            lemma_filter_append(seq![s[0]], replaced(rest, pat, rep), keep);
            lemma_filter_append(seq![s[0]], rest, keep);
            assert(s =~= seq![s[0]] + rest);
        }
    }
}

/// Trimming changes nothing of what a filter keeps, if it keeps no white space.
pub proof fn lemma_trimmed_keeps(s: Seq<char>, keep: spec_fn(char) -> bool)
    requires
        forall|c: char| #[trigger] keep(c) ==> !white(c),
    ensures
        trimmed(s).filter(keep) == s.filter(keep),
{
    let a = lead(s) as int;
    let b = a + trimmed(s).len();
    lemma_lead(s);
    lemma_trimmed_within(s);
    lemma_behind_trimmed(s);
    let front = s.take(a);
    let back = s.skip(b);
    assert(s =~= front + trimmed(s) + back);
    lemma_filter_append(front + trimmed(s), back, keep);
    lemma_filter_append(front, trimmed(s), keep);
    assert forall|k: int| 0 <= k < front.len() implies !keep(#[trigger] front[k]) by {
        assert(white(s[k]));
    }
    assert forall|k: int| 0 <= k < back.len() implies !keep(#[trigger] back[k]) by {
        assert(white(s[b + k]));
    }
    lemma_none_kept(front, keep);
    lemma_none_kept(back, keep);
    assert(s.filter(keep) =~= trimmed(s).filter(keep));
}

/// What holds of all characters of a text and of what stands for the pattern holds of all
/// characters after replacing.
pub proof fn lemma_replaced_all(
    s: Seq<char>,
    pat: Seq<char>,
    rep: Seq<char>,
    ok: spec_fn(char) -> bool,
)
    requires
        forall|k: int| 0 <= k < s.len() ==> ok(#[trigger] s[k]),
        forall|k: int| 0 <= k < rep.len() ==> ok(#[trigger] rep[k]),
    ensures
        forall|k: int|
            0 <= k < replaced(s, pat, rep).len() ==> ok(#[trigger] replaced(s, pat, rep)[k]),
    decreases s.len(),
{
    if s.len() > 0 && pat.len() > 0 {
        let here = occurs_at(s, pat, 0);
        let front = if here {
            rep
        } else {
            seq![s[0]]
        };
        let rest = if here {
            s.skip(pat.len() as int)
        } else {
            s.skip(1)
        };
        assert forall|k: int| 0 <= k < rest.len() implies ok(#[trigger] rest[k]) by {
            assert(rest[k] == s[s.len() - rest.len() + k]);
        }
        lemma_replaced_all(rest, pat, rep, ok);
        let r = replaced(s, pat, rep);
        let later = replaced(rest, pat, rep);
        assert(r == front + later);
        assert forall|k: int| 0 <= k < r.len() implies ok(#[trigger] r[k]) by {
            if k < front.len() {
                assert(r[k] == front[k]);
            } else {
                assert(r[k] == later[k - front.len()]);
            }
        }
    }
}

/// A text in which the pattern does not begin anywhere stays.
pub proof fn lemma_replaced_none(s: Seq<char>, pat: Seq<char>, rep: Seq<char>)
    requires
        pat.len() > 0,
        forall|k: int| 0 <= k < s.len() ==> !occurs_at(s, pat, k),
    ensures
        replaced(s, pat, rep) == s,
    decreases s.len(),
{
    if s.len() > 0 {
        let t = s.skip(1);
        assert forall|k: int| 0 <= k < t.len() implies !occurs_at(t, pat, k) by {
            if occurs_at(t, pat, k) {
                assert(t.subrange(k, k + pat.len()) =~= s.subrange(k + 1, k + 1 + pat.len()));
                assert(occurs_at(s, pat, k + 1));
            }
        }
        lemma_replaced_none(t, pat, rep);
        assert(!occurs_at(s, pat, 0));
        assert(replaced(s, pat, rep) =~= s);
    }
}

/// A first character that no pattern begins with stays first, and a last one that is in no
/// pattern stays last.
pub proof fn lemma_replaced_ends(s: Seq<char>, pat: Seq<char>, rep: Seq<char>)
    requires
        s.len() > 0,
        pat.len() > 0,
        s[0] != pat[0],
        forall|k: int| 0 <= k < pat.len() ==> #[trigger] pat[k] != s.last(),
    ensures
        replaced(s, pat, rep).len() > 0,
        replaced(s, pat, rep)[0] == s[0],
        replaced(s, pat, rep).last() == s.last(),
{
    if occurs_at(s, pat, 0) {
        assert(s.subrange(0, pat.len() as int)[0] == pat[0]);
    }
    lemma_replaced_last(s, pat, rep);
}

proof fn lemma_replaced_last(s: Seq<char>, pat: Seq<char>, rep: Seq<char>)
    requires
        s.len() > 0,
        pat.len() > 0,
        forall|k: int| 0 <= k < pat.len() ==> #[trigger] pat[k] != s.last(),
    ensures
        replaced(s, pat, rep).len() > 0,
        replaced(s, pat, rep).last() == s.last(),
    decreases s.len(),
{
    let n = pat.len() as int;
    if occurs_at(s, pat, 0) {
        if s.len() == n {
            assert(s.subrange(0, n)[n - 1] == s.last());
        }
        assert(s.skip(n).last() == s.last());
        lemma_replaced_last(s.skip(n), pat, rep);
    } else if s.len() > 1 {
        assert(s.skip(1).last() == s.last());
        lemma_replaced_last(s.skip(1), pat, rep);
    } else {
        assert(s.skip(1) =~= Seq::empty());
        assert(replaced(s, pat, rep) =~= s);
    }
}

/// `s` with every occurrence of `pat` replaced by `rep`.
pub fn replace(s: &[char], pat: &[char], rep: &[char]) -> (r: Vec<char>)
    requires
        pat.len() > 0,
    ensures
        r@ == replaced(s@, pat@, rep@),
{
    let mut r: Vec<char> = Vec::new();
    let mut i: usize = 0;
    assert(s@.skip(0) =~= s@);
    assert(r@ + replaced(s@, pat@, rep@) =~= replaced(s@, pat@, rep@));
    while i < s.len()
        invariant
            i <= s.len(),
            pat.len() > 0,
            r@ + replaced(s@.skip(i as int), pat@, rep@) == replaced(s@, pat@, rep@),
        decreases s.len() - i,
    {
        let ghost rest = s@.skip(i as int);
        let ghost before = r@;
        let here = stands_at(s, pat, i);
        proof {
            if i + pat@.len() <= s@.len() {
                assert(rest.subrange(0, pat@.len() as int) =~= s@.subrange(
                    i as int,
                    i + pat@.len(),
                ));
            }
            assert(here == occurs_at(rest, pat@, 0));
        }
        if here {
            push_all(&mut r, rep);
            i += pat.len();
            proof {
                assert(rest.skip(pat@.len() as int) =~= s@.skip(i as int));
                assert(before + replaced(rest, pat@, rep@) =~= r@ + replaced(
                    s@.skip(i as int),
                    pat@,
                    rep@,
                ));
            }
        } else {
            r.push(s[i]);
            i += 1;
            proof {
                assert(rest.skip(1) =~= s@.skip(i as int));
                assert(before + replaced(rest, pat@, rep@) =~= r@ + replaced(
                    s@.skip(i as int),
                    pat@,
                    rep@,
                ));
            }
        }
    }
    assert(s@.skip(i as int) =~= Seq::empty());
    assert(r@ + replaced(s@.skip(i as int), pat@, rep@) =~= r@);
    r
}

/// Put the characters of `more` behind those of `v`.
pub fn push_all(v: &mut Vec<char>, more: &[char])
    ensures
        final(v)@ == old(v)@ + more@,
{
    let mut k: usize = 0;
    while k < more.len()
        invariant
            k <= more.len(),
            v@ == old(v)@ + more@.take(k as int),
        decreases more.len() - k,
    {
        v.push(more[k]);
        k += 1;
        assert(more@.take(k as int) =~= more@.take(k - 1).push(more@[k - 1]));
    }
    assert(more@.take(k as int) =~= more@);
}

/// The pieces of `s` between the occurrences of `c`.
pub open spec fn split(s: Seq<char>, c: char) -> Seq<Seq<char>>
    decreases s.len(),
{
    let i = first_at(s, seq![c], 0);
    if i < 0 || i >= s.len() {
        seq![s]
    } else {
        seq![s.take(i)] + split(s.skip(i + 1), c)
    }
}

/// A one-character pattern stands wherever that character does.
pub proof fn lemma_occurs_char(s: Seq<char>, c: char, i: int)
    ensures
        occurs_at(s, seq![c], i) <==> 0 <= i < s.len() && s[i] == c,
{
    if 0 <= i < s.len() {
        if s[i] == c {
            assert(s.subrange(i, i + 1) =~= seq![c]);
        } else {
            assert(s.subrange(i, i + 1)[0] != seq![c][0]);
        }
    }
}

/// The pieces of `s` between the occurrences of `c`.
pub fn split_at_char(s: &[char], c: char) -> (r: Vec<Vec<char>>)
    ensures
        lists(r@) == split(s@, c),
{
    let mut r: Vec<Vec<char>> = Vec::new();
    let mut start: usize = 0;
    assert(s@.skip(0) =~= s@);
    assert(lists(r@) + split(s@, c) =~= split(s@, c));
    let ghost pat = seq![c];
    loop
        invariant_except_break
            start <= s.len(),
            lists(r@) + split(s@.skip(start as int), c) == split(s@, c),
        invariant
            pat == seq![c],
        ensures
            lists(r@) == split(s@, c),
        decreases s.len() - start,
    {
        let ghost rest = s@.skip(start as int);
        let mut i: usize = start;
        while i < s.len() && s[i] != c
            invariant
                pat == seq![c],
                start <= i <= s.len(),
                rest == s@.skip(start as int),
                first_at(rest, pat, 0) == first_at(rest, pat, i - start),
            decreases s.len() - i,
        {
            proof {
                lemma_occurs_char(rest, c, i - start);
            }
            i += 1;
        }
        proof {
            lemma_occurs_char(rest, c, i - start);
        }
        let ghost before = r@;
        let piece = slice_of(s, start, i);
        r.push(piece);
        assert(lists(r@) =~= lists(before).push(piece@));
        assert(piece@ =~= rest.take(i - start));
        if i >= s.len() {
            assert(piece@ =~= rest);
            assert(lists(before) + split(rest, c) =~= lists(r@));
            break ;
        }
        start = i + 1;
        assert(rest.skip(i - (s.len() - rest.len()) + 1) =~= s@.skip(start as int));
        assert(lists(before) + split(rest, c) =~= lists(r@) + split(s@.skip(start as int), c));
    }
    r
}

/// The lines of a text: the pieces between line feeds, a carriage return before
/// a line feed left out, and nothing behind the last line feed if nothing
/// stands there.
pub open spec fn lines(s: Seq<char>) -> Seq<Seq<char>> {
    let pieces = split(s, '\n');
    let ended = pieces.drop_last().map_values(|p: Seq<char>| without_return(p));
    if pieces.last().len() == 0 {
        ended
    } else {
        ended.push(pieces.last())
    }
}

/// `p` without a carriage return at its end.
pub open spec fn without_return(p: Seq<char>) -> Seq<char> {
    if p.len() > 0 && p.last() == '\r' {
        p.drop_last()
    } else {
        p
    }
}

/// The lines of a text.
pub fn lines_of(s: &[char]) -> (r: Vec<Vec<char>>)
    ensures
        lists(r@) == lines(s@),
{
    let mut r = split_at_char(s, '\n');
    let ghost pieces = lists(r@);
    proof {
        lemma_split_nonempty(s@, '\n');
    }
    let n: usize = r.len() - 1;
    let mut i: usize = 0;
    while i < n
        invariant
            i <= n,
            r.len() == n + 1,
            pieces.len() == n + 1,
            forall|k: int| 0 <= k < i ==> (#[trigger] r@[k])@ == without_return(pieces[k]),
            forall|k: int| i <= k < r@.len() ==> (#[trigger] r@[k])@ == pieces[k],
        decreases n - i,
    {
        let len: usize = r[i].len();
        if len > 0 && r[i][len - 1] == '\r' {
            let cut = slice_of(r[i].as_slice(), 0, len - 1);
            assert(cut@ =~= r@[i as int]@.drop_last());
            r.set(i, cut);
        }
        i += 1;
    }
    let last_empty = r[n].len() == 0;
    if last_empty {
        r.pop();
    }
    proof {
        assert(lists(r@) =~= lines(s@));
    }
    r
}

/// A text has at least one piece.
pub proof fn lemma_split_nonempty(s: Seq<char>, c: char)
    ensures
        split(s, c).len() >= 1,
{
}

/// A text without `c` is one piece.
pub proof fn lemma_split_one(s: Seq<char>, c: char)
    requires
        forall|k: int| 0 <= k < s.len() ==> #[trigger] s[k] != c,
    ensures
        split(s, c) == seq![s],
{
    let i = first_at(s, seq![c], 0);
    lemma_first_at(s, seq![c], 0);
    if i < s.len() {
        lemma_occurs_char(s, c, i);
    }
}

/// The pieces of two texts with `c` between them are the pieces of the one and the pieces
/// of the other.
pub proof fn lemma_split_joins(a: Seq<char>, c: char, b: Seq<char>)
    ensures
        split(a + seq![c] + b, c) == split(a, c) + split(b, c),
    decreases a.len(),
{
    let s = a + seq![c] + b;
    let pat = seq![c];
    let i = first_at(a, pat, 0);
    let j = first_at(s, pat, 0);
    lemma_first_at(a, pat, 0);
    lemma_first_at(s, pat, 0);
    assert forall|k: int| 0 <= k < a.len() implies occurs_at(a, pat, k) == occurs_at(
        s,
        pat,
        k,
    ) by {
        lemma_occurs_char(a, c, k);
        lemma_occurs_char(s, c, k);
        assert(s[k] == a[k]);
    }
    lemma_occurs_char(s, c, a.len() as int);
    assert(i == j) by {
        if i < j {
            assert(occurs_at(s, pat, i));
        } else if j < i {
            assert(occurs_at(a, pat, j));
        }
    }
    if i >= a.len() {
        assert(s.take(j) =~= a);
        assert(s.skip(j + 1) =~= b);
        assert(split(a, c) =~= seq![a]);
    } else {
        let rest = a.skip(i + 1);
        lemma_split_joins(rest, c, b);
        assert(s.take(j) =~= a.take(i));
        assert(s.skip(j + 1) =~= rest + seq![c] + b);
        assert(split(s, c) =~= split(a, c) + split(b, c));
    }
}

/// A text that neither begins nor ends in white space is what is left of it between white
/// space.
pub proof fn lemma_trimmed_is(front: Seq<char>, s: Seq<char>, back: Seq<char>)
    requires
        s.len() > 0,
        !white(s[0]),
        !white(s.last()),
        forall|k: int| 0 <= k < front.len() ==> white(#[trigger] front[k]),
        forall|k: int| 0 <= k < back.len() ==> white(#[trigger] back[k]),
    ensures
        trimmed(front + s + back) == s,
{
    let t = front + s + back;
    let a = front.len() as int;
    assert forall|k: int| 0 <= k < a implies white(#[trigger] t[k]) by {
        assert(t[k] == front[k]);
    }
    assert(t[a] == s[0]);
    lemma_lead_is(t, a);
    let u = t.skip(a);
    assert forall|k: int| s.len() <= k < u.len() implies white(#[trigger] u[k]) by {
        assert(u[k] == back[k - s.len()]);
    }
    assert(u[s.len() - 1] == s.last());
    lemma_trimmed_end_is(u, s.len() as int);
    assert(u.take(s.len() as int) =~= s);
}

/// Of white space alone, nothing is left.
pub proof fn lemma_trimmed_blank(s: Seq<char>)
    requires
        forall|k: int| 0 <= k < s.len() ==> white(#[trigger] s[k]),
    ensures
        trimmed(s) == Seq::<char>::empty(),
{
    lemma_lead_is(s, s.len() as int);
    assert(s.skip(s.len() as int) =~= Seq::<char>::empty());
}

/// `s` without the characters that are `c`.
pub open spec fn without(s: Seq<char>, c: char) -> Seq<char> {
    s.filter(other_than(c))
}

/// Every character but `c`.
pub open spec fn other_than(c: char) -> spec_fn(char) -> bool {
    |x: char| x != c
}

/// `s` without the characters that are `c`.
pub fn drop_char(s: &[char], c: char) -> (r: Vec<char>)
    ensures
        r@ == without(s@, c),
{
    let mut r: Vec<char> = Vec::new();
    let mut i: usize = 0;
    let ghost keep = other_than(c);
    assert(s@.take(0).filter(keep) =~= Seq::<char>::empty());
    while i < s.len()
        invariant
            i <= s.len(),
            keep == other_than(c),
            r@ == s@.take(i as int).filter(keep),
        decreases s.len() - i,
    {
        let ghost head = s@.take(i as int);
        proof {
            head.lemma_filter_push(s@[i as int], keep);
            assert(s@.take(i + 1) =~= head.push(s@[i as int]));
        }
        if s[i] != c {
            r.push(s[i]);
        }
        i += 1;
    }
    assert(s@.take(i as int) =~= s@);
    r
}

/// Are these the same characters?
pub fn same(a: &[char], b: &[char]) -> (r: bool)
    ensures
        r == (a@ == b@),
{
    if a.len() != b.len() {
        return false;
    }
    let r = stands_at(a, b, 0);
    assert(a@.subrange(0, b@.len() as int) =~= a@);
    r
}

/// Are these the same texts?
pub fn same_text(a: &str, b: &str) -> (r: bool)
    ensures
        r == (a@ == b@),
{
    same(chars_of(a).as_slice(), chars_of(b).as_slice())
}

/// The given texts one after the other, with `sep` between them.
pub open spec fn glued(parts: Seq<Seq<char>>, sep: Seq<char>) -> Seq<char>
    decreases parts.len(),
{
    if parts.len() == 0 {
        Seq::empty()
    } else if parts.len() == 1 {
        parts[0]
    } else {
        glued(parts.drop_last(), sep) + sep + parts.last()
    }
}

/// The given texts one after the other, with `sep` between them.
pub fn glue(parts: &Vec<String>, sep: &[char]) -> (r: Vec<char>)
    ensures
        r@ == glued(texts(parts@), sep@),
{
    let ghost all = texts(parts@);
    let mut r: Vec<char> = Vec::new();
    let mut i: usize = 0;
    while i < parts.len()
        invariant
            i <= parts.len(),
            all == texts(parts@),
            r@ == glued(all.take(i as int), sep@),
        decreases parts.len() - i,
    {
        assert(all.take(i + 1).drop_last() =~= all.take(i as int));
        if i > 0 {
            push_all(&mut r, sep);
        }
        let part = chars_of(parts[i].as_str());
        push_all(&mut r, part.as_slice());
        i += 1;
        if i == 1 {
            assert(r@ =~= all.take(1)[0]);
        }
    }
    assert(all.take(i as int) =~= all);
    r
}

/// One text is itself, and one more goes in front with `sep` behind it.
pub proof fn lemma_glued_first(part: Seq<char>, parts: Seq<Seq<char>>, sep: Seq<char>)
    ensures
        glued(seq![part], sep) == part,
        parts.len() > 0 ==> glued(seq![part] + parts, sep) == part + sep + glued(parts, sep),
    decreases parts.len(),
{
    let all = seq![part] + parts;
    assert(glued(seq![part], sep) == part);
    if parts.len() == 1 {
        assert(all.drop_last() =~= seq![part]);
        assert(all.last() == parts[0]);
        assert(glued(parts, sep) == parts[0]);
        assert(glued(all, sep) == glued(all.drop_last(), sep) + sep + all.last());
    } else if parts.len() > 1 {
        lemma_glued_first(part, parts.drop_last(), sep);
        assert(all.drop_last() =~= seq![part] + parts.drop_last());
        assert(all.last() == parts.last());
        assert(glued(all, sep) =~= part + sep + glued(parts, sep));
    }
}

/// Texts put together hold what they held, and no more of what is not in `sep`.
pub proof fn lemma_glued_keeps(parts: Seq<Seq<char>>, sep: Seq<char>, keep: spec_fn(char) -> bool)
    requires
        forall|k: int| 0 <= k < sep.len() ==> !keep(#[trigger] sep[k]),
    ensures
        glued(parts, sep).filter(keep) == parts.flatten().filter(keep),
    decreases parts.len(),
{
    if parts.len() == 0 {
        assert(parts.flatten() =~= Seq::<char>::empty()) by {
            reveal(Seq::flatten);
        }
    } else if parts.len() == 1 {
        assert(parts =~= seq![parts[0]]);
        seq![parts[0]].lemma_flatten_one_element();
    } else {
        let front = parts.drop_last();
        lemma_glued_keeps(front, sep, keep);
        front.lemma_flatten_push(parts.last());
        assert(front.push(parts.last()) =~= parts);
        lemma_filter_append(front.flatten(), parts.last(), keep);
        lemma_filter_append(glued(front, sep) + sep, parts.last(), keep);
        lemma_filter_append(glued(front, sep), sep, keep);
        lemma_none_kept(sep, keep);
        assert(glued(parts, sep).filter(keep) =~= parts.flatten().filter(keep));
    }
}

/// Does a pattern stand anywhere in a text?
pub open spec fn contains(s: Seq<char>, pat: Seq<char>) -> bool {
    exists|i: int| occurs_at(s, pat, i)
}

/// Does a pattern stand anywhere in a text?
pub fn holds(s: &[char], pat: &[char]) -> (b: bool)
    ensures
        b == contains(s@, pat@),
{
    if pat.len() == 0 {
        assert(s@.subrange(0, 0) =~= pat@);
        assert(occurs_at(s@, pat@, 0));
        return true;
    }
    let at: usize = find(s, pat, 0);
    proof {
        lemma_first_at(s@, pat@, 0);
        assert forall|k: int| at >= s.len() implies !occurs_at(s@, pat@, k) by {}
    }
    at < s.len()
}

/// White space by its code points: the five from tab to carriage return, the space, the
/// next line and the no-break space, the spaces of Unicode's general punctuation and the
/// two of other scripts.
pub proof fn lemma_white_space_is(c: char)
    ensures
        white(c) <==> {
            let n = c as u32;
            ||| 9 <= n <= 13
            ||| n == 32 || n == 133 || n == 160
            ||| n == 5760 || 8192 <= n <= 8202
            ||| n == 8232 || n == 8233 || n == 8239 || n == 8287 || n == 12288
        },
{
}

/// The lines of a text, one after the other: what stands before the first line feed is a
/// line, without a carriage return at its end, and the others are the lines of the rest.
pub proof fn lemma_lines_come_one_by_one(a: Seq<char>, b: Seq<char>)
    requires
        forall|k: int| 0 <= k < a.len() ==> #[trigger] a[k] != '\n',
    ensures
        a.len() > 0 ==> lines(a) == seq![a],
        lines(Seq::<char>::empty()) == Seq::<Seq<char>>::empty(),
        a.len() == 0 || a.last() != '\r' ==> lines(a + seq!['\n'] + b) == seq![a] + lines(b),
        lines(a + seq!['\r', '\n'] + b) == seq![a] + lines(b),
{
    lemma_split_one(a, '\n');
    lemma_split_one(Seq::<char>::empty(), '\n');
    assert(lines(Seq::<char>::empty()) =~= Seq::<Seq<char>>::empty());
    assert(a.len() > 0 ==> lines(a) =~= seq![a]);
    lemma_line_in_front(a, b);
    lemma_line_in_front(a + seq!['\r'], b);
    assert(a + seq!['\r'] + seq!['\n'] + b =~= a + seq!['\r', '\n'] + b);
    assert((a + seq!['\r']).drop_last() =~= a);
}

proof fn lemma_line_in_front(a: Seq<char>, b: Seq<char>)
    requires
        forall|k: int| 0 <= k < a.len() ==> #[trigger] a[k] != '\n',
    ensures
        lines(a + seq!['\n'] + b) == seq![without_return(a)] + lines(b),
{
    lemma_split_one(a, '\n');
    lemma_split_joins(a, '\n', b);
    lemma_split_nonempty(b, '\n');
    let all = split(a + seq!['\n'] + b, '\n');
    let rest = split(b, '\n');
    assert(all == seq![a] + rest);
    assert(all.last() == rest.last());
    assert(all.drop_last() =~= seq![a] + rest.drop_last());
    assert(lines(a + seq!['\n'] + b) =~= seq![without_return(a)] + lines(b));
}

/// The 26 capitals of ASCII become the small letters 32 further on; every other character
/// stays.
pub proof fn lemma_folding(c: char)
    ensures
        65 <= c as u32 <= 90 ==> folded(c) as u32 == c as u32 + 32,
        !(65 <= c as u32 <= 90) ==> folded(c) == c,
        ascii_capital(c) <==> 65 <= c as u32 <= 90,
{
}

/// Dropping a character drops it everywhere, and nothing else.
pub proof fn lemma_without(a: Seq<char>, x: char, c: char)
    ensures
        without(Seq::<char>::empty(), c) == Seq::<char>::empty(),
        x == c ==> without(a.push(x), c) == without(a, c),
        x != c ==> without(a.push(x), c) == without(a, c).push(x),
{
    a.lemma_filter_push(x, other_than(c));
    reveal(Seq::filter);
}

} // verus!
