//! Finding text in the editor and in the reader.

use crate::bytes::chars_and_offsets;
use crate::layout::reached;
use crate::numbers::{decimal, decimal_of};
use crate::runs::pairs;
use crate::segment::{byte_spans, covers, to_bytes};
use crate::text::{chars_of, folded, push_all, string_of};
use vstd::prelude::*;
use vstd::utf8::encode_utf8;

verus! {

/// No more matches than this are looked for.
pub const MAX_SEARCH_HITS: usize = 400;

fn fold(c: char) -> (r: char)
    ensures
        r == folded(c),
{
    if 'A' <= c && c <= 'Z' {
        ((c as u8) + 32) as char
    } else {
        c
    }
}

/// Does `n` stand in `h` at `i`, whatever the case of ASCII letters?
pub open spec fn matches_at(h: Seq<char>, n: Seq<char>, i: int) -> bool {
    &&& 0 <= i
    &&& i + n.len() <= h.len()
    &&& forall|k: int| 0 <= k < n.len() ==> folded(#[trigger] n[k]) == folded(h[i + k])
}

/// The matches from `i` on, from left to right, at most `room` of them: none
/// overlaps another.
pub open spec fn hits_from(h: Seq<char>, n: Seq<char>, i: int, room: int) -> Seq<(int, int)>
    decreases h.len() - i,
{
    if n.len() == 0 || room <= 0 || i + n.len() > h.len() {
        Seq::empty()
    } else if matches_at(h, n, i) {
        seq![(i, i + n.len())] + hits_from(h, n, i + n.len(), room - 1)
    } else {
        hits_from(h, n, i + 1, room)
    }
}

/// The matches of `n` in `h`.
pub open spec fn hits(h: Seq<char>, n: Seq<char>) -> Seq<(int, int)> {
    hits_from(h, n, 0, MAX_SEARCH_HITS as int)
}

fn does_match(h: &Vec<char>, n: &Vec<char>, i: usize) -> (b: bool)
    requires
        i + n.len() <= h.len(),
    ensures
        b == matches_at(h@, n@, i as int),
{
    let mut k: usize = 0;
    while k < n.len()
        invariant
            k <= n.len(),
            i + n.len() <= h.len(),
            forall|j: int| 0 <= j < k ==> folded(#[trigger] n@[j]) == folded(h@[i + j]),
        decreases n.len() - k,
    {
        if fold(n[k]) != fold(h[i + k]) {
            assert(folded(n@[k as int]) != folded(h@[i + k]));
            return false;
        }
        k += 1;
    }
    true
}

/// The byte ranges of the matches of `needle` in `hay`, whatever the case of ASCII
/// letters.
pub fn find_hits(hay: &str, needle: &str) -> (r: Vec<(usize, usize)>)
    ensures
        pairs(r@) == byte_spans(hay@, hits(hay@, needle@)),
        r.len() <= MAX_SEARCH_HITS,
{
    let (h, offs) = chars_and_offsets(hay);
    let n = chars_of(needle);
    let ghost all = hits(h@, n@);
    let mut found: Vec<(usize, usize)> = Vec::new();
    let mut i: usize = 0;
    assert(pairs(found@) + all =~= all);
    if n.len() > 0 {
        while found.len() < MAX_SEARCH_HITS && n.len() <= h.len() - i
            invariant
                n.len() > 0,
                i <= h.len(),
                found.len() <= MAX_SEARCH_HITS,
                pairs(found@) + hits_from(h@, n@, i as int, MAX_SEARCH_HITS - found.len()) == all,
                forall|k: int|
                    0 <= k < found.len() ==> (#[trigger] found@[k]).0 <= h.len() && found@[k].1
                        <= h.len(),
            decreases h.len() - i,
        {
            let ghost before = pairs(found@);
            if does_match(&h, &n, i) {
                found.push((i, i + n.len()));
                assert(pairs(found@) =~= before.push((i as int, i + n.len())));
                i += n.len();
                assert(pairs(found@) + hits_from(
                    h@,
                    n@,
                    i as int,
                    MAX_SEARCH_HITS - found.len(),
                ) =~= before + hits_from(
                    h@,
                    n@,
                    i - n.len(),
                    MAX_SEARCH_HITS - (found.len() - 1),
                ));
            } else {
                i += 1;
            }
        }
    }
    assert(pairs(found@) =~= all);
    let r = to_bytes(&h, &offs, &found);
    assert(pairs(r@).len() == r.len());
    assert(pairs(found@).len() == found.len());
    r
}

proof fn lemma_hits_sound(h: Seq<char>, n: Seq<char>, i: int, room: int)
    requires
        n.len() > 0,
        0 <= i,
        0 <= room,
    ensures
        ({
            let r = hits_from(h, n, i, room);
            &&& r.len() <= room
            &&& forall|k: int|
                0 <= k < r.len() ==> matches_at(h, n, (#[trigger] r[k]).0) && r[k].1 == r[k].0
                    + n.len() && i <= r[k].0
            &&& forall|j: int, k: int|
                0 <= j < k < r.len() ==> (#[trigger] r[j]).1 <= (#[trigger] r[k]).0
        }),
    decreases h.len() - i,
{
    let r = hits_from(h, n, i, room);
    if room > 0 && i + n.len() <= h.len() {
        if matches_at(h, n, i) {
            let rest = hits_from(h, n, i + n.len(), room - 1);
            lemma_hits_sound(h, n, i + n.len(), room - 1);
            assert forall|k: int| 0 <= k < r.len() implies matches_at(h, n, (#[trigger] r[k]).0)
                && r[k].1 == r[k].0 + n.len() && i <= r[k].0 by {
                if k > 0 {
                    assert(r[k] == rest[k - 1]);
                }
            }
            assert forall|j: int, k: int| 0 <= j < k < r.len() implies (#[trigger] r[j]).1 <= (
            #[trigger] r[k]).0 by {
                assert(r[k] == rest[k - 1]);
                if j > 0 {
                    assert(r[j] == rest[j - 1]);
                }
            }
        } else {
            lemma_hits_sound(h, n, i + 1, room);
        }
    }
}

proof fn lemma_hit_covered(h: Seq<char>, n: Seq<char>, i: int, room: int, p: int)
    requires
        n.len() > 0,
        0 <= i <= p,
        0 <= room,
        matches_at(h, n, p),
        ({
            let r = hits_from(h, n, i, room);
            r.len() < room || (r.len() > 0 && p < r.last().1)
        }),
    ensures
        covers(hits_from(h, n, i, room), p),
    decreases h.len() - i,
{
    let r = hits_from(h, n, i, room);
    if room > 0 {
        if matches_at(h, n, i) {
            let rest = hits_from(h, n, i + n.len(), room - 1);
            assert(r =~= seq![(i, i + n.len())] + rest);
            if p < i + n.len() {
                assert(r[0].0 <= p < r[0].1);
            } else {
                if rest.len() > 0 {
                    assert(r.last() == rest.last());
                }
                lemma_hit_covered(h, n, i + n.len(), room - 1, p);
                let k = choose|k: int|
                    0 <= k < rest.len() && (#[trigger] rest[k]).0 <= p < rest[k].1;
                assert(r[k + 1] == rest[k]);
            }
        } else {
            lemma_hit_covered(h, n, i + 1, room, p);
        }
    }
}

/// The matches found are matches, they follow one another, and there are no more of
/// them than the limit; as long as it is not reached, no match is missed: every one
/// begins inside a match that was found. Once it is reached, none is missed before the
/// end of the last match found.
pub proof fn lemma_hits(h: Seq<char>, n: Seq<char>, i: int, room: int)
    requires
        n.len() > 0,
        0 <= i,
        0 <= room,
    ensures
        ({
            let r = hits_from(h, n, i, room);
            &&& r.len() <= room
            &&& forall|k: int|
                0 <= k < r.len() ==> matches_at(h, n, (#[trigger] r[k]).0) && r[k].1 == r[k].0
                    + n.len() && i <= r[k].0
            &&& forall|j: int, k: int|
                0 <= j < k < r.len() ==> (#[trigger] r[j]).1 <= (#[trigger] r[k]).0
            &&& forall|p: int|
                i <= p && #[trigger] matches_at(h, n, p) && (r.len() < room || (r.len() > 0 && p
                    < r.last().1)) ==> covers(r, p)
        }),
{
    let r = hits_from(h, n, i, room);
    lemma_hits_sound(h, n, i, room);
    assert forall|p: int|
        i <= p && #[trigger] matches_at(h, n, p) && (r.len() < room || (r.len() > 0 && p
            < r.last().1)) implies covers(r, p) by {
        lemma_hit_covered(h, n, i, room, p);
    }
}

/// The words from `j` on that begin before `b`.
pub open spec fn words_before(words: Seq<(usize, usize)>, j: int, b: int) -> Seq<int>
    decreases words.len() - j,
{
    if j < 0 || j >= words.len() || words[j].0 >= b {
        Seq::empty()
    } else {
        seq![j] + words_before(words, j + 1, b)
    }
}

/// The words that a match from `a` to `b` touches.
pub open spec fn touched(words: Seq<(usize, usize)>, a: int, b: int) -> Seq<int> {
    words_before(words, reached(words, 0, a), b)
}

/// The words that the first `n` matches touch, each with whether its match is the
/// current one.
pub open spec fn washed(
    words: Seq<(usize, usize)>,
    found: Seq<(usize, usize)>,
    current: int,
    n: int,
) -> Seq<(int, bool)>
    decreases n,
{
    if n <= 0 {
        Seq::empty()
    } else {
        washed(words, found, current, n - 1) + touched(
            words,
            found[n - 1].0 as int,
            found[n - 1].1 as int,
        ).map_values(|w: int| (w, n - 1 == current))
    }
}

/// Matches in the order they stand in.
pub open spec fn in_order(found: Seq<(usize, usize)>) -> bool {
    forall|j: int, k: int|
        0 <= j < k < found.len() ==> (#[trigger] found[j]).0 <= (#[trigger] found[k]).0
}

proof fn lemma_reached_again(words: Seq<(usize, usize)>, w: int, start: int, later: int)
    requires
        0 <= w <= words.len(),
        start <= later,
    ensures
        reached(words, reached(words, w, start), later) == reached(words, w, later),
        w <= reached(words, w, start) <= words.len(),
    decreases words.len() - w,
{
    if w < words.len() && words[w].1 <= start {
        lemma_reached_again(words, w + 1, start, later);
    }
}

/// The words to wash in the reader, each with whether its match is the current one.
pub fn wash_words(words: &Vec<(usize, usize)>, found: &Vec<(usize, usize)>, current: usize) -> (r:
    Vec<(usize, bool)>)
    requires
        in_order(found@),
    ensures
        r@.map_values(|p: (usize, bool)| (p.0 as int, p.1)) == washed(
            words@,
            found@,
            current as int,
            found.len() as int,
        ),
{
    let mut r: Vec<(usize, bool)> = Vec::new();
    let mut wi: usize = 0;
    let mut k: usize = 0;
    let ghost view = |p: (usize, bool)| (p.0 as int, p.1);
    let ghost mut last: int = 0;
    assert(r@.map_values(view) =~= washed(words@, found@, current as int, 0));
    proof {
        lemma_reached_again(words@, 0, 0, 0);
    }
    while k < found.len()
        invariant
            k <= found.len(),
            in_order(found@),
            view == |p: (usize, bool)| (p.0 as int, p.1),
            wi <= words.len(),
            k > 0 ==> last == found@[k - 1].0 && wi == reached(words@, 0, last),
            k == 0 ==> wi == 0,
            r@.map_values(view) == washed(words@, found@, current as int, k as int),
        decreases found.len() - k,
    {
        let (a, b) = found[k];
        let ghost w0 = wi as int;
        while wi < words.len() && words[wi].1 <= a
            invariant
                wi <= words.len(),
                reached(words@, w0, a as int) == reached(words@, wi as int, a as int),
            decreases words.len() - wi,
        {
            wi += 1;
        }
        proof {
            if k > 0 {
                assert(found@[k - 1].0 <= found@[k as int].0);
                lemma_reached_again(words@, 0, last, a as int);
            }
            last = a as int;
        }
        assert(wi == reached(words@, 0, a as int));
        let ghost base = r@.map_values(view);
        let ghost now = (k == current);
        let ghost tag = |w: int| (w, k as int == current as int);
        let ghost all = touched(words@, a as int, b as int);
        let mut wj: usize = wi;
        let ghost mut done: Seq<int> = Seq::empty();
        assert(done + all =~= all);
        assert(base + done.map_values(tag) =~= base);
        while wj < words.len() && words[wj].0 < b
            invariant
                wj <= words.len(),
                k < found.len(),
                view == |p: (usize, bool)| (p.0 as int, p.1),
                tag == |w: int| (w, k as int == current as int),
                done + words_before(words@, wj as int, b as int) == all,
                r@.map_values(view) == base + done.map_values(tag),
            decreases words.len() - wj,
        {
            let ghost before = r@;
            let ghost was = done;
            r.push((wj, k == current));
            proof {
                done = done.push(wj as int);
            }
            assert(r@.map_values(view) =~= before.map_values(view).push(tag(wj as int)));
            assert(done.map_values(tag) =~= was.map_values(tag).push(tag(wj as int)));
            wj += 1;
            assert(done + words_before(words@, wj as int, b as int) =~= was + words_before(
                words@,
                wj - 1,
                b as int,
            ));
        }
        assert(done =~= all);
        k += 1;
        assert(washed(words@, found@, current as int, k as int) =~= base + all.map_values(tag));
    }
    r
}

/// Words that follow one another.
pub open spec fn words_in_order(words: Seq<(usize, usize)>) -> bool {
    &&& forall|j: int| 0 <= j < words.len() ==> (#[trigger] words[j]).0 < words[j].1
    &&& forall|j: int, k: int|
        0 <= j < k < words.len() ==> (#[trigger] words[j]).1 <= (#[trigger] words[k]).0
}

/// A match touches exactly the words it overlaps.
pub proof fn lemma_touched_overlap(words: Seq<(usize, usize)>, a: int, b: int, w: int)
    requires
        words_in_order(words),
        0 <= w < words.len(),
    ensures
        touched(words, a, b).contains(w) <==> words[w].1 > a && words[w].0 < b,
{
    lemma_reached_is(words, 0, a);
    let lo = reached(words, 0, a);
    lemma_words_before(words, lo, b, w);
    if w < lo {
        assert(words[w].1 <= a);
    } else if lo < w {
        assert(words[lo].1 <= words[w].0);
    }
}

proof fn lemma_reached_is(words: Seq<(usize, usize)>, w: int, start: int)
    requires
        0 <= w <= words.len(),
    ensures
        w <= reached(words, w, start) <= words.len(),
        forall|k: int| w <= k < reached(words, w, start) ==> (#[trigger] words[k]).1 <= start,
        reached(words, w, start) < words.len() ==> words[reached(words, w, start)].1 > start,
    decreases words.len() - w,
{
    if w < words.len() && words[w].1 <= start {
        lemma_reached_is(words, w + 1, start);
    }
}

proof fn lemma_words_before(words: Seq<(usize, usize)>, j: int, b: int, w: int)
    requires
        words_in_order(words),
        0 <= j <= words.len(),
        0 <= w < words.len(),
    ensures
        words_before(words, j, b).contains(w) <==> j <= w && words[w].0 < b,
    decreases words.len() - j,
{
    let r = words_before(words, j, b);
    if j < words.len() && words[j].0 < b {
        let rest = words_before(words, j + 1, b);
        lemma_words_before(words, j + 1, b, w);
        if rest.contains(w) {
            let k = choose|k: int| 0 <= k < rest.len() && rest[k] == w;
            assert(r[k + 1] == w);
        }
        if r.contains(w) && w != j {
            let k = choose|k: int| 0 <= k < r.len() && r[k] == w;
            assert(rest[k - 1] == w);
        }
        if w == j {
            assert(r[0] == w);
        }
    } else if j <= w && j < words.len() {
        if j < w {
            assert(words[j].1 <= words[w].0);
            assert(words[j].0 < words[j].1);
        }
    }
}

/// The find bar: what is looked for, where it was found, and which match is current.
#[derive(Debug)]
pub struct Search {
    pub query: String,
    pub hits: Vec<(usize, usize)>,
    pub idx: usize,
}

/// What the find bar counts: nothing without a query, `0` without a match, else the
/// current match and how many there are, with a plus sign where the limit was met.
pub open spec fn count_label(query: Seq<char>, n: nat, idx: nat) -> Seq<char> {
    if query.len() == 0 {
        Seq::empty()
    } else if n == 0 {
        seq!['0']
    } else {
        decimal(idx + 1) + seq!['/'] + decimal(n) + (if n >= MAX_SEARCH_HITS {
            seq!['+']
        } else {
            Seq::empty()
        })
    }
}

impl Search {
    /// The current match is one of the matches.
    pub open spec fn wf(&self) -> bool {
        &&& self.hits.len() <= MAX_SEARCH_HITS
        &&& self.idx < self.hits.len() || self.idx == 0
    }

    pub fn new() -> (s: Search)
        ensures
            s.wf(),
            s.query@.len() == 0,
            s.hits.len() == 0,
            s.idx == 0,
    {
        let query = String::new();
        Search { query, hits: Vec::new(), idx: 0 }
    }

    /// Look for another text.
    pub fn set_query(&mut self, query: String)
        requires
            old(self).wf(),
        ensures
            final(self).wf(),
            final(self).query == query,
            final(self).hits == old(self).hits,
            final(self).idx == old(self).idx,
    {
        self.query = query;
    }

    /// Look through a text from the start.
    pub fn run_search(&mut self, hay: &str)
        requires
            old(self).wf(),
        ensures
            final(self).wf(),
            final(self).query == old(self).query,
            pairs(final(self).hits@) == byte_spans(hay@, hits(hay@, old(self).query@)),
            final(self).idx == 0,
    {
        self.hits = find_hits(hay, self.query.as_str());
        self.idx = 0;
    }

    /// Go on to another match, round and round.
    pub fn search_nav(&mut self, dir: i32)
        requires
            old(self).wf(),
        ensures
            final(self).wf(),
            final(self).query == old(self).query,
            final(self).hits == old(self).hits,
            old(self).hits.len() == 0 ==> final(self).idx == old(self).idx,
            old(self).hits.len() > 0 ==> final(self).idx == (old(self).idx + dir) % (
            old(self).hits.len() as int),
    {
        let n: i64 = self.hits.len() as i64;
        if n == 0 {
            return;
        }
        let at: i64 = self.idx as i64 + dir as i64;
        self.idx = wrap(at, n) as usize;
    }

    /// Leave the find bar.
    pub fn close(&mut self)
        requires
            old(self).wf(),
        ensures
            final(self).wf(),
            final(self).query == old(self).query,
            final(self).hits.len() == 0,
            final(self).idx == 0,
    {
        self.hits = Vec::new();
        self.idx = 0;
    }

    /// The match to show.
    pub fn current_hit(&self) -> (r: Option<(usize, usize)>)
        ensures
            r == (if self.idx < self.hits.len() {
                Some(self.hits@[self.idx as int])
            } else {
                None
            }),
    {
        if self.idx < self.hits.len() {
            Some(self.hits[self.idx])
        } else {
            None
        }
    }

    /// What the find bar counts.
    pub fn count(&self) -> (r: String)
        requires
            self.wf(),
        ensures
            r@ == count_label(self.query@, self.hits.len() as nat, self.idx as nat),
    {
        let query = chars_of(self.query.as_str());
        let mut out: Vec<char> = Vec::new();
        if query.len() == 0 {
            assert(out@ =~= Seq::empty());
        } else if self.hits.len() == 0 {
            out.push('0');
            assert(out@ =~= seq!['0']);
        } else {
            let at = decimal_of(self.idx as u64 + 1);
            let n = decimal_of(self.hits.len() as u64);
            push_all(&mut out, at.as_slice());
            out.push('/');
            push_all(&mut out, n.as_slice());
            if self.hits.len() >= MAX_SEARCH_HITS {
                out.push('+');
            }
            assert(out@ =~= count_label(
                self.query@,
                self.hits.len() as nat,
                self.idx as nat,
            ));
        }
        string_of(out.as_slice())
    }
}

/// The remainder that is not negative.
fn wrap(at: i64, n: i64) -> (r: i64)
    requires
        0 < n <= 0x1_0000_0000,
        -0x1_0000_0000 <= at <= 0x1_0000_0000,
    ensures
        r == at as int % n as int,
        0 <= r < n,
{
    if at >= 0 {
        at % n
    } else {
        let back: i64 = (-at) % n;
        proof {
            lemma_negative_remainder(-at, n as int);
        }
        if back == 0 {
            0
        } else {
            n - back
        }
    }
}

proof fn lemma_negative_remainder(a: int, n: int)
    requires
        a >= 0,
        n > 0,
    ensures
        (-a) % n == (if a % n == 0 {
            0
        } else {
            n - a % n
        }),
{
    let q = a / n;
    let r = a % n;
    assert(a == q * n + r) by {
        vstd::arithmetic::div_mod::lemma_fundamental_div_mod(a, n);
        assert(n * q == q * n) by (nonlinear_arith);
    }
    if r == 0 {
        assert(-a == (-q) * n + 0) by (nonlinear_arith)
            requires
                a == q * n + r,
                r == 0,
        ;
        vstd::arithmetic::div_mod::lemma_fundamental_div_mod_converse(-a, n, -q, 0);
    } else {
        assert(-a == (-q - 1) * n + (n - r)) by (nonlinear_arith)
            requires
                a == q * n + r,
        ;
        vstd::arithmetic::div_mod::lemma_fundamental_div_mod_converse(-a, n, -q - 1, n - r);
    }
}

/// Going on and coming back ends where it began.
pub proof fn lemma_nav_and_back(idx: int, n: int, dir: int)
    requires
        0 <= idx < n,
    ensures
        ((idx + dir) % n - dir) % n == idx,
{
    vstd::arithmetic::div_mod::lemma_sub_mod_noop(idx + dir, dir, n);
    vstd::arithmetic::div_mod::lemma_sub_mod_noop((idx + dir) % n, dir, n);
    vstd::arithmetic::div_mod::lemma_mod_twice(idx + dir, n);
    vstd::arithmetic::div_mod::lemma_small_mod(idx as nat, n as nat);
}

/// A match is a stretch that reads as what is looked for, where a letter of ASCII may stand
/// in either case and every other character stands for itself.
pub proof fn lemma_match_ignores_ascii_case(h: Seq<char>, n: Seq<char>, i: int)
    requires
        0 <= i,
        i + n.len() <= h.len(),
    ensures
        matches_at(h, n, i) <==> forall|k: int|
            0 <= k < n.len() ==> {
                let (x, y) = (#[trigger] n[k], h[i + k]);
                ||| x == y
                ||| 'A' <= x <= 'Z' && y as int == x as int + 32
                ||| 'A' <= y <= 'Z' && x as int == y as int + 32
            },
{
    if matches_at(h, n, i) {
        assert forall|k: int| 0 <= k < n.len() implies {
            let (x, y) = (#[trigger] n[k], h[i + k]);
            ||| x == y
            ||| 'A' <= x <= 'Z' && y as int == x as int + 32
            ||| 'A' <= y <= 'Z' && x as int == y as int + 32
        } by {
            assert(folded(n[k]) == folded(h[i + k]));
            lemma_folded(n[k], h[i + k]);
        }
    }
    if forall|k: int|
        0 <= k < n.len() ==> {
            let (x, y) = (#[trigger] n[k], h[i + k]);
            ||| x == y
            ||| 'A' <= x <= 'Z' && y as int == x as int + 32
            ||| 'A' <= y <= 'Z' && x as int == y as int + 32
        } {
        assert forall|k: int| 0 <= k < n.len() implies folded(#[trigger] n[k]) == folded(
            h[i + k],
        ) by {
            lemma_folded(n[k], h[i + k]);
        }
    }
}

proof fn lemma_folded(x: char, y: char)
    ensures
        folded(x) == folded(y) <==> x == y || ('A' <= x <= 'Z' && y as int == x as int + 32) || (
        'A' <= y <= 'Z' && x as int == y as int + 32),
{
    assert('A' <= x <= 'Z' ==> folded(x) as int == x as int + 32);
    assert('A' <= y <= 'Z' ==> folded(y) as int == y as int + 32);
}

/// The matches in a text are matches, in order, each behind the one before, and at most 400;
/// each is given by its bytes. Nothing matches an empty query.
pub proof fn lemma_matches_in_a_text(h: Seq<char>, n: Seq<char>, k: int)
    ensures
        hits(h, n).len() <= 400,
        n.len() == 0 ==> hits(h, n).len() == 0,
        0 <= k < hits(h, n).len() ==> {
            let (a, b) = hits(h, n)[k];
            &&& 0 <= a && b == a + n.len() && b <= h.len()
            &&& matches_at(h, n, a)
            &&& k + 1 < hits(h, n).len() ==> b <= hits(h, n)[k + 1].0
            &&& byte_spans(h, hits(h, n))[k] == (
                encode_utf8(h.take(a)).len() as int,
                encode_utf8(h.take(b)).len() as int,
            )
        },
{
    if n.len() > 0 {
        lemma_hits_sound(h, n, 0, 400);
        if 0 <= k < hits(h, n).len() - 1 {
            assert(hits(h, n)[k].1 <= hits(h, n)[k + 1].0);
        }
    }
}

/// No match is missed: with fewer than 400 matches, whatever matches begins within one of
/// them; with 400, whatever matches before the end of the last does.
pub proof fn lemma_no_match_is_missed(h: Seq<char>, n: Seq<char>, p: int) -> (k: int)
    requires
        n.len() > 0,
        0 <= p,
        matches_at(h, n, p),
        hits(h, n).len() < 400 || p < hits(h, n)[399].1,
    ensures
        0 <= k < hits(h, n).len(),
        hits(h, n)[k].0 <= p < hits(h, n)[k].1,
{
    let r = hits(h, n);
    lemma_hits_sound(h, n, 0, 400);
    lemma_hit_covered(h, n, 0, 400, p);
    choose|k: int| 0 <= k < r.len() && (#[trigger] r[k]).0 <= p < r[k].1
}

/// A word is washed exactly if a match overlaps it, and as the current match exactly if that
/// one does.
pub proof fn lemma_washed_words_overlap(
    words: Seq<(usize, usize)>,
    found: Seq<(usize, usize)>,
    current: int,
    n: int,
    w: int,
    now: bool,
)
    requires
        words_in_order(words),
        0 <= n <= found.len(),
        0 <= w < words.len(),
    ensures
        washed(words, found, current, n).contains((w, now)) <==> exists|k: int|
            0 <= k < n && now == (k == current) && words[w].1 > (#[trigger] found[k]).0
                && words[w].0 < found[k].1,
    decreases n,
{
    let r = washed(words, found, current, n);
    if n > 0 {
        let front = washed(words, found, current, n - 1);
        let (a, b) = (found[n - 1].0 as int, found[n - 1].1 as int);
        let own = touched(words, a, b);
        let tag = |x: int| (x, n - 1 == current);
        let back = own.map_values(tag);
        assert(r == front + back);
        lemma_washed_words_overlap(words, found, current, n - 1, w, now);
        lemma_touched_overlap(words, a, b, w);
        if r.contains((w, now)) {
            let q = choose|q: int| 0 <= q < r.len() && r[q] == (w, now);
            if q < front.len() {
                assert(front[q] == (w, now));
                let k = choose|k: int|
                    0 <= k < n - 1 && now == (k == current) && words[w].1 > (
                    #[trigger] found[k]).0 && words[w].0 < found[k].1;
                assert(words[w].1 > found[k].0);
            } else {
                assert(back[q - front.len()] == (w, now));
                assert(own[q - front.len()] == w);
                assert(own.contains(w));
                assert(words[w].1 > found[n - 1].0);
            }
        }
        if exists|k: int|
            0 <= k < n && now == (k == current) && words[w].1 > (#[trigger] found[k]).0
                && words[w].0 < found[k].1 {
            let k = choose|k: int|
                0 <= k < n && now == (k == current) && words[w].1 > (#[trigger] found[k]).0
                    && words[w].0 < found[k].1;
            if k < n - 1 {
                assert(front.contains((w, now)));
                let q = choose|q: int| 0 <= q < front.len() && front[q] == (w, now);
                assert(r[q] == (w, now));
            } else {
                assert(own.contains(w));
                let q = choose|q: int| 0 <= q < own.len() && own[q] == w;
                assert(back[q] == (w, now));
                assert(r[front.len() + q] == (w, now));
            }
        }
    }
}

/// The find bar counts from one, and says with a plus sign that there may be more than 400.
pub proof fn lemma_count_is_read(query: Seq<char>, n: nat, idx: nat)
    ensures
        query.len() == 0 ==> count_label(query, n, idx).len() == 0,
        query.len() > 0 && n == 0 ==> count_label(query, n, idx) == seq!['0'],
        query.len() > 0 && 0 < n < 400 ==> count_label(query, n, idx) == decimal(idx + 1) + seq![
            '/',
        ] + decimal(n),
        query.len() > 0 && n >= 400 ==> count_label(query, n, idx) == decimal(idx + 1) + seq!['/']
            + decimal(n) + seq!['+'],
{
    if query.len() > 0 && 0 < n < 400 {
        assert(count_label(query, n, idx) =~= decimal(idx + 1) + seq!['/'] + decimal(n));
    }
}

} // verus!
