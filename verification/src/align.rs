//! Alignment of spoken words with written words.
//!
//! A speech engine merges function words ("with the" is spoken as one word)
//! and expands numerals ("42" is spoken as two), so the words it reports and
//! the words of the text differ in number. They are matched by the cheapest
//! monotonic alignment, scored by edit distance against the pronunciation of
//! each written word on its own.

use crate::distance::{distance, edit_distance};
use crate::seqs::lemma_filter_append;
use crate::text::{alphanumeric, chars_of, chars_of_all, lists, texts};
use vstd::prelude::*;

verus! {

/// Costs at or above this bound count as no alignment at all.
pub const BIG: usize = usize::MAX / 4;

/// How many ways there are to match the next words.
pub const MOVES: usize = 5;

/// One way to match the next words: so many spoken words, so many written ones.
pub open spec fn move_of(k: int) -> (int, int) {
    if k == 0 {
        (1, 1)
    } else if k == 1 {
        (1, 2)
    } else if k == 2 {
        (1, 3)
    } else if k == 3 {
        (2, 1)
    } else {
        (3, 1)
    }
}

fn nth_move(k: usize) -> (r: (usize, usize))
    ensures
        r.0 == move_of(k as int).0,
        r.1 == move_of(k as int).1,
{
    if k == 0 {
        (1, 1)
    } else if k == 1 {
        (1, 2)
    } else if k == 2 {
        (1, 3)
    } else if k == 3 {
        (2, 1)
    } else {
        (3, 1)
    }
}

/// A character that carries sound or stress.
pub open spec fn sounded(c: char) -> bool {
    alphanumeric(c) || c == 'ˈ' || c == 'ˌ'
}

/// A pronunciation without its punctuation.
pub open spec fn voiced(s: Seq<char>) -> Seq<char> {
    s.filter(|c: char| sounded(c))
}

/// The pronunciations of a list of words, without their punctuation.
pub open spec fn voiced_words(w: Seq<Seq<char>>) -> Seq<Seq<char>> {
    w.map_values(|s: Seq<char>| voiced(s))
}

/// The words from `a` up to `b` as one.
pub open spec fn joined(w: Seq<Seq<char>>, a: int, b: int) -> Seq<char> {
    w.subrange(a, b).flatten()
}

/// What it costs to match words by move `k` at `(i, j)`: the edit distance, and
/// two for every word beyond one on either side.
pub open spec fn move_cost(p: Seq<Seq<char>>, t: Seq<Seq<char>>, i: int, j: int, k: int) -> nat {
    let (a, b) = move_of(k);
    distance(joined(p, i, i + a), joined(t, j, j + b)) + (2 * (a + b - 2)) as nat
}

/// Does move `k` fit at `(i, j)`?
pub open spec fn fits(p: Seq<Seq<char>>, t: Seq<Seq<char>>, i: int, j: int, k: int) -> bool {
    i + move_of(k).0 <= p.len() && j + move_of(k).1 <= t.len()
}

/// The cheapest way to go on from `(i, j)` that begins with one of the first
/// `k` moves, and that move; of equally cheap ones the first.
pub open spec fn best_of(p: Seq<Seq<char>>, t: Seq<Seq<char>>, i: int, j: int, k: int) -> (nat, int)
    decreases (p.len() - i) + (t.len() - j), k,
{
    if k <= 0 {
        (BIG as nat, -1)
    } else {
        let before = best_of(p, t, i, j, k - 1);
        let (a, b) = move_of(k - 1);
        if fits(p, t, i, j, k - 1) && best(p, t, i + a, j + b) < BIG {
            let cost = move_cost(p, t, i, j, k - 1) + best(p, t, i + a, j + b);
            if cost < before.0 {
                (cost, k - 1)
            } else {
                before
            }
        } else {
            before
        }
    }
}

/// The least cost of aligning `p[i..]` with `t[j..]`; `BIG` where there is no
/// alignment below that bound.
pub open spec fn best(p: Seq<Seq<char>>, t: Seq<Seq<char>>, i: int, j: int) -> nat
    decreases (p.len() - i) + (t.len() - j), MOVES + 1,
{
    if i == p.len() && j == t.len() {
        0
    } else {
        best_of(p, t, i, j, MOVES as int).0
    }
}

/// The moves of the cheapest alignment of `p[i..]` with `t[j..]`.
pub open spec fn traced(p: Seq<Seq<char>>, t: Seq<Seq<char>>, i: int, j: int) -> Seq<int>
    decreases (p.len() - i) + (t.len() - j),
{
    let k = best_of(p, t, i, j, MOVES as int).1;
    if i < p.len() && j < t.len() && k >= 0 && fits(p, t, i, j, k) {
        seq![k] + traced(p, t, i + move_of(k).0, j + move_of(k).1)
    } else {
        Seq::empty()
    }
}

/// Do these moves lead from `(i, j)` to the end of both lists?
pub open spec fn is_alignment(
    p: Seq<Seq<char>>,
    t: Seq<Seq<char>>,
    i: int,
    j: int,
    path: Seq<int>,
) -> bool
    decreases path.len(),
{
    if path.len() == 0 {
        i == p.len() && j == t.len()
    } else {
        &&& 0 <= path[0] < MOVES
        &&& fits(p, t, i, j, path[0])
        &&& is_alignment(
            p,
            t,
            i + move_of(path[0]).0,
            j + move_of(path[0]).1,
            path.drop_first(),
        )
    }
}

/// What these moves cost from `(i, j)` on.
pub open spec fn path_cost(
    p: Seq<Seq<char>>,
    t: Seq<Seq<char>>,
    i: int,
    j: int,
    path: Seq<int>,
) -> nat
    decreases path.len(),
{
    if path.len() == 0 {
        0
    } else {
        move_cost(p, t, i, j, path[0]) + path_cost(
            p,
            t,
            i + move_of(path[0]).0,
            j + move_of(path[0]).1,
            path.drop_first(),
        )
    }
}

/// `best_of` picks a move that fits, or none.
proof fn lemma_best_of(p: Seq<Seq<char>>, t: Seq<Seq<char>>, i: int, j: int, k: int)
    requires
        0 <= k <= MOVES,
    ensures
        best_of(p, t, i, j, k).0 <= BIG,
        best_of(p, t, i, j, k).0 < BIG <==> best_of(p, t, i, j, k).1 >= 0,
        best_of(p, t, i, j, k).1 >= 0 ==> {
            let c = best_of(p, t, i, j, k).1;
            let (a, b) = move_of(c);
            &&& c < k
            &&& fits(p, t, i, j, c)
            &&& best(p, t, i + a, j + b) < BIG
            &&& best_of(p, t, i, j, k).0 == move_cost(p, t, i, j, c) + best(p, t, i + a, j + b)
        },
        forall|c: int|
            0 <= c < k && #[trigger] fits(p, t, i, j, c) && best(
                p,
                t,
                i + move_of(c).0,
                j + move_of(c).1,
            ) < BIG ==> best_of(p, t, i, j, k).0 <= move_cost(p, t, i, j, c) + best(
                p,
                t,
                i + move_of(c).0,
                j + move_of(c).1,
            ),
        forall|c: int|
            0 <= c < best_of(p, t, i, j, k).1 && #[trigger] fits(p, t, i, j, c) && best(
                p,
                t,
                i + move_of(c).0,
                j + move_of(c).1,
            ) < BIG ==> best_of(p, t, i, j, k).0 < move_cost(p, t, i, j, c) + best(
                p,
                t,
                i + move_of(c).0,
                j + move_of(c).1,
            ),
    decreases k,
{
    if k > 0 {
        lemma_best_of(p, t, i, j, k - 1);
    }
}

/// No alignment costs less than the best one.
pub proof fn lemma_best_is_least(
    p: Seq<Seq<char>>,
    t: Seq<Seq<char>>,
    i: int,
    j: int,
    path: Seq<int>,
)
    requires
        is_alignment(p, t, i, j, path),
        path_cost(p, t, i, j, path) < BIG,
    ensures
        best(p, t, i, j) <= path_cost(p, t, i, j, path),
    decreases path.len(),
{
    if path.len() > 0 {
        let (a, b) = move_of(path[0]);
        lemma_best_is_least(p, t, i + a, j + b, path.drop_first());
        lemma_best_of(p, t, i, j, MOVES as int);
        lemma_alignment_end(p, t, i + a, j + b, path.drop_first());
        assert(fits(p, t, i, j, path[0]));
    }
}

proof fn lemma_alignment_end(
    p: Seq<Seq<char>>,
    t: Seq<Seq<char>>,
    i: int,
    j: int,
    path: Seq<int>,
)
    requires
        is_alignment(p, t, i, j, path),
    ensures
        i <= p.len(),
        j <= t.len(),
{
}

/// The traced moves are an alignment, and the cheapest one.
pub proof fn lemma_traced_is_best(p: Seq<Seq<char>>, t: Seq<Seq<char>>, i: int, j: int)
    requires
        best(p, t, i, j) < BIG,
    ensures
        is_alignment(p, t, i, j, traced(p, t, i, j)),
        path_cost(p, t, i, j, traced(p, t, i, j)) == best(p, t, i, j),
    decreases (p.len() - i) + (t.len() - j),
{
    let k = best_of(p, t, i, j, MOVES as int).1;
    lemma_best_of(p, t, i, j, MOVES as int);
    if i == p.len() && j == t.len() {
        assert(traced(p, t, i, j) =~= Seq::empty());
    } else {
        let (a, b) = move_of(k);
        lemma_traced_is_best(p, t, i + a, j + b);
        let rest = traced(p, t, i + a, j + b);
        assert(traced(p, t, i, j) == seq![k] + rest);
        assert((seq![k] + rest).drop_first() =~= rest);
    }
}

/// The share of a written word within its group: the length of its
/// pronunciation, and at least one.
pub open spec fn weight(s: Seq<char>) -> nat {
    if s.len() == 0 {
        1
    } else {
        s.len()
    }
}

/// The shares of the words from `a` up to `b` together.
pub open spec fn weights(t: Seq<Seq<char>>, a: int, b: int) -> nat
    decreases b - a,
{
    if a >= b {
        0
    } else {
        weights(t, a, b - 1) + weight(t[b - 1])
    }
}

/// When a written word is spoken.
///
/// The word lies between the start of spoken word `first` and the end of spoken
/// word `last`. That stretch is shared by `count` written words, of which this
/// is number `index`; it takes `part` parts out of `total`.
#[derive(Debug, Clone, Copy, PartialEq, Eq)]
pub struct Slot {
    pub first: usize,
    pub last: usize,
    pub index: usize,
    pub count: usize,
    pub part: u64,
    pub total: u128,
}

/// The model of a [`Slot`].
#[verifier::ext_equal]
pub struct SlotView {
    pub first: int,
    pub last: int,
    pub index: int,
    pub count: int,
    pub part: nat,
    pub total: nat,
}

impl View for Slot {
    type V = SlotView;

    open spec fn view(&self) -> SlotView {
        SlotView {
            first: self.first as int,
            last: self.last as int,
            index: self.index as int,
            count: self.count as int,
            part: self.part as nat,
            total: self.total as nat,
        }
    }
}

pub open spec fn slot_views(s: Seq<Slot>) -> Seq<SlotView> {
    s.map_values(|x: Slot| x@)
}

/// The slots of `b` written words from `j` on that share `a` spoken words from
/// `i` on.
pub open spec fn group_slots(t: Seq<Seq<char>>, i: int, j: int, a: int, b: int) -> Seq<SlotView> {
    Seq::new(
        b as nat,
        |k: int|
            SlotView {
                first: i,
                last: i + a - 1,
                index: k,
                count: b,
                part: weight(t[j + k]),
                total: weights(t, j, j + b),
            },
    )
}

/// The slots of the words matched by `path` from `(i, j)` on.
pub open spec fn path_slots(t: Seq<Seq<char>>, i: int, j: int, path: Seq<int>) -> Seq<SlotView>
    decreases path.len(),
{
    if path.len() == 0 {
        Seq::empty()
    } else {
        let (a, b) = move_of(path[0]);
        group_slots(t, i, j, a, b) + path_slots(t, i + a, j + b, path.drop_first())
    }
}

/// One slot for every written word: word for word where both lists are equally
/// long, else by the cheapest alignment, else (`fallback`) the whole stretch
/// shared out among all written words. `p` are the spoken words, `t` how each
/// written word sounds on its own.
pub open spec fn aligned(p: Seq<Seq<char>>, t: Seq<Seq<char>>) -> (Seq<SlotView>, bool) {
    let vp = voiced_words(p);
    let vt = voiced_words(t);
    if p.len() == 0 || t.len() == 0 {
        (Seq::empty(), false)
    } else if p.len() == t.len() {
        (path_slots(t, 0, 0, Seq::new(p.len(), |k: int| 0int)), false)
    } else if best(vp, vt, 0, 0) < BIG {
        (path_slots(t, 0, 0, traced(vp, vt, 0, 0)), false)
    } else {
        (group_slots(t, 0, 0, p.len() as int, t.len() as int), true)
    }
}

fn is_sounded(c: char) -> (b: bool)
    ensures
        b == sounded(c),
{
    c.is_alphanumeric() || c == 'ˈ' || c == 'ˌ'
}

fn voiced_of(s: &str) -> (r: Vec<char>)
    ensures
        r@ == voiced(s@),
{
    let chars = chars_of(s);
    let mut r: Vec<char> = Vec::new();
    let mut i: usize = 0;
    let ghost keep = |c: char| sounded(c);
    assert(chars@.take(0).filter(keep) =~= Seq::<char>::empty());
    while i < chars.len()
        invariant
            i <= chars.len(),
            keep == |c: char| sounded(c),
            r@ == chars@.take(i as int).filter(keep),
        decreases chars.len() - i,
    {
        let ghost head = chars@.take(i as int);
        proof {
            head.lemma_filter_push(chars@[i as int], keep);
            assert(chars@.take(i + 1) =~= head.push(chars@[i as int]));
        }
        if is_sounded(chars[i]) {
            r.push(chars[i]);
        }
        i += 1;
    }
    assert(chars@.take(i as int) =~= chars@);
    r
}

fn voiced_all(w: &Vec<String>) -> (r: Vec<Vec<char>>)
    ensures
        lists(r@) == voiced_words(texts(w@)),
{
    let mut r: Vec<Vec<char>> = Vec::new();
    let mut i: usize = 0;
    while i < w.len()
        invariant
            i <= w.len(),
            r.len() == i,
            forall|k: int| 0 <= k < i ==> #[trigger] r@[k]@ == voiced(w@[k]@),
        decreases w.len() - i,
    {
        r.push(voiced_of(w[i].as_str()));
        i += 1;
    }
    assert(lists(r@) =~= voiced_words(texts(w@)));
    r
}

fn join_words(w: &Vec<Vec<char>>, i: usize, n: usize) -> (r: Vec<char>)
    requires
        i + n <= w.len(),
    ensures
        r@ == joined(lists(w@), i as int, i + n),
{
    let mut r: Vec<char> = Vec::new();
    let mut k: usize = 0;
    assert(lists(w@).subrange(i as int, i + 0) =~= Seq::empty());
    while k < n
        invariant
            k <= n,
            i + n <= w.len(),
            r@ == joined(lists(w@), i as int, i + k),
        decreases n - k,
    {
        let ghost head = lists(w@).subrange(i as int, i + k);
        let mut word = w[i + k].clone();
        assert(word@ =~= w@[i + k]@);
        r.append(&mut word);
        proof {
            head.lemma_flatten_push(w@[i + k]@);
            assert(lists(w@).subrange(i as int, i + k + 1) =~= head.push(w@[i + k]@));
        }
        k += 1;
    }
    r
}

/// The cost and the move chosen at one place of the table; `(0, 0)` where no
/// move leads on.
struct Cell {
    cost: usize,
    a: usize,
    b: usize,
}

spec fn cell_is(c: Cell, p: Seq<Seq<char>>, t: Seq<Seq<char>>, i: int, j: int) -> bool {
    &&& c.cost == best(p, t, i, j)
    &&& !(i == p.len() && j == t.len()) ==> {
        let k = best_of(p, t, i, j, MOVES as int).1;
        if k >= 0 {
            c.a == move_of(k).0 && c.b == move_of(k).1
        } else {
            c.a == 0 && c.b == 0
        }
    }
}

/// The row of the table for `i`, kept from its last column to its first.
spec fn row_is(row: Seq<Cell>, p: Seq<Seq<char>>, t: Seq<Seq<char>>, i: int) -> bool {
    forall|q: int| 0 <= q < row.len() ==> cell_is(#[trigger] row[q], p, t, i, t.len() - q)
}

spec fn rows_are(rows: Seq<Vec<Cell>>, p: Seq<Seq<char>>, t: Seq<Seq<char>>) -> bool {
    forall|q: int|
        0 <= q < rows.len() ==> {
            &&& (#[trigger] rows[q])@.len() == t.len() + 1
            &&& row_is(rows[q]@, p, t, p.len() - q)
        }
}

/// One place of the table, from the rows below it and the places after it.
fn cell(p: &Vec<Vec<char>>, t: &Vec<Vec<char>>, i: usize, j: usize, rows: &Vec<Vec<Cell>>) -> (c:
    Cell)
    requires
        i <= p.len(),
        j <= t.len(),
        rows.len() == p.len() - i,
        rows_are(rows@, lists(p@), lists(t@)),
    ensures
        cell_is(c, lists(p@), lists(t@), i as int, j as int),
{
    let ghost vp = lists(p@);
    let ghost vt = lists(t@);
    let n: usize = p.len();
    let m: usize = t.len();
    if i == n && j == m {
        return Cell { cost: 0, a: 0, b: 0 };
    }
    let mut c = Cell { cost: BIG, a: 0, b: 0 };
    let mut k: usize = 0;
    while k < MOVES
        invariant
            k <= MOVES,
            n == p.len(),
            m == t.len(),
            vp == lists(p@),
            vt == lists(t@),
            i <= n,
            j <= m,
            rows.len() == n - i,
            rows_are(rows@, vp, vt),
            c.cost == best_of(vp, vt, i as int, j as int, k as int).0,
            ({
                let w = best_of(vp, vt, i as int, j as int, k as int).1;
                if w >= 0 {
                    c.a == move_of(w).0 && c.b == move_of(w).1
                } else {
                    c.a == 0 && c.b == 0
                }
            }),
        decreases MOVES - k,
    {
        let (a, b) = nth_move(k);
        if a <= n - i && b <= m - j {
            assert(rows@[n - (i + a)]@.len() == m + 1);
            assert(row_is(rows@[n - (i + a)]@, vp, vt, i + a));
            let next: usize = rows[n - (i + a)][m - (j + b)].cost;
            assert(cell_is(rows@[n - (i + a)]@[m - (j + b)], vp, vt, i + a, j + b));
            if next < BIG {
                let spoken = join_words(p, i, a);
                let written = join_words(t, j, b);
                let d: usize = edit_distance(spoken.as_slice(), written.as_slice());
                let extra: usize = 2 * (a + b - 2);
                let cost: usize = d.saturating_add(extra).saturating_add(next);
                if cost < c.cost {
                    c = Cell { cost, a, b };
                }
            }
        }
        k += 1;
    }
    c
}

/// The whole table, from its last row to its first.
fn table(p: &Vec<Vec<char>>, t: &Vec<Vec<char>>) -> (rows: Vec<Vec<Cell>>)
    ensures
        rows@.len() == p.len() + 1,
        rows_are(rows@, lists(p@), lists(t@)),
{
    let mut rows: Vec<Vec<Cell>> = Vec::new();
    let mut i: usize = p.len();
    loop
        invariant_except_break
            i <= p.len(),
            rows@.len() == p.len() - i,
            rows_are(rows@, lists(p@), lists(t@)),
        ensures
            rows@.len() == p.len() + 1,
            rows_are(rows@, lists(p@), lists(t@)),
        decreases i,
    {
        let mut row: Vec<Cell> = Vec::new();
        let mut j: usize = t.len();
        loop
            invariant_except_break
                j <= t.len(),
                row@.len() == t.len() - j,
                row_is(row@, lists(p@), lists(t@), i as int),
            invariant
                i <= p.len(),
                rows@.len() == p.len() - i,
                rows_are(rows@, lists(p@), lists(t@)),
            ensures
                row@.len() == t.len() + 1,
                row_is(row@, lists(p@), lists(t@), i as int),
            decreases j,
        {
            let c = cell(p, t, i, j, &rows);
            row.push(c);
            if j == 0 {
                break ;
            }
            j -= 1;
        }
        rows.push(row);
        if i == 0 {
            break ;
        }
        i -= 1;
    }
    rows
}

/// Do these slots follow the text? Each lies in order within the spoken words,
/// none goes back before the one ahead of it, and words that share a stretch
/// are numbered within it.
pub open spec fn in_order(s: Seq<SlotView>, from: int, to: int) -> bool {
    &&& forall|k: int|
        0 <= k < s.len() ==> {
            let x = #[trigger] s[k];
            &&& from <= x.first <= x.last < to
            &&& 0 <= x.index < x.count
            &&& 1 <= x.part <= x.total
        }
    &&& forall|k: int, l: int|
        #![trigger s[k], s[l]]
        0 <= k < l < s.len() ==> {
            ||| s[k].last < s[l].first
            ||| (s[k].first == s[l].first && s[k].last == s[l].last && s[k].count == s[l].count
                && s[k].index < s[l].index)
        }
}

proof fn lemma_weights(t: Seq<Seq<char>>, a: int, b: int, k: int)
    requires
        a <= k < b,
    ensures
        weight(t[k]) <= weights(t, a, b),
    decreases b - a,
{
    if k < b - 1 {
        lemma_weights(t, a, b - 1, k);
    }
}

proof fn lemma_group_in_order(t: Seq<Seq<char>>, i: int, j: int, a: int, b: int)
    requires
        a > 0,
        b > 0,
    ensures
        in_order(group_slots(t, i, j, a, b), i, i + a),
        group_slots(t, i, j, a, b).len() == b,
{
    let s = group_slots(t, i, j, a, b);
    assert forall|k: int| 0 <= k < s.len() implies {
        let x = #[trigger] s[k];
        &&& i <= x.first <= x.last < i + a
        &&& 0 <= x.index < x.count
        &&& 1 <= x.part <= x.total
    } by {
        lemma_weights(t, j, j + b, j + k);
    }
}

proof fn lemma_path_in_order(
    p: Seq<Seq<char>>,
    w: Seq<Seq<char>>,
    t: Seq<Seq<char>>,
    i: int,
    j: int,
    path: Seq<int>,
)
    requires
        is_alignment(p, w, i, j, path),
        w.len() == t.len(),
    ensures
        in_order(path_slots(t, i, j, path), i, p.len() as int),
        path_slots(t, i, j, path).len() == t.len() - j,
        i < p.len() ==> path.len() > 0 && path_slots(t, i, j, path).len() > 0 && path_slots(
            t,
            i,
            j,
            path,
        )[0].first == i && path_slots(t, i, j, path).last().last == p.len() - 1,
    decreases path.len(),
{
    if path.len() > 0 {
        let (a, b) = move_of(path[0]);
        let rest = path.drop_first();
        lemma_path_in_order(p, w, t, i + a, j + b, rest);
        lemma_group_in_order(t, i, j, a, b);
        lemma_alignment_end(p, w, i + a, j + b, rest);
        let front = group_slots(t, i, j, a, b);
        let back = path_slots(t, i + a, j + b, rest);
        let s = front + back;
        assert(path_slots(t, i, j, path) == s);
        assert forall|k: int, l: int|
            #![trigger s[k], s[l]]
            0 <= k < l < s.len() implies {
            ||| s[k].last < s[l].first
            ||| (s[k].first == s[l].first && s[k].last == s[l].last && s[k].count == s[l].count
                && s[k].index < s[l].index)
        } by {
            if l < front.len() {
                assert(s[k] == front[k] && s[l] == front[l]);
            } else if k >= front.len() {
                assert(s[k] == back[k - front.len()] && s[l] == back[l - front.len()]);
            } else {
                assert(s[k] == front[k] && s[l] == back[l - front.len()]);
            }
        }
        assert forall|k: int| 0 <= k < s.len() implies {
            let x = #[trigger] s[k];
            &&& i <= x.first <= x.last < p.len()
            &&& 0 <= x.index < x.count
            &&& 1 <= x.part <= x.total
        } by {
            if k < front.len() {
                assert(s[k] == front[k]);
            } else {
                assert(s[k] == back[k - front.len()]);
            }
        }
        if back.len() > 0 {
            assert(s.last() == back.last());
        } else {
            assert(s.last() == front.last());
        }
    }
}

proof fn lemma_one_to_one(p: Seq<Seq<char>>, t: Seq<Seq<char>>, i: int)
    requires
        p.len() == t.len(),
        0 <= i <= p.len(),
    ensures
        is_alignment(p, t, i, i, Seq::new((p.len() - i) as nat, |k: int| 0int)),
    decreases p.len() - i,
{
    let path = Seq::new((p.len() - i) as nat, |k: int| 0int);
    if i < p.len() {
        lemma_one_to_one(p, t, i + 1);
        assert(path.drop_first() =~= Seq::new((p.len() - i - 1) as nat, |k: int| 0int));
    }
}

/// Where something was spoken and something is written, every written word gets
/// a slot, the slots follow the text, and together they span everything spoken.
pub proof fn lemma_every_word_is_timed(p: Seq<Seq<char>>, t: Seq<Seq<char>>)
    requires
        p.len() > 0,
        t.len() > 0,
    ensures
        aligned(p, t).0.len() == t.len(),
        in_order(aligned(p, t).0, 0, p.len() as int),
        aligned(p, t).0[0].first == 0,
        aligned(p, t).0.last().last == p.len() - 1,
{
    let vp = voiced_words(p);
    let vt = voiced_words(t);
    if p.len() == t.len() {
        lemma_one_to_one(p, t, 0);
        lemma_path_in_order(p, t, t, 0, 0, Seq::new(p.len(), |k: int| 0int));
    } else if best(vp, vt, 0, 0) < BIG {
        lemma_traced_is_best(vp, vt, 0, 0);
        lemma_path_in_order(vp, vt, t, 0, 0, traced(vp, vt, 0, 0));
    } else {
        lemma_group_in_order(t, 0, 0, p.len() as int, t.len() as int);
    }
}

/// The slots of one group, behind those already made.
fn push_group(slots: &mut Vec<Slot>, t: &Vec<Vec<char>>, i: usize, j: usize, a: usize, b: usize)
    requires
        j + b <= t.len(),
        a > 0,
        i + a <= usize::MAX,
    ensures
        slot_views(final(slots)@) == slot_views(old(slots)@) + group_slots(
            lists(t@),
            i as int,
            j as int,
            a as int,
            b as int,
        ),
{
    let ghost vt = lists(t@);
    let mut total: u128 = 0;
    let mut k: usize = 0;
    while k < b
        invariant
            k <= b,
            j + b <= t.len(),
            vt == lists(t@),
            total == weights(vt, j as int, j + k),
            total <= k * 0xffff_ffff_ffff_ffff,
        decreases b - k,
    {
        let len: u64 = word_weight(&t[j + k]);
        assert(vt[j + k] == t@[j + k]@);
        total = total + len as u128;
        k += 1;
    }
    let mut k: usize = 0;
    while k < b
        invariant
            k <= b,
            j + b <= t.len(),
            a > 0,
            i + a <= usize::MAX,
            vt == lists(t@),
            total == weights(vt, j as int, j + b),
            slot_views(slots@) == slot_views(old(slots)@) + group_slots(
                vt,
                i as int,
                j as int,
                a as int,
                b as int,
            ).take(k as int),
        decreases b - k,
    {
        let ghost before = slots@;
        let part: u64 = word_weight(&t[j + k]);
        let slot = Slot { first: i, last: i + (a - 1), index: k, count: b, part, total };
        slots.push(slot);
        proof {
            let g = group_slots(vt, i as int, j as int, a as int, b as int);
            assert(vt[j + k] == t@[j + k]@);
            assert(slot@ =~= g[k as int]);
            assert(slot_views(slots@) =~= slot_views(before).push(slot@));
            assert(g.take(k + 1) =~= g.take(k as int).push(g[k as int]));
        }
        k += 1;
    }
    proof {
        let g = group_slots(vt, i as int, j as int, a as int, b as int);
        assert(g.take(b as int) =~= g);
    }
}

fn word_weight(w: &Vec<char>) -> (n: u64)
    ensures
        n == weight(w@),
        n >= 1,
{
    if w.len() == 0 {
        1
    } else {
        w.len() as u64
    }
}

/// The slots of all written words.
#[derive(Debug)]
pub struct Alignment {
    pub slots: Vec<Slot>,
    /// Was there no alignment, so that all words share the whole stretch?
    pub fallback: bool,
}

/// Match spoken words with written words. `spoken` holds the phonemes of each
/// spoken word, `solos` how each written word sounds on its own.
pub fn align(spoken: &Vec<String>, solos: &Vec<String>) -> (r: Alignment)
    ensures
        (slot_views(r.slots@), r.fallback) == aligned(texts(spoken@), texts(solos@)),
{
    let ghost p = texts(spoken@);
    let ghost t = texts(solos@);
    let n: usize = spoken.len();
    let m: usize = solos.len();
    let mut slots: Vec<Slot> = Vec::new();
    if n == 0 || m == 0 {
        assert(slot_views(slots@) =~= Seq::empty());
        return Alignment { slots, fallback: false };
    }
    let plain = chars_of_all(solos);
    assert(lists(plain@).len() == plain@.len());
    if n == m {
        let ghost path = Seq::new(p.len(), |k: int| 0int);
        let mut k: usize = 0;
        assert(path.skip(0) =~= path);
        assert(slot_views(slots@) + path_slots(t, 0, 0, path) =~= path_slots(t, 0, 0, path));
        while k < n
            invariant
                k <= n,
                n == m,
                n == p.len(),
                m == plain.len(),
                lists(plain@) == t,
                path == Seq::new(p.len(), |k: int| 0int),
                slot_views(slots@) + path_slots(t, k as int, k as int, path.skip(k as int))
                    == path_slots(t, 0, 0, path),
            decreases n - k,
        {
            let ghost before = slots@;
            push_group(&mut slots, &plain, k, k, 1, 1);
            proof {
                let rest = path.skip(k as int);
                assert(rest[0] == 0);
                assert(rest.drop_first() =~= path.skip(k + 1));
                assert(slot_views(before) + path_slots(t, k as int, k as int, rest) =~= slot_views(
                    slots@,
                ) + path_slots(t, k + 1, k + 1, path.skip(k + 1)));
            }
            k += 1;
        }
        assert(path.skip(n as int) =~= Seq::empty());
        assert(slot_views(slots@) + path_slots(t, n as int, n as int, path.skip(n as int))
            =~= slot_views(slots@));
        return Alignment { slots, fallback: false };
    }
    let sp = voiced_all(spoken);
    let st = voiced_all(solos);
    let ghost vp = voiced_words(p);
    let ghost vt = voiced_words(t);
    assert(lists(sp@).len() == sp@.len());
    assert(lists(st@).len() == st@.len());
    let rows = table(&sp, &st);
    assert(rows_are(rows@, vp, vt));
    assert(rows@[n as int]@.len() == m + 1);
    assert(row_is(rows@[n as int]@, vp, vt, 0));
    assert(cell_is(rows@[n as int]@[m as int], vp, vt, 0, 0));
    if rows[n][m].cost >= BIG {
        push_group(&mut slots, &plain, 0, 0, n, m);
        assert(slot_views(slots@) =~= group_slots(t, 0, 0, n as int, m as int));
        return Alignment { slots, fallback: true };
    }
    let ghost whole = path_slots(t, 0, 0, traced(vp, vt, 0, 0));
    let mut i: usize = 0;
    let mut j: usize = 0;
    assert(slot_views(slots@) + whole =~= whole);
    while i < n || j < m
        invariant
            i <= n,
            j <= m,
            n == p.len(),
            m == plain.len(),
            vp == voiced_words(p),
            vt == voiced_words(t),
            vp.len() == n,
            vt.len() == m,
            lists(plain@) == t,
            rows@.len() == n + 1,
            rows_are(rows@, vp, vt),
            best(vp, vt, i as int, j as int) < BIG,
            slot_views(slots@) + path_slots(
                t,
                i as int,
                j as int,
                traced(vp, vt, i as int, j as int),
            ) == whole,
        decreases (n - i) + (m - j),
    {
        let ghost k = best_of(vp, vt, i as int, j as int, MOVES as int).1;
        proof {
            lemma_best_of(vp, vt, i as int, j as int, MOVES as int);
            assert(rows@[n - i]@.len() == m + 1);
            assert(row_is(rows@[n - i]@, vp, vt, i as int));
            assert(cell_is(rows@[n - i]@[m - j], vp, vt, i as int, j as int));
        }
        let a: usize = rows[n - i][m - j].a;
        let b: usize = rows[n - i][m - j].b;
        let ghost before = slots@;
        push_group(&mut slots, &plain, i, j, a, b);
        proof {
            let path = traced(vp, vt, i as int, j as int);
            let rest = traced(vp, vt, i + a, j + b);
            assert(path == seq![k] + rest);
            assert(path.drop_first() =~= rest);
            assert(slot_views(before) + path_slots(t, i as int, j as int, path) =~= slot_views(
                slots@,
            ) + path_slots(t, i + a, j + b, rest));
        }
        i += a;
        j += b;
    }
    assert(traced(vp, vt, i as int, j as int) =~= Seq::empty());
    assert(slot_views(slots@) + path_slots(t, i as int, j as int, Seq::empty()) =~= slot_views(
        slots@,
    ));
    Alignment { slots, fallback: false }
}

/// The sounds of words that are spoken or written as one.
spec fn sounds(w: Seq<Seq<char>>, a: int, b: int) -> Seq<char> {
    w.subrange(a, b).flatten().filter(|c: char| alphanumeric(c) || c == 'ˈ' || c == 'ˌ')
}

proof fn lemma_sounds(w: Seq<Seq<char>>, a: int, b: int)
    requires
        0 <= a <= b <= w.len(),
    ensures
        joined(voiced_words(w), a, b) == sounds(w, a, b),
    decreases b - a,
{
    let keep = |c: char| sounded(c);
    let v = voiced_words(w);
    assert(keep =~= |c: char| alphanumeric(c) || c == 'ˈ' || c == 'ˌ');
    if a == b {
        assert(w.subrange(a, b) =~= Seq::<Seq<char>>::empty());
        assert(v.subrange(a, b) =~= Seq::<Seq<char>>::empty());
        assert(joined(v, a, b) =~= Seq::<char>::empty()) by {
            reveal(Seq::flatten);
        }
        assert(sounds(w, a, b) =~= Seq::<char>::empty()) by {
            reveal(Seq::flatten);
            reveal(Seq::filter);
        }
    } else {
        lemma_sounds(w, a, b - 1);
        let head = w.subrange(a, b - 1);
        assert(w.subrange(a, b) =~= head.push(w[b - 1]));
        assert(v.subrange(a, b) =~= v.subrange(a, b - 1).push(v[b - 1]));
        head.lemma_flatten_push(w[b - 1]);
        v.subrange(a, b - 1).lemma_flatten_push(v[b - 1]);
        lemma_filter_append(head.flatten(), w[b - 1], keep);
    }
}

/// One step of a grouping: one spoken word for up to three written ones, or one written
/// word for up to three spoken ones.
spec fn is_step(da: int, db: int) -> bool {
    (da == 1 && 1 <= db <= 3) || (db == 1 && 1 <= da <= 3)
}

/// The running costs of a grouping.
spec fn is_grouping(
    p: Seq<Seq<char>>,
    t: Seq<Seq<char>>,
    x: Seq<int>,
    y: Seq<int>,
    c: Seq<int>,
) -> bool {
    &&& x.len() == y.len() == c.len()
    &&& x.len() >= 1
    &&& x.last() == p.len()
    &&& y.last() == t.len()
    &&& forall|k: int|
        #![trigger x[k + 1]]
        #![trigger y[k + 1]]
        #![trigger c[k + 1]]
        0 <= k < x.len() - 1 ==> {
            &&& is_step(x[k + 1] - x[k], y[k + 1] - y[k])
            &&& c[k + 1] == c[k] + distance(
                sounds(p, x[k], x[k + 1]),
                sounds(t, y[k], y[k + 1]),
            ) + 2 * (x[k + 1] - x[k] + y[k + 1] - y[k] - 2)
        }
}

/// The move that is a step.
spec fn move_for(da: int, db: int) -> int {
    if da == 1 {
        db - 1
    } else {
        da + 1
    }
}

spec fn moves_of(x: Seq<int>, y: Seq<int>) -> Seq<int> {
    Seq::new((x.len() - 1) as nat, |k: int| move_for(x[k + 1] - x[k], y[k + 1] - y[k]))
}

proof fn lemma_grouping_starts_inside(
    p: Seq<Seq<char>>,
    t: Seq<Seq<char>>,
    x: Seq<int>,
    y: Seq<int>,
    c: Seq<int>,
    k: int,
)
    requires
        is_grouping(p, t, x, y, c),
        0 <= k < x.len(),
    ensures
        x[k] <= p.len(),
        y[k] <= t.len(),
        c[k] <= c.last(),
        k < x.len() - 1 ==> x[k] < p.len() && y[k] < t.len(),
    decreases x.len() - k,
{
    if k < x.len() - 1 {
        assert(is_step(x[k + 1] - x[k], y[k + 1] - y[k]));
        lemma_grouping_starts_inside(p, t, x, y, c, k + 1);
    }
}

proof fn lemma_grouping_rises(
    p: Seq<Seq<char>>,
    t: Seq<Seq<char>>,
    x: Seq<int>,
    y: Seq<int>,
    c: Seq<int>,
    k: int,
)
    requires
        is_grouping(p, t, x, y, c),
        x[0] == 0,
        y[0] == 0,
        0 <= k < x.len(),
    ensures
        0 <= x[k],
        0 <= y[k],
    decreases k,
{
    if k > 0 {
        lemma_grouping_rises(p, t, x, y, c, k - 1);
        assert(is_step(x[k - 1 + 1] - x[k - 1], y[k - 1 + 1] - y[k - 1]));
    }
}

/// A grouping is an alignment, and costs what its steps cost.
proof fn lemma_grouping_is_alignment(
    p: Seq<Seq<char>>,
    t: Seq<Seq<char>>,
    x: Seq<int>,
    y: Seq<int>,
    c: Seq<int>,
    k: int,
)
    requires
        is_grouping(p, t, x, y, c),
        x[0] == 0,
        y[0] == 0,
        0 <= k < x.len(),
    ensures
        is_alignment(voiced_words(p), voiced_words(t), x[k], y[k], moves_of(x, y).skip(k)),
        path_cost(voiced_words(p), voiced_words(t), x[k], y[k], moves_of(x, y).skip(k))
            == c.last() - c[k],
    decreases x.len() - k,
{
    let path = moves_of(x, y);
    let rest = path.skip(k);
    if k == x.len() - 1 {
        assert(rest =~= Seq::<int>::empty());
    } else {
        lemma_grouping_is_alignment(p, t, x, y, c, k + 1);
        lemma_grouping_starts_inside(p, t, x, y, c, k + 1);
        lemma_grouping_rises(p, t, x, y, c, k);
        assert(is_step(x[k + 1] - x[k], y[k + 1] - y[k]));
        assert(rest[0] == path[k]);
        assert(rest.drop_first() =~= path.skip(k + 1));
        assert(move_of(rest[0]) == (x[k + 1] - x[k], y[k + 1] - y[k]));
        lemma_sounds(p, x[k], x[k + 1]);
        lemma_sounds(t, y[k], y[k + 1]);
    }
}

/// Where the groups of a path begin among the spoken words, and where the last ends.
spec fn spoken_cuts(i: int, path: Seq<int>) -> Seq<int>
    decreases path.len(),
{
    if path.len() == 0 {
        seq![i]
    } else {
        seq![i] + spoken_cuts(i + move_of(path[0]).0, path.drop_first())
    }
}

/// Where they begin among the written words.
spec fn written_cuts(j: int, path: Seq<int>) -> Seq<int>
    decreases path.len(),
{
    if path.len() == 0 {
        seq![j]
    } else {
        seq![j] + written_cuts(j + move_of(path[0]).1, path.drop_first())
    }
}

proof fn lemma_cuts(i: int, j: int, path: Seq<int>)
    requires
        forall|k: int| 0 <= k < path.len() ==> 0 <= #[trigger] path[k] < MOVES,
    ensures
        spoken_cuts(i, path).len() == path.len() + 1,
        written_cuts(j, path).len() == path.len() + 1,
        spoken_cuts(i, path)[0] == i,
        written_cuts(j, path)[0] == j,
        forall|k: int|
            #![trigger path[k]]
            0 <= k < path.len() ==> move_of(path[k]) == (
                spoken_cuts(i, path)[k + 1] - spoken_cuts(i, path)[k],
                written_cuts(j, path)[k + 1] - written_cuts(j, path)[k],
            ),
        forall|k: int| 0 <= k < path.len() + 1 ==> j <= #[trigger] written_cuts(j, path)[k],
    decreases path.len(),
{
    if path.len() > 0 {
        let (a, b) = move_of(path[0]);
        let later = path.drop_first();
        assert forall|k: int| 0 <= k < later.len() implies 0 <= #[trigger] later[k] < MOVES by {
            assert(later[k] == path[k + 1]);
        }
        lemma_cuts(i + a, j + b, later);
        let (u, v) = (spoken_cuts(i + a, later), written_cuts(j + b, later));
        let (x, y) = (spoken_cuts(i, path), written_cuts(j, path));
        assert(x == seq![i] + u);
        assert(y == seq![j] + v);
        assert forall|k: int|
            #![trigger path[k]]
            0 <= k < path.len() implies move_of(path[k]) == (x[k + 1] - x[k], y[k + 1] - y[k]) by {
            assert(x[k + 1] == u[k] && y[k + 1] == v[k]);
            if k > 0 {
                assert(path[k] == later[k - 1]);
                assert(x[k] == u[k - 1] && y[k] == v[k - 1]);
            }
        }
        assert forall|k: int| 0 <= k < path.len() + 1 implies j <= #[trigger] y[k] by {
            if k > 0 {
                assert(y[k] == v[k - 1]);
            }
        }
    }
}

proof fn lemma_alignment_moves(
    p: Seq<Seq<char>>,
    t: Seq<Seq<char>>,
    i: int,
    j: int,
    path: Seq<int>,
)
    requires
        is_alignment(p, t, i, j, path),
    ensures
        forall|k: int| 0 <= k < path.len() ==> 0 <= #[trigger] path[k] < MOVES,
    decreases path.len(),
{
    if path.len() > 0 {
        let (a, b) = move_of(path[0]);
        let later = path.drop_first();
        lemma_alignment_moves(p, t, i + a, j + b, later);
        assert forall|k: int| 0 <= k < path.len() implies 0 <= #[trigger] path[k] < MOVES by {
            if k > 0 {
                assert(path[k] == later[k - 1]);
            }
        }
    }
}

/// A path of moves is a grouping, its costs counted from `c0` on.
proof fn lemma_path_is_grouping(
    p: Seq<Seq<char>>,
    t: Seq<Seq<char>>,
    i: int,
    j: int,
    path: Seq<int>,
    c0: int,
) -> (c: Seq<int>)
    requires
        0 <= i,
        0 <= j,
        is_alignment(voiced_words(p), voiced_words(t), i, j, path),
    ensures
        is_grouping(p, t, spoken_cuts(i, path), written_cuts(j, path), c),
        spoken_cuts(i, path)[0] == i,
        written_cuts(j, path)[0] == j,
        c[0] == c0,
        c.last() == c0 + path_cost(voiced_words(p), voiced_words(t), i, j, path),
    decreases path.len(),
{
    let (vp, vt) = (voiced_words(p), voiced_words(t));
    if path.len() == 0 {
        seq![c0]
    } else {
        let (a, b) = move_of(path[0]);
        let cost = move_cost(vp, vt, i, j, path[0]);
        let later = path.drop_first();
        lemma_alignment_end(vp, vt, i + a, j + b, later);
        let rest = lemma_path_is_grouping(p, t, i + a, j + b, later, c0 + cost);
        lemma_sounds(p, i, i + a);
        lemma_sounds(t, j, j + b);
        lemma_grouping_prepend(
            p,
            t,
            spoken_cuts(i + a, later),
            written_cuts(j + b, later),
            rest,
            i,
            j,
            c0,
        );
        seq![c0] + rest
    }
}

/// The slot of the written word `j + u`, which stands in group `k`.
proof fn lemma_slot_of_group(t: Seq<Seq<char>>, i: int, j: int, path: Seq<int>, k: int, u: int)
    requires
        forall|k: int| 0 <= k < path.len() ==> 0 <= #[trigger] path[k] < MOVES,
        0 <= k < path.len(),
        written_cuts(j, path)[k] <= j + u < written_cuts(j, path)[k + 1],
    ensures
        0 <= u < path_slots(t, i, j, path).len(),
        path_slots(t, i, j, path)[u] == (SlotView {
            first: spoken_cuts(i, path)[k],
            last: spoken_cuts(i, path)[k + 1] - 1,
            index: j + u - written_cuts(j, path)[k],
            count: written_cuts(j, path)[k + 1] - written_cuts(j, path)[k],
            part: weight(t[j + u]),
            total: weights(t, written_cuts(j, path)[k], written_cuts(j, path)[k + 1]),
        }),
    decreases path.len(),
{
    let (a, b) = move_of(path[0]);
    let later = path.drop_first();
    assert forall|k: int| 0 <= k < later.len() implies 0 <= #[trigger] later[k] < MOVES by {
        assert(later[k] == path[k + 1]);
    }
    lemma_cuts(i, j, path);
    lemma_cuts(i + a, j + b, later);
    let front = group_slots(t, i, j, a, b);
    let back = path_slots(t, i + a, j + b, later);
    assert(path_slots(t, i, j, path) == front + back);
    assert(written_cuts(j, path)[k + 1] == written_cuts(j + b, later)[k]);
    assert(spoken_cuts(i, path)[k + 1] == spoken_cuts(i + a, later)[k]);
    if k > 0 {
        assert(written_cuts(j, path)[k] == written_cuts(j + b, later)[k - 1]);
        assert(spoken_cuts(i, path)[k] == spoken_cuts(i + a, later)[k - 1]);
        lemma_slot_of_group(t, i + a, j + b, later, k - 1, u - b);
        assert((front + back)[u] == back[u - b]);
    } else {
        assert((front + back)[u] == front[u]);
    }
}

proof fn lemma_grouping_prepend(
    p: Seq<Seq<char>>,
    t: Seq<Seq<char>>,
    x: Seq<int>,
    y: Seq<int>,
    c: Seq<int>,
    i: int,
    j: int,
    c0: int,
)
    requires
        is_grouping(p, t, x, y, c),
        is_step(x[0] - i, y[0] - j),
        c[0] == c0 + distance(sounds(p, i, x[0]), sounds(t, j, y[0])) + 2 * (x[0] - i + y[0] - j
            - 2),
    ensures
        is_grouping(p, t, seq![i] + x, seq![j] + y, seq![c0] + c),
{
    let (x2, y2, c2) = (seq![i] + x, seq![j] + y, seq![c0] + c);
    assert forall|k: int|
        #![trigger x2[k + 1]]
        #![trigger y2[k + 1]]
        #![trigger c2[k + 1]]
        0 <= k < x2.len() - 1 implies {
        &&& is_step(x2[k + 1] - x2[k], y2[k + 1] - y2[k])
        &&& c2[k + 1] == c2[k] + distance(
            sounds(p, x2[k], x2[k + 1]),
            sounds(t, y2[k], y2[k + 1]),
        ) + 2 * (x2[k + 1] - x2[k] + y2[k + 1] - y2[k] - 2)
    } by {
        assert(x2[k + 1] == x[k] && y2[k + 1] == y[k] && c2[k + 1] == c[k]);
        if k > 0 {
            assert(x2[k] == x[k - 1] && y2[k] == y[k - 1] && c2[k] == c[k - 1]);
            assert(is_step(x[k - 1 + 1] - x[k - 1], y[k - 1 + 1] - y[k - 1]));
        }
    }
}

/// Of equally cheap alignments the traced one takes the earlier move where they part.
proof fn lemma_traced_is_first(
    p: Seq<Seq<char>>,
    t: Seq<Seq<char>>,
    i: int,
    j: int,
    path: Seq<int>,
) -> (k: int)
    requires
        best(p, t, i, j) < BIG,
        is_alignment(p, t, i, j, path),
        path_cost(p, t, i, j, path) == best(p, t, i, j),
    ensures
        path == traced(p, t, i, j) || {
            &&& 0 <= k < path.len()
            &&& k < traced(p, t, i, j).len()
            &&& path.take(k) == traced(p, t, i, j).take(k)
            &&& traced(p, t, i, j)[k] < path[k]
        },
    decreases path.len(),
{
    let w = traced(p, t, i, j);
    lemma_traced_is_best(p, t, i, j);
    lemma_best_of(p, t, i, j, MOVES as int);
    if path.len() == 0 {
        assert(w =~= path);
        0
    } else {
        let (a, b) = move_of(path[0]);
        let rest = path.drop_first();
        lemma_best_is_least(p, t, i + a, j + b, rest);
        lemma_alignment_end(p, t, i + a, j + b, rest);
        assert(fits(p, t, i, j, path[0]));
        assert(best(p, t, i + a, j + b) < BIG);
        let k0 = best_of(p, t, i, j, MOVES as int).1;
        let (a0, b0) = move_of(k0);
        assert(w == seq![k0] + traced(p, t, i + a0, j + b0));
        if k0 == path[0] {
            let k = lemma_traced_is_first(p, t, i + a, j + b, rest);
            let v = traced(p, t, i + a, j + b);
            assert(w.drop_first() =~= v);
            if rest == v {
                assert(path =~= w);
                0
            } else {
                assert(path.take(k + 1) =~= seq![k0] + rest.take(k));
                assert(w.take(k + 1) =~= seq![k0] + v.take(k));
                assert(path[k + 1] == rest[k]);
                assert(w[k + 1] == v[k]);
                k + 1
            }
        } else {
            assert(path.take(0) =~= w.take(0));
            0
        }
    }
}

/// The grouping that the slots of an alignment come from.
proof fn lemma_aligned_groups(p: Seq<Seq<char>>, t: Seq<Seq<char>>) -> (r: (
    Seq<int>,
    Seq<int>,
    Seq<int>,
))
    requires
        p.len() > 0,
        t.len() > 0,
        p.len() != t.len(),
        best(voiced_words(p), voiced_words(t), 0, 0) < BIG,
    ensures
        !aligned(p, t).1,
        is_grouping(p, t, r.0, r.1, r.2),
        r.0[0] == 0 && r.1[0] == 0 && r.2[0] == 0,
        r.2.last() == best(voiced_words(p), voiced_words(t), 0, 0),
        r.0 == spoken_cuts(0, traced(voiced_words(p), voiced_words(t), 0, 0)),
        r.1 == written_cuts(0, traced(voiced_words(p), voiced_words(t), 0, 0)),
        forall|k: int, v: int|
            #![trigger r.1[k], aligned(p, t).0[v]]
            0 <= k < r.0.len() - 1 && r.1[k] <= v < r.1[k + 1] ==> aligned(p, t).0[v]
                == (SlotView {
                first: r.0[k],
                last: r.0[k + 1] - 1,
                index: v - r.1[k],
                count: r.1[k + 1] - r.1[k],
                part: weight(t[v]),
                total: weights(t, r.1[k], r.1[k + 1]),
            }),
{
    let (vp, vt) = (voiced_words(p), voiced_words(t));
    let path = traced(vp, vt, 0, 0);
    lemma_traced_is_best(vp, vt, 0, 0);
    lemma_alignment_moves(vp, vt, 0, 0, path);
    let c = lemma_path_is_grouping(p, t, 0, 0, path, 0);
    let (x, y) = (spoken_cuts(0, path), written_cuts(0, path));
    lemma_cuts(0, 0, path);
    assert forall|k: int, v: int|
        #![trigger y[k], aligned(p, t).0[v]]
        0 <= k < x.len() - 1 && y[k] <= v < y[k + 1] implies aligned(p, t).0[v] == (SlotView {
        first: x[k],
        last: x[k + 1] - 1,
        index: v - y[k],
        count: y[k + 1] - y[k],
        part: weight(t[v]),
        total: weights(t, y[k], y[k + 1]),
    }) by {
        lemma_slot_of_group(t, 0, 0, path, k, v);
    }
    (x, y, c)
}

/// Up to three shares together.
proof fn lemma_few_weights(t: Seq<Seq<char>>, a: int, b: int)
    requires
        1 <= b - a <= 3,
    ensures
        weights(t, a, b) == weight(t[a]) + (if b - a >= 2 {
            weight(t[a + 1])
        } else {
            0
        }) + (if b - a >= 3 {
            weight(t[a + 2])
        } else {
            0
        }),
{
    reveal_with_fuel(weights, 4);
}

/// Where two equally cheap groupings part.
proof fn lemma_parting(
    p: Seq<Seq<char>>,
    t: Seq<Seq<char>>,
    x: Seq<int>,
    y: Seq<int>,
    c: Seq<int>,
    u: Seq<int>,
    v: Seq<int>,
)
    requires
        best(voiced_words(p), voiced_words(t), 0, 0) < BIG,
        is_grouping(p, t, x, y, c),
        x[0] == 0 && y[0] == 0 && c[0] == 0,
        c.last() == best(voiced_words(p), voiced_words(t), 0, 0),
        u == spoken_cuts(0, traced(voiced_words(p), voiced_words(t), 0, 0)),
        v == written_cuts(0, traced(voiced_words(p), voiced_words(t), 0, 0)),
    ensures
        (u == x && v == y) || exists|k: int|
            {
                &&& 0 <= k < x.len() - 1
                &&& k < u.len() - 1
                &&& x.take(k + 1) == u.take(k + 1)
                &&& y.take(k + 1) == v.take(k + 1)
                &&& #[trigger] u[k + 1] < x[k + 1] || (u[k + 1] == x[k + 1] && v[k + 1] < y[k + 1])
            },
{
    let (vp, vt) = (voiced_words(p), voiced_words(t));
    let path = moves_of(x, y);
    let w = traced(vp, vt, 0, 0);
    lemma_grouping_is_alignment(p, t, x, y, c, 0);
    assert(path.skip(0) =~= path);
    lemma_traced_is_best(vp, vt, 0, 0);
    lemma_alignment_moves(vp, vt, 0, 0, w);
    lemma_cuts(0, 0, w);
    let k = lemma_traced_is_first(vp, vt, 0, 0, path);
    let n = if path == w {
        path.len() as int
    } else {
        k
    };
    assert(path.take(n) =~= w.take(n));
    lemma_same_moves_same_cuts(p, t, x, y, c, u, v, w, n);
    if path == w {
        assert(x =~= u);
        assert(y =~= v);
    } else {
        assert(x.take(k + 1) =~= u.take(k + 1));
        assert(y.take(k + 1) =~= v.take(k + 1));
        assert(is_step(x[k + 1] - x[k], y[k + 1] - y[k]));
        assert(path[k] == move_for(x[k + 1] - x[k], y[k + 1] - y[k]));
        assert(move_of(w[k]) == (u[k + 1] - u[k], v[k + 1] - v[k]));
        assert(u[k + 1] < x[k + 1] || (u[k + 1] == x[k + 1] && v[k + 1] < y[k + 1]));
    }
}

proof fn lemma_same_moves_same_cuts(
    p: Seq<Seq<char>>,
    t: Seq<Seq<char>>,
    x: Seq<int>,
    y: Seq<int>,
    c: Seq<int>,
    u: Seq<int>,
    v: Seq<int>,
    w: Seq<int>,
    n: int,
)
    requires
        is_grouping(p, t, x, y, c),
        u.len() == w.len() + 1,
        v.len() == w.len() + 1,
        x[0] == u[0],
        y[0] == v[0],
        forall|k: int|
            #![trigger w[k]]
            0 <= k < w.len() ==> move_of(w[k]) == (u[k + 1] - u[k], v[k + 1] - v[k]),
        0 <= n <= w.len(),
        n <= x.len() - 1,
        moves_of(x, y).take(n) == w.take(n),
    ensures
        forall|k: int| 0 <= k <= n ==> #[trigger] x[k] == u[k],
        forall|k: int| 0 <= k <= n ==> #[trigger] y[k] == v[k],
    decreases n,
{
    if n > 0 {
        let path = moves_of(x, y);
        assert(path.take(n - 1) =~= path.take(n).take(n - 1));
        assert(w.take(n - 1) =~= w.take(n).take(n - 1));
        lemma_same_moves_same_cuts(p, t, x, y, c, u, v, w, n - 1);
        assert(path.take(n)[n - 1] == w.take(n)[n - 1]);
        assert(path[n - 1] == w[n - 1]);
        assert(is_step(x[n - 1 + 1] - x[n - 1], y[n - 1 + 1] - y[n - 1]));
        assert(x[n - 1] == u[n - 1]);
        assert(y[n - 1] == v[n - 1]);
    }
}

/// How a group is shared out among its written words.
proof fn lemma_shares(
    p: Seq<Seq<char>>,
    t: Seq<Seq<char>>,
    x: Seq<int>,
    y: Seq<int>,
    c: Seq<int>,
)
    requires
        is_grouping(p, t, x, y, c),
        forall|k: int, v: int|
            #![trigger y[k], aligned(p, t).0[v]]
            0 <= k < x.len() - 1 && y[k] <= v < y[k + 1] ==> aligned(p, t).0[v] == (SlotView {
                first: x[k],
                last: x[k + 1] - 1,
                index: v - y[k],
                count: y[k + 1] - y[k],
                part: weight(t[v]),
                total: weights(t, y[k], y[k + 1]),
            }),
    ensures
        forall|k: int, v: int|
            #![trigger y[k], aligned(p, t).0[v]]
            0 <= k < x.len() - 1 && y[k] <= v < y[k + 1] ==> {
                let slot = aligned(p, t).0[v];
                &&& slot.first == x[k] && slot.last == x[k + 1] - 1
                &&& slot.index == v - y[k] && slot.count == y[k + 1] - y[k]
                &&& slot.part == (if t[v].len() == 0 {
                    1
                } else {
                    t[v].len()
                })
                &&& slot.total == aligned(p, t).0[y[k]].part + (if slot.count >= 2 {
                    aligned(p, t).0[y[k] + 1].part
                } else {
                    0
                }) + (if slot.count >= 3 {
                    aligned(p, t).0[y[k] + 2].part
                } else {
                    0
                })
            },
{
    let s = aligned(p, t).0;
    assert forall|k: int, v: int|
        #![trigger y[k], s[v]]
        0 <= k < x.len() - 1 && y[k] <= v < y[k + 1] implies {
        let slot = s[v];
        &&& slot.first == x[k] && slot.last == x[k + 1] - 1
        &&& slot.index == v - y[k] && slot.count == y[k + 1] - y[k]
        &&& slot.part == (if t[v].len() == 0 {
            1
        } else {
            t[v].len()
        })
        &&& slot.total == s[y[k]].part + (if slot.count >= 2 {
            s[y[k] + 1].part
        } else {
            0
        }) + (if slot.count >= 3 {
            s[y[k] + 2].part
        } else {
            0
        })
    } by {
        assert(is_step(x[k + 1] - x[k], y[k + 1] - y[k]));
        lemma_few_weights(t, y[k], y[k + 1]);
        let first = s[y[k]];
        if y[k + 1] - y[k] >= 2 {
            let second = s[y[k] + 1];
        }
        if y[k + 1] - y[k] >= 3 {
            let third = s[y[k] + 2];
        }
    }
}

/// The slots of an alignment come from its grouping.
proof fn lemma_aligned_shares(p: Seq<Seq<char>>, t: Seq<Seq<char>>) -> (r: (
    Seq<int>,
    Seq<int>,
    Seq<int>,
))
    requires
        p.len() > 0,
        t.len() > 0,
        p.len() != t.len(),
        best(voiced_words(p), voiced_words(t), 0, 0) < BIG,
    ensures
        !aligned(p, t).1,
        is_grouping(p, t, r.0, r.1, r.2),
        r.0[0] == 0 && r.1[0] == 0 && r.2[0] == 0,
        r.2.last() == best(voiced_words(p), voiced_words(t), 0, 0),
        r.0 == spoken_cuts(0, traced(voiced_words(p), voiced_words(t), 0, 0)),
        r.1 == written_cuts(0, traced(voiced_words(p), voiced_words(t), 0, 0)),
        forall|k: int, v: int|
            #![trigger r.1[k], aligned(p, t).0[v]]
            0 <= k < r.0.len() - 1 && r.1[k] <= v < r.1[k + 1] ==> {
                let slot = aligned(p, t).0[v];
                &&& slot.first == r.0[k] && slot.last == r.0[k + 1] - 1
                &&& slot.index == v - r.1[k] && slot.count == r.1[k + 1] - r.1[k]
                &&& slot.part == (if t[v].len() == 0 {
                    1
                } else {
                    t[v].len()
                })
                &&& slot.total == aligned(p, t).0[r.1[k]].part + (if slot.count >= 2 {
                    aligned(p, t).0[r.1[k] + 1].part
                } else {
                    0
                }) + (if slot.count >= 3 {
                    aligned(p, t).0[r.1[k] + 2].part
                } else {
                    0
                })
            },
{
    let r = lemma_aligned_groups(p, t);
    lemma_shares(p, t, r.0, r.1, r.2);
    r
}

/// No grouping costs less than the best alignment.
proof fn lemma_no_cheaper_grouping(
    p: Seq<Seq<char>>,
    t: Seq<Seq<char>>,
    x: Seq<int>,
    y: Seq<int>,
    c: Seq<int>,
)
    requires
        is_grouping(p, t, x, y, c),
        x[0] == 0 && y[0] == 0 && c[0] == 0,
        c.last() < BIG,
    ensures
        best(voiced_words(p), voiced_words(t), 0, 0) <= c.last(),
{
    lemma_grouping_is_alignment(p, t, x, y, c, 0);
    let path = moves_of(x, y);
    assert(path.skip(0) =~= path);
    lemma_best_is_least(voiced_words(p), voiced_words(t), 0, 0, path);
}

/// The words are matched by the cheapest monotonic grouping. Take any way to cut the spoken
/// words at `x` and the written words at `y` into as many groups, each of one spoken word
/// and up to three written ones or of one written word and up to three spoken ones, and let
/// `c` add up its cost: for every group the edit distance between the sounds of its spoken
/// and of its written words, and two for every word beyond one on either side. Then there is
/// a grouping that costs no more, and every written word has the slot that it gives: the
/// spoken words of its group, its place in the group, and its share by length. If both cost
/// the same, they are the same or the slots' grouping takes fewer spoken words, or as many
/// and fewer written ones, where they part.
pub proof fn lemma_cheapest_grouping(
    p: Seq<Seq<char>>,
    t: Seq<Seq<char>>,
    x: Seq<int>,
    y: Seq<int>,
    c: Seq<int>,
) -> (r: (Seq<int>, Seq<int>, Seq<int>))
    requires
        p.len() > 0,
        t.len() > 0,
        p.len() != t.len(),
        x.len() >= 1 && x.len() == y.len() && x.len() == c.len(),
        x[0] == 0 && y[0] == 0 && c[0] == 0,
        x.last() == p.len() && y.last() == t.len(),
        forall|k: int|
            #![trigger x[k + 1]]
            #![trigger y[k + 1]]
            #![trigger c[k + 1]]
            0 <= k < x.len() - 1 ==> {
                let (da, db) = (x[k + 1] - x[k], y[k + 1] - y[k]);
                &&& (da == 1 && 1 <= db <= 3) || (db == 1 && 1 <= da <= 3)
                &&& c[k + 1] == c[k] + distance(
                    p.subrange(x[k], x[k + 1]).flatten().filter(
                        |h: char| alphanumeric(h) || h == 'ˈ' || h == 'ˌ',
                    ),
                    t.subrange(y[k], y[k + 1]).flatten().filter(
                        |h: char| alphanumeric(h) || h == 'ˈ' || h == 'ˌ',
                    ),
                ) + 2 * (da + db - 2)
            },
        c.last() < usize::MAX / 4,
    ensures
        !aligned(p, t).1,
        r.0.len() >= 1 && r.0.len() == r.1.len() && r.0.len() == r.2.len(),
        r.0[0] == 0 && r.1[0] == 0 && r.2[0] == 0,
        r.0.last() == p.len() && r.1.last() == t.len(),
        forall|k: int|
            #![trigger r.0[k + 1]]
            #![trigger r.1[k + 1]]
            #![trigger r.2[k + 1]]
            0 <= k < r.0.len() - 1 ==> {
                let (da, db) = (r.0[k + 1] - r.0[k], r.1[k + 1] - r.1[k]);
                &&& (da == 1 && 1 <= db <= 3) || (db == 1 && 1 <= da <= 3)
                &&& r.2[k + 1] == r.2[k] + distance(
                    p.subrange(r.0[k], r.0[k + 1]).flatten().filter(
                        |h: char| alphanumeric(h) || h == 'ˈ' || h == 'ˌ',
                    ),
                    t.subrange(r.1[k], r.1[k + 1]).flatten().filter(
                        |h: char| alphanumeric(h) || h == 'ˈ' || h == 'ˌ',
                    ),
                ) + 2 * (da + db - 2)
            },
        r.2.last() <= c.last(),
        r.2.last() == c.last() ==> (r.0 == x && r.1 == y) || exists|k: int|
            {
                &&& 0 <= k < x.len() - 1
                &&& k < r.0.len() - 1
                &&& x.take(k + 1) == r.0.take(k + 1)
                &&& y.take(k + 1) == r.1.take(k + 1)
                &&& #[trigger] r.0[k + 1] < x[k + 1] || (r.0[k + 1] == x[k + 1] && r.1[k + 1] < y[k
                    + 1])
            },
        forall|k: int, v: int|
            #![trigger r.1[k], aligned(p, t).0[v]]
            0 <= k < r.0.len() - 1 && r.1[k] <= v < r.1[k + 1] ==> {
                let slot = aligned(p, t).0[v];
                &&& slot.first == r.0[k] && slot.last == r.0[k + 1] - 1
                &&& slot.index == v - r.1[k] && slot.count == r.1[k + 1] - r.1[k]
                &&& slot.part == (if t[v].len() == 0 {
                    1
                } else {
                    t[v].len()
                })
                &&& slot.total == aligned(p, t).0[r.1[k]].part + (if slot.count >= 2 {
                    aligned(p, t).0[r.1[k] + 1].part
                } else {
                    0
                }) + (if slot.count >= 3 {
                    aligned(p, t).0[r.1[k] + 2].part
                } else {
                    0
                })
            },
{
    assert(is_grouping(p, t, x, y, c));
    lemma_no_cheaper_grouping(p, t, x, y, c);
    let r = lemma_aligned_shares(p, t);
    if r.2.last() == c.last() {
        lemma_parting(p, t, x, y, c, r.0, r.1);
    }
    r
}

/// Without a grouping there is none to follow: where the slots do not share out everything
/// that is spoken, and there are more words on one side than on the other, they come from a
/// grouping, which costs less than any bound that counts as no alignment.
pub proof fn lemma_slots_come_from_a_grouping(p: Seq<Seq<char>>, t: Seq<Seq<char>>) -> (r: (
    Seq<int>,
    Seq<int>,
    Seq<int>,
))
    requires
        p.len() > 0,
        t.len() > 0,
        p.len() != t.len(),
        !aligned(p, t).1,
    ensures
        r.0.len() >= 1 && r.0.len() == r.1.len() && r.0.len() == r.2.len(),
        r.0[0] == 0 && r.1[0] == 0 && r.2[0] == 0,
        r.0.last() == p.len() && r.1.last() == t.len(),
        forall|k: int|
            #![trigger r.0[k + 1]]
            #![trigger r.1[k + 1]]
            #![trigger r.2[k + 1]]
            0 <= k < r.0.len() - 1 ==> {
                let (da, db) = (r.0[k + 1] - r.0[k], r.1[k + 1] - r.1[k]);
                &&& (da == 1 && 1 <= db <= 3) || (db == 1 && 1 <= da <= 3)
                &&& r.2[k + 1] == r.2[k] + distance(
                    p.subrange(r.0[k], r.0[k + 1]).flatten().filter(
                        |h: char| alphanumeric(h) || h == 'ˈ' || h == 'ˌ',
                    ),
                    t.subrange(r.1[k], r.1[k + 1]).flatten().filter(
                        |h: char| alphanumeric(h) || h == 'ˈ' || h == 'ˌ',
                    ),
                ) + 2 * (da + db - 2)
            },
        forall|k: int, v: int|
            #![trigger r.1[k], aligned(p, t).0[v]]
            0 <= k < r.0.len() - 1 && r.1[k] <= v < r.1[k + 1] ==> {
                let slot = aligned(p, t).0[v];
                &&& slot.first == r.0[k] && slot.last == r.0[k + 1] - 1
                &&& slot.index == v - r.1[k] && slot.count == r.1[k + 1] - r.1[k]
                &&& slot.part == (if t[v].len() == 0 {
                    1
                } else {
                    t[v].len()
                })
                &&& slot.total == aligned(p, t).0[r.1[k]].part + (if slot.count >= 2 {
                    aligned(p, t).0[r.1[k] + 1].part
                } else {
                    0
                }) + (if slot.count >= 3 {
                    aligned(p, t).0[r.1[k] + 2].part
                } else {
                    0
                })
            },
        r.2.last() < usize::MAX / 4,
{
    let r = lemma_aligned_groups(p, t);
    lemma_shares(p, t, r.0, r.1, r.2);
    r
}

/// As many words spoken as written are matched one to one, however they sound.
pub proof fn lemma_word_for_word(p: Seq<Seq<char>>, t: Seq<Seq<char>>, v: int)
    requires
        p.len() == t.len(),
        0 <= v < t.len(),
    ensures
        aligned(p, t).0.len() == t.len(),
        !aligned(p, t).1,
        aligned(p, t).0[v].first == v,
        aligned(p, t).0[v].last == v,
        aligned(p, t).0[v].index == 0,
        aligned(p, t).0[v].count == 1,
        aligned(p, t).0[v].part == aligned(p, t).0[v].total,
        aligned(p, t).0[v].part == (if t[v].len() == 0 {
            1
        } else {
            t[v].len()
        }),
{
    let path = Seq::new(p.len(), |k: int| 0int);
    lemma_every_word_is_timed(p, t);
    lemma_cuts(0, 0, path);
    lemma_even_cuts(path, v);
    lemma_even_cuts(path, v + 1);
    lemma_slot_of_group(t, 0, 0, path, v, v);
    lemma_few_weights(t, v, v + 1);
}

proof fn lemma_even_cuts(path: Seq<int>, k: int)
    requires
        forall|q: int| 0 <= q < path.len() ==> #[trigger] path[q] == 0,
        0 <= k <= path.len(),
    ensures
        spoken_cuts(0, path)[k] == k,
        written_cuts(0, path)[k] == k,
    decreases k,
{
    lemma_cuts(0, 0, path);
    if k > 0 {
        lemma_even_cuts(path, k - 1);
        assert(path[k - 1] == 0);
    }
}

/// Where no grouping is cheap enough, all written words share everything that is spoken, by
/// length; `sums` adds the shares up.
pub proof fn lemma_fallback_shares_all(p: Seq<Seq<char>>, t: Seq<Seq<char>>, v: int) -> (sums: Seq<
    nat,
>)
    requires
        aligned(p, t).1,
        0 <= v < t.len(),
    ensures
        aligned(p, t).0.len() == t.len(),
        aligned(p, t).0[v].first == 0,
        aligned(p, t).0[v].last == p.len() - 1,
        aligned(p, t).0[v].index == v,
        aligned(p, t).0[v].count == t.len(),
        aligned(p, t).0[v].part == (if t[v].len() == 0 {
            1
        } else {
            t[v].len()
        }),
        sums.len() == t.len() + 1,
        sums[0] == 0,
        forall|k: int|
            #![trigger sums[k + 1]]
            0 <= k < t.len() ==> sums[k + 1] == sums[k] + aligned(p, t).0[k].part,
        aligned(p, t).0[v].total == sums[t.len() as int],
{
    let sums = Seq::new(t.len() + 1, |k: int| weights(t, 0, k));
    assert forall|k: int|
        #![trigger sums[k + 1]]
        0 <= k < t.len() implies sums[k + 1] == sums[k] + aligned(p, t).0[k].part by {
        assert(weights(t, 0, k + 1) == weights(t, 0, k) + weight(t[k]));
    }
    sums
}

/// Where nothing is spoken or nothing is written, nothing is timed; else every written word
/// is, and nothing else.
pub proof fn lemma_as_many_slots_as_words(p: Seq<Seq<char>>, t: Seq<Seq<char>>)
    ensures
        p.len() == 0 || t.len() == 0 ==> aligned(p, t).0.len() == 0 && !aligned(p, t).1,
        p.len() > 0 ==> aligned(p, t).0.len() == t.len(),
{
    if p.len() > 0 && t.len() > 0 {
        lemma_every_word_is_timed(p, t);
    }
}

} // verus!
