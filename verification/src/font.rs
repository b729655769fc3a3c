//! The font of the window. Its line rhythm comes from the font's own metrics, so the
//! metrics are rewritten: at 16 pixels a line advances by 30, with ascent and descent
//! whole numbers of pixels. The result is renamed, by names of the same length, so that
//! no table moves.

use vstd::prelude::*;

verus! {

/// Pixels a line advances by.
pub const LINE_PX: i64 = 30;

/// Pixels of the em that goes with it.
pub const EM_PX: i64 = 16;

pub open spec fn be16(d: Seq<u8>, i: int) -> int {
    d[i] * 256 + d[i + 1]
}

pub open spec fn be32(d: Seq<u8>, i: int) -> int {
    be16(d, i) * 65536 + be16(d, i + 2)
}

/// A number modulo 65536, between -32768 and 32767.
pub open spec fn wrapped(n: int) -> int {
    (n + 32768) % 65536 - 32768
}

/// Where the `k`-th entry of the table directory stands.
pub open spec fn entry(k: int) -> int {
    12 + 16 * k
}

pub open spec fn named(d: Seq<u8>, tag: Seq<u8>, k: int) -> bool {
    d.subrange(entry(k), entry(k) + 4) == tag
}

/// The first of the directory's entries with this name is the `k`-th.
pub open spec fn listed(d: Seq<u8>, tag: Seq<u8>, k: int) -> bool {
    &&& 6 <= d.len()
    &&& 0 <= k < be16(d, 4)
    &&& entry(k) + 12 <= d.len()
    &&& named(d, tag, k)
    &&& forall|j: int| 0 <= j < k ==> !#[trigger] named(d, tag, j)
}

/// Where a table begins; none where the directory does not list it.
pub open spec fn table(d: Seq<u8>, tag: Seq<u8>) -> Option<int> {
    if exists|k: int| listed(d, tag, k) {
        Some(be32(d, entry(choose|k: int| listed(d, tag, k)) + 8))
    } else {
        None
    }
}

proof fn lemma_listed_once(d: Seq<u8>, tag: Seq<u8>, k: int)
    requires
        listed(d, tag, k),
    ensures
        table(d, tag) == Some(be32(d, entry(k) + 8)),
{
    let c = choose|c: int| listed(d, tag, c);
    assert(listed(d, tag, c));
    assert(named(d, tag, c) && named(d, tag, k));
    assert(c == k);
}

pub open spec fn hhea() -> Seq<u8> {
    seq![104u8, 104, 101, 97]
}

pub open spec fn os2() -> Seq<u8> {
    seq![79u8, 83, 47, 50]
}

pub open spec fn head() -> Seq<u8> {
    seq![104u8, 101, 97, 100]
}

/// Division that drops the fraction, whatever the sign.
pub open spec fn quotient(a: int, b: int) -> int {
    if a >= 0 {
        a / b
    } else {
        -((-a) / b)
    }
}

/// Font units of a line's advance.
pub open spec fn advance(upem: int) -> int {
    LINE_PX * (upem / EM_PX as int)
}

/// The new ascent: half of what the line gains goes above it, to the nearest pixel.
pub open spec fn ascent(upem: int, asc: int, desc: int) -> int {
    let px = upem / EM_PX as int;
    let half = quotient(advance(upem) - (asc - desc), 2);
    wrapped(quotient(asc + half + px / 2, px) * px)
}

/// How far the new descent goes below the line.
pub open spec fn depth(upem: int, asc: int, desc: int) -> int {
    wrapped(advance(upem) - ascent(upem, asc, desc))
}

/// The lines of the new font advance by 30 pixels at 16, and its ascent is a whole
/// number of pixels, whatever the metrics it had, where these fit the fields.
pub proof fn lemma_line_rhythm(upem: int, asc: int, desc: int)
    requires
        16 <= upem <= 65535,
        upem % 16 == 0,
        ({
            let px = upem / 16;
            let half = quotient(advance(upem) - (asc - desc), 2);
            let a = quotient(asc + half + px / 2, px) * px;
            -32768 <= a <= 32767 && -32768 <= advance(upem) - a <= 32767
        }),
    ensures
        16 * (ascent(upem, asc, desc) + depth(upem, asc, desc)) == 30 * upem,
        ascent(upem, asc, desc) % (upem / 16) == 0,
{
    let px = upem / 16;
    let half = quotient(advance(upem) - (asc - desc), 2);
    let q = quotient(asc + half + px / 2, px);
    assert((q * px) % px == 0) by (nonlinear_arith)
        requires
            px > 0,
    ;
}

/// `v` written at `i` as two bytes, the higher one first.
pub open spec fn put(d: Seq<u8>, i: int, v: int) -> Seq<u8> {
    d.update(i, ((v % 65536) / 256) as u8).update(i + 1, (v % 256) as u8)
}

/// The new metrics in their tables.
pub open spec fn with_metrics(d: Seq<u8>, hhea: int, os2: int, asc: int, deep: int) -> Seq<u8> {
    let d = put(put(put(d, hhea + 4, asc), hhea + 6, -deep), hhea + 8, 0);
    let d = put(put(put(d, os2 + 68, asc), os2 + 70, -deep), os2 + 72, 0);
    let d = put(put(d, os2 + 74, asc), os2 + 76, deep);
    d.update(os2 + 63, d[os2 + 63] | 0x80)
}

/// `to` in place of what stands at `i`.
pub open spec fn laid(d: Seq<u8>, i: int, to: Seq<u8>) -> Seq<u8> {
    d.take(i) + to + d.skip(i + to.len())
}

/// Every occurrence of `from` at or after `i` overwritten by `to`, from the left.
pub open spec fn replaced(d: Seq<u8>, from: Seq<u8>, to: Seq<u8>, i: int) -> Seq<u8>
    decreases d.len() - i,
{
    if i < 0 || from.len() == 0 || from.len() != to.len() || i + from.len() > d.len() {
        d
    } else if d.subrange(i, i + from.len()) == from {
        replaced(laid(d, i, to), from, to, i + from.len())
    } else {
        replaced(d, from, to, i + 1)
    }
}

/// The name in sixteen bits to a character.
pub open spec fn wide(s: Seq<u8>) -> Seq<u8> {
    Seq::new(2 * s.len(), |i: int| if i % 2 == 0 { 0u8 } else { s[i / 2] })
}

/// `Liberation Sans`.
pub open spec fn old_name() -> Seq<u8> {
    seq![76u8, 105, 98, 101, 114, 97, 116, 105, 111, 110, 32, 83, 97, 110, 115]
}

/// `MinimalTTS Sans`.
pub open spec fn new_name() -> Seq<u8> {
    seq![77u8, 105, 110, 105, 109, 97, 108, 84, 84, 83, 32, 83, 97, 110, 115]
}

/// A name without its space.
pub open spec fn joined(s: Seq<u8>) -> Seq<u8> {
    s.take(10) + s.skip(11)
}

pub open spec fn renamed_as(d: Seq<u8>, from: Seq<u8>, to: Seq<u8>) -> Seq<u8> {
    replaced(replaced(d, from, to, 0), wide(from), wide(to), 0)
}

pub open spec fn renamed(d: Seq<u8>) -> Seq<u8> {
    renamed_as(
        renamed_as(d, old_name(), new_name()),
        joined(old_name()),
        joined(new_name()),
    )
}

/// The font can be patched: it has the tables, with the fields in them, and metrics to
/// work with.
pub open spec fn patchable(d: Seq<u8>) -> bool {
    &&& table(d, hhea()) is Some && table(d, hhea())->0 + 10 <= d.len()
    &&& table(d, os2()) is Some && table(d, os2())->0 + 78 <= d.len()
    &&& table(d, head()) is Some && table(d, head())->0 + 20 <= d.len()
    &&& be16(d, table(d, head())->0 + 18) >= 16
    &&& old_depth(d) != -32768
}

/// The depth that the font's metrics come to.
pub open spec fn old_depth(d: Seq<u8>) -> int {
    let at = table(d, hhea())->0;
    depth(
        be16(d, table(d, head())->0 + 18),
        wrapped(be16(d, at + 4)),
        wrapped(be16(d, at + 6)),
    )
}

pub open spec fn old_ascent(d: Seq<u8>) -> int {
    let at = table(d, hhea())->0;
    ascent(
        be16(d, table(d, head())->0 + 18),
        wrapped(be16(d, at + 4)),
        wrapped(be16(d, at + 6)),
    )
}

pub open spec fn patched(d: Seq<u8>) -> Seq<u8> {
    renamed(
        with_metrics(
            d,
            table(d, hhea())->0,
            table(d, os2())->0,
            old_ascent(d),
            old_depth(d),
        ),
    )
}

proof fn lemma_replaced_len(d: Seq<u8>, from: Seq<u8>, to: Seq<u8>, i: int)
    ensures
        replaced(d, from, to, i).len() == d.len(),
    decreases d.len() - i,
{
    if !(i < 0 || from.len() == 0 || from.len() != to.len() || i + from.len() > d.len()) {
        if d.subrange(i, i + from.len()) == from {
            lemma_replaced_len(laid(d, i, to), from, to, i + from.len());
        } else {
            lemma_replaced_len(d, from, to, i + 1);
        }
    }
}

proof fn lemma_renamed_as_len(d: Seq<u8>, from: Seq<u8>, to: Seq<u8>)
    ensures
        renamed_as(d, from, to).len() == d.len(),
{
    lemma_replaced_len(d, from, to, 0);
    lemma_replaced_len(replaced(d, from, to, 0), wide(from), wide(to), 0);
}

proof fn lemma_with_metrics_len(d: Seq<u8>, hhea: int, os2: int, asc: int, deep: int)
    requires
        0 <= hhea,
        0 <= os2,
        hhea + 10 <= d.len(),
        os2 + 78 <= d.len(),
    ensures
        with_metrics(d, hhea, os2, asc, deep).len() == d.len(),
{
}

proof fn lemma_renamed_len(d: Seq<u8>)
    ensures
        renamed(d).len() == d.len(),
{
    lemma_renamed_as_len(d, old_name(), new_name());
    lemma_renamed_as_len(
        renamed_as(d, old_name(), new_name()),
        joined(old_name()),
        joined(new_name()),
    );
}

/// No table moves: the patched font is as long as the one it was made of.
pub proof fn lemma_length_stays(d: Seq<u8>)
    requires
        patchable(d),
    ensures
        patched(d).len() == d.len(),
{
    let (at, os) = (table(d, hhea())->0, table(d, os2())->0);
    lemma_with_metrics_len(d, at, os, old_ascent(d), old_depth(d));
    lemma_renamed_len(with_metrics(d, at, os, old_ascent(d), old_depth(d)));
}

fn read16(d: &Vec<u8>, i: usize) -> (n: i64)
    requires
        i + 2 <= d.len(),
    ensures
        n == be16(d@, i as int),
        0 <= n <= 65535,
{
    d[i] as i64 * 256 + d[i + 1] as i64
}

fn wrap(n: i64) -> (r: i64)
    requires
        -0x1_0000_0000 <= n <= 0x1_0000_0000,
    ensures
        r == wrapped(n as int),
        -32768 <= r <= 32767,
{
    (n + 32768 + 0x1_0000_0000) % 65536 - 32768
}

fn divide(a: i64, b: i64) -> (r: i64)
    requires
        -0x1_0000_0000 <= a <= 0x1_0000_0000,
        0 < b,
    ensures
        r == quotient(a as int, b as int),
        -0x1_0000_0000 <= r <= 0x1_0000_0000,
        a >= 0 ==> 0 <= r <= a,
        a < 0 ==> a <= r <= 0,
{
    proof {
        let m = if a >= 0 { a as int } else { -a as int };
        assert(0 <= m / (b as int) <= m) by (nonlinear_arith)
            requires
                m >= 0,
                b > 0,
        ;
    }
    if a >= 0 {
        a / b
    } else {
        -((-a) / b)
    }
}

fn same_bytes(d: &Vec<u8>, i: usize, s: &Vec<u8>) -> (b: bool)
    requires
        i + s.len() <= d.len(),
    ensures
        b == (d@.subrange(i as int, i + s.len()) == s@),
{
    let mut k: usize = 0;
    while k < s.len()
        invariant
            i + s.len() <= d.len(),
            k <= s.len(),
            forall|j: int| 0 <= j < k ==> d@[i + j] == #[trigger] s@[j],
        decreases s.len() - k,
    {
        if d[i + k] != s[k] {
            assert(d@.subrange(i as int, i + s.len())[k as int] != s@[k as int]);
            return false;
        }
        k = k + 1;
    }
    assert(d@.subrange(i as int, i + s.len()) =~= s@);
    true
}

/// Where the table of this name begins.
fn find_table(d: &Vec<u8>, tag: &Vec<u8>) -> (r: Option<u64>)
    requires
        tag.len() == 4,
    ensures
        r is Some == table(d@, tag@) is Some,
        r is Some ==> r->0 == table(d@, tag@)->0,
        r is Some ==> r->0 <= u32::MAX,
{
    if d.len() < 6 {
        return None;
    }
    let n: i64 = read16(d, 4);
    let mut k: i64 = 0;
    while k < n
        invariant
            tag.len() == 4,
            6 <= d.len(),
            n == be16(d@, 4),
            0 <= k <= n <= 65535,
            forall|j: int| 0 <= j < k ==> !#[trigger] named(d@, tag@, j),
        decreases n - k,
    {
        let at: usize = 12 + 16 * (k as usize);
        if at + 12 > d.len() {
            assert forall|j: int| !listed(d@, tag@, j) by {
                if listed(d@, tag@, j) {
                    assert(named(d@, tag@, j));
                }
            }
            return None;
        }
        if same_bytes(d, at, tag) {
            let hi: i64 = read16(d, at + 8);
            let lo: i64 = read16(d, at + 10);
            proof {
                assert(listed(d@, tag@, k as int));
                lemma_listed_once(d@, tag@, k as int);
            }
            return Some((hi * 65536 + lo) as u64);
        }
        assert(!named(d@, tag@, k as int));
        k = k + 1;
    }
    assert forall|j: int| !listed(d@, tag@, j) by {
        if listed(d@, tag@, j) {
            assert(named(d@, tag@, j));
        }
    }
    None
}

/// What patching needs of the font: where its tables are, and the new metrics.
struct Plan {
    hhea: usize,
    os2: usize,
    ascent: i64,
    depth: i64,
}

fn plan(d: &Vec<u8>) -> (r: Option<Plan>)
    ensures
        r is Some == patchable(d@),
        match r {
            Some(p) => {
                &&& table(d@, hhea()) == Some(p.hhea as int)
                &&& table(d@, os2()) == Some(p.os2 as int)
                &&& p.ascent == old_ascent(d@) && p.depth == old_depth(d@)
                &&& -32768 <= p.ascent <= 32767 && -32767 <= p.depth <= 32767
                &&& p.hhea + 10 <= d.len() && p.os2 + 78 <= d.len()
            },
            None => true,
        },
{
    let tag_a: Vec<u8> = vec![104, 104, 101, 97];
    let tag_b: Vec<u8> = vec![79, 83, 47, 50];
    let tag_c: Vec<u8> = vec![104, 101, 97, 100];
    assert(tag_a@ =~= hhea() && tag_b@ =~= os2() && tag_c@ =~= head());
    let a: u64 = match find_table(d, &tag_a) {
        Some(a) => a,
        None => {
            return None;
        },
    };
    let b: u64 = match find_table(d, &tag_b) {
        Some(b) => b,
        None => {
            return None;
        },
    };
    let c: u64 = match find_table(d, &tag_c) {
        Some(c) => c,
        None => {
            return None;
        },
    };
    let len: u64 = d.len() as u64;
    if a + 10 > len || b + 78 > len || c + 20 > len {
        return None;
    }
    let upem: i64 = read16(d, c as usize + 18);
    if upem < 16 {
        return None;
    }
    let asc: i64 = wrap(read16(d, a as usize + 4));
    let desc: i64 = wrap(read16(d, a as usize + 6));
    let px: i64 = upem / EM_PX;
    assert(1 <= px <= 4095);
    let half: i64 = divide(LINE_PX * px - (asc - desc), 2);
    let whole: i64 = divide(asc + half + px / 2, px);
    assert(-0x1_0000_0000 <= whole * px <= 0x1_0000_0000) by (nonlinear_arith)
        requires
            1 <= px <= 4095,
            -1_000_000 <= whole <= 1_000_000,
    ;
    let up: i64 = wrap(whole * px);
    let down: i64 = wrap(LINE_PX * px - up);
    if down == -32768 {
        return None;
    }
    Some(Plan { hhea: a as usize, os2: b as usize, ascent: up, depth: down })
}

fn write16(d: &mut Vec<u8>, i: usize, v: i64)
    requires
        i + 2 <= old(d).len(),
        -65536 <= v <= 65535,
    ensures
        final(d)@ == put(old(d)@, i as int, v as int),
{
    let n: i64 = (v + 65536) % 65536;
    assert(n == v as int % 65536);
    assert(n % 256 == v as int % 256);
    d.set(i, (n / 256) as u8);
    d.set(i + 1, (n % 256) as u8);
}

/// Overwrites every occurrence of a byte string by another of the same length.
pub fn replace_all(d: &mut Vec<u8>, from: &Vec<u8>, to: &Vec<u8>)
    requires
        0 < from.len() == to.len(),
    ensures
        final(d)@ == replaced(old(d)@, from@, to@, 0),
        final(d).len() == old(d).len(),
{
    let ghost goal = replaced(d@, from@, to@, 0);
    let mut i: usize = 0;
    while i <= d.len() && d.len() - i >= from.len()
        invariant
            0 < from.len() == to.len(),
            i <= d.len(),
            d.len() == old(d).len(),
            replaced(d@, from@, to@, i as int) == goal,
        decreases d.len() - i,
    {
        if same_bytes(d, i, from) {
            let ghost start = d@;
            let mut k: usize = 0;
            while k < to.len()
                invariant
                    k <= to.len(),
                    d.len() == start.len(),
                    i + to.len() <= d.len(),
                    forall|j: int|
                        0 <= j < d.len() ==> #[trigger] d@[j] == (if i <= j < i + k {
                            to@[j - i]
                        } else {
                            start[j]
                        }),
                decreases to.len() - k,
            {
                d.set(i + k, to[k]);
                k = k + 1;
            }
            assert(d@ =~= laid(start, i as int, to@));
            i = i + from.len();
        } else {
            i = i + 1;
        }
    }
}

fn widened(s: &Vec<u8>) -> (r: Vec<u8>)
    requires
        s.len() <= 100,
    ensures
        r@ == wide(s@),
{
    let mut r: Vec<u8> = Vec::new();
    let mut i: usize = 0;
    while i < s.len()
        invariant
            i <= s.len() <= 100,
            r@ =~= wide(s@).take(2 * i as int),
        decreases s.len() - i,
    {
        r.push(0);
        r.push(s[i]);
        i = i + 1;
        assert(r@ =~= wide(s@).take(2 * i as int));
    }
    assert(wide(s@).take(2 * s.len() as int) =~= wide(s@));
    r
}

fn write_metrics(d: &mut Vec<u8>, p: &Plan)
    requires
        p.hhea + 10 <= old(d).len(),
        p.os2 + 78 <= old(d).len(),
        -32768 <= p.ascent <= 32767,
        -32767 <= p.depth <= 32767,
    ensures
        final(d)@ == with_metrics(
            old(d)@,
            p.hhea as int,
            p.os2 as int,
            p.ascent as int,
            p.depth as int,
        ),
{
    write16(d, p.hhea + 4, p.ascent);
    write16(d, p.hhea + 6, -p.depth);
    write16(d, p.hhea + 8, 0);
    write16(d, p.os2 + 68, p.ascent);
    write16(d, p.os2 + 70, -p.depth);
    write16(d, p.os2 + 72, 0);
    write16(d, p.os2 + 74, p.ascent);
    write16(d, p.os2 + 76, p.depth);
    let flags: u8 = d[p.os2 + 63] | 0x80;
    d.set(p.os2 + 63, flags);
}

fn rename_as(d: &mut Vec<u8>, from: &Vec<u8>, to: &Vec<u8>)
    requires
        0 < from.len() == to.len() <= 100,
    ensures
        final(d)@ == renamed_as(old(d)@, from@, to@),
{
    replace_all(d, from, to);
    replace_all(d, &widened(from), &widened(to));
}

fn rename(d: &mut Vec<u8>)
    ensures
        final(d)@ == renamed(old(d)@),
{
    let from: Vec<u8> = vec![76, 105, 98, 101, 114, 97, 116, 105, 111, 110, 32, 83, 97, 110, 115];
    let to: Vec<u8> = vec![77, 105, 110, 105, 109, 97, 108, 84, 84, 83, 32, 83, 97, 110, 115];
    assert(from@ =~= old_name() && to@ =~= new_name());
    rename_as(d, &from, &to);
    let from: Vec<u8> = vec![76, 105, 98, 101, 114, 97, 116, 105, 111, 110, 83, 97, 110, 115];
    let to: Vec<u8> = vec![77, 105, 110, 105, 109, 97, 108, 84, 84, 83, 83, 97, 110, 115];
    assert(from@ =~= joined(old_name()) && to@ =~= joined(new_name()));
    rename_as(d, &from, &to);
}

/// The font can be patched.
pub fn font_is_whole(d: &Vec<u8>) -> (b: bool)
    ensures
        b == patchable(d@),
{
    plan(d).is_some()
}

/// The font with the window's metrics and name.
pub fn patch_font(font: &Vec<u8>) -> (r: Vec<u8>)
    requires
        patchable(font@),
    ensures
        r@ == patched(font@),
{
    let mut d: Vec<u8> = Vec::new();
    let mut i: usize = 0;
    while i < font.len()
        invariant
            i <= font.len(),
            d@ =~= font@.take(i as int),
        decreases font.len() - i,
    {
        d.push(font[i]);
        i = i + 1;
    }
    assert(d@ =~= font@);
    if let Some(p) = plan(font) {
        write_metrics(&mut d, &p);
        rename(&mut d);
    }
    d
}

/// A table is where the first entry of the directory with its name says: four bytes, eight
/// behind the entry's start, of entries of sixteen bytes from the twelfth byte on.
pub proof fn lemma_table_is_found(d: Seq<u8>, tag: Seq<u8>, k: int)
    requires
        0 <= k < d[4] * 256 + d[5],
        12 + 16 * k + 12 <= d.len(),
        d.subrange(12 + 16 * k, 16 + 16 * k) == tag,
        forall|j: int|
            #![trigger entry(j)]
            0 <= j < k ==> d.subrange(12 + 16 * j, 16 + 16 * j) != tag,
    ensures
        table(d, tag) == Some(
            d[20 + 16 * k] * 16777216 + d[21 + 16 * k] * 65536 + d[22 + 16 * k] * 256 + d[23 + 16
                * k],
        ),
{
    assert forall|j: int| 0 <= j < k implies !#[trigger] named(d, tag, j) by {
        assert(entry(j) == 12 + 16 * j);
    }
    assert(entry(k) == 12 + 16 * k);
    assert(listed(d, tag, k));
    lemma_listed_once(d, tag, k);
}

/// The tables by their names: `hhea`, `OS/2` and `head`.
pub proof fn lemma_names_of_tables()
    ensures
        hhea() == seq![104u8, 104u8, 101u8, 97u8],
        os2() == seq![79u8, 83u8, 47u8, 50u8],
        head() == seq![104u8, 101u8, 97u8, 100u8],
{
}

/// Where a line has room to gain and the numbers fit, the new ascent is the nearest whole
/// number of pixels to the old one and half of what the line gains, and the depth is the
/// rest of the line of 30 pixels. An em has at most 16384 units.
pub proof fn lemma_line_is_centred(upem: int, asc: int, desc: int)
    requires
        16 <= upem <= 16384,
        0 <= asc,
        desc <= 0,
        asc - desc <= 30 * (upem / 16),
    ensures
        ({
            let px = upem / 16;
            let want = asc + (30 * px - (asc - desc)) / 2;
            &&& ascent(upem, asc, desc) <= want + px / 2 < ascent(upem, asc, desc) + px
            &&& ascent(upem, asc, desc) % px == 0
            &&& depth(upem, asc, desc) == 30 * px - ascent(upem, asc, desc)
        }),
{
    let px = upem / 16;
    let want = asc + (30 * px - (asc - desc)) / 2;
    let q = (want + px / 2) / px;
    assert(q * px <= want + px / 2 < q * px + px && 0 <= q * px && (q * px) % px == 0)
        by (nonlinear_arith)
        requires
            px > 0,
            want >= 0,
            q == (want + px / 2) / px,
    ;
    assert(want <= 30 * px);
    assert(advance(upem) == 30 * px);
    assert(quotient(advance(upem) - (asc - desc), 2) == (30 * px - (asc - desc)) / 2);
    assert(quotient(want + px / 2, px) == q);
    assert(30 * px + px / 2 <= 31232);
    lemma_fits(upem, asc, desc, q * px);
}

proof fn lemma_fits(upem: int, asc: int, desc: int, a: int)
    requires
        16 <= upem <= 16384,
        0 <= a <= 32767,
        ({
            let px = upem / 16;
            let half = quotient(advance(upem) - (asc - desc), 2);
            quotient(asc + half + px / 2, px) * px == a
        }),
    ensures
        ascent(upem, asc, desc) == a,
        depth(upem, asc, desc) == 30 * (upem / 16) - a,
{
    assert(wrapped(a) == a);
}

/// The new metrics stand in their fields, as two bytes each, the lines' gap is none, and
/// the flag that tells to use them is set; no other byte is touched. The two tables do not
/// overlap.
pub proof fn lemma_metrics_are_written(d: Seq<u8>, at: int, os: int, asc: int, deep: int, i: int)
    requires
        0 <= at,
        0 <= os,
        at + 10 <= d.len(),
        os + 78 <= d.len(),
        at + 10 <= os || os + 78 <= at,
        0 <= i < d.len(),
    ensures
        ({
            let w = with_metrics(d, at, os, asc, deep);
            &&& w.len() == d.len()
            &&& be16(w, at + 4) == asc % 65536 && be16(w, at + 6) == (-deep) % 65536 && be16(
                w,
                at + 8,
            ) == 0
            &&& be16(w, os + 68) == asc % 65536 && be16(w, os + 70) == (-deep) % 65536 && be16(
                w,
                os + 72,
            ) == 0
            &&& be16(w, os + 74) == asc % 65536 && be16(w, os + 76) == deep % 65536
            &&& w[os + 63] == d[os + 63] | 0x80
            &&& !(at + 4 <= i < at + 10) && !(os + 68 <= i < os + 78) && i != os + 63 ==> w[i]
                == d[i]
        }),
{
    assert(asc % 65536 / 256 * 256 + asc % 256 == asc % 65536);
    assert((-deep) % 65536 / 256 * 256 + (-deep) % 256 == (-deep) % 65536);
    assert(deep % 65536 / 256 * 256 + deep % 256 == deep % 65536);
}

/// A byte string that stands nowhere is replaced nowhere.
pub proof fn lemma_nothing_to_replace(d: Seq<u8>, from: Seq<u8>, to: Seq<u8>, i: int)
    requires
        0 <= i,
        forall|k: int|
            i <= k && k + from.len() <= d.len() ==> #[trigger] d.subrange(k, k + from.len())
                != from,
    ensures
        replaced(d, from, to, i) == d,
    decreases d.len() - i,
{
    if i + from.len() <= d.len() && from.len() > 0 {
        assert(d.subrange(i, i + from.len()) != from);
        lemma_nothing_to_replace(d, from, to, i + 1);
    }
}

/// The first place where a byte string stands gets the other in its place, and what comes
/// behind it is gone through in the same way.
pub proof fn lemma_first_is_replaced(d: Seq<u8>, from: Seq<u8>, to: Seq<u8>, i: int, k: int)
    requires
        0 <= i <= k,
        0 < from.len() == to.len(),
        k + from.len() <= d.len(),
        d.subrange(k, k + from.len()) == from,
        forall|j: int| i <= j < k ==> #[trigger] d.subrange(j, j + from.len()) != from,
    ensures
        replaced(d, from, to, i) == replaced(
            d.take(k) + to + d.skip(k + from.len()),
            from,
            to,
            k + from.len(),
        ),
    decreases k - i,
{
    if i < k {
        assert(d.subrange(i, i + from.len()) != from);
        lemma_first_is_replaced(d, from, to, i + 1, k);
    }
}

/// The names: `Liberation Sans` and `LiberationSans` become `MinimalTTS Sans` and
/// `MinimalTTSSans`, first in one byte a character, then in two, of which the first is zero.
pub proof fn lemma_names_are_changed(d: Seq<u8>, s: Seq<u8>, i: int)
    requires
        0 <= i < s.len(),
    ensures
        ({
            let old_spaced = seq![
                76u8, 105, 98, 101, 114, 97, 116, 105, 111, 110, 32, 83, 97, 110, 115,
            ];
            let new_spaced = seq![
                77u8, 105, 110, 105, 109, 97, 108, 84, 84, 83, 32, 83, 97, 110, 115,
            ];
            let old_joined = seq![
                76u8, 105, 98, 101, 114, 97, 116, 105, 111, 110, 83, 97, 110, 115,
            ];
            let new_joined = seq![77u8, 105, 110, 105, 109, 97, 108, 84, 84, 83, 83, 97, 110, 115];
            let a = replaced(d, old_spaced, new_spaced, 0);
            let b = replaced(a, wide(old_spaced), wide(new_spaced), 0);
            let c = replaced(b, old_joined, new_joined, 0);
            renamed(d) == replaced(c, wide(old_joined), wide(new_joined), 0)
        }),
        wide(s).len() == 2 * s.len(),
        wide(s)[2 * i] == 0,
        wide(s)[2 * i + 1] == s[i],
{
    assert(joined(old_name()) =~= seq![
        76u8, 105, 98, 101, 114, 97, 116, 105, 111, 110, 83, 97, 110, 115,
    ]);
    assert(joined(new_name()) =~= seq![
        77u8, 105, 110, 105, 109, 97, 108, 84, 84, 83, 83, 97, 110, 115,
    ]);
}

} // verus!
