//! Where the characters of a text lie among the bytes of its UTF-8 encoding.

use crate::text::chars_of;
use vstd::prelude::*;
use vstd::utf8::{
    encode_scalar, encode_utf8, encode_utf8_first_scalar, encode_utf8_valid_utf8,
    is_char_boundary, pop_first_scalar,
};

verus! {

/// How many bytes encode a character.
pub open spec fn width(c: char) -> nat {
    encode_scalar(c as u32).len()
}

/// The byte offset of the `i`th character of `s`.
pub open spec fn byte_at(s: Seq<char>, i: int) -> nat {
    encode_utf8(s.take(i)).len()
}

/// How many bytes encode a character.
pub fn width_of(c: char) -> (n: usize)
    ensures
        n == width(c),
        1 <= n <= 4,
{
    let u: u32 = c as u32;
    if u <= 0x7f {
        1
    } else if u <= 0x7ff {
        2
    } else if u <= 0xffff {
        3
    } else {
        4
    }
}

/// A text encodes piece by piece.
pub proof fn lemma_encode_append(a: Seq<char>, b: Seq<char>)
    ensures
        encode_utf8(a + b) == encode_utf8(a) + encode_utf8(b),
    decreases a.len(),
{
    if a.len() == 0 {
        assert(a + b =~= b);
        assert(encode_utf8(a) + encode_utf8(b) =~= encode_utf8(b));
    } else {
        assert((a + b).drop_first() =~= a.drop_first() + b);
        lemma_encode_append(a.drop_first(), b);
        assert(encode_utf8(a + b) =~= encode_utf8(a) + encode_utf8(b));
    }
}

/// One character further is that character's bytes further.
pub proof fn lemma_byte_step(s: Seq<char>, i: int)
    requires
        0 <= i < s.len(),
    ensures
        byte_at(s, i + 1) == byte_at(s, i) + width(s[i]),
        1 <= width(s[i]) <= 4,
{
    assert(s.take(i + 1) =~= s.take(i) + seq![s[i]]);
    lemma_encode_append(s.take(i), seq![s[i]]);
    assert(seq![s[i]].drop_first() =~= Seq::empty());
    reveal_with_fuel(encode_utf8, 2);
    vstd::utf8::char_is_scalar(s[i]);
}

/// Offsets grow with the place, by at least one byte per character.
pub proof fn lemma_byte_order(s: Seq<char>, i: int, j: int)
    requires
        0 <= i <= j <= s.len(),
    ensures
        byte_at(s, i) + (j - i) <= byte_at(s, j),
    decreases j - i,
{
    if i < j {
        lemma_byte_order(s, i, j - 1);
        lemma_byte_step(s, j - 1);
    }
}

/// The offset behind the last character is the length of the encoding.
pub proof fn lemma_byte_end(s: Seq<char>)
    ensures
        byte_at(s, 0) == 0,
        byte_at(s, s.len() as int) == encode_utf8(s).len(),
{
    assert(s.take(0) =~= Seq::empty());
    assert(s.take(s.len() as int) =~= s);
}

/// The offset of every character is a boundary between characters.
pub proof fn lemma_byte_boundary(s: Seq<char>, i: int)
    requires
        0 <= i <= s.len(),
    ensures
        is_char_boundary(encode_utf8(s), byte_at(s, i) as int),
    decreases i,
{
    let bytes = encode_utf8(s);
    encode_utf8_valid_utf8(s);
    lemma_byte_end(s);
    if i > 0 {
        encode_utf8_first_scalar(s);
        let rest = s.drop_first();
        assert(pop_first_scalar(bytes) =~= encode_utf8(rest));
        lemma_byte_boundary(rest, i - 1);
        lemma_byte_order(s, 0, i);
        lemma_byte_order(s, i, s.len() as int);
        assert(s.take(i) =~= seq![s[0]] + rest.take(i - 1));
        assert(s.take(i).drop_first() =~= rest.take(i - 1));
    }
}

/// The byte offsets of all the characters of a text, and of its end.
pub fn offsets(s: &Vec<char>) -> (r: Vec<usize>)
    requires
        encode_utf8(s@).len() <= usize::MAX,
    ensures
        r.len() == s.len() + 1,
        forall|i: int| 0 <= i <= s.len() ==> #[trigger] r@[i] == byte_at(s@, i),
{
    let mut r: Vec<usize> = Vec::new();
    proof {
        lemma_byte_end(s@);
    }
    r.push(0);
    let mut i: usize = 0;
    while i < s.len()
        invariant
            i <= s.len(),
            r.len() == i + 1,
            encode_utf8(s@).len() <= usize::MAX,
            forall|k: int| 0 <= k <= i ==> #[trigger] r@[k] == byte_at(s@, k),
        decreases s.len() - i,
    {
        proof {
            lemma_byte_step(s@, i as int);
            lemma_byte_order(s@, i + 1, s.len() as int);
            lemma_byte_end(s@);
        }
        let at: usize = r[i];
        let next: usize = at + width_of(s[i]);
        r.push(next);
        i += 1;
    }
    r
}

/// The characters of a text and their byte offsets.
pub fn chars_and_offsets(text: &str) -> (r: (Vec<char>, Vec<usize>))
    ensures
        r.0@ == text@,
        encode_utf8(text@).len() <= usize::MAX,
        r.1.len() == text@.len() + 1,
        forall|i: int| 0 <= i <= text@.len() ==> #[trigger] r.1@[i] == byte_at(text@, i),
{
    let chars = chars_of(text);
    let bytes = text.as_bytes();
    let n: usize = bytes.len();
    let offs = offsets(&chars);
    (chars, offs)
}

/// A character takes one byte up to U+007F, two up to U+07FF, three up to U+FFFF and four
/// beyond; behind a text's first part lie the bytes of that part.
pub proof fn lemma_widths(a: Seq<char>, c: char, b: Seq<char>)
    ensures
        width(c) == encode_utf8(seq![c]).len(),
        c as u32 <= 0x7f ==> width(c) == 1,
        0x7f < c as u32 <= 0x7ff ==> width(c) == 2,
        0x7ff < c as u32 <= 0xffff ==> width(c) == 3,
        0xffff < c as u32 ==> width(c) == 4,
        byte_at(a + b, a.len() as int) == encode_utf8(a).len(),
{
    lemma_byte_step(seq![c], 0);
    assert(seq![c].take(0) =~= Seq::<char>::empty());
    assert(seq![c].take(1) =~= seq![c]);
    vstd::utf8::char_is_scalar(c);
    assert((a + b).take(a.len() as int) =~= a);
}

} // verus!
