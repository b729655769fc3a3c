//! Numbers written in decimal, and read back.

use crate::text::{chars_of, push_all, string_of};
use vstd::prelude::*;

verus! {

/// The character of a digit.
pub open spec fn digit(d: int) -> char {
    if d <= 0 {
        '0'
    } else if d == 1 {
        '1'
    } else if d == 2 {
        '2'
    } else if d == 3 {
        '3'
    } else if d == 4 {
        '4'
    } else if d == 5 {
        '5'
    } else if d == 6 {
        '6'
    } else if d == 7 {
        '7'
    } else if d == 8 {
        '8'
    } else {
        '9'
    }
}

fn digit_of(d: u64) -> (c: char)
    ensures
        c == digit(d as int),
{
    match d {
        0 => '0',
        1 => '1',
        2 => '2',
        3 => '3',
        4 => '4',
        5 => '5',
        6 => '6',
        7 => '7',
        8 => '8',
        _ => '9',
    }
}

/// A number in decimal.
pub open spec fn decimal(n: nat) -> Seq<char>
    decreases n,
{
    if n < 10 {
        seq![digit(n as int)]
    } else {
        decimal(n / 10).push(digit((n % 10) as int))
    }
}

/// A number in decimal.
pub fn decimal_of(n: u64) -> (r: Vec<char>)
    ensures
        r@ == decimal(n as nat),
    decreases n,
{
    if n < 10 {
        let mut r: Vec<char> = Vec::new();
        r.push(digit_of(n));
        assert(r@ =~= seq![digit(n as int)]);
        r
    } else {
        let mut r = decimal_of(n / 10);
        r.push(digit_of(n % 10));
        r
    }
}

/// A number in decimal, with zeros before it up to a width.
pub open spec fn zero_padded(n: nat, width: nat) -> Seq<char> {
    let s = decimal(n);
    if s.len() >= width {
        s
    } else {
        Seq::new((width - s.len()) as nat, |i: int| '0') + s
    }
}

/// Append a number in decimal, with zeros before it up to a width.
pub fn push_padded(out: &mut Vec<char>, n: u64, width: usize)
    ensures
        final(out)@ == old(out)@ + zero_padded(n as nat, width as nat),
{
    let s = decimal_of(n);
    let ghost before = out@;
    let mut k: usize = s.len();
    let ghost zeros = Seq::new(
        if s.len() >= width {
            0
        } else {
            (width - s.len()) as nat
        },
        |i: int| '0',
    );
    assert(zeros.take(0) =~= Seq::empty());
    assert(out@ =~= before + zeros.take(0));
    while k < width
        invariant
            s.len() <= k,
            k <= width || k == s.len(),
            zeros == Seq::new(
                if s.len() >= width {
                    0
                } else {
                    (width - s.len()) as nat
                },
                |i: int| '0',
            ),
            k - s.len() <= zeros.len(),
            out@ == before + zeros.take(k - s.len()),
        decreases width - k,
    {
        out.push('0');
        k += 1;
        assert(out@ =~= before + zeros.take(k - s.len()));
    }
    assert(zeros.take(k - s.len()) =~= zeros);
    push_all(out, s.as_slice());
    assert(out@ =~= before + zero_padded(n as nat, width as nat));
}

/// The value of a digit.
pub open spec fn digit_value(c: char) -> Option<int> {
    if '0' <= c <= '9' {
        Some(c as int - '0' as int)
    } else {
        None
    }
}

/// The number that a run of digits is, nothing where a character is no digit.
pub open spec fn digits_value(s: Seq<char>) -> Option<int>
    decreases s.len(),
{
    if s.len() == 0 {
        Some(0)
    } else {
        match (digits_value(s.drop_last()), digit_value(s.last())) {
            (Some(v), Some(d)) => Some(10 * v + d),
            _ => None,
        }
    }
}

/// The number that a text is: digits, perhaps behind a plus sign, that fit in 64
/// bits.
pub open spec fn parsed(s: Seq<char>) -> Option<u64> {
    let t = if s.len() > 0 && s[0] == '+' {
        s.drop_first()
    } else {
        s
    };
    match digits_value(t) {
        Some(v) => if t.len() > 0 && v <= u64::MAX {
            Some(v as u64)
        } else {
            None
        },
        None => None,
    }
}

proof fn lemma_digits_value(s: Seq<char>)
    ensures
        digits_value(s) is Some ==> digits_value(s)->0 >= 0,
    decreases s.len(),
{
    if s.len() > 0 {
        lemma_digits_value(s.drop_last());
    }
}

/// Once a run of digits is too big or broken, it stays so.
proof fn lemma_digits_prefix(s: Seq<char>, n: int)
    requires
        0 <= n <= s.len(),
    ensures
        digits_value(s.take(n)) is None ==> digits_value(s) is None,
        digits_value(s.take(n)) is Some && digits_value(s) is Some ==> digits_value(
            s.take(n),
        )->0 <= digits_value(s)->0,
    decreases s.len() - n,
{
    if n < s.len() {
        lemma_digits_prefix(s, n + 1);
        assert(s.take(n + 1).drop_last() =~= s.take(n));
        lemma_digits_value(s.take(n));
    } else {
        assert(s.take(n) =~= s);
    }
}

/// Read a number.
pub fn parse_number(text: &str) -> (r: Option<u64>)
    ensures
        r == parsed(text@),
{
    let s = chars_of(text);
    let first: usize = if s.len() > 0 && s[0] == '+' {
        1
    } else {
        0
    };
    let ghost t = s@.skip(first as int);
    assert(first == 1 ==> t =~= s@.drop_first());
    assert(first == 0 ==> t =~= s@);
    if s.len() == first {
        return None;
    }
    let mut v: u64 = 0;
    let mut i: usize = first;
    assert(t.take(0) =~= Seq::empty());
    while i < s.len()
        invariant
            first <= i <= s.len(),
            t == s@.skip(first as int),
            digits_value(t.take(i - first)) == Some(v as int),
            t.len() > 0,
            parsed(s@) == (match digits_value(t) {
                Some(v) => if v <= u64::MAX {
                    Some(v as u64)
                } else {
                    None
                },
                None => None,
            }),
            s@ == text@,
        decreases s.len() - i,
    {
        let c: char = s[i];
        assert(t.take(i - first + 1).drop_last() =~= t.take(i - first));
        assert(t.take(i - first + 1).last() == c);
        proof {
            lemma_digits_prefix(t, i - first + 1);
        }
        if c < '0' || c > '9' {
            return None;
        }
        let d: u64 = (c as u64) - ('0' as u64);
        if v > (u64::MAX - d) / 10 {
            assert(10 * v + d > u64::MAX);
            return None;
        }
        v = 10 * v + d;
        i += 1;
    }
    assert(t.take(i - first) =~= t);
    Some(v)
}

/// A number in decimal is made of digits, and has the number's value.
pub proof fn lemma_decimal_value(n: nat)
    ensures
        digits_value(decimal(n)) == Some(n as int),
        decimal(n).len() > 0,
        '0' <= decimal(n)[0] <= '9',
    decreases n,
{
    let s = decimal(n);
    if n < 10 {
        assert(s.drop_last() =~= Seq::empty());
        assert(digits_value(s.drop_last()) == Some(0int));
    } else {
        lemma_decimal_value(n / 10);
        assert(s.drop_last() =~= decimal(n / 10));
        assert(s[0] == decimal(n / 10)[0]);
    }
}

/// What is written is read back.
pub proof fn lemma_number_round_trip(n: u64)
    ensures
        parsed(decimal(n as nat)) == Some(n),
{
    lemma_decimal_value(n as nat);
}

/// A number as a text.
pub fn number_text(n: u64) -> (r: String)
    ensures
        r@ == decimal(n as nat),
{
    let s = decimal_of(n);
    string_of(s.as_slice())
}

/// A number in decimal has nothing but digits, no zero in front, and reads as the number;
/// padded, it is as wide as asked for and has zeros in front.
pub proof fn lemma_decimal_is(n: nat, width: nat)
    ensures
        digits_value(decimal(n)) == Some(n as int),
        n > 0 ==> decimal(n)[0] != '0',
        n == 0 ==> decimal(n) == seq!['0'],
        digits_value(zero_padded(n, width)) == Some(n as int),
        zero_padded(n, width).len() >= width,
        zero_padded(n, width).len() > width ==> zero_padded(n, width) == decimal(n),
{
    lemma_decimal_value(n);
    lemma_no_zero_in_front(n);
    assert(n == 0 ==> decimal(n) =~= seq!['0']);
    if decimal(n).len() < width {
        lemma_zeros_in_front(decimal(n), (width - decimal(n).len()) as nat);
    }
}

proof fn lemma_no_zero_in_front(n: nat)
    ensures
        n > 0 ==> decimal(n)[0] != '0',
        decimal(n).len() > 0,
    decreases n,
{
    if n >= 10 {
        lemma_no_zero_in_front(n / 10);
    }
}

proof fn lemma_zeros_in_front(s: Seq<char>, k: nat)
    ensures
        digits_value(Seq::new(k, |i: int| '0') + s) == digits_value(s),
    decreases s.len() + k,
{
    let zeros = Seq::new(k, |i: int| '0');
    let t = zeros + s;
    if s.len() > 0 {
        lemma_zeros_in_front(s.drop_last(), k);
        assert(t.drop_last() =~= zeros + s.drop_last());
        assert(t.last() == s.last());
    } else if k > 0 {
        let fewer = Seq::new((k - 1) as nat, |i: int| '0');
        lemma_zeros_in_front(s, (k - 1) as nat);
        assert(t.drop_last() =~= fewer + s);
        assert(t.last() == '0');
        assert(digits_value(s) == Some(0int));
    }
}

/// Digits are read from left to right: each counts tenfold what stands before it, `'0'`
/// to `'9'` are worth 0 to 9, and anything else spoils the number.
pub proof fn lemma_digits_are_read(s: Seq<char>, c: char)
    ensures
        digits_value(Seq::<char>::empty()) == Some(0int),
        digits_value(s) is Some && 48 <= c as u32 <= 57 ==> digits_value(s.push(c)) == Some(
            10 * digits_value(s)->0 + (c as u32 - 48),
        ),
        digits_value(s) is None || (c as u32) < 48 || c as u32 > 57 ==> digits_value(
            s.push(c),
        ) is None,
{
    assert(s.push(c).drop_last() =~= s);
    assert(s.push(c).last() == c);
}

/// What is a number: a run of digits, not empty, that is worth less than 2 to the 64th; a
/// plus sign in front changes nothing.
pub proof fn lemma_what_is_a_number(s: Seq<char>)
    requires
        s.len() == 0 || s[0] != '+',
    ensures
        parsed(s) == parsed(seq!['+'] + s),
        s.len() == 0 ==> parsed(s) is None,
        digits_value(s) is None ==> parsed(s) is None,
        s.len() > 0 && digits_value(s) is Some && digits_value(s)->0
            < 0x1_0000_0000_0000_0000int ==> parsed(s) is Some && parsed(s)->0
            == digits_value(s)->0,
        digits_value(s) is Some && digits_value(s)->0 >= 0x1_0000_0000_0000_0000int ==> parsed(
            s,
        ) is None,
{
    assert((seq!['+'] + s).drop_first() =~= s);
    lemma_digits_value(s);
}

} // verus!
