//! The tables of voice styles: arrays of 32-bit floats in NumPy's file format.

use crate::text::{chars_of, contains, holds, stands_at, string_of, text_of_utf8};
use vstd::prelude::*;
use vstd::utf8::{decode_utf8, encode_utf8_decode_utf8, valid_utf8};

verus! {

/// How many numbers a row of a style table has.
pub const STYLE_DIM: usize = 256;

/// Why a file cannot be read as a table.
#[derive(Debug, Clone, Copy, PartialEq, Eq, Structural)]
pub enum NpyError {
    /// It does not begin as such a file does.
    NotNpy,
    /// Its header is not UTF-8.
    NotText,
    /// The numbers are not little-endian 32-bit floats, or not row by row.
    Layout,
    /// It does not hold whole rows, but so many numbers.
    Size(usize),
}

/// Two bytes, low byte first.
pub open spec fn le16(b: Seq<u8>, i: int) -> int {
    b[i] + 256 * b[i + 1]
}

/// Four bytes, low byte first.
pub open spec fn le32(b: Seq<u8>, i: int) -> int {
    b[i] + 256 * b[i + 1] + 65536 * b[i + 2] + 16777216 * b[i + 3]
}

fn read_le32(b: &[u8], i: usize) -> (n: u32)
    requires
        i + 4 <= b.len(),
    ensures
        n == le32(b@, i as int),
{
    b[i] as u32 + 256 * (b[i + 1] as u32) + 65536 * (b[i + 2] as u32) + 16777216 * (b[i + 3] as u32)
}

/// How every such file begins.
pub open spec fn magic() -> Seq<u8> {
    seq![147u8, 78u8, 85u8, 77u8, 80u8, 89u8]
}

/// Does a file begin as a NumPy file does?
pub open spec fn is_npy(b: Seq<u8>) -> bool {
    b.len() >= 10 && b.take(6) == magic()
}

/// Where the header begins, and how long it says it is.
pub open spec fn header_start(b: Seq<u8>) -> int {
    if b[6] == 1 {
        10
    } else {
        12
    }
}

pub open spec fn header_len(b: Seq<u8>) -> int {
    if b[6] == 1 {
        le16(b, 8)
    } else {
        le32(b, 8)
    }
}

/// The file is as long as its header says the header is.
pub open spec fn is_whole(b: Seq<u8>) -> bool {
    is_npy(b) ==> header_start(b) <= b.len() && header_start(b) + header_len(b) <= b.len()
}

/// The header of a file.
pub open spec fn header(b: Seq<u8>) -> Seq<u8> {
    b.subrange(header_start(b), header_start(b) + header_len(b))
}

/// A header that says: little-endian 32-bit floats, row by row.
pub open spec fn is_plain(h: Seq<char>) -> bool {
    contains(h, "<f4"@) && !contains(h, "'fortran_order': True"@)
}

/// The numbers of a table, each as the bits of a 32-bit float.
pub open spec fn numbers(b: Seq<u8>) -> Seq<u32> {
    Seq::new((b.len() / 4) as nat, |i: int| le32(b, 4 * i) as u32)
}

/// What a file holds.
pub open spec fn npy(b: Seq<u8>) -> Result<Seq<u32>, NpyError> {
    if !is_npy(b) {
        Err(NpyError::NotNpy)
    } else if !valid_utf8(header(b)) {
        Err(NpyError::NotText)
    } else if !is_plain(decode_utf8(header(b))) {
        Err(NpyError::Layout)
    } else {
        Ok(numbers(b.skip(header_start(b) + header_len(b))))
    }
}

fn says(h: &Vec<char>, word: &str) -> (b: bool)
    ensures
        b == contains(h@, word@),
{
    let w = chars_of(word);
    holds(h.as_slice(), w.as_slice())
}

fn bytes_of(b: &[u8], from: usize, to: usize) -> (r: Vec<u8>)
    requires
        from <= to <= b.len(),
    ensures
        r@ == b@.subrange(from as int, to as int),
{
    let mut r: Vec<u8> = Vec::new();
    let mut i: usize = from;
    while i < to
        invariant
            from <= i <= to <= b.len(),
            r@ == b@.subrange(from as int, i as int),
        decreases to - i,
    {
        r.push(b[i]);
        i += 1;
        assert(b@.subrange(from as int, i as int) =~= b@.subrange(from as int, i - 1).push(
            b@[i - 1],
        ));
    }
    r
}

fn has_magic(b: &[u8]) -> (r: bool)
    ensures
        r == is_npy(b@),
{
    if b.len() < 10 {
        return false;
    }
    let r: bool = b[0] == 147u8 && b[1] == 78u8 && b[2] == 85u8 && b[3] == 77u8 && b[4] == 80u8
        && b[5] == 89u8;
    proof {
        if r {
            assert(b@.take(6) =~= magic());
        } else if b@.take(6) == magic() {
            assert(forall|k: int| 0 <= k < 6 ==> b@[k] == #[trigger] b@.take(6)[k]);
            assert(b@.take(6)[0] == 147u8 && b@.take(6)[1] == 78u8 && b@.take(6)[2] == 85u8
                && b@.take(6)[3] == 77u8 && b@.take(6)[4] == 80u8 && b@.take(6)[5] == 89u8);
        }
    }
    r
}

/// Is the file as long as its header says the header is?
pub fn npy_is_whole(b: &[u8]) -> (r: bool)
    ensures
        r == is_whole(b@),
{
    if !has_magic(b) {
        return true;
    }
    if b[6] == 1 {
        let n: usize = b[8] as usize + 256 * (b[9] as usize);
        n <= b.len() - 10
    } else if b.len() < 12 {
        false
    } else {
        read_le32(b, 8) as usize <= b.len() - 12
    }
}

/// Read a table of 32-bit floats, each as its bits, from a file that is no shorter
/// than its header says.
pub fn parse_npy(b: &[u8]) -> (r: Result<Vec<u32>, NpyError>)
    requires
        is_whole(b@),
    ensures
        match r {
            Ok(v) => npy(b@) == Ok::<Seq<u32>, NpyError>(v@),
            Err(e) => npy(b@) == Err::<Seq<u32>, NpyError>(e),
        },
{
    if !has_magic(b) {
        return Err(NpyError::NotNpy);
    }
    let start: usize = if b[6] == 1 {
        10
    } else {
        12
    };
    let len: usize = if b[6] == 1 {
        b[8] as usize + 256 * (b[9] as usize)
    } else {
        read_le32(b, 8) as usize
    };
    let head = bytes_of(b, start, start + len);
    assert(head@ == header(b@));
    let text = match text_of_utf8(head.as_slice()) {
        Some(t) => t,
        None => {
            return Err(NpyError::NotText);
        },
    };
    proof {
        encode_utf8_decode_utf8(text@);
    }
    let chars = chars_of(text.as_str());
    if !says(&chars, "<f4") || says(&chars, "'fortran_order': True") {
        return Err(NpyError::Layout);
    }
    let from: usize = start + len;
    let ghost data = b@.skip(from as int);
    let n: usize = (b.len() - from) / 4;
    let mut v: Vec<u32> = Vec::new();
    let mut i: usize = 0;
    while i < n
        invariant
            i <= n,
            n == (b.len() - from) / 4,
            from <= b.len(),
            data == b@.skip(from as int),
            v.len() == i,
            forall|k: int| 0 <= k < i ==> #[trigger] v@[k] == numbers(data)[k],
        decreases n - i,
    {
        let x: u32 = read_le32(b, from + 4 * i);
        assert(le32(data, 4 * i) == le32(b@, from + 4 * i));
        v.push(x);
        i += 1;
    }
    assert(v@ =~= numbers(data));
    Ok(v)
}

/// The name of a table: that of its file, without `.npy` at its end.
pub open spec fn table_name(name: Seq<char>) -> Seq<char>
    decreases name.len(),
{
    let n = name.len() - 4;
    if n >= 0 && name.skip(n) == seq!['.', 'n', 'p', 'y'] {
        table_name(name.take(n))
    } else {
        name
    }
}

/// The voice that a file of the archive of styles holds: its name, and its table of
/// whole rows.
pub open spec fn voice_of(name: Seq<char>, b: Seq<u8>) -> Result<
    (Seq<char>, Seq<u32>),
    NpyError,
> {
    match npy(b) {
        Err(e) => Err(e),
        Ok(v) => if v.len() % STYLE_DIM as nat != 0 {
            Err(NpyError::Size(v.len() as usize))
        } else {
            Ok((table_name(name), v))
        },
    }
}

fn without_suffix(name: &str) -> (r: String)
    ensures
        r@ == table_name(name@),
{
    let mut s = chars_of(name);
    let suffix: [char; 4] = ['.', 'n', 'p', 'y'];
    assert(suffix@ =~= seq!['.', 'n', 'p', 'y']);
    let mut more: bool = true;
    while more
        invariant
            suffix@ == seq!['.', 'n', 'p', 'y'],
            table_name(s@) == table_name(name@),
            !more ==> table_name(s@) == s@,
        decreases s.len(), (if more { 1int } else { 0int }),
    {
        if s.len() >= 4 && stands_at(s.as_slice(), suffix.as_slice(), s.len() - 4) {
            let n: usize = s.len() - 4;
            assert(s@.skip(n as int) =~= s@.subrange(n as int, n + 4));
            let ghost before = s@;
            s.truncate(n);
            assert(s@ =~= before.take(n as int));
        } else {
            more = false;
            if s.len() >= 4 {
                assert(s@.skip(s.len() - 4) =~= s@.subrange(s.len() - 4, s.len() - 4 + 4));
            }
        }
    }
    string_of(s.as_slice())
}

/// Read a voice from a file of the archive of styles.
pub fn voice_entry(name: &str, b: &[u8]) -> (r: Result<(String, Vec<u32>), NpyError>)
    requires
        is_whole(b@),
    ensures
        match r {
            Ok((id, table)) => voice_of(name@, b@) == Ok::<_, NpyError>((id@, table@)),
            Err(e) => voice_of(name@, b@) == Err::<(Seq<char>, Seq<u32>), _>(e),
        },
{
    match parse_npy(b) {
        Err(e) => Err(e),
        Ok(v) => {
            if v.len() % STYLE_DIM != 0 {
                Err(NpyError::Size(v.len()))
            } else {
                Ok((without_suffix(name), v))
            }
        },
    }
}

/// A file of the first version: the magic, the version, the header's length in two bytes,
/// the header and the numbers.
pub open spec fn first_version(minor: u8, h: Seq<u8>, data: Seq<u8>) -> Seq<u8> {
    seq![
        147u8,
        78u8,
        85u8,
        77u8,
        80u8,
        89u8,
        1u8,
        minor,
        (h.len() % 256) as u8,
        (h.len() / 256) as u8,
    ] + h + data
}

/// A file of a later version has the header's length in four bytes.
pub open spec fn later_version(major: u8, minor: u8, h: Seq<u8>, data: Seq<u8>) -> Seq<u8> {
    seq![
        147u8,
        78u8,
        85u8,
        77u8,
        80u8,
        89u8,
        major,
        minor,
        (h.len() % 256) as u8,
        (h.len() / 256 % 256) as u8,
        (h.len() / 65536 % 256) as u8,
        (h.len() / 16777216) as u8,
    ] + h + data
}

/// The numbers of a file are what stands behind its header, if that says little-endian
/// 32-bit floats row by row; another header, or one that is no text, is refused.
pub proof fn lemma_first_version_is_read(minor: u8, h: Seq<u8>, data: Seq<u8>)
    requires
        h.len() < 0x1_0000,
    ensures
        ({
            let b = first_version(minor, h, data);
            let plain = contains(decode_utf8(h), "<f4"@) && !contains(
                decode_utf8(h),
                "'fortran_order': True"@,
            );
            &&& is_whole(b)
            &&& valid_utf8(h) && plain ==> npy(b) == Ok::<_, NpyError>(numbers(data))
            &&& valid_utf8(h) && !plain ==> npy(b) == Err::<Seq<u32>, _>(NpyError::Layout)
            &&& !valid_utf8(h) ==> npy(b) == Err::<Seq<u32>, _>(NpyError::NotText)
        }),
{
    let b = first_version(minor, h, data);
    assert(b.take(6) =~= magic());
    assert(b[8] == h.len() % 256 && b[9] == h.len() / 256);
    assert(header(b) =~= h);
    assert(b.skip(10 + h.len() as int) =~= data);
}

/// So it is in a file of a later version.
pub proof fn lemma_later_version_is_read(major: u8, minor: u8, h: Seq<u8>, data: Seq<u8>)
    requires
        major != 1,
        h.len() < 0x1_0000_0000,
    ensures
        ({
            let b = later_version(major, minor, h, data);
            let plain = contains(decode_utf8(h), "<f4"@) && !contains(
                decode_utf8(h),
                "'fortran_order': True"@,
            );
            &&& is_whole(b)
            &&& valid_utf8(h) && plain ==> npy(b) == Ok::<_, NpyError>(numbers(data))
            &&& valid_utf8(h) && !plain ==> npy(b) == Err::<Seq<u32>, _>(NpyError::Layout)
            &&& !valid_utf8(h) ==> npy(b) == Err::<Seq<u32>, _>(NpyError::NotText)
        }),
{
    let b = later_version(major, minor, h, data);
    let n = h.len() as int;
    assert(b.take(6) =~= magic());
    assert(b[8] == n % 256 && b[9] == n / 256 % 256 && b[10] == n / 65536 % 256 && b[11] == n
        / 16777216);
    assert(le32(b, 8) == n);
    assert(header(b) =~= h);
    assert(b.skip(12 + n) =~= data);
}

/// What does not begin with the magic, or is shorter than ten bytes, is no such file.
pub proof fn lemma_not_such_a_file(b: Seq<u8>)
    requires
        b.len() < 10 || b[0] != 147 || b[1] != 78 || b[2] != 85 || b[3] != 77 || b[4] != 80 || b[5]
            != 89,
    ensures
        is_whole(b),
        npy(b) == Err::<Seq<u32>, _>(NpyError::NotNpy),
{
    if b.len() >= 10 && b.take(6) == magic() {
        assert(b.take(6)[0] == b[0] && b.take(6)[1] == b[1] && b.take(6)[2] == b[2] && b.take(6)[3]
            == b[3] && b.take(6)[4] == b[4] && b.take(6)[5] == b[5]);
    }
}

/// Every four bytes are a number, low byte first.
pub proof fn lemma_numbers_are_read(data: Seq<u8>, i: int)
    requires
        0 <= i,
        4 * i + 4 <= data.len(),
    ensures
        numbers(data).len() == data.len() / 4,
        numbers(data)[i] == data[4 * i] + 256 * data[4 * i + 1] + 65536 * data[4 * i + 2]
            + 16777216 * data[4 * i + 3],
{
}

/// A voice is called as its file is, `.npy` at the end aside, and its table has rows of 256
/// numbers.
pub proof fn lemma_voice_of_a_file(name: Seq<char>, b: Seq<u8>)
    ensures
        table_name(name + seq!['.', 'n', 'p', 'y']) == table_name(name),
        name.len() < 4 || name.skip(name.len() - 4) != seq!['.', 'n', 'p', 'y'] ==> table_name(name)
            == name,
        match npy(b) {
            Ok(v) => if v.len() % 256 == 0 {
                voice_of(name, b) == Ok::<_, NpyError>((table_name(name), v))
            } else {
                voice_of(name, b) == Err::<(Seq<char>, Seq<u32>), _>(
                    NpyError::Size(v.len() as usize),
                )
            },
            Err(e) => voice_of(name, b) == Err::<(Seq<char>, Seq<u32>), _>(e),
        },
{
    let long = name + seq!['.', 'n', 'p', 'y'];
    assert(long.skip(long.len() - 4) =~= seq!['.', 'n', 'p', 'y']);
    assert(long.take(long.len() - 4) =~= name);
}

} // verus!
