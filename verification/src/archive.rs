//! The archive of voice styles: a ZIP file with a table for every voice.

use crate::npy::{is_whole, npy_is_whole, voice_entry, voice_of, NpyError, STYLE_DIM};
use std::io::Read;
use vstd::prelude::*;

verus! {

/// Why an archive cannot be used.
#[derive(Debug, Clone, Copy, PartialEq, Eq, Structural)]
pub enum ArchiveError {
    /// It is not a ZIP file.
    NotZip,
    /// A file in it cannot be unpacked.
    Broken,
    /// A file in it ends within its header.
    Short,
    /// A file in it is not a table of whole rows.
    Table(NpyError),
}

/// A file of an archive.
pub open spec fn member(m: Option<(String, Vec<u8>)>) -> Option<(Seq<char>, Seq<u8>)> {
    match m {
        Some((name, bytes)) => Some((name@, bytes@)),
        None => None,
    }
}

/// The files of an archive.
pub open spec fn files(m: Seq<Option<(String, Vec<u8>)>>) -> Seq<Option<(Seq<char>, Seq<u8>)>> {
    m.map_values(|x: Option<(String, Vec<u8>)>| member(x))
}

/// The files that a ZIP archive holds, each with its name and contents, or nothing where
/// it cannot be unpacked; nothing at all where the bytes are no archive.
pub uninterp spec fn unzipped(bytes: Seq<u8>) -> Option<Seq<Option<(Seq<char>, Seq<u8>)>>>;

/// `zip::ZipArchive::new` opens an archive held in memory; `ZipArchive::by_index` gives
/// each of its `ZipArchive::len` files, whose name is `ZipFile::name` and whose contents
/// reading yields. All of it is a function of the archive's bytes; it is named
/// `unzipped`.
#[verifier::external_body]
fn unzip(bytes: &[u8]) -> (r: Option<Vec<Option<(String, Vec<u8>)>>>)
    ensures
        match r {
            Some(v) => unzipped(bytes@) == Some(files(v@)),
            None => unzipped(bytes@) is None,
        },
{
    let mut archive = zip::ZipArchive::new(std::io::Cursor::new(bytes)).ok()?;
    let mut all = Vec::new();
    for i in 0..archive.len() {
        all.push(archive.by_index(i).ok().and_then(|mut file| {
            let mut contents = Vec::new();
            let read = file.read_to_end(&mut contents).ok();
            read.map(|_| (file.name().to_string(), contents))
        }));
    }
    Some(all)
}

/// The voices of the first `n` files, or what is wrong with the first file that has
/// something wrong with it.
pub open spec fn voices_in(m: Seq<Option<(Seq<char>, Seq<u8>)>>, n: int) -> Result<
    Seq<(Seq<char>, Seq<u32>)>,
    ArchiveError,
>
    decreases n,
{
    if n <= 0 {
        Ok(Seq::empty())
    } else {
        match voices_in(m, n - 1) {
            Err(e) => Err(e),
            Ok(before) => match m[n - 1] {
                None => Err(ArchiveError::Broken),
                Some((name, bytes)) => if !is_whole(bytes) {
                    Err(ArchiveError::Short)
                } else {
                    match voice_of(name, bytes) {
                        Err(e) => Err(ArchiveError::Table(e)),
                        Ok(v) => Ok(before.push(v)),
                    }
                },
            },
        }
    }
}

proof fn lemma_error_stays(m: Seq<Option<(Seq<char>, Seq<u8>)>>, j: int, n: int)
    requires
        j <= n,
        voices_in(m, j) is Err,
    ensures
        voices_in(m, n) == voices_in(m, j),
    decreases n - j,
{
    if j < n {
        lemma_error_stays(m, j, n - 1);
    }
}

/// A list of voices and their tables.
pub open spec fn tables(v: Seq<(String, Vec<u32>)>) -> Seq<(Seq<char>, Seq<u32>)> {
    v.map_values(|x: (String, Vec<u32>)| (x.0@, x.1@))
}

/// Read the voices out of the files of an archive. A table is given as the bits of its
/// 32-bit floats.
pub fn read_voices(list: &Vec<Option<(String, Vec<u8>)>>) -> (r: Result<
    Vec<(String, Vec<u32>)>,
    ArchiveError,
>)
    ensures
        match r {
            Ok(v) => voices_in(files(list@), list.len() as int) == Ok::<_, ArchiveError>(
                tables(v@),
            ),
            Err(e) => voices_in(files(list@), list.len() as int) == Err::<
                Seq<(Seq<char>, Seq<u32>)>,
                _,
            >(e),
        },
{
    let ghost m = files(list@);
    let n: usize = list.len();
    let mut v: Vec<(String, Vec<u32>)> = Vec::new();
    let mut i: usize = 0;
    assert(tables(v@) =~= Seq::empty());
    while i < n
        invariant
            i <= n,
            n == list.len(),
            m == files(list@),
            voices_in(m, i as int) == Ok::<_, ArchiveError>(tables(v@)),
        decreases n - i,
    {
        assert(m[i as int] == member(list@[i as int]));
        let ghost before = v@;
        match &list[i] {
            None => {
                proof {
                    lemma_error_stays(m, i + 1, n as int);
                }
                return Err(ArchiveError::Broken);
            },
            Some((name, bytes)) => {
                if !npy_is_whole(bytes.as_slice()) {
                    proof {
                        lemma_error_stays(m, i + 1, n as int);
                    }
                    return Err(ArchiveError::Short);
                }
                match voice_entry(name.as_str(), bytes.as_slice()) {
                    Err(e) => {
                        proof {
                            lemma_error_stays(m, i + 1, n as int);
                        }
                        return Err(ArchiveError::Table(e));
                    },
                    Ok((id, table)) => {
                        let ghost entry = (id@, table@);
                        v.push((id, table));
                        assert(tables(v@) =~= tables(before).push(entry));
                    },
                }
            },
        }
        i += 1;
    }
    Ok(v)
}

/// Read the voices out of an archive.
pub fn load_voices(bytes: &[u8]) -> (r: Result<Vec<(String, Vec<u32>)>, ArchiveError>)
    ensures
        match unzipped(bytes@) {
            None => r == Err::<Vec<(String, Vec<u32>)>, ArchiveError>(ArchiveError::NotZip),
            Some(m) => match r {
                Ok(v) => voices_in(m, m.len() as int) == Ok::<_, ArchiveError>(tables(v@)),
                Err(e) => voices_in(m, m.len() as int) == Err::<
                    Seq<(Seq<char>, Seq<u32>)>,
                    _,
                >(e),
            },
        },
{
    match unzip(bytes) {
        None => Err(ArchiveError::NotZip),
        Some(list) => {
            assert(files(list@).len() == list.len());
            read_voices(&list)
        },
    }
}

/// Every table that is read has whole rows.
pub proof fn lemma_tables_have_whole_rows(m: Seq<Option<(Seq<char>, Seq<u8>)>>, n: int, k: int)
    requires
        voices_in(m, n) is Ok,
        0 <= k < voices_in(m, n)->Ok_0.len(),
    ensures
        voices_in(m, n)->Ok_0[k].1.len() % STYLE_DIM as nat == 0,
    decreases n,
{
    if n > 0 {
        let before = voices_in(m, n - 1)->Ok_0;
        if k < before.len() {
            lemma_tables_have_whole_rows(m, n - 1, k);
        }
    }
}

/// Where every file is a table of whole rows, the voices are those of the files, in their
/// order.
pub proof fn lemma_voices_in_order(m: Seq<Option<(Seq<char>, Seq<u8>)>>, n: int)
    requires
        0 <= n <= m.len(),
        forall|k: int|
            0 <= k < n ==> (#[trigger] m[k]) is Some && is_whole((m[k]->0).1) && voice_of(
                (m[k]->0).0,
                (m[k]->0).1,
            ) is Ok,
    ensures
        voices_in(m, n) is Ok,
        voices_in(m, n)->Ok_0.len() == n,
        forall|k: int|
            0 <= k < n ==> voices_in(m, n)->Ok_0[k] == voice_of(
                ((#[trigger] m[k])->0).0,
                (m[k]->0).1,
            )->Ok_0,
    decreases n,
{
    if n > 0 {
        lemma_voices_in_order(m, n - 1);
        assert(m[n - 1] is Some);
    }
}

/// The first file that cannot be used says what is wrong with the archive.
pub proof fn lemma_first_fault_counts(m: Seq<Option<(Seq<char>, Seq<u8>)>>, k: int, n: int)
    requires
        0 <= k < n <= m.len(),
        forall|j: int|
            0 <= j < k ==> (#[trigger] m[j]) is Some && is_whole((m[j]->0).1) && voice_of(
                (m[j]->0).0,
                (m[j]->0).1,
            ) is Ok,
    ensures
        m[k] is None ==> voices_in(m, n) == Err::<Seq<(Seq<char>, Seq<u32>)>, _>(
            ArchiveError::Broken,
        ),
        m[k] is Some && !is_whole((m[k]->0).1) ==> voices_in(m, n) == Err::<
            Seq<(Seq<char>, Seq<u32>)>,
            _,
        >(ArchiveError::Short),
        m[k] is Some && is_whole((m[k]->0).1) ==> match voice_of((m[k]->0).0, (m[k]->0).1) {
            Ok(_) => true,
            Err(e) => voices_in(m, n) == Err::<Seq<(Seq<char>, Seq<u32>)>, _>(
                ArchiveError::Table(e),
            ),
        },
{
    lemma_voices_in_order(m, k);
    if voices_in(m, k + 1) is Err {
        lemma_error_stays(m, k + 1, n);
    }
}

} // verus!
