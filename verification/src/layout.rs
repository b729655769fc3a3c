//! Which word each glyph cluster of a laid-out text belongs to, and the noise the
//! backdrop is dithered with.

use vstd::prelude::*;

verus! {

/// A glyph cluster as the layout engine gives it: the line it stands on, and the
/// byte of the text it begins at.
#[derive(Debug, Clone, Copy, PartialEq, Eq, Structural)]
pub struct Cluster {
    pub line: usize,
    pub start: usize,
}

/// The first word from `w` on that does not end at or before `start`.
pub open spec fn reached(words: Seq<(usize, usize)>, w: int, start: int) -> int
    decreases words.len() - w,
{
    if w >= words.len() || words[w].1 > start {
        w
    } else {
        reached(words, w + 1, start)
    }
}

/// The word that is current once the first `n` clusters are placed.
pub open spec fn current(words: Seq<(usize, usize)>, clusters: Seq<Cluster>, n: int) -> int
    decreases n,
{
    if n <= 0 {
        0
    } else {
        reached(words, current(words, clusters, n - 1), clusters[n - 1].start as int)
    }
}

/// The word that the `c`th cluster belongs to.
pub open spec fn home(words: Seq<(usize, usize)>, clusters: Seq<Cluster>, c: int) -> Option<int> {
    let w = current(words, clusters, c + 1);
    if 0 <= w < words.len() && words[w].0 <= clusters[c].start < words[w].1 {
        Some(w)
    } else {
        None
    }
}

/// The line that a word begins on, as far as the first `n` clusters tell.
pub open spec fn first_line(
    words: Seq<(usize, usize)>,
    clusters: Seq<Cluster>,
    w: int,
    n: int,
) -> Option<usize>
    decreases n,
{
    if n <= 0 {
        None
    } else if first_line(words, clusters, w, n - 1) is Some {
        first_line(words, clusters, w, n - 1)
    } else if home(words, clusters, n - 1) == Some(w) {
        Some(clusters[n - 1].line)
    } else {
        None
    }
}

/// The word whose box the `c`th cluster is part of: the one it belongs to, if that
/// word begins on the cluster's line.
pub open spec fn boxed(words: Seq<(usize, usize)>, clusters: Seq<Cluster>, c: int) -> Option<int> {
    match home(words, clusters, c) {
        Some(w) => if first_line(words, clusters, w, c + 1) == Some(clusters[c].line) {
            Some(w)
        } else {
            None
        },
        None => None,
    }
}

proof fn lemma_first_line_stays(
    words: Seq<(usize, usize)>,
    clusters: Seq<Cluster>,
    w: int,
    m: int,
    n: int,
)
    requires
        m <= n,
        first_line(words, clusters, w, m) is Some,
    ensures
        first_line(words, clusters, w, n) == first_line(words, clusters, w, m),
    decreases n - m,
{
    if m < n {
        lemma_first_line_stays(words, clusters, w, m, n - 1);
    }
}

/// The box of a word never leaves the line the word begins on, even where the word
/// wraps.
pub proof fn lemma_box_stays_on_first_line(
    words: Seq<(usize, usize)>,
    clusters: Seq<Cluster>,
    c: int,
    w: int,
)
    requires
        0 <= c < clusters.len(),
        boxed(words, clusters, c) == Some(w),
    ensures
        first_line(words, clusters, w, clusters.len() as int) == Some(clusters[c].line),
{
    lemma_first_line_stays(words, clusters, w, c + 1, clusters.len() as int);
}

/// A word has a box exactly if some cluster belongs to it: the first one does
/// count.
pub proof fn lemma_first_cluster_counts(
    words: Seq<(usize, usize)>,
    clusters: Seq<Cluster>,
    w: int,
    n: int,
)
    requires
        0 <= n <= clusters.len(),
        first_line(words, clusters, w, n) is Some,
    ensures
        exists|c: int| 0 <= c < n && #[trigger] boxed(words, clusters, c) == Some(w),
    decreases n,
{
    if first_line(words, clusters, w, n - 1) is Some {
        lemma_first_cluster_counts(words, clusters, w, n - 1);
    } else {
        assert(boxed(words, clusters, n - 1) == Some(w));
    }
}

/// Where the boxes of words come from.
#[derive(Debug)]
pub struct Boxes {
    /// Per cluster: the word whose box it is part of.
    pub part: Vec<Option<usize>>,
    /// Per word: the line it begins on.
    pub line: Vec<Option<usize>>,
}

proof fn lemma_current_bound(words: Seq<(usize, usize)>, clusters: Seq<Cluster>, n: int)
    ensures
        0 <= current(words, clusters, n) <= words.len(),
    decreases n,
{
    if n > 0 {
        lemma_current_bound(words, clusters, n - 1);
        lemma_reached_bound(
            words,
            current(words, clusters, n - 1),
            clusters[n - 1].start as int,
        );
    }
}

proof fn lemma_reached_bound(words: Seq<(usize, usize)>, w: int, start: int)
    requires
        0 <= w <= words.len(),
    ensures
        w <= reached(words, w, start) <= words.len(),
    decreases words.len() - w,
{
    if w < words.len() && words[w].1 <= start {
        lemma_reached_bound(words, w + 1, start);
    }
}

/// Give each cluster to the word whose box it is part of.
pub fn place_clusters(words: &Vec<(usize, usize)>, clusters: &Vec<Cluster>) -> (r: Boxes)
    ensures
        r.part.len() == clusters.len(),
        forall|c: int|
            0 <= c < clusters.len() ==> match #[trigger] r.part@[c] {
                Some(w) => boxed(words@, clusters@, c) == Some(w as int),
                None => boxed(words@, clusters@, c) is None,
            },
        r.line.len() == words.len(),
        forall|w: int|
            0 <= w < words.len() ==> #[trigger] r.line@[w] == first_line(
                words@,
                clusters@,
                w,
                clusters.len() as int,
            ),
{
    let mut part: Vec<Option<usize>> = Vec::new();
    let mut line: Vec<Option<usize>> = Vec::new();
    let mut k: usize = 0;
    while k < words.len()
        invariant
            k <= words.len(),
            line.len() == k,
            forall|w: int| 0 <= w < k ==> (#[trigger] line@[w]) is None,
        decreases words.len() - k,
    {
        line.push(None);
        k += 1;
    }
    let mut wi: usize = 0;
    let mut c: usize = 0;
    while c < clusters.len()
        invariant
            c <= clusters.len(),
            wi == current(words@, clusters@, c as int),
            wi <= words.len(),
            part.len() == c,
            forall|d: int|
                0 <= d < c ==> match #[trigger] part@[d] {
                    Some(w) => boxed(words@, clusters@, d) == Some(w as int),
                    None => boxed(words@, clusters@, d) is None,
                },
            line.len() == words.len(),
            forall|w: int|
                0 <= w < words.len() ==> #[trigger] line@[w] == first_line(
                    words@,
                    clusters@,
                    w,
                    c as int,
                ),
        decreases clusters.len() - c,
    {
        let start: usize = clusters[c].start;
        let ghost w0 = wi as int;
        while wi < words.len() && words[wi].1 <= start
            invariant
                wi <= words.len(),
                reached(words@, w0, start as int) == reached(words@, wi as int, start as int),
            decreases words.len() - wi,
        {
            wi += 1;
        }
        assert(wi == current(words@, clusters@, c + 1));
        let ghost before = line@;
        let mut mine: Option<usize> = None;
        if wi < words.len() && words[wi].0 <= start && start < words[wi].1 {
            assert(home(words@, clusters@, c as int) == Some(wi as int));
            if line[wi].is_none() {
                line.set(wi, Some(clusters[c].line));
            }
            if line[wi] == Some(clusters[c].line) {
                mine = Some(wi);
            }
        }
        assert forall|w: int| 0 <= w < words.len() implies #[trigger] line@[w] == first_line(
            words@,
            clusters@,
            w,
            c + 1,
        ) by {
            assert(before[w] == first_line(words@, clusters@, w, c as int));
        }
        part.push(mine);
        c += 1;
    }
    Boxes { part, line }
}

/// The tint behind the `i`th word runs on to the next word: both are of one
/// sentence and on one line. A word without a box counts as on the first line.
pub open spec fn runs_on(word_of: Seq<(usize, usize)>, line: Seq<Option<usize>>, i: int) -> bool {
    &&& i + 1 < word_of.len()
    &&& i + 1 < line.len()
    &&& word_of[i].0 == word_of[i + 1].0
    &&& row(line[i]) == row(line[i + 1])
}

pub open spec fn row(line: Option<usize>) -> usize {
    match line {
        Some(l) => l,
        None => 0,
    }
}

fn row_of(line: Option<usize>) -> (l: usize)
    ensures
        l == row(line),
{
    match line {
        Some(l) => l,
        None => 0,
    }
}

/// Which words' tint runs on to the next word.
pub fn tint_bands(word_of: &Vec<(usize, usize)>, line: &Vec<Option<usize>>) -> (r: Vec<bool>)
    ensures
        r.len() == word_of.len(),
        forall|i: int| 0 <= i < r.len() ==> #[trigger] r@[i] == runs_on(word_of@, line@, i),
{
    let mut r: Vec<bool> = Vec::new();
    let mut i: usize = 0;
    while i < word_of.len()
        invariant
            i <= word_of.len(),
            r.len() == i,
            forall|k: int| 0 <= k < i ==> #[trigger] r@[k] == runs_on(word_of@, line@, k),
        decreases word_of.len() - i,
    {
        let more: bool = word_of.len() - i > 1 && i < line.len() && line.len() - i > 1
            && word_of[i].0 == word_of[i + 1].0 && row_of(line[i]) == row_of(line[i + 1]);
        r.push(more);
        i += 1;
    }
    r
}

/// One step of a 32-bit xorshift generator.
pub open spec fn noise(seed: u32) -> u32 {
    let a = seed ^ (seed << 13u32);
    let b = a ^ (a >> 17u32);
    b ^ (b << 5u32)
}

/// One step of the dither's noise.
pub fn next_noise(seed: u32) -> (r: u32)
    ensures
        r == noise(seed),
        ({
            let a = seed ^ (seed << 13u32);
            let b = a ^ (a >> 17u32);
            r == b ^ (b << 5u32)
        }),
{
    let a: u32 = seed ^ (seed << 13u32);
    let b: u32 = a ^ (a >> 17u32);
    b ^ (b << 5u32)
}

/// The seed of the noise for a colour.
pub open spec fn blob_seed_of(r: u8, g: u8, b: u8) -> u32 {
    ((r as u32).wrapping_mul(73_856_093) ^ (g as u32).wrapping_mul(19_349_663) ^ (
    b as u32).wrapping_mul(83_492_791)) | 1
}

/// The seed of the noise for a colour.
pub fn blob_seed(r: u8, g: u8, b: u8) -> (seed: u32)
    ensures
        seed == blob_seed_of(r, g, b),
        seed == (((73_856_093 * r) % 0x1_0000_0000) as u32 ^ ((19_349_663 * g) % 0x1_0000_0000) as u32
            ^ ((83_492_791 * b) % 0x1_0000_0000) as u32) | 1,
        seed != 0,
{
    let x: u32 = (r as u32).wrapping_mul(73_856_093);
    let y: u32 = (g as u32).wrapping_mul(19_349_663);
    let z: u32 = (b as u32).wrapping_mul(83_492_791);
    let mixed: u32 = x ^ y ^ z;
    assert((mixed | 1) != 0) by (bit_vector);
    mixed | 1
}

/// The noise never runs dry: from a seed that is not zero it never reaches zero.
pub proof fn lemma_noise_goes_on(seed: u32)
    requires
        seed != 0,
    ensures
        noise(seed) != 0,
{
    let a = seed ^ (seed << 13u32);
    let b = a ^ (a >> 17u32);
    assert(a != 0) by (bit_vector)
        requires
            seed != 0,
            a == seed ^ (seed << 13u32),
    ;
    assert(b != 0) by (bit_vector)
        requires
            a != 0,
            b == a ^ (a >> 17u32),
    ;
    assert(b ^ (b << 5u32) != 0) by (bit_vector)
        requires
            b != 0,
    ;
}

proof fn lemma_reached(words: Seq<(usize, usize)>, w: int, start: int)
    requires
        0 <= w <= words.len(),
    ensures
        w <= reached(words, w, start) <= words.len(),
        forall|j: int| w <= j < reached(words, w, start) ==> (#[trigger] words[j]).1 <= start,
        reached(words, w, start) < words.len() ==> words[reached(words, w, start)].1 > start,
    decreases words.len() - w,
{
    if w < words.len() && words[w].1 <= start {
        lemma_reached(words, w + 1, start);
    }
}

proof fn lemma_current(words: Seq<(usize, usize)>, clusters: Seq<Cluster>, n: int)
    requires
        0 < n <= clusters.len(),
        forall|i: int, j: int|
            0 <= i <= j < clusters.len() ==> (#[trigger] clusters[i]).start <= (
            #[trigger] clusters[j]).start,
    ensures
        ({
            let w = current(words, clusters, n);
            let start = clusters[n - 1].start;
            &&& 0 <= w <= words.len()
            &&& forall|j: int| 0 <= j < w ==> (#[trigger] words[j]).1 <= start
            &&& w < words.len() ==> words[w].1 > start
        }),
    decreases n,
{
    if n > 1 {
        lemma_current(words, clusters, n - 1);
        assert(clusters[n - 2].start <= clusters[n - 1].start);
    }
    let before = current(words, clusters, n - 1);
    lemma_reached(words, before, clusters[n - 1].start as int);
}

/// Where the words stand one after the other and the clusters in the text's order, a
/// cluster belongs to a word exactly if it begins within it.
pub proof fn lemma_cluster_belongs(
    words: Seq<(usize, usize)>,
    clusters: Seq<Cluster>,
    c: int,
    w: int,
)
    requires
        0 <= c < clusters.len(),
        0 <= w < words.len(),
        forall|i: int, j: int|
            0 <= i < j < words.len() ==> (#[trigger] words[i]).1 <= (#[trigger] words[j]).0,
        forall|i: int, j: int|
            0 <= i <= j < clusters.len() ==> (#[trigger] clusters[i]).start <= (
            #[trigger] clusters[j]).start,
    ensures
        home(words, clusters, c) == Some(w) <==> words[w].0 <= clusters[c].start < words[w].1,
{
    lemma_current(words, clusters, c + 1);
    let cur = current(words, clusters, c + 1);
    if words[w].0 <= clusters[c].start < words[w].1 && cur < w {
        assert(words[cur].1 <= words[w].0);
    }
}

/// The line a word begins on is that of the first cluster that belongs to it, and its box
/// is made of its clusters on that line.
pub proof fn lemma_box_of_a_word(
    words: Seq<(usize, usize)>,
    clusters: Seq<Cluster>,
    w: int,
    first: int,
    c: int,
)
    requires
        0 <= first <= c < clusters.len(),
        home(words, clusters, first) == Some(w),
        forall|j: int| 0 <= j < first ==> #[trigger] home(words, clusters, j) != Some(w),
    ensures
        first_line(words, clusters, w, clusters.len() as int) == Some(clusters[first].line),
        boxed(words, clusters, c) == Some(w) <==> home(words, clusters, c) == Some(w)
            && clusters[c].line == clusters[first].line,
{
    lemma_no_line_yet(words, clusters, w, first);
    assert(first_line(words, clusters, w, first + 1) == Some(clusters[first].line));
    lemma_first_line_stays(words, clusters, w, first + 1, clusters.len() as int);
    lemma_first_line_stays(words, clusters, w, first + 1, c + 1);
}

/// A word to which no cluster belongs begins on no line.
pub proof fn lemma_no_line_yet(
    words: Seq<(usize, usize)>,
    clusters: Seq<Cluster>,
    w: int,
    n: int,
)
    requires
        0 <= n <= clusters.len(),
        forall|j: int| 0 <= j < n ==> #[trigger] home(words, clusters, j) != Some(w),
    ensures
        first_line(words, clusters, w, n) is None,
    decreases n,
{
    if n > 0 {
        lemma_no_line_yet(words, clusters, w, n - 1);
    }
}

/// The tint runs on between two words of one sentence that begin on one line, and never
/// behind the last word.
pub proof fn lemma_tint_runs_on(
    word_of: Seq<(usize, usize)>,
    line: Seq<Option<usize>>,
    i: int,
    a: usize,
    b: usize,
)
    requires
        0 <= i < word_of.len(),
        line.len() == word_of.len(),
    ensures
        i + 1 == word_of.len() ==> !runs_on(word_of, line, i),
        i + 1 < word_of.len() && line[i] == Some(a) && line[i + 1] == Some(b) ==> (runs_on(
            word_of,
            line,
            i,
        ) <==> word_of[i].0 == word_of[i + 1].0 && a == b),
        i + 1 < word_of.len() && line[i] is None && line[i + 1] == Some(b) ==> (runs_on(
            word_of,
            line,
            i,
        ) <==> word_of[i].0 == word_of[i + 1].0 && b == 0),
        i + 1 < word_of.len() && line[i] == Some(a) && line[i + 1] is None ==> (runs_on(
            word_of,
            line,
            i,
        ) <==> word_of[i].0 == word_of[i + 1].0 && a == 0),
        i + 1 < word_of.len() && line[i] is None && line[i + 1] is None ==> (runs_on(
            word_of,
            line,
            i,
        ) <==> word_of[i].0 == word_of[i + 1].0),
{
}

} // verus!
