//! The document the reader shows: its sentences, its words, and which belongs to
//! which.

use crate::bytes::chars_and_offsets;
use crate::runs::{lemma_runs, pairs};
use crate::segment::{
    byte_spans, lemma_spans_in_bounds, sentence_spans, sentences, spans, spans_from, to_bytes,
    well_cut,
};
use crate::text::{slice_of, string_of, white};
use crate::words::{
    lemma_first_word, text_words, word_spans, word_spans_within, words_within, wordy,
};
use vstd::prelude::*;
use vstd::utf8::encode_utf8;

verus! {

/// One sentence of a document.
#[derive(Debug)]
pub struct SentenceInfo {
    pub text: String,
    pub first_word: usize,
    pub n_words: usize,
    /// The length of its audio in samples; none until it is synthesized.
    pub dur: Option<u32>,
}

/// A text laid out for reading.
#[derive(Debug)]
pub struct Doc {
    pub sentences: Vec<SentenceInfo>,
    /// Per word: its sentence, and which word of that sentence it is.
    pub word_of: Vec<(usize, usize)>,
    /// Per word: its byte range in `raw`.
    pub word_range: Vec<(usize, usize)>,
    pub raw: String,
}

/// One sentence of a document.
pub struct SentenceView {
    pub text: Seq<char>,
    pub first_word: int,
    pub n_words: int,
    pub dur: Option<u32>,
}

impl View for SentenceInfo {
    type V = SentenceView;

    open spec fn view(&self) -> SentenceView {
        SentenceView {
            text: self.text@,
            first_word: self.first_word as int,
            n_words: self.n_words as int,
            dur: self.dur,
        }
    }
}

/// A text laid out for reading: its sentences, which word belongs where, and where in
/// the text it lies.
#[verifier::ext_equal]
pub struct DocView {
    pub sentences: Seq<SentenceView>,
    pub word_of: Seq<(int, int)>,
    pub word_range: Seq<(int, int)>,
    pub raw: Seq<char>,
}

impl View for Doc {
    type V = DocView;

    open spec fn view(&self) -> DocView {
        DocView {
            sentences: self.sentences@.map_values(|s: SentenceInfo| s@),
            word_of: pairs(self.word_of@),
            word_range: pairs(self.word_range@),
            raw: self.raw@,
        }
    }
}

/// The document of a text that has the given sentences, with nothing synthesized.
pub open spec fn fresh_doc(s: Seq<char>, sents: Seq<(int, int)>) -> DocView {
    DocView {
        sentences: Seq::new(
            sents.len(),
            |k: int|
                SentenceView {
                    text: s.subrange(sents[k].0, sents[k].1),
                    first_word: words_upto(s, sents, k).len() as int,
                    n_words: word_spans_within(s, sents[k].0, sents[k].1).len() as int,
                    dur: None,
                },
        ),
        word_of: places_upto(s, sents, sents.len() as int),
        word_range: byte_spans(s, words_upto(s, sents, sents.len() as int)),
        raw: s,
    }
}

/// Where the words of the first `k` sentences lie, in characters. A word never
/// crosses a sentence boundary.
pub open spec fn words_upto(s: Seq<char>, sents: Seq<(int, int)>, k: int) -> Seq<(int, int)>
    decreases k,
{
    if k <= 0 {
        Seq::empty()
    } else {
        words_upto(s, sents, k - 1) + word_spans_within(s, sents[k - 1].0, sents[k - 1].1)
    }
}

/// Which words the first `k` sentences have: of each its sentence and its place
/// in it.
pub open spec fn places_upto(s: Seq<char>, sents: Seq<(int, int)>, k: int) -> Seq<(int, int)>
    decreases k,
{
    if k <= 0 {
        Seq::empty()
    } else {
        places_upto(s, sents, k - 1) + Seq::new(
            word_spans_within(s, sents[k - 1].0, sents[k - 1].1).len(),
            |i: int| (k - 1, i),
        )
    }
}

impl SentenceInfo {
    /// This is the `k`th of the given sentences, and not yet synthesized.
    pub open spec fn is_fresh(&self, s: Seq<char>, sents: Seq<(int, int)>, k: int) -> bool {
        self@ == fresh_doc(s, sents).sentences[k]
    }
}

impl Doc {
    /// The words are numbered through the sentences, and every sentence has one.
    pub open spec fn wf(&self) -> bool {
        &&& self.word_of.len() == self.word_range.len()
        &&& forall|k: int|
            0 <= k < self.sentences.len() ==> (#[trigger] self.sentences@[k]).n_words > 0
                && self.sentences@[k].first_word + self.sentences@[k].n_words
                <= self.word_of.len()
        &&& forall|w: int|
            0 <= w < self.word_of.len() ==> {
                let p = #[trigger] self.word_of@[w];
                &&& p.0 < self.sentences.len()
                &&& p.1 < self.sentences@[p.0 as int].n_words
                &&& self.sentences@[p.0 as int].first_word + p.1 == w
            }
        &&& forall|j: int, k: int|
            0 <= j < k < self.sentences.len() ==> (#[trigger] self.sentences@[j]).first_word
                + self.sentences@[j].n_words <= (#[trigger] self.sentences@[k]).first_word
    }

    /// No two sentences share a word.
    pub proof fn lemma_sentences_apart(&self, j: int, k: int)
        requires
            self.wf(),
            0 <= j < self.sentences.len(),
            0 <= k < self.sentences.len(),
        ensures
            j < k ==> self.sentences@[j].first_word + self.sentences@[j].n_words
                <= self.sentences@[k].first_word,
    {
    }

    /// This is the document of a text that has the given sentences, with nothing
    /// synthesized.
    pub open spec fn is_doc_of(&self, s: Seq<char>, sents: Seq<(int, int)>) -> bool {
        self@ == fresh_doc(s, sents)
    }
}

proof fn lemma_same_count(s: Seq<char>, sents: Seq<(int, int)>, k: int)
    ensures
        words_upto(s, sents, k).len() == places_upto(s, sents, k).len(),
    decreases k,
{
    if k > 0 {
        lemma_same_count(s, sents, k - 1);
    }
}

proof fn lemma_count_grows(s: Seq<char>, sents: Seq<(int, int)>, j: int, k: int)
    requires
        j <= k,
    ensures
        words_upto(s, sents, j).len() <= words_upto(s, sents, k).len(),
    decreases k - j,
{
    if j < k {
        lemma_count_grows(s, sents, j, k - 1);
    }
}

/// What the numbering says of each word: its sentence, and that it is that many
/// words behind the sentence's first.
proof fn lemma_places(s: Seq<char>, sents: Seq<(int, int)>, n: int, w: int)
    requires
        0 <= w < places_upto(s, sents, n).len(),
    ensures
        ({
            let p = places_upto(s, sents, n)[w];
            &&& 0 <= p.0 < n
            &&& 0 <= p.1 < word_spans_within(s, sents[p.0].0, sents[p.0].1).len()
            &&& words_upto(s, sents, p.0).len() + p.1 == w
        }),
    decreases n,
{
    if n > 0 {
        lemma_same_count(s, sents, n - 1);
        if w < places_upto(s, sents, n - 1).len() {
            lemma_places(s, sents, n - 1, w);
            assert(places_upto(s, sents, n)[w] == places_upto(s, sents, n - 1)[w]);
        } else {
            assert(places_upto(s, sents, n)[w] == (
                n - 1,
                w - places_upto(s, sents, n - 1).len(),
            ));
        }
    }
}

/// Every document numbers its words through its sentences, and every sentence of
/// a text has a word.
pub proof fn lemma_doc_numbers_words(doc: Doc, s: Seq<char>, sents: Seq<(int, int)>)
    requires
        doc.is_doc_of(s, sents),
        well_cut(s, sents, 0, s.len() as int),
    ensures
        doc.wf(),
{
    let n = sents.len() as int;
    lemma_same_count(s, sents, n);
    assert(pairs(doc.word_range@).len() == doc.word_range.len());
    assert(pairs(doc.word_of@).len() == doc.word_of.len());
    assert(byte_spans(s, words_upto(s, sents, n)).len() == words_upto(s, sents, n).len());
    assert(doc@.sentences.len() == doc.sentences.len());
    assert forall|k: int| 0 <= k < doc.sentences.len() implies (
    #[trigger] doc.sentences@[k]).n_words > 0 && doc.sentences@[k].first_word
        + doc.sentences@[k].n_words <= doc.word_of.len() by {
        assert(doc@.sentences[k] == doc.sentences@[k]@);
        assert(!white(s[sents[k].0]));
        lemma_first_word(s, sents[k].0, sents[k].1);
        lemma_count_grows(s, sents, k + 1, n);
    }
    assert forall|j: int, k: int| 0 <= j < k < doc.sentences.len() implies (
    #[trigger] doc.sentences@[j]).first_word + doc.sentences@[j].n_words <= (
    #[trigger] doc.sentences@[k]).first_word by {
        assert(doc@.sentences[j] == doc.sentences@[j]@);
        assert(doc@.sentences[k] == doc.sentences@[k]@);
        lemma_count_grows(s, sents, j + 1, k);
    }
    assert forall|w: int| 0 <= w < doc.word_of.len() implies {
        let p = #[trigger] doc.word_of@[w];
        &&& p.0 < doc.sentences.len()
        &&& p.1 < doc.sentences@[p.0 as int].n_words
        &&& doc.sentences@[p.0 as int].first_word + p.1 == w
    } by {
        let p = doc.word_of@[w];
        assert(pairs(doc.word_of@)[w] == (p.0 as int, p.1 as int));
        lemma_places(s, sents, n, w);
        assert(doc@.sentences[p.0 as int] == doc.sentences@[p.0 as int]@);
    }
}

/// A word never crosses a sentence boundary: each lies within the sentence it belongs to.
pub proof fn lemma_words_stay_in_sentence(s: Seq<char>, sents: Seq<(int, int)>, n: int, w: int)
    requires
        well_cut(s, sents, 0, s.len() as int),
        0 <= n <= sents.len(),
        0 <= w < words_upto(s, sents, n).len(),
    ensures
        ({
            let (sent, _) = places_upto(s, sents, n)[w];
            let word = words_upto(s, sents, n)[w];
            sents[sent].0 <= word.0 < word.1 <= sents[sent].1
        }),
    decreases n,
{
    lemma_same_count(s, sents, n - 1);
    let before = words_upto(s, sents, n - 1);
    if w < before.len() {
        lemma_words_stay_in_sentence(s, sents, n - 1, w);
        assert(words_upto(s, sents, n)[w] == before[w]);
        assert(places_upto(s, sents, n)[w] == places_upto(s, sents, n - 1)[w]);
    } else {
        let (a, b) = sents[n - 1];
        let k = w - before.len();
        let piece = s.subrange(a, b);
        lemma_runs(wordy(piece));
        assert(word_spans(piece)[k].1 <= piece.len());
        assert(words_upto(s, sents, n)[w] == word_spans_within(s, a, b)[k]);
        assert(places_upto(s, sents, n)[w] == (n - 1, k as int));
    }
}

/// A word within a stretch is a word of the stretch on its own.
proof fn lemma_word_of_stretch(s: Seq<char>, a: int, b: int, k: int)
    requires
        0 <= a <= b <= s.len(),
        0 <= k < word_spans_within(s, a, b).len(),
    ensures
        ({
            let word = word_spans_within(s, a, b)[k];
            let spoken = text_words(s.subrange(a, b));
            &&& spoken.len() == word_spans_within(s, a, b).len()
            &&& spoken[k].text == s.subrange(word.0, word.1)
        }),
{
    let piece = s.subrange(a, b);
    lemma_runs(wordy(piece));
    let p = word_spans(piece)[k];
    assert(0 <= p.0 < p.1 <= piece.len());
    assert(piece.subrange(p.0, p.1) =~= s.subrange(a + p.0, a + p.1));
}

/// The words of a sentence in the reader are those of the sentence spoken on its own: as
/// many, and each the same text, so that the time of one is the time of the other.
pub proof fn lemma_reader_shows_spoken_words(
    s: Seq<char>,
    sents: Seq<(int, int)>,
    sent: int,
    k: int,
)
    requires
        well_cut(s, sents, 0, s.len() as int),
        0 <= sent < sents.len(),
        0 <= k < fresh_doc(s, sents).sentences[sent].n_words,
    ensures
        ({
            let info = fresh_doc(s, sents).sentences[sent];
            let word = words_upto(s, sents, sent + 1)[info.first_word + k];
            &&& text_words(info.text).len() == info.n_words
            &&& text_words(info.text)[k].text == s.subrange(word.0, word.1)
        }),
{
    let (a, b) = sents[sent];
    assert(0 <= a < b <= s.len());
    lemma_word_of_stretch(s, a, b, k);
    let before = words_upto(s, sents, sent);
    let own = word_spans_within(s, a, b);
    assert(words_upto(s, sents, sent + 1) == before + own);
    assert((before + own)[before.len() + k] == own[k]);
}

/// Cut a text that has the given sentences, in characters, into words.
#[verifier::spinoff_prover]
#[verifier::rlimit(40)]
pub fn doc_of(raw: &str, sents: &Vec<(usize, usize)>) -> (doc: Doc)
    requires
        well_cut(raw@, pairs(sents@), 0, raw@.len() as int),
    ensures
        doc.is_doc_of(raw@, pairs(sents@)),
        doc.wf(),
{
    let (s, offs) = chars_and_offsets(raw);
    let ghost g = pairs(sents@);
    proof {
        lemma_spans_in_bounds(raw@, sents@);
    }
    assert(pairs(sents@).len() == sents.len());
    let mut sentences: Vec<SentenceInfo> = Vec::new();
    let mut words: Vec<(usize, usize)> = Vec::new();
    let mut word_of: Vec<(usize, usize)> = Vec::new();
    let mut k: usize = 0;
    assert(pairs(words@) =~= words_upto(s@, g, 0));
    assert(pairs(word_of@) =~= places_upto(s@, g, 0));
    while k < sents.len()
        invariant
            k <= sents.len(),
            s@ == raw@,
            g == pairs(sents@),
            forall|i: int|
                0 <= i < sents.len() ==> (#[trigger] sents@[i]).0 < sents@[i].1 && sents@[i].1
                    <= s.len(),
            sentences.len() == k,
            forall|i: int|
                0 <= i < k ==> (#[trigger] sentences@[i]).is_fresh(s@, g, i),
            pairs(words@) == words_upto(s@, g, k as int),
            forall|i: int| 0 <= i < words.len() ==> (#[trigger] words@[i]).1 <= s.len()
                && words@[i].0 <= s.len(),
            pairs(word_of@) == places_upto(s@, g, k as int),
        decreases sents.len() - k,
    {
        let (a, b) = sents[k];
        assert(g[k as int] == (a as int, b as int));
        let found = words_within(&s, a, b);
        assert(pairs(found@).len() == found.len());
        assert(pairs(words@).len() == words.len());
        let first: usize = words.len();
        let ghost w0 = pairs(words@);
        let ghost p0 = pairs(word_of@);
        let mut i: usize = 0;
        assert(pairs(found@).take(0) =~= Seq::empty());
        assert(w0 + pairs(found@).take(0) =~= w0);
        while i < found.len()
            invariant
                i <= found.len(),
                a <= b <= s.len(),
                forall|j: int|
                    0 <= j < found.len() ==> a <= (#[trigger] found@[j]).0 < found@[j].1 <= b,
                pairs(words@) == w0 + pairs(found@).take(i as int),
                forall|j: int| 0 <= j < words.len() ==> (#[trigger] words@[j]).1 <= s.len()
                    && words@[j].0 <= s.len(),
                pairs(word_of@) == p0 + Seq::new(i as nat, |j: int| (k as int, j)),
            decreases found.len() - i,
        {
            let ghost w1 = words@;
            let ghost p1 = word_of@;
            words.push(found[i]);
            word_of.push((k, i));
            assert(pairs(words@) =~= pairs(w1).push(pairs(found@)[i as int]));
            assert(pairs(found@).take(i + 1) =~= pairs(found@).take(i as int).push(
                pairs(found@)[i as int],
            ));
            assert(pairs(word_of@) =~= pairs(p1).push((k as int, i as int)));
            i += 1;
            assert(pairs(words@) =~= w0 + pairs(found@).take(i as int));
            assert(pairs(word_of@) =~= p0 + Seq::new(i as nat, |j: int| (k as int, j)));
        }
        assert(pairs(found@).take(i as int) =~= pairs(found@));
        let part = slice_of(s.as_slice(), a, b);
        let text = string_of(part.as_slice());
        let ghost old_sentences = sentences@;
        sentences.push(SentenceInfo { text, first_word: first, n_words: found.len(), dur: None });
        k += 1;
        assert(places_upto(s@, g, k as int) =~= p0 + Seq::new(
            found.len() as nat,
            |j: int| (k - 1, j),
        ));
        assert forall|i: int| 0 <= i < k implies (#[trigger] sentences@[i]).is_fresh(s@, g, i) by {
            if i < k - 1 {
                assert(sentences@[i] == old_sentences[i]);
            }
        }
    }
    let word_range = to_bytes(&s, &offs, &words);
    let doc = Doc { sentences, word_of, word_range, raw: string_of(s.as_slice()) };
    assert(doc@ =~= fresh_doc(raw@, g));
    proof {
        lemma_doc_numbers_words(doc, raw@, g);
    }
    doc
}

/// Cut a text into sentences and words.
pub fn build_doc(raw: &str) -> (doc: Doc)
    ensures
        doc.is_doc_of(raw@, spans(raw@)),
        sentences(raw@).flatten() == raw@,
        doc@ == fresh_doc(raw@, spans_from(raw@, sentences(raw@), 0, 0)),
        doc.wf(),
        well_cut(raw@, spans(raw@), 0, raw@.len() as int),
{
    let (s, offs) = chars_and_offsets(raw);
    let sents = sentence_spans(raw, &s, &offs);
    doc_of(raw, &sents)
}

/// The first word of a sentence.
pub fn doc_first_word(doc: &Doc, sent: usize) -> (r: Option<usize>)
    ensures
        r == (if sent < doc.sentences.len() {
            Some(doc.sentences@[sent as int].first_word)
        } else {
            None
        }),
{
    if sent < doc.sentences.len() {
        Some(doc.sentences[sent].first_word)
    } else {
        None
    }
}

/// What a document says of its sentences and words. A sentence is its stretch of the text.
/// Its words are those that stand between ASCII white space within it; they are numbered on
/// from the sentence before, and each is found where it lies in the text.
pub proof fn lemma_document_follows_text(s: Seq<char>, sents: Seq<(int, int)>, k: int, i: int)
    requires
        0 <= k < sents.len(),
        forall|j: int| 0 <= j < sents.len() ==> 0 <= (#[trigger] sents[j]).0 <= sents[j].1 <= s.len(),
        0 <= i < text_words(s.subrange(sents[k].0, sents[k].1)).len(),
    ensures
        ({
            let doc = fresh_doc(s, sents);
            let info = doc.sentences[k];
            let w = info.first_word + i;
            let (a, b) = word_spans(info.text)[i];
            &&& doc.raw == s
            &&& doc.sentences.len() == sents.len()
            &&& info.text == s.subrange(sents[k].0, sents[k].1)
            &&& info.dur is None
            &&& info.n_words == text_words(info.text).len()
            &&& k == 0 ==> info.first_word == 0
            &&& k + 1 < sents.len() ==> doc.sentences[k + 1].first_word == info.first_word
                + info.n_words
            &&& k + 1 == sents.len() ==> doc.word_of.len() == info.first_word + info.n_words
            &&& doc.word_range.len() == doc.word_of.len()
            &&& 0 <= w < doc.word_of.len()
            &&& doc.word_of[w] == (k, i)
            &&& doc.word_range[w] == (
                encode_utf8(s.take(sents[k].0 + a)).len() as int,
                encode_utf8(s.take(sents[k].0 + b)).len() as int,
            )
        }),
{
    let n = sents.len() as int;
    let (x, y) = sents[k];
    let own = word_spans_within(s, x, y);
    let piece = s.subrange(x, y);
    assert(own.len() == word_spans(piece).len());
    assert(text_words(piece).len() == word_spans(piece).len());
    lemma_same_count(s, sents, n);
    lemma_same_count(s, sents, k);
    lemma_same_count(s, sents, k + 1);
    lemma_count_grows(s, sents, k + 1, n);
    lemma_upto_prefix(s, sents, k + 1, n);
    let w = words_upto(s, sents, k).len() + i;
    assert(words_upto(s, sents, k + 1)[w] == own[i]);
    assert(places_upto(s, sents, k + 1)[w] == (k, i));
    assert(words_upto(s, sents, n)[w] == words_upto(s, sents, k + 1)[w]);
    assert(places_upto(s, sents, n)[w] == places_upto(s, sents, k + 1)[w]);
    assert(fresh_doc(s, sents).word_range[w] == byte_spans(s, words_upto(s, sents, n))[w]);
}

proof fn lemma_upto_prefix(s: Seq<char>, sents: Seq<(int, int)>, j: int, k: int)
    requires
        0 <= j <= k,
    ensures
        words_upto(s, sents, j).len() <= words_upto(s, sents, k).len(),
        places_upto(s, sents, j).len() <= places_upto(s, sents, k).len(),
        forall|w: int|
            0 <= w < words_upto(s, sents, j).len() ==> #[trigger] words_upto(s, sents, k)[w]
                == words_upto(s, sents, j)[w],
        forall|w: int|
            0 <= w < places_upto(s, sents, j).len() ==> #[trigger] places_upto(s, sents, k)[w]
                == places_upto(s, sents, j)[w],
    decreases k - j,
{
    if j < k {
        lemma_upto_prefix(s, sents, j, k - 1);
        assert forall|w: int|
            0 <= w < words_upto(s, sents, j).len() implies #[trigger] words_upto(s, sents, k)[w]
            == words_upto(s, sents, j)[w] by {
            assert(words_upto(s, sents, k)[w] == words_upto(s, sents, k - 1)[w]);
        }
        assert forall|w: int|
            0 <= w < places_upto(s, sents, j).len() implies #[trigger] places_upto(
            s,
            sents,
            k,
        )[w] == places_upto(s, sents, j)[w] by {
            assert(places_upto(s, sents, k)[w] == places_upto(s, sents, k - 1)[w]);
        }
    }
}

} // verus!
