//! Which word is being spoken, and how far reading has come.

use crate::document::Doc;
use crate::numbers::{
    decimal, decimal_of, digits_value, lemma_decimal_is, lemma_decimal_value, push_padded,
    zero_padded,
};
use crate::text::{push_all, string_of};
use vstd::prelude::*;
use vstd::utf8::encode_utf8;

verus! {

/// How many words have begun by a sample.
pub open spec fn words_begun(starts: Seq<u32>, sample: u32) -> nat
    decreases starts.len(),
{
    if starts.len() == 0 || starts[0] > sample {
        0
    } else {
        1 + words_begun(starts.drop_first(), sample)
    }
}

/// The word of the document that is being spoken, `sample` samples into a sentence
/// whose words begin at the given samples: the last that has begun, and none of
/// another sentence.
pub open spec fn word_at(doc: Doc, sent: int, starts: Seq<u32>, sample: u32) -> Option<int> {
    let k = words_begun(starts, sample);
    if 0 <= sent < doc.sentences.len() && k > 0 {
        let info = doc.sentences@[sent];
        let last = if info.n_words > 0 {
            info.n_words - 1
        } else {
            0
        };
        Some(
            info.first_word + (if k - 1 <= last {
                k - 1
            } else {
                last
            }),
        )
    } else {
        None
    }
}

fn count_begun(starts: &Vec<u32>, sample: u32) -> (k: usize)
    ensures
        k == words_begun(starts@, sample),
        k <= starts.len(),
{
    let mut k: usize = 0;
    assert(starts@.skip(0) =~= starts@);
    while k < starts.len() && starts[k] <= sample
        invariant
            k <= starts.len(),
            words_begun(starts@, sample) == k + words_begun(starts@.skip(k as int), sample),
        decreases starts.len() - k,
    {
        assert(starts@.skip(k as int).drop_first() =~= starts@.skip(k + 1));
        assert(starts@.skip(k as int)[0] == starts@[k as int]);
        k += 1;
    }
    assert(k < starts.len() ==> starts@.skip(k as int)[0] == starts@[k as int]);
    k
}

/// The word that is being spoken.
pub fn spoken_word(doc: &Doc, sent: usize, starts: &Vec<u32>, sample: u32) -> (r: Option<usize>)
    requires
        doc.wf(),
    ensures
        match r {
            Some(w) => word_at(*doc, sent as int, starts@, sample) == Some(w as int) && w
                < doc.word_of.len() && doc.word_of@[w as int].0 == sent,
            None => word_at(*doc, sent as int, starts@, sample) is None,
        },
{
    let k: usize = count_begun(starts, sample);
    if sent >= doc.sentences.len() || k == 0 {
        return None;
    }
    let first: usize = doc.sentences[sent].first_word;
    let n: usize = doc.sentences[sent].n_words;
    let within: usize = if k <= n {
        k - 1
    } else {
        n - 1
    };
    proof {
        let info = doc.sentences@[sent as int];
        let w = first + within;
        assert(info.n_words > 0);
        lemma_word_of_its_sentence(*doc, sent as int, within as int);
    }
    Some(first + within)
}

/// How many words have begun is the place of the first that has not.
proof fn lemma_words_begun(starts: Seq<u32>, sample: u32, k: int)
    requires
        0 <= k <= starts.len(),
        forall|i: int| 0 <= i < k ==> #[trigger] starts[i] <= sample,
        k < starts.len() ==> sample < starts[k],
    ensures
        words_begun(starts, sample) == k,
    decreases starts.len(),
{
    if k > 0 {
        let rest = starts.drop_first();
        assert(starts[0] <= sample);
        assert forall|i: int| 0 <= i < k - 1 implies #[trigger] rest[i] <= sample by {
            assert(starts[i + 1] <= sample);
        }
        lemma_words_begun(rest, sample, k - 1);
    }
}

/// The word under the voice is the one that has begun and whose follower has not: where
/// the words of a sentence begin in order, one start for each, word `w` is shown from its
/// own start up to the start of the next, and the last word to the end.
pub proof fn lemma_word_under_the_voice(
    doc: Doc,
    sent: int,
    starts: Seq<u32>,
    sample: u32,
    w: int,
)
    requires
        0 <= sent < doc.sentences.len(),
        starts.len() == doc.sentences@[sent].n_words,
        forall|i: int, j: int| 0 <= i <= j < starts.len() ==> starts[i] <= starts[j],
        0 <= w < starts.len(),
        starts[w] <= sample,
        w + 1 < starts.len() ==> sample < starts[w + 1],
    ensures
        word_at(doc, sent, starts, sample) == Some(doc.sentences@[sent].first_word + w),
{
    assert forall|i: int| 0 <= i < w + 1 implies #[trigger] starts[i] <= sample by {
        assert(starts[i] <= starts[w]);
    }
    lemma_words_begun(starts, sample, w + 1);
}

/// Where more starts are reported than the sentence has words, what begins behind its last
/// word is shown as the last word.
pub proof fn lemma_last_word_stays(
    doc: Doc,
    sent: int,
    starts: Seq<u32>,
    sample: u32,
    w: int,
)
    requires
        0 <= sent < doc.sentences.len(),
        0 < doc.sentences@[sent].n_words <= w + 1 <= starts.len(),
        forall|i: int, j: int| 0 <= i <= j < starts.len() ==> starts[i] <= starts[j],
        starts[w] <= sample,
    ensures
        word_at(doc, sent, starts, sample) == Some(
            doc.sentences@[sent].first_word + doc.sentences@[sent].n_words - 1,
        ),
    decreases starts.len() - w,
{
    if w + 1 < starts.len() && starts[w + 1] <= sample {
        lemma_last_word_stays(doc, sent, starts, sample, w + 1);
    } else {
        assert forall|i: int| 0 <= i < w + 1 implies #[trigger] starts[i] <= sample by {
            assert(starts[i] <= starts[w]);
        }
        lemma_words_begun(starts, sample, w + 1);
    }
}

/// No word is shown before the first has begun, nor in a sentence that is not there.
pub proof fn lemma_no_word_yet(doc: Doc, sent: int, starts: Seq<u32>, sample: u32)
    requires
        starts.len() == 0 || sample < starts[0] || sent < 0 || sent >= doc.sentences.len(),
    ensures
        word_at(doc, sent, starts, sample) is None,
{
}

/// The words of a sentence are those numbered from its first on.
proof fn lemma_word_of_its_sentence(doc: Doc, sent: int, k: int)
    requires
        doc.wf(),
        0 <= sent < doc.sentences.len(),
        0 <= k < doc.sentences@[sent].n_words,
    ensures
        doc.word_of@[doc.sentences@[sent].first_word + k].0 == sent,
{
    let w = doc.sentences@[sent].first_word + k;
    assert(doc.sentences@[sent].first_word + doc.sentences@[sent].n_words <= doc.word_of.len());
    let p = doc.word_of@[w];
    let other = doc.sentences@[p.0 as int];
    assert(other.first_word + p.1 == w);
    doc.lemma_sentences_apart(sent, p.0 as int);
    doc.lemma_sentences_apart(p.0 as int, sent);
}

/// What is known of a document's length so far, in samples, and what is left to
/// guess, in bytes of text.
#[derive(Debug, Clone, Copy, PartialEq, Eq, Structural)]
pub struct Tally {
    /// Samples of the sentences whose audio is there.
    pub known: u128,
    /// Bytes of their text.
    pub known_bytes: u128,
    /// Bytes of the other sentences.
    pub open_bytes: u128,
    /// Samples of the known ones before the current sentence.
    pub before: u128,
    /// Bytes of the other ones before it.
    pub before_bytes: u128,
}

/// The tally of the first `n` sentences.
pub open spec fn tallied(doc: Doc, cur: int, n: int) -> (int, int, int, int, int)
    decreases n,
{
    if n <= 0 {
        (0, 0, 0, 0, 0)
    } else {
        let (known, known_bytes, open_bytes, before, before_bytes) = tallied(doc, cur, n - 1);
        let s = doc.sentences@[n - 1];
        let len = encode_utf8(s.text@).len() as int;
        match s.dur {
            Some(d) => (
                known + d,
                known_bytes + len,
                open_bytes,
                if n - 1 < cur {
                    before + d
                } else {
                    before
                },
                before_bytes,
            ),
            None => (
                known,
                known_bytes,
                open_bytes + len,
                before,
                if n - 1 < cur {
                    before_bytes + len
                } else {
                    before_bytes
                },
            ),
        }
    }
}

/// Add up what is known of a document's length.
pub fn tally(doc: &Doc, cur: u32) -> (t: Tally)
    ensures
        (
            t.known as int,
            t.known_bytes as int,
            t.open_bytes as int,
            t.before as int,
            t.before_bytes as int,
        ) == tallied(*doc, cur as int, doc.sentences.len() as int),
{
    let mut t = Tally { known: 0, known_bytes: 0, open_bytes: 0, before: 0, before_bytes: 0 };
    let mut i: usize = 0;
    while i < doc.sentences.len()
        invariant
            i <= doc.sentences.len(),
            (
                t.known as int,
                t.known_bytes as int,
                t.open_bytes as int,
                t.before as int,
                t.before_bytes as int,
            ) == tallied(*doc, cur as int, i as int),
            t.known <= i * 0xffff_ffff_ffff_ffff,
            t.known_bytes <= i * 0xffff_ffff_ffff_ffff,
            t.open_bytes <= i * 0xffff_ffff_ffff_ffff,
            t.before <= i * 0xffff_ffff_ffff_ffff,
            t.before_bytes <= i * 0xffff_ffff_ffff_ffff,
        decreases doc.sentences.len() - i,
    {
        let bytes = doc.sentences[i].text.as_str().as_bytes();
        let len: usize = bytes.len();
        let counts: bool = i < cur as usize;
        match doc.sentences[i].dur {
            Some(d) => {
                t.known = t.known + d as u128;
                t.known_bytes = t.known_bytes + len as u128;
                if counts {
                    t.before = t.before + d as u128;
                }
            },
            None => {
                t.open_bytes = t.open_bytes + len as u128;
                if counts {
                    t.before_bytes = t.before_bytes + len as u128;
                }
            },
        }
        i += 1;
    }
    t
}

/// Minutes and seconds.
pub open spec fn minutes(secs: nat) -> Seq<char> {
    decimal(secs / 60) + seq![':'] + zero_padded(secs % 60, 2)
}

fn push_minutes(out: &mut Vec<char>, secs: u32)
    ensures
        final(out)@ == old(out)@ + minutes(secs as nat),
{
    let ghost before = out@;
    let m = decimal_of((secs / 60) as u64);
    push_all(out, m.as_slice());
    out.push(':');
    push_padded(out, (secs % 60) as u64, 2);
    assert(out@ =~= before + minutes(secs as nat));
}

/// What the clock in the window shows: the time gone and the time in all, the
/// latter with a sign where part of it is a guess.
pub fn time_label(elapsed: u32, total: u32, all_known: bool) -> (r: String)
    ensures
        r@ == minutes(elapsed as nat) + seq![' ', '/', ' '] + (if all_known {
            Seq::empty()
        } else {
            seq!['≈']
        }) + minutes(total as nat),
{
    let mut out: Vec<char> = Vec::new();
    push_minutes(&mut out, elapsed);
    out.push(' ');
    out.push('/');
    out.push(' ');
    if !all_known {
        out.push('≈');
    }
    push_minutes(&mut out, total);
    assert(out@ =~= minutes(elapsed as nat) + seq![' ', '/', ' '] + (if all_known {
        Seq::empty()
    } else {
        seq!['≈']
    }) + minutes(total as nat));
    string_of(out.as_slice())
}

/// Sentence by sentence: one whose audio is there adds its samples and its bytes to what is
/// known, another adds its bytes to what is left to guess; only those before the current
/// one count as before it.
pub proof fn lemma_tally_of_one_more(doc: Doc, cur: int, n: int)
    requires
        0 <= n < doc.sentences.len(),
    ensures
        tallied(doc, cur, 0) == (0int, 0int, 0int, 0int, 0int),
        ({
            let len = encode_utf8(doc.sentences@[n].text@).len() as int;
            let t = tallied(doc, cur, n);
            let u = tallied(doc, cur, n + 1);
            match doc.sentences@[n].dur {
                Some(d) => {
                    &&& u.0 == t.0 + d && u.1 == t.1 + len && u.2 == t.2 && u.4 == t.4
                    &&& u.3 == (if n < cur { t.3 + d } else { t.3 })
                },
                None => {
                    &&& u.0 == t.0 && u.1 == t.1 && u.2 == t.2 + len && u.3 == t.3
                    &&& u.4 == (if n < cur { t.4 + len } else { t.4 })
                },
            }
        }),
{
}

/// Before the first sentence nothing counts as gone, and behind the last everything does.
pub proof fn lemma_tally_at_the_ends(doc: Doc, cur: int, n: int)
    requires
        0 <= n <= doc.sentences.len(),
    ensures
        cur <= 0 ==> tallied(doc, cur, n).3 == 0 && tallied(doc, cur, n).4 == 0,
        cur >= n ==> tallied(doc, cur, n).3 == tallied(doc, cur, n).0 && tallied(doc, cur, n).4
            == tallied(doc, cur, n).2,
    decreases n,
{
    if n > 0 {
        lemma_tally_at_the_ends(doc, cur, n - 1);
    }
}

/// A time reads as its minutes, a colon and its seconds in two digits, with no zero in
/// front of minutes that are not zero.
pub proof fn lemma_minutes_are_read(secs: nat)
    ensures
        ({
            let t = minutes(secs);
            let n = t.len() as int;
            &&& n >= 4
            &&& t[n - 3] == ':'
            &&& digits_value(t.take(n - 3)) == Some((secs / 60) as int)
            &&& digits_value(t.skip(n - 2)) == Some((secs % 60) as int)
            &&& secs >= 60 ==> t[0] != '0'
        }),
{
    let (m, s) = (secs / 60, secs % 60);
    lemma_decimal_is(m, 0);
    lemma_decimal_is(s, 2);
    lemma_decimal_value(m);
    let t = minutes(secs);
    assert(zero_padded(s, 2).len() == 2) by {
        reveal_with_fuel(decimal, 3);
    }
    assert(t.take(t.len() - 3) =~= decimal(m));
    assert(t.skip(t.len() - 2) =~= zero_padded(s, 2));
}

} // verus!
