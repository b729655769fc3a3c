//! One sentence from phonemes to timed words: what the model is asked, and when each
//! written word is spoken.

use crate::align::{align, aligned, in_order, lemma_every_word_is_timed, slot_views, Slot, SlotView};
use crate::g2p::{assembled, tokens, G2p};
use crate::phonemes::{
    grouped, groups_view, lemma_groups_cover, merge_words, plan_batches, voiced_batches, Batch,
};
use crate::punctuation::{mark_views, Mark};
use crate::text::texts;
use crate::words::TextWord;
use vstd::prelude::*;

verus! {

/// There is nothing in a text that can be spoken.
#[derive(Debug, Clone, Copy, PartialEq, Eq, Structural)]
pub struct Unspeakable;

/// The model's runs for a text, from what the phonemizer said for its chunks and the
/// punctuation between them.
pub fn plan_speech(g2p: &G2p, raw: &Vec<String>, marks: &Vec<Mark>) -> (r: Result<
    Vec<Batch>,
    Unspeakable,
>)
    ensures
        ({
            let s = assembled(texts(raw@), mark_views(marks@), g2p.vocab@);
            match r {
                Ok(b) => s.len() > 0 && b@.map_values(|x: Batch| x.phonemes@) == voiced_batches(
                    s,
                    g2p.vocab@,
                ) && forall|i: int|
                    0 <= i < b.len() ==> (#[trigger] b@[i]).ids@ == tokens(
                        b@[i].phonemes@,
                        g2p.vocab@,
                    ),
                Err(_) => s.len() == 0,
            }
        }),
{
    let phonemes = g2p.phonemize(raw, marks);
    let chars = crate::text::chars_of(phonemes.as_str());
    if chars.len() == 0 {
        return Err(Unspeakable);
    }
    Ok(plan_batches(g2p, phonemes.as_str()))
}

/// When a written word is spoken: between the start of phoneme-word `first` and the end
/// of phoneme-word `last`, a stretch that `count` written words share, of which this
/// is number `index` and takes `part` parts out of `total`.
#[derive(Debug, Clone, Copy, PartialEq, Eq)]
pub struct WordSlot {
    /// The word's byte range in the text.
    pub char_start: usize,
    pub char_end: usize,
    pub first: usize,
    pub last: usize,
    pub index: usize,
    pub count: usize,
    pub part: u64,
    pub total: u128,
}

/// When the words of a text are spoken.
#[derive(Debug)]
pub struct Schedule {
    pub slots: Vec<WordSlot>,
    /// Could the words not be matched, so that all share the whole stretch?
    pub fallback: bool,
}

/// The sounds of the phoneme-words once punctuation is merged in.
pub open spec fn cores(spoken: Seq<Seq<char>>) -> Seq<Seq<char>> {
    grouped(spoken).map_values(|g: (int, int, int)| spoken[g.0])
}

/// A slot among merged phoneme-words is this slot among all of them.
pub open spec fn slot_of(
    w: TextWord,
    s: SlotView,
    groups: Seq<(int, int, int)>,
    r: WordSlot,
) -> bool {
    &&& r.char_start == w.start
    &&& r.char_end == w.end
    &&& r.first == groups[s.first].1
    &&& r.last == groups[s.last].2
    &&& r.index == s.index
    &&& r.count == s.count
    &&& r.part == s.part
    &&& r.total == s.total
}

/// When the words of a text are spoken, given the phoneme-words the model timed and how
/// each word sounds on its own.
pub fn schedule(words: &Vec<TextWord>, spoken: &Vec<String>, solos: &Vec<String>) -> (r: Schedule)
    requires
        words.len() == solos.len(),
    ensures
        ({
            let (slots, fallback) = aligned(cores(texts(spoken@)), texts(solos@));
            &&& r.fallback == fallback
            &&& r.slots.len() == slots.len()
            &&& forall|i: int|
                0 <= i < r.slots.len() ==> slot_of(
                    words@[i],
                    slots[i],
                    grouped(texts(spoken@)),
                    #[trigger] r.slots@[i],
                )
        }),
        ({
            let g = grouped(texts(spoken@));
            let heard = Seq::new(g.len(), |k: int| texts(spoken@)[g[k].0]);
            let (slots, fallback) = aligned(heard, texts(solos@));
            &&& r.fallback == fallback
            &&& r.slots.len() == slots.len()
            &&& forall|i: int|
                0 <= i < r.slots.len() ==> {
                    let x = #[trigger] r.slots@[i];
                    &&& x.char_start == words@[i].start && x.char_end == words@[i].end
                    &&& x.first == g[slots[i].first].1 && x.last == g[slots[i].last].2
                    &&& x.index == slots[i].index && x.count == slots[i].count
                    &&& x.part == slots[i].part && x.total == slots[i].total
                }
        }),
{
    let ghost p = texts(spoken@);
    let ghost t = texts(solos@);
    let groups = merge_words(spoken);
    let ghost g = grouped(p);
    assert(groups_view(groups@).len() == groups.len());
    assert(p.len() == spoken.len());
    assert(t.len() == solos.len());
    proof {
        if p.len() > 0 {
            lemma_groups_cover(p);
            lemma_groups_inside(p);
        }
    }
    let mut merged: Vec<String> = Vec::new();
    let mut k: usize = 0;
    assert(texts(merged@) =~= cores(p).take(0));
    while k < groups.len()
        invariant
            k <= groups.len(),
            p == texts(spoken@),
            g == grouped(p),
            groups_view(groups@) == g,
            g.len() == groups.len(),
            p.len() == spoken.len(),
            forall|i: int| 0 <= i < g.len() ==> 0 <= (#[trigger] g[i]).0 < p.len(),
            texts(merged@) == cores(p).take(k as int),
        decreases groups.len() - k,
    {
        let ghost before = merged@;
        let core: usize = groups[k].core;
        assert(g[k as int] == (
            groups@[k as int].core as int,
            groups@[k as int].first as int,
            groups@[k as int].last as int,
        ));
        merged.push(spoken[core].clone());
        assert(texts(merged@) =~= texts(before).push(p[core as int]));
        assert(cores(p).take(k + 1) =~= cores(p).take(k as int).push(p[core as int]));
        k += 1;
    }
    assert(cores(p).take(k as int) =~= cores(p));
    let a = align(&merged, solos);
    let ghost slots = slot_views(a.slots@);
    assert(slots.len() == a.slots.len());
    proof {
        if p.len() > 0 && t.len() > 0 {
            lemma_every_word_is_timed(cores(p), t);
        }
    }
    let mut r: Vec<WordSlot> = Vec::new();
    let mut i: usize = 0;
    while i < a.slots.len()
        invariant
            i <= a.slots.len(),
            slots == slot_views(a.slots@),
            slots.len() == a.slots.len(),
            slots.len() > 0 ==> slots.len() == words.len() && in_order(
                slots,
                0,
                groups.len() as int,
            ),
            g == groups_view(groups@),
            r.len() == i,
            forall|k: int| 0 <= k < i ==> slot_of(words@[k], slots[k], g, #[trigger] r@[k]),
        decreases a.slots.len() - i,
    {
        let s: Slot = a.slots[i];
        assert(slots[i as int] == s@);
        assert(g[s.first as int] == (
            groups@[s.first as int].core as int,
            groups@[s.first as int].first as int,
            groups@[s.first as int].last as int,
        ));
        assert(g[s.last as int] == (
            groups@[s.last as int].core as int,
            groups@[s.last as int].first as int,
            groups@[s.last as int].last as int,
        ));
        r.push(
            WordSlot {
                char_start: words[i].start,
                char_end: words[i].end,
                first: groups[s.first].first,
                last: groups[s.last].last,
                index: s.index,
                count: s.count,
                part: s.part,
                total: s.total,
            },
        );
        i += 1;
    }
    assert(cores(p) =~= Seq::new(g.len(), |k: int| p[g[k].0]));
    Schedule { slots: r, fallback: a.fallback }
}

/// The members of a group are phoneme-words.
proof fn lemma_groups_inside(w: Seq<Seq<char>>)
    requires
        w.len() > 0,
    ensures
        forall|k: int|
            0 <= k < grouped(w).len() ==> 0 <= (#[trigger] grouped(w)[k]).1 && 0 <= grouped(w)[k].0
                < w.len() && grouped(w)[k].2 < w.len(),
{
    crate::phonemes::lemma_letter_places(w);
}

/// Where something was spoken and something is written, every written word is timed,
/// and together they last from the start of the first phoneme-word to the end of the
/// last.
pub proof fn lemma_whole_sentence_is_timed(spoken: Seq<Seq<char>>, solos: Seq<Seq<char>>)
    requires
        spoken.len() > 0,
        solos.len() > 0,
    ensures
        ({
            let slots = aligned(cores(spoken), solos).0;
            let g = grouped(spoken);
            &&& slots.len() == solos.len()
            &&& g[slots[0].first].1 == 0
            &&& g[slots.last().last].2 == spoken.len() - 1
        }),
{
    lemma_groups_cover(spoken);
    lemma_every_word_is_timed(cores(spoken), solos);
}

} // verus!
