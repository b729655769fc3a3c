//! The reader: which sentence plays, which is waited for, and what is asked of the
//! worker.

use crate::cache::{has_key, held, used, Key, KeySet, KeyView, Lru, Req, ReqView, Spoken};
use crate::document::{
    build_doc, doc_first_word, fresh_doc, words_upto, Doc, DocView, SentenceView,
};
use crate::editor::byte_len;
use crate::audio::{seek_offset, Clip, Audio, Segment};
use crate::runs::pairs;
use crate::scene::{lemma_opened_text_is_shown, next, start_in, MediaState, Scene, Status};
use crate::segment::{byte_spans, lemma_sentence_count, spans, well_cut};
use crate::text::{chars_of, string_of, trim, trimmed, white};
use std::collections::HashMap;
use vstd::prelude::*;
use vstd::utf8::encode_utf8;

verus! {

broadcast use vstd::std_specs::hash::group_hash_axioms;

/// A text of more bytes than this is not read.
pub const MAX_CHARS: usize = 25_000;

/// A number that tells texts apart, so that one is known again.
pub open spec fn hashed(bytes: Seq<u8>) -> u64
    decreases bytes.len(),
{
    if bytes.len() == 0 {
        5381
    } else {
        hashed(bytes.drop_last()).wrapping_mul(33) ^ (bytes.last() as u64)
    }
}

/// A number that tells texts apart.
pub fn text_hash(s: &str) -> (h: u64)
    ensures
        h == hashed(encode_utf8(s@)),
{
    let bytes = s.as_bytes();
    let ghost all = bytes@;
    let mut h: u64 = 5381;
    let mut i: usize = 0;
    assert(hashed(all.take(0)) == 5381);
    while i < bytes.len()
        invariant
            i <= bytes.len(),
            all == bytes@,
            h == hashed(all.take(i as int)),
        decreases bytes.len() - i,
    {
        assert(all.take(i + 1).drop_last() =~= all.take(i as int));
        h = h.wrapping_mul(33) ^ (bytes[i] as u64);
        i += 1;
    }
    assert(all.take(i as int) =~= all);
    h
}

/// The number by which a text is known again, white space at its ends aside.
pub open spec fn place_hash(text: Seq<char>) -> u64 {
    hashed(encode_utf8(trimmed(text)))
}

fn trimmed_text(text: &str) -> (t: String)
    ensures
        t@ == trimmed(text@),
{
    let chars = chars_of(text);
    let ends = trim(chars.as_slice());
    string_of(ends.as_slice())
}

/// What the media controls show of a text: its first 80 characters.
pub fn media_title(text: &str) -> (t: String)
    ensures
        t@ == (if trimmed(text@).len() > 80 {
            trimmed(text@).take(80)
        } else {
            trimmed(text@)
        }),
{
    let chars = chars_of(text);
    let mut ends = trim(chars.as_slice());
    if ends.len() > 80 {
        ends.truncate(80);
        assert(ends@ =~= trimmed(text@).take(80));
    }
    string_of(ends.as_slice())
}

/// What comes of wanting to read a text: nothing if it is blank or too long, nor
/// where the window is too narrow to show it; else it is read from where it was left
/// off, if it is the one that was.
pub open spec fn entered(s: Scene, text: Seq<char>, wide: bool) -> Scene {
    if trimmed(text).len() == 0 {
        Scene { status: Status::NothingToRead, ..s }
    } else if byte_len(trimmed(text)) > MAX_CHARS {
        Scene { status: Status::TooLong(byte_len(trimmed(text)) as usize), ..s }
    } else if !wide {
        s
    } else {
        s.opened(fresh_doc(text, spans(text)), place_hash(text))
    }
}

/// Is a text opened? It is if it is neither blank nor too long, and the window is wide
/// enough.
pub open spec fn opens(text: Seq<char>, wide: bool) -> bool {
    trimmed(text).len() > 0 && byte_len(trimmed(text)) <= MAX_CHARS && wide
}

/// The state of the reader.
pub struct Player {
    /// Requests of an earlier epoch are not wanted any more.
    pub worker_epoch: u64,
    /// What the playback engine wants to see with a segment.
    pub epoch: u64,
    pub cache: Lru,
    pub requested: KeySet,
    /// Sentences known to have nothing to say.
    pub unspeakable: KeySet,
    pub doc: Option<Doc>,
    pub voice: String,
    pub speed100: u32,
    pub reading: bool,
    pub was_playing: bool,
    /// Paused by the user, perhaps while audio was still loading.
    pub want_pause: bool,
    pub cur_sent: u32,
    /// The next sentence for the queue.
    pub enq_next: u32,
    /// The sentence waited for, and the word of it to start from.
    pub pending: Option<(u32, Option<usize>)>,
    /// The audio of the sentences that play or are queued.
    pub live: HashMap<u32, Clip>,
    /// The text that was left off, and the sentence.
    pub resume_hash: u64,
    pub resume_idx: u32,
    pub playing: bool,
    pub current_sent: Option<u32>,
    pub current_word: Option<usize>,
    pub status: Status,
    pub media: MediaState,
    /// A word to scroll to, and whether the user's own scrolling gives way.
    pub scroll: Option<(usize, bool)>,
    /// The state is to be saved.
    pub save: bool,
    /// Requests on their way to the worker.
    pub outbox: Vec<Req>,
}

/// What a list of requests stands for.
pub open spec fn req_views(r: Seq<Req>) -> Seq<ReqView> {
    r.map_values(|x: Req| x@)
}

/// Keep the entries of the sentences from `sent` on.
fn keep_from(live: &mut HashMap<u32, Clip>, sent: u32)
    ensures
        final(live)@ == old(live)@.restrict(Set::new(|i: u32| i >= sent)),
{
    let ghost all = live@;
    let mut k: u32 = 0;
    assert(live@ =~= all.restrict(Set::new(|i: u32| i >= 0)));
    while k < sent
        invariant
            k <= sent,
            live@ == all.restrict(Set::new(|i: u32| i >= k)),
        decreases sent - k,
    {
        let ghost before = live@;
        live.remove(&k);
        k += 1;
        assert(live@ =~= all.restrict(Set::new(|i: u32| i >= k)));
    }
}

/// Keep the entry of one sentence.
fn keep_only(live: &mut HashMap<u32, Clip>, sent: u32)
    ensures
        final(live)@ == old(live)@.restrict(set![sent]),
{
    let ghost all = live@;
    let kept: Option<Clip> = match live.get(&sent) {
        Some(c) => Some(*c),
        None => None,
    };
    live.clear();
    if let Some(c) = kept {
        live.insert(sent, c);
    }
    assert(live@ =~= all.restrict(set![sent]));
}

impl Player {
    /// The reader together with the engine it drives.
    pub open spec fn scene(&self, engine: &Audio) -> Scene {
        Scene {
            engine: engine@,
            worker_epoch: self.worker_epoch,
            epoch: self.epoch,
            cache: self.cache@,
            requested: self.requested@,
            unspeakable: self.unspeakable@,
            doc: match self.doc {
                Some(d) => Some(d@),
                None => None,
            },
            voice: self.voice@,
            speed100: self.speed100,
            reading: self.reading,
            was_playing: self.was_playing,
            want_pause: self.want_pause,
            cur_sent: self.cur_sent,
            enq_next: self.enq_next,
            pending: self.pending,
            live: self.live@,
            resume_hash: self.resume_hash,
            resume_idx: self.resume_idx,
            playing: self.playing,
            current_sent: self.current_sent,
            current_word: self.current_word,
            status: self.status,
            media: self.media,
            scroll: self.scroll,
            save: self.save,
            outbox: req_views(self.outbox@),
        }
    }

    /// The sets hold nothing twice, the cache is one, a document numbers its words and is
    /// not too long, and no sentence is waited for that no document could have.
    pub open spec fn wf(&self) -> bool {
        &&& self.cache.wf()
        &&& self.requested.wf()
        &&& self.unspeakable.wf()
        &&& self.doc is Some ==> self.doc->0.wf() && self.doc->0.sentences.len() <= MAX_CHARS
        &&& self.pending is Some ==> (self.pending->0).0 <= MAX_CHARS
    }

    /// A reader that has read nothing yet.
    pub fn new(voice: String, speed100: u32, resume_hash: u64, resume_idx: u32) -> (p: Player)
        ensures
            p.wf(),
            p.doc is None,
            !p.reading,
            !p.playing,
            p.pending is None,
            p.voice == voice,
            p.speed100 == speed100,
            p.resume_hash == resume_hash,
            p.resume_idx == resume_idx,
            p.cache@.len() == 0,
            p.requested@ == Set::<KeyView>::empty(),
            p.unspeakable@ == Set::<KeyView>::empty(),
            p.outbox.len() == 0,
            p.worker_epoch == 1,
            p.epoch == 0,
            !p.was_playing,
            !p.want_pause,
            p.cur_sent == 0,
            p.enq_next == 0,
            p.live@ == Map::<u32, Clip>::empty(),
            p.current_sent is None,
            p.current_word is None,
            p.status == Status::Quiet,
            p.media == MediaState::Stopped,
            p.scroll is None,
            !p.save,
    {
        Player {
            worker_epoch: 1,
            epoch: 0,
            cache: Lru::new(),
            requested: KeySet::new(),
            unspeakable: KeySet::new(),
            doc: None,
            voice,
            speed100,
            reading: false,
            was_playing: false,
            want_pause: false,
            cur_sent: 0,
            enq_next: 0,
            pending: None,
            live: HashMap::new(),
            resume_hash,
            resume_idx,
            playing: false,
            current_sent: None,
            current_word: None,
            status: Status::Quiet,
            media: MediaState::Stopped,
            scroll: None,
            save: false,
            outbox: Vec::new(),
        }
    }

    fn sentence_count(&self) -> (n: usize)
        requires
            self.wf(),
        ensures
            n <= MAX_CHARS,
            forall|e: &Audio| n == (#[trigger] self.scene(e)).sentences().len(),
    {
        match &self.doc {
            Some(d) => d.sentences.len(),
            None => 0,
        }
    }

    /// What makes the audio of a sentence, as things stand.
    pub fn key_for(&self, sent: u32) -> (r: Option<Key>)
        requires
            self.wf(),
        ensures
            forall|e: &Audio|
                (#[trigger] self.scene(e)).key_for(sent as int) == (match r {
                    Some(k) => Some(k@),
                    None => None,
                }),
            r is Some <==> self.doc is Some && sent < self.doc->0.sentences.len(),
    {
        match &self.doc {
            None => None,
            Some(d) => {
                if (sent as usize) < d.sentences.len() {
                    assert(d@.sentences[sent as int] == d.sentences@[sent as int]@);
                    Some(
                        Key {
                            voice: self.voice.clone(),
                            speed100: self.speed100,
                            text: d.sentences[sent as usize].text.clone(),
                        },
                    )
                } else {
                    None
                }
            },
        }
    }

    /// Ask the worker for a sentence, if need be.
    pub fn request(&mut self, sent: u32)
        requires
            old(self).wf(),
        ensures
            final(self).wf(),
            final(self).doc == old(self).doc,
            forall|e: &Audio|
                (#[trigger] final(self).scene(e)) == old(self).scene(e).asked(sent as int),
    {
        if let Some(key) = self.key_for(sent) {
            let ghost before = *self;
            let ghost k = key@;
            let ghost out = self.outbox@;
            if self.cache.contains_key(&key) || self.requested.contains(&key)
                || self.unspeakable.contains(&key) {
                assert forall|e: &Audio|
                    (#[trigger] self.scene(e)) == before.scene(e).asked(sent as int) by {
                    assert(before.scene(e).key_for(sent as int) == Some(k));
                }
                return;
            }
            self.requested.insert(key.copy());
            self.outbox.push(Req { epoch: self.worker_epoch, sent, key, keep: false });
            assert forall|e: &Audio|
                (#[trigger] self.scene(e)) == before.scene(e).asked(sent as int) by {
                assert(before.scene(e).key_for(sent as int) == Some(k));
                assert(req_views(self.outbox@) =~= req_views(out).push(
                    ReqView { epoch: before.worker_epoch, sent, key: k, keep: false },
                ));
                assert(self.scene(e) =~= before.scene(e).asked(sent as int));
            }
        }
    }

    fn mark_sentence(&mut self, sent: u32)
        requires
            old(self).wf(),
        ensures
            final(self).wf(),
            final(self).doc == old(self).doc,
            forall|e: &Audio|
                (#[trigger] final(self).scene(e)) == old(self).scene(e).marked(sent),
    {
        if self.current_sent != Some(sent) {
            self.current_sent = Some(sent);
            self.current_word = None;
        }
    }

    fn media_playback(&mut self, playing: bool)
        requires
            old(self).wf(),
        ensures
            final(self).wf(),
            final(self).doc == old(self).doc,
            forall|e: &Audio|
                (#[trigger] final(self).scene(e)) == old(self).scene(e).told(playing),
    {
        self.media = if !self.reading {
            MediaState::Stopped
        } else if playing {
            MediaState::Playing
        } else {
            MediaState::Paused
        };
    }

    fn bump_epoch(&mut self)
        requires
            old(self).wf(),
        ensures
            final(self).wf(),
            final(self).doc == old(self).doc,
            forall|e: &Audio| (#[trigger] final(self).scene(e)) == old(self).scene(e).bumped(),
    {
        self.worker_epoch = self.worker_epoch.wrapping_add(1);
        self.requested.clear();
    }

    /// Note the length of a sentence whose audio is at hand, if it is still what the
    /// document would ask for.
    pub fn note_dur(&mut self, sent: u32, key: &Key, clip: Clip)
        requires
            old(self).wf(),
        ensures
            final(self).wf(),
            final(self).doc is Some <==> old(self).doc is Some,
            forall|e: &Audio|
                (#[trigger] final(self).scene(e)) == old(self).scene(e).timed(
                    sent as int,
                    key@,
                    clip,
                ),
    {
        let ghost before = *self;
        let wanted = match self.key_for(sent) {
            Some(k) => k.same(key),
            None => false,
        };
        if wanted {
            if let Some(doc) = &mut self.doc {
                let i: usize = sent as usize;
                doc.sentences[i].dur = Some(clip.samples);
            }
            assert forall|e: &Audio|
                (#[trigger] self.scene(e)) == before.scene(e).timed(sent as int, key@, clip) by {
                assert(before.scene(e).key_for(sent as int) == Some(key@));
                assert(self.doc->0@.sentences =~= before.doc->0@.sentences.update(
                    sent as int,
                    SentenceView {
                        dur: Some(clip.samples),
                        ..before.doc->0@.sentences[sent as int]
                    },
                ));
                assert(self.scene(e) =~= before.scene(e).timed(sent as int, key@, clip));
            }
        } else {
            assert forall|e: &Audio|
                (#[trigger] self.scene(e)) == before.scene(e).timed(sent as int, key@, clip) by {
                assert(before.scene(e).key_for(sent as int) != Some(key@));
            }
        }
    }

    /// Back to the editor.
    pub fn enter_edit(&mut self, engine: &mut Audio)
        requires
            old(self).wf(),
        ensures
            final(self).wf(),
            final(self).scene(final(engine)) == old(self).scene(old(engine)).edited(),
    {
        self.bump_epoch();
        let ghost bumped = self.scene(engine);
        let _epoch: u64 = engine.stop();
        self.reading = false;
        self.was_playing = false;
        self.pending = None;
        self.live.clear();
        self.playing = false;
        self.current_sent = None;
        self.current_word = None;
        let ghost quiet = self.scene(engine);
        self.media_playback(false);
        assert(self.live@ =~= Map::empty());
        assert(self.scene(engine) =~= old(self).scene(old(engine)).edited());
    }

    /// The audio under a key, if it is there, and where in it a word begins.
    fn look_up(&mut self, key: &Key, word: Option<usize>) -> (r: Option<(Clip, Option<u32>)>)
        requires
            old(self).wf(),
        ensures
            final(self).wf(),
            r is Some <==> has_key(old(self).cache@, key@),
            r is Some ==> r->0 == (
                held(old(self).cache@, key@).clip,
                start_in(held(old(self).cache@, key@).starts, word),
            ),
            forall|e: &Audio|
                (#[trigger] final(self).scene(e)) == (Scene {
                    cache: used(old(self).cache@, key@),
                    ..old(self).scene(e)
                }),
    {
        match self.cache.get(key) {
            None => None,
            Some(spoken) => {
                let start: Option<u32> = match word {
                    Some(w) => if w < spoken.starts.len() {
                        Some(spoken.starts[w])
                    } else {
                        None
                    },
                    None => None,
                };
                Some((spoken.clip, start))
            },
        }
    }

    /// Start playing a sentence if its audio is there.
    fn begin(&mut self, engine: &mut Audio, sent: u32, key: &Key, word: Option<usize>) -> (r:
        bool)
        requires
            old(self).wf(),
            old(self).scene(old(engine)).key_for(sent as int) == Some(key@),
        ensures
            final(self).wf(),
            r == has_key(old(self).cache@, key@),
            final(self).scene(final(engine)) == (if r {
                old(self).scene(old(engine)).begun(sent as int, key@, word)
            } else {
                old(self).scene(old(engine))
            }),
    {
        let ghost s1 = self.scene(engine);
        let ghost k = key@;
        match self.look_up(key, word) {
            None => {
                assert(self.scene(engine) =~= s1);
                false
            },
            Some((clip, start)) => {
                let ghost s2 = Scene { cache: used(s1.cache, k), ..s1 };
                assert(self.scene(engine) == s2);
                self.note_dur(sent, key, clip);
                let ghost noted = self.scene(engine);
                assert(noted == s2.timed(sent as int, k, clip));
                let seg = Segment {
                    sentence: sent,
                    offset: seek_offset(start, clip.samples),
                    clip,
                };
                self.epoch = engine.play_now(seg);
                engine.set_paused(self.want_pause);
                self.live.clear();
                self.live.insert(sent, clip);
                self.enq_next = sent + 1;
                self.pending = None;
                self.was_playing = true;
                self.playing = !self.want_pause;
                self.status = Status::Quiet;
                let ghost begun = self.scene(engine);
                self.media_playback(!self.want_pause);
                assert(self.live@ =~= Map::empty().insert(sent, clip));
                assert(self.scene(engine) =~= s1.begun(sent as int, k, word));
                true
            },
        }
    }

    /// Wait for the audio of a sentence.
    fn await_audio(&mut self, engine: &mut Audio, sent: u32, word: Option<usize>)
        requires
            old(self).wf(),
            sent <= MAX_CHARS,
        ensures
            final(self).wf(),
            final(self).scene(final(engine)) == old(self).scene(old(engine)).awaited(
                sent as int,
                word,
            ),
    {
        let ghost s1 = self.scene(engine);
        self.epoch = engine.stop();
        self.pending = Some((sent, word));
        let ghost silent = self.scene(engine);
        self.request(sent);
        let ghost asked = self.scene(engine);
        self.playing = !self.want_pause;
        assert(self.scene(engine) =~= s1.awaited(sent as int, word));
    }

    /// Read on from a sentence, or from a word of it.
    pub fn play_from(&mut self, engine: &mut Audio, sent: u32, word: Option<usize>)
        requires
            old(self).wf(),
        ensures
            final(self).wf(),
            final(self).scene(final(engine)) == old(self).scene(old(engine)).played_from(
                sent as int,
                word,
            ),
    {
        let ghost s0 = self.scene(engine);
        let n: usize = self.sentence_count();
        let first: Option<usize> = match &self.doc {
            None => {
                return;
            },
            Some(d) => doc_first_word(d, sent as usize),
        };
        assert(s0.sentences().len() == n);
        if sent as usize >= n {
            self.enter_edit(engine);
            return;
        }
        proof {
            let d = self.doc->0;
            assert(d@.sentences[sent as int] == d.sentences@[sent as int]@);
        }
        self.mark_sentence(sent);
        let ghost marked = self.scene(engine);
        self.cur_sent = sent;
        if let Some(w) = first {
            self.scroll = Some((w, true));
        }
        let ghost s1 = Scene {
            cur_sent: sent,
            scroll: Some((s0.sentences()[sent as int].first_word as usize, true)),
            ..s0.marked(sent)
        };
        assert(self.scene(engine) =~= s1);
        let key = self.key_for(sent).unwrap();
        assert(s1.key_for(sent as int) == Some(key@));
        if !self.begin(engine, sent, &key, word) {
            self.await_audio(engine, sent, word);
        }
        let ghost s3 = self.scene(engine);
        self.request(sent + 1);
        let ghost s4 = self.scene(engine);
        self.request(sent + 2);
        assert(self.scene(engine) == s4.asked(sent + 2));
    }

    /// Read a text aloud.
    pub fn enter_read(&mut self, engine: &mut Audio, text: &str, wide: bool)
        requires
            old(self).wf(),
        ensures
            final(self).wf(),
            final(self).scene(final(engine)) == entered(old(self).scene(old(engine)), text@, wide),
            opens(text@, wide) ==> final(self).doc is Some && final(self).doc->0.raw@ == text@
                && pairs(final(self).doc->0.word_range@) == byte_spans(
                text@,
                words_upto(text@, spans(text@), spans(text@).len() as int),
            ),
    {
        let trimmed_part = trimmed_text(text);
        let bytes = trimmed_part.as_str().as_bytes();
        let len: usize = bytes.len();
        proof {
            crate::bytes::lemma_byte_order(trimmed(text@), 0, trimmed(text@).len() as int);
            crate::bytes::lemma_byte_end(trimmed(text@));
        }
        if len == 0 {
            assert(trimmed(text@).len() == 0);
            self.status = Status::NothingToRead;
            return;
        }
        assert(trimmed(text@).len() > 0) by {
            if trimmed(text@).len() == 0 {
                assert(trimmed(text@) =~= Seq::empty());
            }
        }
        if len > MAX_CHARS {
            self.status = Status::TooLong(len);
            return;
        }
        if !wide {
            return;
        }
        let doc = build_doc(text);
        proof {
            assert(doc@.sentences.len() == doc.sentences.len());
            lemma_sentence_count(text@, spans(text@));
            lemma_some_sentence(text@);
        }
        let hash: u64 = text_hash(trimmed_part.as_str());
        let ghost s0 = self.scene(engine);
        self.open(engine, doc, hash);
        proof {
            lemma_opened_text_is_shown(s0, fresh_doc(text@, spans(text@)), hash);
            let s1 = self.scene(engine);
            assert(s1.doc->0 == self.doc->0@);
        }
    }

    /// Read a document, from where it was left off if its text's number is the one
    /// that was noted.
    pub fn open(&mut self, engine: &mut Audio, doc: Doc, hash: u64)
        requires
            old(self).wf(),
            doc.wf(),
            0 < doc.sentences.len() <= MAX_CHARS,
        ensures
            final(self).wf(),
            final(self).scene(final(engine)) == old(self).scene(old(engine)).opened(doc@, hash),
            final(self).doc is Some,
            final(self).doc->0.raw@ == doc.raw@,
            pairs(final(self).doc->0.word_range@) == pairs(doc.word_range@),
    {
        let ghost s0 = self.scene(engine);
        let ghost fresh = doc@;
        assert(doc@.sentences.len() == doc.sentences.len());
        let n: usize = doc.sentences.len();
        self.doc = Some(doc);
        self.reading = true;
        self.status = Status::Quiet;
        self.current_sent = None;
        self.current_word = None;
        let ghost before = self.scene(engine);
        self.bump_epoch();
        let ghost bumped = self.scene(engine);
        let last: u32 = (n - 1) as u32;
        let start: u32 = if hash == self.resume_hash {
            if self.resume_idx <= last {
                self.resume_idx
            } else {
                last
            }
        } else {
            0
        };
        self.want_pause = false;
        let ghost s1 = Scene {
            doc: Some(fresh),
            reading: true,
            status: Status::Quiet,
            current_sent: None,
            current_word: None,
            want_pause: false,
            ..s0.bumped()
        };
        assert(self.scene(engine) =~= s1);
        assert(s1.start(hash) == start);
        self.play_from(engine, start, None);
        proof {
            lemma_opened_text_is_shown(s0, fresh, hash);
            let shown = self.scene(engine);
            assert(shown.doc->0 == self.doc->0@);
        }
    }

    fn forget_lengths(&mut self)
        requires
            old(self).wf(),
        ensures
            final(self).wf(),
            forall|e: &Audio|
                (#[trigger] final(self).scene(e)) == (Scene {
                    doc: match old(self).doc {
                        Some(d) => Some(
                            DocView {
                                sentences: d@.sentences.map_values(
                                    |x: SentenceView| SentenceView { dur: None, ..x },
                                ),
                                ..d@
                            },
                        ),
                        None => None,
                    },
                    ..old(self).scene(e)
                }),
    {
        if let Some(doc) = &mut self.doc {
            let ghost d = *doc;
            let mut i: usize = 0;
            while i < doc.sentences.len()
                invariant
                    i <= doc.sentences.len(),
                    doc.sentences.len() == d.sentences.len(),
                    doc.word_of == d.word_of,
                    doc.word_range == d.word_range,
                    doc.raw == d.raw,
                    forall|k: int|
                        0 <= k < d.sentences.len() ==> (#[trigger] doc.sentences@[k]).text
                            == d.sentences@[k].text && doc.sentences@[k].first_word
                            == d.sentences@[k].first_word && doc.sentences@[k].n_words
                            == d.sentences@[k].n_words && doc.sentences@[k].dur == (if k < i {
                            None
                        } else {
                            d.sentences@[k].dur
                        }),
                decreases doc.sentences.len() - i,
            {
                doc.sentences[i].dur = None;
                i += 1;
            }
            assert(doc@ =~= DocView {
                sentences: d@.sentences.map_values(
                    |x: SentenceView| SentenceView { dur: None, ..x },
                ),
                ..d@
            });
        }
        assert forall|e: &Audio|
            (#[trigger] self.scene(e)) == (Scene {
                doc: match old(self).doc {
                    Some(d) => Some(
                        DocView {
                            sentences: d@.sentences.map_values(
                                |x: SentenceView| SentenceView { dur: None, ..x },
                            ),
                            ..d@
                        },
                    ),
                    None => None,
                },
                ..old(self).scene(e)
            }) by {}
    }

    /// The voice or the speed has changed: drop what is queued and ask anew.
    pub fn refresh_ahead(&mut self, engine: &mut Audio)
        requires
            old(self).wf(),
        ensures
            final(self).wf(),
            final(self).scene(final(engine)) == old(self).scene(old(engine)).refreshed(),
    {
        self.forget_lengths();
        let ghost s1 = self.scene(engine);
        if !self.reading {
            return;
        }
        self.bump_epoch();
        let ghost s2 = self.scene(engine);
        self.epoch = engine.epoch();
        engine.clear_queue();
        keep_only(&mut self.live, self.cur_sent);
        let ghost s3 = self.scene(engine);
        self.enq_next = match self.pending {
            Some((sent, _)) => {
                self.request(sent);
                assert(self.scene(engine) == s3.asked(sent as int));
                sent.saturating_add(1)
            },
            None => self.cur_sent.saturating_add(1),
        };
        let ghost s4 = self.scene(engine);
        assert(s4 =~= (match s3.pending {
            Some((sent, _)) => Scene { enq_next: next(sent), ..s3.asked(sent as int) },
            None => Scene { enq_next: next(s3.cur_sent), ..s3 },
        }));
        self.request(self.enq_next);
        assert(self.scene(engine) == s4.asked(s4.enq_next as int));
    }

    /// Start the sentence that is waited for once its audio is there, or pass it over
    /// if it has nothing to say.
    pub fn start_pending(&mut self, engine: &mut Audio)
        requires
            old(self).wf(),
        ensures
            final(self).wf(),
            final(self).scene(final(engine)) == old(self).scene(old(engine)).pending_started(),
    {
        let ghost s0 = self.scene(engine);
        if let Some((sent, word)) = self.pending {
            if let Some(key) = self.key_for(sent) {
                assert(s0.key_for(sent as int) == Some(key@));
                if self.unspeakable.contains(&key) {
                    self.pending = None;
                    self.play_from(engine, sent + 1, None);
                } else if self.cache.contains_key(&key) {
                    self.pending = None;
                    self.play_from(engine, sent, word);
                }
            } else {
                assert(s0.key_for(sent as int) is None);
            }
        }
    }

    /// Put the next sentence in the queue if its audio is there.
    fn queue_next(&mut self, engine: &mut Audio, key: &Key) -> (r: bool)
        requires
            old(self).wf(),
            old(self).scene(old(engine)).has_room(),
            old(self).scene(old(engine)).key_for(old(self).enq_next as int) == Some(key@),
        ensures
            final(self).wf(),
            r == has_key(old(self).cache@, key@),
            final(self).scene(final(engine)) == (if r {
                old(self).scene(old(engine)).queued()
            } else {
                old(self).scene(old(engine))
            }),
    {
        let ghost s0 = self.scene(engine);
        let sent: u32 = self.enq_next;
        match self.look_up(key, None) {
            None => {
                assert(self.scene(engine) =~= s0);
                false
            },
            Some((clip, _)) => {
                let ghost s1 = self.scene(engine);
                engine.enqueue(self.epoch, Segment { sentence: sent, offset: 0, clip });
                let ghost s2 = self.scene(engine);
                self.note_dur(sent, key, clip);
                let ghost s3 = self.scene(engine);
                self.live.insert(sent, clip);
                self.enq_next = sent + 1;
                assert(self.scene(engine) =~= s0.queued());
                true
            },
        }
    }

    /// Keep the queue topped up.
    pub fn top_up(&mut self, engine: &mut Audio)
        requires
            old(self).wf(),
        ensures
            final(self).wf(),
            final(self).scene(final(engine)) == old(self).scene(old(engine)).topped_up(),
    {
        if self.pending.is_some() {
            return;
        }
        let ghost goal = self.scene(engine).topped();
        loop
            invariant
                self.wf(),
                self.scene(engine).topped() == goal,
                goal == old(self).scene(old(engine)).topped_up(),
            decreases self.scene(engine).sentences().len() - self.enq_next,
        {
            let ghost s = self.scene(engine);
            let n: usize = self.sentence_count();
            assert(s.sentences().len() == n);
            let last: usize = if n > 0 {
                n - 1
            } else {
                0
            };
            let reach: u32 = self.cur_sent.saturating_add(2);
            if self.enq_next > reach || self.enq_next as usize > last {
                assert(!s.has_room());
                return;
            }
            let key = match self.key_for(self.enq_next) {
                Some(k) => k,
                None => {
                    assert(s.key_for(self.enq_next as int) is None);
                    return;
                },
            };
            assert(s.key_for(self.enq_next as int) == Some(key@));
            assert(s.has_room());
            if self.unspeakable.contains(&key) {
                self.enq_next = self.enq_next + 1;
                assert(self.scene(engine) =~= Scene { enq_next: next(s.enq_next), ..s });
            } else if !self.queue_next(engine, &key) {
                self.request(self.enq_next);
                assert(self.scene(engine) == s.asked(s.enq_next as int));
                return;
            }
        }
    }

    /// Follow playback: `editor` is the text in the editor, by which a place to resume
    /// at is known again.
    pub fn follow(&mut self, engine: &mut Audio, editor: &str)
        requires
            old(self).wf(),
        ensures
            final(self).wf(),
            final(self).scene(final(engine)) == old(self).scene(old(engine)).followed(
                place_hash(editor@),
            ),
    {
        let ghost s0 = self.scene(engine);
        let ghost hash = place_hash(editor@);
        match engine.position() {
            Some((sent, _)) => {
                if sent != self.cur_sent {
                    self.cur_sent = sent;
                    self.mark_sentence(sent);
                    let ghost s1 = self.scene(engine);
                    keep_from(&mut self.live, sent);
                    if sent > 0 {
                        let text = trimmed_text(editor);
                        self.resume_hash = text_hash(text.as_str());
                        self.resume_idx = sent;
                        self.save = true;
                    }
                    assert(self.scene(engine) =~= s0.moved(sent, hash));
                }
                self.was_playing = true;
            },
            None => {
                let n: usize = self.sentence_count();
                assert(s0.sentences().len() == n);
                let last: usize = if n > 0 {
                    n - 1
                } else {
                    0
                };
                if self.was_playing && self.pending.is_none() {
                    if self.cur_sent as usize >= last {
                        self.resume_hash = 0;
                        self.resume_idx = 0;
                        self.enter_edit(engine);
                    } else {
                        self.pending = Some((self.cur_sent.saturating_add(1), None));
                    }
                    self.was_playing = false;
                }
                assert(self.scene(engine) =~= s0.followed(hash));
            },
        }
    }

    /// One step of reading: start what was waited for, top up the queue, follow
    /// playback.
    pub fn step(&mut self, engine: &mut Audio, editor: &str)
        requires
            old(self).wf(),
        ensures
            final(self).wf(),
            final(self).scene(final(engine)) == old(self).scene(old(engine)).stepped(
                place_hash(editor@),
            ),
    {
        if self.reading {
            self.start_pending(engine);
            self.top_up(engine);
            self.follow(engine, editor);
        }
    }

    /// Play or pause, where there is (or will be) audio.
    pub fn set_playing(&mut self, engine: &mut Audio, playing: bool)
        requires
            old(self).wf(),
        ensures
            final(self).wf(),
            final(self).scene(final(engine)) == old(self).scene(old(engine)).set_playing(playing),
    {
        if self.reading && (engine.position().is_some() || self.pending.is_some()) {
            self.want_pause = !playing;
            engine.set_paused(!playing);
            self.playing = playing;
            let ghost s = self.scene(engine);
            self.media_playback(playing);
            assert(self.scene(engine) == s.told(playing));
        }
    }

    /// Play, pause, or start reading the text in the editor.
    pub fn toggle(&mut self, engine: &mut Audio, text: &str, wide: bool)
        requires
            old(self).wf(),
        ensures
            final(self).wf(),
            final(self).scene(final(engine)) == (if old(self).reading {
                old(self).scene(old(engine)).toggled()
            } else {
                entered(old(self).scene(old(engine)), text@, wide)
            }),
    {
        if !self.reading {
            self.enter_read(engine, text, wide);
        } else if engine.position().is_some() || self.pending.is_some() {
            let playing: bool = engine.paused();
            self.set_playing(engine, playing);
        } else {
            let sent: u32 = self.cur_sent;
            self.want_pause = false;
            self.play_from(engine, sent, None);
        }
    }

    /// Go to the next sentence, or back.
    pub fn nav(&mut self, engine: &mut Audio, forward: bool)
        requires
            old(self).wf(),
        ensures
            final(self).wf(),
            final(self).scene(final(engine)) == old(self).scene(old(engine)).navigated(forward),
    {
        if !self.reading {
            return;
        }
        let ghost s0 = self.scene(engine);
        let n: usize = self.sentence_count();
        assert(s0.sentences().len() == n);
        let last: u32 = if n > 0 {
            (n - 1) as u32
        } else {
            0
        };
        let cur: u32 = self.cur_sent;
        let target: u32 = if forward {
            if cur < last {
                cur + 1
            } else {
                last
            }
        } else {
            let late: bool = match engine.position() {
                Some((_, sample)) => sample > 48_000,
                None => false,
            };
            if late || cur == 0 {
                cur
            } else {
                cur - 1
            }
        };
        self.want_pause = false;
        self.play_from(engine, target, None);
    }

    /// Read from a word on.
    pub fn word_clicked(&mut self, engine: &mut Audio, word: usize)
        requires
            old(self).wf(),
        ensures
            final(self).wf(),
            final(self).scene(final(engine)) == old(self).scene(old(engine)).clicked(word as int),
    {
        let ghost s0 = self.scene(engine);
        let hit: Option<(usize, usize)> = match &self.doc {
            Some(d) => {
                assert(d@.word_of.len() == d.word_of.len());
                if word < d.word_of.len() {
                    let p: (usize, usize) = d.word_of[word];
                    assert(d@.word_of[word as int] == (p.0 as int, p.1 as int));
                    Some(p)
                } else {
                    None
                }
            },
            None => None,
        };
        if let Some((sent, k)) = hit {
            self.want_pause = false;
            self.play_from(engine, sent as u32, Some(k));
        }
    }

    /// Speak with another voice.
    pub fn set_voice(&mut self, engine: &mut Audio, voice: String)
        requires
            old(self).wf(),
        ensures
            final(self).wf(),
            final(self).scene(final(engine)) == (Scene {
                save: true,
                ..(Scene { voice: voice@, ..old(self).scene(old(engine)) }).refreshed()
            }),
    {
        self.voice = voice;
        self.refresh_ahead(engine);
        self.save = true;
    }

    /// Speak at another speed.
    pub fn set_speed(&mut self, engine: &mut Audio, speed100: u32)
        requires
            old(self).wf(),
        ensures
            final(self).wf(),
            final(self).scene(final(engine)) == (Scene {
                speed100,
                ..old(self).scene(old(engine))
            }).refreshed(),
    {
        self.speed100 = speed100;
        self.refresh_ahead(engine);
    }

    /// The word that is being spoken is this one.
    pub fn show_word(&mut self, word: usize)
        requires
            old(self).wf(),
        ensures
            final(self).wf(),
            final(self).current_word == Some(word),
            forall|e: &Audio|
                (#[trigger] final(self).scene(e)) == (if old(self).current_word == Some(word) {
                    old(self).scene(e)
                } else {
                    Scene {
                        current_word: Some(word),
                        scroll: Some((word, false)),
                        ..old(self).scene(e)
                    }
                }),
    {
        if self.current_word != Some(word) {
            self.current_word = Some(word);
            self.scroll = Some((word, false));
        }
    }

    /// The audio of a sentence has come: keep it, and note its length.
    pub fn on_spoken(&mut self, sent: u32, key: Key, spoken: Spoken)
        requires
            old(self).wf(),
        ensures
            final(self).wf(),
            forall|e: &Audio|
                (#[trigger] final(self).scene(e)) == old(self).scene(e).received(
                    sent as int,
                    key@,
                    spoken@,
                ),
    {
        let ghost before = *self;
        let ghost k = key@;
        let ghost v = spoken@;
        self.requested.remove(&key);
        let ghost removed = *self;
        self.note_dur(sent, &key, spoken.clip);
        let ghost noted = *self;
        self.cache.put(key, spoken);
        assert forall|e: &Audio|
            (#[trigger] self.scene(e)) == before.scene(e).received(sent as int, k, v) by {
            assert(noted.scene(e) == removed.scene(e).timed(sent as int, k, v.clip));
            assert(self.scene(e) =~= before.scene(e).received(sent as int, k, v));
        }
    }

    /// A sentence has nothing to say.
    pub fn on_unspeakable(&mut self, key: Key)
        requires
            old(self).wf(),
        ensures
            final(self).wf(),
            forall|e: &Audio|
                (#[trigger] final(self).scene(e)) == old(self).scene(e).silenced(key@),
    {
        self.requested.remove(&key);
        self.unspeakable.insert(key);
    }

    /// A sentence could not be synthesized: reading ends if it was waited for.
    pub fn on_failed(&mut self, engine: &mut Audio, sent: u32, key: &Key)
        requires
            old(self).wf(),
        ensures
            final(self).wf(),
            final(self).scene(final(engine)) == old(self).scene(old(engine)).failed(sent, key@),
    {
        self.requested.remove(key);
        let waited: bool = match self.pending {
            Some((p, _)) => p == sent,
            None => false,
        };
        if self.reading && waited {
            self.status = Status::Failed;
            self.enter_edit(engine);
        }
    }

    /// Do as the desktop's media keys say.
    pub fn on_media(&mut self, engine: &mut Audio, event: MediaEvent, text: &str, wide: bool)
        requires
            old(self).wf(),
        ensures
            final(self).wf(),
            final(self).scene(final(engine)) == media_done(
                old(self).scene(old(engine)),
                event,
                text@,
                wide,
            ),
    {
        match event {
            MediaEvent::Play => {
                if self.reading {
                    self.set_playing(engine, true);
                } else {
                    self.enter_read(engine, text, wide);
                }
            },
            MediaEvent::Pause => {
                self.set_playing(engine, false);
            },
            MediaEvent::Toggle => {
                self.toggle(engine, text, wide);
            },
            MediaEvent::Stop => {
                if self.reading {
                    self.enter_edit(engine);
                }
            },
            MediaEvent::Next => {
                self.nav(engine, true);
            },
            MediaEvent::Previous => {
                self.nav(engine, false);
            },
            MediaEvent::Other => {},
        }
    }
}

/// What the desktop's media keys can say.
#[derive(Debug, Clone, Copy, PartialEq, Eq, Structural)]
pub enum MediaEvent {
    Play,
    Pause,
    Toggle,
    Stop,
    Next,
    Previous,
    Other,
}

/// What comes of a media key.
pub open spec fn media_done(s: Scene, event: MediaEvent, text: Seq<char>, wide: bool) -> Scene {
    match event {
        MediaEvent::Play => if s.reading {
            s.set_playing(true)
        } else {
            entered(s, text, wide)
        },
        MediaEvent::Pause => s.set_playing(false),
        MediaEvent::Toggle => if s.reading {
            s.toggled()
        } else {
            entered(s, text, wide)
        },
        MediaEvent::Stop => if s.reading {
            s.edited()
        } else {
            s
        },
        MediaEvent::Next => s.navigated(true),
        MediaEvent::Previous => s.navigated(false),
        MediaEvent::Other => s,
    }
}

/// A text that is not blank has a sentence.
proof fn lemma_some_sentence(s: Seq<char>)
    requires
        trimmed(s).len() > 0,
        well_cut(s, spans(s), 0, s.len() as int),
    ensures
        spans(s).len() > 0,
{
    crate::text::lemma_trimmed_ends(s);
    crate::text::lemma_trimmed_within(s);
    let k = crate::text::lead(s) as int;
    assert(trimmed(s)[0] == s[k]);
    assert(crate::segment::covers(spans(s), k));
}

/// An export does not disturb reading: what comes of its requests, which carry the largest
/// number for a sentence, neither ends reading nor changes what is known of a sentence.
pub proof fn lemma_export_is_apart(p: &Player, engine: &Audio, k: KeyView, clip: Clip)
    requires
        p.wf(),
    ensures
        p.scene(engine).failed(u32::MAX, k) == (Scene {
            requested: p.scene(engine).requested.remove(k),
            ..p.scene(engine)
        }),
        p.scene(engine).timed(u32::MAX as int, k, clip) == p.scene(engine),
{
}

/// The number of a text begins with 5381 and takes up its bytes one by one: each is mixed
/// into 33 times what there was, in 64 bits.
pub proof fn lemma_text_is_numbered(bytes: Seq<u8>, b: u8)
    ensures
        hashed(Seq::<u8>::empty()) == 5381u64,
        hashed(bytes.push(b)) == ((hashed(bytes) * 33) % 0x1_0000_0000_0000_0000) as u64 ^ (
        b as u64),
{
    assert(bytes.push(b).drop_last() =~= bytes);
    assert(bytes.push(b).last() == b);
}

/// A text is known again whatever white space is put around it.
pub proof fn lemma_known_again(front: Seq<char>, text: Seq<char>, back: Seq<char>)
    requires
        text.len() > 0,
        !white(text[0]),
        !white(text.last()),
        forall|k: int| 0 <= k < front.len() ==> white(#[trigger] front[k]),
        forall|k: int| 0 <= k < back.len() ==> white(#[trigger] back[k]),
    ensures
        place_hash(front + text + back) == hashed(encode_utf8(text)),
{
    crate::text::lemma_trimmed_is(front, text, back);
}

/// What may be read: not a blank text, nor one of more than 25000 bytes with the white
/// space at its ends aside, nor any in a window too narrow; each of these leaves all but
/// the status as it was. Another text is opened as it stands.
pub proof fn lemma_what_may_be_read(
    s: Scene,
    front: Seq<char>,
    text: Seq<char>,
    back: Seq<char>,
    wide: bool,
)
    requires
        text.len() > 0,
        !white(text[0]),
        !white(text.last()),
        forall|k: int| 0 <= k < front.len() ==> white(#[trigger] front[k]),
        forall|k: int| 0 <= k < back.len() ==> white(#[trigger] back[k]),
    ensures
        entered(s, front, wide) == (Scene { status: Status::NothingToRead, ..s }),
        !opens(front, wide),
        ({
            let whole = front + text + back;
            let n = encode_utf8(text).len();
            &&& opens(whole, wide) == (n <= 25000 && wide)
            &&& n > 25000 ==> entered(s, whole, wide) == (Scene {
                status: Status::TooLong(n as usize),
                ..s
            })
            &&& n <= 25000 && !wide ==> entered(s, whole, wide) == s
            &&& n <= 25000 && wide ==> entered(s, whole, wide) == s.opened(
                fresh_doc(whole, spans(whole)),
                hashed(encode_utf8(text)),
            )
        }),
{
    crate::text::lemma_trimmed_is(front, text, back);
    crate::text::lemma_trimmed_blank(front);
}

/// The media keys do what the controls do: play goes on with what is read, pause holds it,
/// stop ends it, the others move by a sentence; where nothing is read, play and toggle
/// begin with the text. Any other key does nothing.
pub proof fn lemma_media_keys(s: Scene, text: Seq<char>, wide: bool)
    ensures
        s.reading ==> media_done(s, MediaEvent::Play, text, wide) == s.set_playing(true)
            && media_done(s, MediaEvent::Toggle, text, wide) == s.toggled() && media_done(
            s,
            MediaEvent::Stop,
            text,
            wide,
        ) == s.edited(),
        !s.reading ==> media_done(s, MediaEvent::Play, text, wide) == entered(s, text, wide)
            && media_done(s, MediaEvent::Toggle, text, wide) == entered(s, text, wide)
            && media_done(s, MediaEvent::Stop, text, wide) == s,
        media_done(s, MediaEvent::Pause, text, wide) == s.set_playing(false),
        media_done(s, MediaEvent::Next, text, wide) == s.navigated(true),
        media_done(s, MediaEvent::Previous, text, wide) == s.navigated(false),
        media_done(s, MediaEvent::Other, text, wide) == s,
{
}

} // verus!
