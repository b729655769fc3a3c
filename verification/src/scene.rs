//! The reader as a state machine: all that reading aloud depends on, and what each
//! event makes of it.

use crate::cache::{
    has_key, held, is_cache, lemma_put_is_found, stored, used, KeyView, ReqView, SpokenView,
};
use crate::document::{DocView, SentenceView};
use crate::audio::{seek_to, Clip, AudioView, Segment};
use vstd::prelude::*;

verus! {

/// What the status line says.
#[derive(Debug, Clone, Copy, PartialEq, Eq, Structural)]
pub enum Status {
    Quiet,
    NothingToRead,
    /// A text of so many bytes is too long to read.
    TooLong(usize),
    /// A sentence could not be synthesized.
    Failed,
    NothingToExport,
    /// So many sentences of so many are there to export.
    Exporting(usize, usize),
    NothingSpeakable,
    ExportFailed,
}

/// What the desktop's media controls show.
#[derive(Debug, Clone, Copy, PartialEq, Eq, Structural)]
pub enum MediaState {
    Stopped,
    Playing,
    Paused,
}

/// The state of the reader and of its playback engine.
#[verifier::ext_equal]
pub struct Scene {
    pub engine: AudioView,
    pub worker_epoch: u64,
    pub epoch: u64,
    pub cache: Seq<(KeyView, SpokenView)>,
    pub requested: Set<KeyView>,
    pub unspeakable: Set<KeyView>,
    pub doc: Option<DocView>,
    pub voice: Seq<char>,
    pub speed100: u32,
    pub reading: bool,
    pub was_playing: bool,
    pub want_pause: bool,
    pub cur_sent: u32,
    pub enq_next: u32,
    pub pending: Option<(u32, Option<usize>)>,
    pub live: Map<u32, Clip>,
    pub resume_hash: u64,
    pub resume_idx: u32,
    pub playing: bool,
    pub current_sent: Option<u32>,
    pub current_word: Option<usize>,
    pub status: Status,
    pub media: MediaState,
    pub scroll: Option<(usize, bool)>,
    pub save: bool,
    pub outbox: Seq<ReqView>,
}

/// One more, as far as there is one.
pub open spec fn next(i: u32) -> u32 {
    if i < u32::MAX {
        (i + 1) as u32
    } else {
        i
    }
}

/// The sample that a word begins at.
pub open spec fn start_in(starts: Seq<u32>, word: Option<usize>) -> Option<u32> {
    match word {
        Some(w) => if w < starts.len() {
            Some(starts[w as int])
        } else {
            None
        },
        None => None,
    }
}

impl Scene {
    /// The sentences of the document.
    pub open spec fn sentences(self) -> Seq<SentenceView> {
        match self.doc {
            Some(d) => d.sentences,
            None => Seq::empty(),
        }
    }

    /// The number of the last sentence.
    pub open spec fn last(self) -> int {
        if self.sentences().len() > 0 {
            self.sentences().len() - 1
        } else {
            0
        }
    }

    /// What makes the audio of a sentence, as things stand.
    pub open spec fn key_for(self, sent: int) -> Option<KeyView> {
        if 0 <= sent < self.sentences().len() {
            Some(
                KeyView {
                    voice: self.voice,
                    speed100: self.speed100,
                    text: self.sentences()[sent].text,
                },
            )
        } else {
            None
        }
    }

    /// The worker is asked for a sentence, unless its audio is there or on its way,
    /// or is known not to exist.
    pub open spec fn asked(self, sent: int) -> Scene {
        match self.key_for(sent) {
            Some(k) => if has_key(self.cache, k) || self.requested.contains(k)
                || self.unspeakable.contains(k) {
                self
            } else {
                Scene {
                    requested: self.requested.insert(k),
                    outbox: self.outbox.push(
                        ReqView {
                            epoch: self.worker_epoch,
                            sent: sent as u32,
                            key: k,
                            keep: false,
                        },
                    ),
                    ..self
                }
            },
            None => self,
        }
    }

    /// A sentence's length is noted, if the audio is what the document would ask for.
    pub open spec fn timed(self, sent: int, k: KeyView, clip: Clip) -> Scene {
        if self.key_for(sent) == Some(k) {
            let s = self.sentences();
            Scene {
                doc: Some(
                    DocView {
                        sentences: s.update(
                            sent,
                            SentenceView { dur: Some(clip.samples), ..s[sent] },
                        ),
                        ..self.doc->0
                    },
                ),
                ..self
            }
        } else {
            self
        }
    }

    /// Another sentence is the one that is marked.
    pub open spec fn marked(self, sent: u32) -> Scene {
        if self.current_sent == Some(sent) {
            self
        } else {
            Scene { current_sent: Some(sent), current_word: None, ..self }
        }
    }

    /// The media controls learn whether it plays.
    pub open spec fn told(self, playing: bool) -> Scene {
        Scene {
            media: if !self.reading {
                MediaState::Stopped
            } else if playing {
                MediaState::Playing
            } else {
                MediaState::Paused
            },
            ..self
        }
    }

    /// What was asked of the worker so far is not wanted any more.
    pub open spec fn bumped(self) -> Scene {
        Scene {
            worker_epoch: self.worker_epoch.wrapping_add(1),
            requested: Set::empty(),
            ..self
        }
    }

    /// Back to editing: silence, and nothing waited for.
    pub open spec fn edited(self) -> Scene {
        Scene {
            engine: self.engine.stopped(),
            reading: false,
            was_playing: false,
            pending: None,
            live: Map::empty(),
            playing: false,
            current_sent: None,
            current_word: None,
            ..self.bumped()
        }.told(false)
    }

    /// A sentence whose audio is there begins to play.
    pub open spec fn begun(self, sent: int, k: KeyView, word: Option<usize>) -> Scene {
        let v = held(self.cache, k);
        let seg = Segment {
            sentence: sent as u32,
            offset: seek_to(start_in(v.starts, word), v.clip.samples),
            clip: v.clip,
        };
        let engine = self.engine.played_now(seg).with_paused(self.want_pause);
        Scene {
            engine,
            epoch: engine.epoch,
            cache: used(self.cache, k),
            live: Map::empty().insert(sent as u32, v.clip),
            enq_next: (sent + 1) as u32,
            pending: None,
            was_playing: true,
            playing: !self.want_pause,
            status: Status::Quiet,
            ..self.timed(sent, k, v.clip)
        }.told(!self.want_pause)
    }

    /// A sentence whose audio is not there is waited for.
    pub open spec fn awaited(self, sent: int, word: Option<usize>) -> Scene {
        let engine = self.engine.stopped();
        let s = Scene {
            engine,
            epoch: engine.epoch,
            pending: Some((sent as u32, word)),
            ..self
        }.asked(sent);
        Scene { playing: !self.want_pause, ..s }
    }

    /// Reading goes on from a sentence, or from a word of it. Behind the last sentence
    /// it ends.
    pub open spec fn played_from(self, sent: int, word: Option<usize>) -> Scene {
        if self.doc is None {
            self
        } else if sent >= self.sentences().len() {
            self.edited()
        } else {
            let s = Scene {
                cur_sent: sent as u32,
                scroll: Some((self.sentences()[sent].first_word as usize, true)),
                ..self.marked(sent as u32)
            };
            let k = s.key_for(sent)->0;
            let t = if has_key(s.cache, k) {
                s.begun(sent, k, word)
            } else {
                s.awaited(sent, word)
            };
            t.asked(sent + 1).asked(sent + 2)
        }
    }

    /// Where reading a text takes up: where it was left, if it is the same text.
    pub open spec fn start(self, hash: u64) -> int {
        if hash == self.resume_hash {
            if self.resume_idx <= self.last() {
                self.resume_idx as int
            } else {
                self.last()
            }
        } else {
            0
        }
    }

    /// A document is opened and read.
    pub open spec fn opened(self, doc: DocView, hash: u64) -> Scene {
        let s = Scene {
            doc: Some(doc),
            reading: true,
            status: Status::Quiet,
            current_sent: None,
            current_word: None,
            want_pause: false,
            ..self.bumped()
        };
        s.played_from(s.start(hash), None)
    }

    /// The voice or the speed has changed: what lies ahead is asked for anew.
    pub open spec fn refreshed(self) -> Scene {
        let s = Scene {
            doc: match self.doc {
                Some(d) => Some(
                    DocView {
                        sentences: d.sentences.map_values(
                            |x: SentenceView| SentenceView { dur: None, ..x },
                        ),
                        ..d
                    },
                ),
                None => None,
            },
            ..self
        };
        if !self.reading {
            s
        } else {
            let b = s.bumped();
            let t = Scene {
                epoch: b.engine.epoch,
                engine: b.engine.unqueued(),
                live: b.live.restrict(set![b.cur_sent]),
                ..b
            };
            let u = match t.pending {
                Some((sent, _)) => Scene { enq_next: next(sent), ..t.asked(sent as int) },
                None => Scene { enq_next: next(t.cur_sent), ..t },
            };
            u.asked(u.enq_next as int)
        }
    }

    /// The sentence that is waited for plays once its audio is there; one that has
    /// nothing to say is passed over.
    pub open spec fn pending_started(self) -> Scene {
        match self.pending {
            Some((sent, word)) => match self.key_for(sent as int) {
                Some(k) => if self.unspeakable.contains(k) {
                    Scene { pending: None, ..self }.played_from(sent + 1, None)
                } else if has_key(self.cache, k) {
                    Scene { pending: None, ..self }.played_from(sent as int, word)
                } else {
                    self
                },
                None => self,
            },
            None => self,
        }
    }

    /// Is there room in the queue for one more sentence?
    pub open spec fn has_room(self) -> bool {
        &&& self.enq_next <= self.cur_sent + 2
        &&& self.enq_next <= self.last()
        &&& self.enq_next < u32::MAX
        &&& self.key_for(self.enq_next as int) is Some
    }

    /// The next sentence joins the queue.
    pub open spec fn queued(self) -> Scene {
        let sent = self.enq_next;
        let k = self.key_for(sent as int)->0;
        let v = held(self.cache, k);
        Scene {
            engine: self.engine.enqueued(
                self.epoch,
                Segment { sentence: sent, offset: 0, clip: v.clip },
            ),
            cache: used(self.cache, k),
            live: self.live.insert(sent, v.clip),
            enq_next: next(sent),
            ..self.timed(sent as int, k, v.clip)
        }
    }

    /// The queue is kept two sentences ahead, as far as audio is there; the first
    /// that lacks audio is asked for.
    pub open spec fn topped(self) -> Scene
        decreases self.sentences().len() - self.enq_next,
    {
        if !self.has_room() {
            self
        } else {
            let k = self.key_for(self.enq_next as int)->0;
            if self.unspeakable.contains(k) {
                Scene { enq_next: next(self.enq_next), ..self }.topped()
            } else if has_key(self.cache, k) {
                self.queued().topped()
            } else {
                self.asked(self.enq_next as int)
            }
        }
    }

    /// The queue is topped up unless a sentence is waited for.
    pub open spec fn topped_up(self) -> Scene {
        if self.pending is None {
            self.topped()
        } else {
            self
        }
    }

    /// Audio has reached another sentence.
    pub open spec fn moved(self, sent: u32, hash: u64) -> Scene {
        let s = Scene {
            cur_sent: sent,
            live: self.live.restrict(Set::new(|i: u32| i >= sent)),
            ..self.marked(sent)
        };
        if sent > 0 {
            Scene { resume_hash: hash, resume_idx: sent, save: true, ..s }
        } else {
            s
        }
    }

    /// The reader follows playback. Where that has run dry, reading is over if the
    /// last sentence was played, and else the next one is waited for.
    pub open spec fn followed(self, hash: u64) -> Scene {
        match self.engine.position() {
            Some((sent, _)) => Scene {
                was_playing: true,
                ..(if sent != self.cur_sent {
                    self.moved(sent, hash)
                } else {
                    self
                })
            },
            None => if self.was_playing && self.pending is None {
                if self.cur_sent >= self.last() {
                    Scene { resume_hash: 0, resume_idx: 0, ..self }.edited()
                } else {
                    Scene {
                        pending: Some((next(self.cur_sent), None)),
                        was_playing: false,
                        ..self
                    }
                }
            } else {
                self
            },
        }
    }

    /// One step of reading.
    pub open spec fn stepped(self, hash: u64) -> Scene {
        if self.reading {
            self.pending_started().topped_up().followed(hash)
        } else {
            self
        }
    }

    /// The audio of a sentence has come.
    pub open spec fn received(self, sent: int, k: KeyView, v: SpokenView) -> Scene {
        let s = Scene { requested: self.requested.remove(k), ..self }.timed(sent, k, v.clip);
        Scene { cache: stored(s.cache, k, v), ..s }
    }

    /// A sentence turned out to have nothing to say.
    pub open spec fn silenced(self, k: KeyView) -> Scene {
        Scene {
            requested: self.requested.remove(k),
            unspeakable: self.unspeakable.insert(k),
            ..self
        }
    }

    /// A sentence could not be synthesized: reading ends if it was waited for.
    pub open spec fn failed(self, sent: u32, k: KeyView) -> Scene {
        let s = Scene { requested: self.requested.remove(k), ..self };
        if s.reading && s.pending is Some && (s.pending->0).0 == sent {
            Scene { status: Status::Failed, ..s }.edited()
        } else {
            s
        }
    }

    /// Is there audio, or will there be?
    pub open spec fn audible(self) -> bool {
        self.engine.position() is Some || self.pending is Some
    }

    /// Play or pause, where there is something to.
    pub open spec fn set_playing(self, playing: bool) -> Scene {
        if self.reading && self.audible() {
            Scene {
                want_pause: !playing,
                engine: self.engine.with_paused(!playing),
                playing,
                ..self
            }.told(playing)
        } else {
            self
        }
    }

    /// The other of playing and pausing; where nothing plays, the current sentence.
    pub open spec fn toggled(self) -> Scene {
        if self.audible() {
            self.set_playing(self.engine.paused)
        } else {
            Scene { want_pause: false, ..self }.played_from(self.cur_sent as int, None)
        }
    }

    /// The sentence to go to: the next one, or back to the start of this one, or if
    /// it has barely begun to the one before.
    pub open spec fn target(self, forward: bool) -> int {
        if forward {
            if self.cur_sent < self.last() {
                self.cur_sent + 1
            } else {
                self.last()
            }
        } else {
            let late = match self.engine.position() {
                Some((_, sample)) => sample > 48_000,
                None => false,
            };
            if late || self.cur_sent == 0 {
                self.cur_sent as int
            } else {
                self.cur_sent - 1
            }
        }
    }

    /// Go to another sentence.
    pub open spec fn navigated(self, forward: bool) -> Scene {
        if self.reading {
            Scene { want_pause: false, ..self }.played_from(self.target(forward), None)
        } else {
            self
        }
    }

    /// Read from a word on.
    pub open spec fn clicked(self, word: int) -> Scene {
        if self.doc is Some && 0 <= word < self.doc->0.word_of.len() {
            let (sent, k) = self.doc->0.word_of[word];
            Scene { want_pause: false, ..self }.played_from(sent, Some(k as usize))
        } else {
            self
        }
    }
}

/// Playing and pausing are idempotent: asked for twice is asked for once.
pub proof fn lemma_set_playing_twice(s: Scene, playing: bool)
    ensures
        s.set_playing(playing).set_playing(playing) == s.set_playing(playing),
{
    let t = s.set_playing(playing);
    assert(t.set_playing(playing) =~= t);
}

/// Toggling twice plays on, or stays paused, as before.
pub proof fn lemma_toggle_twice(s: Scene)
    requires
        s.reading,
        s.audible(),
    ensures
        s.toggled().toggled().engine == s.engine,
{
    assert(s.toggled().toggled().engine =~= s.engine);
}

proof fn lemma_asked_keeps(s: Scene, sent: int)
    ensures
        s.asked(sent) == (Scene {
            requested: s.asked(sent).requested,
            outbox: s.asked(sent).outbox,
            ..s
        }),
{
}

/// Two states show the same text, with its words at the same places.
pub open spec fn shows_same(a: Scene, b: Scene) -> bool {
    match (a.doc, b.doc) {
        (Some(x), Some(y)) => x.raw == y.raw && x.word_range == y.word_range && x.word_of
            == y.word_of && x.sentences.len() == y.sentences.len(),
        (None, None) => true,
        _ => false,
    }
}

proof fn lemma_played_from_shows(s: Scene, sent: int, word: Option<usize>)
    requires
        0 <= sent,
    ensures
        shows_same(s, s.played_from(sent, word)),
{
    if s.doc is Some && sent < s.sentences().len() {
        let m = Scene {
            cur_sent: sent as u32,
            scroll: Some((s.sentences()[sent].first_word as usize, true)),
            ..s.marked(sent as u32)
        };
        let k = m.key_for(sent)->0;
        let t = if has_key(m.cache, k) {
            m.begun(sent, k, word)
        } else {
            m.awaited(sent, word)
        };
        assert(shows_same(s, t));
        lemma_asked_keeps(t, sent + 1);
        lemma_asked_keeps(t.asked(sent + 1), sent + 2);
    }
}

proof fn lemma_topped_shows(s: Scene)
    ensures
        shows_same(s, s.topped()),
    decreases s.sentences().len() - s.enq_next,
{
    if s.has_room() {
        let k = s.key_for(s.enq_next as int)->0;
        if s.unspeakable.contains(k) {
            lemma_topped_shows(Scene { enq_next: next(s.enq_next), ..s });
        } else if has_key(s.cache, k) {
            assert(shows_same(s, s.queued()));
            lemma_topped_shows(s.queued());
        }
    }
}

/// The reader shows the text it was opened with: its words are where they are in the
/// document.
pub proof fn lemma_opened_text_is_shown(s: Scene, doc: DocView, hash: u64)
    ensures
        s.opened(doc, hash).doc is Some,
        s.opened(doc, hash).doc->0.raw == doc.raw,
        s.opened(doc, hash).doc->0.word_range == doc.word_range,
        s.opened(doc, hash).doc->0.word_of == doc.word_of,
{
    let t = Scene {
        doc: Some(doc),
        reading: true,
        status: Status::Quiet,
        current_sent: None,
        current_word: None,
        want_pause: false,
        ..s.bumped()
    };
    lemma_played_from_shows(t, t.start(hash), None);
}

/// Whatever the user does in the reader, it shows the same text, with its words at the
/// same places.
pub proof fn lemma_controls_keep_text(s: Scene, sent: u32, word: int, yes: bool)
    requires
        s.doc is Some && 0 <= word < s.doc->0.word_of.len() ==> 0 <= s.doc->0.word_of[word].0,
    ensures
        shows_same(s, s.played_from(sent as int, None)),
        shows_same(s, s.edited()),
        shows_same(s, s.set_playing(yes)),
        shows_same(s, s.toggled()),
        shows_same(s, s.navigated(yes)),
        shows_same(s, s.clicked(word)),
        shows_same(s, s.refreshed()),
{
    let free = Scene { want_pause: false, ..s };
    lemma_refreshed_shows(s);
    lemma_played_from_shows(s, sent as int, None);
    assert(shows_same(s, s.toggled())) by {
        lemma_played_from_shows(free, s.cur_sent as int, None);
    }
    assert(shows_same(s, s.navigated(yes))) by {
        lemma_played_from_shows(free, s.target(yes), None);
    }
    assert(shows_same(s, s.clicked(word))) by {
        if s.doc is Some && 0 <= word < s.doc->0.word_of.len() {
            let (at, n) = s.doc->0.word_of[word];
            lemma_played_from_shows(free, at, Some(n as usize));
        }
    }
}

/// Whatever comes of playback and of the worker, the reader shows the same text, with its
/// words at the same places.
pub proof fn lemma_reading_keeps_text(s: Scene, hash: u64, sent: u32, k: KeyView, v: SpokenView)
    ensures
        shows_same(s, s.stepped(hash)),
        shows_same(s, s.received(sent as int, k, v)),
        shows_same(s, s.silenced(k)),
        shows_same(s, s.failed(sent, k)),
{
    lemma_stepped_shows(s, hash);
}

proof fn lemma_stepped_shows(s: Scene, hash: u64)
    ensures
        shows_same(s, s.stepped(hash)),
{
    if s.reading {
        if s.pending is Some {
            let (sent, word) = s.pending->0;
            let free = Scene { pending: None, ..s };
            lemma_played_from_shows(free, sent + 1, None);
            lemma_played_from_shows(free, sent as int, word);
        }
        let p = s.pending_started();
        assert(shows_same(s, p));
        lemma_topped_shows(p);
        let t = p.topped_up();
        assert(shows_same(s, t));
        assert(shows_same(t, t.followed(hash)));
    }
}

proof fn lemma_refreshed_shows(s: Scene)
    ensures
        shows_same(s, s.refreshed()),
{
}

/// Back in the editor nothing sounds, nothing is waited for and nothing is wanted of
/// the worker.
pub proof fn lemma_edited_is_silent(s: Scene)
    ensures
        !s.edited().reading,
        s.edited().engine.position() is None,
        s.edited().engine.cur is None,
        s.edited().pending is None,
        s.edited().requested == Set::<KeyView>::empty(),
        s.edited().media == MediaState::Stopped,
        !s.edited().audible(),
{
}

/// A pause asked for while a sentence was loading is kept when it begins to play.
pub proof fn lemma_pause_is_honoured(s: Scene, sent: int, word: Option<usize>)
    requires
        s.doc is Some,
        0 <= sent < s.sentences().len() <= u32::MAX,
        has_key(s.cache, s.key_for(sent)->0),
    ensures
        s.played_from(sent, word).engine.paused == s.want_pause,
        s.played_from(sent, word).playing == !s.want_pause,
        s.played_from(sent, word).engine.cur is Some,
        s.played_from(sent, word).engine.cur->0.sentence == sent,
        s.played_from(sent, word).pending is None,
{
    let m = Scene {
        cur_sent: sent as u32,
        scroll: Some((s.sentences()[sent].first_word as usize, true)),
        ..s.marked(sent as u32)
    };
    let k = m.key_for(sent)->0;
    assert(k == s.key_for(sent)->0);
    let t = m.begun(sent, k, word);
    lemma_asked_keeps(t, sent + 1);
    lemma_asked_keeps(t.asked(sent + 1), sent + 2);
}

/// The sentence that is waited for plays as soon as its audio has come, from the word that
/// was asked for.
pub proof fn lemma_awaited_audio_plays(s: Scene, v: SpokenView)
    requires
        s.pending is Some,
        (s.pending->0).0 < s.sentences().len() <= u32::MAX,
        is_cache(s.cache),
        !s.unspeakable.contains(s.key_for((s.pending->0).0 as int)->0),
    ensures
        ({
            let (sent, word) = s.pending->0;
            let t = s.received(sent as int, s.key_for(sent as int)->0, v).pending_started();
            &&& t.pending is None
            &&& t.engine.cur == Some(
                Segment {
                    sentence: sent,
                    offset: seek_to(start_in(v.starts, word), v.clip.samples),
                    clip: v.clip,
                },
            )
            &&& t.engine.paused == s.want_pause
        }),
{
    let (sent, word) = s.pending->0;
    let k = s.key_for(sent as int)->0;
    let r = s.received(sent as int, k, v);
    lemma_put_is_found(s.cache, k, v);
    assert(r.key_for(sent as int) == Some(k));
    let w = Scene { pending: None, ..r };
    assert(w.key_for(sent as int) == Some(k));
    lemma_pause_is_honoured(w, sent as int, word);
    let m = Scene {
        cur_sent: sent,
        scroll: Some((w.sentences()[sent as int].first_word as usize, true)),
        ..w.marked(sent)
    };
    let t = m.begun(sent as int, k, word);
    lemma_asked_keeps(t, sent + 1);
    lemma_asked_keeps(t.asked(sent + 1), sent + 2);
}

/// A sentence whose audio is missing is waited for, in silence, and asked for unless
/// it is on its way or has nothing to say.
pub proof fn lemma_missing_audio_is_awaited(s: Scene, sent: int, word: Option<usize>)
    requires
        s.doc is Some,
        0 <= sent < s.sentences().len() <= u32::MAX,
        !has_key(s.cache, s.key_for(sent)->0),
    ensures
        s.played_from(sent, word).pending == Some((sent as u32, word)),
        s.played_from(sent, word).engine.position() is None,
        s.played_from(sent, word).requested.contains(s.key_for(sent)->0)
            || s.unspeakable.contains(s.key_for(sent)->0),
{
    let m = Scene {
        cur_sent: sent as u32,
        scroll: Some((s.sentences()[sent].first_word as usize, true)),
        ..s.marked(sent as u32)
    };
    let t = m.awaited(sent, word);
    lemma_asked_keeps(t, sent + 1);
    lemma_asked_keeps(t.asked(sent + 1), sent + 2);
}

/// The worker is never asked for what is there, on its way or known to be
/// unspeakable, and never twice.
pub proof fn lemma_asked_once(s: Scene, sent: int)
    ensures
        s.asked(sent).asked(sent) == s.asked(sent),
        s.asked(sent).outbox.len() <= s.outbox.len() + 1,
        s.asked(sent).outbox.len() > s.outbox.len() ==> !has_key(s.cache, s.key_for(sent)->0)
            && !s.requested.contains(s.key_for(sent)->0) && !s.unspeakable.contains(
            s.key_for(sent)->0,
        ),
{
}

/// The queue never runs more than two sentences ahead, and what it adds is in order:
/// topping up never goes back.
pub proof fn lemma_topped_stays_near(s: Scene)
    ensures
        s.topped().enq_next >= s.enq_next,
        s.topped().enq_next <= s.cur_sent + 3 || s.topped().enq_next == s.enq_next,
        s.topped().cur_sent == s.cur_sent,
        s.topped().pending == s.pending,
        s.topped().reading == s.reading,
        s.topped().sentences().len() == s.sentences().len(),
    decreases s.sentences().len() - s.enq_next,
{
    if s.has_room() {
        let k = s.key_for(s.enq_next as int)->0;
        if s.unspeakable.contains(k) {
            lemma_topped_stays_near(Scene { enq_next: next(s.enq_next), ..s });
        } else if has_key(s.cache, k) {
            lemma_topped_stays_near(s.queued());
        }
    }
}

/// A finished text starts from the beginning next time.
pub proof fn lemma_end_forgets_place(s: Scene, hash: u64)
    requires
        s.engine.position() is None,
        s.was_playing,
        s.pending is None,
        s.cur_sent >= s.last(),
    ensures
        !s.followed(hash).reading,
        s.followed(hash).resume_hash == 0,
        s.followed(hash).resume_idx == 0,
{
}

/// A change of voice or speed forgets every length that was noted, and leaves
/// nothing in the queue.
pub proof fn lemma_refresh_forgets(s: Scene)
    ensures
        forall|k: int|
            0 <= k < s.refreshed().sentences().len() ==> (
            #[trigger] s.refreshed().sentences()[k]).dur is None,
        s.reading ==> s.refreshed().engine.queue.len() == 0,
        s.refreshed().engine.cur == s.engine.cur,
{
}

} // verus!
