//! What the reader does, event by event, in terms of its state alone.

use crate::audio::{lemma_clock_holds, AudioView, Clip, Segment};
use crate::cache::{lemma_put_in_order, lemma_use_in_order, KeyView, ReqView, SpokenView};
use crate::document::{DocView, SentenceView};
use crate::scene::{MediaState, Scene, Status};
use vstd::prelude::*;

verus! {

/// No entry of the cache stands under `k`.
pub open spec fn absent(c: Seq<(KeyView, SpokenView)>, k: KeyView) -> bool {
    forall|j: int| 0 <= j < c.len() ==> (#[trigger] c[j]).0 != k
}

/// No key stands in the cache twice, and it has at most 384 entries.
pub open spec fn sound_cache(c: Seq<(KeyView, SpokenView)>) -> bool {
    &&& c.len() <= 384
    &&& forall|a: int, b: int| 0 <= a < b < c.len() ==> (#[trigger] c[a]).0 != (#[trigger] c[b]).0
}

/// What makes the audio of a sentence: the voice, the speed and the sentence's text.
pub proof fn lemma_key_of_sentence(s: Scene, doc: DocView, sent: int)
    requires
        s.doc == Some(doc),
    ensures
        0 <= sent < doc.sentences.len() ==> s.key_for(sent) == Some(
            KeyView {
                voice: s.voice,
                speed100: s.speed100,
                text: doc.sentences[sent].text,
            },
        ),
        !(0 <= sent < doc.sentences.len()) ==> s.key_for(sent) is None,
{
}

/// The worker is asked for a sentence exactly if there is one, its audio is not there, it was
/// not asked for, and it is not known to have nothing to say; the request is the last one.
pub proof fn lemma_request_is_sent(s: Scene, doc: DocView, sent: int)
    requires
        s.doc == Some(doc),
        sound_cache(s.cache),
        0 <= sent < doc.sentences.len(),
    ensures
        ({
            let k = KeyView {
                voice: s.voice,
                speed100: s.speed100,
                text: doc.sentences[sent].text,
            };
            if absent(s.cache, k) && !s.requested.contains(k) && !s.unspeakable.contains(k) {
                s.asked(sent) == (Scene {
                    requested: s.requested.insert(k),
                    outbox: s.outbox.push(
                        ReqView { epoch: s.worker_epoch, sent: sent as u32, key: k, keep: false },
                    ),
                    ..s
                })
            } else {
                s.asked(sent) == s
            }
        }),
{
    let k = s.key_for(sent)->0;
    lemma_use_in_order(s.cache, k, 0);
    if !absent(s.cache, k) {
        let j = choose|j: int| 0 <= j < s.cache.len() && (#[trigger] s.cache[j]).0 == k;
        lemma_use_in_order(s.cache, k, j);
    }
}

/// Nothing is asked for behind the last sentence.
pub proof fn lemma_no_request_behind_the_end(s: Scene, sent: int)
    requires
        s.doc is None || sent >= s.doc->0.sentences.len(),
    ensures
        s.asked(sent) == s,
{
}

/// Asking for a sentence touches nothing but the requests.
proof fn lemma_asked_touches(s: Scene, sent: int)
    ensures
        s.asked(sent) == (Scene {
            requested: s.asked(sent).requested,
            outbox: s.asked(sent).outbox,
            ..s
        }),
        s.asked(sent).key_for(sent) == s.key_for(sent),
{
}

/// The scene that `played_from` makes of one whose audio is there, before it asks for what
/// comes next.
proof fn lemma_begun(s: Scene, sent: int, word: Option<usize>)
    requires
        s.doc is Some,
        0 <= sent < s.doc->0.sentences.len() <= u32::MAX,
    ensures
        ({
            let m = Scene {
                cur_sent: sent as u32,
                scroll: Some((s.sentences()[sent].first_word as usize, true)),
                ..s.marked(sent as u32)
            };
            let k = m.key_for(sent)->0;
            let t = if crate::cache::has_key(m.cache, k) {
                m.begun(sent, k, word)
            } else {
                m.awaited(sent, word)
            };
            let u = s.played_from(sent, word);
            &&& k == s.key_for(sent)->0
            &&& m.cache == s.cache
            &&& u == (Scene { requested: u.requested, outbox: u.outbox, ..t })
        }),
{
    let m = Scene {
        cur_sent: sent as u32,
        scroll: Some((s.sentences()[sent].first_word as usize, true)),
        ..s.marked(sent as u32)
    };
    let k = m.key_for(sent)->0;
    let t = if crate::cache::has_key(m.cache, k) {
        m.begun(sent, k, word)
    } else {
        m.awaited(sent, word)
    };
    lemma_asked_touches(t, sent + 1);
    lemma_asked_touches(t.asked(sent + 1), sent + 2);
}

/// A sentence whose audio is there plays at once, alone, from a little before the word that
/// was asked for: 480 samples, but not before the audio begins nor within its last 1200
/// samples. A pause that was asked for holds. The sentence is marked and scrolled to, its
/// length is noted, and the one behind it is next for the queue.
pub proof fn lemma_sentence_plays(s: Scene, sent: int, word: Option<usize>, i: int)
    requires
        s.doc is Some,
        0 <= sent < s.doc->0.sentences.len() <= u32::MAX,
        sound_cache(s.cache),
        0 <= i < s.cache.len(),
        s.cache[i].0 == (KeyView {
            voice: s.voice,
            speed100: s.speed100,
            text: s.doc->0.sentences[sent].text,
        }),
    ensures
        ({
            let t = s.played_from(sent, word);
            let v = s.cache[i].1;
            let x: int = if word is Some && word->0 < v.starts.len() {
                v.starts[word->0 as int] as int
            } else {
                0
            };
            let before: int = if x >= 480 {
                x - 480
            } else {
                0
            };
            let last: int = if v.clip.samples >= 1200 {
                v.clip.samples - 1200
            } else {
                0
            };
            let at = (if before <= last {
                before
            } else {
                last
            }) as u32;
            let info = s.doc->0.sentences[sent];
            &&& t.engine.cur == Some(Segment { sentence: sent as u32, offset: at, clip: v.clip })
            &&& t.engine.queue.len() == 0
            &&& t.engine.paused == s.want_pause
            &&& t.engine.epoch == s.engine.epoch.wrapping_add(1)
            &&& t.epoch == t.engine.epoch
            &&& t.engine.position() == Some((sent as u32, at))
            &&& t.pending is None
            &&& t.was_playing
            &&& t.playing == !s.want_pause
            &&& t.want_pause == s.want_pause
            &&& t.reading == s.reading
            &&& t.status == Status::Quiet
            &&& t.media == (if !s.reading {
                MediaState::Stopped
            } else if s.want_pause {
                MediaState::Paused
            } else {
                MediaState::Playing
            })
            &&& t.cur_sent == sent
            &&& t.current_sent == Some(sent as u32)
            &&& t.current_word == (if s.current_sent == Some(sent as u32) {
                s.current_word
            } else {
                None
            })
            &&& t.scroll == Some((info.first_word as usize, true))
            &&& t.enq_next == sent + 1
            &&& t.live == Map::<u32, Clip>::empty().insert(sent as u32, v.clip)
            &&& t.cache == s.cache.remove(i).push(s.cache[i])
            &&& t.doc == Some(
                DocView {
                    sentences: s.doc->0.sentences.update(
                        sent,
                        SentenceView { dur: Some(v.clip.samples), ..info },
                    ),
                    ..s.doc->0
                },
            )
            &&& t.voice == s.voice && t.speed100 == s.speed100
            &&& t.worker_epoch == s.worker_epoch
            &&& t.unspeakable == s.unspeakable
            &&& t.resume_hash == s.resume_hash && t.resume_idx == s.resume_idx
            &&& t.save == s.save
        }),
{
    lemma_begun(s, sent, word);
    lemma_use_in_order(s.cache, s.cache[i].0, i);
    let t = s.played_from(sent, word);
    let seg = t.engine.cur->0;
    lemma_clock_holds(seg.sentence, seg.offset);
}

/// A sentence whose audio is not there is waited for in silence, with the word to start
/// from; it is marked and scrolled to, and asked for before anything else.
pub proof fn lemma_sentence_is_awaited(s: Scene, sent: int, word: Option<usize>)
    requires
        s.doc is Some,
        0 <= sent < s.doc->0.sentences.len() <= u32::MAX,
        sound_cache(s.cache),
        absent(
            s.cache,
            KeyView {
                voice: s.voice,
                speed100: s.speed100,
                text: s.doc->0.sentences[sent].text,
            },
        ),
    ensures
        ({
            let t = s.played_from(sent, word);
            let info = s.doc->0.sentences[sent];
            &&& t.pending == Some((sent as u32, word))
            &&& t.engine.cur is None
            &&& t.engine.queue.len() == 0
            &&& t.engine.position() is None
            &&& !t.engine.paused
            &&& t.engine.epoch == s.engine.epoch.wrapping_add(1)
            &&& t.epoch == t.engine.epoch
            &&& t.playing == !s.want_pause
            &&& t.want_pause == s.want_pause
            &&& t.cur_sent == sent
            &&& t.current_sent == Some(sent as u32)
            &&& t.scroll == Some((info.first_word as usize, true))
            &&& t.doc == s.doc
            &&& t.cache == s.cache
            &&& t.reading == s.reading
            &&& t.status == s.status
            &&& t.worker_epoch == s.worker_epoch
            &&& t.voice == s.voice && t.speed100 == s.speed100
            &&& t.resume_hash == s.resume_hash && t.resume_idx == s.resume_idx
        }),
{
    lemma_begun(s, sent, word);
    lemma_use_in_order(s.cache, s.key_for(sent)->0, 0);
}

/// The state of a reader that has asked for sentences from `lo` to `hi` only: each new
/// request is for one whose audio is missing, was not asked for and may exist, and a key is
/// asked for exactly if it was before or a new request is for it.
pub open spec fn only_asked(s: Scene, t: Scene, lo: int, hi: int) -> bool {
    &&& s.outbox.len() <= t.outbox.len()
    &&& t.outbox.take(s.outbox.len() as int) == s.outbox
    &&& forall|q: int|
        s.outbox.len() <= q < t.outbox.len() ==> {
            let r = #[trigger] t.outbox[q];
            &&& lo <= r.sent <= hi && r.sent < s.doc->0.sentences.len()
            &&& r.key == (KeyView {
                voice: s.voice,
                speed100: s.speed100,
                text: s.doc->0.sentences[r.sent as int].text,
            })
            &&& r.epoch == s.worker_epoch && !r.keep
            &&& absent(s.cache, r.key)
            &&& !s.requested.contains(r.key)
            &&& !s.unspeakable.contains(r.key)
        }
    &&& forall|k: KeyView| #[trigger]
        t.requested.contains(k) <==> s.requested.contains(k) || exists|q: int|
            s.outbox.len() <= q < t.outbox.len() && (#[trigger] t.outbox[q]).key == k
}

/// Two states in which the same audio is there and the same would be asked for.
spec fn agree(s: Scene, t: Scene) -> bool {
    &&& s.doc is Some && t.doc is Some
    &&& t.doc->0.sentences.len() == s.doc->0.sentences.len()
    &&& forall|i: int|
        0 <= i < s.doc->0.sentences.len() ==> (#[trigger] t.doc->0.sentences[i]).text
            == s.doc->0.sentences[i].text
    &&& t.voice == s.voice && t.speed100 == s.speed100
    &&& t.worker_epoch == s.worker_epoch
    &&& t.unspeakable == s.unspeakable
    &&& sound_cache(t.cache)
    &&& forall|k: KeyView| #[trigger] absent(t.cache, k) <==> absent(s.cache, k)
}

proof fn lemma_asked_grows(s: Scene, t: Scene, lo: int, hi: int, x: int)
    requires
        agree(s, t),
        only_asked(s, t, lo, hi),
        0 <= lo <= x <= hi,
        s.doc->0.sentences.len() <= u32::MAX,
    ensures
        agree(s, t.asked(x)),
        only_asked(s, t.asked(x), lo, hi),
        x < s.doc->0.sentences.len() ==> {
            let k = KeyView {
                voice: s.voice,
                speed100: s.speed100,
                text: s.doc->0.sentences[x].text,
            };
            t.asked(x).requested.contains(k) || !absent(s.cache, k) || s.unspeakable.contains(k)
        },
        forall|k: KeyView| t.requested.contains(k) ==> #[trigger] t.asked(x).requested.contains(k),
{
    let n = s.outbox.len() as int;
    if x < s.doc->0.sentences.len() {
        let d = t.doc->0;
        lemma_request_is_sent(t, d, x);
        let k = KeyView { voice: s.voice, speed100: s.speed100, text: d.sentences[x].text };
        assert(d.sentences[x].text == s.doc->0.sentences[x].text);
        let u = t.asked(x);
        if u.outbox.len() > t.outbox.len() {
            assert(u.outbox.take(n) =~= t.outbox.take(n));
            assert forall|q: int| n <= q < u.outbox.len() implies {
                let r = #[trigger] u.outbox[q];
                &&& lo <= r.sent <= hi && r.sent < s.doc->0.sentences.len()
                &&& r.key == (KeyView {
                    voice: s.voice,
                    speed100: s.speed100,
                    text: s.doc->0.sentences[r.sent as int].text,
                })
                &&& r.epoch == s.worker_epoch && !r.keep
                &&& absent(s.cache, r.key)
                &&& !s.requested.contains(r.key)
                &&& !s.unspeakable.contains(r.key)
            } by {
                if q < t.outbox.len() {
                    assert(u.outbox[q] == t.outbox[q]);
                } else {
                    assert(!t.requested.contains(k));
                }
            }
            assert forall|j: KeyView| #[trigger]
                u.requested.contains(j) <==> s.requested.contains(j) || exists|q: int|
                    n <= q < u.outbox.len() && (#[trigger] u.outbox[q]).key == j by {
                if t.requested.contains(j) && !s.requested.contains(j) {
                    let q = choose|q: int|
                        n <= q < t.outbox.len() && (#[trigger] t.outbox[q]).key == j;
                    assert(u.outbox[q].key == j);
                }
                if j == k {
                    assert(u.outbox[t.outbox.len() as int].key == j);
                }
                if exists|q: int| n <= q < u.outbox.len() && (#[trigger] u.outbox[q]).key == j {
                    let q = choose|q: int|
                        n <= q < u.outbox.len() && (#[trigger] u.outbox[q]).key == j;
                    if q < t.outbox.len() {
                        assert(t.outbox[q].key == j);
                    }
                }
            }
        }
    } else {
        lemma_no_request_behind_the_end(t, x);
    }
}

/// Whatever plays or is waited for, it and the two sentences behind it are asked for, unless
/// their audio is there or they are known to have nothing to say; and nothing else is asked
/// for, nor anything twice.
pub proof fn lemma_two_ahead_are_asked_for(s: Scene, sent: int, word: Option<usize>, x: int)
    requires
        s.doc is Some,
        0 <= sent < s.doc->0.sentences.len() <= u32::MAX,
        sound_cache(s.cache),
        sent <= x <= sent + 2,
        x < s.doc->0.sentences.len(),
    ensures
        only_asked(s, s.played_from(sent, word), sent, sent + 2),
        ({
            let k = KeyView {
                voice: s.voice,
                speed100: s.speed100,
                text: s.doc->0.sentences[x].text,
            };
            s.played_from(sent, word).requested.contains(k) || !absent(s.cache, k)
                || s.unspeakable.contains(k)
        }),
{
    let m = Scene {
        cur_sent: sent as u32,
        scroll: Some((s.sentences()[sent].first_word as usize, true)),
        ..s.marked(sent as u32)
    };
    let k0 = m.key_for(sent)->0;
    assert(k0 == s.key_for(sent)->0);
    lemma_known(s.cache, k0);
    assert(m.outbox.take(m.outbox.len() as int) =~= m.outbox);
    if crate::cache::has_key(m.cache, k0) {
        let i = choose|i: int| crate::cache::has_at(m.cache, k0, i);
        assert(crate::cache::has_at(m.cache, k0, i));
        lemma_use_in_order(s.cache, k0, i);
        lemma_moved_to_end(s.cache, i);
        let t = m.begun(sent, k0, word);
        assert(agree(s, t));
        assert(only_asked(s, t, sent, sent + 2));
        lemma_asked_grows(s, t, sent, sent + 2, sent + 1);
        lemma_asked_grows(s, t.asked(sent + 1), sent, sent + 2, sent + 2);
        assert(!absent(s.cache, k0));
    } else {
        let e = m.engine.stopped();
        let w = Scene { engine: e, epoch: e.epoch, pending: Some((sent as u32, word)), ..m };
        assert(agree(s, w));
        assert(only_asked(s, w, sent, sent + 2));
        lemma_asked_grows(s, w, sent, sent + 2, sent);
        let a = w.asked(sent);
        let t = Scene { playing: !m.want_pause, ..a };
        assert(agree(s, t));
        assert(only_asked(s, t, sent, sent + 2));
        lemma_asked_grows(s, t, sent, sent + 2, sent + 1);
        lemma_asked_grows(s, t.asked(sent + 1), sent, sent + 2, sent + 2);
    }
}

proof fn lemma_known(c: Seq<(KeyView, SpokenView)>, k: KeyView)
    requires
        sound_cache(c),
    ensures
        crate::cache::has_key(c, k) <==> !absent(c, k),
{
    lemma_use_in_order(c, k, 0);
    if !absent(c, k) {
        let j = choose|j: int| 0 <= j < c.len() && (#[trigger] c[j]).0 == k;
        lemma_use_in_order(c, k, j);
    }
}

/// Moving an entry to the end keeps the cache sound, and what it holds.
proof fn lemma_moved_to_end(c: Seq<(KeyView, SpokenView)>, i: int)
    requires
        sound_cache(c),
        0 <= i < c.len(),
    ensures
        sound_cache(c.remove(i).push(c[i])),
        forall|k: KeyView| #[trigger] absent(c.remove(i).push(c[i]), k) <==> absent(c, k),
{
    let u = c.remove(i).push(c[i]);
    let place = |q: int|
        if q == c.len() - 1 {
            i
        } else if q < i {
            q
        } else {
            q + 1
        };
    assert forall|q: int| 0 <= q < u.len() implies #[trigger] u[q] == c[place(q)] by {}
    assert forall|a: int, b: int| 0 <= a < b < u.len() implies (#[trigger] u[a]).0 != (
    #[trigger] u[b]).0 by {
        let (x, y) = (place(a), place(b));
        if x < y {
            assert(c[x].0 != c[y].0);
        } else {
            assert(c[y].0 != c[x].0);
        }
    }
    assert forall|k: KeyView| #[trigger] absent(u, k) <==> absent(c, k) by {
        if absent(u, k) {
            assert forall|j: int| 0 <= j < c.len() implies (#[trigger] c[j]).0 != k by {
                let q = if j == i {
                    c.len() - 1
                } else if j < i {
                    j
                } else {
                    j - 1
                };
                assert(u[q] == c[j]);
            }
        }
        if absent(c, k) {
            assert forall|q: int| 0 <= q < u.len() implies (#[trigger] u[q]).0 != k by {
                assert(u[q] == c[place(q)]);
            }
        }
    }
}

/// Reading a document begins where that text was left off, as far as it still has that
/// sentence, and any other text at its first sentence. It begins unpaused, and what was
/// asked of the worker before is not wanted any more.
pub proof fn lemma_reading_begins(s: Scene, doc: DocView, hash: u64)
    requires
        0 < doc.sentences.len() <= u32::MAX,
    ensures
        ({
            let t = s.opened(doc, hash);
            let at: int = if hash != s.resume_hash {
                0
            } else if s.resume_idx < doc.sentences.len() {
                s.resume_idx as int
            } else {
                doc.sentences.len() - 1
            };
            &&& t.reading
            &&& t.cur_sent == at
            &&& t.current_sent == Some(at as u32)
            &&& t.current_word is None
            &&& t.scroll == Some((doc.sentences[at].first_word as usize, true))
            &&& t.playing
            &&& !t.want_pause
            &&& !t.engine.paused
            &&& t.engine.queue.len() == 0
            &&& t.status == Status::Quiet
            &&& t.worker_epoch == s.worker_epoch.wrapping_add(1)
            &&& t.pending == Some((at as u32, None::<usize>)) || (t.pending is None && t.engine.cur is Some
                && t.engine.cur->0.sentence == at && t.engine.cur->0.offset == 0)
            &&& t.voice == s.voice && t.speed100 == s.speed100
            &&& t.resume_hash == s.resume_hash && t.resume_idx == s.resume_idx
        }),
{
    let b = Scene {
        doc: Some(doc),
        reading: true,
        status: Status::Quiet,
        current_sent: None,
        current_word: None,
        want_pause: false,
        ..s.bumped()
    };
    lemma_begun(b, b.start(hash), None);
}

/// Back to editing: silence; nothing plays, is waited for, marked or wanted of the worker;
/// the text, the voice, the audio that is there and the place to resume at stay.
pub proof fn lemma_reading_ends(s: Scene)
    ensures
        ({
            let t = s.edited();
            &&& !t.reading && !t.playing && !t.was_playing
            &&& t.pending is None && t.current_sent is None && t.current_word is None
            &&& t.engine.cur is None && t.engine.queue.len() == 0 && !t.engine.paused
            &&& t.engine.position() is None
            &&& t.engine.epoch == s.engine.epoch.wrapping_add(1)
            &&& t.live == Map::<u32, Clip>::empty()
            &&& t.requested == Set::<KeyView>::empty()
            &&& t.worker_epoch == s.worker_epoch.wrapping_add(1)
            &&& t.media == MediaState::Stopped
            &&& t.doc == s.doc && t.cache == s.cache && t.unspeakable == s.unspeakable
            &&& t.voice == s.voice && t.speed100 == s.speed100
            &&& t.resume_hash == s.resume_hash && t.resume_idx == s.resume_idx
            &&& t.status == s.status && t.cur_sent == s.cur_sent && t.outbox == s.outbox
        }),
{
}

/// Playing on behind the last sentence ends reading; without a document there is nothing to
/// play.
pub proof fn lemma_end_of_text_ends_reading(s: Scene, sent: int, word: Option<usize>)
    ensures
        s.doc is Some && sent >= s.doc->0.sentences.len() ==> s.played_from(sent, word)
            == s.edited(),
        s.doc is None ==> s.played_from(sent, word) == s,
{
}

/// Forward goes to the next sentence, and at the last one starts it again. Back goes to the
/// start of the sentence if more than 48000 samples of it were heard or it is the first, and
/// else to the one before. Either way reading goes on unpaused.
pub proof fn lemma_where_navigation_goes(s: Scene, forward: bool)
    requires
        s.doc is Some,
        0 < s.doc->0.sentences.len() <= u32::MAX,
        s.cur_sent < s.doc->0.sentences.len(),
    ensures
        ({
            let n = s.doc->0.sentences.len();
            let heard: int = match s.engine.position() {
                Some((_, sample)) => sample as int,
                None => 0,
            };
            let to: int = if forward {
                if s.cur_sent + 1 < n {
                    s.cur_sent + 1
                } else {
                    s.cur_sent as int
                }
            } else if heard > 48000 || s.cur_sent == 0 {
                s.cur_sent as int
            } else {
                s.cur_sent - 1
            };
            let t = s.navigated(forward);
            &&& s.reading ==> {
                &&& t == (Scene { want_pause: false, ..s }).played_from(to, None)
                &&& t.cur_sent == to
                &&& t.current_sent == Some(to as u32)
                &&& !t.want_pause && t.playing && !t.engine.paused
                &&& t.scroll == Some((s.doc->0.sentences[to].first_word as usize, true))
                &&& t.pending == Some((to as u32, None::<usize>)) || (t.pending is None && t.engine.cur
                    is Some && t.engine.cur->0.sentence == to && t.engine.cur->0.offset == 0)
            }
            &&& !s.reading ==> t == s
        }),
{
    let free = Scene { want_pause: false, ..s };
    lemma_begun(free, s.target(forward), None);
}

/// A click on a word reads on from that word: its sentence plays from there or is waited for
/// with it. A click on no word does nothing.
pub proof fn lemma_click_reads_from_the_word(s: Scene, word: int)
    requires
        s.doc is Some,
        s.doc->0.sentences.len() <= u32::MAX,
    ensures
        !(0 <= word < s.doc->0.word_of.len()) ==> s.clicked(word) == s,
        0 <= word < s.doc->0.word_of.len() && 0 <= s.doc->0.word_of[word].0
            < s.doc->0.sentences.len() ==> {
            let (sent, k) = s.doc->0.word_of[word];
            let t = s.clicked(word);
            &&& t == (Scene { want_pause: false, ..s }).played_from(sent, Some(k as usize))
            &&& t.cur_sent == sent && t.current_sent == Some(sent as u32)
            &&& !t.want_pause && t.playing && !t.engine.paused
            &&& t.pending == Some((sent as u32, Some(k as usize))) || (t.pending is None
                && t.engine.cur is Some && t.engine.cur->0.sentence == sent)
        },
{
    if 0 <= word < s.doc->0.word_of.len() && 0 <= s.doc->0.word_of[word].0
        < s.doc->0.sentences.len() {
        let (sent, k) = s.doc->0.word_of[word];
        lemma_begun(Scene { want_pause: false, ..s }, sent, Some(k as usize));
    }
}

/// Playing and pausing: while reading, and while something plays or is waited for, the
/// engine, the buttons and the media controls follow; else nothing happens.
pub proof fn lemma_play_and_pause(s: Scene, playing: bool)
    ensures
        s.reading && (s.engine.position() is Some || s.pending is Some) ==> s.set_playing(playing)
            == (Scene {
            want_pause: !playing,
            playing,
            media: if playing {
                MediaState::Playing
            } else {
                MediaState::Paused
            },
            engine: AudioView { paused: !playing, ..s.engine },
            ..s
        }),
        !s.reading || (s.engine.position() is None && s.pending is None) ==> s.set_playing(playing)
            == s,
{
}

/// Toggling: what plays is paused and what is paused plays on; where nothing plays nor is
/// waited for, the current sentence is read again.
pub proof fn lemma_toggle(s: Scene)
    ensures
        s.engine.position() is Some || s.pending is Some ==> s.toggled() == s.set_playing(
            s.engine.paused,
        ),
        s.engine.position() is None && s.pending is None ==> s.toggled() == (Scene {
            want_pause: false,
            ..s
        }).played_from(s.cur_sent as int, None),
{
}

/// The reader follows the voice. Another sentence that sounds is the current one and is
/// marked, the audio of those before it is let go, and its place is to be saved unless it is
/// the first; the sentence that is known to sound changes nothing.
pub proof fn lemma_reader_follows(s: Scene, hash: u64, sent: u32, sample: u32)
    requires
        s.engine.position() == Some((sent, sample)),
    ensures
        ({
            let t = s.followed(hash);
            &&& t.was_playing
            &&& t.cur_sent == sent
            &&& t.engine == s.engine && t.doc == s.doc && t.cache == s.cache
            &&& t.pending == s.pending && t.reading == s.reading && t.enq_next == s.enq_next
            &&& sent == s.cur_sent ==> t == (Scene { was_playing: true, ..s })
            &&& sent != s.cur_sent ==> {
                &&& t.current_sent == Some(sent)
                &&& s.current_sent != Some(sent) ==> t.current_word is None
                &&& s.current_sent == Some(sent) ==> t.current_word == s.current_word
                &&& forall|i: u32| #[trigger]
                    t.live.contains_key(i) <==> i >= sent && s.live.contains_key(i)
                &&& forall|i: u32| #[trigger]
                    t.live.contains_key(i) ==> t.live[i] == s.live[i]
                &&& sent > 0 ==> t.resume_hash == hash && t.resume_idx == sent && t.save
                &&& sent == 0 ==> t.resume_hash == s.resume_hash && t.resume_idx == s.resume_idx
                    && t.save == s.save
            }
        }),
{
}

/// When playback has run dry: behind the last sentence reading is over and the text starts
/// afresh next time; before that the next sentence is waited for. Where nothing had played,
/// or a sentence is waited for, nothing happens.
pub proof fn lemma_playback_ran_dry(s: Scene, hash: u64)
    requires
        s.engine.position() is None,
        s.doc is Some,
        0 < s.doc->0.sentences.len(),
        s.cur_sent < u32::MAX,
    ensures
        ({
            let t = s.followed(hash);
            let last = s.doc->0.sentences.len() - 1;
            &&& s.was_playing && s.pending is None && s.cur_sent >= last ==> t == (Scene {
                resume_hash: 0,
                resume_idx: 0,
                ..s
            }).edited()
            &&& s.was_playing && s.pending is None && s.cur_sent < last ==> t == (Scene {
                pending: Some(((s.cur_sent + 1) as u32, None)),
                was_playing: false,
                ..s
            })
            &&& !s.was_playing || s.pending is Some ==> t == s
        }),
{
}

/// What is waited for: once its audio is there it is played from the word that was asked
/// for; if it turns out to have nothing to say, reading goes on with the next sentence;
/// until then nothing happens.
pub proof fn lemma_wait_ends(s: Scene, sent: u32, word: Option<usize>)
    requires
        s.pending == Some((sent, word)),
        s.doc is Some,
        sent < s.doc->0.sentences.len(),
        sound_cache(s.cache),
    ensures
        ({
            let k = KeyView {
                voice: s.voice,
                speed100: s.speed100,
                text: s.doc->0.sentences[sent as int].text,
            };
            let t = s.pending_started();
            let free = Scene { pending: None, ..s };
            &&& s.unspeakable.contains(k) ==> t == free.played_from(sent + 1, None)
            &&& !s.unspeakable.contains(k) && !absent(s.cache, k) ==> t == free.played_from(
                sent as int,
                word,
            )
            &&& !s.unspeakable.contains(k) && absent(s.cache, k) ==> t == s
        }),
{
    let k = s.key_for(sent as int)->0;
    lemma_known(s.cache, k);
}

/// A step of reading: first what is waited for, next the queue, last the place that is heard;
/// and nothing while editing.
pub proof fn lemma_step_of_reading(s: Scene, hash: u64)
    ensures
        !s.reading ==> s.stepped(hash) == s,
        s.reading && s.pending is None ==> s.stepped(hash) == s.topped().followed(hash),
        s.reading && s.pending is Some && s.pending_started().pending is Some ==> s.stepped(hash)
            == s.pending_started().followed(hash),
        s.reading && s.pending_started().pending is None ==> s.stepped(hash)
            == s.pending_started().topped().followed(hash),
{
}

/// Audio has come: it is there under its key, used last, and is not on its way any more. Its
/// length is noted in the sentence it was made for, if that sentence would still ask for it.
pub proof fn lemma_audio_has_come(s: Scene, sent: int, k: KeyView, v: SpokenView, i: int)
    requires
        s.doc is Some,
        sound_cache(s.cache),
    ensures
        ({
            let t = s.received(sent, k, v);
            let d = s.doc->0;
            let own = 0 <= sent < d.sentences.len() && k == (KeyView {
                voice: s.voice,
                speed100: s.speed100,
                text: d.sentences[sent].text,
            });
            &&& t.requested == s.requested.remove(k)
            &&& 0 <= i < s.cache.len() && s.cache[i].0 == k ==> t.cache == s.cache.remove(i).push(
                (k, v),
            )
            &&& absent(s.cache, k) ==> t.cache == (if s.cache.len() < 384 {
                s.cache
            } else {
                s.cache.drop_first()
            }).push((k, v))
            &&& own ==> t.doc == Some(
                DocView {
                    sentences: d.sentences.update(
                        sent,
                        SentenceView { dur: Some(v.clip.samples), ..d.sentences[sent] },
                    ),
                    ..d
                },
            )
            &&& !own ==> t.doc == s.doc
            &&& t == (Scene { requested: t.requested, cache: t.cache, doc: t.doc, ..s })
        }),
{
    lemma_put_in_order(s.cache, k, v, i);
}

/// A sentence that has nothing to say is never asked for again.
pub proof fn lemma_silence_is_remembered(s: Scene, k: KeyView)
    ensures
        s.silenced(k) == (Scene {
            requested: s.requested.remove(k),
            unspeakable: s.unspeakable.insert(k),
            ..s
        }),
{
}

/// A sentence that could not be made ends reading with a message if it is waited for, and
/// else can be asked for again.
pub proof fn lemma_failure(s: Scene, sent: u32, k: KeyView)
    ensures
        ({
            let free = Scene { requested: s.requested.remove(k), ..s };
            let waited = s.reading && s.pending is Some && (s.pending->0).0 == sent;
            &&& waited ==> s.failed(sent, k) == (Scene { status: Status::Failed, ..free }).edited()
            &&& !waited ==> s.failed(sent, k) == free
        }),
{
}

/// Another voice or speed: all lengths are forgotten. While reading, what sounds goes on,
/// what is queued is dropped, what was asked for is not wanted any more, and the sentence
/// waited for and the one behind it, or the one behind the current sentence, are asked for
/// anew.
pub proof fn lemma_voice_change(s: Scene)
    requires
        s.doc is Some,
        s.doc->0.sentences.len() < u32::MAX,
    ensures
        ({
            let t = s.refreshed();
            let d = s.doc->0;
            &&& t.doc is Some && t.doc->0.raw == d.raw && t.doc->0.word_of == d.word_of
                && t.doc->0.word_range == d.word_range
            &&& t.doc->0.sentences.len() == d.sentences.len()
            &&& forall|k: int|
                0 <= k < d.sentences.len() ==> (#[trigger] t.doc->0.sentences[k]) == (
                SentenceView { dur: None, ..d.sentences[k] })
            &&& !s.reading ==> t == (Scene { doc: t.doc, ..s })
            &&& s.reading ==> {
                &&& t.worker_epoch == s.worker_epoch.wrapping_add(1)
                &&& t.engine == (AudioView { queue: Seq::empty(), ..s.engine })
                &&& t.epoch == s.engine.epoch
                &&& t.pending == s.pending && t.cur_sent == s.cur_sent && t.reading
                &&& s.pending is Some && (s.pending->0).0 < u32::MAX ==> t.enq_next == (
                s.pending->0).0 + 1
                &&& s.pending is None && s.cur_sent < u32::MAX ==> t.enq_next == s.cur_sent + 1
                &&& forall|i: u32| #[trigger]
                    t.live.contains_key(i) <==> i == s.cur_sent && s.live.contains_key(i)
                &&& t.cache == s.cache && t.unspeakable == s.unspeakable
            }
        }),
{
}

/// What was asked for when the voice or the speed has changed, nothing being waited for: the
/// sentence behind the current one, if its audio is missing.
pub proof fn lemma_voice_change_asks(s: Scene)
    requires
        s.doc is Some,
        s.reading,
        s.pending is None,
        s.cur_sent + 1 < s.doc->0.sentences.len() <= u32::MAX,
        sound_cache(s.cache),
    ensures
        ({
            let k = KeyView {
                voice: s.voice,
                speed100: s.speed100,
                text: s.doc->0.sentences[s.cur_sent + 1].text,
            };
            let t = s.refreshed();
            if absent(s.cache, k) && !s.unspeakable.contains(k) {
                &&& t.requested == Set::<KeyView>::empty().insert(k)
                &&& t.outbox == s.outbox.push(
                    ReqView {
                        epoch: s.worker_epoch.wrapping_add(1),
                        sent: (s.cur_sent + 1) as u32,
                        key: k,
                        keep: false,
                    },
                )
            } else {
                t.requested == Set::<KeyView>::empty() && t.outbox == s.outbox
            }
        }),
{
    let k = KeyView {
        voice: s.voice,
        speed100: s.speed100,
        text: s.doc->0.sentences[s.cur_sent + 1].text,
    };
    lemma_known(s.cache, k);
}

/// What makes the audio of sentence `q`.
pub open spec fn sentence_key(s: Scene, q: int) -> KeyView {
    KeyView { voice: s.voice, speed100: s.speed100, text: s.doc->0.sentences[q].text }
}

/// The audio of sentence `q`, from its start.
pub open spec fn is_sentence(s: Scene, seg: Segment) -> bool {
    &&& seg.offset == 0
    &&& seg.sentence < s.doc->0.sentences.len()
    &&& exists|v: SpokenView| #[trigger]
        s.cache.contains((sentence_key(s, seg.sentence as int), v)) && v.clip == seg.clip
}

/// What the queue of `t` holds beyond that of `s`: the audio of the sentences from the next
/// one on, in order, without those that have nothing to say.
pub open spec fn queued_on(s: Scene, t: Scene) -> bool {
    let n = s.engine.queue.len() as int;
    let queue = t.engine.queue;
    &&& n <= queue.len()
    &&& queue.take(n) == s.engine.queue
    &&& s.enq_next <= t.enq_next
    &&& forall|j: int|
        n <= j < queue.len() ==> is_sentence(s, #[trigger] queue[j]) && s.enq_next
            <= queue[j].sentence < t.enq_next
    &&& forall|i: int, j: int|
        n <= i < j < queue.len() ==> (#[trigger] queue[i]).sentence < (
        #[trigger] queue[j]).sentence
    &&& s.enq_next < t.enq_next ==> t.enq_next <= s.doc->0.sentences.len() && t.enq_next
        <= s.cur_sent + 3
    &&& forall|q: int|
        s.enq_next <= q < t.enq_next ==> #[trigger] s.unspeakable.contains(sentence_key(s, q))
            || exists|j: int| n <= j < queue.len() && (#[trigger] queue[j]).sentence == q
}

proof fn lemma_contains_moved(c: Seq<(KeyView, SpokenView)>, i: int, e: (KeyView, SpokenView))
    requires
        0 <= i < c.len(),
    ensures
        c.remove(i).push(c[i]).contains(e) <==> c.contains(e),
{
    let u = c.remove(i).push(c[i]);
    if c.contains(e) {
        let j = choose|j: int| 0 <= j < c.len() && c[j] == e;
        let q = if j == i {
            c.len() - 1
        } else if j < i {
            j
        } else {
            j - 1
        };
        assert(u[q] == e);
    }
    if u.contains(e) {
        let q = choose|q: int| 0 <= q < u.len() && u[q] == e;
        let j = if q == c.len() - 1 {
            i
        } else if q < i {
            q
        } else {
            q + 1
        };
        assert(c[j] == e);
    }
}

proof fn lemma_queue_step(s: Scene, a: Scene, t: Scene, seg: Option<Segment>)
    requires
        s.doc is Some && a.doc is Some,
        s.enq_next < s.doc->0.sentences.len(),
        s.enq_next <= s.cur_sent + 2,
        a.doc->0.sentences.len() == s.doc->0.sentences.len(),
        forall|q: int|
            0 <= q < s.doc->0.sentences.len() ==> #[trigger] sentence_key(a, q) == sentence_key(
                s,
                q,
            ),
        forall|e: (KeyView, SpokenView)| #[trigger] a.cache.contains(e) <==> s.cache.contains(e),
        a.unspeakable == s.unspeakable,
        a.cur_sent == s.cur_sent,
        a.enq_next == s.enq_next + 1,
        match seg {
            Some(x) => a.engine.queue == s.engine.queue.push(x) && x.sentence == s.enq_next
                && is_sentence(s, x),
            None => a.engine.queue == s.engine.queue && s.unspeakable.contains(
                sentence_key(s, s.enq_next as int),
            ),
        },
        queued_on(a, t),
    ensures
        queued_on(s, t),
{
    let n = s.engine.queue.len() as int;
    let m = a.engine.queue.len() as int;
    let queue = t.engine.queue;
    assert(queue.take(n) =~= queue.take(m).take(n));
    assert(a.engine.queue.take(n) =~= s.engine.queue);
    if seg is Some {
        assert(queue[n] == queue.take(m)[n]);
    }
    assert forall|j: int| n <= j < queue.len() implies is_sentence(s, #[trigger] queue[j])
        && s.enq_next <= queue[j].sentence < t.enq_next by {
        if j >= m {
            let x = queue[j];
            assert(is_sentence(a, x));
            let v = choose|v: SpokenView| #[trigger]
                a.cache.contains((sentence_key(a, x.sentence as int), v)) && v.clip == x.clip;
            assert(a.cache.contains((sentence_key(a, x.sentence as int), v)));
            assert(sentence_key(a, x.sentence as int) == sentence_key(s, x.sentence as int));
            assert(s.cache.contains((sentence_key(s, x.sentence as int), v)));
        }
    }
    assert forall|i: int, j: int| n <= i < j < queue.len() implies (#[trigger] queue[i]).sentence
        < (#[trigger] queue[j]).sentence by {}
    assert(n <= queue.len());
    assert(queue.take(n) == s.engine.queue);
    assert(s.enq_next <= t.enq_next);
    assert forall|q: int| s.enq_next <= q < t.enq_next implies #[trigger] s.unspeakable.contains(
        sentence_key(s, q),
    ) || exists|j: int| n <= j < queue.len() && (#[trigger] queue[j]).sentence == q by {
        if q == s.enq_next {
            if seg is Some {
                assert(queue[n].sentence == q);
            }
        } else {
            assert(a.unspeakable.contains(sentence_key(a, q)) || exists|j: int|
                m <= j < queue.len() && (#[trigger] queue[j]).sentence == q);
            assert(sentence_key(a, q) == sentence_key(s, q));
            if !s.unspeakable.contains(sentence_key(s, q)) {
                let j = choose|j: int|
                    m <= j < queue.len() && (#[trigger] queue[j]).sentence == q;
                assert(queue[j].sentence == q);
            }
        }
    }
}

/// The queue is kept two sentences ahead of the one that sounds: the next sentences join it
/// in order as far as their audio is there, those that have nothing to say are passed over,
/// and it stops at the end of the text or at the first whose audio is missing, which is asked
/// for. What sounds goes on.
pub proof fn lemma_queue_is_kept_ahead(s: Scene)
    requires
        s.doc is Some,
        s.doc->0.sentences.len() < u32::MAX,
        sound_cache(s.cache),
        s.engine.epoch == s.epoch,
    ensures
        ({
            let t = s.topped();
            &&& queued_on(s, t)
            &&& t.engine == (AudioView { queue: t.engine.queue, ..s.engine })
            &&& t.cur_sent == s.cur_sent && t.pending == s.pending && t.reading == s.reading
            &&& t.enq_next > s.cur_sent + 2 || t.enq_next >= s.doc->0.sentences.len() || {
                let k = sentence_key(s, t.enq_next as int);
                absent(s.cache, k) && !s.unspeakable.contains(k) && t.requested.contains(k)
            }
        }),
    decreases s.doc->0.sentences.len() - s.enq_next,
{
    let t = s.topped();
    let n = s.engine.queue.len() as int;
    assert(s.engine.queue.take(n) =~= s.engine.queue);
    if s.has_room() {
        let q = s.enq_next as int;
        let k = s.key_for(q)->0;
        assert(k == sentence_key(s, q));
        lemma_known(s.cache, k);
        if s.unspeakable.contains(k) {
            let a = Scene { enq_next: crate::scene::next(s.enq_next), ..s };
            lemma_queue_is_kept_ahead(a);
            assert forall|x: int| 0 <= x < s.doc->0.sentences.len() implies #[trigger] sentence_key(
                a,
                x,
            ) == sentence_key(s, x) by {}
            lemma_queue_step(s, a, t, None);
            if t.enq_next < s.doc->0.sentences.len() {
                assert(sentence_key(a, t.enq_next as int) == sentence_key(s, t.enq_next as int));
            }
        } else if crate::cache::has_key(s.cache, k) {
            let i = choose|i: int| crate::cache::has_at(s.cache, k, i);
            assert(crate::cache::has_at(s.cache, k, i));
            lemma_use_in_order(s.cache, k, i);
            lemma_moved_to_end(s.cache, i);
            let a = s.queued();
            assert(a.cache == s.cache.remove(i).push(s.cache[i]));
            lemma_queue_is_kept_ahead(a);
            assert forall|x: int| 0 <= x < s.doc->0.sentences.len() implies #[trigger] sentence_key(
                a,
                x,
            ) == sentence_key(s, x) by {}
            assert forall|e: (KeyView, SpokenView)| #[trigger]
                a.cache.contains(e) <==> s.cache.contains(e) by {
                lemma_contains_moved(s.cache, i, e);
            }
            let seg = Segment { sentence: s.enq_next, offset: 0, clip: s.cache[i].1.clip };
            let v = s.cache[i].1;
            assert(s.cache[i] == (k, v));
            assert(s.cache.contains((sentence_key(s, seg.sentence as int), v)));
            assert(is_sentence(s, seg));
            lemma_queue_step(s, a, t, Some(seg));
            if t.enq_next < s.doc->0.sentences.len() {
                let x = t.enq_next as int;
                assert(sentence_key(a, x) == sentence_key(s, x));
                assert(absent(a.cache, sentence_key(s, x)) <==> absent(
                    s.cache,
                    sentence_key(s, x),
                ));
            }
        } else {
            lemma_asked_touches(s, q);
        }
    }
}

} // verus!
