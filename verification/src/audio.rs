//! The playback queue: sentences played one after the other without a gap, and the
//! clock that tells which sample of which sentence is sounding.

use std::collections::VecDeque;
use vstd::prelude::*;

verus! {

/// The samples per second of all audio here.
pub const SAMPLE_RATE: u32 = 24_000;

/// What the clock reads when nothing plays.
pub const IDLE: u64 = 0xffff_ffff_ffff_ffff;

/// A stretch of audio: which one, and how many samples it has.
#[derive(Debug, Clone, Copy, PartialEq, Eq, Structural)]
pub struct Clip {
    pub id: u64,
    pub samples: u32,
}

/// A sentence to play.
#[derive(Debug, Clone, Copy, PartialEq, Eq, Structural)]
pub struct Segment {
    pub sentence: u32,
    /// The sample to start at.
    pub offset: u32,
    pub clip: Clip,
}

/// A place in the audio as the clock holds it.
pub open spec fn clock_at(sentence: u32, sample: u32) -> u64 {
    ((sentence as u64) << 32u64) | (sample as u64)
}

/// The place that the clock holds.
pub open spec fn place_of(clock: u64) -> Option<(u32, u32)> {
    if clock == IDLE {
        None
    } else {
        Some(((clock >> 32u64) as u32, (clock & 0xffff_ffff) as u32))
    }
}

/// The clock holds every place but the very last one there could be.
pub proof fn lemma_clock_holds(sentence: u32, sample: u32)
    requires
        sample < u32::MAX,
    ensures
        place_of(clock_at(sentence, sample)) == Some((sentence, sample)),
{
    let c = clock_at(sentence, sample);
    assert(c != 0xffff_ffff_ffff_ffff && (c >> 32u64) as u32 == sentence && (c & 0xffff_ffff)
        as u32 == sample) by (bit_vector)
        requires
            c == ((sentence as u64) << 32u64) | (sample as u64),
            sample < 0xffff_ffff,
    ;
}

fn set_clock(sentence: u32, sample: u32) -> (c: u64)
    ensures
        c == clock_at(sentence, sample),
{
    ((sentence as u64) << 32u64) | (sample as u64)
}

/// The playback engine: the segment that plays, those queued behind it, and the clock.
#[derive(Debug)]
pub struct Audio {
    pub cur: Option<Segment>,
    pub queue: VecDeque<Segment>,
    pub paused: bool,
    pub epoch: u64,
    pub clock: u64,
}

/// The playback engine.
#[verifier::ext_equal]
pub struct AudioView {
    pub cur: Option<Segment>,
    pub queue: Seq<Segment>,
    pub paused: bool,
    pub epoch: u64,
    pub clock: u64,
}

impl View for Audio {
    type V = AudioView;

    open spec fn view(&self) -> AudioView {
        AudioView {
            cur: self.cur,
            queue: self.queue@,
            paused: self.paused,
            epoch: self.epoch,
            clock: self.clock,
        }
    }
}

/// Is there a sample to sound at `i`, and one behind it to glide to?
pub open spec fn sounds(seg: Segment, i: u32) -> bool {
    i + 1 < seg.clip.samples
}

/// What sounds next: the current segment and the queue behind it, and the sample of
/// it. A segment that has run out makes way for the next one in the queue.
pub open spec fn sounding(cur: Option<Segment>, queue: Seq<Segment>, i: u32) -> (
    Option<Segment>,
    Seq<Segment>,
    u32,
)
    decreases queue.len(),
{
    match cur {
        None => (None, queue, 0),
        Some(seg) => if sounds(seg, i) {
            (cur, queue, i)
        } else if queue.len() == 0 {
            (None, queue, 0)
        } else {
            sounding(Some(queue[0]), queue.drop_first(), queue[0].offset)
        },
    }
}

impl AudioView {
    pub open spec fn position(self) -> Option<(u32, u32)> {
        place_of(self.clock)
    }

    pub open spec fn played_now(self, seg: Segment) -> AudioView {
        AudioView {
            cur: Some(seg),
            queue: Seq::empty(),
            paused: self.paused,
            epoch: self.epoch.wrapping_add(1),
            clock: clock_at(seg.sentence, seg.offset),
        }
    }

    pub open spec fn enqueued(self, epoch: u64, seg: Segment) -> AudioView {
        if self.epoch == epoch {
            AudioView { queue: self.queue.push(seg), ..self }
        } else {
            self
        }
    }

    pub open spec fn stopped(self) -> AudioView {
        AudioView {
            cur: None,
            queue: Seq::empty(),
            paused: false,
            epoch: self.epoch.wrapping_add(1),
            clock: IDLE,
        }
    }

    pub open spec fn unqueued(self) -> AudioView {
        AudioView { queue: Seq::empty(), ..self }
    }

    pub open spec fn with_paused(self, paused: bool) -> AudioView {
        AudioView { paused, ..self }
    }

    /// After the next frame, if the cursor stands at sample `i`.
    pub open spec fn advanced(self, i: u32) -> AudioView {
        let (cur, queue, at) = sounding(self.cur, self.queue, i);
        AudioView {
            cur,
            queue,
            clock: match cur {
                Some(seg) => clock_at(seg.sentence, at),
                None => IDLE,
            },
            ..self
        }
    }
}

impl Audio {
    pub fn new() -> (p: Audio)
        ensures
            p@ == (AudioView {
                cur: None,
                queue: Seq::empty(),
                paused: false,
                epoch: 0,
                clock: IDLE,
            }),
    {
        let p = Audio { cur: None, queue: VecDeque::new(), paused: false, epoch: 0, clock: IDLE };
        assert(p.queue@ =~= Seq::empty());
        p
    }

    /// Drop everything queued and start playing `seg` at once. Returns the new epoch;
    /// later `enqueue` calls must present it.
    pub fn play_now(&mut self, seg: Segment) -> (epoch: u64)
        ensures
            final(self)@ == old(self)@.played_now(seg),
            epoch == final(self).epoch,
    {
        self.epoch = self.epoch.wrapping_add(1);
        self.queue.clear();
        self.clock = set_clock(seg.sentence, seg.offset);
        self.cur = Some(seg);
        assert(self.queue@ =~= Seq::empty());
        self.epoch
    }

    /// Append a segment, to follow without a gap; a stale one is ignored.
    pub fn enqueue(&mut self, epoch: u64, seg: Segment)
        ensures
            final(self)@ == old(self)@.enqueued(epoch, seg),
    {
        if self.epoch == epoch {
            self.queue.push_back(seg);
        }
    }

    /// Drop what is queued but go on playing.
    pub fn clear_queue(&mut self)
        ensures
            final(self)@ == old(self)@.unqueued(),
    {
        self.queue.clear();
        assert(self.queue@ =~= Seq::empty());
    }

    /// Fall silent, and forget a pause.
    pub fn stop(&mut self) -> (epoch: u64)
        ensures
            final(self)@ == old(self)@.stopped(),
            epoch == final(self).epoch,
    {
        self.epoch = self.epoch.wrapping_add(1);
        self.cur = None;
        self.queue.clear();
        self.clock = IDLE;
        self.paused = false;
        assert(self.queue@ =~= Seq::empty());
        self.epoch
    }

    pub fn set_paused(&mut self, paused: bool)
        ensures
            final(self)@ == old(self)@.with_paused(paused),
    {
        self.paused = paused;
    }

    pub fn paused(&self) -> (p: bool)
        ensures
            p == self.paused,
    {
        self.paused
    }

    pub fn epoch(&self) -> (e: u64)
        ensures
            e == self.epoch,
    {
        self.epoch
    }

    /// The sentence that is playing and the sample it has reached; none when idle.
    pub fn position(&self) -> (r: Option<(u32, u32)>)
        ensures
            r == self@.position(),
    {
        if self.clock == IDLE {
            None
        } else {
            Some(((self.clock >> 32u64) as u32, (self.clock & 0xffff_ffff) as u32))
        }
    }

    /// One frame of output: the cursor stands at sample `i` of the current segment.
    /// Returns the sample to sound, and whether it is of another segment, so that the
    /// cursor has to go there; none when there is nothing left to play.
    pub fn next_frame(&mut self, i: u32) -> (r: (Option<u32>, bool))
        ensures
            final(self)@ == old(self)@.advanced(i),
            r.0 == (match final(self).cur {
                Some(_) => Some(sounding(old(self).cur, old(self).queue@, i).2),
                None => None,
            }),
            r.1 == !(old(self).cur is Some && sounds(old(self).cur->0, i)),
    {
        let mut at: u32 = i;
        let mut moved: bool = false;
        let ghost target = sounding(self.cur, self.queue@, i);
        let ghost first = self.cur is Some && sounds(self.cur->0, i);
        loop
            invariant
                sounding(self.cur, self.queue@, at) == target,
                self.paused == old(self).paused,
                self.epoch == old(self).epoch,
                target == sounding(old(self).cur, old(self).queue@, i),
                first == (old(self).cur is Some && sounds(old(self).cur->0, i)),
                moved || (self.cur == old(self).cur && at == i),
                moved ==> !first,
            decreases self.queue@.len(), (if self.cur is Some { 1int } else { 0int }),
        {
            match self.cur {
                None => {
                    self.clock = IDLE;
                    return (None, true);
                },
                Some(seg) => {
                    if at < seg.clip.samples && seg.clip.samples - at > 1 {
                        self.clock = set_clock(seg.sentence, at);
                        return (Some(at), moved);
                    }
                    let ghost q = self.queue@;
                    self.cur = self.queue.pop_front();
                    assert(q.len() > 0 ==> self.queue@ =~= q.drop_first());
                    moved = true;
                    at = match self.cur {
                        Some(next) => next.offset,
                        None => 0,
                    };
                },
            }
        }
    }
}

/// What plays goes on in order: a frame never skips a segment that still has
/// something to sound, never brings one back, and is silent only when all have run
/// out.
pub proof fn lemma_played_in_order(cur: Option<Segment>, queue: Seq<Segment>, i: u32)
    ensures
        ({
            let (now, left, at) = sounding(cur, queue, i);
            &&& left.len() <= queue.len()
            &&& left == queue.skip(queue.len() - left.len())
            &&& now is Some ==> sounds(now->0, at)
            &&& cur is Some && now is None ==> left.len() == 0 && !sounds(cur->0, i) && forall|
                k: int,
            |
                0 <= k < queue.len() ==> !sounds(#[trigger] queue[k], queue[k].offset)
            &&& now is Some && left.len() < queue.len() ==> !sounds(cur->0, i) && now->0
                == queue[queue.len() - left.len() - 1] && forall|k: int|
                0 <= k < queue.len() - left.len() - 1 ==> !sounds(
                    #[trigger] queue[k],
                    queue[k].offset,
                )
            &&& now is Some && left.len() == queue.len() ==> now == cur && at == i
        }),
    decreases queue.len(),
{
    let (now, left, at) = sounding(cur, queue, i);
    if cur is None || sounds(cur->0, i) || queue.len() == 0 {
        assert(queue.skip(0) =~= queue);
    } else {
        let rest = queue.drop_first();
        lemma_played_in_order(Some(queue[0]), rest, queue[0].offset);
        assert(rest.skip(rest.len() - left.len()) =~= queue.skip(queue.len() - left.len()));
        if now is None {
            assert forall|k: int| 0 <= k < queue.len() implies !sounds(
                #[trigger] queue[k],
                queue[k].offset,
            ) by {
                if k > 0 {
                    assert(queue[k] == rest[k - 1]);
                }
            }
        } else if left.len() < rest.len() {
            assert(queue[queue.len() - left.len() - 1] == rest[rest.len() - left.len() - 1]);
            assert forall|k: int| 0 <= k < queue.len() - left.len() - 1 implies !sounds(
                #[trigger] queue[k],
                queue[k].offset,
            ) by {
                if k > 0 {
                    assert(queue[k] == rest[k - 1]);
                }
            }
        }
    }
}

/// A segment meant for what played before is ignored; one that presents the new epoch
/// follows.
pub proof fn lemma_stale_is_ignored(e: AudioView, seg: Segment, other: Segment)
    ensures
        e.played_now(seg).enqueued(e.epoch, other) == e.played_now(seg),
        e.stopped().enqueued(e.epoch, other) == e.stopped(),
        e.played_now(seg).enqueued(e.played_now(seg).epoch, other).queue == seq![other],
{
    assert(Seq::<Segment>::empty().push(other) =~= seq![other]);
}

/// Where to start a sentence so that a word is heard from its beginning: a fiftieth
/// of a second before the word, but at least a twentieth before the end.
pub open spec fn seek_to(start: Option<u32>, samples: u32) -> u32 {
    let from: int = match start {
        Some(s) => if s >= 480 {
            s - 480
        } else {
            0
        },
        None => 0,
    };
    let last: int = if samples >= 1200 {
        samples - 1200
    } else {
        0
    };
    if from <= last {
        from as u32
    } else {
        last as u32
    }
}

/// The sample to start a sentence at, to hear the word that begins at `start`.
pub fn seek_offset(start: Option<u32>, samples: u32) -> (offset: u32)
    ensures
        offset == seek_to(start, samples),
{
    let from: u32 = match start {
        Some(s) => if s >= 480 {
            s - 480
        } else {
            0
        },
        None => 0,
    };
    let last: u32 = if samples >= 1200 {
        samples - 1200
    } else {
        0
    };
    if from <= last {
        from
    } else {
        last
    }
}

/// A seek never lands behind the audio: what can sound at all still sounds there.
pub proof fn lemma_seek_lands_inside(start: Option<u32>, clip: Clip, sentence: u32)
    requires
        clip.samples > 1,
    ensures
        sounds(
            Segment { sentence, offset: seek_to(start, clip.samples), clip },
            seek_to(start, clip.samples),
        ),
{
}

/// What a frame sounds: the segment that plays as long as a sample and one behind it are
/// left; when it has run out, the next in the queue from its own start, passing over those
/// that have nothing to sound; and nothing once all have run out. The position tells which.
pub proof fn lemma_frame_sounds(e: AudioView, i: u32, n: int)
    requires
        e.cur is Some,
        0 <= n <= e.queue.len(),
        forall|k: int|
            0 <= k < n ==> (#[trigger] e.queue[k]).offset + 1 >= e.queue[k].clip.samples,
        n < e.queue.len() ==> e.queue[n].offset + 1 < e.queue[n].clip.samples,
    ensures
        i + 1 < e.cur->0.clip.samples ==> e.advanced(i) == (AudioView {
            clock: e.advanced(i).clock,
            ..e
        }) && e.advanced(i).position() == Some((e.cur->0.sentence, i)),
        i + 1 >= e.cur->0.clip.samples && n < e.queue.len() ==> {
            &&& e.advanced(i).cur == Some(e.queue[n])
            &&& e.advanced(i).queue == e.queue.skip(n + 1)
            &&& e.advanced(i).position() == Some((e.queue[n].sentence, e.queue[n].offset))
            &&& sounding(e.cur, e.queue, i).2 == e.queue[n].offset
        },
        i + 1 >= e.cur->0.clip.samples && n == e.queue.len() ==> {
            &&& e.advanced(i).cur is None
            &&& e.advanced(i).queue.len() == 0
            &&& e.advanced(i).position() is None
        },
        e.advanced(i).paused == e.paused,
        e.advanced(i).epoch == e.epoch,
{
    if i + 1 < e.cur->0.clip.samples {
        lemma_clock_holds(e.cur->0.sentence, i);
    } else {
        lemma_sounding_next(e.cur, e.queue, i, n);
        if n < e.queue.len() {
            lemma_clock_holds(e.queue[n].sentence, e.queue[n].offset);
        }
    }
}

proof fn lemma_sounding_next(cur: Option<Segment>, queue: Seq<Segment>, i: u32, n: int)
    requires
        cur is Some,
        i + 1 >= cur->0.clip.samples,
        0 <= n <= queue.len(),
        forall|k: int| 0 <= k < n ==> (#[trigger] queue[k]).offset + 1 >= queue[k].clip.samples,
        n < queue.len() ==> queue[n].offset + 1 < queue[n].clip.samples,
    ensures
        n < queue.len() ==> sounding(cur, queue, i) == (
            Some(queue[n]),
            queue.skip(n + 1),
            queue[n].offset,
        ),
        n == queue.len() ==> sounding(cur, queue, i).0 is None && sounding(
            cur,
            queue,
            i,
        ).1.len() == 0,
    decreases queue.len(),
{
    if queue.len() > 0 {
        let rest = queue.drop_first();
        if n == 0 {
            assert(queue.skip(1) =~= rest);
        } else {
            assert(queue[0].offset + 1 >= queue[0].clip.samples);
            assert forall|k: int| 0 <= k < n - 1 implies (#[trigger] rest[k]).offset + 1
                >= rest[k].clip.samples by {
                assert(queue[k + 1].offset + 1 >= queue[k + 1].clip.samples);
            }
            lemma_sounding_next(Some(queue[0]), rest, queue[0].offset, n - 1);
            if n < queue.len() {
                assert(rest.skip(n) =~= queue.skip(n + 1));
            }
        }
    }
}

/// What the controls of playback do: starting a segment drops what is queued, keeps a pause,
/// and is a new epoch; a segment that presents the epoch comes last in the queue; stopping
/// is silence, with a pause forgotten.
pub proof fn lemma_controls_of_playback(e: AudioView, seg: Segment, paused: bool)
    requires
        seg.offset < u32::MAX,
    ensures
        e.played_now(seg).cur == Some(seg),
        e.played_now(seg).queue.len() == 0,
        e.played_now(seg).paused == e.paused,
        e.played_now(seg).epoch == e.epoch.wrapping_add(1),
        e.played_now(seg).position() == Some((seg.sentence, seg.offset)),
        e.enqueued(e.epoch, seg) == (AudioView { queue: e.queue.push(seg), ..e }),
        forall|epoch: u64| epoch != e.epoch ==> #[trigger] e.enqueued(epoch, seg) == e,
        e.stopped().cur is None && e.stopped().queue.len() == 0 && !e.stopped().paused,
        e.stopped().epoch == e.epoch.wrapping_add(1),
        e.stopped().position() is None,
        e.unqueued() == (AudioView { queue: Seq::empty(), ..e }),
        e.with_paused(paused) == (AudioView { paused, ..e }),
{
    lemma_clock_holds(seg.sentence, seg.offset);
}

/// A seek starts 480 samples before the word, but not before the audio begins, and not
/// within its last 1200 samples.
pub proof fn lemma_seek_is_just_before_the_word(x: u32, samples: u32)
    ensures
        480 <= x && x + 720 <= samples ==> seek_to(Some(x), samples) == x - 480,
        x < 480 ==> seek_to(Some(x), samples) == 0,
        480 <= x && x + 720 > samples && samples >= 1200 ==> seek_to(Some(x), samples) == samples
            - 1200,
        samples < 1200 ==> seek_to(Some(x), samples) == 0,
        seek_to(None, samples) == 0,
{
}

} // verus!
