//! Rendering a whole text to a file, beside the reader.

use crate::bytes::chars_and_offsets;
use crate::cache::{
    has_key, held, is_cache, key_views, lemma_use_in_order, lemma_use_keeps_all, used, Key, KeySet,
    KeyView, Req, ReqView, Spoken, SpokenView,
};
use crate::audio::{Clip, Audio};
use crate::player::{req_views, Player};
use crate::runs::pairs;
use crate::scene::{Scene, Status};
use crate::segment::{sentence_spans, spans};
use crate::seqs::lemma_filter_append;
use crate::text::{chars_of, slice_of, string_of};
use vstd::prelude::*;

verus! {

/// What a list of entries maps keys to, later ones first.
pub open spec fn clip_map(e: Seq<(KeyView, Clip)>) -> Map<KeyView, Clip>
    decreases e.len(),
{
    if e.len() == 0 {
        Map::empty()
    } else {
        clip_map(e.drop_last()).insert(e.last().0, e.last().1)
    }
}

spec fn clip_entries(e: Seq<(Key, Clip)>) -> Seq<(KeyView, Clip)> {
    e.map_values(|x: (Key, Clip)| (x.0@, x.1))
}

/// The audio an export has collected.
#[derive(Debug)]
pub struct Clips {
    entries: Vec<(Key, Clip)>,
}

impl View for Clips {
    type V = Map<KeyView, Clip>;

    closed spec fn view(&self) -> Map<KeyView, Clip> {
        clip_map(clip_entries(self.entries@))
    }
}

proof fn lemma_clip_map_empty(e: Seq<(KeyView, Clip)>)
    ensures
        (clip_map(e) == Map::<KeyView, Clip>::empty()) <==> e.len() == 0,
{
    if e.len() > 0 {
        assert(clip_map(e).contains_key(e.last().0));
        assert(!Map::<KeyView, Clip>::empty().contains_key(e.last().0));
    }
}

impl Clips {
    pub fn new() -> (c: Clips)
        ensures
            c@ == Map::<KeyView, Clip>::empty(),
    {
        let c = Clips { entries: Vec::new() };
        assert(clip_entries(c.entries@) =~= Seq::empty());
        c
    }

    pub fn insert(&mut self, key: Key, clip: Clip)
        ensures
            final(self)@ == old(self)@.insert(key@, clip),
    {
        let ghost before = clip_entries(self.entries@);
        self.entries.push((key, clip));
        assert(clip_entries(self.entries@) =~= before.push((key@, clip)));
        assert(clip_entries(self.entries@).drop_last() =~= before);
    }

    pub fn get(&self, key: &Key) -> (r: Option<Clip>)
        ensures
            r == (if self@.contains_key(key@) {
                Some(self@[key@])
            } else {
                None
            }),
    {
        let ghost all = clip_entries(self.entries@);
        let mut i: usize = self.entries.len();
        assert(all.take(i as int) =~= all);
        while i > 0
            invariant
                i <= self.entries.len(),
                all == clip_entries(self.entries@),
                clip_map(all).contains_key(key@) == clip_map(all.take(i as int)).contains_key(
                    key@,
                ),
                clip_map(all).contains_key(key@) ==> clip_map(all)[key@] == clip_map(
                    all.take(i as int),
                )[key@],
            decreases i,
        {
            assert(all.take(i as int).drop_last() =~= all.take(i - 1));
            assert(all.take(i as int).last() == (
                self.entries@[i - 1].0@,
                self.entries@[i - 1].1,
            ));
            if self.entries[i - 1].0.same(key) {
                return Some(self.entries[i - 1].1);
            }
            i -= 1;
        }
        None
    }

    pub fn is_empty(&self) -> (b: bool)
        ensures
            b == (self@ == Map::<KeyView, Clip>::empty()),
    {
        proof {
            lemma_clip_map_empty(clip_entries(self.entries@));
        }
        self.entries.len() == 0
    }
}

/// An export under way.
pub struct Export {
    /// The sentences, in order.
    pub keys: Vec<Key>,
    /// The same, each once.
    pub key_set: KeySet,
    /// What has been synthesized; the cache may have dropped it since.
    pub done: Clips,
}

/// The sentences of a text as keys.
pub open spec fn sentence_keys(
    s: Seq<char>,
    sents: Seq<(int, int)>,
    voice: Seq<char>,
    speed100: u32,
) -> Seq<KeyView> {
    sents.map_values(
        |p: (int, int)| KeyView { voice, speed100, text: s.subrange(p.0, p.1) },
    )
}

/// The cache after the first `n` keys were looked up in it, and what was found.
pub open spec fn seeded(c: Seq<(KeyView, SpokenView)>, keys: Seq<KeyView>, n: int) -> (
    Seq<(KeyView, SpokenView)>,
    Map<KeyView, Clip>,
)
    decreases n,
{
    if n <= 0 {
        (c, Map::empty())
    } else {
        let (before, found) = seeded(c, keys, n - 1);
        let k = keys[n - 1];
        (
            used(before, k),
            if has_key(before, k) {
                found.insert(k, held(before, k).clip)
            } else {
                found
            },
        )
    }
}

/// A sentence is settled once it is synthesized or known to have nothing to say.
pub open spec fn settled(done: Map<KeyView, Clip>, unspeakable: Set<KeyView>, k: KeyView) -> bool {
    done.contains_key(k) || unspeakable.contains(k)
}

/// The first key from `i` on that is not settled.
pub open spec fn first_open(
    keys: Seq<KeyView>,
    done: Map<KeyView, Clip>,
    unspeakable: Set<KeyView>,
    i: int,
) -> Option<KeyView>
    decreases keys.len() - i,
{
    if i < 0 || i >= keys.len() {
        None
    } else if !settled(done, unspeakable, keys[i]) {
        Some(keys[i])
    } else {
        first_open(keys, done, unspeakable, i + 1)
    }
}

/// The worker is asked for one sentence of an export at a time.
pub open spec fn pumped(s: Scene, keys: Seq<KeyView>, done: Map<KeyView, Clip>) -> Scene {
    if exists|i: int| 0 <= i < keys.len() && s.requested.contains(#[trigger] keys[i]) {
        s
    } else {
        match first_open(keys, done, s.unspeakable, 0) {
            Some(k) => Scene {
                requested: s.requested.insert(k),
                outbox: s.outbox.push(
                    ReqView { epoch: s.worker_epoch, sent: u32::MAX, key: k, keep: true },
                ),
                ..s
            },
            None => s,
        }
    }
}

/// How many of a set of keys there are in a map.
pub open spec fn count_done(set: Set<KeyView>, done: Map<KeyView, Clip>) -> nat {
    set.filter(|k: KeyView| done.contains_key(k)).len()
}

/// How many of a set of keys are settled.
pub open spec fn count_settled(
    set: Set<KeyView>,
    done: Map<KeyView, Clip>,
    unspeakable: Set<KeyView>,
) -> nat {
    set.filter(|k: KeyView| settled(done, unspeakable, k)).len()
}

/// What goes into the file: the audio of the sentences that have any, in order.
pub open spec fn rendered(keys: Seq<KeyView>, done: Map<KeyView, Clip>) -> Seq<Clip> {
    keys.filter(is_done(done)).map_values(|k: KeyView| done[k])
}

pub open spec fn is_done(done: Map<KeyView, Clip>) -> spec_fn(KeyView) -> bool {
    |k: KeyView| done.contains_key(k)
}

/// How an export stands.
#[derive(Debug)]
pub enum Poll {
    /// So many sentences are settled, so many of them with audio, of so many.
    Waiting { settled: usize, have: usize, total: usize },
    /// Nothing in the text can be spoken.
    Silent,
    /// All there is, in order.
    Ready(Vec<Clip>),
}

/// Counting along a list that holds nothing twice counts the set.
proof fn lemma_count_listed(v: Seq<KeyView>, keep: spec_fn(KeyView) -> bool)
    requires
        v.no_duplicates(),
    ensures
        v.to_set().filter(keep).finite(),
        v.to_set().filter(keep).len() == v.filter(keep).len(),
    decreases v.len(),
{
    reveal(Seq::filter);
    if v.len() == 0 {
        assert(v.to_set().filter(keep) =~= Set::empty());
    } else {
        let front = v.drop_last();
        let x = v.last();
        assert forall|i: int, j: int|
            0 <= i < front.len() && 0 <= j < front.len() && i != j implies front[i] != front[j] by {
            assert(v[i] != v[j]);
        }
        lemma_count_listed(front, keep);
        assert(!front.to_set().contains(x)) by {
            if front.contains(x) {
                let i = choose|i: int| 0 <= i < front.len() && front[i] == x;
                assert(v[i] != v[v.len() - 1]);
            }
        }
        assert forall|k: KeyView| #[trigger] v.to_set().contains(k) <==> front.to_set().insert(
            x,
        ).contains(k) by {
            if v.contains(k) {
                let i = choose|i: int| 0 <= i < v.len() && v[i] == k;
                if i < front.len() {
                    assert(front[i] == k);
                }
            }
            if front.contains(k) {
                let i = choose|i: int| 0 <= i < front.len() && front[i] == k;
                assert(v[i] == k);
            }
            if k == x {
                assert(v[v.len() - 1] == k);
            }
        }
        assert(v.to_set() =~= front.to_set().insert(x));
        if keep(x) {
            assert(v.to_set().filter(keep) =~= front.to_set().filter(keep).insert(x));
        } else {
            assert(v.to_set().filter(keep) =~= front.to_set().filter(keep));
        }
    }
}

impl Export {
    /// The set of keys is that of the sentences.
    pub open spec fn wf(&self) -> bool {
        &&& self.key_set.wf()
        &&& self.key_set@ == key_views(self.keys@).to_set()
    }

    /// The player, and the export if there is one, after one was to begin: of the
    /// given sentences of a text, and what the cache has of them.
    pub open spec fn started(
        before: Player,
        after: Player,
        text: Seq<char>,
        sents: Seq<(int, int)>,
        r: Option<Export>,
    ) -> bool {
        let keys = sentence_keys(text, sents, before.voice@, before.speed100);
        let (cache, found) = seeded(before.cache@, keys, keys.len() as int);
        &&& r is Some <==> sents.len() > 0
        &&& r is Some ==> r->0.wf() && key_views(r->0.keys@) == keys && r->0.done@ == found
        &&& forall|e: &Audio|
            (#[trigger] after.scene(e)) == (if r is Some {
                Scene { cache, ..before.scene(e) }
            } else {
                Scene { status: Status::NothingToExport, ..before.scene(e) }
            })
    }

    /// Begin the export of a text. None if there is no sentence.
    pub fn start(player: &mut Player, text: &str) -> (r: Option<Export>)
        requires
            old(player).wf(),
        ensures
            final(player).wf(),
            Export::started(*old(player), *final(player), text@, spans(text@), r),
    {
        let (s, offs) = chars_and_offsets(text);
        let sents = sentence_spans(text, &s, &offs);
        Export::start_with(player, text, &sents)
    }

    /// Begin the export of the given sentences of a text, in characters. None if
    /// there is none.
    pub fn start_with(player: &mut Player, text: &str, sents: &Vec<(usize, usize)>) -> (r: Option<
        Export,
    >)
        requires
            old(player).wf(),
            forall|i: int|
                0 <= i < sents.len() ==> (#[trigger] sents@[i]).0 < sents@[i].1 && sents@[i].1
                    <= text@.len(),
        ensures
            final(player).wf(),
            Export::started(*old(player), *final(player), text@, pairs(sents@), r),
    {
        let s = chars_of(text);
        let ghost g = pairs(sents@);
        let ghost all = sentence_keys(text@, g, player.voice@, player.speed100);
        assert(pairs(sents@).len() == sents.len());
        if sents.len() == 0 {
            player.status = Status::NothingToExport;
            return None;
        }
        let mut keys: Vec<Key> = Vec::new();
        let mut key_set = KeySet::new();
        let mut i: usize = 0;
        assert(key_views(keys@) =~= all.take(0));
        assert(key_set@ =~= all.take(0).to_set());
        while i < sents.len()
            invariant
                i <= sents.len(),
                s@ == text@,
                pairs(sents@) == g,
                all == sentence_keys(text@, g, player.voice@, player.speed100),
                all.len() == sents.len(),
                forall|k: int|
                    0 <= k < sents.len() ==> (#[trigger] sents@[k]).0 < sents@[k].1 && sents@[k].1
                        <= s.len(),
                key_views(keys@) == all.take(i as int),
                key_set.wf(),
                key_set@ == all.take(i as int).to_set(),
            decreases sents.len() - i,
        {
            let (a, b) = sents[i];
            assert(g[i as int] == (a as int, b as int));
            let part = slice_of(s.as_slice(), a, b);
            let key = Key {
                voice: player.voice.clone(),
                speed100: player.speed100,
                text: string_of(part.as_slice()),
            };
            let ghost k = key@;
            let ghost before = keys@;
            key_set.insert(key.copy());
            keys.push(key);
            i += 1;
            assert(all.take(i as int) =~= all.take(i - 1).push(k));
            assert(key_views(keys@) =~= key_views(before).push(k));
            assert(key_set@ =~= all.take(i as int).to_set()) by {
                lemma_push_to_set(all.take(i - 1), k);
            }
        }
        assert(all.take(i as int) =~= all);
        let ghost c0 = player.cache@;
        let ghost p0 = *player;
        let mut done = Clips::new();
        let mut j: usize = 0;
        while j < keys.len()
            invariant
                j <= keys.len(),
                player.wf(),
                key_views(keys@) == all,
                p0 == *old(player),
                (player.cache@, done@) == seeded(c0, all, j as int),
                forall|e: &Audio|
                    (#[trigger] player.scene(e)) == (Scene { cache: player.cache@, ..p0.scene(e) }),
            decreases keys.len() - j,
        {
            assert(all[j as int] == keys@[j as int]@);
            let ghost p1 = *player;
            if let Some(spoken) = player.cache.get(&keys[j]) {
                let clip: Clip = spoken.clip;
                done.insert(keys[j].copy(), clip);
            }
            j += 1;
            assert forall|e: &Audio|
                (#[trigger] player.scene(e)) == (Scene {
                    cache: player.cache@,
                    ..p0.scene(e)
                }) by {
                assert(p1.scene(e) == (Scene { cache: p1.cache@, ..p0.scene(e) }));
            }
        }
        assert(keys.len() == all.len());
        Some(Export { keys, key_set, done })
    }

    /// Is a key one of this export's?
    pub fn wants(&self, key: &Key) -> (b: bool)
        requires
            self.wf(),
        ensures
            b == key_views(self.keys@).to_set().contains(key@),
    {
        self.key_set.contains(key)
    }

    /// The audio of a sentence has come.
    pub fn note(&mut self, key: Key, clip: Clip)
        requires
            old(self).wf(),
        ensures
            final(self).wf(),
            final(self).keys == old(self).keys,
            final(self).done@ == (if key_views(old(self).keys@).to_set().contains(key@) {
                old(self).done@.insert(key@, clip)
            } else {
                old(self).done@
            }),
    {
        if self.wants(&key) {
            self.done.insert(key, clip);
        }
    }

    /// Ask the worker for the next sentence, one at a time, so that the reader never
    /// waits behind more than one.
    pub fn pump(&self, player: &mut Player)
        requires
            self.wf(),
            old(player).wf(),
        ensures
            final(player).wf(),
            forall|e: &Audio|
                (#[trigger] final(player).scene(e)) == pumped(
                    old(player).scene(e),
                    key_views(self.keys@),
                    self.done@,
                ),
    {
        let ghost all = key_views(self.keys@);
        let ghost p0 = *player;
        assert(all.len() == self.keys.len());
        let mut i: usize = 0;
        while i < self.keys.len()
            invariant
                i <= self.keys.len(),
                *player == p0,
                p0 == *old(player),
                player.wf(),
                all == key_views(self.keys@),
                all.len() == self.keys.len(),
                forall|k: int| 0 <= k < i ==> !player.requested@.contains(#[trigger] all[k]),
            decreases self.keys.len() - i,
        {
            assert(all[i as int] == self.keys@[i as int]@);
            if player.requested.contains(&self.keys[i]) {
                assert forall|e: &Audio|
                    (#[trigger] player.scene(e)) == pumped(p0.scene(e), all, self.done@) by {
                    assert(p0.scene(e).requested.contains(all[i as int]));
                }
                return;
            }
            i += 1;
        }
        assert forall|e: &Audio| !(exists|k: int|
            0 <= k < all.len() && (#[trigger] p0.scene(e)).requested.contains(
                #[trigger] all[k],
            )) by {}
        let mut j: usize = 0;
        while j < self.keys.len()
            invariant
                j <= self.keys.len(),
                *player == p0,
                p0 == *old(player),
                player.wf(),
                all == key_views(self.keys@),
                all.len() == self.keys.len(),
                forall|k: int| 0 <= k < all.len() ==> !player.requested@.contains(#[trigger] all[k]),
                first_open(all, self.done@, player.unspeakable@, 0) == first_open(
                    all,
                    self.done@,
                    player.unspeakable@,
                    j as int,
                ),
            decreases self.keys.len() - j,
        {
            assert(all[j as int] == self.keys@[j as int]@);
            let key = &self.keys[j];
            if self.done.get(key).is_none() && !player.unspeakable.contains(key) {
                let ghost k = key@;
                let ghost out = player.outbox@;
                player.requested.insert(key.copy());
                player.outbox.push(
                    Req {
                        epoch: player.worker_epoch,
                        sent: u32::MAX,
                        key: key.copy(),
                        keep: true,
                    },
                );
                assert forall|e: &Audio|
                    (#[trigger] player.scene(e)) == pumped(p0.scene(e), all, self.done@) by {
                    assert(req_views(player.outbox@) =~= req_views(out).push(
                        ReqView { epoch: p0.worker_epoch, sent: u32::MAX, key: k, keep: true },
                    ));
                    assert(player.scene(e) =~= pumped(p0.scene(e), all, self.done@));
                }
                return;
            }
            j += 1;
        }
        assert(first_open(all, self.done@, player.unspeakable@, 0) is None);
    }

    /// See how the export stands.
    pub fn poll(&self, player: &Player) -> (r: Poll)
        requires
            self.wf(),
        ensures
            ({
                let set = key_views(self.keys@).to_set();
                let n = count_settled(set, self.done@, player.unspeakable@);
                match r {
                    Poll::Waiting { settled, have, total } => n < set.len() && settled == n && have
                        == count_done(set, self.done@) && total == set.len(),
                    Poll::Silent => n == set.len() && self.done@ == Map::<
                        KeyView,
                        Clip,
                    >::empty(),
                    Poll::Ready(clips) => n == set.len() && self.done@ != Map::<
                        KeyView,
                        Clip,
                    >::empty() && clips@ == rendered(key_views(self.keys@), self.done@),
                }
            }),
    {
        let ghost v = self.key_set.listed();
        let ghost in_done = |k: KeyView| self.done@.contains_key(k);
        let ghost in_settled = |k: KeyView| settled(self.done@, player.unspeakable@, k);
        proof {
            self.key_set.lemma_listed();
            lemma_count_listed(v, in_done);
            lemma_count_listed(v, in_settled);
        }
        let total: usize = self.key_set.len();
        let mut have: usize = 0;
        let mut resolved: usize = 0;
        let mut i: usize = 0;
        assert(v.take(0).filter(in_done).len() == 0 && v.take(0).filter(in_settled).len() == 0) by {
            reveal(Seq::filter);
        }
        while i < total
            invariant
                i <= total,
                self.wf(),
                v == self.key_set.listed(),
                v.len() == total,
                total == self.key_set@.len(),
                in_done == |k: KeyView| self.done@.contains_key(k),
                in_settled == |k: KeyView| settled(self.done@, player.unspeakable@, k),
                have <= i,
                resolved <= i,
                have == v.take(i as int).filter(in_done).len(),
                resolved == v.take(i as int).filter(in_settled).len(),
            decreases total - i,
        {
            let key = self.key_set.get(i);
            assert(v.take(i + 1) =~= v.take(i as int).push(key@));
            proof {
                v.take(i as int).lemma_filter_push(key@, in_done);
                v.take(i as int).lemma_filter_push(key@, in_settled);
            }
            let there: bool = self.done.get(key).is_some();
            if there {
                have += 1;
            }
            if there || player.unspeakable.contains(key) {
                resolved += 1;
            }
            i += 1;
        }
        assert(v.take(i as int) =~= v);
        proof {
            lemma_filter_no_longer(v, in_settled);
        }
        if resolved < total {
            return Poll::Waiting { settled: resolved, have, total };
        }
        if self.done.is_empty() {
            return Poll::Silent;
        }
        Poll::Ready(self.render())
    }

    fn render(&self) -> (r: Vec<Clip>)
        ensures
            r@ == rendered(key_views(self.keys@), self.done@),
    {
        let ghost all = key_views(self.keys@);
        let ghost keep = is_done(self.done@);
        let mut r: Vec<Clip> = Vec::new();
        let mut i: usize = 0;
        assert(all.len() == self.keys.len());
        assert(r@ =~= rendered(all.take(0), self.done@)) by {
            reveal(Seq::filter);
        }
        while i < self.keys.len()
            invariant
                i <= self.keys.len(),
                all == key_views(self.keys@),
                keep == is_done(self.done@),
                r@ == rendered(all.take(i as int), self.done@),
            decreases self.keys.len() - i,
        {
            assert(all.take(i + 1) =~= all.take(i as int).push(all[i as int]));
            assert(all[i as int] == self.keys@[i as int]@);
            proof {
                all.take(i as int).lemma_filter_push(all[i as int], keep);
            }
            if let Some(clip) = self.done.get(&self.keys[i]) {
                r.push(clip);
            }
            i += 1;
            assert(r@ =~= rendered(all.take(i as int), self.done@));
        }
        assert(all.take(i as int) =~= all);
        r
    }
}

proof fn lemma_filter_no_longer(v: Seq<KeyView>, keep: spec_fn(KeyView) -> bool)
    ensures
        v.filter(keep).len() <= v.len(),
    decreases v.len(),
{
    reveal(Seq::filter);
    if v.len() > 0 {
        lemma_filter_no_longer(v.drop_last(), keep);
    }
}

proof fn lemma_push_to_set(s: Seq<KeyView>, k: KeyView)
    ensures
        s.push(k).to_set() == s.to_set().insert(k),
{
    assert forall|x: KeyView| #[trigger] s.push(k).to_set().contains(x) <==> s.to_set().insert(
        k,
    ).contains(x) by {
        if s.contains(x) {
            let i = choose|i: int| 0 <= i < s.len() && s[i] == x;
            assert(s.push(k)[i] == x);
        }
        if x == k {
            assert(s.push(k)[s.len() as int] == x);
        }
        if s.push(k).contains(x) && x != k {
            let i = choose|i: int| 0 <= i < s.push(k).len() && s.push(k)[i] == x;
            assert(s[i] == x);
        }
    }
    assert(s.push(k).to_set() =~= s.to_set().insert(k));
}

/// An export is over exactly when every sentence is settled.
pub proof fn lemma_over_when_all_settled(
    keys: Seq<KeyView>,
    done: Map<KeyView, Clip>,
    unspeakable: Set<KeyView>,
)
    ensures
        count_settled(keys.to_set(), done, unspeakable) == keys.to_set().len() <==> forall|i: int|
            0 <= i < keys.len() ==> settled(done, unspeakable, #[trigger] keys[i]),
        count_settled(keys.to_set(), done, unspeakable) <= keys.to_set().len(),
{
    let set = keys.to_set();
    let keep = |k: KeyView| settled(done, unspeakable, k);
    vstd::seq_lib::seq_to_set_is_finite(keys);
    let part = set.filter(keep);
    assert(part.subset_of(set));
    vstd::set_lib::lemma_len_subset(part, set);
    if part.len() == set.len() {
        vstd::set_lib::lemma_subset_equality(part, set);
        assert forall|i: int| 0 <= i < keys.len() implies settled(
            done,
            unspeakable,
            #[trigger] keys[i],
        ) by {
            assert(set.contains(keys[i]));
            assert(part.contains(keys[i]));
        }
    }
    if forall|i: int| 0 <= i < keys.len() ==> settled(done, unspeakable, #[trigger] keys[i]) {
        assert forall|k: KeyView| set.contains(k) implies part.contains(k) by {
            let i = choose|i: int| 0 <= i < keys.len() && keys[i] == k;
            assert(settled(done, unspeakable, keys[i]));
        }
        assert(part =~= set);
    }
}

/// What the worker has to say of a sentence.
#[derive(Debug)]
pub enum Outcome {
    Spoken(Spoken),
    /// There is nothing in it to say.
    Silent,
    Failed,
}

/// What the worker has to say of a sentence.
pub enum OutcomeView {
    Spoken(SpokenView),
    Silent,
    Failed,
}

impl View for Outcome {
    type V = OutcomeView;

    open spec fn view(&self) -> OutcomeView {
        match self {
            Outcome::Spoken(v) => OutcomeView::Spoken(v@),
            Outcome::Silent => OutcomeView::Silent,
            Outcome::Failed => OutcomeView::Failed,
        }
    }
}

/// An export as far as it matters here: its sentences, and what it has of them.
pub open spec fn export_view(e: Option<Export>) -> Option<(Seq<KeyView>, Map<KeyView, Clip>)> {
    match e {
        Some(x) => Some((key_views(x.keys@), x.done@)),
        None => None,
    }
}

/// An export after a word from the worker: audio it wants is kept, and a failure of
/// a sentence it wants is the end of it.
pub open spec fn export_after(
    e: Option<(Seq<KeyView>, Map<KeyView, Clip>)>,
    k: KeyView,
    outcome: OutcomeView,
) -> Option<(Seq<KeyView>, Map<KeyView, Clip>)> {
    match e {
        None => None,
        Some((keys, done)) => if !keys.to_set().contains(k) {
            e
        } else {
            match outcome {
                OutcomeView::Spoken(v) => Some((keys, done.insert(k, v.clip))),
                OutcomeView::Silent => e,
                OutcomeView::Failed => None,
            }
        },
    }
}

/// The reader after a word from the worker.
pub open spec fn scene_after(
    s: Scene,
    e: Option<(Seq<KeyView>, Map<KeyView, Clip>)>,
    sent: u32,
    k: KeyView,
    outcome: OutcomeView,
) -> Scene {
    match outcome {
        OutcomeView::Spoken(v) => s.received(sent as int, k, v),
        OutcomeView::Silent => s.silenced(k),
        OutcomeView::Failed => if e is Some && export_after(e, k, outcome) is None {
            (Scene { status: Status::ExportFailed, ..s }).failed(sent, k)
        } else {
            s.failed(sent, k)
        },
    }
}

/// Take in what the worker has to say of a sentence.
pub fn receive(
    player: &mut Player,
    engine: &mut Audio,
    export: &mut Option<Export>,
    sent: u32,
    key: Key,
    outcome: Outcome,
)
    requires
        old(player).wf(),
        *old(export) is Some ==> (*old(export))->0.wf(),
    ensures
        final(player).wf(),
        *final(export) is Some ==> (*final(export))->0.wf(),
        export_view(*final(export)) == export_after(export_view(*old(export)), key@, outcome@),
        final(player).scene(final(engine)) == scene_after(
            old(player).scene(old(engine)),
            export_view(*old(export)),
            sent,
            key@,
            outcome@,
        ),
{
    match outcome {
        Outcome::Spoken(spoken) => {
            if let Some(x) = export {
                x.note(key.copy(), spoken.clip);
            }
            player.on_spoken(sent, key, spoken);
        },
        Outcome::Silent => {
            player.on_unspeakable(key);
        },
        Outcome::Failed => {
            let wanted: bool = match export {
                Some(x) => x.wants(&key),
                None => false,
            };
            if wanted {
                *export = None;
                player.status = Status::ExportFailed;
            }
            player.on_failed(engine, sent, &key);
        },
    }
}

/// What goes into the file is the audio of the sentences in their order, each as often as it
/// stands in the text; one without audio is left out.
pub proof fn lemma_file_is_in_order(
    x: Seq<KeyView>,
    k: KeyView,
    y: Seq<KeyView>,
    done: Map<KeyView, Clip>,
)
    ensures
        rendered(x + y, done) == rendered(x, done) + rendered(y, done),
        done.contains_key(k) ==> rendered(seq![k], done) == seq![done[k]],
        !done.contains_key(k) ==> rendered(seq![k], done).len() == 0,
{
    let keep = is_done(done);
    lemma_filter_append(x, y, keep);
    assert(rendered(x + y, done) =~= rendered(x, done) + rendered(y, done));
    let none = Seq::<KeyView>::empty();
    assert(none.filter(keep) =~= none) by {
        reveal(Seq::filter);
    }
    none.lemma_filter_push(k, keep);
    assert(none.push(k) =~= seq![k]);
    if done.contains_key(k) {
        assert(rendered(seq![k], done) =~= seq![done[k]]);
    }
}

/// The worker is asked for the first sentence that has neither audio nor is known to have
/// none, and only while it is asked for no other of the export. The request holds whatever
/// the reader does.
pub proof fn lemma_export_asks_for_the_first(
    s: Scene,
    keys: Seq<KeyView>,
    done: Map<KeyView, Clip>,
    i: int,
)
    requires
        0 <= i <= keys.len(),
        forall|j: int|
            0 <= j < i ==> done.contains_key(#[trigger] keys[j]) || s.unspeakable.contains(keys[j]),
        i < keys.len() ==> !done.contains_key(keys[i]) && !s.unspeakable.contains(keys[i]),
    ensures
        (exists|j: int| 0 <= j < keys.len() && s.requested.contains(#[trigger] keys[j]))
            ==> pumped(s, keys, done) == s,
        (forall|j: int| 0 <= j < keys.len() ==> !s.requested.contains(#[trigger] keys[j])) ==> (
        if i < keys.len() {
            pumped(s, keys, done) == (Scene {
                requested: s.requested.insert(keys[i]),
                outbox: s.outbox.push(
                    ReqView { epoch: s.worker_epoch, sent: u32::MAX, key: keys[i], keep: true },
                ),
                ..s
            })
        } else {
            pumped(s, keys, done) == s
        }),
{
    lemma_first_open(keys, done, s.unspeakable, 0, i);
}

proof fn lemma_first_open(
    keys: Seq<KeyView>,
    done: Map<KeyView, Clip>,
    unspeakable: Set<KeyView>,
    from: int,
    i: int,
)
    requires
        0 <= from <= i <= keys.len(),
        forall|j: int|
            from <= j < i ==> done.contains_key(#[trigger] keys[j]) || unspeakable.contains(
                keys[j],
            ),
        i < keys.len() ==> !done.contains_key(keys[i]) && !unspeakable.contains(keys[i]),
    ensures
        first_open(keys, done, unspeakable, from) == (if i < keys.len() {
            Some(keys[i])
        } else {
            None
        }),
    decreases i - from,
{
    if from < i {
        assert(done.contains_key(keys[from]) || unspeakable.contains(keys[from]));
        lemma_first_open(keys, done, unspeakable, from + 1, i);
    }
}

/// An export begins with what the cache has of its sentences: the audio that stands under
/// the voice, the speed and the text of each, and nothing else.
pub proof fn lemma_export_begins_with_the_cache(
    c: Seq<(KeyView, SpokenView)>,
    keys: Seq<KeyView>,
    n: int,
    k: KeyView,
)
    requires
        is_cache(c),
        0 <= n <= keys.len(),
    ensures
        seeded(c, keys, n).1.contains_key(k) <==> keys.take(n).contains(k) && exists|i: int|
            0 <= i < c.len() && (#[trigger] c[i]).0 == k,
        forall|i: int|
            0 <= i < c.len() && (#[trigger] c[i]).0 == k && keys.take(n).contains(k) ==> seeded(
                c,
                keys,
                n,
            ).1[k] == c[i].1.clip,
{
    lemma_seeded(c, keys, n, k);
    let there = exists|i: int| 0 <= i < c.len() && (#[trigger] c[i]).0 == k;
    if there {
        let i = choose|i: int| 0 <= i < c.len() && (#[trigger] c[i]).0 == k;
        lemma_use_in_order(c, k, i);
    } else {
        lemma_use_in_order(c, k, 0);
    }
    assert forall|i: int|
        0 <= i < c.len() && (#[trigger] c[i]).0 == k && keys.take(n).contains(k) implies seeded(
        c,
        keys,
        n,
    ).1[k] == c[i].1.clip by {
        lemma_use_in_order(c, k, i);
    }
}

proof fn lemma_seeded(c: Seq<(KeyView, SpokenView)>, keys: Seq<KeyView>, n: int, k: KeyView)
    requires
        is_cache(c),
        0 <= n <= keys.len(),
    ensures
        is_cache(seeded(c, keys, n).0),
        has_key(seeded(c, keys, n).0, k) <==> has_key(c, k),
        has_key(c, k) ==> held(seeded(c, keys, n).0, k) == held(c, k),
        seeded(c, keys, n).1.contains_key(k) <==> keys.take(n).contains(k) && has_key(c, k),
        seeded(c, keys, n).1.contains_key(k) ==> seeded(c, keys, n).1[k] == held(c, k).clip,
    decreases n,
{
    if n > 0 {
        let last = keys[n - 1];
        let (before, found) = seeded(c, keys, n - 1);
        lemma_seeded(c, keys, n - 1, k);
        lemma_use_keeps_all(before, last, k);
        let (a, b) = (keys.take(n - 1), keys.take(n));
        assert(b =~= a.push(last));
        if a.contains(k) {
            let j = choose|j: int| 0 <= j < a.len() && a[j] == k;
            assert(b[j] == k);
        }
        if b.contains(k) && k != last {
            let j = choose|j: int| 0 <= j < b.len() && b[j] == k;
            assert(a[j] == k);
        }
        if k == last {
            assert(b[n - 1] == k);
        }
    } else {
        assert(keys.take(0).len() == 0);
    }
}

/// The sentences of an export are those of the text, each with the voice and the speed.
pub proof fn lemma_export_has_every_sentence(
    s: Seq<char>,
    sents: Seq<(int, int)>,
    voice: Seq<char>,
    speed100: u32,
    k: int,
)
    requires
        0 <= k < sents.len(),
    ensures
        sentence_keys(s, sents, voice, speed100).len() == sents.len(),
        sentence_keys(s, sents, voice, speed100)[k] == (KeyView {
            voice,
            speed100,
            text: s.subrange(sents[k].0, sents[k].1),
        }),
{
}

/// What a word from the worker does to an export: audio it wants is kept, a failure of what
/// it wants ends it with a message, and all else leaves it as it is. The reader takes the
/// word in either way.
pub proof fn lemma_word_from_the_worker(
    s: Scene,
    keys: Seq<KeyView>,
    done: Map<KeyView, Clip>,
    sent: u32,
    k: KeyView,
    v: SpokenView,
)
    ensures
        ({
            let e = Some((keys, done));
            let wanted = exists|j: int| 0 <= j < keys.len() && #[trigger] keys[j] == k;
            let spoken = OutcomeView::Spoken(v);
            &&& export_after(e, k, spoken) == (if wanted {
                Some((keys, done.insert(k, v.clip)))
            } else {
                e
            })
            &&& export_after(e, k, OutcomeView::Silent) == e
            &&& wanted ==> export_after(e, k, OutcomeView::Failed) is None
            &&& !wanted ==> export_after(e, k, OutcomeView::Failed) == e
            &&& scene_after(s, e, sent, k, spoken) == s.received(sent as int, k, v)
            &&& scene_after(s, e, sent, k, OutcomeView::Silent) == s.silenced(k)
            &&& scene_after(s, e, sent, k, OutcomeView::Failed) == (if wanted {
                (Scene { status: Status::ExportFailed, ..s }).failed(sent, k)
            } else {
                s.failed(sent, k)
            })
            &&& scene_after(s, None, sent, k, OutcomeView::Failed) == s.failed(sent, k)
            &&& scene_after(s, None, sent, k, spoken) == s.received(sent as int, k, v)
        }),
{
    if exists|j: int| 0 <= j < keys.len() && #[trigger] keys[j] == k {
        let j = choose|j: int| 0 <= j < keys.len() && #[trigger] keys[j] == k;
        assert(keys.to_set().contains(keys[j]));
    }
    if keys.to_set().contains(k) {
        assert(keys.contains(k));
        let j = choose|j: int| 0 <= j < keys.len() && keys[j] == k;
        assert(keys[j] == k);
    }
}

/// An export waits as long as some sentence has neither audio nor is known to have none.
pub proof fn lemma_export_waits(
    keys: Seq<KeyView>,
    done: Map<KeyView, Clip>,
    unspeakable: Set<KeyView>,
)
    ensures
        count_settled(keys.to_set(), done, unspeakable) < keys.to_set().len() <==> exists|i: int|
            0 <= i < keys.len() && !done.contains_key(#[trigger] keys[i]) && !unspeakable.contains(
                keys[i],
            ),
{
    lemma_over_when_all_settled(keys, done, unspeakable);
    if exists|i: int|
        0 <= i < keys.len() && !done.contains_key(#[trigger] keys[i]) && !unspeakable.contains(
            keys[i],
        ) {
        let i = choose|i: int|
            0 <= i < keys.len() && !done.contains_key(#[trigger] keys[i])
                && !unspeakable.contains(keys[i]);
        assert(!settled(done, unspeakable, keys[i]));
    }
}

/// Sentences are counted one by one: one that is done counts as done, and one that is done
/// or has nothing to say as settled.
pub proof fn lemma_sentences_are_counted(
    set: Set<KeyView>,
    k: KeyView,
    done: Map<KeyView, Clip>,
    unspeakable: Set<KeyView>,
)
    requires
        set.finite(),
        !set.contains(k),
    ensures
        count_done(Set::empty(), done) == 0,
        count_settled(Set::empty(), done, unspeakable) == 0,
        count_done(set.insert(k), done) == count_done(set, done) + (if done.contains_key(k) {
            1nat
        } else {
            0nat
        }),
        count_settled(set.insert(k), done, unspeakable) == count_settled(set, done, unspeakable)
            + (if done.contains_key(k) || unspeakable.contains(k) {
            1nat
        } else {
            0nat
        }),
{
    lemma_one_more(set, k, |x: KeyView| done.contains_key(x));
    lemma_one_more(set, k, |x: KeyView| settled(done, unspeakable, x));
}

proof fn lemma_one_more(set: Set<KeyView>, k: KeyView, keep: spec_fn(KeyView) -> bool)
    requires
        set.finite(),
        !set.contains(k),
    ensures
        Set::<KeyView>::empty().filter(keep).len() == 0,
        set.insert(k).filter(keep).len() == set.filter(keep).len() + (if keep(k) {
            1nat
        } else {
            0nat
        }),
{
    let none = Set::<KeyView>::empty();
    assert(none.filter(keep) =~= none);
    assert(set.filter(keep).finite()) by {
        assert(set.filter(keep).subset_of(set));
        vstd::set_lib::lemma_set_subset_finite(set, set.filter(keep));
    }
    if keep(k) {
        assert(set.insert(k).filter(keep) =~= set.filter(keep).insert(k));
    } else {
        assert(set.insert(k).filter(keep) =~= set.filter(keep));
    }
}

} // verus!
