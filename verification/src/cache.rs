//! What has been synthesized: keys, sets of keys, and the cache of sentence audio.

use crate::audio::Clip;
use crate::text::same_text;
use vstd::prelude::*;

verus! {

/// How many sentences stay in the cache.
pub const CACHE_CAP: usize = 384;

/// What makes the audio of a sentence: the voice, the speed in hundredths, the text.
#[derive(Debug)]
pub struct Key {
    pub voice: String,
    pub speed100: u32,
    pub text: String,
}

/// What makes the audio of a sentence.
pub struct KeyView {
    pub voice: Seq<char>,
    pub speed100: u32,
    pub text: Seq<char>,
}

impl View for Key {
    type V = KeyView;

    open spec fn view(&self) -> KeyView {
        KeyView { voice: self.voice@, speed100: self.speed100, text: self.text@ }
    }
}

impl Key {
    /// The same key once more.
    pub fn copy(&self) -> (k: Key)
        ensures
            k@ == self@,
    {
        Key { voice: self.voice.clone(), speed100: self.speed100, text: self.text.clone() }
    }

    /// Do two keys stand for the same audio?
    pub fn same(&self, other: &Key) -> (b: bool)
        ensures
            b == (self@ == other@),
    {
        self.speed100 == other.speed100 && same_text(self.voice.as_str(), other.voice.as_str())
            && same_text(self.text.as_str(), other.text.as_str())
    }
}

/// What a list of keys stands for.
pub open spec fn key_views(k: Seq<Key>) -> Seq<KeyView> {
    k.map_values(|x: Key| x@)
}

/// A set of keys.
#[derive(Debug)]
pub struct KeySet {
    keys: Vec<Key>,
}

impl View for KeySet {
    type V = Set<KeyView>;

    closed spec fn view(&self) -> Set<KeyView> {
        key_views(self.keys@).to_set()
    }
}

impl KeySet {
    /// No key is held twice.
    pub closed spec fn wf(&self) -> bool {
        key_views(self.keys@).no_duplicates()
    }

    pub fn new() -> (s: KeySet)
        ensures
            s.wf(),
            s@ == Set::<KeyView>::empty(),
    {
        let s = KeySet { keys: Vec::new() };
        assert(s@ =~= Set::<KeyView>::empty());
        s
    }

    fn place(&self, key: &Key) -> (r: Option<usize>)
        ensures
            match r {
                Some(i) => i < self.keys.len() && self.keys@[i as int]@ == key@,
                None => !self@.contains(key@),
            },
            r is Some ==> self@.contains(key@),
    {
        let mut i: usize = 0;
        while i < self.keys.len()
            invariant
                i <= self.keys.len(),
                forall|k: int| 0 <= k < i ==> (#[trigger] self.keys@[k])@ != key@,
            decreases self.keys.len() - i,
        {
            if self.keys[i].same(key) {
                assert(key_views(self.keys@)[i as int] == key@);
                return Some(i);
            }
            i += 1;
        }
        assert(!self@.contains(key@)) by {
            let v = key_views(self.keys@);
            if v.contains(key@) {
                let k = choose|k: int| 0 <= k < v.len() && v[k] == key@;
                assert(self.keys@[k]@ == key@);
            }
        }
        None
    }

    pub fn contains(&self, key: &Key) -> (b: bool)
        ensures
            b == self@.contains(key@),
    {
        match self.place(key) {
            Some(_) => true,
            None => false,
        }
    }

    pub fn insert(&mut self, key: Key)
        requires
            old(self).wf(),
        ensures
            final(self).wf(),
            final(self)@ == old(self)@.insert(key@),
    {
        if !self.contains(&key) {
            let ghost before = key_views(self.keys@);
            self.keys.push(key);
            let ghost now = key_views(self.keys@);
            assert(now =~= before.push(key@));
            proof {
                assert(!before.contains(key@));
                assert forall|k: KeyView| #[trigger] now.to_set().contains(k)
                    <==> before.to_set().insert(key@).contains(k) by {
                    lemma_push_contains(before, key@, k);
                }
                assert(now.to_set() =~= before.to_set().insert(key@));
            }
        } else {
            assert(self@.insert(key@) =~= self@);
        }
    }

    pub fn remove(&mut self, key: &Key)
        requires
            old(self).wf(),
        ensures
            final(self).wf(),
            final(self)@ == old(self)@.remove(key@),
    {
        match self.place(key) {
            Some(i) => {
                let ghost before = key_views(self.keys@);
                let _gone = self.keys.remove(i);
                let ghost now = key_views(self.keys@);
                proof {
                    assert(now =~= before.remove(i as int));
                    assert(now.no_duplicates()) by {
                        assert forall|a: int, b: int|
                            0 <= a < now.len() && 0 <= b < now.len() && a != b implies now[a]
                            != now[b] by {
                            let x = if a < i { a } else { a + 1 };
                            let y = if b < i { b } else { b + 1 };
                            assert(now[a] == before[x]);
                            assert(now[b] == before[y]);
                        }
                    }
                    assert forall|k: KeyView| #[trigger] now.to_set().contains(k)
                        <==> before.to_set().remove(key@).contains(k) by {
                        lemma_remove_contains(before, i as int, k);
                    }
                    assert(now.to_set() =~= before.to_set().remove(key@));
                }
            },
            None => {
                assert(self@.remove(key@) =~= self@);
            },
        }
    }

    pub fn clear(&mut self)
        ensures
            final(self).wf(),
            final(self)@ == Set::<KeyView>::empty(),
    {
        self.keys = Vec::new();
        assert(self@ =~= Set::<KeyView>::empty());
    }

    /// How many keys there are.
    pub fn len(&self) -> (n: usize)
        requires
            self.wf(),
        ensures
            self@.finite(),
            n == self@.len(),
    {
        proof {
            let v = key_views(self.keys@);
            v.unique_seq_to_set();
            vstd::seq_lib::seq_to_set_is_finite(v);
        }
        self.keys.len()
    }

    /// The `i`th key, in no order that matters.
    pub fn get(&self, i: usize) -> (k: &Key)
        requires
            self.wf(),
            i < self@.len(),
        ensures
            self@.contains(k@),
            k@ == self.listed()[i as int],
    {
        proof {
            let v = key_views(self.keys@);
            v.unique_seq_to_set();
            assert(v[i as int] == self.keys@[i as int]@);
        }
        &self.keys[i]
    }

    /// The keys in the order `get` hands them out.
    pub closed spec fn listed(&self) -> Seq<KeyView> {
        key_views(self.keys@)
    }

    /// The listing holds every key once.
    pub proof fn lemma_listed(&self)
        requires
            self.wf(),
        ensures
            self.listed().no_duplicates(),
            self.listed().to_set() == self@,
            self.listed().len() == self@.len(),
            self@.finite(),
    {
        let v = key_views(self.keys@);
        v.unique_seq_to_set();
        vstd::seq_lib::seq_to_set_is_finite(v);
    }
}

proof fn lemma_push_contains(s: Seq<KeyView>, x: KeyView, k: KeyView)
    ensures
        s.push(x).contains(k) <==> s.contains(k) || k == x,
{
    if s.contains(k) {
        let i = choose|i: int| 0 <= i < s.len() && s[i] == k;
        assert(s.push(x)[i] == k);
    }
    if k == x {
        assert(s.push(x)[s.len() as int] == k);
    }
    if s.push(x).contains(k) && k != x {
        let i = choose|i: int| 0 <= i < s.push(x).len() && s.push(x)[i] == k;
        assert(s[i] == k);
    }
}

proof fn lemma_remove_contains(s: Seq<KeyView>, i: int, k: KeyView)
    requires
        0 <= i < s.len(),
        s.no_duplicates(),
    ensures
        s.remove(i).contains(k) <==> s.contains(k) && k != s[i],
{
    let t = s.remove(i);
    if t.contains(k) {
        let j = choose|j: int| 0 <= j < t.len() && t[j] == k;
        let q = if j < i { j } else { j + 1 };
        assert(s[q] == k);
    }
    if s.contains(k) && k != s[i] {
        let j = choose|j: int| 0 <= j < s.len() && s[j] == k;
        let q = if j < i { j } else { j - 1 };
        assert(t[q] == k);
    }
}

/// The audio of a sentence: the samples, and where each of its words begins among
/// them.
#[derive(Debug)]
pub struct Spoken {
    pub clip: Clip,
    pub starts: Vec<u32>,
}

/// The audio of a sentence.
pub struct SpokenView {
    pub clip: Clip,
    pub starts: Seq<u32>,
}

impl View for Spoken {
    type V = SpokenView;

    open spec fn view(&self) -> SpokenView {
        SpokenView { clip: self.clip, starts: self.starts@ }
    }
}

/// What a cache holds, from the entry used longest ago to the one used last.
pub open spec fn entry_views(e: Seq<(Key, Spoken)>) -> Seq<(KeyView, SpokenView)> {
    e.map_values(|x: (Key, Spoken)| (x.0@, x.1@))
}

/// Where a key stands in a cache.
pub open spec fn has_at(c: Seq<(KeyView, SpokenView)>, k: KeyView, i: int) -> bool {
    0 <= i < c.len() && c[i].0 == k
}

/// Does a cache hold a key?
pub open spec fn has_key(c: Seq<(KeyView, SpokenView)>, k: KeyView) -> bool {
    exists|i: int| has_at(c, k, i)
}

/// What a cache holds under a key.
pub open spec fn held(c: Seq<(KeyView, SpokenView)>, k: KeyView) -> SpokenView {
    c[choose|i: int| has_at(c, k, i)].1
}

/// A cache without a key.
pub open spec fn without_key(c: Seq<(KeyView, SpokenView)>, k: KeyView) -> Seq<
    (KeyView, SpokenView),
> {
    c.filter(other_key(k))
}

pub open spec fn other_key(k: KeyView) -> spec_fn((KeyView, SpokenView)) -> bool {
    |e: (KeyView, SpokenView)| e.0 != k
}

/// A cache after a key was used.
pub open spec fn used(c: Seq<(KeyView, SpokenView)>, k: KeyView) -> Seq<(KeyView, SpokenView)> {
    if has_key(c, k) {
        without_key(c, k).push((k, held(c, k)))
    } else {
        c
    }
}

/// A cache after audio was put in: it is the entry used last, and where that makes
/// one too many, the entry used longest ago is gone.
pub open spec fn stored(c: Seq<(KeyView, SpokenView)>, k: KeyView, v: SpokenView) -> Seq<
    (KeyView, SpokenView),
> {
    let all = without_key(c, k).push((k, v));
    if all.len() > CACHE_CAP {
        all.drop_first()
    } else {
        all
    }
}

/// No key stands in a cache twice, and it is not over its capacity.
pub open spec fn is_cache(c: Seq<(KeyView, SpokenView)>) -> bool {
    &&& c.len() <= CACHE_CAP
    &&& forall|i: int, j: int|
        0 <= i < j < c.len() ==> (#[trigger] c[i]).0 != (#[trigger] c[j]).0
}

/// The cache of sentence audio, least recently used first.
#[derive(Debug)]
pub struct Lru {
    entries: Vec<(Key, Spoken)>,
}

impl View for Lru {
    type V = Seq<(KeyView, SpokenView)>;

    closed spec fn view(&self) -> Seq<(KeyView, SpokenView)> {
        entry_views(self.entries@)
    }
}

proof fn lemma_without_absent(c: Seq<(KeyView, SpokenView)>, k: KeyView)
    requires
        !has_key(c, k),
    ensures
        without_key(c, k) == c,
{
    assert forall|i: int| 0 <= i < c.len() implies other_key(k)(#[trigger] c[i]) by {
        if c[i].0 == k {
            assert(has_at(c, k, i));
        }
    }
    crate::seqs::lemma_all_kept(c, other_key(k));
}

/// In a cache, taking out the entry at its place is all it takes to drop a key.
proof fn lemma_without_at(c: Seq<(KeyView, SpokenView)>, k: KeyView, i: int)
    requires
        is_cache(c),
        has_at(c, k, i),
    ensures
        without_key(c, k) == c.remove(i),
        held(c, k) == c[i].1,
        without_key(c, k).len() == c.len() - 1,
        !has_key(without_key(c, k), k),
    decreases c.len(),
{
    let j = choose|j: int| has_at(c, k, j);
    assert(has_at(c, k, j));
    assert(j == i) by {
        if j < i {
            assert(c[j].0 != c[i].0);
        } else if i < j {
            assert(c[i].0 != c[j].0);
        }
    }
    let keep = other_key(k);
    let head = c.take(i);
    let tail = c.skip(i + 1);
    assert(c =~= head + seq![c[i]] + tail);
    crate::seqs::lemma_filter_append(head, seq![c[i]], keep);
    crate::seqs::lemma_filter_append(head + seq![c[i]], tail, keep);
    assert forall|q: int| 0 <= q < head.len() implies keep(#[trigger] head[q]) by {
        assert(head[q] == c[q]);
        assert(c[q].0 != c[i].0);
    }
    assert forall|q: int| 0 <= q < tail.len() implies keep(#[trigger] tail[q]) by {
        assert(tail[q] == c[i + 1 + q]);
        assert(c[i].0 != c[i + 1 + q].0);
    }
    crate::seqs::lemma_all_kept(head, keep);
    crate::seqs::lemma_all_kept(tail, keep);
    assert(seq![c[i]].filter(keep) =~= Seq::empty()) by {
        reveal_with_fuel(Seq::filter, 2);
        assert(seq![c[i]].drop_last() =~= Seq::empty());
    }
    assert(without_key(c, k) =~= c.remove(i));
    let w = c.remove(i);
    assert forall|q: int| !has_at(w, k, q) by {
        if 0 <= q < w.len() {
            if q < i {
                assert(w[q] == c[q]);
                assert(c[q].0 != c[i].0);
            } else {
                assert(w[q] == c[q + 1]);
                assert(c[i].0 != c[q + 1].0);
            }
        }
    }
}

impl Lru {
    pub open spec fn wf(&self) -> bool {
        is_cache(self@)
    }

    pub fn new() -> (c: Lru)
        ensures
            c.wf(),
            c@ == Seq::<(KeyView, SpokenView)>::empty(),
    {
        let c = Lru { entries: Vec::new() };
        assert(c@ =~= Seq::<(KeyView, SpokenView)>::empty());
        c
    }

    fn place(&self, k: &Key) -> (r: Option<usize>)
        ensures
            match r {
                Some(i) => i < self.entries.len() && has_at(self@, k@, i as int),
                None => !has_key(self@, k@),
            },
    {
        let mut i: usize = 0;
        while i < self.entries.len()
            invariant
                i <= self.entries.len(),
                forall|j: int| 0 <= j < i ==> !has_at(self@, k@, j),
            decreases self.entries.len() - i,
        {
            assert(self@[i as int].0 == self.entries@[i as int].0@);
            if self.entries[i].0.same(k) {
                return Some(i);
            }
            i += 1;
        }
        assert(self@.len() == self.entries.len());
        None
    }

    /// Is there audio for a key? Asking does not count as using it.
    pub fn contains_key(&self, k: &Key) -> (b: bool)
        ensures
            b == has_key(self@, k@),
    {
        match self.place(k) {
            Some(_) => true,
            None => false,
        }
    }

    /// The audio for a key, which is now the entry used last.
    pub fn get(&mut self, k: &Key) -> (r: Option<&Spoken>)
        requires
            old(self).wf(),
        ensures
            final(self).wf(),
            final(self)@ == used(old(self)@, k@),
            r is Some <==> has_key(old(self)@, k@),
            r is Some ==> r->0@ == held(old(self)@, k@),
    {
        match self.place(k) {
            None => None,
            Some(i) => {
                let ghost c = self@;
                let entry = self.entries.remove(i);
                let ghost e = (entry.0@, entry.1@);
                proof {
                    lemma_without_at(c, k@, i as int);
                    assert(entry_views(self.entries@) =~= c.remove(i as int));
                    assert(e == c[i as int]);
                }
                self.entries.push(entry);
                proof {
                    assert(self@ =~= c.remove(i as int).push(e));
                    lemma_put_back(c, k@, i as int, e);
                }
                let last: usize = self.entries.len() - 1;
                assert(self@[last as int] == e);
                Some(&self.entries[last].1)
            },
        }
    }

    /// Keep the audio for a key.
    pub fn put(&mut self, k: Key, v: Spoken)
        requires
            old(self).wf(),
        ensures
            final(self).wf(),
            final(self)@ == stored(old(self)@, k@, v@),
            has_key(final(self)@, k@),
    {
        let ghost c = self@;
        let ghost e = (k@, v@);
        match self.place(&k) {
            Some(i) => {
                let _old_entry = self.entries.remove(i);
                proof {
                    lemma_without_at(c, k@, i as int);
                    assert(entry_views(self.entries@) =~= c.remove(i as int));
                    lemma_put_back(c, k@, i as int, e);
                }
            },
            None => {
                proof {
                    lemma_without_absent(c, k@);
                    lemma_put_new(c, k@, e);
                }
            },
        }
        let ghost rest = self@;
        assert(rest =~= without_key(c, k@));
        self.entries.push((k, v));
        assert(self@ =~= rest.push(e));
        if self.entries.len() > CACHE_CAP {
            let ghost all = self@;
            let _oldest = self.entries.remove(0);
            assert(self@ =~= all.drop_first());
            assert forall|i: int, j: int| 0 <= i < j < self@.len() implies (
            #[trigger] self@[i]).0 != (#[trigger] self@[j]).0 by {
                assert(self@[i] == all[i + 1]);
                assert(self@[j] == all[j + 1]);
            }
        }
        assert(self@.len() == self.entries.len());
        assert(self@.last() == e);
        assert(has_at(self@, e.0, self@.len() - 1));
    }
}

proof fn lemma_put_back(
    c: Seq<(KeyView, SpokenView)>,
    k: KeyView,
    i: int,
    e: (KeyView, SpokenView),
)
    requires
        is_cache(c),
        has_at(c, k, i),
        e.0 == k,
    ensures
        is_cache(c.remove(i).push(e)),
{
    let w = c.remove(i).push(e);
    assert forall|a: int, b: int| 0 <= a < b < w.len() implies (#[trigger] w[a]).0 != (
    #[trigger] w[b]).0 by {
        let x = if a < i { a } else { a + 1 };
        assert(w[a] == c[x]);
        if b < w.len() - 1 {
            let y = if b < i { b } else { b + 1 };
            assert(w[b] == c[y]);
        } else if x < i {
            assert(c[x].0 != c[i].0);
        } else {
            assert(c[i].0 != c[x].0);
        }
    }
}

proof fn lemma_put_new(c: Seq<(KeyView, SpokenView)>, k: KeyView, e: (KeyView, SpokenView))
    requires
        is_cache(c),
        !has_key(c, k),
        e.0 == k,
    ensures
        forall|a: int, b: int|
            0 <= a < b < c.len() + 1 ==> (#[trigger] c.push(e)[a]).0 != (#[trigger] c.push(
                e,
            )[b]).0,
{
    assert forall|a: int, b: int| 0 <= a < b < c.len() + 1 implies (
    #[trigger] c.push(e)[a]).0 != (#[trigger] c.push(e)[b]).0 by {
        if b == c.len() {
            if c[a].0 == k {
                assert(has_at(c, k, a));
            }
        }
    }
}

/// What was put in is found, until so many others were put in or used after it that
/// it is the oldest of a full cache: putting in one key drops no other but the one
/// used longest ago.
pub proof fn lemma_cache_keeps(c: Seq<(KeyView, SpokenView)>, k: KeyView, v: SpokenView, j: int)
    requires
        is_cache(c),
        !has_key(c, k),
    ensures
        has_key(stored(c, k, v), k),
        held(stored(c, k, v), k) == v,
        (0 < j < c.len() || (j == 0 && 0 < c.len() < CACHE_CAP)) ==> has_key(stored(c, k, v), c[j].0)
            && held(stored(c, k, v), c[j].0) == c[j].1,
{
    let e = (k, v);
    let s = stored(c, k, v);
    lemma_without_absent(c, k);
    lemma_put_new(c, k, e);
    let all = c.push(e);
    let shift: int = if all.len() > CACHE_CAP { 1 } else { 0 };
    assert forall|a: int, b: int| 0 <= a < b < s.len() implies (#[trigger] s[a]).0 != (
    #[trigger] s[b]).0 by {
        assert(s[a] == all[a + shift]);
        assert(s[b] == all[b + shift]);
    }
    assert(s[s.len() - 1] == e);
    assert(has_at(s, k, s.len() - 1));
    lemma_held_at(s, k, s.len() - 1);
    if 0 < j < c.len() || (j == 0 && 0 < c.len() < CACHE_CAP) {
        assert(s[j - shift] == c[j]);
        assert(has_at(s, c[j].0, j - shift));
        lemma_held_at(s, c[j].0, j - shift);
    }
}

/// What is put in is what is found, and the cache stays one.
pub proof fn lemma_put_is_found(c: Seq<(KeyView, SpokenView)>, k: KeyView, v: SpokenView)
    requires
        is_cache(c),
    ensures
        is_cache(stored(c, k, v)),
        has_key(stored(c, k, v), k),
        held(stored(c, k, v), k) == v,
{
    let e = (k, v);
    if has_key(c, k) {
        let i = choose|i: int| has_at(c, k, i);
        lemma_without_at(c, k, i);
        lemma_put_back(c, k, i, e);
        let s = c.remove(i).push(e);
        assert(stored(c, k, v) == s);
        assert(has_at(s, k, s.len() - 1));
        lemma_held_at(s, k, s.len() - 1);
    } else {
        lemma_cache_keeps(c, k, v, 0);
        lemma_without_absent(c, k);
        lemma_put_new(c, k, e);
        let s = stored(c, k, v);
        assert forall|a: int, b: int| 0 <= a < b < s.len() implies (#[trigger] s[a]).0 != (
        #[trigger] s[b]).0 by {
            let d = c.push(e).len() - s.len();
            assert(s[a] == c.push(e)[a + d] && s[b] == c.push(e)[b + d]);
        }
    }
}

/// Looking something up changes only what was used last, not what is found.
pub proof fn lemma_use_keeps_all(c: Seq<(KeyView, SpokenView)>, k: KeyView, x: KeyView)
    requires
        is_cache(c),
    ensures
        is_cache(used(c, k)),
        has_key(used(c, k), x) <==> has_key(c, x),
        has_key(c, x) ==> held(used(c, k), x) == held(c, x),
{
    if has_key(c, k) {
        let i = choose|i: int| has_at(c, k, i);
        lemma_without_at(c, k, i);
        let e = (k, held(c, k));
        lemma_put_back(c, k, i, e);
        let u = c.remove(i).push(e);
        assert(used(c, k) == u);
        if has_key(c, x) {
            let j = choose|j: int| has_at(c, x, j);
            lemma_held_at(c, x, j);
            let q = if j < i {
                j
            } else if j == i {
                u.len() - 1
            } else {
                j - 1
            };
            assert(u[q].0 == x && u[q].1 == c[j].1);
            assert(has_at(u, x, q));
            lemma_held_at(u, x, q);
        }
        if has_key(u, x) {
            let q = choose|q: int| has_at(u, x, q);
            let j = if q == u.len() - 1 {
                i
            } else if q < i {
                q
            } else {
                q + 1
            };
            assert(has_at(c, x, j));
        }
    }
}

proof fn lemma_held_at(c: Seq<(KeyView, SpokenView)>, k: KeyView, i: int)
    requires
        has_at(c, k, i),
        forall|a: int, b: int|
            0 <= a < b < c.len() ==> (#[trigger] c[a]).0 != (#[trigger] c[b]).0,
    ensures
        held(c, k) == c[i].1,
{
    let j = choose|j: int| has_at(c, k, j);
    assert(has_at(c, k, j));
    if j < i {
        assert(c[j].0 != c[i].0);
    } else if i < j {
        assert(c[i].0 != c[j].0);
    }
}

/// A request to synthesize a sentence.
#[derive(Debug)]
pub struct Req {
    pub epoch: u64,
    pub sent: u32,
    pub key: Key,
    /// Wanted whatever happens since: an export's request.
    pub keep: bool,
}

/// A request to synthesize a sentence.
pub struct ReqView {
    pub epoch: u64,
    pub sent: u32,
    pub key: KeyView,
    pub keep: bool,
}

impl View for Req {
    type V = ReqView;

    open spec fn view(&self) -> ReqView {
        ReqView { epoch: self.epoch, sent: self.sent, key: self.key@, keep: self.keep }
    }
}

/// Was a request overtaken before its turn came?
pub fn superseded(req: &Req, live_epoch: u64) -> (b: bool)
    ensures
        b == (!req.keep && req.epoch < live_epoch),
{
    !req.keep && req.epoch < live_epoch
}

/// Putting audio in a cache: it comes last, in place of what stood under its key; a new key
/// drops the first entry where there are 384 already, and all else stays in order.
pub proof fn lemma_put_in_order(c: Seq<(KeyView, SpokenView)>, k: KeyView, v: SpokenView, i: int)
    requires
        c.len() <= 384,
        forall|a: int, b: int| 0 <= a < b < c.len() ==> (#[trigger] c[a]).0 != (#[trigger] c[b]).0,
    ensures
        0 <= i < c.len() && c[i].0 == k ==> stored(c, k, v) == c.remove(i).push((k, v)),
        (forall|j: int| 0 <= j < c.len() ==> (#[trigger] c[j]).0 != k) ==> stored(c, k, v) == (
        if c.len() < 384 {
            c
        } else {
            c.drop_first()
        }).push((k, v)),
{
    if 0 <= i < c.len() && c[i].0 == k {
        assert(has_at(c, k, i));
        lemma_without_at(c, k, i);
    }
    if forall|j: int| 0 <= j < c.len() ==> (#[trigger] c[j]).0 != k {
        if has_key(c, k) {
            let j = choose|j: int| has_at(c, k, j);
            assert(c[j].0 != k);
        }
        lemma_without_absent(c, k);
        assert(c.len() >= 384 ==> c.push((k, v)).drop_first() =~= c.drop_first().push((k, v)));
    }
}

/// Looking a key up in a cache: what stands under it is found and comes last; of a key that
/// is not there nothing is found, and nothing changes.
pub proof fn lemma_use_in_order(c: Seq<(KeyView, SpokenView)>, k: KeyView, i: int)
    requires
        c.len() <= 384,
        forall|a: int, b: int| 0 <= a < b < c.len() ==> (#[trigger] c[a]).0 != (#[trigger] c[b]).0,
    ensures
        0 <= i < c.len() && c[i].0 == k ==> has_key(c, k) && held(c, k) == c[i].1 && used(c, k)
            == c.remove(i).push(c[i]),
        (forall|j: int| 0 <= j < c.len() ==> (#[trigger] c[j]).0 != k) ==> !has_key(c, k) && used(
            c,
            k,
        ) == c,
{
    if 0 <= i < c.len() && c[i].0 == k {
        assert(has_at(c, k, i));
        lemma_without_at(c, k, i);
        assert(c[i] == (k, c[i].1));
    }
    if forall|j: int| 0 <= j < c.len() ==> (#[trigger] c[j]).0 != k {
        if has_key(c, k) {
            let j = choose|j: int| has_at(c, k, j);
            assert(c[j].0 != k);
        }
    }
}

} // verus!
