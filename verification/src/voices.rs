//! The voices: which there are, what they are called, and how they are made.

use crate::distance::{distance, lemma_distance_zero, levenshtein};
use crate::text::{chars_of, find, first_at, push_all, same_text, slice_of, string_of};
use vstd::prelude::*;
use vstd::utf8::encode_utf8;

verus! {

/// How many voices can be picked.
pub const VOICES: usize = 29;

/// The voice to speak with when none is asked for.
pub const DEFAULT_VOICE: &'static str = "am_michael";

/// The group of voices that are blends of others.
pub const CUSTOM_GROUP: &'static str = "Custom";

/// The `k`th voice of the picker, and the group it stands in.
pub open spec fn voice(k: int) -> (Seq<char>, Seq<char>) {
    if k == 0 {
        ("chad"@, "Custom"@)
    } else if k == 1 {
        ("am_michael"@, "US male"@)
    } else if k == 2 {
        ("am_fenrir"@, "US male"@)
    } else if k == 3 {
        ("am_puck"@, "US male"@)
    } else if k == 4 {
        ("am_echo"@, "US male"@)
    } else if k == 5 {
        ("am_eric"@, "US male"@)
    } else if k == 6 {
        ("am_liam"@, "US male"@)
    } else if k == 7 {
        ("am_onyx"@, "US male"@)
    } else if k == 8 {
        ("am_adam"@, "US male"@)
    } else if k == 9 {
        ("am_santa"@, "US male"@)
    } else if k == 10 {
        ("bm_george"@, "UK male"@)
    } else if k == 11 {
        ("bm_fable"@, "UK male"@)
    } else if k == 12 {
        ("bm_lewis"@, "UK male"@)
    } else if k == 13 {
        ("bm_daniel"@, "UK male"@)
    } else if k == 14 {
        ("af_heart"@, "US female"@)
    } else if k == 15 {
        ("af_bella"@, "US female"@)
    } else if k == 16 {
        ("af_nicole"@, "US female"@)
    } else if k == 17 {
        ("af_aoede"@, "US female"@)
    } else if k == 18 {
        ("af_kore"@, "US female"@)
    } else if k == 19 {
        ("af_sarah"@, "US female"@)
    } else if k == 20 {
        ("af_nova"@, "US female"@)
    } else if k == 21 {
        ("af_alloy"@, "US female"@)
    } else if k == 22 {
        ("af_sky"@, "US female"@)
    } else if k == 23 {
        ("af_jessica"@, "US female"@)
    } else if k == 24 {
        ("af_river"@, "US female"@)
    } else if k == 25 {
        ("bf_emma"@, "UK female"@)
    } else if k == 26 {
        ("bf_isabella"@, "UK female"@)
    } else if k == 27 {
        ("bf_alice"@, "UK female"@)
    } else {
        ("bf_lily"@, "UK female"@)
    }
}

/// The `k`th voice of the picker, and the group it stands in.
pub fn voice_at(k: usize) -> (r: (&'static str, &'static str))
    ensures
        (r.0@, r.1@) == voice(k as int),
{
    match k {
        0 => ("chad", "Custom"),
        1 => ("am_michael", "US male"),
        2 => ("am_fenrir", "US male"),
        3 => ("am_puck", "US male"),
        4 => ("am_echo", "US male"),
        5 => ("am_eric", "US male"),
        6 => ("am_liam", "US male"),
        7 => ("am_onyx", "US male"),
        8 => ("am_adam", "US male"),
        9 => ("am_santa", "US male"),
        10 => ("bm_george", "UK male"),
        11 => ("bm_fable", "UK male"),
        12 => ("bm_lewis", "UK male"),
        13 => ("bm_daniel", "UK male"),
        14 => ("af_heart", "US female"),
        15 => ("af_bella", "US female"),
        16 => ("af_nicole", "US female"),
        17 => ("af_aoede", "US female"),
        18 => ("af_kore", "US female"),
        19 => ("af_sarah", "US female"),
        20 => ("af_nova", "US female"),
        21 => ("af_alloy", "US female"),
        22 => ("af_sky", "US female"),
        23 => ("af_jessica", "US female"),
        24 => ("af_river", "US female"),
        25 => ("bf_emma", "UK female"),
        26 => ("bf_isabella", "UK female"),
        27 => ("bf_alice", "UK female"),
        _ => ("bf_lily", "UK female"),
    }
}

/// Every voice id, in picker order.
pub fn voice_ids() -> (r: Vec<&'static str>)
    ensures
        r.len() == VOICES,
        forall|k: int| 0 <= k < VOICES ==> (#[trigger] r@[k])@ == voice(k).0,
{
    let mut r: Vec<&'static str> = Vec::new();
    let mut k: usize = 0;
    while k < VOICES
        invariant
            k <= VOICES,
            r.len() == k,
            forall|j: int| 0 <= j < k ==> (#[trigger] r@[j])@ == voice(j).0,
        decreases VOICES - k,
    {
        let (id, _) = voice_at(k);
        r.push(id);
        k += 1;
    }
    r
}

/// The `k`th voice as the list of voices shows it: below its group's name where that
/// is another than before, and the default one marked.
pub open spec fn listed(k: int) -> Seq<char> {
    let (id, group) = voice(k);
    (if k == 0 || voice(k - 1).1 != group {
        group + seq![':', '\n']
    } else {
        Seq::empty()
    }) + seq![' ', ' '] + id + (if id == DEFAULT_VOICE@ {
        " (default)"@
    } else {
        Seq::empty()
    }) + seq!['\n']
}

/// The `k`th voice as the list of voices shows it.
pub fn listing_line(k: usize) -> (r: String)
    ensures
        r@ == listed(k as int),
{
    let (id, group) = voice_at(k);
    let mut out: Vec<char> = Vec::new();
    let other: bool = if k == 0 {
        true
    } else {
        let (_, before) = voice_at(k - 1);
        !same_text(before, group)
    };
    if other {
        let g = chars_of(group);
        push_all(&mut out, g.as_slice());
        out.push(':');
        out.push('\n');
    }
    out.push(' ');
    out.push(' ');
    let i = chars_of(id);
    push_all(&mut out, i.as_slice());
    if same_text(id, DEFAULT_VOICE) {
        let mark = chars_of(" (default)");
        push_all(&mut out, mark.as_slice());
    }
    out.push('\n');
    assert(out@ =~= listed(k as int));
    string_of(out.as_slice())
}

/// Is there a voice of that name?
pub open spec fn is_voice(name: Seq<char>) -> bool {
    exists|k: int| 0 <= k < VOICES && (#[trigger] voice(k)).0 == name
}

/// Where in the picker a voice stands.
pub fn voice_index(name: &str) -> (r: Option<usize>)
    ensures
        r is Some <==> is_voice(name@),
        r is Some ==> r->0 < VOICES && voice(r->0 as int).0 == name@ && forall|j: int|
            0 <= j < r->0 ==> (#[trigger] voice(j)).0 != name@,
{
    let mut k: usize = 0;
    while k < VOICES
        invariant
            k <= VOICES,
            forall|j: int| 0 <= j < k ==> (#[trigger] voice(j)).0 != name@,
        decreases VOICES - k,
    {
        let (id, _) = voice_at(k);
        if same_text(id, name) {
            assert(voice(k as int).0 == name@);
            return Some(k);
        }
        k += 1;
    }
    None
}

/// A name is close to a voice's if at most three edits lie between them.
pub open spec fn close(name: Seq<char>, k: int) -> bool {
    distance(voice(k).0, name) <= 3
}

/// The `k`th voice is the nearest to a name: none is closer, and none before it as
/// close.
pub open spec fn is_nearest(name: Seq<char>, k: int) -> bool {
    &&& 0 <= k < VOICES
    &&& close(name, k)
    &&& forall|j: int|
        0 <= j < VOICES ==> distance(voice(k).0, name) <= distance((#[trigger] voice(j)).0, name)
    &&& forall|j: int|
        0 <= j < k ==> distance(voice(k).0, name) < distance((#[trigger] voice(j)).0, name)
}

/// The known voice nearest to a name, if one is close.
pub fn nearest_voice(name: &str) -> (r: Option<&'static str>)
    ensures
        match r {
            Some(id) => exists|k: int| #[trigger] is_nearest(name@, k) && voice(k).0 == id@,
            None => forall|k: int| 0 <= k < VOICES ==> !(#[trigger] close(name@, k)),
        },
{
    let mut best: Option<(usize, usize)> = None;
    let mut k: usize = 0;
    while k < VOICES
        invariant
            k <= VOICES,
            match best {
                Some((d, b)) => {
                    &&& b < k
                    &&& d == distance(voice(b as int).0, name@)
                    &&& d <= 3
                    &&& forall|j: int|
                        0 <= j < k ==> d <= distance((#[trigger] voice(j)).0, name@)
                    &&& forall|j: int|
                        0 <= j < b ==> d < distance((#[trigger] voice(j)).0, name@)
                },
                None => forall|j: int| 0 <= j < k ==> !(#[trigger] close(name@, j)),
            },
        decreases VOICES - k,
    {
        let (id, _) = voice_at(k);
        let d: usize = levenshtein(id, name);
        let ghost was = best;
        let better: bool = match best {
            Some((b, _)) => d < b,
            None => d <= 3,
        };
        if better {
            best = Some((d, k));
            assert forall|j: int| 0 <= j < k implies d < distance(
                (#[trigger] voice(j)).0,
                name@,
            ) by {
                if was is None {
                    assert(!close(name@, j));
                }
            }
        }
        k += 1;
    }
    match best {
        Some((_, b)) => {
            assert(is_nearest(name@, b as int));
            let (id, _) = voice_at(b);
            Some(id)
        },
        None => None,
    }
}

/// A voice is its own nearest: what is spelled right is never corrected.
pub proof fn lemma_known_voice_is_nearest(name: Seq<char>, k: int)
    requires
        is_voice(name),
        is_nearest(name, k),
    ensures
        voice(k).0 == name,
{
    let j = choose|j: int| 0 <= j < VOICES && (#[trigger] voice(j)).0 == name;
    lemma_distance_zero(name, name);
    assert(distance(voice(k).0, name) <= distance(voice(j).0, name));
    lemma_distance_zero(voice(k).0, name);
}

/// What `char::to_uppercase` makes of a character.
pub uninterp spec fn capital(c: char) -> Seq<char>;

/// `char::to_uppercase` maps a character by tables of the standard library to one or
/// more characters, which are collected here; the result is named `capital`.
#[verifier::external_body]
fn capital_of(c: char) -> (r: String)
    ensures
        r@ == capital(c),
{
    c.to_uppercase().collect()
}

/// The name of a voice: what stands behind the first underscore of its id.
pub open spec fn bare_name(id: Seq<char>) -> Seq<char> {
    let at = first_at(id, seq!['_'], 0);
    if at < id.len() {
        id.skip(at + 1)
    } else {
        id
    }
}

/// What the picker shows for a voice, given what its first letter is as a capital.
pub open spec fn label(id: Seq<char>, group: Seq<char>, first: Seq<char>) -> Seq<char> {
    let name = bare_name(id);
    let cap = if name.len() == 0 {
        name
    } else {
        first + name.drop_first()
    };
    if group == CUSTOM_GROUP@ {
        cap
    } else {
        cap + seq![' ', '·', ' '] + group
    }
}

fn bare_name_of(id: &str) -> (name: Vec<char>)
    ensures
        name@ == bare_name(id@),
{
    let chars = chars_of(id);
    let under: [char; 1] = ['_'];
    assert(under@ =~= seq!['_']);
    let at: usize = find(chars.as_slice(), under.as_slice(), 0);
    let name = if at < chars.len() {
        slice_of(chars.as_slice(), at + 1, chars.len())
    } else {
        slice_of(chars.as_slice(), 0, chars.len())
    };
    assert(name@ =~= bare_name(id@));
    name
}

/// What the picker shows for a voice.
pub fn voice_label(id: &str, group: &str) -> (r: String)
    ensures
        r@ == label(id@, group@, capital(bare_name(id@)[0])),
{
    let name = bare_name_of(id);
    let first = if name.len() == 0 {
        String::new()
    } else {
        capital_of(name[0])
    };
    let r = label_with(id, group, first.as_str());
    assert(name@.len() == 0 ==> label(id@, group@, first@) == label(
        id@,
        group@,
        capital(bare_name(id@)[0]),
    ));
    r
}

/// What the picker shows for a voice whose name's first letter is `first` as a
/// capital.
pub fn label_with(id: &str, group: &str, first: &str) -> (r: String)
    ensures
        r@ == label(id@, group@, first@),
{
    let name = bare_name_of(id);
    let mut out: Vec<char> = Vec::new();
    if name.len() > 0 {
        let cap = chars_of(first);
        push_all(&mut out, cap.as_slice());
        let rest = slice_of(name.as_slice(), 1, name.len());
        push_all(&mut out, rest.as_slice());
        assert(rest@ =~= name@.drop_first());
    }
    if !same_text(group, CUSTOM_GROUP) {
        out.push(' ');
        out.push('·');
        out.push(' ');
        let g = chars_of(group);
        push_all(&mut out, g.as_slice());
    }
    assert(out@ =~= label(id@, group@, first@));
    string_of(out.as_slice())
}

/// What the style of a voice is made of: voices and their weights in hundredths. A
/// voice that is no blend is made of itself.
pub open spec fn recipe(id: Seq<char>) -> Seq<(Seq<char>, u32)> {
    if id == "chad"@ {
        seq![("am_puck"@, 40u32), ("am_onyx"@, 60u32)]
    } else {
        seq![(id, 100u32)]
    }
}

/// What the style of a voice is made of.
pub fn style_parts(id: &str) -> (r: Vec<(String, u32)>)
    ensures
        r@.map_values(|p: (String, u32)| (p.0@, p.1)) == recipe(id@),
{
    let mut r: Vec<(String, u32)> = Vec::new();
    if same_text(id, "chad") {
        let puck = chars_of("am_puck");
        let onyx = chars_of("am_onyx");
        r.push((string_of(puck.as_slice()), 40));
        r.push((string_of(onyx.as_slice()), 60));
    } else {
        let own = chars_of(id);
        r.push((string_of(own.as_slice()), 100));
    }
    assert(r@.map_values(|p: (String, u32)| (p.0@, p.1)) =~= recipe(id@));
    r
}

/// The row of a style table for a number of tokens: the last one where there are
/// fewer rows.
pub fn style_row(n_tokens: usize, rows: usize) -> (r: usize)
    requires
        rows > 0,
    ensures
        r == (if n_tokens < rows {
            n_tokens as int
        } else {
            rows - 1
        }),
        r < rows,
{
    if n_tokens < rows {
        n_tokens
    } else {
        rows - 1
    }
}

/// The cutoff of the output's low-pass filter, in Hz: higher for a female voice,
/// which the second letter of an id tells.
pub fn lowpass_hz(voice: &str) -> (hz: u32)
    ensures
        hz == (if encode_utf8(voice@).len() > 1 && encode_utf8(voice@)[1] == 102u8 {
            11_000u32
        } else {
            8_000u32
        }),
{
    let bytes = voice.as_bytes();
    if bytes.len() > 1 && bytes[1] == 102u8 {
        11_000
    } else {
        8_000
    }
}

/// The voices of the picker, in order.
pub proof fn lemma_voices_in_order()
    ensures
        VOICES == 29,
        voice(0) == ("chad"@, "Custom"@),
        voice(1) == ("am_michael"@, "US male"@),
        voice(2) == ("am_fenrir"@, "US male"@),
        voice(3) == ("am_puck"@, "US male"@),
        voice(4) == ("am_echo"@, "US male"@),
        voice(5) == ("am_eric"@, "US male"@),
        voice(6) == ("am_liam"@, "US male"@),
        voice(7) == ("am_onyx"@, "US male"@),
        voice(8) == ("am_adam"@, "US male"@),
        voice(9) == ("am_santa"@, "US male"@),
        voice(10) == ("bm_george"@, "UK male"@),
        voice(11) == ("bm_fable"@, "UK male"@),
        voice(12) == ("bm_lewis"@, "UK male"@),
        voice(13) == ("bm_daniel"@, "UK male"@),
        voice(14) == ("af_heart"@, "US female"@),
        voice(15) == ("af_bella"@, "US female"@),
        voice(16) == ("af_nicole"@, "US female"@),
        voice(17) == ("af_aoede"@, "US female"@),
        voice(18) == ("af_kore"@, "US female"@),
        voice(19) == ("af_sarah"@, "US female"@),
        voice(20) == ("af_nova"@, "US female"@),
        voice(21) == ("af_alloy"@, "US female"@),
        voice(22) == ("af_sky"@, "US female"@),
        voice(23) == ("af_jessica"@, "US female"@),
        voice(24) == ("af_river"@, "US female"@),
        voice(25) == ("bf_emma"@, "UK female"@),
        voice(26) == ("bf_isabella"@, "UK female"@),
        voice(27) == ("bf_alice"@, "UK female"@),
        voice(28) == ("bf_lily"@, "UK female"@),
{
}

/// The id of a voice says its group: the first letter the country, the second whether the
/// voice is female or male. Blends have a group of their own, in front of the others.
pub proof fn lemma_id_says_group(k: int)
    requires
        0 <= k < 29,
    ensures
        k == 0 ==> voice(k).1 == "Custom"@,
        k > 0 ==> {
            let (id, group) = voice(k);
            &&& id.len() > 3 && id[2] == '_'
            &&& id[0] == 'a' || id[0] == 'b'
            &&& id[1] == 'f' || id[1] == 'm'
            &&& id[0] == 'a' && id[1] == 'm' ==> group == "US male"@
            &&& id[0] == 'b' && id[1] == 'm' ==> group == "UK male"@
            &&& id[0] == 'a' && id[1] == 'f' ==> group == "US female"@
            &&& id[0] == 'b' && id[1] == 'f' ==> group == "UK female"@
        },
{
    reveal_strlit("chad");
    reveal_strlit("am_michael");
    reveal_strlit("am_fenrir");
    reveal_strlit("am_puck");
    reveal_strlit("am_echo");
    reveal_strlit("am_eric");
    reveal_strlit("am_liam");
    reveal_strlit("am_onyx");
    reveal_strlit("am_adam");
    reveal_strlit("am_santa");
    reveal_strlit("bm_george");
    reveal_strlit("bm_fable");
    reveal_strlit("bm_lewis");
    reveal_strlit("bm_daniel");
    reveal_strlit("af_heart");
    reveal_strlit("af_bella");
    reveal_strlit("af_nicole");
    reveal_strlit("af_aoede");
    reveal_strlit("af_kore");
    reveal_strlit("af_sarah");
    reveal_strlit("af_nova");
    reveal_strlit("af_alloy");
    reveal_strlit("af_sky");
    reveal_strlit("af_jessica");
    reveal_strlit("af_river");
    reveal_strlit("bf_emma");
    reveal_strlit("bf_isabella");
    reveal_strlit("bf_alice");
    reveal_strlit("bf_lily");
}

/// The list shows each voice on a line of its own, below its group's name where the voice
/// before it is of another group; only `am_michael` is marked as the default.
pub proof fn lemma_list_of_voices(k: int)
    ensures
        ({
            let (id, group) = voice(k);
            let plain = seq![' ', ' '] + id;
            let end = if id == "am_michael"@ {
                " (default)"@ + seq!['\n']
            } else {
                seq!['\n']
            };
            &&& k > 0 && voice(k - 1).1 == group ==> listed(k) == plain + end
            &&& k == 0 || voice(k - 1).1 != group ==> listed(k) == group + seq![':', '\n'] + plain
                + end
        }),
{
    let (id, group) = voice(k);
    let plain = seq![' ', ' '] + id;
    if id == "am_michael"@ {
        let end = " (default)"@ + seq!['\n'];
        assert(k > 0 && voice(k - 1).1 == group ==> listed(k) =~= plain + end);
        assert(k == 0 || voice(k - 1).1 != group ==> listed(k) =~= group + seq![':', '\n'] + plain
            + end);
    } else {
        let end = seq!['\n'];
        assert(k > 0 && voice(k - 1).1 == group ==> listed(k) =~= plain + end);
        assert(k == 0 || voice(k - 1).1 != group ==> listed(k) =~= group + seq![':', '\n'] + plain
            + end);
    }
}

/// A voice is close to a name if at most three edits lie between them, and the nearest is
/// one that none is nearer than, the first in the picker if there are several.
pub proof fn lemma_nearest_is(name: Seq<char>, k: int, j: int)
    requires
        0 <= j < 29,
    ensures
        close(name, j) <==> distance(voice(j).0, name) <= 3,
        is_nearest(name, k) ==> 0 <= k < 29 && distance(voice(k).0, name) <= 3 && distance(
            voice(k).0,
            name,
        ) <= distance(voice(j).0, name) && (j < k ==> distance(voice(k).0, name) < distance(
            voice(j).0,
            name,
        )),
{
}

/// What the picker shows for a voice: what stands behind the first underscore of its id, in
/// its first letter's place the capital, and its group behind it unless that is the
/// blends'.
pub proof fn lemma_label_is(
    front: Seq<char>,
    c: char,
    rest: Seq<char>,
    group: Seq<char>,
    first: Seq<char>,
)
    requires
        forall|k: int| 0 <= k < front.len() ==> #[trigger] front[k] != '_',
    ensures
        group == "Custom"@ ==> label(front + seq!['_', c] + rest, group, first) == first + rest,
        group != "Custom"@ ==> label(front + seq!['_', c] + rest, group, first) == first + rest
            + seq![' ', '·', ' '] + group,
        front.len() > 0 && group == "Custom"@ ==> label(front, group, first) == first
            + front.skip(1),
{
    let id = front + seq!['_', c] + rest;
    let under = seq!['_'];
    let at = first_at(id, under, 0);
    crate::text::lemma_first_at(id, under, 0);
    assert forall|k: int| 0 <= k < front.len() implies !crate::text::occurs_at(
        id,
        under,
        k,
    ) by {
        crate::text::lemma_occurs_char(id, '_', k);
        assert(id[k] == front[k]);
    }
    crate::text::lemma_occurs_char(id, '_', front.len() as int);
    if at < front.len() {
        assert(crate::text::occurs_at(id, under, at));
    }
    assert(at == front.len());
    assert(id.skip(at + 1) =~= seq![c] + rest);
    assert((seq![c] + rest).drop_first() =~= rest);
    let at2 = first_at(front, under, 0);
    crate::text::lemma_first_at(front, under, 0);
    if at2 < front.len() {
        crate::text::lemma_occurs_char(front, '_', at2);
    }
    if front.len() > 0 {
        assert(front.drop_first() =~= front.skip(1));
    }
}

/// The one blend is two fifths of one voice and three fifths of another; every other voice
/// is made of itself alone.
pub proof fn lemma_recipes(id: Seq<char>)
    ensures
        id == "chad"@ ==> recipe(id) == seq![("am_puck"@, 40u32), ("am_onyx"@, 60u32)],
        id != "chad"@ ==> recipe(id) == seq![(id, 100u32)],
{
}

} // verus!
