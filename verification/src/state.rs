//! The session as it is saved, and as it is taken up again.

use crate::editor::{sanitize, sanitized};
use crate::numbers::{decimal, lemma_number_round_trip, number_text, parse_number, parsed};
use crate::text::{chars_of, string_of};
use crate::tidy::{messy, tidied, tidy_if_messy};
use crate::voices::{is_voice, voice_index};
use vstd::prelude::*;

verus! {

/// A value to write as JSON.
#[derive(Debug)]
pub enum Json {
    Text(String),
    Count(u64),
    /// A number given in JSON's own notation; `null` where it is none.
    Number(String),
}

/// A value to write as JSON.
pub enum JsonView {
    Text(Seq<char>),
    Count(u64),
    Number(Seq<char>),
}

impl View for Json {
    type V = JsonView;

    open spec fn view(&self) -> JsonView {
        match self {
            Json::Text(s) => JsonView::Text(s@),
            Json::Count(n) => JsonView::Count(*n),
            Json::Number(s) => JsonView::Number(s@),
        }
    }
}

/// The members of an object.
pub open spec fn json_members(m: Seq<(String, Json)>) -> Seq<(Seq<char>, JsonView)> {
    m.map_values(|x: (String, Json)| (x.0@, x.1@))
}

/// No two members have the same name.
pub open spec fn distinct_names(m: Seq<(Seq<char>, JsonView)>) -> bool {
    forall|i: int, j: int| 0 <= i < j < m.len() ==> (#[trigger] m[i]).0 != (#[trigger] m[j]).0
}

/// The text of a JSON object with the given members.
pub uninterp spec fn json_written(m: Seq<(Seq<char>, JsonView)>) -> Seq<char>;

/// The string that a JSON text has under a name.
pub uninterp spec fn json_text(raw: Seq<char>, name: Seq<char>) -> Option<Seq<char>>;

/// The natural number that a JSON text has under a name.
pub uninterp spec fn json_count(raw: Seq<char>, name: Seq<char>) -> Option<u64>;

/// `serde_json::Value::to_string` writes an object that has the given members in a
/// `serde_json::Map`. The text is a function of the members, named `json_written`. Read
/// back, it has under each name the string or the number that was written, as long as
/// no name is given twice.
#[verifier::external_body]
fn write_json(members: &Vec<(String, Json)>) -> (r: String)
    ensures
        r@ == json_written(json_members(members@)),
        distinct_names(json_members(members@)) ==> forall|i: int|
            0 <= i < members.len() ==> match (#[trigger] json_members(members@)[i]).1 {
                JsonView::Text(s) => json_text(r@, json_members(members@)[i].0) == Some(s),
                JsonView::Count(n) => json_count(r@, json_members(members@)[i].0) == Some(n),
                JsonView::Number(_) => true,
            },
{
    let mut object = serde_json::Map::new();
    for (name, value) in members {
        let value = match value {
            Json::Text(s) => serde_json::Value::from(s.as_str()),
            Json::Count(n) => serde_json::Value::from(*n),
            Json::Number(s) => match serde_json::from_str::<serde_json::Number>(s) {
                Ok(n) => serde_json::Value::Number(n),
                Err(_) => serde_json::Value::Null,
            },
        };
        object.insert(name.clone(), value);
    }
    serde_json::Value::Object(object).to_string()
}

/// `serde_json::from_str` parses a text as a `serde_json::Value`, of which
/// `Value::as_str` gives the string under a name: none where the text is not JSON or has
/// no string there. The result is a function of the two texts; it is named `json_text`.
#[verifier::external_body]
fn read_json_text(raw: &str, name: &str) -> (r: Option<String>)
    ensures
        match r {
            Some(s) => json_text(raw@, name@) == Some(s@),
            None => json_text(raw@, name@) is None,
        },
{
    let value: serde_json::Value = serde_json::from_str(raw).ok()?;
    value[name].as_str().map(|s| s.to_string())
}

/// `serde_json::from_str` parses a text as a `serde_json::Value`, of which
/// `Value::as_u64` gives the number under a name: none where the text is not JSON or has
/// no natural number of 64 bits there. The result is a function of the two texts; it is
/// named `json_count`.
#[verifier::external_body]
fn read_json_count(raw: &str, name: &str) -> (r: Option<u64>)
    ensures
        r == json_count(raw@, name@),
{
    let value: serde_json::Value = serde_json::from_str(raw).ok()?;
    value[name].as_u64()
}

/// The session as it is saved.
pub open spec fn session(
    text: Seq<char>,
    voice: Seq<char>,
    speed: Seq<char>,
    resume_hash: u64,
    resume_idx: u32,
) -> Seq<(Seq<char>, JsonView)> {
    seq![
        ("text"@, JsonView::Text(text)),
        ("voice"@, JsonView::Text(voice)),
        ("speed"@, JsonView::Number(speed)),
        ("resume_hash"@, JsonView::Text(decimal(resume_hash as nat))),
        ("resume_idx"@, JsonView::Count(resume_idx as u64)),
    ]
}

fn copy(s: &str) -> (r: String)
    ensures
        r@ == s@,
{
    let c = chars_of(s);
    string_of(c.as_slice())
}

proof fn lemma_session_names(
    text: Seq<char>,
    voice: Seq<char>,
    speed: Seq<char>,
    resume_hash: u64,
    resume_idx: u32,
)
    ensures
        distinct_names(session(text, voice, speed, resume_hash, resume_idx)),
{
    reveal_strlit("text");
    reveal_strlit("voice");
    reveal_strlit("speed");
    reveal_strlit("resume_hash");
    reveal_strlit("resume_idx");
    assert("text"@.len() == 4);
    assert("voice"@[0] == 'v');
    assert("speed"@[0] == 's');
    assert("resume_hash"@.len() == 11);
    assert("resume_idx"@.len() == 10);
}

/// A JSON text holds this session.
pub open spec fn holds_session(
    raw: Seq<char>,
    text: Seq<char>,
    voice: Seq<char>,
    resume_hash: u64,
    resume_idx: u32,
) -> bool {
    &&& json_text(raw, "text"@) == Some(text)
    &&& json_text(raw, "voice"@) == Some(voice)
    &&& json_text(raw, "resume_hash"@) == Some(decimal(resume_hash as nat))
    &&& json_count(raw, "resume_idx"@) == Some(resume_idx as u64)
}

/// Write the session down. `speed` is a number in JSON's notation.
pub fn save_state(
    text: &str,
    voice: &str,
    speed: &str,
    resume_hash: u64,
    resume_idx: u32,
) -> (r: String)
    ensures
        r@ == json_written(session(text@, voice@, speed@, resume_hash, resume_idx)),
        holds_session(r@, text@, voice@, resume_hash, resume_idx),
{
    let mut m: Vec<(String, Json)> = Vec::new();
    m.push((copy("text"), Json::Text(copy(text))));
    m.push((copy("voice"), Json::Text(copy(voice))));
    m.push((copy("speed"), Json::Number(copy(speed))));
    m.push((copy("resume_hash"), Json::Text(number_text(resume_hash))));
    m.push((copy("resume_idx"), Json::Count(resume_idx as u64)));
    let ghost v = session(text@, voice@, speed@, resume_hash, resume_idx);
    assert(json_members(m@) =~= v);
    proof {
        lemma_session_names(text@, voice@, speed@, resume_hash, resume_idx);
    }
    let r = write_json(&m);
    assert(v[0].1 is Text && v[1].1 is Text && v[3].1 is Text && v[4].1 is Count);
    r
}

/// What is taken up again of a session.
#[derive(Debug)]
pub struct Saved {
    pub text: Option<String>,
    pub voice: Option<String>,
    pub resume_hash: u64,
    pub resume_idx: u32,
}

/// What is taken up again of a session.
pub struct SavedView {
    pub text: Option<Seq<char>>,
    pub voice: Option<Seq<char>>,
    pub resume_hash: u64,
    pub resume_idx: u32,
}

impl View for Saved {
    type V = SavedView;

    open spec fn view(&self) -> SavedView {
        SavedView {
            text: crate::editor::maybe(self.text),
            voice: crate::editor::maybe(self.voice),
            resume_hash: self.resume_hash,
            resume_idx: self.resume_idx,
        }
    }
}

/// A text as the editor shows it when a session is taken up: tidied if it is messy.
pub open spec fn improved(t: Seq<char>) -> Seq<char> {
    if messy(t) && tidied(t) is Some && tidied(t)->0 != t && tidied(t)->0.len() > 0 {
        sanitized(tidied(t)->0)
    } else {
        sanitized(t)
    }
}

/// What is taken up of a session that says so: the text tidied, the voice if there is
/// one of that name, and where reading was left off, or the beginning.
pub open spec fn taken_up(
    text: Option<Seq<char>>,
    voice: Option<Seq<char>>,
    hash: Option<Seq<char>>,
    idx: Option<u64>,
) -> SavedView {
    SavedView {
        text: match text {
            Some(t) => Some(improved(t)),
            None => None,
        },
        voice: match voice {
            Some(v) => if is_voice(v) {
                Some(v)
            } else {
                None
            },
            None => None,
        },
        resume_hash: match hash {
            Some(h) => match parsed(h) {
                Some(n) => n,
                None => 0,
            },
            None => 0,
        },
        resume_idx: match idx {
            Some(n) => n as u32,
            None => 0,
        },
    }
}

/// Take up a session that says so.
pub fn take_up(
    text: Option<String>,
    voice: Option<String>,
    hash: Option<String>,
    idx: Option<u64>,
) -> (r: Saved)
    ensures
        r@ == taken_up(
            crate::editor::maybe(text),
            crate::editor::maybe(voice),
            crate::editor::maybe(hash),
            idx,
        ),
{
    let shown: Option<String> = match text {
        Some(t) => Some(
            match tidy_if_messy(t.as_str()) {
                Some(cleaned) => sanitize(cleaned.as_str()),
                None => sanitize(t.as_str()),
            },
        ),
        None => None,
    };
    let speaker: Option<String> = match voice {
        Some(v) => match voice_index(v.as_str()) {
            Some(_) => Some(v),
            None => None,
        },
        None => None,
    };
    let resume_hash: u64 = match hash {
        Some(h) => match parse_number(h.as_str()) {
            Some(n) => n,
            None => 0,
        },
        None => 0,
    };
    let resume_idx: u32 = match idx {
        Some(n) => #[verifier::truncate] (n as u32),
        None => 0,
    };
    Saved { text: shown, voice: speaker, resume_hash, resume_idx }
}

/// What is taken up of a session from the text it was saved as.
pub open spec fn loaded(raw: Seq<char>) -> SavedView {
    taken_up(
        json_text(raw, "text"@),
        json_text(raw, "voice"@),
        json_text(raw, "resume_hash"@),
        json_count(raw, "resume_idx"@),
    )
}

/// Take up a session from the text it was saved as.
pub fn load_state(raw: &str) -> (r: Saved)
    ensures
        r@ == loaded(raw@),
{
    let text = read_json_text(raw, "text");
    let voice = read_json_text(raw, "voice");
    let hash = read_json_text(raw, "resume_hash");
    let idx = read_json_count(raw, "resume_idx");
    take_up(text, voice, hash, idx)
}

/// A session that was saved is taken up as it was: a known voice, the place where
/// reading was left off, and the text, tidied if it is messy.
pub proof fn lemma_session_comes_back(
    raw: Seq<char>,
    text: Seq<char>,
    voice: Seq<char>,
    resume_hash: u64,
    resume_idx: u32,
)
    requires
        holds_session(raw, text, voice, resume_hash, resume_idx),
        is_voice(voice),
    ensures
        loaded(raw) == (SavedView {
            text: Some(improved(text)),
            voice: Some(voice),
            resume_hash,
            resume_idx,
        }),
        !messy(text) && sanitized(text) == text ==> improved(text) == text,
{
    lemma_number_round_trip(resume_hash);
}

/// A session is saved under these names: the text, the voice, the speed, and where reading
/// was left off, by a number written out in digits and the place of a sentence.
pub proof fn lemma_what_is_saved(
    text: Seq<char>,
    voice: Seq<char>,
    speed: Seq<char>,
    resume_hash: u64,
    resume_idx: u32,
)
    ensures
        ({
            let s = session(text, voice, speed, resume_hash, resume_idx);
            &&& s.len() == 5
            &&& s[0] == ("text"@, JsonView::Text(text))
            &&& s[1] == ("voice"@, JsonView::Text(voice))
            &&& s[2] == ("speed"@, JsonView::Number(speed))
            &&& s[3].0 == "resume_hash"@ && s[3].1 is Text && parsed(s[3].1->Text_0) == Some(
                resume_hash,
            )
            &&& s[4].0 == "resume_idx"@ && s[4].1 is Count && s[4].1->Count_0 == resume_idx
        }),
{
    lemma_number_round_trip(resume_hash);
}

/// What is taken up of a saved session: the text as the editor would show it, the voice if
/// it is one of the picker, and the place, zero where none was saved or none can be read.
pub proof fn lemma_what_is_taken_up(raw: Seq<char>)
    ensures
        ({
            let s = loaded(raw);
            &&& json_text(raw, "text"@) is None ==> s.text is None
            &&& json_text(raw, "text"@) is Some ==> s.text == Some(
                improved(json_text(raw, "text"@)->0),
            )
            &&& s.voice is Some <==> json_text(raw, "voice"@) is Some && is_voice(
                json_text(raw, "voice"@)->0,
            )
            &&& s.voice is Some ==> s.voice == json_text(raw, "voice"@)
            &&& match json_text(raw, "resume_hash"@) {
                Some(h) => s.resume_hash == (match parsed(h) {
                    Some(n) => n,
                    None => 0,
                }),
                None => s.resume_hash == 0,
            }
            &&& match json_count(raw, "resume_idx"@) {
                Some(n) => n <= u32::MAX ==> s.resume_idx == n,
                None => s.resume_idx == 0,
            }
        }),
{
}

/// A text is tidied on the way if it is messy and tidying leaves something else than it was
/// and not nothing; either way it is made fit for the editor.
pub proof fn lemma_text_is_improved(t: Seq<char>)
    ensures
        !messy(t) ==> improved(t) == sanitized(t),
        messy(t) && tidied(t) is Some && tidied(t)->0.len() > 0 ==> improved(t) == sanitized(
            tidied(t)->0,
        ),
        tidied(t) is None || tidied(t)->0.len() == 0 ==> improved(t) == sanitized(t),
{
}

} // verus!
