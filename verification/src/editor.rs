//! The editor's side of auto-tidy: when a paste arms it, and how an undo does not.

use crate::seqs::{lemma_all_kept, lemma_filter_append, lemma_filter_source};
use crate::text::{chars_of, same_text, string_of};
use crate::tidy::{messy, tidied, tidy_if_messy};
use vstd::prelude::*;
use vstd::utf8::encode_utf8;

verus! {

/// A jump in length by more than this is a paste; ordinary typing never is.
pub const PASTE_JUMP: usize = 120;

/// The length of a text in bytes.
pub open spec fn byte_len(s: Seq<char>) -> nat {
    encode_utf8(s).len()
}

/// Should an edit arm auto-tidy? A big jump in length, either way, means a paste,
/// unless the text is exactly what a tidy replaced: that is an undo.
pub open spec fn arms(prev_len: int, text: Seq<char>, source: Option<Seq<char>>) -> bool {
    &&& byte_len(text) - prev_len > PASTE_JUMP || prev_len - byte_len(text) > PASTE_JUMP
    &&& source != Some(text)
}

/// An optional text.
pub open spec fn maybe(s: Option<String>) -> Option<Seq<char>> {
    match s {
        Some(t) => Some(t@),
        None => None,
    }
}

fn is_source(text: &str, source: Option<&str>) -> (b: bool)
    ensures
        b == (source is Some && source->0@ == text@),
{
    match source {
        Some(s) => same_text(s, text),
        None => false,
    }
}

/// Should this edit arm auto-tidy?
pub fn arms_tidy(prev_len: usize, text: &str, tidy_source: Option<&str>) -> (b: bool)
    ensures
        b == arms(
            prev_len as int,
            text@,
            match tidy_source {
                Some(s) => Some(s@),
                None => None,
            },
        ),
{
    let bytes = text.as_bytes();
    let len: usize = bytes.len();
    let jump: usize = if len >= prev_len {
        len - prev_len
    } else {
        prev_len - len
    };
    jump > PASTE_JUMP && !is_source(text, tidy_source)
}

/// The control characters.
pub open spec fn control(c: char) -> bool {
    c <= '\u{1f}' || '\u{7f}' <= c <= '\u{9f}'
}

/// Is `c` a control character?
pub fn is_control(c: char) -> (b: bool)
    ensures
        b == control(c),
{
    c <= '\u{1f}' || ('\u{7f}' <= c && c <= '\u{9f}')
}

/// A tab as a space.
pub open spec fn untabbed(c: char) -> char {
    if c == '\t' {
        ' '
    } else {
        c
    }
}

/// What the editor takes as input: line feeds, and no other control character.
pub open spec fn typable() -> spec_fn(char) -> bool {
    |c: char| c == '\n' || !control(c)
}

/// A text as the editor takes it.
pub open spec fn sanitized(s: Seq<char>) -> Seq<char> {
    s.map_values(|c: char| untabbed(c)).filter(typable())
}

/// A text as the editor takes it: tabs become spaces, other control characters but
/// the line feed go.
pub fn sanitize(text: &str) -> (r: String)
    ensures
        r@ == sanitized(text@),
{
    let s = chars_of(text);
    let ghost mapped = s@.map_values(|c: char| untabbed(c));
    let mut out: Vec<char> = Vec::new();
    let mut i: usize = 0;
    assert(mapped.take(0).filter(typable()) =~= Seq::empty()) by {
        reveal(Seq::filter);
    }
    while i < s.len()
        invariant
            i <= s.len(),
            mapped == s@.map_values(|c: char| untabbed(c)),
            out@ == mapped.take(i as int).filter(typable()),
        decreases s.len() - i,
    {
        assert(mapped.take(i + 1) =~= mapped.take(i as int).push(mapped[i as int]));
        proof {
            mapped.take(i as int).lemma_filter_push(mapped[i as int], typable());
        }
        let c: char = if s[i] == '\t' {
            ' '
        } else {
            s[i]
        };
        if c == '\n' || !is_control(c) {
            out.push(c);
        }
        i += 1;
    }
    assert(mapped.take(i as int) =~= mapped);
    string_of(out.as_slice())
}

/// A sanitized text holds no control character but the line feed, and sanitizing
/// it again changes nothing.
pub proof fn lemma_sanitized_is_typable(s: Seq<char>)
    ensures
        forall|k: int|
            0 <= k < sanitized(s).len() ==> (#[trigger] sanitized(s)[k]) == '\n' || !control(
                sanitized(s)[k],
            ),
        sanitized(sanitized(s)) == sanitized(s),
{
    let t = sanitized(s);
    let mapped = s.map_values(|c: char| untabbed(c));
    assert forall|k: int| 0 <= k < t.len() implies (#[trigger] t[k]) == '\n' || !control(
        t[k],
    ) by {
        let q = lemma_filter_source(mapped, typable(), k);
    }
    assert(control('\t'));
    assert(t.map_values(|c: char| untabbed(c)) =~= t);
    lemma_all_kept(t, typable());
}

/// What the editor remembers between edits.
#[derive(Debug)]
pub struct Editor {
    /// The length of the buffer in bytes at the last edit.
    pub len: usize,
    /// The text the last tidy replaced.
    pub tidy_source: Option<String>,
    /// A paste waits to be tidied.
    pub pending_tidy: bool,
}

impl Editor {
    /// The editor of a buffer of `len` bytes.
    pub fn new(len: usize) -> (e: Editor)
        ensures
            e.len == len,
            e.tidy_source is None,
            !e.pending_tidy,
    {
        Editor { len, tidy_source: None, pending_tidy: false }
    }

    /// An edit left the buffer holding `text`. A paste arms auto-tidy; going back
    /// to what a tidy replaced does not, and forgets it, so that a later paste of
    /// the same text arms again.
    pub fn note_edit(&mut self, text: &str)
        ensures
            final(self).len == byte_len(text@),
            final(self).pending_tidy == (old(self).pending_tidy || arms(
                old(self).len as int,
                text@,
                maybe(old(self).tidy_source),
            )),
            maybe(final(self).tidy_source) == (if maybe(old(self).tidy_source) == Some(text@) {
                None
            } else {
                maybe(old(self).tidy_source)
            }),
    {
        let source: Option<&str> = match &self.tidy_source {
            Some(s) => Some(s.as_str()),
            None => None,
        };
        let undone: bool = is_source(text, source);
        if arms_tidy(self.len, text, source) {
            self.pending_tidy = true;
        } else if undone {
            self.tidy_source = None;
        }
        let bytes = text.as_bytes();
        self.len = bytes.len();
    }

    /// What to put in place of the buffer, if it is to be tidied: not while it is
    /// being read.
    pub fn tidy_editor(&mut self, reading: bool, raw: &str) -> (r: Option<String>)
        ensures
            r is Some <==> !reading && messy(raw@) && tidied(raw@) is Some && tidied(raw@)->0
                != raw@ && tidied(raw@)->0.len() > 0,
            r is Some ==> r->0@ == sanitized(tidied(raw@)->0),
            maybe(final(self).tidy_source) == (if r is Some {
                Some(raw@)
            } else {
                maybe(old(self).tidy_source)
            }),
            final(self).len == old(self).len,
            final(self).pending_tidy == old(self).pending_tidy,
    {
        if reading {
            return None;
        }
        match tidy_if_messy(raw) {
            None => None,
            Some(cleaned) => {
                let chars = chars_of(raw);
                self.tidy_source = Some(string_of(chars.as_slice()));
                Some(sanitize(cleaned.as_str()))
            },
        }
    }
}

/// Undoing a tidy sticks: whatever was tidied, putting it back never arms another.
pub proof fn lemma_undo_sticks(prev_len: int, raw: Seq<char>)
    ensures
        !arms(prev_len, raw, Some(raw)),
{
}

/// An edit arms auto-tidy if the text got more than 120 bytes longer or shorter at once, and
/// is not what the last tidy replaced.
pub proof fn lemma_big_jump_arms(prev_len: int, text: Seq<char>, source: Option<Seq<char>>)
    ensures
        arms(prev_len, text, source) <==> (encode_utf8(text).len() > prev_len + 120 || encode_utf8(
            text,
        ).len() + 120 < prev_len) && !(source is Some && source->0 == text),
{
}

/// What the editor takes goes character by character: a tab becomes a space, a line feed
/// stays, other control characters go, and everything else stays.
pub proof fn lemma_sanitized_one_by_one(x: Seq<char>, c: char, y: Seq<char>)
    ensures
        sanitized(x + y) == sanitized(x) + sanitized(y),
        sanitized(Seq::<char>::empty()) == Seq::<char>::empty(),
        c == '\t' ==> sanitized(seq![c]) == seq![' '],
        c == '\n' ==> sanitized(seq![c]) == seq![c],
        c != '\t' && c != '\n' && (c <= '\u{1f}' || '\u{7f}' <= c <= '\u{9f}') ==> sanitized(
            seq![c],
        ).len() == 0,
        '\u{20}' <= c <= '\u{7e}' || '\u{a0}' <= c ==> sanitized(seq![c]) == seq![c],
{
    let f = |c: char| untabbed(c);
    let keep = typable();
    assert((x + y).map_values(f) =~= x.map_values(f) + y.map_values(f));
    lemma_filter_append(x.map_values(f), y.map_values(f), keep);
    let none = Seq::<char>::empty();
    assert(none.filter(keep) =~= none) by {
        reveal(Seq::filter);
    }
    assert(none.map_values(f) =~= none);
    assert(seq![c].map_values(f) =~= seq![untabbed(c)]);
    none.lemma_filter_push(untabbed(c), keep);
    assert(none.push(untabbed(c)) =~= seq![untabbed(c)]);
}

} // verus!
