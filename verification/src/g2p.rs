//! Text to phonemes to token ids: everything around the phonemizer itself.

use crate::lexicon::{load_lexicon, respell, respelled, lexicon_of, Lexicon};
use crate::punctuation::{
    interleaved, lemma_chunks_hold_no_mark, lemma_interleaved_keeps, lemma_marks_come_back,
    lemma_no_phoneme_is_lost, lemma_restoring_loses_nothing, mark, mark_texts, mark_views,
    postprocess_line, postprocessed, preserve, preserved, restore, restored, Mark, MarkView,
    Position,
};
use crate::seqs::{
    lemma_all_kept, lemma_filter_append, lemma_filter_both, lemma_filter_source,
    lemma_filter_twice,
};
use crate::text::{
    chars_of, drop_char, glue, glued, lemma_glued_first, lemma_glued_keeps, lemma_trimmed_blank,
    lemma_trimmed_ends, lemma_trimmed_is, lemma_trimmed_keeps, lemma_trimmed_within, lines, string_of, texts, trim, trimmed, white, without,
};
use std::collections::HashMap;
use vstd::prelude::*;
use vstd::std_specs::hash::*;

verus! {

broadcast use vstd::std_specs::hash::group_hash_axioms;

/// The longest run of phonemes the model takes in one go.
pub const MAX_PHONEME_LENGTH: usize = 510;

/// Why a model configuration cannot be used.
#[derive(Debug)]
pub enum ConfigError {
    /// The text is not JSON.
    Syntax,
    /// There is no object under `vocab`.
    NoVocab,
    /// A key of the vocabulary is not one character.
    Key(String),
    /// An id of the vocabulary is not an integer.
    Id,
}

/// What the error is, without the text it carries.
pub enum ConfigErrorView {
    Syntax,
    NoVocab,
    Key(Seq<char>),
    Id,
}

impl View for ConfigError {
    type V = ConfigErrorView;

    open spec fn view(&self) -> ConfigErrorView {
        match self {
            ConfigError::Syntax => ConfigErrorView::Syntax,
            ConfigError::NoVocab => ConfigErrorView::NoVocab,
            ConfigError::Key(k) => ConfigErrorView::Key(k@),
            ConfigError::Id => ConfigErrorView::Id,
        }
    }
}

/// One member of a JSON object: its name, and its value where that is an integer.
pub open spec fn members(v: Seq<(String, Option<i64>)>) -> Seq<(Seq<char>, Option<i64>)> {
    v.map_values(|m: (String, Option<i64>)| (m.0@, m.1))
}

/// The members of the object that a JSON text holds under a name: nothing where
/// the text is not JSON, no list where there is no object under the name.
pub uninterp spec fn json_object(text: Seq<char>, name: Seq<char>) -> Option<
    Option<Seq<(Seq<char>, Option<i64>)>>,
>;

#[verifier::external_type_specification]
#[verifier::external_body]
pub struct ExJsonError(serde_json::Error);

/// `serde_json::from_str` parses a text as a `serde_json::Value`; what
/// `Value::as_object` gives for the value that the text has under `name` is handed
/// out member by member, each value as `Value::as_i64` gives it. The result is
/// a function of the two texts; it is named `json_object`.
#[verifier::external_body]
fn read_json_object(text: &str, name: &str) -> (r: Result<
    Option<Vec<(String, Option<i64>)>>,
    serde_json::Error,
>)
    ensures
        match r {
            Ok(Some(m)) => json_object(text@, name@) == Some(Some(members(m@))),
            Ok(None) => json_object(text@, name@) == Some(
                None::<Seq<(Seq<char>, Option<i64>)>>,
            ),
            Err(_) => json_object(text@, name@) is None,
        },
{
    let value: serde_json::Value = serde_json::from_str(text)?;
    Ok(value[name].as_object().map(|o| o.iter().map(|(k, v)| (k.clone(), v.as_i64())).collect()))
}

/// The code point of a character.
spec fn code(c: char) -> u32 {
    c as u32
}

proof fn lemma_code(c: char)
    ensures
        code(c) as int == c as int,
{
}

fn code_of(c: char) -> (u: u32)
    ensures
        u == code(c),
{
    c as u32
}

/// The characters the model knows, and their ids.
#[derive(Debug)]
pub struct Vocabulary {
    ids: HashMap<u32, i64>,
}

impl View for Vocabulary {
    type V = Map<char, i64>;

    closed spec fn view(&self) -> Map<char, i64> {
        Map::new(|c: char| self.ids@.contains_key(code(c)), |c: char| self.ids@[code(c)])
    }
}

/// The vocabulary that a list of members makes, or what is wrong with the first
/// of them that cannot be part of one.
pub open spec fn vocabulary_of(m: Seq<(Seq<char>, Option<i64>)>) -> Result<
    Map<char, i64>,
    ConfigErrorView,
>
    decreases m.len(),
{
    if m.len() == 0 {
        Ok(Map::empty())
    } else {
        match vocabulary_of(m.drop_last()) {
            Err(e) => Err(e),
            Ok(before) => if m.last().0.len() != 1 {
                Err(ConfigErrorView::Key(m.last().0))
            } else if m.last().1 is None {
                Err(ConfigErrorView::Id)
            } else {
                Ok(before.insert(m.last().0[0], m.last().1->0))
            },
        }
    }
}

proof fn lemma_vocabulary_error(m: Seq<(Seq<char>, Option<i64>)>, n: int)
    requires
        0 <= n <= m.len(),
        vocabulary_of(m.take(n)) is Err,
    ensures
        vocabulary_of(m) == vocabulary_of(m.take(n)),
    decreases m.len(),
{
    if n == m.len() {
        assert(m.take(n) =~= m);
    } else {
        assert(m.drop_last().take(n) =~= m.take(n));
        lemma_vocabulary_error(m.drop_last(), n);
    }
}

impl Vocabulary {
    /// The vocabulary with the given members, each a character and its id.
    pub fn from_members(list: &Vec<(String, Option<i64>)>) -> (r: Result<Vocabulary, ConfigError>)
        ensures
            match r {
                Ok(v) => vocabulary_of(members(list@)) == Ok::<_, ConfigErrorView>(v@),
                Err(e) => vocabulary_of(members(list@)) == Err::<Map<char, i64>, _>(e@),
            },
    {
        let ghost m = members(list@);
        let mut ids: HashMap<u32, i64> = HashMap::new();
        let mut i: usize = 0;
        assert((Vocabulary { ids })@ =~= Map::empty());
        while i < list.len()
            invariant
                i <= list.len(),
                m == members(list@),
                vocabulary_of(m.take(i as int)) == Ok::<_, ConfigErrorView>(
                    (Vocabulary { ids })@,
                ),
            decreases list.len() - i,
        {
            assert(m.take(i + 1).drop_last() =~= m.take(i as int));
            assert(m.take(i + 1).last() == m[i as int]);
            let key = chars_of(list[i].0.as_str());
            if key.len() != 1 {
                let e = ConfigError::Key(list[i].0.clone());
                proof {
                    lemma_vocabulary_error(m, i + 1);
                }
                return Err(e);
            }
            match list[i].1 {
                None => {
                    proof {
                        lemma_vocabulary_error(m, i + 1);
                    }
                    return Err(ConfigError::Id);
                },
                Some(id) => {
                    let ghost before = Vocabulary { ids };
                    let c: char = key[0];
                    ids.insert(code_of(c), id);
                    assert forall|d: char| #[trigger] code(d) == code(c) implies d == c by {
                        lemma_code(d);
                        lemma_code(c);
                    }
                    assert((Vocabulary { ids })@ =~= before@.insert(c, id));
                },
            }
            i += 1;
        }
        assert(m.take(i as int) =~= m);
        Ok(Vocabulary { ids })
    }

    /// The id of a character.
    pub fn id_of(&self, c: char) -> (r: Option<i64>)
        ensures
            r == (if self@.contains_key(c) {
                Some(self@[c])
            } else {
                None
            }),
    {
        match self.ids.get(&code_of(c)) {
            Some(id) => Some(*id),
            None => None,
        }
    }
}

/// The vocabulary that a model configuration holds, or what is wrong with it.
pub open spec fn configured(config: Seq<char>) -> Result<Map<char, i64>, ConfigErrorView> {
    match json_object(config, "vocab"@) {
        None => Err(ConfigErrorView::Syntax),
        Some(None) => Err(ConfigErrorView::NoVocab),
        Some(Some(m)) => vocabulary_of(m),
    }
}

/// The characters of a text that the vocabulary holds.
pub open spec fn known(vocab: Map<char, i64>) -> spec_fn(char) -> bool {
    |c: char| vocab.contains_key(c)
}

/// A text without the characters that the vocabulary lacks, and trimmed.
pub open spec fn filtered(s: Seq<char>, vocab: Map<char, i64>) -> Seq<char> {
    trimmed(s.filter(known(vocab)))
}

/// The ids of the characters that have one, in order.
pub open spec fn tokens(s: Seq<char>, vocab: Map<char, i64>) -> Seq<i64> {
    s.filter(known(vocab)).map_values(|c: char| vocab[c])
}

/// What the phonemizer is asked to say for a line of text, and the punctuation
/// between: nothing for a blank line.
pub open spec fn prepared(text: Seq<char>, lexicon: Map<Seq<char>, Seq<char>>) -> (
    Seq<Seq<char>>,
    Seq<MarkView>,
) {
    if trimmed(text).len() == 0 {
        (Seq::empty(), Seq::empty())
    } else {
        preserved(respelled(trimmed(text), lexicon))
    }
}

/// The phonemes of a line from what the phonemizer said for its chunks.
pub open spec fn assembled(
    raw: Seq<Seq<char>>,
    marks: Seq<MarkView>,
    vocab: Map<char, i64>,
) -> Seq<char> {
    let lines = restored(raw.map_values(|l: Seq<char>| postprocessed(l)), marks, false);
    filtered(glued(lines, seq!['\n']), vocab)
}

/// The phonemizer's input, vocabulary and lexicon: text on its way to token ids.
pub struct G2p {
    pub vocab: Vocabulary,
    pub lexicon: Lexicon,
}

impl G2p {
    /// The lexicon holds no term twice.
    pub open spec fn wf(&self) -> bool {
        self.lexicon.wf()
    }

    /// The pronunciation overrides in use.
    pub open spec fn overrides(&self) -> Map<Seq<char>, Seq<char>> {
        self.lexicon@
    }

    /// Read the vocabulary out of a model configuration, and the lexicon file
    /// where there is one.
    pub fn new(config: &str, lexicon: Option<&str>) -> (r: Result<G2p, ConfigError>)
        ensures
            match r {
                Ok(g) => {
                    &&& g.wf()
                    &&& configured(config@) == Ok::<_, ConfigErrorView>(g.vocab@)
                    &&& g.overrides() == (match lexicon {
                        Some(text) => lexicon_of(lines(text@)),
                        None => Map::empty(),
                    })
                },
                Err(e) => configured(config@) == Err::<Map<char, i64>, _>(e@),
            },
    {
        match read_json_object(config, "vocab") {
            Err(_) => Err(ConfigError::Syntax),
            Ok(None) => Err(ConfigError::NoVocab),
            Ok(Some(list)) => match Vocabulary::from_members(&list) {
                Err(e) => Err(e),
                Ok(vocab) => {
                    let terms = match lexicon {
                        Some(text) => load_lexicon(text),
                        None => Lexicon::new(),
                    };
                    Ok(G2p::with(vocab, terms))
                },
            },
        }
    }

    /// From a vocabulary and a lexicon.
    pub fn with(vocab: Vocabulary, lexicon: Lexicon) -> (g: G2p)
        requires
            lexicon.wf(),
        ensures
            g.wf(),
            g.vocab == vocab,
            g.overrides() == lexicon@,
    {
        G2p { vocab, lexicon }
    }

    /// Text as the phonemizer should see it: lexicon terms respelled.
    pub fn respelled(&self, text: &str) -> (r: String)
        requires
            self.wf(),
        ensures
            r@ == respelled(text@, self.overrides()),
    {
        respell(text, &self.lexicon)
    }

    /// How many pronunciation overrides are loaded.
    pub fn lexicon_len(&self) -> (n: usize)
        requires
            self.wf(),
        ensures
            self.overrides().dom().finite(),
            n == self.overrides().dom().len(),
    {
        self.lexicon.len()
    }

    /// What to hand to the phonemizer for a line of text, chunk by chunk, and the
    /// punctuation that `phonemize` puts back.
    pub fn prepare(&self, text: &str) -> (r: (Vec<String>, Vec<Mark>))
        requires
            self.wf(),
        ensures
            (texts(r.0@), mark_views(r.1@)) == prepared(text@, self.overrides()),
    {
        let chars = chars_of(text);
        let line = trim(chars.as_slice());
        if line.len() == 0 {
            let r: (Vec<String>, Vec<Mark>) = (Vec::new(), Vec::new());
            assert(texts(r.0@) =~= Seq::empty());
            assert(mark_views(r.1@) =~= Seq::empty());
            return r;
        }
        let plain = string_of(line.as_slice());
        let said = self.respelled(plain.as_str());
        preserve(said.as_str())
    }

    fn keep_known(&self, s: &[char]) -> (r: Vec<char>)
        ensures
            r@ == s@.filter(known(self.vocab@)),
    {
        let mut r: Vec<char> = Vec::new();
        let mut i: usize = 0;
        while i < s.len()
            invariant
                i <= s.len(),
                r@ == s@.take(i as int).filter(known(self.vocab@)),
            decreases s.len() - i,
        {
            assert(s@.take(i + 1) =~= s@.take(i as int).push(s@[i as int]));
            proof {
                s@.take(i as int).lemma_filter_push(s@[i as int], known(self.vocab@));
            }
            if let Some(_) = self.vocab.id_of(s[i]) {
                r.push(s[i]);
            }
            i += 1;
        }
        assert(s@.take(i as int) =~= s@);
        r
    }

    /// The phonemes of a line of text: what the phonemizer said for each chunk,
    /// tidied, with the punctuation back in place, without the characters the
    /// model does not know, and trimmed.
    pub fn phonemize(&self, raw: &Vec<String>, marks: &Vec<Mark>) -> (r: String)
        ensures
            r@ == assembled(texts(raw@), mark_views(marks@), self.vocab@),
    {
        let ghost finished = texts(raw@).map_values(|l: Seq<char>| postprocessed(l));
        let mut phon: Vec<String> = Vec::new();
        let mut i: usize = 0;
        while i < raw.len()
            invariant
                i <= raw.len(),
                finished == texts(raw@).map_values(|l: Seq<char>| postprocessed(l)),
                texts(phon@) == finished.take(i as int),
            decreases raw.len() - i,
        {
            let ghost before = phon@;
            phon.push(postprocess_line(raw[i].as_str()));
            assert(texts(phon@) =~= texts(before).push(postprocessed(raw@[i as int]@)));
            assert(finished.take(i + 1) =~= finished.take(i as int).push(finished[i as int]));
            i += 1;
        }
        assert(finished.take(i as int) =~= finished);
        let back = restore(&phon, marks);
        let sep: [char; 1] = ['\n'];
        assert(sep@ =~= seq!['\n']);
        let joined = glue(&back, sep.as_slice());
        let kept = self.keep_known(joined.as_slice());
        let ends = trim(kept.as_slice());
        string_of(ends.as_slice())
    }

    /// The phonemes of a word on its own, from what the phonemizer said for it
    /// respelled.
    pub fn phonemize_solo(&self, raw: &str) -> (r: String)
        ensures
            r@ == filtered(postprocessed(raw@), self.vocab@),
    {
        let post = postprocess_line(raw);
        let chars = chars_of(post.as_str());
        let kept = self.keep_known(chars.as_slice());
        let ends = trim(kept.as_slice());
        string_of(ends.as_slice())
    }

    /// The token ids of a run of phonemes.
    pub fn tokenize(&self, phonemes: &str) -> (r: Vec<i64>)
        ensures
            r@ == tokens(phonemes@, self.vocab@),
    {
        let s = chars_of(phonemes);
        let ghost vocab = self.vocab@;
        let mut r: Vec<i64> = Vec::new();
        let mut i: usize = 0;
        assert(r@ =~= tokens(s@.take(0), vocab)) by {
            assert(s@.take(0) =~= Seq::empty());
            reveal(Seq::filter);
        }
        while i < s.len()
            invariant
                i <= s.len(),
                vocab == self.vocab@,
                r@ == tokens(s@.take(i as int), vocab),
            decreases s.len() - i,
        {
            let ghost before = r@;
            assert(s@.take(i + 1) =~= s@.take(i as int).push(s@[i as int]));
            proof {
                s@.take(i as int).lemma_filter_push(s@[i as int], known(vocab));
            }
            if let Some(id) = self.vocab.id_of(s[i]) {
                r.push(id);
            }
            i += 1;
            assert(r@ =~= tokens(s@.take(i as int), vocab));
        }
        assert(s@.take(i as int) =~= s@);
        r
    }
}

/// The text as it is handed to the phonemizer's C interface: without NUL.
pub fn phonemizer_input(text: &str) -> (r: String)
    ensures
        r@ == without(text@, '\0'),
{
    let chars = chars_of(text);
    let kept = drop_char(chars.as_slice(), '\0');
    string_of(kept.as_slice())
}

/// The clauses the phonemizer gave for one text, as one line: those that are not
/// empty, with a space between.
pub fn join_clauses(clauses: &Vec<String>) -> (r: String)
    ensures
        r@ == glued(texts(clauses@).filter(crate::punctuation::filled()), seq![' ']),
{
    let ghost all = texts(clauses@);
    let mut kept: Vec<String> = Vec::new();
    let mut i: usize = 0;
    assert(texts(kept@) =~= all.take(0).filter(crate::punctuation::filled())) by {
        reveal(Seq::filter);
    }
    while i < clauses.len()
        invariant
            i <= clauses.len(),
            all == texts(clauses@),
            texts(kept@) == all.take(i as int).filter(crate::punctuation::filled()),
        decreases clauses.len() - i,
    {
        assert(all.take(i + 1) =~= all.take(i as int).push(all[i as int]));
        proof {
            all.take(i as int).lemma_filter_push(all[i as int], crate::punctuation::filled());
        }
        let ghost before = kept@;
        let clause = clauses[i].clone();
        let chars = chars_of(clause.as_str());
        if chars.len() > 0 {
            kept.push(clause);
            assert(texts(kept@) =~= texts(before).push(all[i as int]));
        }
        i += 1;
    }
    assert(all.take(i as int) =~= all);
    let sep: [char; 1] = [' '];
    assert(sep@ =~= seq![' ']);
    let joined = glue(&kept, sep.as_slice());
    string_of(joined.as_slice())
}

/// Every phoneme has an id: what is left of a line after `phonemize` or
/// `phonemize_solo` is made of characters of the vocabulary, so each of them
/// becomes a token.
pub proof fn lemma_every_phoneme_has_a_token(s: Seq<char>, vocab: Map<char, i64>)
    ensures
        forall|k: int|
            0 <= k < filtered(s, vocab).len() ==> vocab.contains_key(
                #[trigger] filtered(s, vocab)[k],
            ),
        tokens(filtered(s, vocab), vocab).len() == filtered(s, vocab).len(),
{
    let kept = s.filter(known(vocab));
    let f = filtered(s, vocab);
    let n = crate::text::lead(kept) as int;
    lemma_trimmed_within(kept);
    assert forall|k: int| 0 <= k < f.len() implies vocab.contains_key(#[trigger] f[k]) by {
        assert(f[k] == kept[n + k]);
        let q = lemma_filter_source(s, known(vocab), n + k);
    }
    lemma_all_kept(f, known(vocab));
}

/// Tokens come one by one: each character that the vocabulary holds becomes its id, and any
/// other becomes nothing, in the order of the text.
pub proof fn lemma_tokens_come_one_by_one(
    x: Seq<char>,
    c: char,
    y: Seq<char>,
    vocab: Map<char, i64>,
)
    ensures
        tokens(x + y, vocab) == tokens(x, vocab) + tokens(y, vocab),
        vocab.contains_key(c) ==> tokens(seq![c], vocab) == seq![vocab[c]],
        !vocab.contains_key(c) ==> tokens(seq![c], vocab) == Seq::<i64>::empty(),
        tokens(Seq::<char>::empty(), vocab) == Seq::<i64>::empty(),
{
    let keep = known(vocab);
    lemma_filter_append(x, y, keep);
    assert(tokens(x + y, vocab) =~= tokens(x, vocab) + tokens(y, vocab));
    let none = Seq::<char>::empty();
    assert(none.filter(keep) =~= none) by {
        reveal(Seq::filter);
    }
    none.lemma_filter_push(c, keep);
    assert(none.push(c) =~= seq![c]);
    assert(tokens(none, vocab) =~= Seq::<i64>::empty());
    if vocab.contains_key(c) {
        assert(tokens(seq![c], vocab) =~= seq![vocab[c]]);
    } else {
        assert(tokens(seq![c], vocab) =~= Seq::<i64>::empty());
    }
}

/// Of a line, every phoneme stays that the vocabulary holds, and no other character does:
/// apart from white space, what is left is what the vocabulary holds of the line, in order;
/// and no white space stands at its ends.
pub proof fn lemma_known_phonemes_stay(s: Seq<char>, vocab: Map<char, i64>)
    ensures
        filtered(s, vocab).filter(|c: char| !white(c)) == s.filter(
            |c: char| vocab.contains_key(c) && !white(c),
        ),
        filtered(s, vocab).len() > 0 ==> !white(filtered(s, vocab)[0]) && !white(
            filtered(s, vocab).last(),
        ),
{
    let keep = known(vocab);
    let solid = |c: char| !white(c);
    let both = |c: char| vocab.contains_key(c) && !white(c);
    let kept = s.filter(keep);
    lemma_trimmed_keeps(kept, solid);
    lemma_trimmed_ends(kept);
    lemma_filter_both(s, keep, solid, both);
}

/// The phonemes of a line are all there, and in order: apart from white space they are what
/// the vocabulary holds of the marks at the start, of what the phonemizer said for the
/// chunks with the marks between them, and of the marks at the end; underscores go.
pub proof fn lemma_line_is_spoken_in_order(
    begin: Seq<Seq<char>>,
    raw: Seq<Seq<char>>,
    between: Seq<Seq<char>>,
    end: Seq<Seq<char>>,
    vocab: Map<char, i64>,
)
    requires
        raw.len() == between.len() + 1,
        begin.len() <= 1,
        end.len() <= 1,
        !vocab.contains_key('_'),
    ensures
        assembled(
            raw,
            begin.map_values(|t: Seq<char>| MarkView { text: t, position: Position::Begin })
                + between.map_values(
                |t: Seq<char>| MarkView { text: t, position: Position::Inside },
            ) + end.map_values(|t: Seq<char>| MarkView { text: t, position: Position::End }),
            vocab,
        ).filter(|c: char| !white(c)) == (begin.flatten() + interleaved(raw, between)
            + end.flatten()).filter(|c: char| vocab.contains_key(c) && !white(c)),
{
    let marks = begin.map_values(|t: Seq<char>| MarkView { text: t, position: Position::Begin })
        + between.map_values(|t: Seq<char>| MarkView { text: t, position: Position::Inside })
        + end.map_values(|t: Seq<char>| MarkView { text: t, position: Position::End });
    let said = raw.map_values(|l: Seq<char>| postprocessed(l));
    let lines = restored(said, marks, false);
    let keep = |c: char| vocab.contains_key(c) && !white(c);
    lemma_restoring_loses_nothing(begin, said, between, end, keep);
    lemma_glued_keeps(lines, seq!['\n'], keep);
    lemma_known_phonemes_stay(glued(lines, seq!['\n']), vocab);
    assert forall|k: int| 0 <= k < said.len() implies (#[trigger] said[k]).filter(keep)
        == raw[k].filter(keep) by {
        let wide = |c: char| !white(c) && c != '_';
        lemma_no_phoneme_is_lost(raw[k]);
        lemma_filter_twice(said[k], wide, keep);
        lemma_filter_twice(raw[k], wide, keep);
    }
    lemma_interleaved_keeps(said, raw, between, keep);
    let (a, b) = (interleaved(said, between), interleaved(raw, between));
    lemma_filter_append(begin.flatten() + a, end.flatten(), keep);
    lemma_filter_append(begin.flatten() + b, end.flatten(), keep);
    lemma_filter_append(begin.flatten(), a, keep);
    lemma_filter_append(begin.flatten(), b, keep);
}

/// What the phonemizer is asked is the text with its terms respelled: with the marks back in
/// place, the chunks are that text again, closed by a space unless it is nothing but marks.
/// White space around the text makes no difference, and of white space alone nothing is
/// asked.
pub proof fn lemma_prepared_says_the_text(
    front: Seq<char>,
    line: Seq<char>,
    back: Seq<char>,
    lexicon: Map<Seq<char>, Seq<char>>,
)
    requires
        line.len() > 0 ==> !white(line[0]) && !white(line.last()),
        forall|k: int| 0 <= k < front.len() ==> white(#[trigger] front[k]),
        forall|k: int| 0 <= k < back.len() ==> white(#[trigger] back[k]),
    ensures
        ({
            let (chunks, marks) = prepared(front + line + back, lexicon);
            let said = respelled(line, lexicon);
            &&& line.len() == 0 ==> chunks.len() == 0 && marks.len() == 0
            &&& line.len() > 0 && said.len() > 0 && !white(said.last()) ==> restored(
                chunks,
                marks,
                false,
            ) == seq![said] || restored(chunks, marks, false) == seq![said.push(' ')]
            &&& forall|c: int, i: int|
                0 <= c < chunks.len() && 0 <= i < chunks[c].len() ==> !mark(
                    #[trigger] chunks[c][i],
                )
        }),
{
    let text = front + line + back;
    let (chunks, marks) = prepared(text, lexicon);
    if line.len() > 0 {
        lemma_trimmed_is(front, line, back);
        let said = respelled(line, lexicon);
        if said.len() > 0 && !white(said.last()) {
            lemma_marks_come_back(said);
        }
        assert forall|c: int, i: int|
            0 <= c < chunks.len() && 0 <= i < chunks[c].len() implies !mark(
            #[trigger] chunks[c][i],
        ) by {
            lemma_chunks_hold_no_mark(said, c, i);
        }
    } else {
        assert forall|k: int| 0 <= k < text.len() implies white(#[trigger] text[k]) by {
            if k < front.len() {
                assert(text[k] == front[k]);
            } else {
                assert(text[k] == back[k - front.len()]);
            }
        }
        lemma_trimmed_blank(text);
    }
}

/// A line of nothing but marks is those marks.
pub proof fn lemma_marks_alone_are_spoken(text: Seq<char>, vocab: Map<char, i64>)
    ensures
        assembled(Seq::empty(), seq![MarkView { text, position: Position::Alone }], vocab)
            == filtered(text, vocab),
{
    let marks = seq![MarkView { text, position: Position::Alone }];
    let none = Seq::<Seq<char>>::empty();
    assert(none.map_values(|l: Seq<char>| postprocessed(l)) =~= none);
    assert(mark_texts(marks) =~= seq![text]);
    seq![text].lemma_flatten_one_element();
    lemma_glued_first(text, none, seq!['\n']);
}

/// A vocabulary has each character with its id, the last one where a character is listed
/// twice, if every name is one character and every id an integer.
pub proof fn lemma_vocabulary_has_the_members(m: Seq<(Seq<char>, Option<i64>)>, k: int, c: char)
    requires
        forall|j: int|
            0 <= j < m.len() ==> (#[trigger] m[j]).0.len() == 1 && m[j].1 is Some,
        -1 <= k < m.len(),
        k >= 0 ==> m[k].0[0] == c,
        forall|j: int| k < j < m.len() ==> (#[trigger] m[j]).0[0] != c,
    ensures
        vocabulary_of(m) is Ok,
        k < 0 ==> !vocabulary_of(m)->Ok_0.contains_key(c),
        k >= 0 ==> vocabulary_of(m)->Ok_0.contains_key(c) && Some(vocabulary_of(m)->Ok_0[c])
            == m[k].1,
    decreases m.len(),
{
    if m.len() > 0 {
        let front = m.drop_last();
        assert(forall|j: int| 0 <= j < front.len() ==> #[trigger] front[j] == m[j]);
        assert(m.last() == m[m.len() - 1]);
        if k == m.len() - 1 {
            lemma_vocabulary_reads(front);
        } else {
            assert(m[m.len() - 1].0[0] != c);
            lemma_vocabulary_has_the_members(front, k, c);
        }
    }
}

proof fn lemma_vocabulary_reads(m: Seq<(Seq<char>, Option<i64>)>)
    requires
        forall|j: int|
            0 <= j < m.len() ==> (#[trigger] m[j]).0.len() == 1 && m[j].1 is Some,
    ensures
        vocabulary_of(m) is Ok,
    decreases m.len(),
{
    if m.len() > 0 {
        let front = m.drop_last();
        assert(forall|j: int| 0 <= j < front.len() ==> #[trigger] front[j] == m[j]);
        assert(m.last() == m[m.len() - 1]);
        lemma_vocabulary_reads(front);
    }
}

/// The first member that cannot be part of a vocabulary says what is wrong: a name that is
/// not one character before an id that is no integer.
pub proof fn lemma_first_bad_member_counts(m: Seq<(Seq<char>, Option<i64>)>, k: int)
    requires
        0 <= k < m.len(),
        forall|j: int|
            0 <= j < k ==> (#[trigger] m[j]).0.len() == 1 && m[j].1 is Some,
    ensures
        m[k].0.len() != 1 ==> vocabulary_of(m) == Err::<Map<char, i64>, _>(
            ConfigErrorView::Key(m[k].0),
        ),
        m[k].0.len() == 1 && m[k].1 is None ==> vocabulary_of(m) == Err::<Map<char, i64>, _>(
            ConfigErrorView::Id,
        ),
{
    let upto = m.take(k + 1);
    assert(upto.drop_last() =~= m.take(k));
    assert(upto.last() == m[k]);
    lemma_vocabulary_reads(m.take(k));
    if vocabulary_of(upto) is Err {
        lemma_vocabulary_error(m, k + 1);
    }
}

/// A configuration is JSON with an object under `vocab`, whose members are the vocabulary.
pub proof fn lemma_what_is_configured(config: Seq<char>)
    ensures
        match json_object(config, "vocab"@) {
            None => configured(config) == Err::<Map<char, i64>, _>(ConfigErrorView::Syntax),
            Some(None) => configured(config) == Err::<Map<char, i64>, _>(ConfigErrorView::NoVocab),
            Some(Some(m)) => configured(config) == vocabulary_of(m),
        },
{
}

} // verus!
