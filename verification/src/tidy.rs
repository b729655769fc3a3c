//! Cleaning up text pasted out of a PDF.

use crate::text::{
    chars_of, lemma_trimmed_ends, same_text, string_of, trim, trimmed,
};
use vstd::prelude::*;

verus! {

/// A text with every match of a pattern replaced; nothing where the search gives up.
pub uninterp spec fn regex_replaced(
    pattern: Seq<char>,
    text: Seq<char>,
    replacement: Seq<char>,
) -> Option<Seq<char>>;

/// The matches of a pattern in a text, in order: of each, whether the search came
/// to its end.
pub uninterp spec fn regex_matches(pattern: Seq<char>, text: Seq<char>) -> Option<Seq<bool>>;

/// `fancy_regex::Regex::try_replacen` with the limit 0 replaces every match of the
/// pattern that `fancy_regex::Regex::new` compiles. It fails where the pattern does
/// not compile or backtracking goes on for too long. The result is a function of
/// the three texts; it is named `regex_replaced`.
#[verifier::external_body]
fn replace_matches(pattern: &str, text: &str, replacement: &str) -> (r: Option<String>)
    ensures
        match r {
            Some(t) => regex_replaced(pattern@, text@, replacement@) == Some(t@),
            None => regex_replaced(pattern@, text@, replacement@) is None,
        },
{
    let regex = fancy_regex::Regex::new(pattern).ok()?;
    regex.try_replacen(text, 0, replacement).ok().map(|t| t.into_owned())
}

/// `fancy_regex::Regex::find_iter` walks the matches of the pattern that
/// `fancy_regex::Regex::new` compiles. What it yields is a function of the two
/// texts; whether each item is a match or an error is named `regex_matches`.
#[verifier::external_body]
fn find_matches(pattern: &str, text: &str) -> (r: Option<Vec<bool>>)
    ensures
        match r {
            Some(v) => regex_matches(pattern@, text@) == Some(v@),
            None => regex_matches(pattern@, text@) is None,
        },
{
    let regex = fancy_regex::Regex::new(pattern).ok()?;
    let mut found = Vec::new();
    for m in regex.find_iter(text) {
        found.push(m.is_ok());
    }
    Some(found)
}

/// How many rules there are.
pub const RULES: usize = 7;

/// The `k`th rule: a pattern, and what stands in place of its matches.
pub open spec fn rule(k: int) -> (Seq<char>, Seq<char>) {
    if k == 0 {
        (r"([a-z])-[ \t]*\n[ \t]*([a-z])"@, "$1$2"@)
    } else if k == 1 {
        (r"([a-z])- (?!(?:or|and|nor|to|the)\b)([a-z])"@, "$1$2"@)
    } else if k == 2 {
        (r"\s*\[\d[\d,\s–-]*\]"@, ""@)
    } else if k == 3 {
        (r",\s*(?=[,.;:])"@, ""@)
    } else if k == 4 {
        (r"((?:^|\n|\. )[IVXLC]+\.\s+)([A-Z]) ([A-Z]{3,})"@, "$1$2$3"@)
    } else if k == 5 {
        (r"([^\n])\n(?!\n)"@, "$1 "@)
    } else {
        (r"[ \t]{2,}"@, " "@)
    }
}

fn rule_of(k: usize) -> (r: (&'static str, &'static str))
    ensures
        (r.0@, r.1@) == rule(k as int),
{
    match k {
        // a hyphen at a wrapped line end: "en-\ngines"
        0 => (r"([a-z])-[ \t]*\n[ \t]*([a-z])", "$1$2"),
        // a split inside a line: "en- gines", but not "two- or three-"
        1 => (r"([a-z])- (?!(?:or|and|nor|to|the)\b)([a-z])", "$1$2"),
        // citations: [10], [1, 2], [3-5]
        2 => (r"\s*\[\d[\d,\s–-]*\]", ""),
        // ",," left behind by removed citations
        3 => (r",\s*(?=[,.;:])", ""),
        // "IV. M ETHODOLOGY" in headings
        4 => (r"((?:^|\n|\. )[IVXLC]+\.\s+)([A-Z]) ([A-Z]{3,})", "$1$2$3"),
        // unwrap hard line breaks, keep paragraph breaks
        5 => (r"([^\n])\n(?!\n)", "$1 "),
        _ => (r"[ \t]{2,}", " "),
    }
}

/// A text after the first `k` rules; nothing where one of them gave up.
pub open spec fn ruled(text: Seq<char>, k: int) -> Option<Seq<char>>
    decreases k,
{
    if k <= 0 {
        Some(text)
    } else {
        match ruled(text, k - 1) {
            Some(t) => regex_replaced(rule(k - 1).0, t, rule(k - 1).1),
            None => None,
        }
    }
}

/// A tidied text: after all the rules, and trimmed.
pub open spec fn tidied(text: Seq<char>) -> Option<Seq<char>> {
    match ruled(text, RULES as int) {
        Some(t) => Some(trimmed(t)),
        None => None,
    }
}

proof fn lemma_ruled_none(text: Seq<char>, j: int, k: int)
    requires
        j <= k,
        ruled(text, j) is None,
    ensures
        ruled(text, k) is None,
    decreases k - j,
{
    if j < k {
        lemma_ruled_none(text, j, k - 1);
    }
}

fn apply_rules(text: &str) -> (r: Option<String>)
    ensures
        match r {
            Some(t) => ruled(text@, RULES as int) == Some(t@),
            None => ruled(text@, RULES as int) is None,
        },
{
    let chars = chars_of(text);
    let mut out = string_of(chars.as_slice());
    let mut k: usize = 0;
    while k < RULES
        invariant
            k <= RULES,
            ruled(text@, k as int) == Some(out@),
        decreases RULES - k,
    {
        let (pattern, replacement) = rule_of(k);
        match replace_matches(pattern, out.as_str(), replacement) {
            Some(t) => {
                out = t;
            },
            None => {
                proof {
                    lemma_ruled_none(text@, k + 1, RULES as int);
                }
                return None;
            },
        }
        k += 1;
    }
    Some(out)
}

/// Clean up a text on which no rule gives up.
pub fn tidy(text: &str) -> (r: String)
    requires
        tidied(text@) is Some,
    ensures
        tidied(text@) == Some(r@),
        trimmed(r@) == r@,
{
    let out = apply_rules(text).unwrap();
    let chars = chars_of(out.as_str());
    let ends = trim(chars.as_slice());
    proof {
        lemma_trimmed_ends(chars@);
    }
    string_of(ends.as_slice())
}

/// Clean up a text; nothing where a rule gives up on it.
pub fn try_tidy(text: &str) -> (r: Option<String>)
    ensures
        r is Some <==> tidied(text@) is Some,
        r is Some ==> tidied(text@) == Some(r->0@) && trimmed(r->0@) == r->0@,
{
    match apply_rules(text) {
        Some(_) => Some(tidy(text)),
        None => None,
    }
}

/// How many matches were found.
pub open spec fn found(m: Option<Seq<bool>>) -> nat {
    match m {
        Some(v) => v.filter(|ok: bool| ok).len(),
        None => 0,
    }
}

fn count_found(m: &Option<Vec<bool>>) -> (n: usize)
    ensures
        n == found(
            match *m {
                Some(v) => Some(v@),
                None => None,
            },
        ),
{
    match m {
        None => 0,
        Some(v) => {
            let ghost ok = |ok: bool| ok;
            let mut n: usize = 0;
            let mut i: usize = 0;
            assert(v@.take(0).filter(ok).len() == 0) by {
                reveal(Seq::filter);
            }
            while i < v.len()
                invariant
                    i <= v.len(),
                    n <= i,
                    ok == |ok: bool| ok,
                    n == v@.take(i as int).filter(ok).len(),
                decreases v.len() - i,
            {
                assert(v@.take(i + 1) =~= v@.take(i as int).push(v@[i as int]));
                proof {
                    v@.take(i as int).lemma_filter_push(v@[i as int], ok);
                }
                if v[i] {
                    n += 1;
                }
                i += 1;
            }
            assert(v@.take(i as int) =~= v@);
            n
        },
    }
}

/// Does a text read as PDF debris: two split words, three citations, or five lines
/// broken in mid-sentence?
pub open spec fn messy(text: Seq<char>) -> bool {
    ||| found(regex_matches(r"[a-z]- [a-z]"@, text)) >= 2
    ||| found(regex_matches(r"\[\d[\d,\s–-]*\]"@, text)) >= 3
    ||| found(regex_matches(r"[a-z,;] ?\n(?!\n)[a-z]"@, text)) >= 5
}

/// Is it messy enough to clean up, going by how often each sign of it was found?
pub fn is_messy(splits: usize, citations: usize, breaks: usize) -> (b: bool)
    ensures
        b == (splits >= 2 || citations >= 3 || breaks >= 5),
{
    splits >= 2 || citations >= 3 || breaks >= 5
}

/// Does a text read as PDF debris?
pub fn looks_messy(text: &str) -> (b: bool)
    ensures
        b == messy(text@),
{
    let splits = find_matches(r"[a-z]- [a-z]", text);
    let citations = find_matches(r"\[\d[\d,\s–-]*\]", text);
    let breaks = find_matches(r"[a-z,;] ?\n(?!\n)[a-z]", text);
    is_messy(count_found(&splits), count_found(&citations), count_found(&breaks))
}

/// What to replace a text by, given what tidying makes of it: nothing where that
/// changes nothing or leaves nothing.
pub fn worth_it(text: &str, cleaned: String) -> (r: Option<String>)
    ensures
        r is Some <==> cleaned@ != text@ && trimmed(cleaned@).len() > 0,
        r is Some ==> r->0@ == cleaned@,
{
    let chars = chars_of(cleaned.as_str());
    let ends = trim(chars.as_slice());
    if !same_text(cleaned.as_str(), text) && ends.len() > 0 {
        Some(cleaned)
    } else {
        None
    }
}

/// The auto-tidy policy: clean a text up only if it reads as PDF debris and that
/// changes something without emptying it. A text that a rule gives up on stays.
pub fn tidy_if_messy(text: &str) -> (r: Option<String>)
    ensures
        r is Some <==> messy(text@) && tidied(text@) is Some && tidied(text@)->0 != text@
            && tidied(text@)->0.len() > 0,
        r is Some ==> tidied(text@) == Some(r->0@),
{
    if !looks_messy(text) {
        return None;
    }
    match try_tidy(text) {
        None => None,
        Some(cleaned) => worth_it(text, cleaned),
    }
}

/// The rules in order: words split at a line end or in a line are joined, citations go and
/// the commas they leave, headings lose the space in them, single line breaks become spaces,
/// and runs of blanks one space. The last thing is to trim.
pub proof fn lemma_rules_in_order(
    text: Seq<char>,
    joined: Seq<char>,
    whole: Seq<char>,
    plain: Seq<char>,
    clean: Seq<char>,
    headed: Seq<char>,
    unwrapped: Seq<char>,
    single: Seq<char>,
)
    requires
        regex_replaced(r"([a-z])-[ \t]*\n[ \t]*([a-z])"@, text, "$1$2"@) == Some(joined),
        regex_replaced(r"([a-z])- (?!(?:or|and|nor|to|the)\b)([a-z])"@, joined, "$1$2"@) == Some(
            whole,
        ),
        regex_replaced(r"\s*\[\d[\d,\s–-]*\]"@, whole, ""@) == Some(plain),
        regex_replaced(r",\s*(?=[,.;:])"@, plain, ""@) == Some(clean),
        regex_replaced(
            r"((?:^|\n|\. )[IVXLC]+\.\s+)([A-Z]) ([A-Z]{3,})"@,
            clean,
            "$1$2$3"@,
        ) == Some(headed),
        regex_replaced(r"([^\n])\n(?!\n)"@, headed, "$1 "@) == Some(unwrapped),
        regex_replaced(r"[ \t]{2,}"@, unwrapped, " "@) == Some(single),
    ensures
        tidied(text) == Some(trimmed(single)),
{
    reveal_with_fuel(ruled, 8);
    assert(ruled(text, 1) == Some(joined));
    assert(ruled(text, 2) == Some(whole));
    assert(ruled(text, 3) == Some(plain));
    assert(ruled(text, 4) == Some(clean));
    assert(ruled(text, 5) == Some(headed));
    assert(ruled(text, 6) == Some(unwrapped));
    assert(ruled(text, 7) == Some(single));
}

/// How many matches count: those at which the search came to its end.
pub proof fn lemma_found_counts(v: Seq<bool>, ok: bool)
    ensures
        found(None) == 0,
        found(Some(Seq::<bool>::empty())) == 0,
        found(Some(v.push(ok))) == found(Some(v)) + (if ok {
            1nat
        } else {
            0nat
        }),
{
    let keep = |ok: bool| ok;
    v.lemma_filter_push(ok, keep);
    assert(Seq::<bool>::empty().filter(keep).len() == 0) by {
        reveal(Seq::filter);
    }
}

/// A text is messy if it has two words split in a line, three citations, or five lines
/// broken in mid-sentence.
pub proof fn lemma_what_is_messy(text: Seq<char>)
    ensures
        messy(text) <==> found(regex_matches(r"[a-z]- [a-z]"@, text)) >= 2 || found(
            regex_matches(r"\[\d[\d,\s–-]*\]"@, text),
        ) >= 3 || found(regex_matches(r"[a-z,;] ?\n(?!\n)[a-z]"@, text)) >= 5,
{
}

} // verus!
