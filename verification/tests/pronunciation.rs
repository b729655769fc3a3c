//! From text to phonemes to tokens.

use minimal_tts::g2p::{join_clauses, phonemizer_input, ConfigError, G2p, Vocabulary, MAX_PHONEME_LENGTH};
use minimal_tts::lexicon::{load_lexicon, lookup, respell, Lexicon};
use minimal_tts::phonemes::{merge_words, padded, plan_batches, split_phonemes, timed_words, Group};
use minimal_tts::punctuation::{is_mark, postprocess_line, preserve, restore, Mark, Position};
use minimal_tts::speech::{plan_speech, Unspeakable};

fn mark(text: &str, position: Position) -> Mark {
    Mark { text: text.to_string(), position }
}

fn strings(v: &[&str]) -> Vec<String> {
    v.iter().map(|s| s.to_string()).collect()
}

fn shown(marks: &[Mark]) -> Vec<(String, Position)> {
    marks.iter().map(|m| (m.text.clone(), m.position)).collect()
}

/// A vocabulary of lower-case letters, the space, the stress mark and a few marks.
fn letters() -> Vocabulary {
    let mut members = vec![];
    for (i, c) in " abcdefghijklmnopqrstuvwxyzˈ,.!?".chars().enumerate() {
        members.push((c.to_string(), Some(i as i64 + 1)));
    }
    Vocabulary::from_members(&members).unwrap()
}

#[test]
fn respell_matches_whole_words_case_insensitively() {
    let mut lex = Lexicon::new();
    for (k, v) in [("kubectl", "koob cuttle"), ("aws", "ay double you ess")] {
        lex.insert(k.to_string(), v.to_string());
    }

    // punctuation around a match is preserved, and case doesn't matter
    assert_eq!(respell("Run kubectl, then AWS.", &lex), "Run koob cuttle, then ay double you ess.");
    // whole words only — no substring hits
    assert_eq!(respell("kubectlx and xkubectl", &lex), "kubectlx and xkubectl");
    // untouched text comes back byte-identical
    assert_eq!(respell("nothing to see here", &lex), "nothing to see here");
    assert_eq!(respell("naïve café — dash", &lex), "naïve café — dash");
}

#[test]
fn lexicon_file_is_read_line_by_line() {
    let lex = load_lexicon(
        "# names\nkubectl\tkoob cuttle\r\n\nAWS\tay double you ess\nSQL  sequel\nno separator here\n\tempty term\nempty say\t\nÉTÉ\tay tay\nkubectl\tcube control\n",
    );
    assert_eq!(lex.len(), 4);
    assert_eq!(lex.get("kubectl"), Some("cube control"), "the later line counts");
    assert_eq!(lex.get("aws"), Some("ay double you ess"), "terms are kept in lower case");
    assert_eq!(lex.get("AWS"), None);
    assert_eq!(lex.get("sql"), Some("sequel"), "two spaces separate too");
    assert_eq!(lex.get("été"), Some("ay tay"), "beyond ASCII as well");
    assert_eq!(lookup("AWS", &lex), Some("ay double you ess"));
    assert_eq!(lookup("unknown", &lex), None);
    assert_eq!(respell("l'ÉTÉ, ÉTÉ!", &lex), "l'ÉTÉ, ay tay!", "an apostrophe is part of a word");
}

#[test]
fn a_title_case_letter_is_lowered_too() {
    // U+01C5 is neither upper nor lower case; in lower case it is U+01C6
    let lex = load_lexicon("\u{1c4}ep\tpocket\n");
    assert_eq!(lex.get("\u{1c6}ep"), Some("pocket"));
    assert_eq!(lookup("\u{1c5}ep", &lex), Some("pocket"));
    assert_eq!(respell("a \u{1c5}ep, a \u{1c6}ep", &lex), "a pocket, a pocket");
}

#[test]
fn a_word_is_found_in_any_case() {
    let lex = load_lexicon("SQLite\tsequel light\nk8s\tkubernetes\n");
    for word in ["sqlite", "SQLITE", "SqLiTe", "SQLite"] {
        assert_eq!(lookup(word, &lex), lex.get("sqlite"));
        assert_eq!(lookup(word, &lex), Some("sequel light"));
    }
    assert_eq!(lookup("K8S", &lex), Some("kubernetes"));
    assert_eq!(lookup("SQLite3", &lex), None);
    // a term that is kept with a capital is found as it is written only
    let mut own = Lexicon::new();
    own.insert("AWS".to_string(), "cloud".to_string());
    assert_eq!(lookup("AWS", &own), Some("cloud"));
    assert_eq!(lookup("aws", &own), None);
}

#[test]
fn lexicon_takes_and_replaces() {
    let mut lex = Lexicon::new();
    assert_eq!(lex.len(), 0);
    lex.insert("a".to_string(), "b".to_string());
    lex.insert("a".to_string(), "c".to_string());
    assert_eq!(lex.len(), 1);
    assert_eq!(lex.get("a"), Some("c"));
}

#[test]
fn punctuation_is_cut_out_and_put_back() {
    let (chunks, marks) = preserve("Hello, world. Bye");
    assert_eq!(chunks, strings(&["Hello", "world", "Bye"]));
    assert_eq!(
        shown(&marks),
        vec![(", ".to_string(), Position::Inside), (". ".to_string(), Position::Inside)]
    );
    assert_eq!(restore(&chunks, &marks), strings(&["Hello, world. Bye "]));

    let (chunks, marks) = preserve("\"Hi!\"");
    assert_eq!(chunks, strings(&["Hi"]));
    assert_eq!(
        shown(&marks),
        vec![("\"".to_string(), Position::Begin), ("!\"".to_string(), Position::End)]
    );
    assert_eq!(restore(&chunks, &marks), strings(&["\"Hi!\" "]));

    let (chunks, marks) = preserve("...");
    assert!(chunks.is_empty());
    assert_eq!(shown(&marks), vec![("...".to_string(), Position::Alone)]);

    let (chunks, marks) = preserve("no marks at all");
    assert_eq!(chunks, strings(&["no marks at all"]));
    assert!(marks.is_empty());
}

#[test]
fn marks_come_back_after_leading_space() {
    for line in [" hi, there", "\t\"Hi!\"", "  , a. b", "a b"] {
        let (chunks, marks) = preserve(line);
        assert_eq!(restore(&chunks, &marks), vec![format!("{line} ")]);
    }
    let (chunks, marks) = preserve("?!");
    assert_eq!(restore(&chunks, &marks), strings(&["?!"]));
}

#[test]
fn restoring_marks_without_chunks_joins_them() {
    let marks = vec![mark("!", Position::Begin), mark("?", Position::End)];
    assert_eq!(restore(&vec![], &marks), strings(&["!?"]));
    assert_eq!(restore(&strings(&["a", "b "]), &vec![]), strings(&["a ", "b "]));
}

#[test]
fn marks_after_an_end_never_match_again() {
    let marks = vec![mark(".", Position::End), mark("!", Position::Inside)];
    assert_eq!(restore(&strings(&["a", "b"]), &marks), strings(&["a. ", "b", "!"]));
}

#[test]
fn marks_are_the_usual_ones() {
    for c in ";:,.!?¡¿—…\"«»“”(){}[]".chars() {
        assert!(is_mark(c), "{c}");
    }
    for c in "a'- \n".chars() {
        assert!(!is_mark(c), "{c}");
    }
}

#[test]
fn phonemizer_lines_are_finished() {
    assert_eq!(postprocess_line("h_ə_l_oʊ w_ɜː_l_d\n"), "həloʊ wɜːld ");
    assert_eq!(postprocess_line("a__b_ c"), "ab c ");
    assert_eq!(postprocess_line("  "), "");
    assert_eq!(postprocess_line("a\nb"), "a b ");
}

#[test]
fn clauses_are_joined_and_nul_is_dropped() {
    assert_eq!(join_clauses(&strings(&["a", "", "b"])), "a b");
    assert_eq!(join_clauses(&vec![]), "");
    assert_eq!(phonemizer_input("a\0b\0"), "ab");
}

#[test]
fn configuration_holds_the_vocabulary() {
    let g = G2p::new(r#"{"vocab": {"a": 7, "ə": -3}, "other": 1}"#, Some("aws\tay ess\n")).unwrap();
    assert_eq!(g.vocab.id_of('a'), Some(7));
    assert_eq!(g.vocab.id_of('ə'), Some(-3));
    assert_eq!(g.vocab.id_of('b'), None);
    assert_eq!(g.lexicon_len(), 1);
    assert_eq!(g.respelled("AWS!"), "ay ess!");
    assert_eq!(g.tokenize("aəba"), vec![7, -3, 7]);
    assert_eq!(G2p::new(r#"{"vocab": {}}"#, None).unwrap().lexicon_len(), 0);
}

#[test]
fn broken_configurations_are_refused() {
    assert!(matches!(G2p::new("not json", None), Err(ConfigError::Syntax)));
    assert!(matches!(G2p::new("{}", None), Err(ConfigError::NoVocab)));
    assert!(matches!(G2p::new(r#"{"vocab": 3}"#, None), Err(ConfigError::NoVocab)));
    match G2p::new(r#"{"vocab": {"ab": 1}}"#, None) {
        Err(ConfigError::Key(k)) => assert_eq!(k, "ab"),
        _ => panic!("a key of two characters"),
    }
    assert!(matches!(G2p::new(r#"{"vocab": {"": 1}}"#, None), Err(ConfigError::Key(_))));
    assert!(matches!(G2p::new(r#"{"vocab": {"a": "x"}}"#, None), Err(ConfigError::Id)));
}

#[test]
fn a_line_goes_from_text_to_phonemes() {
    let mut lex = Lexicon::new();
    lex.insert("aws".to_string(), "ay ess".to_string());
    let g = G2p::with(letters(), lex);
    let (chunks, marks) = g.prepare("  AWS, go!  ");
    assert_eq!(chunks, strings(&["ay ess", "go"]));
    let raw = strings(&["ˈe_ɪ e_s", "ɡ_oʊ g_o"]);
    let phonemes = g.phonemize(&raw, &marks);
    assert_eq!(phonemes, "ˈe es, o go!", "unknown characters are gone, punctuation is back");
    assert_eq!(g.tokenize(&phonemes).len(), phonemes.chars().count(), "every phoneme has a token");
    assert_eq!(g.phonemize_solo(" ˈh_aɪ_ "), "ˈha");

    let (chunks, marks) = g.prepare(" \n\t ");
    assert!(chunks.is_empty() && marks.is_empty());
    assert_eq!(g.phonemize(&vec![], &vec![]), "");
}

#[test]
fn speech_is_planned_or_refused() {
    let g = G2p::with(letters(), Lexicon::new());
    let plan = plan_speech(&g, &strings(&["h_a", "b_o"]), &vec![mark(", ", Position::Inside)]).unwrap();
    assert_eq!(plan.len(), 1);
    assert_eq!(plan[0].phonemes, "ha, bo");
    assert_eq!(plan[0].ids.len(), 6);
    assert!(matches!(plan_speech(&g, &strings(&["ɜɜ"]), &vec![]), Err(Unspeakable)));
}

#[test]
fn batches_break_at_spaces_and_never_exceed_the_limit() {
    assert_eq!(split_phonemes("a b  c"), strings(&["a b c"]));
    assert!(split_phonemes("   ").is_empty());
    let word = "x".repeat(250);
    let three = format!("{word} {word} {word}");
    assert_eq!(split_phonemes(&three), vec![format!("{word} {word}"), word.clone()]);
    let long = "y".repeat(1100);
    let parts = split_phonemes(&format!("{long} z"));
    assert_eq!(parts.len(), 3);
    assert!(parts.iter().all(|p| p.chars().count() <= MAX_PHONEME_LENGTH));
    assert_eq!(parts.concat().replace(' ', ""), format!("{long}z"), "nothing is lost");
    assert_eq!(parts[2], format!("{} z", "y".repeat(80)));
}

#[test]
fn batches_without_tokens_are_left_out() {
    let g = G2p::with(letters(), Lexicon::new());
    let long = "ɜ".repeat(600);
    let plan = plan_batches(&g, &format!("ab {long}"));
    assert_eq!(plan.len(), 1);
    assert_eq!(plan[0].phonemes, "ab");
    assert_eq!(plan[0].ids, vec![2, 3]);
    assert_eq!(padded(&plan[0].ids), vec![0, 2, 3, 0]);
}

#[test]
fn words_are_timed_as_far_as_durations_go() {
    let words = timed_words("ab  c", 7);
    assert_eq!(words.len(), 2);
    assert_eq!((words[0].phonemes.as_str(), words[0].first, words[0].last, words[0].spaced), ("ab", 1, 3, true));
    assert_eq!((words[1].phonemes.as_str(), words[1].first, words[1].last, words[1].spaced), ("c", 5, 6, false));
    assert_eq!(timed_words("ab  c", 6).len(), 1, "the last duration is missing");
    assert!(timed_words("ab", 2).is_empty());
}

#[test]
fn punctuation_joins_the_word_before_it() {
    let g = |core, first, last| Group { core, first, last };
    assert_eq!(merge_words(&strings(&["—", "a", ",", ".", "b"])), vec![g(1, 0, 3), g(4, 4, 4)]);
    assert_eq!(merge_words(&strings(&["!", "?"])), vec![g(0, 0, 1)]);
    assert_eq!(merge_words(&vec![]), vec![]);
}
