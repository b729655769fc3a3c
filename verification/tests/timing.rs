//! Which written word is spoken when.

use minimal_tts::align::{align, Slot};
use minimal_tts::distance::{edit_distance, levenshtein};
use minimal_tts::speech::schedule;
use minimal_tts::words::{word_ranges, words_of};

fn strings(v: &[&str]) -> Vec<String> {
    v.iter().map(|s| s.to_string()).collect()
}

fn shape(s: &Slot) -> (usize, usize, usize, usize) {
    (s.first, s.last, s.index, s.count)
}

#[test]
fn distance_counts_edits() {
    assert_eq!(levenshtein("kitten", "sitting"), 3);
    assert_eq!(levenshtein("", "abc"), 3);
    assert_eq!(levenshtein("naïve", "naive"), 1);
    assert_eq!(levenshtein("same", "same"), 0);
    assert_eq!(edit_distance(&['a', 'b'], &['b', 'a']), edit_distance(&['b', 'a'], &['a', 'b']));
}

#[test]
fn equal_counts_match_word_for_word() {
    let a = align(&strings(&["x", "y"]), &strings(&["completely", "different"]));
    assert!(!a.fallback);
    assert_eq!(a.slots.iter().map(shape).collect::<Vec<_>>(), vec![(0, 0, 0, 1), (1, 1, 0, 1)]);
}

#[test]
fn merged_words_share_a_phoneme_word() {
    // "with the cat" spoken as two words
    let a = align(&strings(&["wɪððə", "kæt"]), &strings(&["wɪð", "ðə", "kæt"]));
    assert!(!a.fallback);
    let slots: Vec<_> = a.slots.iter().map(shape).collect();
    assert_eq!(slots, vec![(0, 0, 0, 2), (0, 0, 1, 2), (1, 1, 0, 1)]);
    assert_eq!((a.slots[0].part, a.slots[0].total), (3, 5));
    assert_eq!((a.slots[1].part, a.slots[1].total), (2, 5));
}

#[test]
fn expanded_numerals_span_several() {
    // "42 cats" spoken as three words
    let a = align(&strings(&["fɔːɹti", "tuː", "kæts"]), &strings(&["fɔːɹti tuː", "kæts"]));
    assert_eq!(a.slots.iter().map(shape).collect::<Vec<_>>(), vec![(0, 1, 0, 1), (2, 2, 0, 1)]);
}

#[test]
fn words_that_cannot_be_matched_share_everything() {
    let a = align(&strings(&["a"]), &strings(&["a", "b", "", "dd"]));
    assert!(a.fallback);
    assert_eq!(a.slots.len(), 4);
    assert!(a.slots.iter().all(|s| s.first == 0 && s.last == 0 && s.count == 4 && s.total == 5));
    assert_eq!(a.slots.iter().map(|s| s.part).collect::<Vec<_>>(), vec![1, 1, 1, 2]);
}

#[test]
fn nothing_spoken_or_written_times_nothing() {
    assert!(align(&vec![], &strings(&["a"])).slots.is_empty());
    assert!(align(&strings(&["a"]), &vec![]).slots.is_empty());
}

#[test]
fn words_lie_between_ascii_white_space() {
    assert_eq!(word_ranges(" ab\tc\u{a0}d\u{b}e \n"), vec![(1, 3), (4, 10)]);
    assert_eq!(word_ranges(""), vec![]);
    let words = words_of("né é");
    assert_eq!(words.len(), 2);
    assert_eq!((words[0].start, words[0].end, words[0].text.as_str()), (0, 3, "né"));
    assert_eq!((words[1].start, words[1].end, words[1].text.as_str()), (4, 6, "é"));
}

#[test]
fn a_sentence_is_timed_from_end_to_end() {
    let text = "Oh, the cat!";
    let words = words_of(text);
    let spoken = strings(&["oʊ", ",", "ðəkæt", "!"]);
    let s = schedule(&words, &spoken, &strings(&["oʊ", "ðə", "kæt"]));
    assert!(!s.fallback);
    assert_eq!(s.slots.len(), 3);
    assert_eq!((s.slots[0].first, s.slots[0].last), (0, 1), "a comma belongs to its word");
    assert_eq!((s.slots[1].first, s.slots[1].last), (2, 3));
    assert_eq!((s.slots[2].first, s.slots[2].last, s.slots[2].index, s.slots[2].count), (2, 3, 1, 2));
    assert_eq!(&text[s.slots[2].char_start..s.slots[2].char_end], "cat!");
}
