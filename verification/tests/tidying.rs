//! Tidying pasted text, and the editor that asks for it.

use minimal_tts::editor::{arms_tidy, is_control, sanitize, Editor};
use minimal_tts::tidy::{is_messy, looks_messy, tidy, tidy_if_messy, try_tidy, worth_it};

#[test]
fn tidy_arms_on_paste_but_not_on_undo() {
    let pasted = "x".repeat(500);
    assert!(arms_tidy(0, &pasted, None), "a big paste arms it");
    assert!(!arms_tidy(0, "typed a bit", None), "typing never does");
    // Ctrl+Z on a tidy brings the longer text back — that must not re-arm,
    // or the undo is immediately reversed
    assert!(!arms_tidy(0, &pasted, Some(&pasted)), "undoing a tidy is not a paste");
    // ...but pasting it again afterwards should still work
    assert!(arms_tidy(0, &pasted, Some("something else")));
    // replacing a loaded document with a shorter one is still a paste
    assert!(arms_tidy(5000, &pasted, None), "a shorter paste arms it too");
    assert!(!arms_tidy(500, &"x".repeat(450), None), "small trims do not");
}

#[test]
fn sanitize_keeps_newlines_drops_control() {
    assert_eq!(sanitize("a\tb"), "a b");
    assert_eq!(sanitize("a\r\nb"), "a\nb");
    assert_eq!(sanitize("a\u{0}\u{7}b"), "ab");
    assert_eq!(sanitize("héllo — ünïcode\n2nd line"), "héllo — ünïcode\n2nd line");
}

#[test]
fn sanitizing_again_changes_nothing() {
    for c in 0..=0x10ffffu32 {
        if let Some(c) = char::from_u32(c) {
            assert_eq!(is_control(c), c.is_control());
        }
    }
    let once = sanitize("a\t\u{85}\u{9f}\u{7f}b\r\n");
    assert_eq!(once, "a b\n");
    assert_eq!(sanitize(&once), once);
}

#[test]
fn messy_pdf_paste_is_tidied() {
    // auto-tidy on paste cleans exactly this shape:
    // ≥5 mid-sentence single-newline breaks trip looks_messy
    let pasted = "Model IR channels and proc state as first-class graph\n\
                  nodes connected by synthetic binding edges, so channel\n\
                  and state edits flow through the existing node and edge\n\
                  differencing and patching machinery and are enacted\n\
                  through native channel and state APIs, removing\n\
                  the manual fixup step.";
    assert!(looks_messy(pasted), "PDF-style line breaks read as messy");
    let cleaned = tidy(pasted);
    assert!(!cleaned.contains("graph\nnodes"), "mid-sentence breaks should be joined");
    assert!(cleaned.contains("graph nodes"), "joined with a space");
}

#[test]
fn each_rule_cleans_its_shape() {
    assert_eq!(tidy("en-\ngines"), "engines");
    assert_eq!(tidy("en- gines, two- or three-fold"), "engines, two- or three-fold");
    assert_eq!(tidy("as shown [10], and [1, 2] too [3-5]."), "as shown, and too.");
    assert_eq!(tidy("a,  , b"), "a, b");
    assert_eq!(tidy("x. IV. M ETHODOLOGY"), "x. IV. METHODOLOGY");
    assert_eq!(tidy("one\ntwo\n\nthree"), "one two\n\nthree");
    assert_eq!(tidy("  a \t  b  "), "a b");
}

#[test]
fn only_messy_text_is_tidied() {
    assert_eq!(tidy_if_messy("clean text."), None);
    assert_eq!(tidy_if_messy("one [1] two [2] three [3]").as_deref(), Some("one two three"));
    assert_eq!(tidy_if_messy("[1] [2] [3]"), None, "nothing would be left");
    assert!(looks_messy("en- gines and ma- chines"));
    assert!(!looks_messy("en- gines"));
    assert!(is_messy(2, 0, 0) && is_messy(0, 3, 0) && is_messy(0, 0, 5));
    assert!(!is_messy(1, 2, 4));
    assert_eq!(try_tidy(" a ").as_deref(), Some("a"));
    assert_eq!(worth_it("a", "a".to_string()), None);
    assert_eq!(worth_it("a", " ".to_string()), None);
    assert_eq!(worth_it("a", "b".to_string()).as_deref(), Some("b"));
}

#[test]
fn a_paste_is_tidied_and_its_undo_sticks() {
    let messy = "some lines that were broken\nby a column that was narrow\nand went on for a while\nuntil there were enough of them,\nfive at the very least\nof them in all";
    let mut e = Editor::new(0);
    e.note_edit(messy);
    assert!(e.pending_tidy, "a paste");
    e.pending_tidy = false;
    assert_eq!(e.tidy_editor(true, messy), None, "not while it is read");
    let cleaned = e.tidy_editor(false, messy).unwrap();
    assert!(!cleaned.contains('\n'));
    assert_eq!(e.tidy_source.as_deref(), Some(messy));
    e.note_edit(&cleaned);
    assert!(!e.pending_tidy);
    e.len = 0;
    e.note_edit(messy); // undone
    assert!(!e.pending_tidy);
    assert_eq!(e.tidy_source, None);
    e.note_edit("");
    e.pending_tidy = false;
    e.note_edit(messy); // pasted again
    assert!(e.pending_tidy);
}

#[test]
fn wrapped_lines_join_into_one() {
    let messy = "the rows are individual cycles and adjacent cycles are almost\n\
                 identical, the ADC signal is smooth, and multi-cycle\n\
                 instructions and stalls make the same feature row repeat\n\
                 across consecutive cycles, so pooling them and splitting\n\
                 at random would leak neighbours into the training set.";
    assert!(!sanitize(&tidy(messy)).contains('\n'));
    let cited = "differencing and patching machinery [12] and are enacted";
    assert_eq!(tidy(cited), "differencing and patching machinery and are enacted");
}
