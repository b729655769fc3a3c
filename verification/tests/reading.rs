//! Sentences, documents, layout, and the reader.

use minimal_tts::audio::{seek_offset, Audio, Clip, Segment, SAMPLE_RATE};
use minimal_tts::bytes::{chars_and_offsets, width_of};
use minimal_tts::cache::{superseded, Key, KeySet, Lru, Req, Spoken, CACHE_CAP};
use minimal_tts::document::{build_doc, doc_first_word, doc_of, Doc};
use minimal_tts::export::{receive, Export, Outcome, Poll};
use minimal_tts::layout::{blob_seed, next_noise, place_clusters, tint_bands, Cluster};
use minimal_tts::player::{media_title, text_hash, MediaEvent, Player, MAX_CHARS};
use minimal_tts::progress::{spoken_word, tally, time_label};
use minimal_tts::scene::{MediaState, Status};
use minimal_tts::segment::{ranges_of, sentence_ranges};
use minimal_tts::text::is_white;
use minimal_tts::words::words_of;

const TEXT: &str = "First one. Second two. Third three. Fourth four.";

fn key(text: &str) -> Key {
    Key { voice: "am_michael".to_string(), speed100: 100, text: text.to_string() }
}

fn spoken(id: u64, samples: u32) -> Spoken {
    Spoken { clip: Clip { id, samples }, starts: vec![0, 12_000] }
}

fn reader() -> (Player, Audio) {
    (Player::new("am_michael".to_string(), 100, 0, 0), Audio::new())
}

fn sent(p: &Player) -> Vec<u32> {
    p.outbox.iter().map(|r| r.sent).collect()
}

/// Hand the reader audio for a sentence.
fn speak(p: &mut Player, i: usize, id: u64) {
    let text = p.doc.as_ref().unwrap().sentences[i].text.clone();
    p.on_spoken(i as u32, key(&text), spoken(id, 48_000));
}

#[test]
fn sentence_ranges_utf8_safe_on_long_persian() {
    // ~3.6 KB of Persian with ZWNJ and no ASCII sentence punctuation
    let fa = "این یک متن طولانی فارسی است که هیچ نقطه‌ای ندارد ".repeat(40);
    let ranges = sentence_ranges(&fa);
    assert!(!ranges.is_empty());
    assert!(ranges.len() > 1, "a >1200-byte run-on must hard-split");
    for &(a, b) in &ranges {
        assert!(fa.is_char_boundary(a) && fa.is_char_boundary(b));
        let _ = &fa[a..b];
    }
}

#[test]
fn sentence_ranges_progress_on_spaceless_multibyte() {
    // em-dashes, no spaces, no ASCII punctuation — worst case for the cut
    let s = "—".repeat(1000);
    let ranges = sentence_ranges(&s);
    for &(a, b) in &ranges {
        assert!(s.is_char_boundary(a) && s.is_char_boundary(b));
        let _ = &s[a..b];
    }
}

#[test]
fn sentences_are_trimmed_and_nothing_is_left_out() {
    let s = "  One.  Two!\n\nThree? ";
    let got: Vec<&str> = sentence_ranges(s).iter().map(|&(a, b)| &s[a..b]).collect();
    assert_eq!(got, vec!["One.", "Two!", "Three?"]);
    assert!(sentence_ranges(" \n\t ").is_empty());
    assert!(sentence_ranges("").is_empty());
}

#[test]
fn long_sentences_are_cut_at_the_last_space_in_reach() {
    let s = format!("{} {}", "a".repeat(900), "b".repeat(900));
    assert_eq!(sentence_ranges(&s), vec![(0, 900), (901, 1801)]);
    let t = "c".repeat(2500);
    assert_eq!(sentence_ranges(&t), vec![(0, 1000), (1000, 2000), (2000, 2500)]);
    let u = "d".repeat(1200);
    assert_eq!(sentence_ranges(&u), vec![(0, 1200)], "1200 bytes are not too long");
}

#[test]
fn every_sentence_is_its_own_trim() {
    let two = format!("{}  {}", "a".repeat(900), "b".repeat(400));
    assert_eq!(sentence_ranges(&two), vec![(0, 900), (902, 1302)]);
    assert_eq!(ranges_of(&two, &vec![two.clone()]), vec![(0, 900), (902, 1302)]);
    let many = format!("{} \n\t {}", "a".repeat(990), "b ".repeat(400));
    let runs = " x".repeat(1500);
    let wide = format!("{}\u{3000} {}", "é".repeat(300), "é".repeat(700));
    for s in [two, many, runs, wide] {
        let ranges = sentence_ranges(&s);
        assert!(ranges.len() > 1);
        for &(a, b) in &ranges {
            assert_eq!(&s[a..b], s[a..b].trim());
            assert!(a < b);
        }
    }
}

#[test]
fn given_stretches_become_ranges() {
    let segs = vec![" a b. ".to_string(), "  ".to_string(), "c".to_string()];
    assert_eq!(ranges_of(" a b.   c", &segs), vec![(1, 5), (8, 9)]);
}

#[test]
fn white_space_is_unicode_white_space() {
    for u in 0..=0x10ffffu32 {
        if let Some(c) = char::from_u32(u) {
            assert_eq!(is_white(c), c.is_whitespace(), "{u:x}");
            assert_eq!(width_of(c), c.len_utf8(), "{u:x}");
        }
    }
}

#[test]
fn offsets_are_those_of_the_characters() {
    let s = "aé—😀";
    let (chars, offs) = chars_and_offsets(s);
    assert_eq!(chars, s.chars().collect::<Vec<_>>());
    assert_eq!(offs, vec![0, 1, 3, 6, 10]);
}

#[test]
fn a_document_numbers_its_words() {
    let doc = build_doc(TEXT);
    assert_eq!(doc.sentences.len(), 4);
    assert_eq!(doc.sentences[1].text, "Second two.");
    assert_eq!(doc.sentences[1].first_word, 2);
    assert_eq!(doc.sentences[1].n_words, 2);
    assert_eq!(doc.word_of[3], (1, 1));
    let (a, b) = doc.word_range[3];
    assert_eq!(&TEXT[a..b], "two.");
    assert_eq!(doc.raw, TEXT);
    assert_eq!(doc_first_word(&doc, 3), Some(6));
    assert_eq!(doc_first_word(&doc, 4), None);
}

#[test]
fn words_never_cross_a_sentence_boundary() {
    // no space between the sentences: still a word of each
    let doc = doc_of("Hello.World", &vec![(0, 6), (6, 11)]);
    assert_eq!(doc.word_of, vec![(0, 0), (1, 0)]);
    assert_eq!(doc.word_range, vec![(0, 6), (6, 11)]);
}

#[test]
fn a_wrapped_word_keeps_its_box_on_its_first_line() {
    let at = |line, start| Cluster { line, start };
    let words = vec![(0, 4), (5, 7)];
    let clusters = vec![at(0, 0), at(0, 1), at(1, 2), at(1, 3), at(1, 4), at(1, 5), at(1, 6)];
    let b = place_clusters(&words, &clusters);
    assert_eq!(b.part, vec![Some(0), Some(0), None, None, None, Some(1), Some(1)]);
    assert_eq!(b.line, vec![Some(0), Some(1)]);
    assert_eq!(tint_bands(&vec![(0, 0), (0, 1)], &b.line), vec![false, false]);
    assert_eq!(tint_bands(&vec![(0, 0), (0, 1), (1, 0)], &vec![Some(2), Some(2), Some(2)]), vec![true, false, false]);
    assert_eq!(tint_bands(&vec![(0, 0), (0, 1)], &vec![Some(0), None]), vec![true, false]);
}

#[test]
fn noise_is_a_xorshift_that_never_runs_dry() {
    assert_eq!(next_noise(1), 270_369);
    assert_eq!(next_noise(270_369), 67_634_689);
    let seed = blob_seed(0x81, 0x8c, 0xf8);
    let want = 0x81u32.wrapping_mul(73_856_093) ^ 0x8cu32.wrapping_mul(19_349_663) ^ 0xf8u32.wrapping_mul(83_492_791);
    assert_eq!(seed, want | 1);
    let mut s = seed;
    for _ in 0..10_000 {
        s = next_noise(s);
        assert_ne!(s, 0);
    }
}

#[test]
fn segments_play_in_order_without_a_gap() {
    let clip = |id| Clip { id, samples: 3 };
    let seg = |sentence, offset| Segment { sentence, offset, clip: clip(sentence as u64) };
    let mut a = Audio::new();
    assert_eq!(a.position(), None);
    assert_eq!(a.next_frame(0), (None, true));
    let epoch = a.play_now(seg(4, 1));
    assert_eq!(epoch, a.epoch());
    assert_eq!(a.position(), Some((4, 1)));
    a.enqueue(epoch, seg(5, 0));
    a.enqueue(epoch.wrapping_add(1), seg(6, 0)); // stale
    assert_eq!(a.next_frame(1), (Some(1), false));
    assert_eq!(a.next_frame(2), (Some(0), true), "on to the next segment");
    assert_eq!(a.position(), Some((5, 0)));
    assert_eq!(a.next_frame(1), (Some(1), false));
    assert_eq!(a.next_frame(2), (None, true), "the stale one was never queued");
    assert_eq!(a.position(), None);
}

#[test]
fn stopping_forgets_a_pause_and_clearing_keeps_playing() {
    let seg = Segment { sentence: u32::MAX, offset: 7, clip: Clip { id: 1, samples: 100 } };
    let mut a = Audio::new();
    let e = a.play_now(seg);
    a.set_paused(true);
    assert!(a.paused());
    a.enqueue(e, seg);
    a.clear_queue();
    assert_eq!(a.position(), Some((u32::MAX, 7)));
    assert_eq!(a.next_frame(99), (None, true));
    a.play_now(seg);
    assert!(a.paused(), "playing something else keeps a pause");
    a.stop();
    assert!(!a.paused());
    assert_eq!(a.position(), None);
}

#[test]
fn seeking_stays_inside_the_audio() {
    assert_eq!(SAMPLE_RATE, 24_000);
    assert_eq!(seek_offset(None, 48_000), 0);
    assert_eq!(seek_offset(Some(100), 48_000), 0);
    assert_eq!(seek_offset(Some(12_000), 48_000), 11_520);
    assert_eq!(seek_offset(Some(60_000), 48_000), 46_800);
    assert_eq!(seek_offset(Some(60_000), 500), 0);
}

#[test]
fn key_sets_hold_each_key_once() {
    let mut s = KeySet::new();
    s.insert(key("a"));
    s.insert(key("a"));
    s.insert(key("b"));
    assert_eq!(s.len(), 2);
    assert!(s.contains(&key("a")));
    s.remove(&key("a"));
    s.remove(&key("zzz"));
    assert_eq!(s.len(), 1);
    assert!(!s.contains(&key("a")));
    s.clear();
    assert_eq!(s.len(), 0);
}

#[test]
fn the_cache_drops_what_was_used_longest_ago() {
    let mut c = Lru::new();
    for i in 0..CACHE_CAP {
        c.put(key(&format!("{i}")), spoken(i as u64, 10));
    }
    assert!(c.get(&key("0")).is_some(), "now the most recent");
    c.put(key("new"), spoken(999, 10));
    assert!(c.contains_key(&key("0")));
    assert!(!c.contains_key(&key("1")), "the oldest is gone");
    assert!(c.contains_key(&key("2")));
    c.put(key("2"), spoken(1_000, 20));
    assert_eq!(c.get(&key("2")).unwrap().clip, Clip { id: 1_000, samples: 20 });
    assert!(c.contains_key(&key("3")), "putting a known key drops nothing");
    assert!(c.get(&key("1")).is_none());
}

#[test]
fn old_requests_are_dropped_unless_kept() {
    let req = |epoch, keep| Req { epoch, sent: 0, key: key("a"), keep };
    assert!(superseded(&req(1, false), 2));
    assert!(!superseded(&req(2, false), 2));
    assert!(!superseded(&req(1, true), 2));
}

#[test]
fn reading_waits_for_audio_and_asks_ahead() {
    let (mut p, mut a) = reader();
    p.enter_read(&mut a, TEXT, true);
    assert!(p.reading);
    assert_eq!(p.pending, Some((0, None)));
    assert_eq!(sent(&p), vec![0, 1, 2]);
    assert_eq!(p.current_sent, Some(0));
    p.step(&mut a, TEXT);
    assert_eq!(sent(&p), vec![0, 1, 2], "nothing is asked for twice");

    speak(&mut p, 0, 10);
    p.step(&mut a, TEXT);
    assert_eq!(p.pending, None);
    assert_eq!(a.position(), Some((0, 0)));
    assert_eq!(p.media, MediaState::Playing);
    assert_eq!(p.doc.as_ref().unwrap().sentences[0].dur, Some(48_000));

    speak(&mut p, 1, 11);
    speak(&mut p, 2, 12);
    speak(&mut p, 3, 13);
    p.step(&mut a, TEXT);
    assert_eq!(a.queue.len(), 2, "two sentences ahead, no more");
    assert_eq!(p.enq_next, 3);
}

#[test]
fn reading_follows_playback_and_resumes_there() {
    let (mut p, mut a) = reader();
    p.enter_read(&mut a, TEXT, true);
    for i in 0..4 {
        speak(&mut p, i, i as u64);
    }
    p.step(&mut a, TEXT);
    a.next_frame(48_000); // the first sentence has run out
    p.step(&mut a, TEXT);
    assert_eq!(p.cur_sent, 1);
    assert_eq!(p.current_sent, Some(1));
    assert!(p.save);
    assert_eq!(p.resume_idx, 1);
    assert_eq!(p.resume_hash, text_hash(TEXT));
    assert!(!p.live.contains_key(&0), "what is behind is let go");

    p.enter_edit(&mut a);
    assert!(!p.reading);
    assert_eq!(a.position(), None);
    assert_eq!(p.media, MediaState::Stopped);
    p.enter_read(&mut a, &format!("  {TEXT}\n"), true);
    assert_eq!(p.cur_sent, 1, "the same text goes on where it was left");
    p.enter_edit(&mut a);
    p.enter_read(&mut a, "Another text. Entirely.", true);
    assert_eq!(p.cur_sent, 0);
}

#[test]
fn the_end_unlocks_editing_and_forgets_the_place() {
    let (mut p, mut a) = reader();
    p.enter_read(&mut a, "Only one.", true);
    speak(&mut p, 0, 1);
    p.step(&mut a, "Only one.");
    assert!(p.reading);
    a.next_frame(48_000);
    p.step(&mut a, "Only one.");
    assert!(!p.reading);
    assert_eq!((p.resume_hash, p.resume_idx), (0, 0));
}

#[test]
fn starving_waits_for_the_next_sentence() {
    let (mut p, mut a) = reader();
    p.enter_read(&mut a, TEXT, true);
    speak(&mut p, 0, 1);
    p.step(&mut a, TEXT);
    a.next_frame(48_000);
    p.step(&mut a, TEXT);
    assert!(p.reading);
    assert_eq!(p.pending, Some((1, None)));
    speak(&mut p, 1, 2);
    p.step(&mut a, TEXT);
    assert_eq!(a.position(), Some((1, 0)));
}

#[test]
fn unspeakable_sentences_are_passed_over() {
    let (mut p, mut a) = reader();
    p.enter_read(&mut a, TEXT, true);
    p.on_unspeakable(key("First one."));
    speak(&mut p, 1, 1);
    p.step(&mut a, TEXT);
    assert_eq!(a.position(), Some((1, 0)));
    p.on_unspeakable(key("Third three."));
    speak(&mut p, 3, 3);
    p.step(&mut a, TEXT);
    assert_eq!(a.queue.len(), 1);
    assert_eq!(a.queue[0].sentence, 3);
}

#[test]
fn a_failure_ends_reading_only_where_it_is_waited_for() {
    let (mut p, mut a) = reader();
    p.enter_read(&mut a, TEXT, true);
    p.on_failed(&mut a, 2, &key("Third three."));
    assert!(p.reading);
    p.on_failed(&mut a, 0, &key("First one."));
    assert!(!p.reading);
    assert_eq!(p.status, Status::Failed);
}

#[test]
fn pausing_while_loading_is_remembered() {
    let (mut p, mut a) = reader();
    p.enter_read(&mut a, TEXT, true);
    p.set_playing(&mut a, false);
    p.set_playing(&mut a, false);
    assert!(p.want_pause && !p.playing);
    speak(&mut p, 0, 1);
    p.step(&mut a, TEXT);
    assert!(a.paused());
    assert_eq!(p.media, MediaState::Paused);
    p.toggle(&mut a, TEXT, true);
    assert!(!a.paused() && p.playing);
    p.toggle(&mut a, TEXT, true);
    assert!(a.paused());
}

#[test]
fn navigation_goes_back_twice_as_readers_expect() {
    let (mut p, mut a) = reader();
    p.nav(&mut a, true);
    assert!(!p.reading, "nothing to navigate");
    p.enter_read(&mut a, TEXT, true);
    for i in 0..4 {
        speak(&mut p, i, i as u64);
    }
    p.nav(&mut a, true);
    p.nav(&mut a, true);
    assert_eq!(p.cur_sent, 2);
    a.next_frame(47_000);
    a.next_frame(47_998);
    p.nav(&mut a, false);
    assert_eq!(p.cur_sent, 1, "within two seconds: the one before");
    p.word_clicked(&mut a, 7);
    assert_eq!(p.cur_sent, 3);
    assert_eq!(a.position(), Some((3, 11_520)), "from the word on");
    p.nav(&mut a, true);
    assert_eq!(p.cur_sent, 3, "the last stays the last");
    p.word_clicked(&mut a, 99);
    assert_eq!(p.cur_sent, 3);
}

#[test]
fn going_back_late_restarts_the_sentence() {
    let (mut p, mut a) = reader();
    p.enter_read(&mut a, TEXT, true);
    for i in 0..4 {
        let text = p.doc.as_ref().unwrap().sentences[i].text.clone();
        p.on_spoken(i as u32, key(&text), spoken(i as u64, 100_000));
    }
    p.nav(&mut a, true);
    a.next_frame(48_000);
    p.nav(&mut a, false);
    assert_eq!(p.cur_sent, 0, "two seconds are not late");
    p.nav(&mut a, true);
    a.next_frame(48_001);
    p.nav(&mut a, false);
    assert_eq!(p.cur_sent, 1);
}

#[test]
fn a_change_of_voice_asks_anew() {
    let (mut p, mut a) = reader();
    p.enter_read(&mut a, TEXT, true);
    speak(&mut p, 0, 1);
    speak(&mut p, 1, 2);
    p.step(&mut a, TEXT);
    let before = p.worker_epoch;
    p.set_voice(&mut a, "bm_george".to_string());
    assert_eq!(p.worker_epoch, before + 1);
    assert!(a.queue.is_empty());
    assert_eq!(a.position(), Some((0, 0)), "what plays goes on");
    assert!(p.doc.as_ref().unwrap().sentences.iter().all(|s| s.dur.is_none()));
    let last = p.outbox.last().unwrap();
    assert_eq!((last.sent, last.key.voice.as_str()), (1, "bm_george"));
    assert!(p.save);
    // audio for the old voice is kept, but says nothing of this one's length
    p.on_spoken(2, key("Third three."), spoken(9, 5));
    assert_eq!(p.doc.as_ref().unwrap().sentences[2].dur, None);
    p.set_speed(&mut a, 150);
    assert_eq!(p.outbox.last().unwrap().key.speed100, 150);
}

#[test]
fn some_texts_are_not_read() {
    let (mut p, mut a) = reader();
    p.enter_read(&mut a, "  \n ", true);
    assert_eq!(p.status, Status::NothingToRead);
    let long = "x".repeat(MAX_CHARS + 1);
    p.enter_read(&mut a, &long, true);
    assert_eq!(p.status, Status::TooLong(MAX_CHARS + 1));
    p.enter_read(&mut a, TEXT, false);
    assert!(!p.reading);
    assert_eq!(p.status, Status::TooLong(MAX_CHARS + 1));
}

#[test]
fn media_keys_drive_the_reader() {
    let (mut p, mut a) = reader();
    p.on_media(&mut a, MediaEvent::Stop, TEXT, true);
    p.on_media(&mut a, MediaEvent::Other, TEXT, true);
    assert!(!p.reading);
    p.on_media(&mut a, MediaEvent::Play, TEXT, true);
    assert!(p.reading);
    p.on_media(&mut a, MediaEvent::Pause, TEXT, true);
    assert!(p.want_pause);
    p.on_media(&mut a, MediaEvent::Next, TEXT, true);
    assert_eq!(p.cur_sent, 1);
    p.on_media(&mut a, MediaEvent::Previous, TEXT, true);
    assert_eq!(p.cur_sent, 0);
    p.on_media(&mut a, MediaEvent::Toggle, TEXT, true);
    p.on_media(&mut a, MediaEvent::Stop, TEXT, true);
    assert!(!p.reading);
}

#[test]
fn titles_and_hashes() {
    assert_eq!(media_title("  hi  "), "hi");
    assert_eq!(media_title(&"é".repeat(100)), "é".repeat(80));
    assert_eq!(text_hash(""), 5381);
    assert_eq!(text_hash("a"), (5381u64 * 33) ^ 97);
    assert_ne!(text_hash("ab"), text_hash("ba"));
}

#[test]
fn the_spoken_word_is_the_last_that_began() {
    let doc: Doc = build_doc(TEXT);
    let starts = vec![100, 200];
    assert_eq!(spoken_word(&doc, 1, &starts, 99), None);
    assert_eq!(spoken_word(&doc, 1, &starts, 100), Some(2));
    assert_eq!(spoken_word(&doc, 1, &starts, 5_000), Some(3));
    assert_eq!(spoken_word(&doc, 1, &vec![0, 0, 0, 0], 5_000), Some(3), "never into the next sentence");
    assert_eq!(spoken_word(&doc, 9, &starts, 5_000), None);
}

#[test]
fn progress_adds_up_what_is_known() {
    let mut doc = build_doc(TEXT);
    doc.sentences[0].dur = Some(100);
    doc.sentences[2].dur = Some(50);
    let t = tally(&doc, 2);
    assert_eq!((t.known, t.known_bytes), (150, 22));
    assert_eq!(t.open_bytes, 11 + 12);
    assert_eq!((t.before, t.before_bytes), (100, 11));
    assert_eq!(time_label(61, 3_605, false), "1:01 / ≈60:05");
    assert_eq!(time_label(0, 9, true), "0:00 / 0:09");
}

#[test]
fn an_export_collects_every_sentence_in_order() {
    let (mut p, mut a) = reader();
    p.cache.put(key("Two."), spoken(2, 20));
    let mut export = Export::start(&mut p, "One. Two. One.\n?!");
    let x = export.as_ref().unwrap();
    assert_eq!(x.keys.len(), 4);
    assert!(matches!(x.poll(&p), Poll::Waiting { settled: 1, have: 1, total: 3 }));
    x.pump(&mut p);
    assert_eq!(p.outbox.len(), 1);
    assert_eq!(p.outbox[0].sent, u32::MAX);
    assert!(p.outbox[0].keep);
    assert_eq!(p.outbox[0].key.text, "One.");
    x.pump(&mut p);
    assert_eq!(p.outbox.len(), 1, "one at a time");
    receive(&mut p, &mut a, &mut export, u32::MAX, key("One."), Outcome::Spoken(spoken(1, 10)));
    let x = export.as_ref().unwrap();
    x.pump(&mut p);
    assert_eq!(p.outbox[1].key.text, "?!");
    receive(&mut p, &mut a, &mut export, u32::MAX, key("?!"), Outcome::Silent);
    match export.as_ref().unwrap().poll(&p) {
        Poll::Ready(clips) => assert_eq!(clips.iter().map(|c| c.id).collect::<Vec<_>>(), vec![1, 2, 1]),
        _ => panic!("all is settled"),
    }
}

#[test]
fn an_export_of_nothing_says_so() {
    let (mut p, mut a) = reader();
    assert!(Export::start(&mut p, "   ").is_none());
    assert_eq!(p.status, Status::NothingToExport);
    let mut export = Export::start(&mut p, "?!");
    receive(&mut p, &mut a, &mut export, u32::MAX, key("?!"), Outcome::Silent);
    assert!(matches!(export.as_ref().unwrap().poll(&p), Poll::Silent));
}

#[test]
fn a_failure_ends_the_export_that_wants_it() {
    let (mut p, mut a) = reader();
    let mut export = Export::start(&mut p, "One. Two.");
    receive(&mut p, &mut a, &mut export, 0, key("Elsewhere."), Outcome::Failed);
    assert!(export.is_some());
    receive(&mut p, &mut a, &mut export, u32::MAX, key("Two."), Outcome::Failed);
    assert!(export.is_none());
    assert_eq!(p.status, Status::ExportFailed);
}

#[test]
fn given_sentences_can_be_exported() {
    let (mut p, _) = reader();
    let x = Export::start_with(&mut p, "abcdef", &vec![(0, 2), (3, 6)]).unwrap();
    assert_eq!(x.keys.iter().map(|k| k.text.as_str()).collect::<Vec<_>>(), vec!["ab", "def"]);
    assert!(x.wants(&key("ab")) && !x.wants(&key("c")));
}

#[test]
fn a_given_document_can_be_read() {
    let (mut p, mut a) = reader();
    p.resume_hash = 77;
    p.resume_idx = 9;
    p.open(&mut a, doc_of("ab cd", &vec![(0, 2), (3, 5)]), 77);
    assert_eq!(p.cur_sent, 1, "no further than the last sentence");
    p.show_word(1);
    assert_eq!(p.current_word, Some(1));
    assert_eq!(p.scroll, Some((1, false)));
}

#[test]
fn an_export_does_not_disturb_reading() {
    let (mut p, mut a) = reader();
    p.enter_read(&mut a, TEXT, true);
    assert_eq!(p.pending, Some((0, None)));
    let mut export = Export::start(&mut p, TEXT);
    receive(&mut p, &mut a, &mut export, u32::MAX, key("Second two."), Outcome::Failed);
    assert!(export.is_none());
    assert!(p.reading, "the reader waits on");
    assert_eq!(p.pending, Some((0, None)));
    receive(&mut p, &mut a, &mut export, u32::MAX, key("First one."), Outcome::Spoken(spoken(5, 48_000)));
    assert_eq!(p.doc.as_ref().unwrap().sentences[0].dur, None, "no length is noted for it");
    p.step(&mut a, TEXT);
    assert_eq!(a.position(), Some((0, 0)), "but its audio is as good as any");
}

#[test]
fn the_opened_text_stays_while_it_is_read() {
    let (mut p, mut a) = reader();
    let text = format!("  {TEXT}\n");
    p.enter_read(&mut a, &text, true);
    let fresh = build_doc(&text);
    assert_eq!(fresh.raw, text);
    let shown = |p: &Player| {
        let doc = p.doc.as_ref().unwrap();
        (doc.raw.clone(), doc.word_range.clone())
    };
    let want = (fresh.raw.clone(), fresh.word_range.clone());
    assert_eq!(shown(&p), want);
    speak(&mut p, 0, 1);
    p.step(&mut a, &text);
    assert_eq!(shown(&p), want);
    p.nav(&mut a, true);
    p.word_clicked(&mut a, 5);
    p.set_speed(&mut a, 125);
    p.toggle(&mut a, &text, true);
    p.step(&mut a, &text);
    assert_eq!(shown(&p), want);
}

#[test]
fn toggling_twice_changes_nothing() {
    let (mut p, mut a) = reader();
    p.enter_read(&mut a, TEXT, true);
    speak(&mut p, 0, 1);
    p.step(&mut a, TEXT);
    a.next_frame(1_000);
    let before = (a.cur, a.paused, a.clock);
    p.toggle(&mut a, TEXT, true);
    assert!(a.paused);
    p.toggle(&mut a, TEXT, true);
    assert_eq!((a.cur, a.paused, a.clock), before);
}

#[test]
fn wrapped_word_box_locked_to_first_line() {
    let long = "x".repeat(400); // far wider than the 200px column below
    let text = format!("{long} tail.");
    let doc = build_doc(&text);
    let (px, column, line_h) = (8.0f32, 200.0f32, 30.0f32);
    let per_line = (column / px) as usize;
    let clusters: Vec<Cluster> =
        (0..text.len()).map(|start| Cluster { line: start / per_line, start }).collect();
    let b = place_clusters(&doc.word_range, &clusters);
    let y = b.line[0].unwrap() as f32 * line_h;
    let w = b.part.iter().filter(|p| **p == Some(0)).count() as f32 * px;
    assert!(y < line_h, "long word box y={y} spilled to a lower line");
    assert!(w <= 201.0, "long word box w={w} exceeds the column");
    assert_eq!(w, column, "it takes the whole of its first line");
}

#[test]
fn words_of_the_reader_are_the_words_that_are_timed() {
    let doc = build_doc(TEXT);
    for (k, info) in doc.sentences.iter().enumerate() {
        let spoken = words_of(&info.text);
        assert_eq!(spoken.len(), info.n_words);
        for (i, w) in spoken.iter().enumerate() {
            let at = info.first_word + i;
            assert_eq!(doc.word_of[at], (k, i));
            let (a, b) = doc.word_range[at];
            assert_eq!(&TEXT[a..b], w.text);
        }
    }
}
