//! Searching, saving, timers, and where files lie.

use minimal_tts::archive::{load_voices, read_voices, ArchiveError};
use minimal_tts::calendar::{timestamp, timestamp_of};
use minimal_tts::font::{font_is_whole, patch_font, replace_all};
use minimal_tts::npy::{npy_is_whole, parse_npy, voice_entry, NpyError};
use minimal_tts::numbers::{number_text, parse_number};
use minimal_tts::paths::{
    candidates, config_dir, config_path, data_path_fits, downloads_dir, export_path, join, lexicon_path,
    models_dir, phonemizer_data, phonemizer_libraries, pick_path, resolve_model, xdg_dir,
};
use minimal_tts::search::{find_hits, wash_words, Search, MAX_SEARCH_HITS};
use minimal_tts::state::{load_state, save_state, take_up};
use minimal_tts::timers::{Timers, BANNER_MS, SPEED_MS};
use minimal_tts::voices::{
    label_with, listing_line, lowpass_hz, nearest_voice, style_parts, style_row, voice_at, voice_ids,
    voice_index, voice_label, DEFAULT_VOICE, VOICES,
};
use minimal_tts::wav::{stream_header, wav_spec};
use std::io::Write;

#[test]
fn timestamp_shape() {
    let t = timestamp();
    assert_eq!(t.len(), 19, "YYYY-MM-DD_HH-MM-SS");
    assert_eq!(&t[4..5], "-");
    assert_eq!(&t[10..11], "_");
    assert!(t[..4].parse::<u32>().unwrap() >= 2026);
}

#[test]
fn timestamps_of_known_moments() {
    assert_eq!(timestamp_of(0), "1970-01-01_00-00-00");
    assert_eq!(timestamp_of(951_782_399), "2000-02-28_23-59-59");
    assert_eq!(timestamp_of(951_782_400), "2000-02-29_00-00-00");
    assert_eq!(timestamp_of(4_107_542_399), "2100-02-28_23-59-59");
    assert_eq!(timestamp_of(4_107_542_400), "2100-03-01_00-00-00");
    assert_eq!(timestamp_of(1_767_225_599), "2025-12-31_23-59-59");
    assert_eq!(timestamp_of(253_402_300_799), "9999-12-31_23-59-59");
    assert_eq!(timestamp_of(253_402_300_800), "10000-01-01_00-00-00");
}

#[test]
fn a_later_moment_has_a_later_stamp() {
    let moments = [
        0,
        59,
        60,
        3_599,
        3_600,
        86_399,
        86_400,
        2_678_399,
        2_678_400,
        31_535_999,
        31_536_000,
        951_782_400,
        1_767_225_599,
        1_767_225_600,
        4_107_542_400,
        253_402_300_799,
    ];
    for pair in moments.windows(2) {
        assert!(timestamp_of(pair[0]) < timestamp_of(pair[1]), "{pair:?}");
    }
    for secs in moments {
        let t = timestamp_of(secs);
        assert_eq!(t.len(), 19);
        for (k, c) in t.chars().enumerate() {
            match k {
                4 | 7 | 13 | 16 => assert_eq!(c, '-'),
                10 => assert_eq!(c, '_'),
                _ => assert!(c.is_ascii_digit()),
            }
        }
    }
    assert_eq!(&timestamp_of(1_767_225_600)[..4], "2026");
}

#[test]
fn hits_go_on_up_to_the_last_one_within_the_limit() {
    let flood = "ab".repeat(2 * MAX_SEARCH_HITS);
    let hits = find_hits(&flood, "B");
    assert_eq!(hits.len(), MAX_SEARCH_HITS);
    for (i, hit) in hits.iter().enumerate() {
        assert_eq!(*hit, (2 * i + 1, 2 * i + 2));
    }
}

#[test]
fn find_hits_case_insensitive_and_bounded() {
    assert_eq!(find_hits("The theory of Theft", "the"), vec![(0, 3), (4, 7), (14, 17)]);
    assert_eq!(find_hits("aaaa", "aa"), vec![(0, 2), (2, 4)], "non-overlapping");
    assert!(find_hits("anything", "").is_empty());
    let flood = "e ".repeat(2000);
    assert_eq!(find_hits(&flood, "e").len(), MAX_SEARCH_HITS);
    // matches land on char boundaries even with multibyte neighbours
    let s = "café CAFÉ cafe";
    for (a, b) in find_hits(s, "café") {
        assert!(s.is_char_boundary(a) && s.is_char_boundary(b));
    }
}

#[test]
fn hits_fold_ascii_only() {
    assert_eq!(find_hits("café CAFÉ cafe", "café"), vec![(0, 5)]);
    assert_eq!(find_hits("[AZaz]", "[azAZ]"), vec![(0, 6)]);
    assert_eq!(find_hits("@[`{", "`"), vec![(2, 3)]);
}

#[test]
fn the_find_bar_goes_round_and_round() {
    let mut s = Search::new();
    assert_eq!(s.count(), "");
    s.search_nav(1);
    s.set_query("o".to_string());
    s.run_search("one two foo");
    assert_eq!(s.count(), "1/4");
    s.search_nav(-1);
    assert_eq!(s.count(), "4/4");
    assert_eq!(s.current_hit(), Some((10, 11)));
    s.search_nav(1);
    assert_eq!(s.idx, 0);
    s.search_nav(-9);
    assert_eq!(s.idx, 3);
    s.search_nav(9);
    assert_eq!(s.idx, 0, "there and back");
    s.run_search("none here? no: nothing at all but this");
    s.set_query("zzz".to_string());
    s.run_search("none");
    assert_eq!(s.count(), "0");
    s.set_query("e".to_string());
    s.run_search(&"e ".repeat(500));
    assert_eq!(s.count(), "1/400+");
    s.close();
    assert_eq!(s.current_hit(), None);
}

#[test]
fn every_word_a_hit_touches_is_washed() {
    let words = vec![(0, 3), (4, 7), (8, 12)];
    assert_eq!(wash_words(&words, &vec![(2, 5), (9, 10)], 1), vec![(0, false), (1, false), (2, true)]);
    assert_eq!(wash_words(&words, &vec![(3, 4)], 0), vec![], "only the space");
    assert_eq!(wash_words(&words, &vec![(0, 1), (1, 2)], 0), vec![(0, true), (0, false)]);
}

#[test]
fn numbers_are_read_back() {
    for n in [0u64, 9, 10, 12_345, u64::MAX] {
        assert_eq!(parse_number(&number_text(n)), Some(n));
        assert_eq!(number_text(n), n.to_string());
    }
    for s in ["", "+", "-1", "1x", "18446744073709551616", "99999999999999999999", " 1", "+7", "007", "٣"] {
        assert_eq!(parse_number(s), s.parse::<u64>().ok(), "{s:?}");
    }
}

#[test]
fn a_session_is_saved_and_taken_up() {
    let raw = save_state("some \"text\"\nwith\tlines — ünï", "bm_george", "1.25", u64::MAX, 17);
    let v: serde_json::Value = serde_json::from_str(&raw).unwrap();
    assert_eq!(v["speed"].as_f64(), Some(1.25));
    assert_eq!(v["text"].as_str(), Some("some \"text\"\nwith\tlines — ünï"));
    let s = load_state(&raw);
    assert_eq!(s.text.as_deref(), Some("some \"text\"\nwith lines — ünï"), "a tab becomes a space");
    assert_eq!(s.voice.as_deref(), Some("bm_george"));
    assert_eq!((s.resume_hash, s.resume_idx), (u64::MAX, 17));
}

#[test]
fn broken_sessions_start_fresh() {
    let s = load_state("not json");
    assert!(s.text.is_none() && s.voice.is_none());
    assert_eq!((s.resume_hash, s.resume_idx), (0, 0));
    let raw = save_state("t", "no_such_voice", "oops", 1, 2);
    assert!(raw.contains("\"speed\":null"));
    assert!(load_state(&raw).voice.is_none());
    let s = load_state(r#"{"resume_hash": "x", "resume_idx": -1, "text": 3}"#);
    assert_eq!((s.resume_hash, s.resume_idx), (0, 0));
    assert!(s.text.is_none());
}

#[test]
fn a_messy_session_is_tidied_when_taken_up() {
    let messy = "one [1] two [2] three [3] four".to_string();
    let s = take_up(Some(messy), Some("chad".to_string()), Some("5".to_string()), Some(u64::from(u32::MAX) + 4));
    assert_eq!(s.text.as_deref(), Some("one two three four"));
    assert_eq!(s.voice.as_deref(), Some("chad"));
    assert_eq!((s.resume_hash, s.resume_idx), (5, 3));
}

#[test]
fn deadlines_fire_once() {
    let mut t = Timers::new(1_000);
    assert!(t.may_scroll(1_000));
    t.hold_scroll(1_000);
    assert!(!t.may_scroll(4_999) && t.may_scroll(5_000));
    t.show_banner(1_000);
    t.hold_status(1_000, 8_000);
    t.change_speed(1_000, 120);
    t.change_speed(1_100, 130);
    t.save_in(1_000, 1_000);
    let due = t.fire(1_100 + SPEED_MS - 1, false);
    assert!(!due.hide_banner && !due.clear_status && due.apply_speed.is_none() && !due.save);
    let due = t.fire(1_000 + BANNER_MS, false);
    assert!(due.hide_banner && !due.clear_status && due.save);
    assert_eq!(due.apply_speed, Some(130));
    let due = t.fire(9_000, true);
    assert!(!due.hide_banner && due.clear_status && due.save);
    assert_eq!(due.apply_speed, None);
    assert!(!t.fire(u64::MAX, false).save);
}

#[test]
fn some_things_come_round_every_so_many_ticks() {
    let mut t = Timers::new(0);
    let mut seen = (0, 0, 0);
    for _ in 0..120 {
        t.begin();
        seen.0 += t.shows_progress() as u32;
        seen.1 += t.polls_export() as u32;
        seen.2 += t.checks_text() as u32;
    }
    assert_eq!(seen, (12, 20, 1));
}

#[test]
fn paths_join_the_unix_way() {
    for (a, b) in [("a", "b"), ("a/", "b"), ("", "b"), ("a", "/b"), ("a", ""), ("/", "x/y")] {
        let want = std::path::Path::new(a).join(b);
        assert_eq!(std::path::Path::new(&join(a, b)), want.as_path(), "{a} {b}");
        assert_eq!(join(a, b), want.to_str().unwrap(), "{a} {b}");
    }
}

#[test]
fn configuration_lies_below_the_home_directory() {
    assert_eq!(config_dir(Some("/cfg"), Some("/home/me")), "/cfg/minimal-tts");
    assert_eq!(config_dir(None, Some("/home/me")), "/home/me/.config/minimal-tts");
    assert_eq!(config_dir(None, None), ".config/minimal-tts");
    assert_eq!(lexicon_path(None, Some("/h")), "/h/.config/minimal-tts/lexicon.tsv");
    assert_eq!(config_path(None, Some("/h")), "/h/.config/minimal-tts/state.json");
    assert_eq!(xdg_dir(None, Some("/h"), ".local/share"), "/h/.local/share");
}

#[test]
fn models_are_looked_for_in_turn() {
    assert_eq!(models_dir(Some("/m"), "/src", true, Some("/bin")), "/m");
    assert_eq!(models_dir(None, "/src", true, Some("/bin")), "/src/models");
    assert_eq!(models_dir(None, "/src", false, Some("/bin")), "/bin/models");
    assert_eq!(models_dir(None, "/src", false, None), "models");
    assert_eq!(resolve_model("/m", true, true).as_deref(), Some("/m/kokoro.onnx"));
    assert_eq!(resolve_model("/m", false, true).as_deref(), Some("/m/kokoro-ts.onnx"));
    assert_eq!(resolve_model("/m", false, false), None);
}

#[test]
fn bundled_files_are_looked_for_in_turn() {
    assert_eq!(
        candidates("f", Some("/bin"), Some("/img"), "/src"),
        vec![
            "/bin/vendor/f",
            "/img/usr/bin/vendor/f",
            "/img/usr/lib/f",
            "/img/usr/share/f",
            "vendor/f",
            "/src/vendor/f",
        ]
    );
    let libs = phonemizer_libraries(None, None, "/src");
    assert_eq!(libs.len(), 6);
    assert_eq!(libs[5], "/usr/lib/x86_64-linux-gnu/libespeak-ng.so.1");
    let data = phonemizer_data(None, None, "/src");
    assert_eq!(data[2], "/usr/share/espeak-ng-data");
    assert_eq!(pick_path(Some("/x"), &data, &vec![false, true, true]).as_deref(), Some("/x"));
    assert_eq!(pick_path(None, &data, &vec![false, true, true]).as_deref(), Some("/src/vendor/espeak-ng-data"));
    assert_eq!(pick_path(None, &data, &vec![false, false, false]), None);
    assert!(data_path_fits(&"x".repeat(150)) && !data_path_fits(&"x".repeat(151)));
}

#[test]
fn downloads_follow_the_users_directories() {
    let dirs = "# comment\nXDG_DESKTOP_DIR=\"$HOME/Desktop\"\nXDG_DOWNLOAD_DIR=\"$HOME/dl\"\nXDG_DOWNLOAD_DIR=\"/no\"\n";
    assert_eq!(downloads_dir("/h", Some(dirs)), "/h/dl");
    assert_eq!(downloads_dir("/h", Some("XDG_DOWNLOAD_DIR=\"\"/abs\"\"")), "/abs");
    assert_eq!(downloads_dir("/h", Some("nothing")), "/h/Downloads");
    assert_eq!(downloads_dir("/h", None), "/h/Downloads");
    assert_eq!(export_path("/h/dl", "2026-01-02_03-04-05"), "/h/dl/tts-2026-01-02_03-04-05.wav");
}

#[test]
fn voices_are_the_listed_ones() {
    let ids = voice_ids();
    assert_eq!(ids.len(), VOICES);
    assert_eq!(ids.iter().filter(|v| **v != "chad").count(), 28);
    assert_eq!(ids[0], "chad");
    assert_eq!(ids[28], "bf_lily");
    assert_eq!(voice_at(10), ("bm_george", "UK male"));
    assert_eq!(DEFAULT_VOICE, "am_michael");
    assert_eq!(voice_index("bm_george"), Some(10));
    assert_eq!(voice_index("nobody"), None);
    assert_eq!(listing_line(0), "Custom:\n  chad\n");
    assert_eq!(listing_line(1), "US male:\n  am_michael (default)\n");
    assert_eq!(listing_line(2), "  am_fenrir\n");
}

#[test]
fn a_typo_finds_the_nearest_voice() {
    for id in voice_ids() {
        assert_eq!(nearest_voice(id), Some(id), "what is right is never corrected");
    }
    assert_eq!(nearest_voice("am_micheal"), Some("am_michael"));
    assert_eq!(nearest_voice("bf_ema"), Some("bf_emma"));
    assert_eq!(nearest_voice("completely wrong"), None);
}

#[test]
fn labels_name_the_voice_and_its_group() {
    assert_eq!(voice_label("am_michael", "US male"), "Michael · US male");
    assert_eq!(voice_label("chad", "Custom"), "Chad");
    assert_eq!(voice_label("x_ßa", "Custom"), "SSa", "one letter can become two");
    assert_eq!(voice_label("x_", "G"), " · G");
    assert_eq!(label_with("am_puck", "US male", "P"), "Puck · US male");
}

#[test]
fn styles_are_blended_or_plain() {
    assert_eq!(style_parts("chad"), vec![("am_puck".to_string(), 40), ("am_onyx".to_string(), 60)]);
    assert_eq!(style_parts("af_sky"), vec![("af_sky".to_string(), 100)]);
    assert_eq!((style_row(5, 510), style_row(510, 510), style_row(0, 1)), (5, 509, 0));
    assert_eq!((lowpass_hz("af_sky"), lowpass_hz("bf_emma")), (11_000, 11_000));
    assert_eq!((lowpass_hz("am_adam"), lowpass_hz("chad"), lowpass_hz("")), (8_000, 8_000, 8_000));
}

/// A NumPy file of version 1 with the given header and floats.
fn npy(header: &str, floats: &[f32]) -> Vec<u8> {
    let mut b = b"\x93NUMPY\x01\x00".to_vec();
    b.extend((header.len() as u16).to_le_bytes());
    b.extend(header.as_bytes());
    for f in floats {
        b.extend(f.to_le_bytes());
    }
    b
}

const PLAIN: &str = "{'descr': '<f4', 'fortran_order': False, 'shape': (2,), }\n";

#[test]
fn tables_are_read_as_bits() {
    let b = npy(PLAIN, &[1.5, -0.25]);
    assert!(npy_is_whole(&b));
    assert_eq!(parse_npy(&b).unwrap(), vec![1.5f32.to_bits(), (-0.25f32).to_bits()]);
    let mut odd = b.clone();
    odd.push(9);
    assert_eq!(parse_npy(&odd).unwrap().len(), 2, "a rest is left out");
    // version 2 has four bytes of header length
    let mut v2 = b"\x93NUMPY\x02\x00".to_vec();
    v2.extend((PLAIN.len() as u32).to_le_bytes());
    v2.extend(PLAIN.as_bytes());
    v2.extend(2.0f32.to_le_bytes());
    assert_eq!(parse_npy(&v2).unwrap(), vec![2.0f32.to_bits()]);
}

#[test]
fn other_files_are_no_tables() {
    assert_eq!(parse_npy(b"short"), Err(NpyError::NotNpy));
    assert_eq!(parse_npy(b"\x93NUMPX\x01\x00\x00\x00"), Err(NpyError::NotNpy));
    assert_eq!(parse_npy(&npy("{'descr': '<f8', 'fortran_order': False}", &[])), Err(NpyError::Layout));
    assert_eq!(parse_npy(&npy("{'descr': '<f4', 'fortran_order': True}", &[])), Err(NpyError::Layout));
    let mut bad = npy("<f4 x", &[]);
    bad[12] = 0xff;
    assert_eq!(parse_npy(&bad), Err(NpyError::NotText));
    let mut cut = npy(PLAIN, &[]);
    cut.pop();
    assert!(!npy_is_whole(&cut));
    assert!(npy_is_whole(b"anything else"));
    assert!(!npy_is_whole(b"\x93NUMPY\x02\x00\x00\x00"));
    assert_eq!(voice_entry("a.npy", &npy(PLAIN, &[0.0; 3])), Err(NpyError::Size(3)));
    assert_eq!(voice_entry("a.npy.npy", &npy(PLAIN, &[0.0; 256])).unwrap().0, "a");
}

#[test]
fn voices_are_read_out_of_an_archive() {
    let mut zip = zip::ZipWriter::new(std::io::Cursor::new(Vec::new()));
    let options = zip::write::SimpleFileOptions::default();
    for (name, value) in [("af_sky.npy", 1.0f32), ("am_adam.npy", 2.0)] {
        zip.start_file(name, options).unwrap();
        zip.write_all(&npy(PLAIN, &[value; 512])).unwrap();
    }
    let bytes = zip.finish().unwrap().into_inner();
    let voices = load_voices(&bytes).unwrap();
    assert_eq!(voices.len(), 2);
    assert_eq!(voices[0].0, "af_sky");
    assert_eq!(voices[1].1.len(), 512);
    assert_eq!(voices[1].1[511], 2.0f32.to_bits());
}

#[test]
fn broken_archives_are_refused() {
    assert_eq!(load_voices(b"no zip at all"), Err(ArchiveError::NotZip));
    assert_eq!(read_voices(&vec![None]), Err(ArchiveError::Broken));
    let mut cut = npy(PLAIN, &[]);
    cut.pop();
    assert_eq!(read_voices(&vec![Some(("a".to_string(), cut))]), Err(ArchiveError::Short));
    assert_eq!(
        read_voices(&vec![Some(("a".to_string(), vec![1, 2, 3]))]),
        Err(ArchiveError::Table(NpyError::NotNpy))
    );
    assert_eq!(read_voices(&vec![]), Ok(vec![]));
}

#[test]
fn wav_is_sixteen_bit_mono() {
    let f = wav_spec();
    assert_eq!((f.channels, f.sample_rate, f.bits_per_sample), (1, 24_000, 16));
    let mut want = b"RIFF".to_vec();
    want.extend(u32::MAX.to_le_bytes());
    want.extend(b"WAVEfmt ");
    want.extend(16u32.to_le_bytes());
    want.extend(1u16.to_le_bytes());
    want.extend(1u16.to_le_bytes());
    want.extend(24_000u32.to_le_bytes());
    want.extend(48_000u32.to_le_bytes());
    want.extend(2u16.to_le_bytes());
    want.extend(16u16.to_le_bytes());
    want.extend(b"data");
    want.extend(u32::MAX.to_le_bytes());
    assert_eq!(stream_header(), want);
}

/// A font of three tables, with the metrics of the one that is patched.
fn font(upem: u16, asc: i16, desc: i16, name: &[u8]) -> Vec<u8> {
    let mut d = vec![0, 1, 0, 0, 0, 3, 0, 0, 0, 0, 0, 0];
    for (tag, at) in [(b"OS/2", 60u32), (b"head", 140), (b"hhea", 170)] {
        d.extend(tag);
        d.extend([9, 9, 9, 9]);
        d.extend(at.to_be_bytes());
        d.extend([0, 0, 0, 7]);
    }
    d.resize(200, 0);
    d[140 + 18..140 + 20].copy_from_slice(&upem.to_be_bytes());
    d[170 + 4..170 + 6].copy_from_slice(&asc.to_be_bytes());
    d[170 + 6..170 + 8].copy_from_slice(&desc.to_be_bytes());
    d[170 + 9] = 5;
    d[60 + 62] = 3;
    d[60 + 63] = 1;
    d.extend(name);
    d
}

#[test]
fn the_font_gets_lines_of_thirty_pixels() {
    let before = font(2048, 1854, -434, b"Liberation Sans LiberationSans");
    assert!(font_is_whole(&before));
    let d = patch_font(&before);
    assert_eq!(d.len(), before.len(), "no table moves");
    let at = |i: usize| i16::from_be_bytes([d[i], d[i + 1]]);
    assert_eq!((at(174), at(176), at(178)), (2688, -1152, 0));
    assert_eq!((at(128), at(130), at(132)), (2688, -1152, 0));
    assert_eq!((at(134), at(136)), (2688, 1152));
    assert_eq!(16 * (2688 + 1152), 30 * 2048);
    assert_eq!((d[122], d[123]), (3, 0x81));
    assert_eq!(&d[200..], b"MinimalTTS Sans MinimalTTSSans");
    assert_eq!(d[..60], before[..60], "nor is the directory touched");
}

#[test]
fn names_are_replaced_in_both_encodings() {
    let wide: Vec<u8> = b"LiberationSans".iter().flat_map(|&b| [0u8, b]).collect();
    let d = patch_font(&font(1000, 900, -200, &wide));
    let want: Vec<u8> = b"MinimalTTSSans".iter().flat_map(|&b| [0u8, b]).collect();
    assert_eq!(&d[200..], &want[..]);
    let mut bytes = b"aabaab".to_vec();
    replace_all(&mut bytes, &b"aa".to_vec(), &b"ba".to_vec());
    assert_eq!(bytes, b"babbab");
}

#[test]
fn other_files_are_no_fonts() {
    assert!(!font_is_whole(&vec![]));
    assert!(!font_is_whole(&font(15, 900, -200, b"")), "no pixel to count in");
    let mut d = font(2048, 1854, -434, b"");
    d[12] = b'o';
    assert!(!font_is_whole(&d), "a table is missing");
    let mut d = font(2048, 1854, -434, b"");
    d.truncate(175);
    assert!(!font_is_whole(&d), "a field is missing");
}

#[test]
fn resolve_prefers_canonical_then_legacy() {
    let d = "models";
    // only the older name is there
    assert!(resolve_model(d, false, true).unwrap().ends_with("kokoro-ts.onnx"));
    // the canonical name wins
    assert!(resolve_model(d, true, true).unwrap().ends_with("kokoro.onnx"));
}

#[test]
fn missing_model_errors() {
    assert!(resolve_model("empty", false, false).is_none());
}
