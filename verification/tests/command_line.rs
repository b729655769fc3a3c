//! The command line.

use minimal_tts::cli::{
    dump_lines, input_text, is_far_ahead, normalize, output_clashes, parse_args, resolve_source, resolve_target,
    text_to_speak, token_line, wants_play, ArgError, Args, InputError, ReadAlong, Source, SpeedCheck, Target,
    Valued, MAX_INPUT_BYTES,
};

fn parse(argv: &[&str]) -> Result<Args, ArgError> {
    let argv: Vec<String> = argv.iter().map(|s| s.to_string()).collect();
    let speeds = argv
        .iter()
        .map(|s| match s.parse::<f32>() {
            Err(_) => SpeedCheck::NotNumber,
            Ok(v) if v.is_finite() && (0.5..=2.0).contains(&v) => SpeedCheck::Good,
            Ok(_) => SpeedCheck::OutOfRange,
        })
        .collect();
    parse_args(&argv, &speeds)
}

#[test]
fn options_and_input_in_any_order() {
    let a = parse(&["--out", "x.wav", "article.txt", "--voice", "bm_george", "--speed", "1.2", "--play"]).unwrap();
    assert_eq!(a.input.as_deref(), Some("article.txt"), "a value is not the input");
    assert_eq!(a.out.as_deref(), Some("x.wav"));
    assert_eq!(a.voice.as_deref(), Some("bm_george"));
    assert_eq!(a.speed.as_deref(), Some("1.2"));
    assert!(a.play && !a.no_tidy && wants_play(&a));
    let a = parse(&["-o", "-", "-", "--tsv", "t.tsv", "--no-tidy", "--phonemes", "--tokens"]).unwrap();
    assert_eq!((a.input.as_deref(), a.out.as_deref(), a.tsv.as_deref()), (Some("-"), Some("-"), Some("t.tsv")));
    assert!(a.no_tidy && a.phonemes && a.tokens && !wants_play(&a));
    let a = parse(&["-h", "--version", "--list-voices", "--help"]).unwrap();
    assert!(a.help && a.version && a.list_voices && wants_play(&a));
    assert!(parse(&[]).unwrap().input.is_none());
}

#[test]
fn a_double_dash_ends_the_options() {
    let a = parse(&["--", "--voice"]).unwrap();
    assert_eq!(a.input.as_deref(), Some("--voice"));
    let a = parse(&["one", "--", "two", "three"]).unwrap();
    assert_eq!(a.input.as_deref(), Some("three"), "the last one counts");
    let a = parse(&["one", "-"]).unwrap();
    assert_eq!(a.input.as_deref(), Some("-"));
}

#[test]
fn wrong_command_lines_are_refused() {
    assert!(matches!(parse(&["-o"]), Err(ArgError::NeedsValue(Valued::Out))));
    assert!(matches!(parse(&["--voice", "--play"]), Err(ArgError::NeedsValue(Valued::Voice))));
    assert!(matches!(parse(&["--tsv"]), Err(ArgError::NeedsValue(Valued::Tsv))));
    assert!(matches!(parse(&["--speed", "-1"]), Err(ArgError::NeedsValue(Valued::Speed))));
    match parse(&["--speed", "fast"]) {
        Err(ArgError::SpeedNotNumber(s)) => assert_eq!(s, "fast"),
        _ => panic!("not a number"),
    }
    match parse(&["--speed", "3"]) {
        Err(ArgError::SpeedOutOfRange(s)) => assert_eq!(s, "3"),
        _ => panic!("out of range"),
    }
    match parse(&["--nope"]) {
        Err(ArgError::Unknown(s)) => assert_eq!(s, "--nope"),
        _ => panic!("unknown"),
    }
    match parse(&["a", "b"]) {
        Err(ArgError::Extra(s)) => assert_eq!(s, "b"),
        _ => panic!("extra"),
    }
    assert!(matches!(parse(&["--nope", "--speed", "x"]), Err(ArgError::Unknown(_))), "from left to right");
}

#[test]
fn text_is_normalized() {
    assert_eq!(normalize("\u{feff}a\r\nb\rc\n"), "a\nb\nc\n");
    assert_eq!(normalize("a\u{feff}"), "a\u{feff}");
    assert_eq!(normalize("\r\r\n"), "\n\n");
    assert_eq!(normalize(""), "");
}

#[test]
fn input_is_bounded_text() {
    assert_eq!(input_text("h\r\né".as_bytes()).unwrap(), "h\né");
    assert_eq!(input_text(&[0xff]), Err(InputError::NotText));
    assert_eq!(input_text(&vec![b'a'; MAX_INPUT_BYTES + 1]), Err(InputError::TooLarge));
    assert_eq!(input_text(&vec![b'a'; MAX_INPUT_BYTES]).unwrap().len(), 2 << 20);
}

#[test]
fn a_missing_path_is_not_read_aloud() {
    assert_eq!(resolve_source(None, false, None), Source::Stdin);
    assert_eq!(resolve_source(Some("-"), true, None), Source::Stdin);
    assert_eq!(resolve_source(Some("a.txt"), true, Some("txt")), Source::File);
    assert_eq!(resolve_source(Some("a.txt"), false, Some("txt")), Source::Missing);
    assert_eq!(resolve_source(Some("dir/a"), false, None), Source::Missing);
    assert_eq!(resolve_source(Some("Hello there."), false, Some("")), Source::Literal);
    assert_eq!(resolve_source(Some("a.TXT"), false, Some("TXT")), Source::Literal);
    for e in ["md", "text", "log", "csv", "json"] {
        assert_eq!(resolve_source(Some("x"), false, Some(e)), Source::Missing);
    }
}

#[test]
fn only_wav_is_written() {
    let t = |out, tty, dir, ext, same| resolve_target(out, tty, dir, ext, same);
    assert_eq!(t(None, false, false, None, false), Target::Nowhere);
    assert_eq!(t(Some("-"), true, false, None, false), Target::Terminal);
    assert_eq!(t(Some("-"), false, true, None, true), Target::Stdout);
    assert_eq!(t(Some("d"), false, true, None, false), Target::Directory);
    assert_eq!(t(Some("a.mp3"), false, false, Some("mp3"), false), Target::NotWav);
    assert_eq!(t(Some("a"), false, false, None, false), Target::NotWav);
    assert_eq!(t(Some("a.wav"), false, false, Some("wav"), true), Target::Overwrites);
    assert_eq!(t(Some("a.WaV"), true, false, Some("WaV"), false), Target::File);
}

#[test]
fn messy_input_is_tidied_unless_told_not_to() {
    let messy = "one [1] two [2] three [3]";
    assert_eq!(text_to_speak(messy, false), Some(("one two three".to_string(), true)));
    assert_eq!(text_to_speak(messy, true), Some((messy.to_string(), false)));
    assert_eq!(text_to_speak("clean", false), Some(("clean".to_string(), false)));
}

#[test]
fn dumps_are_line_by_line() {
    assert_eq!(dump_lines("a\n \n b \r\n\n"), vec!["a".to_string(), " b ".to_string()]);
    assert_eq!(token_line(&vec![1, -20, i64::MIN]), format!("1 -20 {}", i64::MIN));
    assert_eq!(token_line(&vec![]), "");
}

#[test]
fn synthesis_stays_a_few_sentences_ahead() {
    assert!(!is_far_ahead(7, Some((0, 0))) && is_far_ahead(8, Some((0, 0))));
    assert!(!is_far_ahead(3, Some((5, 0))) && !is_far_ahead(100, None));
}

#[test]
fn words_are_printed_as_they_begin() {
    let mut r = ReadAlong::new();
    let starts = vec![0, 100, 200];
    assert_eq!(r.advance(4, 0, &starts), (0, 1));
    assert_eq!(r.advance(4, 150, &starts), (1, 2));
    assert_eq!(r.advance(4, 150, &starts), (2, 2), "nothing twice");
    assert_eq!(r.advance(5, 500, &starts), (0, 3), "a new sentence starts anew");
    assert_eq!(r.advance(5, 500, &vec![]), (3, 3));
}

#[test]
fn standard_output_is_not_shared() {
    assert!(output_clashes(&parse(&["-o", "-", "--tokens"]).unwrap()));
    assert!(output_clashes(&parse(&["--phonemes", "--out", "-"]).unwrap()));
    assert!(!output_clashes(&parse(&["-o", "-"]).unwrap()));
    assert!(!output_clashes(&parse(&["-o", "x.wav", "--tokens"]).unwrap()));
    assert!(!output_clashes(&parse(&["--tokens"]).unwrap()));
}
