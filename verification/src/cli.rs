//! The command line: its arguments, its input, and what goes where.

use crate::text::{
    chars_of, contains, glue, glued, lines, lines_of, lists, push_all, replace, replaced,
    same_text, slice_of, string_of, text_of_utf8, texts, trim, trimmed,
};
use crate::tidy::{looks_messy, messy, tidied, tidy};
use vstd::prelude::*;
use vstd::utf8::{decode_utf8, encode_utf8_decode_utf8, valid_utf8};

verus! {

/// What an argument is worth as a speed.
#[derive(Debug, Clone, Copy, PartialEq, Eq, Structural)]
pub enum SpeedCheck {
    /// A number from 0.5 to 2.
    Good,
    NotNumber,
    OutOfRange,
}

/// What the command line asks for.
#[derive(Debug)]
pub struct Args {
    /// A path, `-`, or a text to speak.
    pub input: Option<String>,
    pub out: Option<String>,
    pub voice: Option<String>,
    pub speed: Option<String>,
    pub tsv: Option<String>,
    pub play: bool,
    pub no_tidy: bool,
    pub phonemes: bool,
    pub tokens: bool,
    pub list_voices: bool,
    pub help: bool,
    pub version: bool,
}

/// What the command line asks for.
#[verifier::ext_equal]
pub struct ArgsView {
    pub input: Option<Seq<char>>,
    pub out: Option<Seq<char>>,
    pub voice: Option<Seq<char>>,
    pub speed: Option<Seq<char>>,
    pub tsv: Option<Seq<char>>,
    pub play: bool,
    pub no_tidy: bool,
    pub phonemes: bool,
    pub tokens: bool,
    pub list_voices: bool,
    pub help: bool,
    pub version: bool,
}

impl View for Args {
    type V = ArgsView;

    open spec fn view(&self) -> ArgsView {
        ArgsView {
            input: crate::editor::maybe(self.input),
            out: crate::editor::maybe(self.out),
            voice: crate::editor::maybe(self.voice),
            speed: crate::editor::maybe(self.speed),
            tsv: crate::editor::maybe(self.tsv),
            play: self.play,
            no_tidy: self.no_tidy,
            phonemes: self.phonemes,
            tokens: self.tokens,
            list_voices: self.list_voices,
            help: self.help,
            version: self.version,
        }
    }
}

/// An option that takes a value.
#[derive(Debug, Clone, Copy, PartialEq, Eq, Structural)]
pub enum Valued {
    Out,
    Voice,
    Speed,
    Tsv,
}

/// What is wrong with a command line.
#[derive(Debug)]
pub enum ArgError {
    NeedsValue(Valued),
    SpeedNotNumber(String),
    SpeedOutOfRange(String),
    Unknown(String),
    Extra(String),
}

/// What is wrong with a command line.
pub enum ArgErrorView {
    NeedsValue(Valued),
    SpeedNotNumber(Seq<char>),
    SpeedOutOfRange(Seq<char>),
    Unknown(Seq<char>),
    Extra(Seq<char>),
}

impl View for ArgError {
    type V = ArgErrorView;

    open spec fn view(&self) -> ArgErrorView {
        match self {
            ArgError::NeedsValue(v) => ArgErrorView::NeedsValue(*v),
            ArgError::SpeedNotNumber(s) => ArgErrorView::SpeedNotNumber(s@),
            ArgError::SpeedOutOfRange(s) => ArgErrorView::SpeedOutOfRange(s@),
            ArgError::Unknown(s) => ArgErrorView::Unknown(s@),
            ArgError::Extra(s) => ArgErrorView::Extra(s@),
        }
    }
}

/// No argument yet.
pub open spec fn no_args() -> ArgsView {
    ArgsView {
        input: None,
        out: None,
        voice: None,
        speed: None,
        tsv: None,
        play: false,
        no_tidy: false,
        phonemes: false,
        tokens: false,
        list_voices: false,
        help: false,
        version: false,
    }
}

/// Can an argument be a value? Not if it looks like an option; `-` does not.
pub open spec fn is_value(arg: Seq<char>) -> bool {
    arg == "-"@ || arg.len() == 0 || arg[0] != '-'
}

/// The option that takes a value by this name.
pub open spec fn valued(arg: Seq<char>) -> Option<Valued> {
    if arg == "-o"@ || arg == "--out"@ {
        Some(Valued::Out)
    } else if arg == "--voice"@ {
        Some(Valued::Voice)
    } else if arg == "--speed"@ {
        Some(Valued::Speed)
    } else if arg == "--tsv"@ {
        Some(Valued::Tsv)
    } else {
        None
    }
}

/// A command line with an option's value set; a speed has to be a good one.
pub open spec fn with_value(
    a: ArgsView,
    option: Valued,
    value: Seq<char>,
    speed: SpeedCheck,
) -> Result<ArgsView, ArgErrorView> {
    match option {
        Valued::Out => Ok(ArgsView { out: Some(value), ..a }),
        Valued::Voice => Ok(ArgsView { voice: Some(value), ..a }),
        Valued::Tsv => Ok(ArgsView { tsv: Some(value), ..a }),
        Valued::Speed => match speed {
            SpeedCheck::Good => Ok(ArgsView { speed: Some(value), ..a }),
            SpeedCheck::NotNumber => Err(ArgErrorView::SpeedNotNumber(value)),
            SpeedCheck::OutOfRange => Err(ArgErrorView::SpeedOutOfRange(value)),
        },
    }
}

/// A command line after one more argument that takes no value. A `-` replaces the
/// input; any other text is the input if there is none yet.
pub open spec fn with_flag(a: ArgsView, arg: Seq<char>) -> Result<ArgsView, ArgErrorView> {
    if arg == "--play"@ {
        Ok(ArgsView { play: true, ..a })
    } else if arg == "--no-tidy"@ {
        Ok(ArgsView { no_tidy: true, ..a })
    } else if arg == "--phonemes"@ {
        Ok(ArgsView { phonemes: true, ..a })
    } else if arg == "--tokens"@ {
        Ok(ArgsView { tokens: true, ..a })
    } else if arg == "--list-voices"@ {
        Ok(ArgsView { list_voices: true, ..a })
    } else if arg == "-h"@ || arg == "--help"@ {
        Ok(ArgsView { help: true, ..a })
    } else if arg == "--version"@ {
        Ok(ArgsView { version: true, ..a })
    } else if arg == "-"@ {
        Ok(ArgsView { input: Some(arg), ..a })
    } else if !is_value(arg) {
        Err(ArgErrorView::Unknown(arg))
    } else if a.input is Some {
        Err(ArgErrorView::Extra(arg))
    } else {
        Ok(ArgsView { input: Some(arg), ..a })
    }
}

/// The arguments from `i` on, on top of what came before; once `--` has stood there,
/// each is the input.
pub open spec fn parsed_args(
    argv: Seq<Seq<char>>,
    speeds: Seq<SpeedCheck>,
    i: int,
    plain: bool,
    a: ArgsView,
) -> Result<ArgsView, ArgErrorView>
    decreases argv.len() - i,
{
    if i < 0 || i >= argv.len() {
        Ok(a)
    } else if plain {
        parsed_args(argv, speeds, i + 1, true, ArgsView { input: Some(argv[i]), ..a })
    } else if argv[i] == "--"@ {
        parsed_args(argv, speeds, i + 1, true, a)
    } else {
        match valued(argv[i]) {
            Some(option) => if i + 1 < argv.len() && is_value(argv[i + 1]) {
                match with_value(a, option, argv[i + 1], speeds[i + 1]) {
                    Ok(b) => parsed_args(argv, speeds, i + 2, false, b),
                    Err(e) => Err(e),
                }
            } else {
                Err(ArgErrorView::NeedsValue(option))
            },
            None => match with_flag(a, argv[i]) {
                Ok(b) => parsed_args(argv, speeds, i + 1, false, b),
                Err(e) => Err(e),
            },
        }
    }
}

fn can_be_value(arg: &str) -> (b: bool)
    ensures
        b == is_value(arg@),
{
    let c = chars_of(arg);
    same_text(arg, "-") || c.len() == 0 || c[0] != '-'
}

fn valued_of(arg: &str) -> (r: Option<Valued>)
    ensures
        r == valued(arg@),
{
    if same_text(arg, "-o") || same_text(arg, "--out") {
        Some(Valued::Out)
    } else if same_text(arg, "--voice") {
        Some(Valued::Voice)
    } else if same_text(arg, "--speed") {
        Some(Valued::Speed)
    } else if same_text(arg, "--tsv") {
        Some(Valued::Tsv)
    } else {
        None
    }
}

impl Args {
    pub fn new() -> (a: Args)
        ensures
            a@ == no_args(),
    {
        Args {
            input: None,
            out: None,
            voice: None,
            speed: None,
            tsv: None,
            play: false,
            no_tidy: false,
            phonemes: false,
            tokens: false,
            list_voices: false,
            help: false,
            version: false,
        }
    }

    fn set_value(&mut self, option: Valued, value: String, speed: SpeedCheck) -> (r: Result<
        (),
        ArgError,
    >)
        ensures
            match r {
                Ok(_) => with_value(old(self)@, option, value@, speed) == Ok::<_, ArgErrorView>(
                    final(self)@,
                ),
                Err(e) => with_value(old(self)@, option, value@, speed) == Err::<ArgsView, _>(e@),
            },
    {
        match option {
            Valued::Out => {
                self.out = Some(value);
            },
            Valued::Voice => {
                self.voice = Some(value);
            },
            Valued::Tsv => {
                self.tsv = Some(value);
            },
            Valued::Speed => match speed {
                SpeedCheck::Good => {
                    self.speed = Some(value);
                },
                SpeedCheck::NotNumber => {
                    return Err(ArgError::SpeedNotNumber(value));
                },
                SpeedCheck::OutOfRange => {
                    return Err(ArgError::SpeedOutOfRange(value));
                },
            },
        }
        Ok(())
    }

    fn set_flag(&mut self, arg: String) -> (r: Result<(), ArgError>)
        ensures
            match r {
                Ok(_) => with_flag(old(self)@, arg@) == Ok::<_, ArgErrorView>(final(self)@),
                Err(e) => with_flag(old(self)@, arg@) == Err::<ArgsView, _>(e@),
            },
    {
        let a = arg.as_str();
        if same_text(a, "--play") {
            self.play = true;
        } else if same_text(a, "--no-tidy") {
            self.no_tidy = true;
        } else if same_text(a, "--phonemes") {
            self.phonemes = true;
        } else if same_text(a, "--tokens") {
            self.tokens = true;
        } else if same_text(a, "--list-voices") {
            self.list_voices = true;
        } else if same_text(a, "-h") || same_text(a, "--help") {
            self.help = true;
        } else if same_text(a, "--version") {
            self.version = true;
        } else if same_text(a, "-") {
            self.input = Some(arg);
        } else if !can_be_value(a) {
            return Err(ArgError::Unknown(arg));
        } else if self.input.is_some() {
            return Err(ArgError::Extra(arg));
        } else {
            self.input = Some(arg);
        }
        Ok(())
    }
}

/// Read the command line from left to right. `speeds` says of each argument what it is
/// worth as a speed.
pub fn parse_args(argv: &Vec<String>, speeds: &Vec<SpeedCheck>) -> (r: Result<Args, ArgError>)
    requires
        speeds.len() == argv.len(),
    ensures
        match r {
            Ok(a) => parsed_args(texts(argv@), speeds@, 0, false, no_args()) == Ok::<
                _,
                ArgErrorView,
            >(a@),
            Err(e) => parsed_args(texts(argv@), speeds@, 0, false, no_args()) == Err::<
                ArgsView,
                _,
            >(e@),
        },
{
    let ghost all = texts(argv@);
    let ghost whole = parsed_args(all, speeds@, 0, false, no_args());
    let mut a = Args::new();
    let mut plain: bool = false;
    let mut i: usize = 0;
    assert(all.len() == argv.len());
    while i < argv.len()
        invariant
            i <= argv.len(),
            speeds.len() == argv.len(),
            all == texts(argv@),
            all.len() == argv.len(),
            whole == parsed_args(all, speeds@, i as int, plain, a@),
            whole == parsed_args(all, speeds@, 0, false, no_args()),
        decreases argv.len() - i,
    {
        assert(all[i as int] == argv@[i as int]@);
        let arg = argv[i].clone();
        let ghost before = a@;
        if plain {
            a.input = Some(arg);
            assert(a@ =~= ArgsView { input: Some(all[i as int]), ..before });
            i += 1;
        } else if same_text(arg.as_str(), "--") {
            plain = true;
            i += 1;
        } else {
            match valued_of(arg.as_str()) {
                Some(option) => {
                    if argv.len() - i > 1 && can_be_value(argv[i + 1].as_str()) {
                        assert(all[i + 1] == argv@[i + 1]@);
                        match a.set_value(option, argv[i + 1].clone(), speeds[i + 1]) {
                            Ok(_) => {},
                            Err(e) => {
                                return Err(e);
                            },
                        }
                        i += 2;
                    } else {
                        if argv.len() - i > 1 {
                            assert(all[i + 1] == argv@[i + 1]@);
                        }
                        return Err(ArgError::NeedsValue(option));
                    }
                },
                None => {
                    match a.set_flag(arg) {
                        Ok(_) => {},
                        Err(e) => {
                            return Err(e);
                        },
                    }
                    i += 1;
                },
            }
        }
    }
    Ok(a)
}

/// An option and its value are never taken for the input: what follows a valued option
/// leaves the input as it was.
pub proof fn lemma_value_is_not_input(
    a: ArgsView,
    option: Valued,
    value: Seq<char>,
    speed: SpeedCheck,
)
    ensures
        with_value(a, option, value, speed) is Ok ==> with_value(a, option, value, speed)->Ok_0.input
            == a.input,
{
}

/// A text for speaking: without a byte order mark, and with line feeds alone for line
/// ends.
pub open spec fn normalized(s: Seq<char>) -> Seq<char> {
    let t = if s.len() > 0 && s[0] == '\u{feff}' {
        s.drop_first()
    } else {
        s
    };
    replaced(replaced(t, seq!['\r', '\n'], seq!['\n']), seq!['\r'], seq!['\n'])
}

/// Make a text ready for speaking.
pub fn normalize(text: &str) -> (r: String)
    ensures
        r@ == normalized(text@),
{
    let s = chars_of(text);
    let from: usize = if s.len() > 0 && s[0] == '\u{feff}' {
        1
    } else {
        0
    };
    let t = slice_of(s.as_slice(), from, s.len());
    assert(from == 1 ==> t@ =~= s@.drop_first());
    assert(from == 0 ==> t@ =~= s@);
    let crlf: [char; 2] = ['\r', '\n'];
    let cr: [char; 1] = ['\r'];
    let lf: [char; 1] = ['\n'];
    assert(crlf@ =~= seq!['\r', '\n']);
    assert(cr@ =~= seq!['\r']);
    assert(lf@ =~= seq!['\n']);
    let folded = replace(t.as_slice(), crlf.as_slice(), lf.as_slice());
    let done = replace(folded.as_slice(), cr.as_slice(), lf.as_slice());
    string_of(done.as_slice())
}

/// A normalized text holds no carriage return.
pub proof fn lemma_no_return_is_left(s: Seq<char>, k: int)
    requires
        0 <= k < normalized(s).len(),
    ensures
        normalized(s)[k] != '\r',
{
    let t = if s.len() > 0 && s[0] == '\u{feff}' {
        s.drop_first()
    } else {
        s
    };
    lemma_replaced_char(replaced(t, seq!['\r', '\n'], seq!['\n']), '\r', '\n');
}

proof fn lemma_replaced_char(s: Seq<char>, c: char, d: char)
    requires
        c != d,
    ensures
        forall|k: int|
            0 <= k < replaced(s, seq![c], seq![d]).len() ==> #[trigger] replaced(
                s,
                seq![c],
                seq![d],
            )[k] != c,
    decreases s.len(),
{
    if s.len() > 0 {
        let rest = replaced(s.skip(1), seq![c], seq![d]);
        lemma_replaced_char(s.skip(1), c, d);
        crate::text::lemma_occurs_char(s, c, 0);
        let all = replaced(s, seq![c], seq![d]);
        assert forall|k: int| 0 <= k < all.len() implies #[trigger] all[k] != c by {
            if k > 0 {
                assert(all[k] == rest[k - 1]);
            }
        }
    }
}

/// The most bytes of input.
pub const MAX_INPUT_BYTES: usize = 2097152;

/// Why input cannot be spoken.
#[derive(Debug, Clone, Copy, PartialEq, Eq, Structural)]
pub enum InputError {
    TooLarge,
    NotText,
}

/// The text of what was read: up to one byte more than the limit, so that too much is
/// known from enough.
pub fn input_text(bytes: &[u8]) -> (r: Result<String, InputError>)
    ensures
        match r {
            Ok(t) => bytes.len() <= 2_097_152 && valid_utf8(bytes@) && t@ == normalized(
                decode_utf8(bytes@),
            ),
            Err(InputError::TooLarge) => bytes.len() > 2_097_152,
            Err(InputError::NotText) => bytes.len() <= 2_097_152 && !valid_utf8(bytes@),
        },
{
    if bytes.len() > MAX_INPUT_BYTES {
        return Err(InputError::TooLarge);
    }
    match text_of_utf8(bytes) {
        None => Err(InputError::NotText),
        Some(t) => {
            proof {
                encode_utf8_decode_utf8(t@);
            }
            Ok(normalize(t.as_str()))
        },
    }
}

/// Where the input is.
#[derive(Debug, Clone, Copy, PartialEq, Eq, Structural)]
pub enum Source {
    Stdin,
    File,
    /// It looks like a path, but nothing is there.
    Missing,
    /// It is the text itself.
    Literal,
}

/// Is this the ending of a file of text?
pub open spec fn text_ending(ext: Seq<char>) -> bool {
    ext == "txt"@ || ext == "md"@ || ext == "text"@ || ext == "log"@ || ext == "csv"@ || ext
        == "json"@
}

/// Where the input is that an argument names: standard input for `-` or none; a file
/// that is there; not a text to speak if it looks like a path.
pub open spec fn source(arg: Option<&str>, there: bool, ext: Option<&str>) -> Source {
    match arg {
        None => Source::Stdin,
        Some(s) => if s@ == "-"@ {
            Source::Stdin
        } else if there {
            Source::File
        } else if s@.contains('/') || (ext is Some && text_ending(ext->0@)) {
            Source::Missing
        } else {
            Source::Literal
        },
    }
}

fn is_text_ending(ext: &str) -> (b: bool)
    ensures
        b == text_ending(ext@),
{
    same_text(ext, "txt") || same_text(ext, "md") || same_text(ext, "text") || same_text(ext, "log")
        || same_text(ext, "csv") || same_text(ext, "json")
}

/// Where the input is, given whether a file of that name is there and what it ends in.
pub fn resolve_source(arg: Option<&str>, there: bool, ext: Option<&str>) -> (r: Source)
    ensures
        r == source(arg, there, ext),
{
    match arg {
        None => Source::Stdin,
        Some(s) => {
            if same_text(s, "-") {
                return Source::Stdin;
            }
            if there {
                return Source::File;
            }
            let c = chars_of(s);
            let mut i: usize = 0;
            while i < c.len()
                invariant
                    i <= c.len(),
                    c@ == s@,
                    arg == Some(s),
                    s@ != "-"@,
                    !there,
                    forall|k: int| 0 <= k < i ==> c@[k] != '/',
                decreases c.len() - i,
            {
                if c[i] == '/' {
                    assert(s@[i as int] == '/');
                    return Source::Missing;
                }
                i += 1;
            }
            assert(!s@.contains('/'));
            let known: bool = match ext {
                Some(e) => is_text_ending(e),
                None => false,
            };
            if known {
                Source::Missing
            } else {
                Source::Literal
            }
        },
    }
}

/// Where the audio goes.
#[derive(Debug, Clone, Copy, PartialEq, Eq, Structural)]
pub enum Target {
    Nowhere,
    Stdout,
    File,
    /// Audio is not written to a terminal.
    Terminal,
    Directory,
    /// Only `.wav` is written.
    NotWav,
    /// The output would overwrite the input.
    Overwrites,
}

/// An ending that says WAV, in whatever case.
pub open spec fn wav_ending(ext: Option<&str>) -> bool {
    ext is Some && ext->0@.len() == 3 && crate::text::folded(ext->0@[0]) == 'w'
        && crate::text::folded(ext->0@[1]) == 'a' && crate::text::folded(ext->0@[2]) == 'v'
}

fn is_wav_ending(ext: Option<&str>) -> (b: bool)
    ensures
        b == wav_ending(ext),
{
    match ext {
        None => false,
        Some(e) => {
            let c = chars_of(e);
            c.len() == 3 && (c[0] == 'w' || c[0] == 'W') && (c[1] == 'a' || c[1] == 'A') && (c[2]
                == 'v' || c[2] == 'V')
        },
    }
}

/// Where the audio goes that an argument names, given what is known of that place.
pub fn resolve_target(
    out: Option<&str>,
    terminal: bool,
    directory: bool,
    ext: Option<&str>,
    same_as_input: bool,
) -> (r: Target)
    ensures
        r == (match out {
            None => Target::Nowhere,
            Some(o) => if o@ == "-"@ {
                if terminal {
                    Target::Terminal
                } else {
                    Target::Stdout
                }
            } else if directory {
                Target::Directory
            } else if !wav_ending(ext) {
                Target::NotWav
            } else if same_as_input {
                Target::Overwrites
            } else {
                Target::File
            },
        }),
{
    match out {
        None => Target::Nowhere,
        Some(o) => {
            if same_text(o, "-") {
                if terminal {
                    Target::Terminal
                } else {
                    Target::Stdout
                }
            } else if directory {
                Target::Directory
            } else if !is_wav_ending(ext) {
                Target::NotWav
            } else if same_as_input {
                Target::Overwrites
            } else {
                Target::File
            }
        },
    }
}

/// Is it to be played aloud? If asked for, or if nothing else is to come of it.
pub fn wants_play(args: &Args) -> (b: bool)
    ensures
        b == (args.play || (args.out is None && args.tsv is None)),
{
    args.play || (args.out.is_none() && args.tsv.is_none())
}

/// Do two things want standard output? Phonemes and tokens are printed there, so audio
/// cannot go there too.
pub fn output_clashes(args: &Args) -> (b: bool)
    ensures
        b == ((args.phonemes || args.tokens) && args@.out == Some("-"@)),
{
    if args.phonemes || args.tokens {
        match &args.out {
            Some(o) => same_text(o.as_str(), "-"),
            None => false,
        }
    } else {
        false
    }
}

/// The text to speak, and whether it was tidied for it: if it reads as PDF debris,
/// unless that is not wanted. Nothing where a rule gives up on it.
pub fn text_to_speak(raw: &str, no_tidy: bool) -> (r: Option<(String, bool)>)
    ensures
        match r {
            Some((t, true)) => !no_tidy && messy(raw@) && tidied(raw@) == Some(t@),
            Some((t, false)) => (no_tidy || !messy(raw@)) && t@ == raw@,
            None => !no_tidy && messy(raw@) && tidied(raw@) is None,
        },
{
    if no_tidy || !looks_messy(raw) {
        let c = chars_of(raw);
        return Some((string_of(c.as_slice()), false));
    }
    match crate::tidy::try_tidy(raw) {
        Some(t) => Some((t, true)),
        None => None,
    }
}

/// The lines that are not blank, one utterance each.
pub open spec fn utterances(s: Seq<char>) -> Seq<Seq<char>> {
    lines(s).filter(not_blank())
}

pub open spec fn not_blank() -> spec_fn(Seq<char>) -> bool {
    |l: Seq<char>| trimmed(l).len() > 0
}

/// The lines that are not blank.
pub fn dump_lines(raw: &str) -> (r: Vec<String>)
    ensures
        texts(r@) == utterances(raw@),
{
    let chars = chars_of(raw);
    let all = lines_of(chars.as_slice());
    let ghost l = lists(all@);
    let mut r: Vec<String> = Vec::new();
    let mut i: usize = 0;
    assert(l.len() == all.len());
    assert(texts(r@) =~= l.take(0).filter(not_blank())) by {
        reveal(Seq::filter);
    }
    while i < all.len()
        invariant
            i <= all.len(),
            l == lists(all@),
            l.len() == all.len(),
            texts(r@) == l.take(i as int).filter(not_blank()),
        decreases all.len() - i,
    {
        assert(l[i as int] == all@[i as int]@);
        assert(l.take(i + 1) =~= l.take(i as int).push(l[i as int]));
        proof {
            l.take(i as int).lemma_filter_push(l[i as int], not_blank());
        }
        let ghost before = r@;
        let ends = trim(all[i].as_slice());
        if ends.len() > 0 {
            r.push(string_of(all[i].as_slice()));
            assert(texts(r@) =~= texts(before).push(l[i as int]));
        }
        i += 1;
    }
    assert(l.take(i as int) =~= l);
    r
}

/// A number in decimal, negative ones with a sign.
pub open spec fn signed(n: i64) -> Seq<char> {
    if n < 0 {
        seq!['-'] + crate::numbers::decimal((-n) as nat)
    } else {
        crate::numbers::decimal(n as nat)
    }
}

fn signed_text(n: i64) -> (r: String)
    ensures
        r@ == signed(n),
{
    let mut out: Vec<char> = Vec::new();
    let size: u64 = if n < 0 {
        out.push('-');
        (-((n + 1))) as u64 + 1
    } else {
        n as u64
    };
    let d = crate::numbers::decimal_of(size);
    push_all(&mut out, d.as_slice());
    assert(out@ =~= signed(n));
    string_of(out.as_slice())
}

/// Token ids on a line.
pub fn token_line(ids: &Vec<i64>) -> (r: String)
    ensures
        r@ == glued(ids@.map_values(|n: i64| signed(n)), seq![' ']),
{
    let ghost all = ids@.map_values(|n: i64| signed(n));
    let mut parts: Vec<String> = Vec::new();
    let mut i: usize = 0;
    assert(texts(parts@) =~= all.take(0));
    while i < ids.len()
        invariant
            i <= ids.len(),
            all == ids@.map_values(|n: i64| signed(n)),
            texts(parts@) == all.take(i as int),
        decreases ids.len() - i,
    {
        let ghost before = parts@;
        parts.push(signed_text(ids[i]));
        assert(texts(parts@) =~= texts(before).push(all[i as int]));
        assert(all.take(i + 1) =~= all.take(i as int).push(all[i as int]));
        i += 1;
    }
    assert(all.take(i as int) =~= all);
    let sep: [char; 1] = [' '];
    assert(sep@ =~= seq![' ']);
    let line = glue(&parts, sep.as_slice());
    string_of(line.as_slice())
}

/// How many sentences ahead of playback synthesis may run.
pub const MAX_AHEAD: u32 = 8;

/// Should synthesis wait for playback to catch up with the sentence just queued?
pub fn is_far_ahead(queued: u32, playing: Option<(u32, u32)>) -> (b: bool)
    ensures
        b == (match playing {
            Some((s, _)) => queued - s >= 8,
            None => false,
        }),
{
    match playing {
        Some((s, _)) => queued >= s && queued - s >= MAX_AHEAD,
        None => false,
    }
}

/// Which word of which sentence is to be printed next.
#[derive(Debug, Clone, Copy, PartialEq, Eq, Structural)]
pub struct ReadAlong {
    pub sent: Option<u32>,
    pub word: usize,
}

impl ReadAlong {
    pub fn new() -> (r: ReadAlong)
        ensures
            r.sent is None,
            r.word == 0,
    {
        ReadAlong { sent: None, word: 0 }
    }

    /// Playback stands at a sample of a sentence whose words begin at the given
    /// samples. Returns the words to print now, from the first up to the second: those
    /// that have begun and were not printed. Each sentence starts at its first word.
    pub fn advance(&mut self, sent: u32, sample: u32, starts: &Vec<u32>) -> (r: (usize, usize))
        ensures
            r.0 == (if old(self).sent == Some(sent) {
                old(self).word
            } else {
                0
            }),
            r.0 <= r.1,
            r.1 <= starts.len() || r.1 == r.0,
            forall|k: int| r.0 <= k < r.1 ==> starts@[k] <= sample,
            r.1 < starts.len() ==> starts@[r.1 as int] > sample,
            final(self).sent == Some(sent),
            final(self).word == r.1,
    {
        let from: usize = if self.sent == Some(sent) {
            self.word
        } else {
            0
        };
        let mut to: usize = from;
        while to < starts.len() && starts[to] <= sample
            invariant
                from <= to,
                to <= starts.len() || to == from,
                forall|k: int| from <= k < to ==> starts@[k] <= sample,
            decreases starts.len() - to,
        {
            to += 1;
        }
        self.sent = Some(sent);
        self.word = to;
        (from, to)
    }
}

proof fn lemma_names_of_options()
    ensures
        "-"@.len() == 1,
        "-"@[0] == '-',
        "--"@.len() == 2,
        "--"@[0] == '-',
        "-o"@.len() == 2,
        "-o"@[0] == '-',
        "-h"@.len() == 2,
        "-h"@[0] == '-',
        "--out"@.len() == 5,
        "--out"@[0] == '-',
        "--tsv"@.len() == 5,
        "--tsv"@[0] == '-',
        "--voice"@.len() == 7,
        "--voice"@[0] == '-',
        "--speed"@.len() == 7,
        "--speed"@[0] == '-',
        "--play"@.len() == 6,
        "--play"@[0] == '-',
        "--help"@.len() == 6,
        "--help"@[0] == '-',
        "--no-tidy"@.len() == 9,
        "--no-tidy"@[0] == '-',
        "--tokens"@.len() == 8,
        "--tokens"@[0] == '-',
        "--phonemes"@.len() == 10,
        "--phonemes"@[0] == '-',
        "--version"@.len() == 9,
        "--version"@[0] == '-',
        "--list-voices"@.len() == 13,
        "--list-voices"@[0] == '-',
        "--"@[1] == '-',
        "-o"@[1] == 'o',
        "-h"@[1] == 'h',
        "--out"@[2] == 'o',
        "--tsv"@[2] == 't',
        "--voice"@[2] == 'v',
        "--speed"@[2] == 's',
        "--play"@[2] == 'p',
        "--help"@[2] == 'h',
        "--no-tidy"@[2] == 'n',
        "--tokens"@[2] == 't',
        "--phonemes"@[2] == 'p',
        "--version"@[2] == 'v',
        "--list-voices"@[2] == 'l',
{
    reveal_strlit("-");
    reveal_strlit("--");
    reveal_strlit("-o");
    reveal_strlit("-h");
    reveal_strlit("--out");
    reveal_strlit("--tsv");
    reveal_strlit("--voice");
    reveal_strlit("--speed");
    reveal_strlit("--play");
    reveal_strlit("--help");
    reveal_strlit("--no-tidy");
    reveal_strlit("--tokens");
    reveal_strlit("--phonemes");
    reveal_strlit("--version");
    reveal_strlit("--list-voices");
}

/// A flag is set by its name, and nothing else is.
pub proof fn lemma_flags_are_taken(
    argv: Seq<Seq<char>>,
    speeds: Seq<SpeedCheck>,
    i: int,
    a: ArgsView,
)
    requires
        0 <= i < argv.len(),
    ensures
        argv[i] == "--play"@ ==> parsed_args(argv, speeds, i, false, a) == parsed_args(
            argv,
            speeds,
            i + 1,
            false,
            ArgsView { play: true, ..a },
        ),
        argv[i] == "--no-tidy"@ ==> parsed_args(argv, speeds, i, false, a) == parsed_args(
            argv,
            speeds,
            i + 1,
            false,
            ArgsView { no_tidy: true, ..a },
        ),
        argv[i] == "--phonemes"@ ==> parsed_args(argv, speeds, i, false, a) == parsed_args(
            argv,
            speeds,
            i + 1,
            false,
            ArgsView { phonemes: true, ..a },
        ),
        argv[i] == "--tokens"@ ==> parsed_args(argv, speeds, i, false, a) == parsed_args(
            argv,
            speeds,
            i + 1,
            false,
            ArgsView { tokens: true, ..a },
        ),
        argv[i] == "--list-voices"@ ==> parsed_args(argv, speeds, i, false, a) == parsed_args(
            argv,
            speeds,
            i + 1,
            false,
            ArgsView { list_voices: true, ..a },
        ),
        argv[i] == "-h"@ ==> parsed_args(argv, speeds, i, false, a) == parsed_args(
            argv,
            speeds,
            i + 1,
            false,
            ArgsView { help: true, ..a },
        ),
        argv[i] == "--help"@ ==> parsed_args(argv, speeds, i, false, a) == parsed_args(
            argv,
            speeds,
            i + 1,
            false,
            ArgsView { help: true, ..a },
        ),
        argv[i] == "--version"@ ==> parsed_args(argv, speeds, i, false, a) == parsed_args(
            argv,
            speeds,
            i + 1,
            false,
            ArgsView { version: true, ..a },
        ),
{
    lemma_names_of_options();
}

/// An option takes the argument behind it, if that is `-` or does not begin with a dash; a
/// speed has to be a number from 0.5 to 2.
pub proof fn lemma_options_take_values(
    argv: Seq<Seq<char>>,
    speeds: Seq<SpeedCheck>,
    i: int,
    a: ArgsView,
)
    requires
        0 <= i,
        i + 1 < argv.len(),
        argv[i + 1] == seq!['-'] || argv[i + 1].len() == 0 || argv[i + 1][0] != '-',
    ensures
        argv[i] == "-o"@ ==> parsed_args(argv, speeds, i, false, a) == parsed_args(
            argv,
            speeds,
            i + 2,
            false,
            ArgsView { out: Some(argv[i + 1]), ..a },
        ),
        argv[i] == "--out"@ ==> parsed_args(argv, speeds, i, false, a) == parsed_args(
            argv,
            speeds,
            i + 2,
            false,
            ArgsView { out: Some(argv[i + 1]), ..a },
        ),
        argv[i] == "--voice"@ ==> parsed_args(argv, speeds, i, false, a) == parsed_args(
            argv,
            speeds,
            i + 2,
            false,
            ArgsView { voice: Some(argv[i + 1]), ..a },
        ),
        argv[i] == "--tsv"@ ==> parsed_args(argv, speeds, i, false, a) == parsed_args(
            argv,
            speeds,
            i + 2,
            false,
            ArgsView { tsv: Some(argv[i + 1]), ..a },
        ),
        argv[i] == "--speed"@ && speeds[i + 1] is Good ==> parsed_args(argv, speeds, i, false, a)
            == parsed_args(
            argv,
            speeds,
            i + 2,
            false,
            ArgsView { speed: Some(argv[i + 1]), ..a },
        ),
        argv[i] == "--speed"@ && speeds[i + 1] is NotNumber ==> parsed_args(
            argv,
            speeds,
            i,
            false,
            a,
        ) == Err::<ArgsView, _>(ArgErrorView::SpeedNotNumber(argv[i + 1])),
        argv[i] == "--speed"@ && speeds[i + 1] is OutOfRange ==> parsed_args(
            argv,
            speeds,
            i,
            false,
            a,
        ) == Err::<ArgsView, _>(ArgErrorView::SpeedOutOfRange(argv[i + 1])),
{
    lemma_names_of_options();
    assert("-"@ =~= seq!['-']);
}

/// An option without a value behind it is an error: at the end, or before another option.
pub proof fn lemma_options_need_values(
    argv: Seq<Seq<char>>,
    speeds: Seq<SpeedCheck>,
    i: int,
    a: ArgsView,
)
    requires
        0 <= i < argv.len(),
        i + 1 < argv.len() ==> argv[i + 1].len() > 1 && argv[i + 1][0] == '-',
    ensures
        argv[i] == "-o"@ ==> parsed_args(argv, speeds, i, false, a) == Err::<ArgsView, _>(
            ArgErrorView::NeedsValue(Valued::Out),
        ),
        argv[i] == "--out"@ ==> parsed_args(argv, speeds, i, false, a) == Err::<ArgsView, _>(
            ArgErrorView::NeedsValue(Valued::Out),
        ),
        argv[i] == "--voice"@ ==> parsed_args(argv, speeds, i, false, a) == Err::<ArgsView, _>(
            ArgErrorView::NeedsValue(Valued::Voice),
        ),
        argv[i] == "--tsv"@ ==> parsed_args(argv, speeds, i, false, a) == Err::<ArgsView, _>(
            ArgErrorView::NeedsValue(Valued::Tsv),
        ),
        argv[i] == "--speed"@ ==> parsed_args(argv, speeds, i, false, a) == Err::<ArgsView, _>(
            ArgErrorView::NeedsValue(Valued::Speed),
        ),
{
    lemma_names_of_options();
}

/// Any other argument is the input: there may be one, except that `-` takes its place and
/// that behind `--` the last one counts, whatever it looks like. What begins with a dash
/// and is no option is an error.
pub proof fn lemma_input_is_taken(
    argv: Seq<Seq<char>>,
    speeds: Seq<SpeedCheck>,
    i: int,
    plain: bool,
    a: ArgsView,
)
    requires
        0 <= i <= argv.len(),
    ensures
        i == argv.len() ==> parsed_args(argv, speeds, i, plain, a) == Ok::<_, ArgErrorView>(a),
        i < argv.len() ==> parsed_args(argv, speeds, i, true, a) == parsed_args(
            argv,
            speeds,
            i + 1,
            true,
            ArgsView { input: Some(argv[i]), ..a },
        ),
        i < argv.len() && argv[i] == "--"@ ==> parsed_args(argv, speeds, i, false, a)
            == parsed_args(argv, speeds, i + 1, true, a),
        i < argv.len() && (argv[i] == "-"@ || (a.input is None && (argv[i].len() == 0
            || argv[i][0] != '-'))) ==> parsed_args(argv, speeds, i, false, a) == parsed_args(
            argv,
            speeds,
            i + 1,
            false,
            ArgsView { input: Some(argv[i]), ..a },
        ),
        i < argv.len() && a.input is Some && (argv[i].len() == 0 || argv[i][0] != '-')
            ==> parsed_args(argv, speeds, i, false, a) == Err::<ArgsView, _>(
            ArgErrorView::Extra(argv[i]),
        ),
        i < argv.len() && argv[i].len() > 0 && argv[i][0] == '-' && argv[i] != "-"@ && argv[i] != "--"@ && argv[i] != "-o"@ && argv[i] != "-h"@ && argv[i] != "--out"@ && argv[i] != "--tsv"@ && argv[i] != "--voice"@ && argv[i] != "--speed"@ && argv[i] != "--play"@ && argv[i] != "--help"@ && argv[i] != "--no-tidy"@ && argv[i] != "--tokens"@ && argv[i] != "--phonemes"@ && argv[i] != "--version"@ && argv[i] != "--list-voices"@
            ==> parsed_args(argv, speeds, i, false, a) == Err::<ArgsView, _>(
            ArgErrorView::Unknown(argv[i]),
        ),
        no_args() == (ArgsView {
            input: None,
            out: None,
            voice: None,
            speed: None,
            tsv: None,
            play: false,
            no_tidy: false,
            phonemes: false,
            tokens: false,
            list_voices: false,
            help: false,
            version: false,
        }),
{
    lemma_names_of_options();
}

/// Line by line: a carriage return with a line feed behind it, or one alone, ends a line as
/// a line feed does, and everything else stays; a byte order mark in front is dropped.
pub proof fn lemma_line_ends_are_one(a: Seq<char>, b: Seq<char>)
    requires
        forall|k: int| 0 <= k < a.len() ==> #[trigger] a[k] != '\r',
        a.len() > 0 ==> a[0] != '\u{feff}',
        b.len() > 0 ==> b[0] != '\u{feff}',
    ensures
        normalized(a) == a,
        normalized(a + seq!['\r', '\n'] + b) == a + seq!['\n'] + normalized(b),
        b.len() == 0 || b[0] != '\n' ==> normalized(a + seq!['\r'] + b) == a + seq!['\n']
            + normalized(b),
        normalized(seq!['\u{feff}'] + b) == normalized(b),
{
    let (crlf, cr, lf) = (seq!['\r', '\n'], seq!['\r'], seq!['\n']);
    lemma_returns_between(a, b);
    let ra = replaced(a, crlf, lf);
    let rb = replaced(b, crlf, lf);
    lemma_no_return(a);
    lemma_no_return(lf);
    crate::text::lemma_replaced_append(a + lf, rb, cr, lf);
    crate::text::lemma_replaced_append(a, lf, cr, lf);
    crate::text::lemma_replaced_append(a + cr, rb, cr, lf);
    crate::text::lemma_replaced_append(a, cr, cr, lf);
    assert(replaced(cr, cr, lf) == lf) by {
        crate::text::lemma_occurs_char(cr, '\r', 0);
        assert(cr.skip(1) =~= Seq::<char>::empty());
        assert(replaced(cr.skip(1), cr, lf) =~= Seq::<char>::empty());
        assert(lf + Seq::<char>::empty() =~= lf);
    }
    let s = a + crlf + b;
    let t = a + cr + b;
    assert(s[0] != '\u{feff}');
    assert(t[0] != '\u{feff}');
    assert((seq!['\u{feff}'] + b).drop_first() =~= b);
}

proof fn lemma_no_return(a: Seq<char>)
    requires
        forall|k: int| 0 <= k < a.len() ==> #[trigger] a[k] != '\r',
    ensures
        replaced(a, seq!['\r', '\n'], seq!['\n']) == a,
        replaced(a, seq!['\r'], seq!['\n']) == a,
{
    let (crlf, cr) = (seq!['\r', '\n'], seq!['\r']);
    assert forall|k: int| 0 <= k < a.len() implies !crate::text::occurs_at(a, crlf, k) by {
        if crate::text::occurs_at(a, crlf, k) {
            assert(a.subrange(k, k + 2)[0] == crlf[0]);
        }
    }
    assert forall|k: int| 0 <= k < a.len() implies !crate::text::occurs_at(a, cr, k) by {
        crate::text::lemma_occurs_char(a, '\r', k);
    }
    crate::text::lemma_replaced_none(a, crlf, seq!['\n']);
    crate::text::lemma_replaced_none(a, cr, seq!['\n']);
}

proof fn lemma_returns_between(a: Seq<char>, b: Seq<char>)
    requires
        forall|k: int| 0 <= k < a.len() ==> #[trigger] a[k] != '\r',
    ensures
        ({
            let (crlf, cr, lf) = (seq!['\r', '\n'], seq!['\r'], seq!['\n']);
            let rb = replaced(b, crlf, lf);
            &&& replaced(a + crlf + b, crlf, lf) == a + lf + rb
            &&& b.len() == 0 || b[0] != '\n' ==> replaced(a + cr + b, crlf, lf) == a + cr + rb
        }),
{
    let (crlf, cr, lf) = (seq!['\r', '\n'], seq!['\r'], seq!['\n']);
    let rb = replaced(b, crlf, lf);
    lemma_no_return(a);
    assert(crlf.skip(2) =~= Seq::<char>::empty());
    assert(crlf.subrange(0, 2) =~= crlf);
    assert(crate::text::occurs_at(crlf, crlf, 0));
    assert(replaced(crlf.skip(2), crlf, lf) =~= Seq::<char>::empty());
    assert(replaced(crlf, crlf, lf) =~= lf);
    crate::text::lemma_replaced_append(a + crlf, b, crlf, lf);
    crate::text::lemma_replaced_append(a, crlf, crlf, lf);
    if b.len() == 0 || b[0] != '\n' {
        let t = cr + b;
        if crate::text::occurs_at(t, crlf, 0) {
            assert(t.subrange(0, 2)[1] == crlf[1]);
        }
        assert(t.skip(1) =~= b);
        assert(replaced(t, crlf, lf) == seq![t[0]] + rb);
        crate::text::lemma_replaced_append(a, t, crlf, lf);
        assert(a + cr + b =~= a + t);
        assert(replaced(a + cr + b, crlf, lf) =~= a + cr + rb);
    }
}

/// Where the input is: an argument names a file that is there; else it is taken for one
/// that is missing if it holds a slash or ends as a text file does, and for the text itself
/// if not.
pub proof fn lemma_where_the_input_is(s: &str, there: bool, ext: Option<&str>)
    ensures
        source(None, there, ext) is Stdin,
        s@ == "-"@ ==> source(Some(s), there, ext) is Stdin,
        s@ != "-"@ && there ==> source(Some(s), there, ext) is File,
        s@ != "-"@ && !there ==> (source(Some(s), there, ext) is Missing <==> (exists|k: int|
            0 <= k < s@.len() && #[trigger] s@[k] == '/') || (ext is Some && (ext->0@ == "txt"@
            || ext->0@ == "md"@ || ext->0@ == "text"@ || ext->0@ == "log"@ || ext->0@ == "csv"@
            || ext->0@ == "json"@))),
        s@ != "-"@ && !there && !(source(Some(s), there, ext) is Missing) ==> source(
            Some(s),
            there,
            ext,
        ) is Literal,
        wav_ending(ext) <==> ext is Some && ext->0@.len() == 3 && (ext->0@[0] == 'w' || ext->0@[0]
            == 'W') && (ext->0@[1] == 'a' || ext->0@[1] == 'A') && (ext->0@[2] == 'v'
            || ext->0@[2] == 'V'),
{
}

/// Line by line: a line that is not blank is an utterance, a blank one is none.
pub proof fn lemma_utterances_come_one_by_one(a: Seq<char>, b: Seq<char>)
    requires
        forall|k: int| 0 <= k < a.len() ==> #[trigger] a[k] != '\n',
        a.len() > 0 ==> a.last() != '\r',
    ensures
        utterances(Seq::<char>::empty()) == Seq::<Seq<char>>::empty(),
        trimmed(a).len() > 0 ==> utterances(a) == seq![a] && utterances(a + seq!['\n'] + b)
            == seq![a] + utterances(b),
        trimmed(a).len() == 0 ==> utterances(a) == Seq::<Seq<char>>::empty() && utterances(
            a + seq!['\n'] + b,
        ) == utterances(b),
{
    let none = Seq::<Seq<char>>::empty();
    crate::text::lemma_lines_come_one_by_one(a, b);
    crate::seqs::lemma_filter_append(seq![a], lines(b), not_blank());
    reveal(Seq::filter);
    assert(none.filter(not_blank()) =~= none);
    assert(seq![a].drop_last() =~= none);
    if trimmed(a).len() > 0 {
        assert(seq![a].filter(not_blank()) =~= seq![a]);
    } else {
        assert(seq![a].filter(not_blank()) =~= none);
        assert(none + utterances(b) =~= utterances(b));
        if a.len() == 0 {
            assert(a =~= Seq::<char>::empty());
        }
    }
}

/// A token id reads as its number, behind a dash if it is negative.
pub proof fn lemma_token_is_read(n: i64)
    ensures
        n >= 0 ==> crate::numbers::digits_value(signed(n)) == Some(n as int),
        n < 0 ==> signed(n).len() > 1 && signed(n)[0] == '-' && crate::numbers::digits_value(
            signed(n).skip(1),
        ) == Some(-n),
{
    if n < 0 {
        crate::numbers::lemma_decimal_value((-n) as nat);
        assert(signed(n).skip(1) =~= crate::numbers::decimal((-n) as nat));
    } else {
        crate::numbers::lemma_decimal_value(n as nat);
    }
}

} // verus!
