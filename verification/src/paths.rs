//! Where things lie: configuration, models, voices and exports. Paths are texts in the
//! Unix way; what the environment and the disk say comes in as arguments.

use crate::text::{
    chars_of, lines, lines_of, lists, push_all, replace, replaced, same, slice_of, string_of, texts,
};
use vstd::prelude::*;
use vstd::utf8::encode_utf8;

verus! {

/// A path below another; an absolute one stands by itself.
pub open spec fn below(base: Seq<char>, rest: Seq<char>) -> Seq<char> {
    if rest.len() > 0 && rest[0] == '/' {
        rest
    } else if base.len() == 0 || base.last() == '/' {
        base + rest
    } else {
        base.push('/') + rest
    }
}

/// A path below another.
pub fn join(base: &str, rest: &str) -> (r: String)
    ensures
        r@ == below(base@, rest@),
{
    let b = chars_of(base);
    let t = chars_of(rest);
    let mut out: Vec<char> = Vec::new();
    if t.len() > 0 && t[0] == '/' {
        push_all(&mut out, t.as_slice());
        assert(out@ =~= rest@);
    } else {
        push_all(&mut out, b.as_slice());
        if b.len() > 0 && b[b.len() - 1] != '/' {
            out.push('/');
        }
        push_all(&mut out, t.as_slice());
        assert(out@ =~= below(base@, rest@));
    }
    string_of(out.as_slice())
}

/// A text, or nothing where there is none.
pub open spec fn or_empty(v: Option<&str>) -> Seq<char> {
    match v {
        Some(s) => s@,
        None => Seq::empty(),
    }
}

/// A directory of the XDG convention: what its variable says, else a directory below
/// the home directory.
pub open spec fn xdg(value: Option<&str>, home: Option<&str>, fallback: Seq<char>) -> Seq<char> {
    match value {
        Some(v) => v@,
        None => below(or_empty(home), fallback),
    }
}

/// A directory of the XDG convention, given its variable and the home directory.
pub fn xdg_dir(value: Option<&str>, home: Option<&str>, fallback: &str) -> (r: String)
    ensures
        r@ == xdg(value, home, fallback@),
{
    match value {
        Some(v) => {
            let c = chars_of(v);
            string_of(c.as_slice())
        },
        None => match home {
            Some(h) => join(h, fallback),
            None => {
                let r = join("", fallback);
                proof {
                    reveal_strlit("");
                    assert(""@ =~= Seq::empty());
                }
                r
            },
        },
    }
}

/// The application's directory below the XDG configuration home.
pub open spec fn config(value: Option<&str>, home: Option<&str>) -> Seq<char> {
    below(xdg(value, home, ".config"@), "minimal-tts"@)
}

/// The directory of the configuration, given `XDG_CONFIG_HOME` and the home directory.
pub fn config_dir(value: Option<&str>, home: Option<&str>) -> (r: String)
    ensures
        r@ == config(value, home),
{
    let base = xdg_dir(value, home, ".config");
    join(base.as_str(), "minimal-tts")
}

/// The file of pronunciation overrides.
pub fn lexicon_path(value: Option<&str>, home: Option<&str>) -> (r: String)
    ensures
        r@ == below(config(value, home), "lexicon.tsv"@),
{
    let dir = config_dir(value, home);
    join(dir.as_str(), "lexicon.tsv")
}

/// The file of the saved session.
pub fn config_path(value: Option<&str>, home: Option<&str>) -> (r: String)
    ensures
        r@ == below(config(value, home), "state.json"@),
{
    let dir = config_dir(value, home);
    join(dir.as_str(), "state.json")
}

/// The directory of the models: an explicit one, else that of the sources if it is
/// there, else the one beside the program, else one in the working directory.
pub fn models_dir(
    explicit: Option<&str>,
    sources: &str,
    sources_there: bool,
    program_dir: Option<&str>,
) -> (r: String)
    ensures
        r@ == (match explicit {
            Some(p) => p@,
            None => if sources_there {
                below(sources@, "models"@)
            } else {
                match program_dir {
                    Some(d) => below(d@, "models"@),
                    None => "models"@,
                }
            },
        }),
{
    match explicit {
        Some(p) => {
            let c = chars_of(p);
            string_of(c.as_slice())
        },
        None => if sources_there {
            join(sources, "models")
        } else {
            match program_dir {
                Some(d) => join(d, "models"),
                None => {
                    let c = chars_of("models");
                    string_of(c.as_slice())
                },
            }
        },
    }
}

/// The model in a directory: the bundled one, else one by the older name.
pub open spec fn model(dir: Seq<char>, bundled: bool, older: bool) -> Option<Seq<char>> {
    if bundled {
        Some(below(dir, "kokoro.onnx"@))
    } else if older {
        Some(below(dir, "kokoro-ts.onnx"@))
    } else {
        None
    }
}

/// The model in a directory, given which of the two files are there.
pub fn resolve_model(dir: &str, bundled: bool, older: bool) -> (r: Option<String>)
    ensures
        match r {
            Some(p) => model(dir@, bundled, older) == Some(p@),
            None => model(dir@, bundled, older) is None,
        },
{
    if bundled {
        Some(join(dir, "kokoro.onnx"))
    } else if older {
        Some(join(dir, "kokoro-ts.onnx"))
    } else {
        None
    }
}

/// Where a bundled file may lie: beside the program, in an application image, in the
/// working directory, or among the sources.
pub open spec fn places(
    file: Seq<char>,
    program_dir: Option<&str>,
    image: Option<&str>,
    sources: Seq<char>,
) -> Seq<Seq<char>> {
    (match program_dir {
        Some(d) => seq![below(below(d@, "vendor"@), file)],
        None => Seq::empty(),
    }) + (match image {
        Some(d) => seq![
            below(below(d@, "usr/bin/vendor"@), file),
            below(below(d@, "usr/lib"@), file),
            below(below(d@, "usr/share"@), file),
        ],
        None => Seq::empty(),
    }) + seq![below("vendor"@, file), below(below(sources, "vendor"@), file)]
}

fn join3(a: &str, b: &str, c: &str) -> (r: String)
    ensures
        r@ == below(below(a@, b@), c@),
{
    let ab = join(a, b);
    join(ab.as_str(), c)
}

/// Where a bundled file may lie, most likely place first.
pub fn candidates(
    file: &str,
    program_dir: Option<&str>,
    image: Option<&str>,
    sources: &str,
) -> (r: Vec<String>)
    ensures
        texts(r@) == places(file@, program_dir, image, sources@),
{
    let mut r: Vec<String> = Vec::new();
    if let Some(d) = program_dir {
        r.push(join3(d, "vendor", file));
    }
    if let Some(d) = image {
        r.push(join3(d, "usr/bin/vendor", file));
        r.push(join3(d, "usr/lib", file));
        r.push(join3(d, "usr/share", file));
    }
    r.push(join("vendor", file));
    r.push(join3(sources, "vendor", file));
    assert(texts(r@) =~= places(file@, program_dir, image, sources@));
    r
}

fn push_texts(r: &mut Vec<String>, more: Vec<String>)
    ensures
        texts(final(r)@) == texts(old(r)@) + texts(more@),
{
    let mut more = more;
    let ghost a = r@;
    let ghost b = more@;
    r.append(&mut more);
    assert(texts(r@) =~= texts(a) + texts(b));
}

/// Where the phonemizer's library may lie, by either of its names, bundled or
/// installed.
pub fn phonemizer_libraries(
    program_dir: Option<&str>,
    image: Option<&str>,
    sources: &str,
) -> (r: Vec<String>)
    ensures
        texts(r@) == places("libespeak-ng.so"@, program_dir, image, sources@) + places(
            "libespeak-ng.so.1"@,
            program_dir,
            image,
            sources@,
        ) + seq![
            "/usr/lib64/libespeak-ng.so.1"@,
            "/usr/lib/x86_64-linux-gnu/libespeak-ng.so.1"@,
        ],
{
    let mut r = candidates("libespeak-ng.so", program_dir, image, sources);
    let second = candidates("libespeak-ng.so.1", program_dir, image, sources);
    push_texts(&mut r, second);
    let mut system: Vec<String> = Vec::new();
    let lib64 = chars_of("/usr/lib64/libespeak-ng.so.1");
    let multiarch = chars_of("/usr/lib/x86_64-linux-gnu/libespeak-ng.so.1");
    system.push(string_of(lib64.as_slice()));
    system.push(string_of(multiarch.as_slice()));
    assert(texts(system@) =~= seq![
        "/usr/lib64/libespeak-ng.so.1"@,
        "/usr/lib/x86_64-linux-gnu/libespeak-ng.so.1"@,
    ]);
    push_texts(&mut r, system);
    r
}

/// Where the phonemizer's data may lie, bundled or installed.
pub fn phonemizer_data(program_dir: Option<&str>, image: Option<&str>, sources: &str) -> (r: Vec<
    String,
>)
    ensures
        texts(r@) == places("espeak-ng-data"@, program_dir, image, sources@) + seq![
            "/usr/share/espeak-ng-data"@,
        ],
{
    let mut r = candidates("espeak-ng-data", program_dir, image, sources);
    let mut system: Vec<String> = Vec::new();
    let shared = chars_of("/usr/share/espeak-ng-data");
    system.push(string_of(shared.as_slice()));
    assert(texts(system@) =~= seq!["/usr/share/espeak-ng-data"@]);
    push_texts(&mut r, system);
    r
}

/// The first of some paths that is there.
pub open spec fn first_there(paths: Seq<Seq<char>>, there: Seq<bool>, i: int) -> Option<Seq<char>>
    decreases paths.len() - i,
{
    if i < 0 || i >= paths.len() || i >= there.len() {
        None
    } else if there[i] {
        Some(paths[i])
    } else {
        first_there(paths, there, i + 1)
    }
}

/// The path to use: an explicit one as it is, else the first of some that is there.
pub fn pick_path(explicit: Option<&str>, paths: &Vec<String>, there: &Vec<bool>) -> (r: Option<
    String,
>)
    ensures
        match r {
            Some(p) => Some(p@) == (match explicit {
                Some(e) => Some(e@),
                None => first_there(texts(paths@), there@, 0),
            }),
            None => explicit is None && first_there(texts(paths@), there@, 0) is None,
        },
{
    if let Some(e) = explicit {
        let c = chars_of(e);
        return Some(string_of(c.as_slice()));
    }
    let ghost all = texts(paths@);
    let mut i: usize = 0;
    assert(all.len() == paths.len());
    while i < paths.len() && i < there.len()
        invariant
            i <= paths.len(),
            i <= there.len(),
            all == texts(paths@),
            all.len() == paths.len(),
            explicit is None,
            first_there(all, there@, 0) == first_there(all, there@, i as int),
        decreases paths.len() - i,
    {
        if there[i] {
            assert(all[i as int] == paths@[i as int]@);
            return Some(paths[i].clone());
        }
        i += 1;
    }
    None
}

/// The longest path to its data that the phonemizer takes.
pub const MAX_DATA_PATH: usize = 150;

/// Is a path short enough for the phonemizer's fixed buffer?
pub fn data_path_fits(path: &str) -> (b: bool)
    ensures
        b == (encode_utf8(path@).len() <= 150),
{
    let bytes = path.as_bytes();
    bytes.len() <= MAX_DATA_PATH
}

/// A text without the quotes at its ends.
pub open spec fn unquoted(s: Seq<char>) -> Seq<char>
    decreases s.len(),
{
    if s.len() > 0 && s[0] == '"' {
        unquoted(s.drop_first())
    } else if s.len() > 0 && s.last() == '"' {
        unquoted(s.drop_last())
    } else {
        s
    }
}

fn unquote(s: &[char]) -> (r: Vec<char>)
    ensures
        r@ == unquoted(s@),
{
    let mut a: usize = 0;
    let mut b: usize = s.len();
    assert(s@.subrange(0, s.len() as int) =~= s@);
    while a < b && s[a] == '"'
        invariant
            a <= b <= s.len(),
            unquoted(s@.subrange(a as int, b as int)) == unquoted(s@),
        decreases b - a,
    {
        assert(s@.subrange(a as int, b as int).drop_first() =~= s@.subrange(a + 1, b as int));
        a += 1;
    }
    while a < b && s[b - 1] == '"'
        invariant
            a <= b <= s.len(),
            a < b ==> s@[a as int] != '"',
            unquoted(s@.subrange(a as int, b as int)) == unquoted(s@),
        decreases b - a,
    {
        assert(s@.subrange(a as int, b as int).drop_last() =~= s@.subrange(a as int, b - 1));
        b -= 1;
    }
    slice_of(s, a, b)
}

/// The setting that names the directory of downloads.
pub open spec fn download_setting() -> Seq<char> {
    "XDG_DOWNLOAD_DIR="@
}

/// The directory that the first line with that setting names, the home directory put
/// in place of its variable.
pub open spec fn set_downloads(l: Seq<Seq<char>>, home: Seq<char>, i: int) -> Option<Seq<char>>
    decreases l.len() - i,
{
    let key = download_setting();
    if i < 0 || i >= l.len() {
        None
    } else if l[i].len() >= key.len() && l[i].take(key.len() as int) == key {
        Some(replaced(unquoted(l[i].skip(key.len() as int)), "$HOME"@, home))
    } else {
        set_downloads(l, home, i + 1)
    }
}

/// The directory for downloads, given the home directory and the file of the user's
/// directories if there is one.
pub fn downloads_dir(home: &str, user_dirs: Option<&str>) -> (r: String)
    ensures
        r@ == (match user_dirs {
            Some(t) => match set_downloads(lines(t@), home@, 0) {
                Some(p) => p,
                None => below(home@, "Downloads"@),
            },
            None => below(home@, "Downloads"@),
        }),
{
    if let Some(t) = user_dirs {
        let chars = chars_of(t);
        let all = lines_of(chars.as_slice());
        let ghost l = lists(all@);
        let key = chars_of("XDG_DOWNLOAD_DIR=");
        let variable = chars_of("$HOME");
        let h = chars_of(home);
        proof {
            reveal_strlit("$HOME");
        }
        let mut i: usize = 0;
        assert(l.len() == all.len());
        while i < all.len()
            invariant
                i <= all.len(),
                l == lists(all@),
                l.len() == all.len(),
                l == lines(t@),
                user_dirs == Some(t),
                key@ == download_setting(),
                variable@ == "$HOME"@,
                variable@.len() > 0,
                h@ == home@,
                set_downloads(l, home@, 0) == set_downloads(l, home@, i as int),
            decreases all.len() - i,
        {
            assert(l[i as int] == all@[i as int]@);
            let line = &all[i];
            if line.len() >= key.len() {
                let head = slice_of(line.as_slice(), 0, key.len());
                assert(head@ =~= line@.take(key.len() as int));
                if same(head.as_slice(), key.as_slice()) {
                    let rest = slice_of(line.as_slice(), key.len(), line.len());
                    assert(rest@ =~= line@.skip(key.len() as int));
                    let bare = unquote(rest.as_slice());
                    let path = replace(bare.as_slice(), variable.as_slice(), h.as_slice());
                    return string_of(path.as_slice());
                }
            }
            i += 1;
        }
    }
    join(home, "Downloads")
}

/// The file of an export made at a time.
pub fn export_path(downloads: &str, stamp: &str) -> (r: String)
    ensures
        r@ == below(downloads@, "tts-"@ + stamp@ + ".wav"@),
{
    let mut name = chars_of("tts-");
    let t = chars_of(stamp);
    let ext = chars_of(".wav");
    push_all(&mut name, t.as_slice());
    push_all(&mut name, ext.as_slice());
    let file = string_of(name.as_slice());
    join(downloads, file.as_str())
}

/// A path below another: the two with a slash between them; no second slash is put where
/// one stands, none in front of a path below nothing, and an absolute path stands alone.
pub proof fn lemma_path_below(base: Seq<char>, rest: Seq<char>)
    ensures
        rest.len() > 0 && rest[0] == '/' ==> below(base, rest) == rest,
        rest.len() == 0 || rest[0] != '/' ==> {
            &&& base.len() == 0 ==> below(base, rest) == rest
            &&& base.len() > 0 && base.last() == '/' ==> below(base, rest) == base + rest
            &&& base.len() > 0 && base.last() != '/' ==> below(base, rest) == base + seq!['/']
                + rest
        },
{
    assert(base.len() == 0 ==> base + rest =~= rest);
    assert(base.push('/') + rest =~= base + seq!['/'] + rest);
}

/// The configuration lies in `minimal-tts`, below what the variable says or below
/// `.config` of the home directory.
pub proof fn lemma_where_configuration_is(dir: &str)
    requires
        dir@.len() > 0,
        dir@.last() != '/',
    ensures
        config(Some(dir), None) == dir@ + "/minimal-tts"@,
        config(None, Some(dir)) == dir@ + "/.config/minimal-tts"@,
{
    reveal_strlit(".config");
    reveal_strlit("minimal-tts");
    reveal_strlit("/minimal-tts");
    reveal_strlit("/.config/minimal-tts");
    let conf = below(dir@, ".config"@);
    assert(conf.last() == 'g');
    assert(config(Some(dir), None) =~= dir@ + "/minimal-tts"@);
    assert(config(None, Some(dir)) =~= dir@ + "/.config/minimal-tts"@);
}

/// What the variable says counts before the home directory.
pub proof fn lemma_variable_comes_first(dir: &str, home: Option<&str>, fallback: Seq<char>)
    ensures
        xdg(Some(dir), home, fallback) == dir@,
        xdg(None, None, fallback) == fallback,
        xdg(None, Some(dir), fallback) == below(dir@, fallback),
{
    assert(Seq::<char>::empty() + fallback =~= fallback);
}

/// The model is the bundled file if it is there, else the one by the older name.
pub proof fn lemma_which_model(dir: Seq<char>, older: bool)
    ensures
        model(dir, true, older) == Some(below(dir, "kokoro.onnx"@)),
        model(dir, false, true) == Some(below(dir, "kokoro-ts.onnx"@)),
        model(dir, false, false) is None,
{
}

/// A bundled file is looked for beside the program, then in the application image, then in
/// the working directory, and last among the sources.
pub proof fn lemma_where_files_are(file: Seq<char>, program: &str, image: &str, sources: Seq<char>)
    ensures
        ({
            let near = below(below(program@, "vendor"@), file);
            let bin = below(below(image@, "usr/bin/vendor"@), file);
            let lib = below(below(image@, "usr/lib"@), file);
            let share = below(below(image@, "usr/share"@), file);
            let here = below("vendor"@, file);
            let there = below(below(sources, "vendor"@), file);
            &&& places(file, Some(program), Some(image), sources) == seq![
                near,
                bin,
                lib,
                share,
                here,
                there,
            ]
            &&& places(file, None, Some(image), sources) == seq![bin, lib, share, here, there]
            &&& places(file, Some(program), None, sources) == seq![near, here, there]
            &&& places(file, None, None, sources) == seq![here, there]
        }),
{
}

/// Of the paths to look at, the first that is there is used, and none if none is there.
pub proof fn lemma_first_there_is_used(paths: Seq<Seq<char>>, there: Seq<bool>, i: int, k: int)
    requires
        paths.len() == there.len(),
        0 <= i <= k <= paths.len(),
        forall|j: int| i <= j < k ==> !#[trigger] there[j],
        k < paths.len() ==> there[k],
    ensures
        k < paths.len() ==> first_there(paths, there, i) == Some(paths[k]),
        k == paths.len() ==> first_there(paths, there, i) is None,
    decreases k - i,
{
    if i < k {
        lemma_first_there_is_used(paths, there, i + 1, k);
    }
}

/// Quotes at the ends are taken off, however many, and nothing else.
pub proof fn lemma_quotes_come_off(front: Seq<char>, s: Seq<char>, back: Seq<char>)
    requires
        forall|k: int| 0 <= k < front.len() ==> #[trigger] front[k] == '"',
        forall|k: int| 0 <= k < back.len() ==> #[trigger] back[k] == '"',
        s.len() > 0 ==> s[0] != '"' && s.last() != '"',
    ensures
        unquoted(front + s + back) == s,
    decreases front.len() + back.len(),
{
    let t = front + s + back;
    if front.len() > 0 {
        assert(t[0] == front[0]);
        assert(t.drop_first() =~= front.drop_first() + s + back);
        lemma_quotes_come_off(front.drop_first(), s, back);
    } else if back.len() > 0 {
        assert(t.last() == back.last());
        if s.len() > 0 {
            assert(t[0] == s[0]);
            assert(t.drop_last() =~= front + s + back.drop_last());
            lemma_quotes_come_off(front, s, back.drop_last());
        } else {
            assert(t[0] == back[0]);
            assert(t.drop_first() =~= front + s + back.drop_first());
            lemma_quotes_come_off(front, s, back.drop_first());
        }
    } else {
        assert(t =~= s);
    }
}

/// A line sets the directory of downloads if it begins with the setting's name.
spec fn sets_downloads(line: Seq<char>) -> bool {
    line.len() >= 17 && line.take(17) == "XDG_DOWNLOAD_DIR="@
}

proof fn lemma_setting_is_found(l: Seq<Seq<char>>, home: Seq<char>, i: int, k: int)
    requires
        0 <= i <= k <= l.len(),
        forall|j: int| i <= j < k ==> !sets_downloads(#[trigger] l[j]),
        k < l.len() ==> sets_downloads(l[k]),
    ensures
        k < l.len() ==> set_downloads(l, home, i) == Some(
            replaced(unquoted(l[k].skip(17)), "$HOME"@, home),
        ),
        k == l.len() ==> set_downloads(l, home, i) is None,
    decreases k - i,
{
    reveal_strlit("XDG_DOWNLOAD_DIR=");
    if i < k {
        lemma_setting_is_found(l, home, i + 1, k);
        assert(!sets_downloads(l[i]));
    }
}

/// The first line that sets the directory of downloads says where it is, quotes at its ends
/// aside; `$HOME` in front stands for the home directory. Without such a line nothing is
/// set.
pub proof fn lemma_downloads_are_set(
    before: Seq<Seq<char>>,
    path: Seq<char>,
    after: Seq<Seq<char>>,
    home: Seq<char>,
)
    requires
        forall|j: int|
            0 <= j < before.len() ==> (#[trigger] before[j]).len() < 17 || before[j].take(17)
                != "XDG_DOWNLOAD_DIR="@,
        forall|k: int| 0 <= k < path.len() ==> #[trigger] path[k] != '$' && path[k] != '"',
    ensures
        set_downloads(before, home, 0) is None,
        set_downloads(
            before + seq!["XDG_DOWNLOAD_DIR="@ + seq!['"'] + "$HOME"@ + path + seq!['"']] + after,
            home,
            0,
        ) == Some(home + path),
        set_downloads(
            before + seq!["XDG_DOWNLOAD_DIR="@ + seq!['"'] + path + seq!['"']] + after,
            home,
            0,
        ) == Some(path),
{
    reveal_strlit("XDG_DOWNLOAD_DIR=");
    reveal_strlit("$HOME");
    let key = "XDG_DOWNLOAD_DIR="@;
    let n = before.len() as int;
    lemma_setting_is_found(before, home, 0, n);
    let a = key + seq!['"'] + "$HOME"@ + path + seq!['"'];
    let b = key + seq!['"'] + path + seq!['"'];
    let la = before + seq![a] + after;
    let lb = before + seq![b] + after;
    assert(la[n] == a && lb[n] == b);
    assert(forall|j: int| 0 <= j < n ==> #[trigger] la[j] == before[j]);
    assert(forall|j: int| 0 <= j < n ==> #[trigger] lb[j] == before[j]);
    assert(a.take(17) =~= key);
    assert(b.take(17) =~= key);
    lemma_setting_is_found(la, home, 0, n);
    lemma_setting_is_found(lb, home, 0, n);
    assert(a.skip(17) =~= seq!['"'] + ("$HOME"@ + path) + seq!['"']);
    assert(b.skip(17) =~= seq!['"'] + path + seq!['"']);
    lemma_quotes_come_off(seq!['"'], "$HOME"@ + path, seq!['"']);
    lemma_quotes_come_off(seq!['"'], path, seq!['"']);
    assert forall|k: int| 0 <= k < path.len() implies !crate::text::occurs_at(
        path,
        "$HOME"@,
        k,
    ) by {
        if crate::text::occurs_at(path, "$HOME"@, k) {
            assert(path.subrange(k, k + 5)[0] == "$HOME"@[0]);
        }
    }
    crate::text::lemma_replaced_none(path, "$HOME"@, home);
    let whole = "$HOME"@ + path;
    assert(whole.subrange(0, 5) =~= "$HOME"@);
    assert(whole.skip(5) =~= path);
    assert(crate::text::occurs_at(whole, "$HOME"@, 0));
}

} // verus!
