use vstd::prelude::*;
use vstd::string::StrSliceExecFns;

use crate::config::{Appattr, Info, name_index};
use crate::text::{chars_of, find_first, find_last};

verus! {

/// Where a desktop entry is found: the header `[Desktop Entry]`, then two lines that start
/// with `Exec=` or `Name=`; the groups `exec` and `name` hold their values.
pub const DESKTOP_ENTRY: &'static str = r"\[Desktop Entry\][\S\s]*?(?:(?:\r|\n|\r\n)(?:(?:Exec\s?=\s?(?P<exec>.*[\S]))|(?:Name\s?=\s?(?P<name>.*[\S])))[\S\s]*?){2}";

/// A field code of an `Exec` line, such as `%F`; the group `code` holds its letter.
pub const FIELD_CODE: &'static str = r"%(?<code>[fFuUick])";

/// Name for what the regex crate finds: `None` where `pattern` does not compile or finds no
/// match in `text`; otherwise, for each of `names` in turn, the text that the capture group
/// of that name took in the first match, or `None` where the group took no part in it.
pub uninterp spec fn regex_named_captures(
    pattern: Seq<char>,
    text: Seq<char>,
    names: Seq<Seq<char>>,
) -> Option<Seq<Option<Seq<char>>>>;

/// Calls `regex::Regex::new` on `pattern`, `Regex::captures` on `text` and `Captures::name`
/// for each of `names`. The contract claims that the outcome is a function of the three
/// texts alone (the name `regex_named_captures`) and that one entry comes back per name.
#[verifier::external_body]
fn named_captures(pattern: &str, text: &str, names: &Vec<String>) -> (r: Option<Vec<Option<String>>>)
    ensures
        r.deep_view() == regex_named_captures(pattern@, text@, names.deep_view()),
        r matches Some(v) ==> v@.len() == names@.len(),
{
    let caps = regex::Regex::new(pattern).ok()?.captures(text)?;
    Some(names.iter().map(|n| caps.name(n).map(|m| m.as_str().to_string())).collect())
}

pub open spec fn exec_group() -> Seq<char> {
    seq!['e', 'x', 'e', 'c']
}

pub open spec fn name_group() -> Seq<char> {
    seq!['n', 'a', 'm', 'e']
}

pub open spec fn code_group() -> Seq<char> {
    seq!['c', 'o', 'd', 'e']
}

/// What the desktop-entry pattern finds in `content`: the `exec` and the `name` group.
pub open spec fn entry_fields(content: Seq<char>) -> Option<Seq<Option<Seq<char>>>> {
    regex_named_captures(DESKTOP_ENTRY@, content, seq![exec_group(), name_group()])
}

/// What the field-code pattern finds in the command `cmd`: the `code` group.
pub open spec fn code_fields(cmd: Seq<char>) -> Option<Seq<Option<Seq<char>>>> {
    regex_named_captures(FIELD_CODE@, cmd, seq![code_group()])
}

/// Every group that the extraction reads took part in the match where there is one.
pub open spec fn fields_complete(content: Seq<char>) -> bool {
    match entry_fields(content) {
        None => true,
        Some(v) => {
            &&& v[0] is Some
            &&& v[1] is Some
            &&& match code_fields(v[0]->0) {
                None => true,
                Some(c) => c[0] is Some,
            }
        },
    }
}

/// The program of a command: the text before its first space, all of it where there is none.
pub open spec fn program_of(cmd: Seq<char>) -> Seq<char> {
    match cmd.index_of_first(' ') {
        Some(i) => cmd.take(i),
        None => cmd,
    }
}

/// The arguments of a command: the text after its first space, empty where there is none.
pub open spec fn args_of(cmd: Seq<char>) -> Seq<char> {
    match cmd.index_of_first(' ') {
        Some(i) => cmd.skip(i + 1),
        None => Seq::empty(),
    }
}

pub open spec fn default_dir() -> Seq<char> {
    seq!['/', 'u', 's', 'r', '/', 'l', 'o', 'c', 'a', 'l', '/', 'b', 'i', 'n']
}

/// The directory of a program: the text before its last `/`, `/usr/local/bin` where there
/// is none.
pub open spec fn dir_of(program: Seq<char>) -> Seq<char> {
    match program.index_of_last('/') {
        Some(i) => program.take(i),
        None => default_dir(),
    }
}

/// What a field code says the arguments are.
pub open spec fn hint_for(code: Seq<char>) -> Seq<char> {
    if code == seq!['f'] {
        seq!['f', 'i', 'l', 'e']
    } else if code == seq!['F'] {
        seq!['f', 'i', 'l', 'e', 's']
    } else if code == seq!['u'] {
        seq!['u', 'r', 'l']
    } else if code == seq!['U'] {
        seq!['u', 'r', 'l', 's']
    } else {
        seq!['t', 'o', 'd', 'o']
    }
}

/// `app` is what a desktop entry with the command `cmd` describes: the program, its
/// directory, its arguments and the hint of its first field code, launched no times yet.
pub open spec fn describes(app: Appattr, cmd: Seq<char>) -> bool {
    &&& app.executable@ == program_of(cmd)
    &&& app.dir@ == dir_of(program_of(cmd))
    &&& app.freq == 0
    &&& app.args@ == args_of(cmd)
    &&& match code_fields(cmd) {
        None => app.arg_hint is None,
        Some(c) => app.arg_hint matches Some(h) && h@ == hint_for(c[0]->0),
    }
}

/// What a described application holds, in terms of the command alone: the program is the
/// command's first space-separated word, the arguments are the rest after that space, and the
/// directory is the program's text before its last `/` (`/usr/local/bin` where it has none).
pub proof fn lemma_described_fields(app: Appattr, cmd: Seq<char>)
    requires
        describes(app, cmd),
    ensures
        app.executable@.is_prefix_of(cmd),
        !app.executable@.contains(' '),
        app.executable@.len() < cmd.len() ==> cmd[app.executable@.len() as int] == ' '
            && app.args@ == cmd.skip(app.executable@.len() as int + 1),
        app.executable@.len() == cmd.len() ==> app.args@.len() == 0,
        app.executable@.contains('/') ==> {
            &&& app.dir@.len() < app.executable@.len()
            &&& app.dir@.is_prefix_of(app.executable@)
            &&& app.executable@[app.dir@.len() as int] == '/'
            &&& !app.executable@.skip(app.dir@.len() as int + 1).contains('/')
        },
        !app.executable@.contains('/') ==> app.dir@ == seq!['/', 'u', 's', 'r', '/', 'l', 'o', 'c', 'a', 'l', '/', 'b', 'i', 'n'],
        app.freq == 0,
{
    let e = app.executable@;
    cmd.index_of_first_ensures(' ');
    match cmd.index_of_first(' ') {
        Some(i) => {
            assert(e =~= cmd.take(i));
            assert(e.is_prefix_of(cmd)) by {
                assert(e =~= cmd.subrange(0, e.len() as int));
            }
            if e.contains(' ') {
                let k = choose|k: int| 0 <= k < e.len() && e[k] == ' ';
                assert(cmd[k] == ' ');
            }
        },
        None => {
            assert(e =~= cmd);
            assert(e.is_prefix_of(cmd)) by {
                assert(e =~= cmd.subrange(0, e.len() as int));
            }
        },
    }
    e.index_of_last_ensures('/');
    match e.index_of_last('/') {
        Some(i) => {
            let d = app.dir@;
            assert(d =~= e.take(i));
            assert(d.is_prefix_of(e)) by {
                assert(d =~= e.subrange(0, d.len() as int));
            }
            let rest = e.skip(i + 1);
            if rest.contains('/') {
                let k = choose|k: int| 0 <= k < rest.len() && #[trigger] rest[k] == '/';
                assert(e[i + 1 + k] == '/');
            }
        },
        None => {},
    }
}

/// The directory depends only on the program: two described applications with the same
/// program have the same directory, whatever their arguments.
pub proof fn lemma_dir_depends_on_program(a1: Appattr, c1: Seq<char>, a2: Appattr, c2: Seq<char>)
    requires
        describes(a1, c1),
        describes(a2, c2),
        a1.executable@ == a2.executable@,
    ensures
        a1.dir@ == a2.dir@,
{
    lemma_described_fields(a1, c1);
    lemma_described_fields(a2, c2);
    let e = a1.executable@;
    if e.contains('/') {
        let d1 = a1.dir@;
        let d2 = a2.dir@;
        if d1.len() < d2.len() {
            assert(e.skip(d1.len() as int + 1)[d2.len() - d1.len() - 1] == e[d2.len() as int]);
        } else if d2.len() < d1.len() {
            assert(e.skip(d2.len() as int + 1)[d1.len() - d2.len() - 1] == e[d1.len() as int]);
        }
        assert(d1 =~= e.subrange(0, d1.len() as int));
        assert(d2 =~= e.subrange(0, d2.len() as int));
    }
}

/// The groups that the desktop-entry pattern is asked for.
fn entry_group_names() -> (r: Vec<String>)
    ensures
        r.deep_view() == seq![exec_group(), name_group()],
        r@.len() == 2,
{
    let mut names: Vec<String> = Vec::new();
    names.push("exec".to_owned());
    names.push("name".to_owned());
    proof {
        reveal_strlit("exec");
        reveal_strlit("name");
        assert(names@[0]@ =~= exec_group());
        assert(names@[1]@ =~= name_group());
        assert(names.deep_view() =~= seq![exec_group(), name_group()]);
    }
    names
}

/// The group that the field-code pattern is asked for.
fn code_group_names() -> (r: Vec<String>)
    ensures
        r.deep_view() == seq![code_group()],
        r@.len() == 1,
{
    let mut names: Vec<String> = Vec::new();
    names.push("code".to_owned());
    proof {
        reveal_strlit("code");
        assert(names@[0]@ =~= code_group());
        assert(names.deep_view() =~= seq![code_group()]);
    }
    names
}

/// The program and the arguments of the command `cmd`.
pub fn split_command(cmd: &str) -> (r: (String, String))
    ensures
        r.0@ == program_of(cmd@),
        r.1@ == args_of(cmd@),
{
    let chars = chars_of(cmd);
    let n = chars.len();
    proof {
        chars@.index_of_first_ensures(' ');
    }
    match find_first(&chars, ' ') {
        Some(i) => (cmd.substring_char(0, i).to_owned(), cmd.substring_char(i + 1, n).to_owned()),
        None => {
            proof {
                reveal_strlit("");
            }
            (cmd.to_owned(), "".to_owned())
        },
    }
}

/// The directory of the program `program`.
pub fn dir_of_program(program: &str) -> (r: String)
    ensures
        r@ == dir_of(program@),
{
    let chars = chars_of(program);
    proof {
        chars@.index_of_last_ensures('/');
    }
    match find_last(&chars, '/') {
        Some(i) => {
            let d = program.substring_char(0, i).to_owned();
            proof {
                assert(chars@.len() == chars.len());
                assert(d@ =~= program@.take(i as int));
            }
            d
        },
        None => {
            let d = "/usr/local/bin".to_owned();
            proof {
                reveal_strlit("/usr/local/bin");
                assert(d@ =~= default_dir());
            }
            d
        },
    }
}

/// The hint for the field code `code`.
pub fn arg_hint(code: &str) -> (r: String)
    ensures
        r@ == hint_for(code@),
{
    let c = code.to_owned();
    let f = "f".to_owned();
    let ff = "F".to_owned();
    let u = "u".to_owned();
    let uu = "U".to_owned();
    proof {
        reveal_strlit("f");
        reveal_strlit("F");
        reveal_strlit("u");
        reveal_strlit("U");
        reveal_strlit("file");
        reveal_strlit("files");
        reveal_strlit("url");
        reveal_strlit("urls");
        reveal_strlit("todo");
        assert(f@ =~= seq!['f']);
        assert(ff@ =~= seq!['F']);
        assert(u@ =~= seq!['u']);
        assert(uu@ =~= seq!['U']);
    }
    let r = if c == f {
        "file".to_owned()
    } else if c == ff {
        "files".to_owned()
    } else if c == u {
        "url".to_owned()
    } else if c == uu {
        "urls".to_owned()
    } else {
        "todo".to_owned()
    };
    proof {
        assert(r@ =~= hint_for(code@));
    }
    r
}

/// The application that the command `cmd` of a desktop entry describes.
pub fn app_from_command(cmd: &str) -> (r: Appattr)
    requires
        code_fields(cmd@) matches Some(c) ==> c[0] is Some,
    ensures
        describes(r, cmd@),
{
    let (program, args) = split_command(cmd);
    let dir = dir_of_program(program.as_str());
    let code_names = code_group_names();
    let hint = match named_captures(FIELD_CODE, cmd, &code_names) {
        Some(v) => {
            proof {
                assert(v.deep_view()[0] == v@[0].deep_view());
            }
            match &v[0] {
                Some(code) => Some(arg_hint(code.as_str())),
                None => None,
            }
        },
        None => None,
    };
    Appattr { dir, executable: program, freq: 0, args, arg_hint: hint }
}

/// The name and the application of the desktop entry in `content`, `None` where the file
/// holds none.
pub fn extract_app(content: &str) -> (r: Option<(String, Appattr)>)
    requires
        fields_complete(content@),
    ensures
        match entry_fields(content@) {
            None => r is None,
            Some(v) => r matches Some((name, app)) && name@ == v[1]->0 && describes(app, v[0]->0),
        },
{
    let names = entry_group_names();
    match named_captures(DESKTOP_ENTRY, content, &names) {
        Some(v) => {
            proof {
                assert(v.deep_view()[0] == v@[0].deep_view());
                assert(v.deep_view()[1] == v@[1].deep_view());
            }
            match (&v[0], &v[1]) {
                (Some(cmd), Some(name)) => {
                    let app = app_from_command(cmd.as_str());
                    Some((name.clone(), app))
                },
                _ => None,
            }
        },
        None => None,
    }
}

/// Reads one desktop file into `info`: where it holds a complete entry, the application is
/// stored under its name (replacing one of the same name) and `true` comes back; otherwise
/// nothing changes and `false` comes back.
pub fn update_entry(info: &mut Info, content: &str) -> (r: bool)
    requires
        old(info).names_unique(),
    ensures
        final(info).names_unique(),
        r == (fields_complete(content@) && entry_fields(content@) is Some),
        r ==> exists|name: String, app: Appattr|
            {
                &&& name@ == entry_fields(content@)->0[1]->0
                &&& describes(app, entry_fields(content@)->0[0]->0)
                &&& final(info)@ == old(info)@.insert(name@, app)
                &&& match name_index(old(info).apps@, name@) {
                    Some(i) => final(info).apps@ == old(info).apps@.update(i, (name, app)),
                    None => final(info).apps@ == old(info).apps@.push((name, app)),
                }
            },
        !r ==> *final(info) == *old(info),
{
    let names = entry_group_names();
    let complete = match named_captures(DESKTOP_ENTRY, content, &names) {
        Some(v) => {
            proof {
                assert(v.deep_view()[0] == v@[0].deep_view());
                assert(v.deep_view()[1] == v@[1].deep_view());
            }
            match (&v[0], &v[1]) {
                (Some(cmd), Some(_)) => {
                    let code_names = code_group_names();
                    match named_captures(FIELD_CODE, cmd.as_str(), &code_names) {
                        Some(c) => {
                            proof {
                                assert(c.deep_view()[0] == c@[0].deep_view());
                            }
                            c[0].is_some()
                        },
                        None => true,
                    }
                },
                _ => false,
            }
        },
        None => false,
    };
    if !complete {
        return false;
    }
    match extract_app(content) {
        Some((name, app)) => {
            info.upsert(name, app);
            true
        },
        None => false,
    }
}

} // verus!
