//! The arguments of the command-line tools as plain data, and the small
//! decisions made on them: `KEY=VALUE` params, the colour choice, relative
//! paths, and the options of a harness install.

use vstd::prelude::*;

use toml_edit::{Array, DocumentMut};

use crate::error::Error;
use crate::harness::declined::{get_value, toml_get};
use crate::harness::record::{parse_of, TomlValue};
use crate::harness::install::InstallOptions;
use crate::harness::tool::{scope_parsed, Scope};
use crate::json::copy_string;
use crate::text::{append_str, chars_of, str_eq, string_of};

verus! {

/// Arguments for `hello`.
#[derive(Debug)]
pub struct HelloArgs {
    /// Who to greet. Defaults to the world.
    pub name: Option<String>,
    /// Emit machine-readable JSON instead of human output.
    pub json: bool,
}

/// `init`.
#[derive(Debug)]
pub struct InitArgs {
    /// Create the user config instead.
    pub user: bool,
    /// Emit JSON.
    pub json: bool,
}

/// `new`.
#[derive(Debug)]
pub struct NewArgs {
    /// The state machine id.
    pub id: String,
    /// Where to write it (default: the project's `.smllm/`).
    pub dir: Option<String>,
    /// Write the file and register it in `config.toml`, instead of printing
    /// it.
    pub write: bool,
    /// Emit JSON.
    pub json: bool,
}

/// `validate`.
#[derive(Debug)]
pub struct ValidateArgs {
    /// Config (`.toml`) or state machine (`.yaml`) files; default the
    /// configs found.
    pub paths: Vec<String>,
    /// Emit JSON.
    pub json: bool,
    /// List warnings.
    pub warnings: bool,
    /// List info findings.
    pub info: bool,
}

/// `fire`.
#[derive(Debug)]
pub struct FireArgs {
    /// The session key; omitted only with `enter`, to start a session.
    pub session: Option<String>,
    /// The event.
    pub event: String,
    /// The params, each `KEY=VALUE`.
    pub params: Vec<String>,
    /// Emit JSON.
    pub json: bool,
}

/// Just `--json`.
#[derive(Debug)]
pub struct JsonArgs {
    /// Emit JSON.
    pub json: bool,
}

/// A key or id plus `--json`.
#[derive(Debug)]
pub struct KeyArgs {
    /// The session key, or instance id or ref.
    pub key: String,
    /// Emit JSON.
    pub json: bool,
}

/// `session …`.
#[derive(Debug)]
pub enum SessionCommand {
    /// List sessions, newest first.
    List(JsonArgs),
    /// Show where a session is.
    Show(KeyArgs),
}

/// `instance …`.
#[derive(Debug)]
pub enum InstanceCommand {
    /// List instances of the configured state machines.
    List(JsonArgs),
    /// Show an instance (by id or ref) with its history.
    Show(KeyArgs),
}

/// `harness install|status`.
#[derive(Debug)]
pub struct HarnessArgs {
    /// The harness.
    pub name: String,
    /// `project` or `user`.
    pub scope: String,
    /// Parts left out; repeatable.
    pub without: Vec<String>,
    /// Overwrite parts edited by hand.
    pub force: bool,
    /// Emit JSON.
    pub json: bool,
}

/// `harness hook`.
#[derive(Debug)]
pub struct HookArgs {
    /// The harness.
    pub name: String,
    /// `session-start`, `user-prompt-submit` or `stop`.
    pub hook: String,
}

/// `harness …`.
#[derive(Debug)]
pub enum HarnessCommand {
    /// Install or update a harness integration.
    Install(HarnessArgs),
    /// Show the state of each part of a harness integration.
    Status(HarnessArgs),
    /// Hook entry point, called by the harness.
    Hook(HookArgs),
}

/// `graph`.
#[derive(Debug)]
pub struct GraphArgs {
    /// A state machine id; default all.
    pub id: Option<String>,
    /// Emit JSON.
    pub json: bool,
    /// Emit a Mermaid state diagram.
    pub mermaid: bool,
}

/// `info …`.
#[derive(Debug)]
pub enum InfoCommand {
    /// The JSON Schema of the state machine format.
    Schema,
}

/// `compile`.
#[derive(Debug)]
pub struct CompileArgs {
    /// A `config.toml` or a state machine file.
    pub file: String,
    /// Write here instead of stdout.
    pub out: Option<String>,
}

/// `--color`.
#[derive(Debug, Clone, Copy, PartialEq, Eq, Structural)]
pub enum ColorChoice {
    /// Colour unless `NO_COLOR` says otherwise.
    Auto,
    /// Always colour.
    Always,
    /// Never colour.
    Never,
}

/// Whether to colour a row: the flag, else off when `NO_COLOR` is set and
/// not empty, else on.
pub open spec fn colours(flag: Option<ColorChoice>, no_color: Option<Seq<char>>) -> bool {
    match flag {
        Some(ColorChoice::Always) => true,
        Some(ColorChoice::Never) => false,
        _ => match no_color {
            None => true,
            Some(v) => v.len() == 0,
        },
    }
}

/// Whether to colour the row: `--color`, else off when `NO_COLOR` is set
/// and non-empty, else on (a status line never has a terminal to check).
pub fn use_color(flag: Option<ColorChoice>, no_color: Option<&str>) -> (r: bool)
    ensures
        r == colours(flag, crate::harness::region::opt_view(no_color)),
{
    match flag {
        Some(ColorChoice::Always) => true,
        Some(ColorChoice::Never) => false,
        _ => match no_color {
            None => true,
            Some(v) => v.is_empty(),
        },
    }
}

/// The index of the first `=` in `p`.
pub open spec fn eq_index(p: Seq<char>, from: int) -> Option<int>
    decreases p.len() - from,
{
    if from < 0 || from >= p.len() {
        None
    } else if p[from] == '=' {
        Some(from)
    } else {
        eq_index(p, from + 1)
    }
}

/// A param split at its first `=`, or `None` without one.
pub open spec fn param_of(p: Seq<char>) -> Option<(Seq<char>, Seq<char>)> {
    match eq_index(p, 0) {
        Some(i) => Some((p.take(i), p.skip(i + 1))),
        None => None,
    }
}

/// The index of the first param without an `=`.
pub open spec fn bad_param(ps: Seq<Seq<char>>, from: int) -> Option<int>
    decreases ps.len() - from,
{
    if from < 0 || from >= ps.len() {
        None
    } else if param_of(ps[from]) is None {
        Some(from)
    } else {
        bad_param(ps, from + 1)
    }
}

proof fn lemma_eq_index_bounds(p: Seq<char>, from: int)
    requires
        0 <= from,
    ensures
        eq_index(p, from) matches Some(i) ==> from <= i < p.len() && p[i] == '=',
        eq_index(p, from) is None ==> forall|j: int| from <= j < p.len() ==> p[j] != '=',
    decreases p.len() - from,
{
    if from < p.len() && p[from] != '=' {
        lemma_eq_index_bounds(p, from + 1);
    }
}

proof fn lemma_bad_param_bounds(ps: Seq<Seq<char>>, from: int)
    requires
        0 <= from,
    ensures
        bad_param(ps, from) matches Some(i) ==> from <= i < ps.len(),
    decreases ps.len() - from,
{
    if from < ps.len() && param_of(ps[from]) is Some {
        lemma_bad_param_bounds(ps, from + 1);
    }
}

/// The characters of each string.
pub open spec fn texts(v: Seq<String>) -> Seq<Seq<char>> {
    v.map_values(|s: String| s@)
}

/// `KEY=VALUE` params, each split at its first `=`; a param without one is
/// an error naming it.
pub fn params(raw: &Vec<String>) -> (r: Result<Vec<(String, String)>, String>)
    ensures
        match bad_param(texts(raw@), 0) {
            Some(i) => r matches Err(m) && m@ == "--param "@ + raw@[i]@ + ": expected KEY=VALUE"@,
            None => r matches Ok(v) && v@.len() == raw@.len() && forall|j: int| 0 <= j < raw@.len()
                ==> param_of(raw@[j]@) == Some((#[trigger] v@[j].0@, v@[j].1@)),
        },
{
    proof {
        lemma_bad_param_bounds(texts(raw@), 0);
    }
    let mut out: Vec<(String, String)> = Vec::new();
    let mut i: usize = 0;
    while i < raw.len()
        invariant
            i <= raw@.len(),
            out@.len() == i,
            bad_param(texts(raw@), 0) == bad_param(texts(raw@), i as int),
            forall|j: int| 0 <= j < i ==> param_of(raw@[j]@) == Some((#[trigger] out@[j].0@, out@[j].1@)),
        decreases raw@.len() - i,
    {
        let p = chars_of(raw[i].as_str());
        let mut k: usize = 0;
        while k < p.len() && p[k] != '='
            invariant
                k <= p@.len(),
                forall|j: int| 0 <= j < k ==> p@[j] != '=',
            decreases p@.len() - k,
        {
            k = k + 1;
        }
        proof {
            lemma_eq_index_bounds(p@, 0);
            lemma_eq_index_found(p@, 0, k as int);
        }
        assert(texts(raw@)[i as int] == raw@[i as int]@);
        if k == p.len() {
            let mut m = chars_of("--param ");
            append_str(&mut m, raw[i].as_str());
            append_str(&mut m, ": expected KEY=VALUE");
            proof {
                reveal_strlit("--param ");
                reveal_strlit(": expected KEY=VALUE");
            }
            return Err(string_of(&m));
        }
        let mut key: Vec<char> = Vec::new();
        let mut j: usize = 0;
        while j < k
            invariant
                j <= k,
                k < p@.len(),
                key@ == p@.take(j as int),
            decreases k - j,
        {
            key.push(p[j]);
            j = j + 1;
            assert(key@ =~= p@.take(j as int));
        }
        let mut value: Vec<char> = Vec::new();
        let mut j: usize = k + 1;
        while j < p.len()
            invariant
                k + 1 <= j <= p@.len(),
                value@ == p@.subrange(k + 1, j as int),
            decreases p@.len() - j,
        {
            value.push(p[j]);
            j = j + 1;
            assert(value@ =~= p@.subrange(k + 1, j as int));
        }
        assert(value@ =~= p@.skip(k + 1));
        out.push((string_of(&key), string_of(&value)));
        i = i + 1;
    }
    Ok(out)
}

proof fn lemma_eq_index_found(p: Seq<char>, from: int, k: int)
    requires
        0 <= from <= k <= p.len(),
        forall|j: int| from <= j < k ==> p[j] != '=',
        k < p.len() ==> p[k] == '=',
    ensures
        eq_index(p, from) == if k < p.len() {
            Some(k)
        } else {
            None::<int>
        },
    decreases k - from,
{
    if from < k {
        lemma_eq_index_found(p, from + 1, k);
    }
}

/// The named components of `p` between slashes, `cur` being the one read
/// so far: empty fields and `.` are dropped.
pub open spec fn names_from(p: Seq<char>, cur: Seq<char>) -> Seq<Seq<char>>
    decreases p.len(),
{
    let done: Seq<Seq<char>> = if cur.len() > 0 && cur != "."@ {
        seq![cur]
    } else {
        Seq::empty()
    };
    if p.len() == 0 {
        done
    } else if p[0] == '/' {
        done + names_from(p.skip(1), Seq::empty())
    } else {
        names_from(p.skip(1), cur.push(p[0]))
    }
}

/// The components of a `/`-separated path: `/` for a leading slash, then
/// its named components.
pub open spec fn components(p: Seq<char>) -> Seq<Seq<char>> {
    let root: Seq<Seq<char>> = if p.len() > 0 && p[0] == '/' {
        seq!["/"@]
    } else {
        Seq::empty()
    };
    root + names_from(p, Seq::empty())
}

/// The number of leading components two lists share, from `from` on.
pub open spec fn common_len(a: Seq<Seq<char>>, b: Seq<Seq<char>>, from: int) -> int
    decreases a.len() - from,
{
    if from < 0 || from >= a.len() || from >= b.len() || a[from] != b[from] {
        from
    } else {
        common_len(a, b, from + 1)
    }
}

/// Components joined into a path with `/`, the root component standing
/// alone.
pub open spec fn joined(cs: Seq<Seq<char>>) -> Seq<char>
    decreases cs.len(),
{
    if cs.len() == 0 {
        Seq::empty()
    } else {
        let head = joined(cs.drop_last());
        if head.len() == 0 || head.last() == '/' {
            head + cs.last()
        } else {
            head + "/"@ + cs.last()
        }
    }
}

/// `path` relative to `base`: up out of what `base` has beyond their
/// common components, then down into the rest of `path`.
pub open spec fn relative_path(base: Seq<char>, path: Seq<char>) -> Seq<char> {
    let b = components(base);
    let p = components(path);
    let c = common_len(b, p, 0);
    joined(Seq::new((b.len() - c) as nat, |i: int| ".."@) + p.skip(c))
}

/// The components of a path.
fn components_exec(path: &str) -> (out: Vec<Vec<char>>)
    ensures
        out@.map_values(|c: Vec<char>| c@) == components(path@),
{
    let p = chars_of(path);
    let mut out: Vec<Vec<char>> = Vec::new();
    if p.len() > 0 && p[0] == '/' {
        let mut r: Vec<char> = Vec::new();
        r.push('/');
        proof {
            reveal_strlit("/");
        }
        assert(r@ =~= "/"@);
        out.push(r);
        assert(out@.map_values(|c: Vec<char>| c@)[0] == "/"@);
        assert(out@.map_values(|c: Vec<char>| c@) =~= seq!["/"@]);
    } else {
        assert(out@.map_values(|c: Vec<char>| c@) =~= Seq::<Seq<char>>::empty());
    }
    let ghost root = out@.map_values(|c: Vec<char>| c@);
    let mut cur: Vec<char> = Vec::new();
    let mut i: usize = 0;
    proof {
        reveal_strlit(".");
    }
    assert(p@.skip(0) =~= p@);
    while i < p.len()
        invariant
            i <= p@.len(),
            p@ == path@,
            root + names_from(path@, Seq::empty()) == out@.map_values(|c: Vec<char>| c@) + names_from(
                p@.skip(i as int),
                cur@,
            ),
        decreases p@.len() - i,
    {
        let c = p[i];
        assert(p@.skip(i as int)[0] == c);
        assert(p@.skip(i as int).skip(1) =~= p@.skip(i + 1));
        if c == '/' {
            let keep = cur.len() > 0 && !(cur.len() == 1 && cur[0] == '.');
            assert(keep == (cur@.len() > 0 && cur@ != "."@)) by {
                reveal_strlit(".");
                if cur@.len() == 1 && cur@[0] == '.' {
                    assert(cur@ =~= "."@);
                }
                if cur@ == "."@ {
                    assert(cur@.len() == 1);
                }
            }
            let ghost before = out@;
            if keep {
                out.push(cur);
                assert(out@.map_values(|c: Vec<char>| c@) =~= before.map_values(|c: Vec<char>| c@).push(cur@));
            }
            proof {
                let d: Seq<Seq<char>> = if cur@.len() > 0 && cur@ != "."@ { seq![cur@] } else { Seq::empty() };
                assert(before.map_values(|c: Vec<char>| c@) + (d + names_from(p@.skip(i + 1), Seq::empty()))
                    =~= (before.map_values(|c: Vec<char>| c@) + d) + names_from(p@.skip(i + 1), Seq::empty()));
                if keep {
                    assert(before.map_values(|c: Vec<char>| c@) + d =~= out@.map_values(|c: Vec<char>| c@));
                } else {
                    assert(before.map_values(|c: Vec<char>| c@) + d =~= out@.map_values(|c: Vec<char>| c@));
                }
            }
            cur = Vec::new();
        } else {
            cur.push(c);
        }
        i = i + 1;
    }
    let keep = cur.len() > 0 && !(cur.len() == 1 && cur[0] == '.');
    assert(keep == (cur@.len() > 0 && cur@ != "."@)) by {
        if cur@.len() == 1 && cur@[0] == '.' {
            assert(cur@ =~= "."@);
        }
        if cur@ == "."@ {
            assert(cur@.len() == 1);
        }
    }
    let ghost before = out@;
    if keep {
        out.push(cur);
        assert(out@.map_values(|c: Vec<char>| c@) =~= before.map_values(|c: Vec<char>| c@) + seq![cur@]);
    } else {
        assert(out@.map_values(|c: Vec<char>| c@) =~= before.map_values(|c: Vec<char>| c@) + Seq::<Seq<char>>::empty());
    }
    assert(p@.skip(p@.len() as int).len() == 0);
    out
}

/// `path` relative to `base`: `..` for each component of `base` beyond
/// their common ones, then the rest of `path`.
pub fn relative(base: &str, path: &str) -> (s: String)
    ensures
        s@ == relative_path(base@, path@),
{
    let b = components_exec(base);
    let p = components_exec(path);
    let ghost bv = b@.map_values(|c: Vec<char>| c@);
    let ghost pv = p@.map_values(|c: Vec<char>| c@);
    let mut c: usize = 0;
    while c < b.len() && c < p.len() && crate::text::equal_chars(&b[c], &p[c])
        invariant
            c <= b@.len(),
            c <= p@.len(),
            bv == b@.map_values(|c: Vec<char>| c@),
            pv == p@.map_values(|c: Vec<char>| c@),
            common_len(bv, pv, 0) == common_len(bv, pv, c as int),
        decreases b@.len() - c,
    {
        c = c + 1;
    }
    assert(c < b@.len() && c < p@.len() ==> bv[c as int] == b@[c as int]@ && pv[c as int] == p@[c as int]@);
    assert(common_len(bv, pv, c as int) == c);
    let ghost all = Seq::new((bv.len() - c) as nat, |i: int| ".."@) + pv.skip(c as int);
    let mut pieces: Vec<Vec<char>> = Vec::new();
    let mut k: usize = c;
    proof {
        reveal_strlit("..");
    }
    while k < b.len()
        invariant
            c <= k <= b@.len(),
            pieces@.len() == k - c,
            forall|j: int| 0 <= j < k - c ==> #[trigger] pieces@[j]@ == ".."@,
        decreases b@.len() - k,
    {
        let mut d: Vec<char> = Vec::new();
        d.push('.');
        d.push('.');
        proof {
            reveal_strlit("..");
        }
        assert(d@ =~= ".."@);
        pieces.push(d);
        k = k + 1;
    }
    let n = pieces.len();
    let mut k: usize = c;
    while k < p.len()
        invariant
            c <= k <= p@.len(),
            pieces@.len() == n + (k - c),
            forall|j: int| 0 <= j < n ==> #[trigger] pieces@[j]@ == ".."@,
            forall|j: int| n <= j < pieces@.len() ==> #[trigger] pieces@[j]@ == p@[c + (j - n)]@,
        decreases p@.len() - k,
    {
        pieces.push(p[k].clone());
        k = k + 1;
    }
    assert(pieces@.map_values(|c: Vec<char>| c@) =~= all);
    let mut out: Vec<char> = Vec::new();
    let mut k: usize = 0;
    proof {
        reveal_strlit("/");
    }
    assert(all.take(0) =~= Seq::<Seq<char>>::empty());
    while k < pieces.len()
        invariant
            k <= pieces@.len(),
            all == pieces@.map_values(|c: Vec<char>| c@),
            out@ == joined(all.take(k as int)),
        decreases pieces@.len() - k,
    {
        let ghost t = all.take(k + 1);
        assert(t.drop_last() =~= all.take(k as int));
        assert(t.last() == pieces@[k as int]@);
        if out.len() > 0 && out[out.len() - 1] != '/' {
            out.push('/');
        }
        let mut pc = pieces[k].clone();
        out.append(&mut pc);
        k = k + 1;
        proof {
            reveal_strlit("/");
        }
        assert(out@ =~= joined(all.take(k as int)));
    }
    assert(all.take(k as int) =~= all);
    string_of(&out)
}

/// The options of an install from `harness install`'s arguments: the
/// scope parsed, and `--without` replacing the declined parts only when
/// given.
pub fn install_options(args: &HarnessArgs) -> (r: Result<InstallOptions, Error>)
    ensures
        match scope_parsed(args.scope@) {
            Err(e) => r matches Err(x) && x@ == e,
            Ok(s) => r matches Ok(o) && o.harness@ == args.name@ && o.scope == s && o.force == args.force
                && (args.without@.len() == 0 ==> o.without is None) && (args.without@.len() > 0 ==> (o.without matches Some(w)
                && texts(w@) == texts(args.without@))),
        },
{
    let scope = match Scope::parse(args.scope.as_str()) {
        Ok(s) => s,
        Err(e) => return Err(e),
    };
    let without = if args.without.len() == 0 {
        None
    } else {
        let mut w: Vec<String> = Vec::new();
        let mut i: usize = 0;
        while i < args.without.len()
            invariant
                i <= args.without@.len(),
                w@.len() == i,
                forall|j: int| 0 <= j < i ==> #[trigger] w@[j]@ == args.without@[j]@,
            decreases args.without@.len() - i,
        {
            w.push(copy_string(&args.without[i]));
            i = i + 1;
        }
        assert(texts(w@) =~= texts(args.without@));
        Some(w)
    };
    Ok(InstallOptions { harness: copy_string(&args.name), scope, without, force: args.force })
}

/// What toml_edit makes of the TOML text `text` when `item` is pushed
/// onto the array `<table>.<key>`, the table and the array being created
/// when absent; `None` when the text does not parse or `<table>` is not a
/// table or `<table>.<key>` not an array.
pub uninterp spec fn toml_array_pushed(text: Seq<char>, table: Seq<char>, key: Seq<char>, item: Seq<char>) -> Option<Seq<char>>;

/// Pushes `item` onto the array `<table>.<key>` of the TOML text `text`
/// with toml_edit: `str::parse` into a `DocumentMut`, `entry(..)`
/// `.or_insert(table())` for `<table>`, `as_table_like_mut`,
/// `entry(..).or_insert(value(Array::new()))` for `<key>`,
/// `as_array_mut`, `Array::push` and `to_string`. The text it gives back is
/// named, not stated: toml_edit keeps the rest of the document as it was.
#[verifier::external_body]
fn toml_push(text: &str, table: &str, key: &str, item: &str) -> (r: Option<String>)
    ensures
        match r {
            Some(s) => toml_array_pushed(text@, table@, key@, item@) == Some(s@),
            None => toml_array_pushed(text@, table@, key@, item@) is None,
        },
{
    let mut doc: DocumentMut = text.parse().ok()?;
    let outer = doc.entry(table).or_insert(toml_edit::table()).as_table_like_mut()?;
    let arr = outer.entry(key).or_insert(toml_edit::value(Array::new())).as_array_mut()?;
    arr.push(item);
    Some(doc.to_string())
}

/// Whether `items` holds the string `s`.
pub open spec fn has_string(items: Seq<TomlValue>, s: Seq<char>) -> bool {
    exists|i: int| 0 <= i < items.len() && (#[trigger] items[i] matches TomlValue::Str(x) && x@ == s)
}

/// The config text with the machine file `file` listed in `[machines]
/// files`, by its path relative to the config's directory; the text as it
/// was when it is listed already. A refusal when the text does not parse
/// (named by `display`), `[machines]` is not a table or `machines.files`
/// not an array.
pub open spec fn registered(
    text: Seq<char>,
    parsed: Result<Seq<(String, TomlValue)>, Seq<char>>,
    display: Seq<char>,
    config_dir: Seq<char>,
    file: Seq<char>,
) -> Result<Seq<char>, Seq<char>> {
    let rel = relative_path(config_dir, file);
    let push = match toml_array_pushed(text, "machines"@, "files"@, rel) {
        Some(out) => Ok(out),
        None => Err("the config could not be edited"@),
    };
    match parsed {
        Err(m) => Err(display + ": "@ + m),
        Ok(doc) => match toml_get(doc, "machines"@) {
            None => push,
            Some(TomlValue::Table(t)) => match toml_get(t@, "files"@) {
                None => push,
                Some(TomlValue::Array(items)) => if has_string(items@, rel) {
                    Ok(text)
                } else {
                    push
                },
                Some(_) => Err("machines.files is not an array"@),
            },
            Some(_) => Err("[machines] is not a table"@),
        },
    }
}

/// Whether `items` holds the string `s`.
fn has_string_exec(items: &Vec<TomlValue>, s: &str) -> (r: bool)
    ensures
        r == has_string(items@, s@),
{
    let mut i: usize = 0;
    while i < items.len()
        invariant
            i <= items@.len(),
            forall|j: int| 0 <= j < i ==> !(#[trigger] items@[j] matches TomlValue::Str(x) && x@ == s@),
        decreases items@.len() - i,
    {
        match &items[i] {
            TomlValue::Str(x) => {
                if str_eq(x.as_str(), s) {
                    assert(items@[i as int] matches TomlValue::Str(y) && y@ == s@);
                    return true;
                }
            },
            _ => {},
        }
        i = i + 1;
    }
    false
}

/// The config text with the new machine file `file` listed in `[machines]
/// files` by its path relative to `config_dir`, formatting kept. The
/// message of a refusal when the text does not parse as TOML
/// (`<display>: <the parser's message>`), `[machines]` is not a table or
/// `machines.files` not an array.
pub fn register_machine(text: &str, display: &str, config_dir: &str, file: &str) -> (r: Result<String, String>)
    ensures
        exists|p: Option<Result<Seq<(String, TomlValue)>, Seq<char>>>|
            #[trigger] parse_of(Some(text@), p) && p is Some && match registered(text@, p->Some_0, display@, config_dir@, file@) {
                Ok(t) => r matches Ok(s) && s@ == t,
                Err(m) => r matches Err(e) && e@ == m,
            },
{
    let parsed = crate::harness::record::toml_parse_text(text);
    let ghost p = Some(
        match &parsed {
            Ok(d) => Ok::<Seq<(String, TomlValue)>, Seq<char>>(d@),
            Err(m) => Err(m@),
        },
    );
    assert(parse_of(Some(text@), p));
    register_parsed(text, parsed, display, config_dir, file)
}

/// The config text with the new machine file listed, from the text's parse.
pub fn register_parsed(
    text: &str,
    parsed: Result<Vec<(String, TomlValue)>, String>,
    display: &str,
    config_dir: &str,
    file: &str,
) -> (r: Result<String, String>)
    ensures
        match registered(
            text@,
            match parsed {
                Ok(d) => Ok(d@),
                Err(m) => Err(m@),
            },
            display@,
            config_dir@,
            file@,
        ) {
            Ok(t) => r matches Ok(s) && s@ == t,
            Err(m) => r matches Err(e) && e@ == m,
        },
{
    proof {
        reveal_strlit("machines");
        reveal_strlit("files");
        reveal_strlit(": ");
        reveal_strlit("the config could not be edited");
        reveal_strlit("machines.files is not an array");
        reveal_strlit("[machines] is not a table");
    }
    let rel = relative(config_dir, file);
    let doc = match parsed {
        Err(m) => {
            let mut out = chars_of(display);
            append_str(&mut out, ": ");
            append_str(&mut out, m.as_str());
            return Err(string_of(&out));
        },
        Ok(d) => d,
    };
    match get_value(&doc, "machines") {
        None => {},
        Some(TomlValue::Table(t)) => match get_value(t, "files") {
            None => {},
            Some(TomlValue::Array(items)) => {
                if has_string_exec(items, rel.as_str()) {
                    return Ok(text.to_string());
                }
            },
            Some(_) => return Err("machines.files is not an array".to_string()),
        },
        Some(_) => return Err("[machines] is not a table".to_string()),
    }
    match toml_push(text, "machines", "files", rel.as_str()) {
        Some(out) => Ok(out),
        None => Err("the config could not be edited".to_string()),
    }
}

} // verus!
