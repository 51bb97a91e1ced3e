//! `init` and `new`: where the config and a new machine file go, which ids
//! a machine may have, and what the commands say.

use vstd::prelude::*;

use crate::json::{lemma_object_model, members, model, Json, JsonModel};
use crate::smllm::{join, joined_to, parent, parent_of, CONFIG_FILE, PROJECT_DIR};
use crate::text::{append_str, chars_of, string_of};

verus! {

/// Whether `c` may stand in a machine id: an ASCII letter or digit, `-` or
/// `_`.
pub open spec fn id_char(c: char) -> bool {
    ('a' <= c <= 'z') || ('A' <= c <= 'Z') || ('0' <= c <= '9') || c == '-' || c == '_'
}

/// Whether `id` may name a machine: not empty, and made of ASCII letters,
/// digits, `-` and `_`.
pub open spec fn valid_id(id: Seq<char>) -> bool {
    id.len() > 0 && forall|i: int| 0 <= i < id.len() ==> id_char(#[trigger] id[i])
}

/// What `{:?}` writes for a string: Rust's quoted, escaped form.
pub uninterp spec fn debug_quoted(s: Seq<char>) -> Seq<char>;

/// Formats `s` with `{:?}`: std's `Debug` for `str`, which writes the
/// string between double quotes with its special characters escaped. The
/// contract names the result and says no more.
#[verifier::external_body]
fn debug_text(s: &str) -> (r: String)
    ensures
        r@ == debug_quoted(s@),
{
    format!("{:?}", s)
}

/// Whether `id` may name a machine; `Err("id <id as {:?}> must be letters,
/// digits, _ and -")` when it may not.
pub fn check_id(id: &str) -> (r: Result<(), String>)
    ensures
        valid_id(id@) ==> r is Ok,
        !valid_id(id@) ==> r is Err && r->Err_0@ == "id "@ + debug_quoted(id@)
            + " must be letters, digits, _ and -"@,
{
    let mut ok = true;
    let mut any = false;
    for c in it: id.chars()
        invariant
            it.seq() == id@,
            any == (it.index() > 0),
            ok == (forall|i: int| 0 <= i < it.index() ==> id_char(#[trigger] id@[i])),
    {
        let good = ('a' <= c && c <= 'z') || ('A' <= c && c <= 'Z') || ('0' <= c && c <= '9') || c == '-'
            || c == '_';
        proof {
            let n = it.index();
            assert(id@[n] == c);
            if ok && good {
                assert forall|i: int| 0 <= i < n + 1 implies id_char(#[trigger] id@[i]) by {
                    if i == n {
                        assert(id@[i] == c);
                    }
                }
            }
        }
        ok = ok && good;
        any = true;
    }
    if ok && any {
        Ok(())
    } else {
        let q = debug_text(id);
        let mut e: Vec<char> = Vec::new();
        append_str(&mut e, "id ");
        append_str(&mut e, q.as_str());
        append_str(&mut e, " must be letters, digits, _ and -");
        Err(string_of(&e))
    }
}

/// `<id>.smllm.yaml` in `dir`.
pub open spec fn machine_file_of(dir: Seq<char>, id: Seq<char>) -> Seq<char> {
    joined_to(dir, id + ".smllm.yaml"@)
}

/// Where `new` writes: the config it lists the machine in (the explicit
/// one, taken from `here`, else the project's), and the machine file
/// (`<id>.smllm.yaml` in `dir`, taken from `here`, else in the config's
/// directory, `.` when the config has no parent).
pub open spec fn new_paths_of(
    here: Seq<char>,
    explicit: Option<Seq<char>>,
    project: Option<Seq<char>>,
    dir: Option<Seq<char>>,
    id: Seq<char>,
) -> Option<(Seq<char>, Seq<char>)> {
    let config = match explicit {
        Some(p) => Some(joined_to(here, p)),
        None => project,
    };
    match config {
        None => None,
        Some(c) => {
            let d = match dir {
                Some(x) => joined_to(here, x),
                None => match parent_of(c) {
                    Some(up) => up,
                    None => "."@,
                },
            };
            Some((c, machine_file_of(d, id)))
        },
    }
}

/// The config `new` lists the machine in and the machine file it writes:
/// the config is `explicit` taken from `here`, else `project`, the config
/// found at or above `here`; the file is `<id>.smllm.yaml` in `dir` taken
/// from `here`, else beside the config. Without either config,
/// `Err("no .smllm/config.toml here or above; run smllm init first")`.
pub fn new_paths(here: &str, explicit: Option<&str>, project: Option<&str>, dir: Option<&str>, id: &str) -> (r:
    Result<(String, String), String>)
    ensures
        match new_paths_of(
            here@,
            crate::harness::region::opt_view(explicit),
            crate::harness::region::opt_view(project),
            crate::harness::region::opt_view(dir),
            id@,
        ) {
            Some((c, f)) => r is Ok && r->Ok_0.0@ == c && r->Ok_0.1@ == f,
            None => r is Err && r->Err_0@ == "no .smllm/config.toml here or above; run smllm init first"@,
        },
{
    let config = match explicit {
        Some(p) => join(here, p),
        None => match project {
            Some(p) => p.to_string(),
            None => {
                return Err("no .smllm/config.toml here or above; run smllm init first".to_string());
            },
        },
    };
    let d = match dir {
        Some(x) => join(here, x),
        None => match parent(&chars_of(config.as_str())) {
            Some(up) => string_of(&up),
            None => ".".to_string(),
        },
    };
    let mut name: Vec<char> = Vec::new();
    append_str(&mut name, id);
    append_str(&mut name, ".smllm.yaml");
    let n = string_of(&name);
    let file = join(d.as_str(), n.as_str());
    Ok((config, file))
}

/// `<file> already exists`.
pub fn exists_error(file: &str) -> (s: String)
    ensures
        s@ == file@ + " already exists"@,
{
    let mut out: Vec<char> = Vec::new();
    append_str(&mut out, file);
    append_str(&mut out, " already exists");
    string_of(&out)
}

/// `created <file> and listed it in <config>` and a newline.
pub fn created_text(file: &str, config: &str) -> (s: String)
    ensures
        s@ == "created "@ + file@ + " and listed it in "@ + config@ + "\n"@,
{
    let mut out: Vec<char> = Vec::new();
    append_str(&mut out, "created ");
    append_str(&mut out, file);
    append_str(&mut out, " and listed it in ");
    append_str(&mut out, config);
    append_str(&mut out, "\n");
    string_of(&out)
}

/// The config `init` creates: `config.toml` in the user config directory
/// with `--user`, else `.smllm/config.toml` under `cwd`.
pub open spec fn init_path_of(user: bool, user_config_dir: Seq<char>, cwd: Seq<char>) -> Seq<char> {
    if user {
        joined_to(user_config_dir, CONFIG_FILE@)
    } else {
        joined_to(joined_to(cwd, PROJECT_DIR@), CONFIG_FILE@)
    }
}

/// The config `init` creates: `config.toml` in `user_config_dir` when
/// `user`, else `.smllm/config.toml` under `cwd`.
pub fn init_path(user: bool, user_config_dir: &str, cwd: &str) -> (s: String)
    ensures
        s@ == init_path_of(user, user_config_dir@, cwd@),
{
    if user {
        join(user_config_dir, CONFIG_FILE)
    } else {
        let d = join(cwd, PROJECT_DIR);
        join(d.as_str(), CONFIG_FILE)
    }
}

/// What `init` says: `created <path>`, or `<path> already exists; nothing
/// changed` when the config was there; each ending in a newline.
pub fn init_text(shown: &str, created: bool) -> (s: String)
    ensures
        created ==> s@ == "created "@ + shown@ + "\n"@,
        !created ==> s@ == shown@ + " already exists; nothing changed\n"@,
{
    let mut out: Vec<char> = Vec::new();
    if created {
        append_str(&mut out, "created ");
        append_str(&mut out, shown);
        append_str(&mut out, "\n");
    } else {
        append_str(&mut out, shown);
        append_str(&mut out, " already exists; nothing changed\n");
    }
    string_of(&out)
}

/// What `init --json` says: `{"path": <path>, "created": <created>}`.
pub fn init_json(path: &str, created: bool) -> (j: Json)
    ensures
        model(j) == JsonModel::Object(
            seq![("path"@, JsonModel::Str(path@)), ("created"@, JsonModel::Bool(created))],
        ),
{
    let mut m: Vec<(String, Json)> = Vec::new();
    m.push(("path".to_string(), Json::Str(path.to_string())));
    m.push(("created".to_string(), Json::Bool(created)));
    proof {
        lemma_object_model(m);
        assert(members(m@) =~= seq![("path"@, JsonModel::Str(path@)), ("created"@, JsonModel::Bool(created))]);
    }
    Json::Object(m)
}

} // verus!
