//! The smllm command-line tool as a harness-kit tool: where its project
//! lies, its harness profile, where it keeps its record and declined parts,
//! its file store's paths, and the helpers its hosts use.

use vstd::prelude::*;
use vstd::utf8::{encode_utf8, decode_utf8, encode_utf8_decode_utf8};

use crate::error::Error;
use crate::harness::declined::TomlDeclined;
use crate::harness::merge::{command_group, get_member, member, op_model, ops_model, split_path, MergeOp, OpModel};
use crate::harness::part::{Content, ExternalContent, Part, Profile, Target};
use crate::harness::state::{join_words, join_words_exec, words, words_exec};
use crate::harness::tool::Scope;
use crate::json::{compact_text, copy_string, json_compact, model, Json, JsonModel};
use crate::lines::trim;
use crate::text::{append_chars, append_str, chars_of, str_eq, string_of};

verus! {

/// `.smllm`: the project config directory.
pub const PROJECT_DIR: &'static str = ".smllm";

/// `config.toml`.
pub const CONFIG_FILE: &'static str = "config.toml";

/// The tiny orientation block for the instructions file; the full rules are
/// in the MCP tool description.
pub const INSTRUCTIONS_BLOCK: &'static str = "## smllm\n\nThis project's work is guided by smllm state machines. Everything smllm says is fenced in `<smllm>…</smllm>`: follow its `<instructions>`, and when the work is done fire one of its `<events>` with the `smllm` MCP tool, passing the session key from the `<smllm>` header. Fire `yield` before stopping to ask the user something. Only the main agent calls smllm.\n";

/// The prefix of the tool's hook commands.
pub const HOOK_PREFIX: &'static str = "smllm harness hook ";

/// `p` appended to `base`: `p` itself when it is absolute or `base` is
/// empty, else the two joined by one `/`.
pub open spec fn joined_to(base: Seq<char>, p: Seq<char>) -> Seq<char> {
    if (p.len() > 0 && p[0] == '/') || base.len() == 0 {
        p
    } else if base.last() == '/' {
        base + p
    } else {
        base + "/"@ + p
    }
}

/// `p` appended to `base`.
pub fn join(base: &str, p: &str) -> (s: String)
    ensures
        s@ == joined_to(base@, p@),
{
    let pc = chars_of(p);
    let bc = chars_of(base);
    if (pc.len() > 0 && pc[0] == '/') || bc.len() == 0 {
        return p.to_string();
    }
    let mut out = bc;
    if out[out.len() - 1] != '/' {
        out.push('/');
    }
    append_str(&mut out, p);
    proof {
        reveal_strlit("/");
    }
    string_of(&out)
}

/// The index of the last `/` in `p` at or before `i`.
pub open spec fn last_slash(p: Seq<char>, i: int) -> Option<int>
    decreases i + 1,
{
    if i < 0 || i >= p.len() {
        None
    } else if p[i] == '/' {
        Some(i)
    } else {
        last_slash(p, i - 1)
    }
}

/// `p` without what `Path` ignores at its end: trailing separators and
/// trailing `.` components. The first character always stays, so a root
/// stays a root.
pub open spec fn trim_right(p: Seq<char>) -> Seq<char>
    decreases p.len(),
{
    if p.len() > 1 && p.last() == '/' {
        trim_right(p.drop_last())
    } else if p.len() > 1 && p.last() == '.' && p[p.len() - 2] == '/' {
        trim_right(p.drop_last())
    } else {
        p
    }
}

/// The parent of a path as `Path::parent` gives it: the path without its
/// last component and the separators before it; `/` for a component right
/// under the root, empty for a single relative component; `None` for the
/// root and for the empty path, which have no parent.
pub open spec fn parent_of(p: Seq<char>) -> Option<Seq<char>> {
    let q = trim_right(p);
    if q.len() == 0 || q == seq!['/'] {
        None
    } else {
        match last_slash(q, q.len() - 1) {
            None => Some(Seq::empty()),
            Some(i) => if i == 0 {
                Some(seq!['/'])
            } else {
                Some(trim_right(q.take(i)))
            },
        }
    }
}

/// The last component of a path, what follows its last `/` once trailing
/// separators and `.` components are dropped; it equals a plain name such
/// as `.smllm` exactly when `Path::file_name` gives that name.
pub open spec fn name_of(p: Seq<char>) -> Seq<char> {
    let q = trim_right(p);
    match last_slash(q, q.len() - 1) {
        Some(i) => q.skip(i + 1),
        None => q,
    }
}

/// The project of a tool whose config file is `config`: the directory
/// holding the config's `.smllm/`, or the config's own directory when it
/// is not in one; `cwd` without a config, or when a directory it needs has
/// no parent.
pub open spec fn project_of(cwd: Seq<char>, config: Option<Seq<char>>) -> Seq<char> {
    match config {
        None => cwd,
        Some(c) => match parent_of(c) {
            None => cwd,
            Some(dir) => if name_of(dir) == ".smllm"@ {
                match parent_of(dir) {
                    Some(up) => up,
                    None => cwd,
                }
            } else {
                dir
            },
        },
    }
}

/// Trimming never lengthens a path, and keeps a non-empty one non-empty.
pub proof fn lemma_trim_right_len(p: Seq<char>)
    ensures
        trim_right(p).len() <= p.len(),
        p.len() > 0 ==> trim_right(p).len() > 0,
        trim_right(p) == p.take(trim_right(p).len() as int),
    decreases p.len(),
{
    if p.len() > 1 && (p.last() == '/' || (p.last() == '.' && p[p.len() - 2] == '/')) {
        lemma_trim_right_len(p.drop_last());
        assert(p.drop_last().take(trim_right(p).len() as int) =~= p.take(trim_right(p).len() as int));
    } else {
        assert(p.take(p.len() as int) =~= p);
    }
}

proof fn lemma_last_slash(p: Seq<char>, i: int, k: int)
    requires
        -1 <= k <= i < p.len(),
        k >= 0 ==> p[k] == '/',
        forall|j: int| k < j <= i ==> p[j] != '/',
    ensures
        last_slash(p, i) == if k >= 0 {
            Some(k)
        } else {
            None::<int>
        },
    decreases i - k,
{
    if i > k {
        lemma_last_slash(p, i - 1, k);
    }
}

proof fn lemma_last_slash_in(p: Seq<char>, i: int)
    ensures
        last_slash(p, i) matches Some(k) ==> 0 <= k <= i && p[k] == '/',
    decreases i + 1,
{
    if 0 <= i < p.len() && p[i] != '/' {
        lemma_last_slash_in(p, i - 1);
    }
}

/// A path's parent is shorter than the path.
pub proof fn lemma_parent_shorter(p: Seq<char>)
    ensures
        parent_of(p) matches Some(q) ==> q.len() < p.len(),
{
    let q = trim_right(p);
    lemma_trim_right_len(p);
    if q.len() > 0 && q != seq!['/'] {
        lemma_last_slash_in(q, q.len() - 1);
        if let Some(i) = last_slash(q, q.len() - 1) {
            if i == 0 {
                if q.len() == 1 {
                    assert(q =~= seq!['/']);
                }
            } else {
                lemma_trim_right_len(q.take(i));
            }
        }
    }
}

/// The index of the last `/` of `p`.
fn find_last_slash(p: &Vec<char>) -> (r: Option<usize>)
    ensures
        match r {
            Some(i) => last_slash(p@, p@.len() - 1) == Some(i as int) && i < p@.len(),
            None => last_slash(p@, p@.len() - 1) is None,
        },
{
    let mut i = p.len();
    while i > 0 && p[i - 1] != '/'
        invariant
            i <= p@.len(),
            forall|j: int| i <= j < p@.len() ==> p@[j] != '/',
        decreases i,
    {
        i = i - 1;
    }
    if i == 0 {
        if p.len() > 0 {
            proof {
                lemma_last_slash(p@, p@.len() - 1, -1);
            }
        }
        None
    } else {
        proof {
            lemma_last_slash(p@, p@.len() - 1, i - 1);
        }
        Some(i - 1)
    }
}

/// The length of `trim_right(p)`.
fn trim_right_len(p: &Vec<char>, n: usize) -> (k: usize)
    requires
        n <= p.len(),
    ensures
        k <= n,
        p@.take(k as int) == trim_right(p@.take(n as int)),
    decreases n,
{
    let ghost t = p@.take(n as int);
    if n > 1 && p[n - 1] == '/' {
        assert(t.drop_last() =~= p@.take(n - 1));
        trim_right_len(p, n - 1)
    } else if n > 1 && p[n - 1] == '.' && p[n - 2] == '/' {
        assert(t.drop_last() =~= p@.take(n - 1));
        trim_right_len(p, n - 1)
    } else {
        n
    }
}

/// The first `n` characters of `p`.
fn prefix(p: &Vec<char>, n: usize) -> (out: Vec<char>)
    requires
        n <= p.len(),
    ensures
        out@ == p@.take(n as int),
{
    let mut out: Vec<char> = Vec::new();
    let mut j: usize = 0;
    while j < n
        invariant
            j <= n <= p.len(),
            out@ == p@.take(j as int),
        decreases n - j,
    {
        out.push(p[j]);
        j = j + 1;
        assert(out@ =~= p@.take(j as int));
    }
    out
}

/// The parent of a path, as `Path::parent` gives it.
pub(crate) fn parent(p: &Vec<char>) -> (out: Option<Vec<char>>)
    ensures
        match out {
            Some(o) => parent_of(p@) == Some(o@),
            None => parent_of(p@) is None,
        },
{
    let k = trim_right_len(p, p.len());
    assert(p@.take(p.len() as int) =~= p@);
    let q = prefix(p, k);
    if k == 0 || (k == 1 && q[0] == '/') {
        proof {
            if k == 1 && q[0] == '/' {
                assert(q@ =~= seq!['/']);
            }
        }
        return None;
    }
    assert(q@ != seq!['/']) by {
        if k == 1 {
            assert(q@[0] != seq!['/'][0]);
        }
    }
    match find_last_slash(&q) {
        None => Some(Vec::new()),
        Some(0) => {
            let mut out: Vec<char> = Vec::new();
            out.push('/');
            assert(out@ =~= seq!['/']);
            Some(out)
        },
        Some(i) => {
            let m = trim_right_len(&q, i);
            Some(prefix(&q, m))
        },
    }
}

/// The last component of a path.
fn name(p: &Vec<char>) -> (out: Vec<char>)
    ensures
        out@ == name_of(p@),
{
    let k = trim_right_len(p, p.len());
    assert(p@.take(p.len() as int) =~= p@);
    let q = prefix(p, k);
    let found = find_last_slash(&q);
    let start: usize = match found {
        Some(i) => i + 1,
        None => 0,
    };
    let mut out: Vec<char> = Vec::new();
    let mut j = start;
    while j < q.len()
        invariant
            start <= j <= q@.len(),
            out@ == q@.subrange(start as int, j as int),
        decreases q@.len() - j,
    {
        out.push(q[j]);
        j = j + 1;
        assert(out@ =~= q@.subrange(start as int, j as int));
    }
    assert(q@.skip(start as int) =~= q@.subrange(start as int, q@.len() as int));
    out
}

/// smllm as a harness-kit tool.
#[derive(Debug)]
pub struct Smllm {
    /// The project directory.
    pub project: String,
    /// The harness's own directory in the user's home.
    pub harness_home: String,
    /// The user's smllm config directory.
    pub user_config: String,
    /// The harness smllm integrates with, as it is named on the command
    /// line.
    pub harness: String,
}

/// The MCP server entry: `{"command": "smllm", "args": ["mcp"]}`.
pub open spec fn server_entry() -> JsonModel {
    JsonModel::Object(
        seq![
            ("command"@, JsonModel::Str("smllm"@)),
            ("args"@, JsonModel::Array(seq![JsonModel::Str("mcp"@)])),
        ],
    )
}

/// The MCP server entry.
fn server() -> (j: Json)
    ensures
        model(j) == server_entry(),
{
    let mcp = Json::Str("mcp".to_string());
    let ghost mm = model(mcp);
    assert(mm == JsonModel::Str("mcp"@));
    let args = Json::Array(vec![mcp]);
    let ghost am = model(args);
    assert(am->Array_0 =~= seq![mm]);
    let command = Json::Str("smllm".to_string());
    let ghost cm = model(command);
    assert(cm == JsonModel::Str("smllm"@));
    let j = Json::Object(vec![("command".to_string(), command), ("args".to_string(), args)]);
    assert(model(j)->Object_0 =~= server_entry()->Object_0);
    j
}

/// The settings file of a scope, relative to its root.
pub open spec fn settings_file(harness: Seq<char>, scope: Scope) -> Seq<char> {
    match scope {
        Scope::Project => "."@ + harness + "/settings.json"@,
        Scope::User => "settings.json"@,
    }
}

/// The hook events and the names of their hooks.
pub open spec fn hook_names() -> Seq<(Seq<char>, Seq<char>)> {
    seq![
        ("SessionStart"@, "session-start"@),
        ("UserPromptSubmit"@, "user-prompt-submit"@),
        ("Stop"@, "stop"@),
    ]
}

/// The hook operation of one hook of the harness.
pub open spec fn hook_op(harness: Seq<char>, event: Seq<char>, hook: Seq<char>) -> OpModel {
    OpModel::HookGroup(
        event,
        "smllm harness hook "@,
        command_group("smllm harness hook "@ + harness + " "@ + hook),
    )
}

impl Smllm {
    /// The tool for a project, given its working directory and its config
    /// file (`--config` joined to the working directory, or the nearest
    /// project config), the harness's home directory, the user's smllm
    /// config directory, and the harness it integrates with: the project is
    /// the directory holding the config's `.smllm/`, else the config's own
    /// directory, else the working directory (also where such a directory
    /// has no parent, as for a config at the root).
    pub fn new(cwd: &str, config: Option<&str>, harness_home: &str, user_config: &str, harness: &str) -> (t: Self)
        ensures
            t.project@ == project_of(cwd@, crate::harness::region::opt_view(config)),
            t.harness_home@ == harness_home@,
            t.user_config@ == user_config@,
            t.harness@ == harness@,
    {
        let project = match config {
            None => cwd.to_string(),
            Some(c) => match parent(&chars_of(c)) {
                None => cwd.to_string(),
                Some(dir) => {
                    let dir_name = name(&dir);
                    let marker = chars_of(PROJECT_DIR);
                    proof {
                        reveal_strlit(".smllm");
                    }
                    if crate::text::equal_chars(&dir_name, &marker) {
                        match parent(&dir) {
                            Some(up) => string_of(&up),
                            None => cwd.to_string(),
                        }
                    } else {
                        string_of(&dir)
                    }
                },
            },
        };
        Smllm {
            project,
            harness_home: harness_home.to_string(),
            user_config: user_config.to_string(),
            harness: harness.to_string(),
        }
    }

    /// The tool's name: the region markers are `<!-- smllm:harness -->` and
    /// `<!-- /smllm:harness -->`.
    pub fn name(&self) -> (s: &'static str)
        ensures
            s@ == "smllm"@,
    {
        "smllm"
    }

    /// The directory the parts' relative paths resolve against: the project,
    /// or the harness's home.
    pub fn root(&self, scope: Scope) -> (s: String)
        ensures
            s@ == match scope {
                Scope::Project => self.project@,
                Scope::User => self.harness_home@,
            },
    {
        match scope {
            Scope::Project => copy_string(&self.project),
            Scope::User => copy_string(&self.harness_home),
        }
    }

    /// The record file of a scope: `harness.toml` in the project's
    /// `.smllm/`, or in the user's config directory.
    pub fn record_path(&self, scope: Scope) -> (s: String)
        ensures
            s@ == match scope {
                Scope::Project => joined_to(joined_to(self.project@, ".smllm"@), "harness.toml"@),
                Scope::User => joined_to(self.user_config@, "harness.toml"@),
            },
    {
        proof {
            reveal_strlit(".smllm");
            reveal_strlit("harness.toml");
        }
        match scope {
            Scope::Project => join(join(self.project.as_str(), PROJECT_DIR).as_str(), "harness.toml"),
            Scope::User => join(self.user_config.as_str(), "harness.toml"),
        }
    }

    /// The store of the declined parts of a scope: `config.toml` in the
    /// project's `.smllm/`, or in the user's config directory.
    pub fn declined_store(&self, scope: Scope) -> (s: TomlDeclined)
        ensures
            s.path@ == match scope {
                Scope::Project => joined_to(joined_to(self.project@, ".smllm"@), "config.toml"@),
                Scope::User => joined_to(self.user_config@, "config.toml"@),
            },
            s.display@ == match scope {
                Scope::Project => ".smllm/config.toml"@,
                Scope::User => "~/.config/smllm/config.toml"@,
            },
    {
        proof {
            reveal_strlit(".smllm");
            reveal_strlit("config.toml");
            reveal_strlit(".smllm/config.toml");
            reveal_strlit("~/.config/smllm/config.toml");
        }
        match scope {
            Scope::Project => {
                let path = join(join(self.project.as_str(), PROJECT_DIR).as_str(), CONFIG_FILE);
                TomlDeclined::new(path.as_str(), ".smllm/config.toml")
            },
            Scope::User => {
                let path = join(self.user_config.as_str(), CONFIG_FILE);
                TomlDeclined::new(path.as_str(), "~/.config/smllm/config.toml")
            },
        }
    }

    /// The profile of `harness` at `scope`: the instructions block, the MCP
    /// server (merged into `.mcp.json` for the project, registered through
    /// the harness's own command for the user), the hooks and the
    /// permission, the last two in the scope's settings file. `None` for
    /// another harness.
    pub fn profile(&self, harness: &str, scope: Scope) -> (r: Option<Profile>)
        ensures
            (r is None) == (harness@ != self.harness@),
            r matches Some(p) ==> {
                &&& p.harness@ == harness@
                &&& p.parts@.len() == 4
                &&& p.parts@[0].name@ == "instructions"@ && p.parts@[0].target == Target::Instructions
                &&& (p.parts@[0].content matches Content::Block(b) && b@ == INSTRUCTIONS_BLOCK@)
                &&& p.parts@[1].name@ == "mcp"@
                &&& (scope == Scope::Project ==> (p.parts@[1].target matches Target::Fixed(f) && f@ == ".mcp.json"@)
                    && (p.parts@[1].content matches Content::Merge(ops) && ops_model(ops@) == seq![
                        OpModel::ObjectMember(split_path("mcpServers"@), "smllm"@, server_entry()),
                    ]))
                &&& (scope == Scope::User ==> (p.parts@[1].content matches Content::External(e) && e.location@
                    == harness@ + " mcp (user)"@ && e.expected@ == json_compact(server_entry())))
                &&& p.parts@[2].name@ == "hooks"@
                &&& (p.parts@[2].target matches Target::Fixed(f) && f@ == settings_file(harness@, scope))
                &&& (p.parts@[2].content matches Content::Merge(ops) && ops_model(ops@) == seq![
                    hook_op(harness@, hook_names()[0].0, hook_names()[0].1),
                    hook_op(harness@, hook_names()[1].0, hook_names()[1].1),
                    hook_op(harness@, hook_names()[2].0, hook_names()[2].1),
                ])
                &&& p.parts@[3].name@ == "permissions"@
                &&& (p.parts@[3].target matches Target::Fixed(f) && f@ == settings_file(harness@, scope))
                &&& (p.parts@[3].content matches Content::Merge(ops) && ops_model(ops@) == seq![
                    OpModel::ArrayEntry(split_path("permissions.allow"@), JsonModel::Str("mcp__smllm__smllm"@)),
                ])
                &&& p.hooks@.len() == 3
                &&& forall|i: int| 0 <= i < 3 ==> #[trigger] p.hooks@[i]@ == hook_names()[i].1
            },
    {
        if !str_eq(harness, self.harness.as_str()) {
            return None;
        }
        proof {
            reveal_strlit("instructions");
            reveal_strlit("mcp");
            reveal_strlit(".mcp.json");
            reveal_strlit("mcpServers");
            reveal_strlit("smllm");
            reveal_strlit(" mcp (user)");
            reveal_strlit("hooks");
            reveal_strlit("permissions");
            reveal_strlit("permissions.allow");
            reveal_strlit("mcp__smllm__smllm");
            reveal_strlit(".");
            reveal_strlit("/settings.json");
            reveal_strlit("settings.json");
            reveal_strlit("SessionStart");
            reveal_strlit("session-start");
            reveal_strlit("UserPromptSubmit");
            reveal_strlit("user-prompt-submit");
            reveal_strlit("Stop");
            reveal_strlit("stop");
            reveal_strlit("smllm harness hook ");
            reveal_strlit(" ");
        }
        let settings = match scope {
            Scope::Project => {
                let mut s = chars_of(".");
                append_str(&mut s, harness);
                append_str(&mut s, "/settings.json");
                string_of(&s)
            },
            Scope::User => "settings.json".to_string(),
        };
        let mcp = match scope {
            Scope::Project => {
                let op = MergeOp::object_member("mcpServers", "smllm", server());
                let ops = vec![op];
                assert(ops_model(ops@) =~= seq![OpModel::ObjectMember(split_path("mcpServers"@), "smllm"@, server_entry())]);
                Part::merge("mcp", ".mcp.json", ops)
            },
            Scope::User => {
                let mut location = chars_of(harness);
                append_str(&mut location, " mcp (user)");
                let location = string_of(&location);
                let target = Target::Fixed(copy_string(&location));
                Part {
                    name: "mcp".to_string(),
                    target,
                    content: Content::External(ExternalContent { location, expected: compact_text(&server()) }),
                }
            },
        };
        let events = ["SessionStart", "UserPromptSubmit", "Stop"];
        let hooks = ["session-start", "user-prompt-submit", "stop"];
        let mut ops: Vec<MergeOp> = Vec::new();
        let mut names: Vec<String> = Vec::new();
        let mut i: usize = 0;
        while i < 3
            invariant
                i <= 3,
                events@ == seq!["SessionStart", "UserPromptSubmit", "Stop"],
                hooks@ == seq!["session-start", "user-prompt-submit", "stop"],
                ops@.len() == i,
                names@.len() == i,
                forall|j: int| 0 <= j < i ==> #[trigger] op_model(ops@[j]) == hook_op(harness@, hook_names()[j].0, hook_names()[j].1),
                forall|j: int| 0 <= j < i ==> #[trigger] names@[j]@ == hook_names()[j].1,
            decreases 3 - i,
        {
            proof {
                reveal_strlit("SessionStart");
                reveal_strlit("session-start");
                reveal_strlit("UserPromptSubmit");
                reveal_strlit("user-prompt-submit");
                reveal_strlit("Stop");
                reveal_strlit("stop");
                reveal_strlit("smllm harness hook ");
                reveal_strlit(" ");
            }
            let mut command = chars_of("smllm harness hook ");
            append_str(&mut command, harness);
            append_str(&mut command, " ");
            append_str(&mut command, hooks[i]);
            let command = string_of(&command);
            ops.push(MergeOp::hook_command(events[i], HOOK_PREFIX, command.as_str()));
            names.push(hooks[i].to_string());
            i = i + 1;
        }
        assert(ops_model(ops@) =~= seq![
            hook_op(harness@, hook_names()[0].0, hook_names()[0].1),
            hook_op(harness@, hook_names()[1].0, hook_names()[1].1),
            hook_op(harness@, hook_names()[2].0, hook_names()[2].1),
        ]);
        let permission = vec![MergeOp::array_entry("permissions.allow", Json::Str("mcp__smllm__smllm".to_string()))];
        assert(ops_model(permission@) =~= seq![
            OpModel::ArrayEntry(split_path("permissions.allow"@), JsonModel::Str("mcp__smllm__smllm"@)),
        ]);
        let parts = vec![
            Part::instructions("instructions", INSTRUCTIONS_BLOCK),
            mcp,
            Part::merge("hooks", settings.as_str(), ops),
            Part::merge("permissions", settings.as_str(), permission),
        ];
        Some(Profile { harness: harness.to_string(), parts, hooks: names })
    }
}

/// A member's value, `null` when there is none.
pub open spec fn or_null(v: Option<JsonModel>) -> JsonModel {
    match v {
        Some(x) => x,
        None => JsonModel::Null,
    }
}

/// The tool's MCP registration in the harness's user config `doc`, as it
/// compares with the expected server: `{"command": …, "args": …}` from the
/// entry at `mcpServers.smllm` (`null` for a missing member), compact;
/// `None` without that entry.
pub open spec fn registration_of(doc: JsonModel) -> Option<Seq<char>> {
    match member(doc, "mcpServers"@) {
        Some(servers) => match member(servers, "smllm"@) {
            Some(s) => Some(json_compact(JsonModel::Object(
                seq![("command"@, or_null(member(s, "command"@))), ("args"@, or_null(member(s, "args"@)))],
            ))),
            None => None,
        },
        None => None,
    }
}

fn member_or_null(m: &Json, key: &str) -> (r: Json)
    ensures
        model(r) == or_null(member(model(*m), key@)),
{
    let k = key.to_string();
    match get_member(m, &k) {
        Some(v) => crate::json::copy_json(v),
        None => Json::Null,
    }
}

/// The tool's MCP registration in the harness's user config `doc`:
/// `{"command": …, "args": …}` from its entry at `mcpServers.smllm`, with
/// `null` for a member the entry lacks, as compact JSON; `None` when the
/// config has no such entry.
pub fn registration(doc: &Json) -> (r: Option<String>)
    ensures
        match r {
            Some(t) => registration_of(model(*doc)) == Some(t@),
            None => registration_of(model(*doc)) is None,
        },
{
    let servers_key = "mcpServers".to_string();
    let servers = match get_member(doc, &servers_key) {
        Some(s) => s,
        None => return None,
    };
    let tool_key = "smllm".to_string();
    let entry = match get_member(servers, &tool_key) {
        Some(e) => e,
        None => return None,
    };
    let mut m: Vec<(String, Json)> = Vec::new();
    m.push(("command".to_string(), member_or_null(entry, "command")));
    m.push(("args".to_string(), member_or_null(entry, "args")));
    proof {
        crate::json::lemma_object_model(m);
        assert(crate::json::members(m@) =~= seq![
            ("command"@, or_null(member(model(*entry), "command"@))),
            ("args"@, or_null(member(model(*entry), "args"@))),
        ]);
    }
    Some(compact_text(&Json::Object(m)))
}

/// The tool's MCP registration in the text of the harness's user config:
/// as [`registration`] reads it from the parsed document; `None` when the
/// text does not parse as JSON.
pub fn registration_in(text: &str) -> (r: Option<String>)
    ensures
        match crate::json::json_parsed(text@) {
            Ok(d) => match r {
                Some(t) => registration_of(d) == Some(t@),
                None => registration_of(d) is None,
            },
            Err(_) => r is None,
        },
{
    match crate::json::parse_json_text(text) {
        Ok(doc) => registration(&doc),
        Err(_) => None,
    }
}

} // verus!
