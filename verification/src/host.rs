//! The host of the command-line tool: how a `command` guard or action is
//! run and what its outcome says, prompt-file patterns, and the host's
//! handles.

use vstd::prelude::*;

use crate::harness::state::{join_words, join_words_exec, words, words_exec};
use crate::harness::merge::{find_key, key_from, lemma_key_from_bounds, member};
use crate::json::{copy_string, lemma_array_model, lemma_object_model, members, model, models, Json, JsonModel};
use crate::lines::{trim, trimmed};
use crate::text::{append_chars, append_str, chars_of, decimal, string_of};

verus! {

/// The default timeout of a command, in seconds.
pub const DEFAULT_TIMEOUT_SECS: u64 = 60;

/// How many characters of a command's output its outcome keeps.
pub const TAIL_CHARS: usize = 400;

/// Runs `command` guards and actions.
#[derive(Debug, Clone, Copy)]
pub struct Commands;

/// Prompt files from disk, regex patterns and the clock.
#[derive(Debug, Clone, Copy)]
pub struct Files;

/// The system's randomness.
#[derive(Debug, Clone, Copy)]
pub struct OsIds;

/// The end of a command's output on one line: its words joined by single
/// spaces, from the last `TAIL_CHARS` (400) characters of the trimmed text,
/// with `…` in front when that cut anything.
pub open spec fn tail_of(text: Seq<char>) -> Seq<char> {
    let t = trim(text);
    if t.len() > 400 {
        seq!['…'] + join_words(words(t.skip(t.len() - 400)))
    } else {
        join_words(words(t))
    }
}

/// The end of a command's output, on one line.
pub fn tail(text: &str) -> (s: String)
    ensures
        s@ == tail_of(text@),
{
    let chars = chars_of(text);
    let t = trimmed(&chars);
    let cut = t.len() > 400;
    let mut kept: Vec<char> = Vec::new();
    let start: usize = if cut { t.len() - 400 } else { 0 };
    let mut i = start;
    while i < t.len()
        invariant
            start <= i <= t@.len(),
            kept@ == t@.subrange(start as int, i as int),
        decreases t@.len() - i,
    {
        kept.push(t[i]);
        i = i + 1;
        assert(kept@ =~= t@.subrange(start as int, i as int));
    }
    assert(kept@ =~= t@.skip(start as int));
    let ws = words_exec(string_of(&kept).as_str());
    let joined = join_words_exec(&ws);
    let mut out: Vec<char> = Vec::new();
    if cut {
        out.push('…');
    }
    append_chars(&mut out, &joined);
    proof {
        if !cut {
            assert(t@.skip(0) =~= t@);
            assert(out@ =~= joined@);
        } else {
            assert(out@ =~= seq!['…'] + joined@);
        }
    }
    string_of(&out)
}

/// A command's `run` param: a string for the system shell, a list to run
/// directly, or anything else.
#[derive(Debug)]
pub enum RunParam {
    /// A command line for the system shell.
    Shell(String),
    /// A program and its arguments.
    Argv(Vec<String>),
    /// No usable `run` param.
    Missing,
}

/// The program a command runs and its arguments.
#[derive(Debug)]
pub struct Invocation {
    /// The program.
    pub program: String,
    /// Its arguments.
    pub args: Vec<String>,
}

/// The plain value of an invocation.
pub open spec fn invocation_view(i: Invocation) -> (Seq<char>, Seq<Seq<char>>) {
    (i.program@, i.args@.map_values(|a: String| a@))
}

/// What runs a command: a string through `sh -c` (`cmd /C` on Windows), a
/// non-empty list directly; anything else is no command.
pub open spec fn invocation_of(run: RunParam, windows: bool) -> Option<(Seq<char>, Seq<Seq<char>>)> {
    match run {
        RunParam::Shell(s) => Some(
            if windows {
                ("cmd"@, seq!["/C"@, s@])
            } else {
                ("sh"@, seq!["-c"@, s@])
            },
        ),
        RunParam::Argv(v) => if v@.len() > 0 {
            Some((v@[0]@, v@.skip(1).map_values(|a: String| a@)))
        } else {
            None
        },
        RunParam::Missing => None,
    }
}

/// What runs a command: a string through the system shell, a non-empty
/// list directly; anything else is the failure `no run param`.
pub fn invocation(run: &RunParam, windows: bool) -> (r: Result<Invocation, String>)
    ensures
        match invocation_of(*run, windows) {
            Some(v) => r matches Ok(i) && invocation_view(i) == v,
            None => r matches Err(m) && m@ == "no run param"@,
        },
{
    proof {
        reveal_strlit("cmd");
        reveal_strlit("/C");
        reveal_strlit("sh");
        reveal_strlit("-c");
        reveal_strlit("no run param");
    }
    match run {
        RunParam::Shell(s) => {
            let (program, flag) = if windows { ("cmd", "/C") } else { ("sh", "-c") };
            let args = vec![flag.to_string(), copy_string(s)];
            let i = Invocation { program: program.to_string(), args };
            assert(invocation_view(i).1 =~= if windows { seq!["/C"@, s@] } else { seq!["-c"@, s@] });
            Ok(i)
        },
        RunParam::Argv(v) => {
            if v.len() == 0 {
                return Err("no run param".to_string());
            }
            let mut args: Vec<String> = Vec::new();
            let mut k: usize = 1;
            while k < v.len()
                invariant
                    1 <= k <= v@.len(),
                    args@.len() == k - 1,
                    forall|j: int| 0 <= j < k - 1 ==> #[trigger] args@[j]@ == v@[j + 1]@,
                decreases v@.len() - k,
            {
                args.push(copy_string(&v[k]));
                k = k + 1;
            }
            let i = Invocation { program: copy_string(&v[0]), args };
            assert(invocation_view(i).1 =~= v@.skip(1).map_values(|a: String| a@));
            Ok(i)
        },
        RunParam::Missing => Err("no run param".to_string()),
    }
}

/// A command's timeout: `timeoutSecs` when it is a whole number of
/// seconds that is not negative, else the default.
pub open spec fn timeout_of(param: Option<i64>) -> u64 {
    match param {
        Some(n) => if n >= 0 {
            n as u64
        } else {
            DEFAULT_TIMEOUT_SECS
        },
        None => DEFAULT_TIMEOUT_SECS,
    }
}

/// A command's timeout in seconds.
pub fn timeout_secs(param: Option<i64>) -> (s: u64)
    ensures
        s == timeout_of(param),
{
    match param {
        Some(n) => if n >= 0 {
            n as u64
        } else {
            DEFAULT_TIMEOUT_SECS
        },
        None => DEFAULT_TIMEOUT_SECS,
    }
}

/// How a command's run ended.
#[derive(Debug)]
pub enum Ended {
    /// It could not be started: the system's message.
    CouldNotStart(String),
    /// Waiting for it failed: the system's message.
    WaitFailed(String),
    /// It ran past its timeout, of this many seconds, and was killed.
    TimedOut(u64),
    /// It exited: whether it succeeded, and its exit code (`None` when a
    /// signal killed it).
    Exited(bool, Option<i32>),
}

/// The decimal form of an exit code.
pub open spec fn code_text(c: i32) -> Seq<char> {
    if c < 0 {
        seq!['-'] + crate::text::decimal((-c) as nat)
    } else {
        crate::text::decimal(c as nat)
    }
}

/// The outcome of a command: whether it succeeded, and the detail of a
/// failure (`exited <code>` or `killed by a signal`, then `: ` and the
/// tail of its output when there is one).
pub open spec fn outcome_of(ended: Ended, output: Seq<char>) -> (bool, Seq<char>) {
    match ended {
        Ended::CouldNotStart(m) => (false, "could not start: "@ + m@),
        Ended::WaitFailed(m) => (false, "wait failed: "@ + m@),
        Ended::TimedOut(secs) => (false, "timed out after "@ + crate::text::decimal(secs as nat) + "s"@),
        Ended::Exited(ok, code) => if ok {
            (true, Seq::empty())
        } else {
            let how = match code {
                Some(c) => "exited "@ + code_text(c),
                None => "killed by a signal"@,
            };
            let t = tail_of(output);
            (false, if t.len() == 0 { how } else { how + ": "@ + t })
        },
    }
}

/// The outcome of a command from how its run ended and its output.
pub fn outcome(ended: &Ended, output: &str) -> (r: (bool, String))
    ensures
        (r.0, r.1@) == outcome_of(*ended, output@),
{
    proof {
        reveal_strlit("could not start: ");
        reveal_strlit("wait failed: ");
        reveal_strlit("timed out after ");
        reveal_strlit("s");
        reveal_strlit("exited ");
        reveal_strlit("killed by a signal");
        reveal_strlit(": ");
    }
    match ended {
        Ended::CouldNotStart(m) => {
            let mut out = chars_of("could not start: ");
            append_str(&mut out, m.as_str());
            (false, string_of(&out))
        },
        Ended::WaitFailed(m) => {
            let mut out = chars_of("wait failed: ");
            append_str(&mut out, m.as_str());
            (false, string_of(&out))
        },
        Ended::TimedOut(secs) => {
            let mut out = chars_of("timed out after ");
            append_u64(&mut out, *secs);
            append_str(&mut out, "s");
            (false, string_of(&out))
        },
        Ended::Exited(ok, code) => {
            if *ok {
                return (true, String::new());
            }
            let mut how = match code {
                Some(c) => {
                    let mut h = chars_of("exited ");
                    if *c < 0 {
                        h.push('-');
                        let m: i64 = -(*c as i64);
                        append_u64(&mut h, m as u64);
                    } else {
                        append_u64(&mut h, *c as u64);
                    }
                    h
                },
                None => chars_of("killed by a signal"),
            };
            let t = tail(output);
            if t.as_str().is_empty() {
                (false, string_of(&how))
            } else {
                append_str(&mut how, ": ");
                append_str(&mut how, t.as_str());
                (false, string_of(&how))
            }
        },
    }
}

/// Appends the decimal form of `n` to `out`.
fn append_u64(out: &mut Vec<char>, n: u64)
    ensures
        final(out)@ == old(out)@ + crate::text::decimal(n as nat),
    decreases n,
{
    if n < 10 {
        out.push(((n as u8) + 48) as char);
    } else {
        append_u64(out, n / 10);
        out.push((((n % 10) as u8) + 48) as char);
    }
}

/// What compiling `pattern` reports when it fails: `None` when it
/// compiles.
pub uninterp spec fn regex_error(pattern: Seq<char>) -> Option<Seq<char>>;

/// Whether the compiled `pattern` matches somewhere in `value`.
pub uninterp spec fn regex_match(pattern: Seq<char>, value: Seq<char>) -> bool;

/// Whether `pattern` matches `value`, or why `pattern` does not compile.
///
/// Calls `regex::Regex::new` and then `Regex::is_match`; the contract names
/// the compile error and the match, and claims only that each is a function
/// of the pattern (and the value).
#[verifier::external_body]
fn regex_is_match(pattern: &str, value: &str) -> (r: Result<bool, String>)
    ensures
        match regex_error(pattern@) {
            Some(m) => r matches Err(e) && e@ == m,
            None => r == Ok::<bool, String>(regex_match(pattern@, value@)),
        },
{
    match regex::Regex::new(pattern) {
        Ok(re) => Ok(re.is_match(value)),
        Err(e) => Err(e.to_string()),
    }
}

impl Files {
    /// Whether `pattern` matches `value`; a pattern that does not compile
    /// is an error with the compiler's message.
    pub fn is_match(&self, pattern: &str, value: &str) -> (r: Result<bool, String>)
        ensures
            match regex_error(pattern@) {
                Some(m) => r matches Err(e) && e@ == m,
                None => r == Ok::<bool, String>(regex_match(pattern@, value@)),
            },
    {
        regex_is_match(pattern, value)
    }
}

/// The tool description: the agent rules, then how to call the tool.
pub open spec fn description_of(rules: Seq<char>) -> Seq<char> {
    rules + "\n\nCall with { session } alone to see where you are; with { session, event, params } to fire an event. params is an object of strings."@
}

/// The tool description: the full agent rules, then how to call the tool.
pub fn description(rules: &str) -> (s: String)
    ensures
        s@ == description_of(rules@),
{
    let mut out = chars_of(rules);
    append_str(&mut out, "\n\nCall with { session } alone to see where you are; with { session, event, params } to fire an event. params is an object of strings.");
    proof {
        reveal_strlit("\n\nCall with { session } alone to see where you are; with { session, event, params } to fire an event. params is an object of strings.");
    }
    string_of(&out)
}

/// `{"type": <t>, "description": <d>}`.
pub open spec fn typed(t: Seq<char>, d: Seq<char>) -> JsonModel {
    JsonModel::Object(seq![("type"@, JsonModel::Str(t)), ("description"@, JsonModel::Str(d))])
}

/// The tool's input schema: an object with a required string `session`,
/// an optional string `event`, and optional `params`, an object of
/// strings.
pub open spec fn input_schema_of() -> JsonModel {
    JsonModel::Object(
        seq![
            ("type"@, JsonModel::Str("object"@)),
            (
                "properties"@,
                JsonModel::Object(
                    seq![
                        (
                            "session"@,
                            typed("string"@, "The session key from the latest <smllm> header, e.g. sm-k7f3q2."@),
                        ),
                        ("event"@, typed("string"@, "The event to fire; omit to see where you are."@)),
                        (
                            "params"@,
                            JsonModel::Object(
                                seq![
                                    ("type"@, JsonModel::Str("object"@)),
                                    ("description"@, JsonModel::Str("The event's params."@)),
                                    (
                                        "additionalProperties"@,
                                        JsonModel::Object(seq![("type"@, JsonModel::Str("string"@))]),
                                    ),
                                ],
                            ),
                        ),
                    ],
                ),
            ),
            ("required"@, JsonModel::Array(seq![JsonModel::Str("session"@)])),
        ],
    )
}

/// A JSON object of the members given, in order.
fn object(m: Vec<(String, Json)>) -> (j: Json)
    ensures
        model(j) == JsonModel::Object(members(m@)),
{
    proof {
        lemma_object_model(m);
    }
    Json::Object(m)
}

/// `{"type": <t>, "description": <d>}`.
fn typed_json(t: &str, d: &str) -> (j: Json)
    ensures
        model(j) == typed(t@, d@),
{
    proof {
        reveal_strlit("type");
        reveal_strlit("description");
    }
    let j = object(vec![("type".to_string(), Json::Str(t.to_string())), ("description".to_string(), Json::Str(d.to_string()))]);
    assert(model(j)->Object_0 =~= typed(t@, d@)->Object_0);
    j
}

/// The tool's input schema: an object with a required string `session`,
/// an optional string `event`, and optional `params`, an object of
/// strings.
pub fn input_schema() -> (j: Json)
    ensures
        model(j) == input_schema_of(),
{
    proof {
        reveal_strlit("type");
        reveal_strlit("object");
        reveal_strlit("properties");
        reveal_strlit("session");
        reveal_strlit("string");
        reveal_strlit("The session key from the latest <smllm> header, e.g. sm-k7f3q2.");
        reveal_strlit("event");
        reveal_strlit("The event to fire; omit to see where you are.");
        reveal_strlit("params");
        reveal_strlit("description");
        reveal_strlit("The event's params.");
        reveal_strlit("additionalProperties");
        reveal_strlit("required");
    }
    let strings = object(vec![("type".to_string(), Json::Str("string".to_string()))]);
    assert(model(strings)->Object_0 =~= seq![("type"@, JsonModel::Str("string"@))]);
    let params = object(vec![
        ("type".to_string(), Json::Str("object".to_string())),
        ("description".to_string(), Json::Str("The event's params.".to_string())),
        ("additionalProperties".to_string(), strings),
    ]);
    let ghost pm = model(params);
    let session = typed_json("string", "The session key from the latest <smllm> header, e.g. sm-k7f3q2.");
    let event = typed_json("string", "The event to fire; omit to see where you are.");
    let properties = object(vec![
        ("session".to_string(), session),
        ("event".to_string(), event),
        ("params".to_string(), params),
    ]);
    let required_items = vec![Json::Str("session".to_string())];
    proof {
        lemma_array_model(required_items);
    }
    let required = Json::Array(required_items);
    assert(model(required)->Array_0 =~= seq![JsonModel::Str("session"@)]);
    let j = object(vec![
        ("type".to_string(), Json::Str("object".to_string())),
        ("properties".to_string(), properties),
        ("required".to_string(), required),
    ]);
    assert(pm->Object_0 =~= input_schema_of()->Object_0[1].1->Object_0[2].1->Object_0);
    assert(model(properties)->Object_0 =~= input_schema_of()->Object_0[1].1->Object_0);
    assert(model(j)->Object_0 =~= input_schema_of()->Object_0);
    j
}

/// The arguments of a tool call.
#[derive(Debug)]
pub struct CallArgs {
    /// The session key; `None` when absent, null or empty.
    pub session: Option<String>,
    /// The event to fire; `None` when absent, null or empty.
    pub event: Option<String>,
    /// The event's params, in order.
    pub params: Vec<(String, String)>,
}

/// A string argument: `None` when absent, null or empty; a refusal when
/// it is not a string.
pub open spec fn str_arg(args: Seq<(Seq<char>, JsonModel)>, k: Seq<char>) -> Result<Option<Seq<char>>, Seq<char>> {
    match member(JsonModel::Object(args), k) {
        None => Ok(None),
        Some(JsonModel::Null) => Ok(None),
        Some(JsonModel::Str(s)) => if s.len() == 0 {
            Ok(None)
        } else {
            Ok(Some(s))
        },
        Some(_) => Err(k + " must be a string"@),
    }
}

/// The first member at or after `from` whose value is not a string.
pub open spec fn first_not_string(m: Seq<(Seq<char>, JsonModel)>, from: int) -> Option<int>
    decreases m.len() - from,
{
    if from < 0 || from >= m.len() {
        None
    } else if m[from].1 is Str {
        first_not_string(m, from + 1)
    } else {
        Some(from)
    }
}

/// The params: none when absent or null; each member of an object of
/// strings; a refusal otherwise.
pub open spec fn params_arg(args: Seq<(Seq<char>, JsonModel)>) -> Result<Seq<(Seq<char>, Seq<char>)>, Seq<char>> {
    match member(JsonModel::Object(args), "params"@) {
        None => Ok(Seq::empty()),
        Some(JsonModel::Null) => Ok(Seq::empty()),
        Some(JsonModel::Object(m)) => match first_not_string(m, 0) {
            Some(k) => Err("param "@ + m[k].0 + " must be a string"@),
            None => Ok(m.map_values(|e: (Seq<char>, JsonModel)| (e.0, e.1->Str_0))),
        },
        Some(_) => Err("params must be an object of strings"@),
    }
}

/// The arguments of a tool call from its JSON object: `session`, `event`
/// and `params`, checked in that order.
pub open spec fn call_args_of(args: Seq<(Seq<char>, JsonModel)>) -> Result<(Option<Seq<char>>, Option<Seq<char>>, Seq<(Seq<char>, Seq<char>)>), Seq<char>> {
    match str_arg(args, "session"@) {
        Err(e) => Err(e),
        Ok(s) => match str_arg(args, "event"@) {
            Err(e) => Err(e),
            Ok(ev) => match params_arg(args) {
                Err(e) => Err(e),
                Ok(p) => Ok((s, ev, p)),
            },
        },
    }
}

/// The plain value of optional text.
pub open spec fn opt_text(s: Option<String>) -> Option<Seq<char>> {
    match s {
        Some(x) => Some(x@),
        None => None,
    }
}

/// A string argument of a tool call.
fn str_arg_exec(args: &Vec<(String, Json)>, k: &str) -> (r: Result<Option<String>, String>)
    ensures
        match str_arg(members(args@), k@) {
            Ok(o) => r matches Ok(x) && opt_text(x) == o,
            Err(e) => r matches Err(x) && x@ == e,
        },
{
    proof {
        reveal_strlit(" must be a string");
    }
    let key = k.to_string();
    proof {
        lemma_key_from_bounds(members(args@), key@, 0);
    }
    let i = find_key(args, &key);
    if i >= args.len() {
        return Ok(None);
    }
    assert(members(args@)[i as int].1 == model(args@[i as int].1));
    match &args[i].1 {
        Json::Null => Ok(None),
        Json::Str(s) => if s.as_str().is_empty() {
            Ok(None)
        } else {
            Ok(Some(copy_string(s)))
        },
        _ => {
            let mut m = chars_of(k);
            append_str(&mut m, " must be a string");
            Err(string_of(&m))
        },
    }
}

/// The arguments of a tool call from its JSON object: `session` and
/// `event`, strings that count as absent when null or empty, and `params`,
/// an object of strings; the message of the first argument of another
/// type.
#[verifier::spinoff_prover]
pub fn call_args(args: &Vec<(String, Json)>) -> (r: Result<CallArgs, String>)
    ensures
        match call_args_of(members(args@)) {
            Ok((s, ev, p)) => r matches Ok(c) && opt_text(c.session) == s && opt_text(c.event) == ev
                && c.params@.map_values(|e: (String, String)| (e.0@, e.1@)) == p,
            Err(e) => r matches Err(x) && x@ == e,
        },
{
    proof {
        reveal_strlit("session");
        reveal_strlit("event");
        reveal_strlit("params");
        reveal_strlit("param ");
        reveal_strlit(" must be a string");
        reveal_strlit("params must be an object of strings");
    }
    let session = str_arg_exec(args, "session")?;
    let event = str_arg_exec(args, "event")?;
    let key = "params".to_string();
    proof {
        lemma_key_from_bounds(members(args@), key@, 0);
    }
    let i = find_key(args, &key);
    let mut params: Vec<(String, String)> = Vec::new();
    if i < args.len() {
        assert(members(args@)[i as int].1 == model(args@[i as int].1));
        match &args[i].1 {
            Json::Null => {},
            Json::Object(m) => {
                proof {
                    crate::json::lemma_object_model(*m);
                }
                let ghost mv = members(m@);
                let ghost av = members(args@);
                assert(member(JsonModel::Object(av), "params"@) == Some(JsonModel::Object(mv)));
                let mut k: usize = 0;
                while k < m.len()
                    invariant
                        k <= m@.len(),
                        mv == members(m@),
                        av == members(args@),
                        str_arg(av, "session"@) is Ok,
                        str_arg(av, "event"@) is Ok,
                        member(JsonModel::Object(av), "params"@) == Some(JsonModel::Object(mv)),
                        first_not_string(mv, 0) == first_not_string(mv, k as int),
                        params@.len() == k,
                        forall|j: int| 0 <= j < k ==> #[trigger] params@[j].0@ == mv[j].0 && params@[j].1@ == mv[j].1->Str_0,
                    decreases m@.len() - k,
                {
                    assert(mv[k as int] == (m@[k as int].0@, model(m@[k as int].1)));
                    let v = match &m[k].1 {
                        Json::Str(v) => v,
                        _ => {
                            let mut msg = chars_of("param ");
                            append_str(&mut msg, m[k].0.as_str());
                            append_str(&mut msg, " must be a string");
                            return Err(string_of(&msg));
                        },
                    };
                    let name = copy_string(&m[k].0);
                    let text = copy_string(v);
                    let ghost before = params@;
                    params.push((name, text));
                    assert forall|j: int| 0 <= j < k + 1 implies #[trigger] params@[j].0@ == mv[j].0 && params@[j].1@
                        == mv[j].1->Str_0 by {
                        if j < k {
                            assert(params@[j] == before[j]);
                        }
                    }
                    k = k + 1;
                }
                assert(params@.map_values(|e: (String, String)| (e.0@, e.1@)) =~= mv.map_values(
                    |e: (Seq<char>, JsonModel)| (e.0, e.1->Str_0),
                ));
            },
            _ => return Err("params must be an object of strings".to_string()),
        }
    }
    Ok(CallArgs { session, event, params })
}

/// A list of words runs its first word with every word after it as the
/// arguments, in order, none dropped: the program then the arguments are
/// the whole list. A string runs through the shell as its last argument.
pub proof fn law_argv_runs_every_word(v: Vec<String>, windows: bool)
    ensures
        v@.len() > 0 ==> (invocation_of(RunParam::Argv(v), windows) matches Some((p, a)) && (seq![p] + a
            == v@.map_values(|s: String| s@))),
        v@.len() == 0 ==> invocation_of(RunParam::Argv(v), windows) is None,
{
    if v@.len() > 0 {
        let (p, a) = invocation_of(RunParam::Argv(v), windows)->Some_0;
        assert(seq![p] + a =~= v@.map_values(|s: String| s@));
    }
}

} // verus!
