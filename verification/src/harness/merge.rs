//! The `merge` kind: the tool owns entries in the user's JSON file, named by
//! data-driven operations. Key order, the file's indent and its trailing
//! newline are kept.

use vstd::prelude::*;

use crate::json::{json_parsed, json_text, json_text_of, copy_json, copy_string, json_eq, lemma_array_model, lemma_object_model, members, model, models, parse_json_text, same_json, Json, JsonModel};
use crate::lines::{leading_ws_len, split_lines, split_lines_exec, lines_view, is_ws_char};
use crate::error::{Error, ErrorView};
use crate::text::{append_chars, append_str, chars_of, starts_with, str_eq, string_of};

verus! {

/// One entry the tool owns in a JSON file.
#[derive(Debug)]
pub enum MergeOp {
    /// `value` is present once in the array at `path`, e.g.
    /// `["permissions", "allow"]`. Found by equality.
    ArrayEntry {
        /// The keys from the top-level object to the array.
        path: Vec<String>,
        /// The entry.
        value: Json,
    },
    /// The member `key` of the object at `path` is `value`, e.g. `smllm`
    /// under `["mcpServers"]`. Found by its key.
    ObjectMember {
        /// The keys from the top-level object to the object; empty for the
        /// top-level object itself.
        path: Vec<String>,
        /// The member's key.
        key: String,
        /// The member's value.
        value: Json,
    },
    /// The tool's group under `hooks.<event>` is `group`: it replaces the
    /// group one of whose `hooks[].command` starts with `command_prefix`, or
    /// is appended.
    HookGroup {
        /// The hook event, e.g. `Stop` or `SessionStart`.
        event: String,
        /// The prefix that identifies the tool's command.
        command_prefix: String,
        /// The group, e.g. `{"hooks": [{"type": "command", "command": …}]}`.
        group: Json,
    },
}

/// An operation as plain values.
pub enum OpModel {
    ArrayEntry(Seq<Seq<char>>, JsonModel),
    ObjectMember(Seq<Seq<char>>, Seq<char>, JsonModel),
    HookGroup(Seq<char>, Seq<char>, JsonModel),
}

/// The characters of each string.
pub open spec fn strings_view(v: Seq<String>) -> Seq<Seq<char>> {
    v.map_values(|s: String| s@)
}

/// The plain value of an operation.
pub open spec fn op_model(op: MergeOp) -> OpModel {
    match op {
        MergeOp::ArrayEntry { path, value } => OpModel::ArrayEntry(strings_view(path@), model(value)),
        MergeOp::ObjectMember { path, key, value } => OpModel::ObjectMember(
            strings_view(path@),
            key@,
            model(value),
        ),
        MergeOp::HookGroup { event, command_prefix, group } => OpModel::HookGroup(
            event@,
            command_prefix@,
            model(group),
        ),
    }
}

/// The value an operation writes.
pub open spec fn op_value(op: OpModel) -> JsonModel {
    match op {
        OpModel::ArrayEntry(_, v) => v,
        OpModel::ObjectMember(_, _, v) => v,
        OpModel::HookGroup(_, _, g) => g,
    }
}

/// The non-empty fields of `p` between dots, `cur` being the field read so
/// far.
pub open spec fn fields_from(p: Seq<char>, cur: Seq<char>) -> Seq<Seq<char>>
    decreases p.len(),
{
    if p.len() == 0 {
        if cur.len() > 0 {
            seq![cur]
        } else {
            Seq::empty()
        }
    } else if p[0] == '.' {
        (if cur.len() > 0 {
            seq![cur]
        } else {
            Seq::empty()
        }) + fields_from(p.skip(1), Seq::empty())
    } else {
        fields_from(p.skip(1), cur.push(p[0]))
    }
}

/// A dotted path such as `permissions.allow` as its keys; empty fields are
/// dropped.
pub open spec fn split_path(p: Seq<char>) -> Seq<Seq<char>> {
    fields_from(p, Seq::empty())
}

/// The keys of a dotted path.
fn split(path: &str) -> (out: Vec<String>)
    ensures
        strings_view(out@) == split_path(path@),
{
    let chars = chars_of(path);
    let mut out: Vec<String> = Vec::new();
    let mut cur: Vec<char> = Vec::new();
    let mut i: usize = 0;
    assert(chars@.skip(0) == chars@);
    while i < chars.len()
        invariant
            i <= chars.len(),
            chars@ == path@,
            split_path(path@) == strings_view(out@) + fields_from(chars@.skip(i as int), cur@),
        decreases chars.len() - i,
    {
        let c = chars[i];
        assert(chars@.skip(i as int).skip(1) == chars@.skip(i + 1));
        if c == '.' {
            if cur.len() > 0 {
                let s = string_of(&cur);
                proof {
                    assert(strings_view(out@.push(s)) == strings_view(out@).push(s@));
                    assert(strings_view(out@).push(s@) + fields_from(chars@.skip(i + 1), Seq::empty())
                        == strings_view(out@) + (seq![cur@] + fields_from(chars@.skip(i + 1), Seq::empty())));
                }
                out.push(s);
            } else {
                assert(Seq::<Seq<char>>::empty() + fields_from(chars@.skip(i + 1), Seq::empty())
                    == fields_from(chars@.skip(i + 1), Seq::empty()));
            }
            cur = Vec::new();
        } else {
            cur.push(c);
        }
        i = i + 1;
    }
    if cur.len() > 0 {
        let s = string_of(&cur);
        proof {
            assert(strings_view(out@.push(s)) == strings_view(out@).push(s@));
            assert(strings_view(out@).push(s@) == strings_view(out@) + seq![cur@]);
        }
        out.push(s);
    } else {
        assert(strings_view(out@) + Seq::<Seq<char>>::empty() == strings_view(out@));
    }
    out
}

/// The JSON string `s`.
fn json_str(s: &str) -> (j: Json)
    ensures
        model(j) == JsonModel::Str(s@),
{
    Json::Str(s.to_string())
}

/// The hook group with a single command hook.
pub open spec fn command_group(command: Seq<char>) -> JsonModel {
    JsonModel::Object(
        seq![
            (
                "hooks"@,
                JsonModel::Array(
                    seq![
                        JsonModel::Object(
                            seq![("type"@, JsonModel::Str("command"@)), ("command"@, JsonModel::Str(command))],
                        ),
                    ],
                ),
            ),
        ],
    )
}

impl MergeOp {
    /// An [`MergeOp::ArrayEntry`] at a dotted path such as
    /// `permissions.allow`.
    pub fn array_entry(path: &str, value: Json) -> (op: Self)
        ensures
            op_model(op) == OpModel::ArrayEntry(split_path(path@), model(value)),
    {
        MergeOp::ArrayEntry { path: split(path), value }
    }

    /// An [`MergeOp::ObjectMember`] of the object at a dotted path such as
    /// `mcpServers` (`""` for the top level).
    pub fn object_member(path: &str, key: &str, value: Json) -> (op: Self)
        ensures
            op_model(op) == OpModel::ObjectMember(split_path(path@), key@, model(value)),
    {
        MergeOp::ObjectMember { path: split(path), key: key.to_string(), value }
    }

    /// A [`MergeOp::HookGroup`] with a single command hook: `{"hooks":
    /// [{"type": "command", "command": command}]}`.
    pub fn hook_command(event: &str, command_prefix: &str, command: &str) -> (op: Self)
        ensures
            op_model(op) == OpModel::HookGroup(event@, command_prefix@, command_group(command@)),
    {
        let hook = Json::Object(vec![
            ("type".to_string(), json_str("command")),
            ("command".to_string(), json_str(command)),
        ]);
        let ghost hm = model(hook);
        proof {
            reveal_strlit("type");
            reveal_strlit("command");
            reveal_strlit("hooks");
            assert(hm->Object_0 =~= seq![
                ("type"@, JsonModel::Str("command"@)),
                ("command"@, JsonModel::Str(command@)),
            ]);
        }
        let hooks = Json::Array(vec![hook]);
        assert(model(hooks)->Array_0 =~= seq![hm]);
        let group = Json::Object(vec![("hooks".to_string(), hooks)]);
        assert(model(group)->Object_0 =~= command_group(command@)->Object_0);
        let op = MergeOp::HookGroup {
            event: event.to_string(),
            command_prefix: command_prefix.to_string(),
            group,
        };
        op
    }

    /// The value the operation writes.
    pub fn value(&self) -> (v: &Json)
        ensures
            model(*v) == op_value(op_model(*self)),
    {
        match self {
            MergeOp::ArrayEntry { value, .. } => value,
            MergeOp::ObjectMember { value, .. } => value,
            MergeOp::HookGroup { group, .. } => group,
        }
    }
}

/// `l` without the CR that ends it, as `str::lines` gives a line.
pub open spec fn strip_cr(l: Seq<char>) -> Seq<char> {
    if l.len() > 0 && l.last() == '\r' {
        l.drop_last()
    } else {
        l
    }
}

/// Whether a line starts with a space or a tab.
pub open spec fn is_indented(l: Seq<char>) -> bool {
    l.len() > 0 && (l[0] == ' ' || l[0] == '\t')
}

/// The first line at or after `from` that starts with a space or a tab.
pub open spec fn first_indented(ls: Seq<Seq<char>>, from: int) -> Option<int>
    decreases ls.len() - from,
{
    if from < 0 || from >= ls.len() {
        None
    } else if is_indented(strip_cr(ls[from])) {
        Some(from)
    } else {
        first_indented(ls, from + 1)
    }
}

/// The indent of a text: the leading whitespace of its first indented line,
/// or two spaces.
pub open spec fn indent_of_text(t: Seq<char>) -> Seq<char> {
    let ls = split_lines(t);
    match first_indented(ls, 0) {
        Some(i) => {
            let l = strip_cr(ls[i]);
            l.take(leading_ws_len(l) as int)
        },
        None => "  "@,
    }
}

proof fn lemma_first_indented_bounds(ls: Seq<Seq<char>>, from: int)
    ensures
        first_indented(ls, from) matches Some(i) ==> from <= i < ls.len() && is_indented(strip_cr(ls[i])),
    decreases ls.len() - from,
{
    if 0 <= from < ls.len() && !is_indented(strip_cr(ls[from])) {
        lemma_first_indented_bounds(ls, from + 1);
    }
}

proof fn lemma_leading_ws_take(s: Seq<char>, k: int)
    requires
        0 <= k <= s.len(),
        forall|j: int| 0 <= j < k ==> crate::lines::is_ws(#[trigger] s[j]),
        k == s.len() || !crate::lines::is_ws(s[k]),
    ensures
        leading_ws_len(s) == k,
    decreases k,
{
    if k > 0 {
        lemma_leading_ws_take(s.skip(1), k - 1);
    }
}

/// The indent of a file: the leading whitespace of its first indented line,
/// or two spaces.
pub fn indent_of(text: &str) -> (s: String)
    ensures
        s@ == indent_of_text(text@),
{
    let chars = chars_of(text);
    let ls = split_lines_exec(&chars);
    let mut i: usize = 0;
    proof {
        reveal_strlit("  ");
    }
    while i < ls.len()
        invariant
            i <= ls.len(),
            chars@ == text@,
            lines_view(ls@) == split_lines(text@),
            first_indented(split_lines(text@), 0) == first_indented(split_lines(text@), i as int),
        decreases ls.len() - i,
    {
        let l = &ls[i];
        let mut n = l.len();
        if n > 0 && l[n - 1] == '\r' {
            n = n - 1;
        }
        assert(l@.take(n as int) == strip_cr(l@));
        if n > 0 && (l[0] == ' ' || l[0] == '\t') {
            let mut k: usize = 0;
            while k < n && is_ws_char(l[k])
                invariant
                    k <= n,
                    n <= l@.len(),
                    forall|j: int| 0 <= j < k ==> crate::lines::is_ws(#[trigger] l@[j]),
                decreases n - k,
            {
                k = k + 1;
            }
            let mut out: Vec<char> = Vec::new();
            let mut j: usize = 0;
            while j < k
                invariant
                    j <= k,
                    k <= n,
                    n <= l@.len(),
                    out@ == l@.take(j as int),
                decreases k - j,
            {
                out.push(l[j]);
                j = j + 1;
                assert(out@ == l@.take(j as int));
            }
            proof {
                let sl = strip_cr(l@);
                assert(sl == l@.take(n as int));
                assert forall|j: int| 0 <= j < k implies crate::lines::is_ws(#[trigger] sl[j]) by {
                    assert(sl[j] == l@[j]);
                }
                if k < n {
                    assert(sl[k as int] == l@[k as int]);
                }
                lemma_leading_ws_take(sl, k as int);
                assert(out@ == sl.take(k as int));
                assert(split_lines(text@)[i as int] == l@);
            }
            return string_of(&out);
        }
        proof {
            assert(split_lines(text@)[i as int] == l@);
        }
        i = i + 1;
    }
    "  ".to_string()
}

/// The index of the first member of `x` at or after `from` whose key is
/// `key`; `x.len()` when there is none.
pub open spec fn key_from(x: Seq<(Seq<char>, JsonModel)>, key: Seq<char>, from: int) -> int
    decreases x.len() - from,
{
    if from < 0 || from >= x.len() {
        x.len() as int
    } else if x[from].0 == key {
        from
    } else {
        key_from(x, key, from + 1)
    }
}

/// The member `key` of `m`; `None` when `m` is not an object or has no
/// such member.
pub open spec fn member(m: JsonModel, key: Seq<char>) -> Option<JsonModel> {
    match m {
        JsonModel::Object(x) => {
            let k = key_from(x, key, 0);
            if 0 <= k < x.len() {
                Some(x[k].1)
            } else {
                None
            }
        },
        _ => None,
    }
}

/// The members `x` with member `key` set to `v`: in place when present,
/// appended otherwise.
pub open spec fn set_member(x: Seq<(Seq<char>, JsonModel)>, key: Seq<char>, v: JsonModel) -> Seq<(Seq<char>, JsonModel)> {
    let k = key_from(x, key, 0);
    if 0 <= k < x.len() {
        x.update(k, (key, v))
    } else {
        x.push((key, v))
    }
}

/// The value at `path` in `m`, when every step is an object member.
pub open spec fn at_path(m: JsonModel, path: Seq<Seq<char>>) -> Option<JsonModel>
    decreases path.len(),
{
    if path.len() == 0 {
        Some(m)
    } else {
        match member(m, path[0]) {
            Some(v) => at_path(v, path.skip(1)),
            None => None,
        }
    }
}

/// The index of the first element of `x` at or after `from` equal to `v`;
/// `x.len()` when there is none.
pub open spec fn eq_from(x: Seq<JsonModel>, v: JsonModel, from: int) -> int
    decreases x.len() - from,
{
    if from < 0 || from >= x.len() {
        x.len() as int
    } else if json_eq(x[from], v) {
        from
    } else {
        eq_from(x, v, from + 1)
    }
}

/// Whether a hook runs a command that starts with `prefix`.
pub open spec fn is_tool_hook(h: JsonModel, prefix: Seq<char>) -> bool {
    match member(h, "command"@) {
        Some(JsonModel::Str(c)) => prefix.is_prefix_of(c),
        _ => false,
    }
}

/// Whether a hook group is the tool's: one of its commands starts with the
/// prefix.
pub open spec fn is_tool_group(g: JsonModel, prefix: Seq<char>) -> bool {
    match member(g, "hooks"@) {
        Some(JsonModel::Array(hs)) => exists|i: int| 0 <= i < hs.len() && #[trigger] is_tool_hook(hs[i], prefix),
        _ => false,
    }
}

/// The index of the first of the tool's groups in `x` at or after `from`;
/// `x.len()` when there is none.
pub open spec fn group_from(x: Seq<JsonModel>, prefix: Seq<char>, from: int) -> int
    decreases x.len() - from,
{
    if from < 0 || from >= x.len() {
        x.len() as int
    } else if is_tool_group(x[from], prefix) {
        from
    } else {
        group_from(x, prefix, from + 1)
    }
}

/// The path of the hook groups of `event`.
pub open spec fn hooks_path(event: Seq<char>) -> Seq<Seq<char>> {
    seq!["hooks"@, event]
}

/// The tool's entry of `op` as found in `doc`; `None` when it is not there.
pub open spec fn extracted(doc: JsonModel, op: OpModel) -> Option<JsonModel> {
    match op {
        OpModel::ArrayEntry(path, value) => match at_path(doc, path) {
            Some(JsonModel::Array(x)) => {
                let k = eq_from(x, value, 0);
                if 0 <= k < x.len() {
                    Some(x[k])
                } else {
                    None
                }
            },
            _ => None,
        },
        OpModel::ObjectMember(path, key, _) => match at_path(doc, path) {
            Some(o) => member(o, key),
            None => None,
        },
        OpModel::HookGroup(event, prefix, _) => match at_path(doc, hooks_path(event)) {
            Some(JsonModel::Array(x)) => {
                let k = group_from(x, prefix, 0);
                if 0 <= k < x.len() {
                    Some(x[k])
                } else {
                    None
                }
            },
            _ => None,
        },
    }
}

pub proof fn lemma_key_from_bounds(x: Seq<(Seq<char>, JsonModel)>, key: Seq<char>, from: int)
    requires
        0 <= from,
    ensures
        from <= key_from(x, key, from) <= x.len() || (from > x.len() && key_from(x, key, from) == x.len()),
        key_from(x, key, from) < x.len() ==> x[key_from(x, key, from)].0 == key,
        forall|j: int| from <= j < key_from(x, key, from) ==> #[trigger] x[j].0 != key,
    decreases x.len() - from,
{
    if from < x.len() && x[from].0 != key {
        lemma_key_from_bounds(x, key, from + 1);
    }
}

proof fn lemma_eq_from_bounds(x: Seq<JsonModel>, v: JsonModel, from: int)
    requires
        0 <= from <= x.len(),
    ensures
        from <= eq_from(x, v, from) <= x.len(),
        eq_from(x, v, from) < x.len() ==> json_eq(x[eq_from(x, v, from)], v),
        eq_from(x, v, from) == x.len() ==> forall|j: int| from <= j < x.len() ==> !json_eq(#[trigger] x[j], v),
    decreases x.len() - from,
{
    if from < x.len() && !json_eq(x[from], v) {
        lemma_eq_from_bounds(x, v, from + 1);
    }
}

proof fn lemma_group_from_bounds(x: Seq<JsonModel>, prefix: Seq<char>, from: int)
    requires
        0 <= from <= x.len(),
    ensures
        from <= group_from(x, prefix, from) <= x.len(),
        group_from(x, prefix, from) < x.len() ==> is_tool_group(x[group_from(x, prefix, from)], prefix),
        forall|j: int| from <= j < group_from(x, prefix, from) ==> !is_tool_group(#[trigger] x[j], prefix),
    decreases x.len() - from,
{
    if from < x.len() && !is_tool_group(x[from], prefix) {
        lemma_group_from_bounds(x, prefix, from + 1);
    }
}

/// The index of the member `key` of the object `obj`; its length when there
/// is none.
pub(crate) fn find_key(obj: &Vec<(String, Json)>, key: &String) -> (k: usize)
    ensures
        k == key_from(members(obj@), key@, 0),
        k <= obj@.len(),
{
    let mut i: usize = 0;
    while i < obj.len()
        invariant
            i <= obj.len(),
            key_from(members(obj@), key@, 0) == key_from(members(obj@), key@, i as int),
        decreases obj.len() - i,
    {
        if obj[i].0 == *key {
            return i;
        }
        i = i + 1;
    }
    i
}

/// The member `key` of `m`, when `m` is an object that has one.
pub(crate) fn get_member<'a>(m: &'a Json, key: &String) -> (r: Option<&'a Json>)
    ensures
        match r {
            Some(v) => member(model(*m), key@) == Some(model(*v)),
            None => member(model(*m), key@) is None,
        },
{
    match m {
        Json::Object(x) => {
            proof {
                lemma_object_model(*x);
                lemma_key_from_bounds(members(x@), key@, 0);
            }
            let k = find_key(x, key);
            if k < x.len() {
                Some(&x[k].1)
            } else {
                None
            }
        },
        _ => None,
    }
}

/// The value at `path[depth..]` in `m`, when every step is an object member.
fn get_at<'a>(m: &'a Json, path: &Vec<String>, depth: usize) -> (r: Option<&'a Json>)
    requires
        depth <= path@.len(),
    ensures
        match r {
            Some(v) => at_path(model(*m), strings_view(path@).skip(depth as int)) == Some(model(*v)),
            None => at_path(model(*m), strings_view(path@).skip(depth as int)) is None,
        },
    decreases path@.len() - depth,
{
    let ghost rest = strings_view(path@).skip(depth as int);
    if depth == path.len() {
        assert(rest.len() == 0);
        return Some(m);
    }
    assert(rest[0] == path@[depth as int]@);
    assert(rest.skip(1) =~= strings_view(path@).skip(depth + 1));
    match get_member(m, &path[depth]) {
        Some(v) => get_at(v, path, depth + 1),
        None => None,
    }
}

/// The index of the first element of `x` equal to `v`; its length when there
/// is none.
fn find_equal(x: &Vec<Json>, v: &Json) -> (k: usize)
    ensures
        k == eq_from(models(x@), model(*v), 0),
{
    let mut i: usize = 0;
    while i < x.len()
        invariant
            i <= x.len(),
            eq_from(models(x@), model(*v), 0) == eq_from(models(x@), model(*v), i as int),
        decreases x.len() - i,
    {
        if same_json(&x[i], v) {
            return i;
        }
        i = i + 1;
    }
    i
}

/// Whether a hook runs a command that starts with `prefix`.
fn tool_hook(h: &Json, prefix: &str) -> (r: bool)
    ensures
        r == is_tool_hook(model(*h), prefix@),
{
    let key = "command".to_string();
    proof {
        reveal_strlit("command");
    }
    match get_member(h, &key) {
        Some(Json::Str(c)) => starts_with(c.as_str(), prefix),
        _ => false,
    }
}

proof fn lemma_tool_group(g: JsonModel, prefix: Seq<char>, hs: Seq<JsonModel>, i: int)
    requires
        member(g, "hooks"@) == Some(JsonModel::Array(hs)),
        0 <= i < hs.len(),
        is_tool_hook(hs[i], prefix),
    ensures
        is_tool_group(g, prefix),
{
    assert(exists|j: int| 0 <= j < hs.len() && #[trigger] is_tool_hook(hs[j], prefix));
    let m = member(g, "hooks"@);
    assert(m matches Some(JsonModel::Array(h2)) && h2 == hs);
}

/// Whether a hook group is the tool's.
fn tool_group(g: &Json, prefix: &str) -> (r: bool)
    ensures
        r == is_tool_group(model(*g), prefix@),
{
    let key = "hooks".to_string();
    proof {
        reveal_strlit("hooks");
    }
    let found = get_member(g, &key);
    match found {
        Some(Json::Array(hs)) => {
            proof {
                lemma_array_model(*hs);
                assert(member(model(*g), "hooks"@) == Some(JsonModel::Array(models(hs@))));
            }
            let mut i: usize = 0;
            while i < hs.len()
                invariant
                    i <= hs.len(),
                    member(model(*g), "hooks"@) == Some(JsonModel::Array(models(hs@))),
                    forall|j: int| 0 <= j < i ==> !is_tool_hook(#[trigger] models(hs@)[j], prefix@),
                decreases hs.len() - i,
            {
                if tool_hook(&hs[i], prefix) {
                    proof {
                        lemma_tool_group(model(*g), prefix@, models(hs@), i as int);
                    }
                    return true;
                }
                i = i + 1;
            }
            false
        },
        _ => false,
    }
}

/// The index of the first of the tool's groups in `x`; its length when
/// there is none.
fn find_group(x: &Vec<Json>, prefix: &str) -> (k: usize)
    ensures
        k == group_from(models(x@), prefix@, 0),
{
    let mut i: usize = 0;
    while i < x.len()
        invariant
            i <= x.len(),
            group_from(models(x@), prefix@, 0) == group_from(models(x@), prefix@, i as int),
        decreases x.len() - i,
    {
        if tool_group(&x[i], prefix) {
            return i;
        }
        i = i + 1;
    }
    i
}

/// The hook groups of `event` in `doc`.
fn hook_groups<'a>(doc: &'a Json, event: &String) -> (r: Option<&'a Json>)
    ensures
        match r {
            Some(v) => at_path(model(*doc), hooks_path(event@)) == Some(model(*v)),
            None => at_path(model(*doc), hooks_path(event@)) is None,
        },
{
    let path = vec!["hooks".to_string(), event.clone()];
    proof {
        reveal_strlit("hooks");
        assert(strings_view(path@).skip(0) =~= hooks_path(event@));
    }
    get_at(doc, &path, 0)
}

/// The tool's entry of `op` as found in `doc`; `None` when it is not there.
pub fn extract(doc: &Json, op: &MergeOp) -> (r: Option<Json>)
    ensures
        match r {
            Some(v) => extracted(model(*doc), op_model(*op)) == Some(model(v)),
            None => extracted(model(*doc), op_model(*op)) is None,
        },
{
    match op {
        MergeOp::ArrayEntry { path, value } => {
            assert(strings_view(path@).skip(0) =~= strings_view(path@));
            match get_at(doc, path, 0) {
                Some(Json::Array(x)) => {
                    proof {
                        lemma_array_model(*x);
                        lemma_eq_from_bounds(models(x@), model(*value), 0);
                    }
                    let k = find_equal(x, value);
                    if k < x.len() {
                        Some(copy_json(&x[k]))
                    } else {
                        None
                    }
                },
                _ => None,
            }
        },
        MergeOp::ObjectMember { path, key, .. } => {
            assert(strings_view(path@).skip(0) =~= strings_view(path@));
            match get_at(doc, path, 0) {
                Some(o) => match get_member(o, key) {
                    Some(v) => Some(copy_json(v)),
                    None => None,
                },
                None => None,
            }
        },
        MergeOp::HookGroup { event, command_prefix, .. } => match hook_groups(doc, event) {
            Some(Json::Array(x)) => {
                proof {
                    lemma_array_model(*x);
                    lemma_group_from_bounds(models(x@), command_prefix@, 0);
                }
                let k = find_group(x, command_prefix.as_str());
                if k < x.len() {
                    Some(copy_json(&x[k]))
                } else {
                    None
                }
            },
            _ => None,
        },
    }
}

/// Why an operation cannot be applied to a document.
#[derive(Debug, PartialEq, Eq, Structural)]
pub enum Refusal {
    /// The value after this many keys of the path is not an object.
    NotObject(usize),
    /// The value at the array's path is not an array.
    NotArray,
    /// An array entry without a path.
    EmptyPath,
}

/// The keys from the top-level object to the object an operation changes.
pub open spec fn walk_path(op: OpModel) -> Seq<Seq<char>> {
    match op {
        OpModel::ArrayEntry(path, _) => path.drop_last(),
        OpModel::ObjectMember(path, _, _) => path,
        OpModel::HookGroup(_, _, _) => seq!["hooks"@],
    }
}

/// The keys from the top-level object to the array an operation changes.
pub open spec fn array_path(op: OpModel) -> Seq<Seq<char>> {
    match op {
        OpModel::ArrayEntry(path, _) => path,
        OpModel::HookGroup(event, _, _) => hooks_path(event),
        OpModel::ObjectMember(path, _, _) => path,
    }
}

/// `x` with `v` appended unless an equal value is there.
pub open spec fn with_entry(x: Seq<JsonModel>, v: JsonModel) -> Seq<JsonModel> {
    if eq_from(x, v, 0) < x.len() {
        x
    } else {
        x.push(v)
    }
}

/// `x` with the tool's first group replaced by `g`, or `g` appended.
pub open spec fn with_group(x: Seq<JsonModel>, prefix: Seq<char>, g: JsonModel) -> Seq<JsonModel> {
    let k = group_from(x, prefix, 0);
    if 0 <= k < x.len() {
        x.update(k, g)
    } else {
        x.push(g)
    }
}

/// The object `m` (at the end of the operation's walk) changed by `op`.
pub open spec fn leaf_applied(m: JsonModel, op: OpModel) -> Result<JsonModel, Refusal> {
    match m {
        JsonModel::Object(x) => match op {
            OpModel::ObjectMember(_, key, v) => Ok(JsonModel::Object(set_member(x, key, v))),
            OpModel::ArrayEntry(path, v) => match member(m, path.last()) {
                None => Ok(JsonModel::Object(set_member(x, path.last(), JsonModel::Array(seq![v])))),
                Some(JsonModel::Array(a)) => Ok(
                    JsonModel::Object(set_member(x, path.last(), JsonModel::Array(with_entry(a, v)))),
                ),
                Some(_) => Err(Refusal::NotArray),
            },
            OpModel::HookGroup(event, prefix, g) => match member(m, event) {
                None => Ok(JsonModel::Object(set_member(x, event, JsonModel::Array(seq![g])))),
                Some(JsonModel::Array(a)) => Ok(
                    JsonModel::Object(set_member(x, event, JsonModel::Array(with_group(a, prefix, g)))),
                ),
                Some(_) => Err(Refusal::NotArray),
            },
        },
        _ => Err(Refusal::NotObject(walk_path(op).len() as usize)),
    }
}

/// `m`, the value after `depth` keys of the walk, changed by `op`: the
/// objects along the walk are created when absent.
pub open spec fn updated(m: JsonModel, op: OpModel, depth: int) -> Result<JsonModel, Refusal>
    decreases walk_path(op).len() - depth,
{
    if depth < 0 || depth >= walk_path(op).len() {
        leaf_applied(m, op)
    } else {
        match m {
            JsonModel::Object(x) => {
                let key = walk_path(op)[depth];
                let child = match member(m, key) {
                    Some(c) => c,
                    None => JsonModel::Object(Seq::empty()),
                };
                match updated(child, op, depth + 1) {
                    Ok(c) => Ok(JsonModel::Object(set_member(x, key, c))),
                    Err(e) => Err(e),
                }
            },
            _ => Err(Refusal::NotObject(depth as usize)),
        }
    }
}

/// `doc` with the tool's entry of `op` set, or why it cannot be.
pub open spec fn applied(doc: JsonModel, op: OpModel) -> Result<JsonModel, Refusal> {
    match op {
        OpModel::ArrayEntry(path, _) => if path.len() == 0 {
            Err(Refusal::EmptyPath)
        } else {
            updated(doc, op, 0)
        },
        _ => updated(doc, op, 0),
    }
}

/// The walk of `op` as exec strings.
fn walk_key(op: &MergeOp, depth: usize) -> (k: String)
    requires
        op_model(*op) matches OpModel::ArrayEntry(p, _) ==> p.len() > 0,
        depth < walk_path(op_model(*op)).len(),
    ensures
        k@ == walk_path(op_model(*op))[depth as int],
{
    match op {
        MergeOp::ArrayEntry { path, .. } => {
            assert(strings_view(path@).len() == path@.len());
            assert(strings_view(path@)[depth as int] == path@[depth as int]@);
            copy_string(&path[depth])
        },
        MergeOp::ObjectMember { path, .. } => {
            assert(strings_view(path@)[depth as int] == path@[depth as int]@);
            copy_string(&path[depth])
        },
        MergeOp::HookGroup { .. } => {
            proof {
                reveal_strlit("hooks");
            }
            "hooks".to_string()
        },
    }
}

/// The length of the walk of `op`.
fn walk_len(op: &MergeOp) -> (n: usize)
    requires
        op_model(*op) matches OpModel::ArrayEntry(p, _) ==> p.len() > 0,
    ensures
        n == walk_path(op_model(*op)).len(),
{
    match op {
        MergeOp::ArrayEntry { path, .. } => path.len() - 1,
        MergeOp::ObjectMember { path, .. } => path.len(),
        MergeOp::HookGroup { .. } => 1,
    }
}

/// Sets member `key` of the object members `x` to `v`.
fn set_member_exec(x: &mut Vec<(String, Json)>, key: &String, v: Json)
    ensures
        members(final(x)@) == set_member(members(old(x)@), key@, model(v)),
{
    proof {
        lemma_key_from_bounds(members(x@), key@, 0);
    }
    let k = find_key(x, key);
    let ghost before = members(x@);
    if k < x.len() {
        x.remove(k);
        x.insert(k, (copy_string(key), v));
        assert(members(x@) =~= before.update(k as int, (key@, model(v))));
    } else {
        x.push((copy_string(key), v));
        assert(members(x@) =~= before.push((key@, model(v))));
    }
}

/// Takes member `key` out of the object members `x`: its value, or an
/// empty object when there is none, and its index.
fn take_member(x: &mut Vec<(String, Json)>, key: &String, absent: Json) -> (r: (Json, usize))
    ensures
        r.1 == key_from(members(old(x)@), key@, 0),
        r.1 < old(x)@.len() ==> model(r.0) == members(old(x)@)[r.1 as int].1
            && members(final(x)@) == members(old(x)@).remove(r.1 as int),
        r.1 >= old(x)@.len() ==> model(r.0) == model(absent) && final(x)@ == old(x)@,
{
    proof {
        lemma_key_from_bounds(members(x@), key@, 0);
    }
    let k = find_key(x, key);
    let ghost before = members(x@);
    if k < x.len() {
        let (_, v) = x.remove(k);
        assert(members(x@) =~= before.remove(k as int));
        (v, k)
    } else {
        (absent, k)
    }
}

proof fn lemma_set_member_after_take(x: Seq<(Seq<char>, JsonModel)>, key: Seq<char>, v: JsonModel)
    requires
        key_from(x, key, 0) < x.len(),
    ensures
        ({
            let k = key_from(x, key, 0);
            x.remove(k).insert(k, (key, v)) == set_member(x, key, v)
        }),
{
    lemma_key_from_bounds(x, key, 0);
    let k = key_from(x, key, 0);
    assert(x.remove(k).insert(k, (key, v)) =~= x.update(k, (key, v)));
}

/// The object `m` changed by `op` at the end of its walk.
fn apply_leaf(m: Json, op: &MergeOp) -> (r: Result<Json, Refusal>)
    requires
        op_model(*op) matches OpModel::ArrayEntry(p, _) ==> p.len() > 0,
    ensures
        match r {
            Ok(j) => leaf_applied(model(m), op_model(*op)) == Ok::<JsonModel, Refusal>(model(j)),
            Err(e) => leaf_applied(model(m), op_model(*op)) == Err::<JsonModel, Refusal>(e),
        },
{
    let n = walk_len(op);
    match m {
        Json::Object(mut x) => {
            proof {
                lemma_object_model(x);
            }
            let ghost before = members(x@);
            match op {
                MergeOp::ObjectMember { key, value, .. } => {
                    set_member_exec(&mut x, key, copy_json(value));
                    proof {
                        lemma_object_model(x);
                    }
                    Ok(Json::Object(x))
                },
                MergeOp::ArrayEntry { path, value } => {
                    let last = copy_string(&path[path.len() - 1]);
                    assert(last@ == strings_view(path@).last());
                    let len0 = x.len();
                    let fresh: Vec<Json> = Vec::new();
                    proof {
                        lemma_array_model(fresh);
                    }
                    let (child, k) = take_member(&mut x, &last, Json::Array(fresh));
                    assert(members(x@).len() == x@.len() && before.len() == len0);
                    proof {
                        lemma_key_from_bounds(before, last@, 0);
                    }
                    match child {
                        Json::Array(mut a) => {
                            proof {
                                lemma_array_model(a);
                                lemma_eq_from_bounds(models(a@), model(*value), 0);
                            }
                            let ghost a0 = models(a@);
                            let e = find_equal(&a, value);
                            if e >= a.len() {
                                a.push(copy_json(value));
                            }
                            assert(models(a@) =~= (if k < before.len() { with_entry(a0, model(*value)) } else { seq![model(*value)] }));
                            let arr = Json::Array(a);
                            proof {
                                lemma_array_model(a);
                            }
                            if k < len0 {
                                x.insert(k, (last, arr));
                                proof {
                                    lemma_set_member_after_take(before, last@, model(arr));
                                    assert(members(x@) =~= before.remove(k as int).insert(k as int, (last@, model(arr))));
                                }
                            } else {
                                x.push((last, arr));
                                assert(members(x@) =~= before.push((last@, model(arr))));
                            }
                            proof {
                                lemma_object_model(x);
                            }
                            Ok(Json::Object(x))
                        },
                        _ => Err(Refusal::NotArray),
                    }
                },
                MergeOp::HookGroup { event, command_prefix, group } => {
                    let len0 = x.len();
                    let fresh: Vec<Json> = Vec::new();
                    proof {
                        lemma_array_model(fresh);
                    }
                    let (child, k) = take_member(&mut x, event, Json::Array(fresh));
                    assert(members(x@).len() == x@.len() && before.len() == len0);
                    proof {
                        lemma_key_from_bounds(before, event@, 0);
                    }
                    match child {
                        Json::Array(mut a) => {
                            proof {
                                lemma_array_model(a);
                                lemma_group_from_bounds(models(a@), command_prefix@, 0);
                            }
                            let ghost a0 = models(a@);
                            let g = find_group(&a, command_prefix.as_str());
                            if g < a.len() {
                                a.remove(g);
                                a.insert(g, copy_json(group));
                            } else {
                                a.push(copy_json(group));
                            }
                            assert(models(a@) =~= (if k < before.len() { with_group(a0, command_prefix@, model(*group)) } else { seq![model(*group)] }));
                            let arr = Json::Array(a);
                            proof {
                                lemma_array_model(a);
                            }
                            let key = copy_string(event);
                            if k < len0 {
                                x.insert(k, (key, arr));
                                proof {
                                    lemma_set_member_after_take(before, event@, model(arr));
                                    assert(members(x@) =~= before.remove(k as int).insert(k as int, (event@, model(arr))));
                                }
                            } else {
                                x.push((key, arr));
                                assert(members(x@) =~= before.push((event@, model(arr))));
                            }
                            proof {
                                lemma_object_model(x);
                            }
                            Ok(Json::Object(x))
                        },
                        _ => Err(Refusal::NotArray),
                    }
                },
            }
        },
        _ => Err(Refusal::NotObject(n)),
    }
}

/// `m`, the value after `depth` keys of the walk, changed by `op`.
fn update_at(m: Json, op: &MergeOp, depth: usize) -> (r: Result<Json, Refusal>)
    requires
        op_model(*op) matches OpModel::ArrayEntry(p, _) ==> p.len() > 0,
        depth <= walk_path(op_model(*op)).len(),
    ensures
        match r {
            Ok(j) => updated(model(m), op_model(*op), depth as int) == Ok::<JsonModel, Refusal>(model(j)),
            Err(e) => updated(model(m), op_model(*op), depth as int) == Err::<JsonModel, Refusal>(e),
        },
    decreases walk_path(op_model(*op)).len() - depth,
{
    let n = walk_len(op);
    if depth == n {
        return apply_leaf(m, op);
    }
    let ghost mm = model(m);
    match m {
        Json::Object(mut x) => {
            proof {
                lemma_object_model(x);
            }
            let ghost before = members(x@);
            let key = walk_key(op, depth);
            let len0 = x.len();
            let fresh: Vec<(String, Json)> = Vec::new();
            proof {
                lemma_object_model(fresh);
                assert(members(fresh@) =~= Seq::empty());
                lemma_key_from_bounds(before, key@, 0);
            }
            let (child, k) = take_member(&mut x, &key, Json::Object(fresh));
            assert(members(x@).len() == x@.len() && before.len() == len0);
            assert(mm == JsonModel::Object(before));
            assert(model(child) == match member(mm, key@) {
                Some(c) => c,
                None => JsonModel::Object(Seq::empty()),
            });
            match update_at(child, op, depth + 1) {
                Ok(c) => {
                    if k < len0 {
                        x.insert(k, (key, c));
                        proof {
                            lemma_set_member_after_take(before, key@, model(c));
                            assert(members(x@) =~= before.remove(k as int).insert(k as int, (key@, model(c))));
                        }
                    } else {
                        x.push((key, c));
                        assert(members(x@) =~= before.push((key@, model(c))));
                    }
                    proof {
                        lemma_object_model(x);
                    }
                    Ok(Json::Object(x))
                },
                Err(e) => Err(e),
            }
        },
        _ => Err(Refusal::NotObject(depth)),
    }
}

/// Keys joined with dots.
pub open spec fn join_keys(ks: Seq<Seq<char>>) -> Seq<char>
    decreases ks.len(),
{
    if ks.len() == 0 {
        Seq::empty()
    } else if ks.len() == 1 {
        ks[0]
    } else {
        join_keys(ks.drop_last()) + "."@ + ks.last()
    }
}

/// The error a refusal is reported as, naming the file `display`.
pub open spec fn refusal_error(f: Refusal, op: OpModel, display: Seq<char>) -> ErrorView {
    match f {
        Refusal::NotObject(i) => ErrorView::Harness(
            display + ": `"@ + join_keys(walk_path(op).take(i as int)) + "` is not an object"@,
        ),
        Refusal::NotArray => ErrorView::Harness(
            display + ": `"@ + join_keys(array_path(op)) + "` is not an array"@,
        ),
        Refusal::EmptyPath => ErrorView::Internal("an array entry needs a path"@),
    }
}

/// `ks[..n]` joined with dots.
fn join_keys_exec(ks: &Vec<String>, n: usize) -> (out: Vec<char>)
    requires
        n <= ks@.len(),
    ensures
        out@ == join_keys(strings_view(ks@).take(n as int)),
    decreases n,
{
    if n == 0 {
        assert(strings_view(ks@).take(0).len() == 0);
        return Vec::new();
    }
    let mut out = join_keys_exec(ks, n - 1);
    if n > 1 {
        append_str(&mut out, ".");
    }
    append_str(&mut out, ks[n - 1].as_str());
    proof {
        reveal_strlit(".");
        let t = strings_view(ks@).take(n as int);
        assert(t.drop_last() =~= strings_view(ks@).take(n - 1));
        assert(t.last() == ks@[n - 1]@);
        if n == 1 {
            assert(out@ =~= t[0]);
        }
    }
    out
}

/// A copy of a list of strings.
fn copy_strings(v: &Vec<String>) -> (out: Vec<String>)
    ensures
        strings_view(out@) == strings_view(v@),
{
    let mut out: Vec<String> = Vec::new();
    let mut i: usize = 0;
    while i < v.len()
        invariant
            i <= v.len(),
            out@.len() == i,
            forall|j: int| 0 <= j < i ==> #[trigger] out@[j]@ == v@[j]@,
        decreases v.len() - i,
    {
        out.push(copy_string(&v[i]));
        i = i + 1;
    }
    assert(strings_view(out@) =~= strings_view(v@));
    out
}

/// The error for a refusal of `op`, naming the file `display`.
fn refusal_to_error(f: Refusal, op: &MergeOp, display: &str) -> (e: Error)
    requires
        !(f is EmptyPath) ==> (op_model(*op) matches OpModel::ArrayEntry(p, _) ==> p.len() > 0),
        f matches Refusal::NotObject(i) ==> i <= walk_path(op_model(*op)).len(),
    ensures
        e@ == refusal_error(f, op_model(*op), display@),
{
    match f {
        Refusal::EmptyPath => {
            proof {
                reveal_strlit("an array entry needs a path");
            }
            Error::Internal("an array entry needs a path".to_string())
        },
        _ => {
            let walked: Vec<String> = match op {
                MergeOp::ArrayEntry { path, .. } => copy_strings(path),
                MergeOp::ObjectMember { path, .. } => copy_strings(path),
                MergeOp::HookGroup { event, .. } => {
                    proof {
                        reveal_strlit("hooks");
                    }
                    let w = vec!["hooks".to_string(), copy_string(event)];
                    assert(strings_view(w@) =~= hooks_path(event@));
                    w
                },
            };
            assert(strings_view(walked@) == array_path(op_model(*op)));
            let mut out = chars_of(display);
            append_str(&mut out, ": `");
            match f {
                Refusal::NotObject(i) => {
                    assert(array_path(op_model(*op)).take(i as int) =~= walk_path(op_model(*op)).take(i as int)) by {
                        match op_model(*op) {
                            OpModel::HookGroup(e, _, _) => {
                                reveal_strlit("hooks");
                                assert(walk_path(op_model(*op)) =~= hooks_path(e).take(1));
                            },
                            _ => {},
                        }
                    }
                    let keys = join_keys_exec(&walked, i);
                    append_chars(&mut out, &keys);
                    append_str(&mut out, "` is not an object");
                    proof {
                        reveal_strlit(": `");
                        reveal_strlit("` is not an object");
                    }
                    Error::Harness(string_of(&out))
                },
                _ => {
                    let keys = join_keys_exec(&walked, walked.len());
                    assert(strings_view(walked@).take(walked@.len() as int) =~= strings_view(walked@));
                    append_chars(&mut out, &keys);
                    append_str(&mut out, "` is not an array");
                    proof {
                        reveal_strlit(": `");
                        reveal_strlit("` is not an array");
                    }
                    Error::Harness(string_of(&out))
                },
            }
        },
    }
}

/// Sets the tool's entry of `op` in `doc`. Containers are created when
/// absent; a container of another type is a refusal naming `display`.
pub fn apply(doc: Json, op: &MergeOp, display: &str) -> (r: Result<Json, Error>)
    ensures
        match applied(model(doc), op_model(*op)) {
            Ok(d) => r matches Ok(j) && model(j) == d,
            Err(f) => r matches Err(e) && e@ == refusal_error(f, op_model(*op), display@),
        },
{
    let empty = match op {
        MergeOp::ArrayEntry { path, .. } => path.len() == 0,
        _ => false,
    };
    if empty {
        return Err(refusal_to_error(Refusal::EmptyPath, op, display));
    }
    match update_at(doc, op, 0) {
        Ok(j) => Ok(j),
        Err(f) => {
            proof {
                lemma_updated_refusal(model(doc), op_model(*op), 0);
            }
            Err(refusal_to_error(f, op, display))
        },
    }
}

proof fn lemma_updated_refusal(m: JsonModel, op: OpModel, depth: int)
    requires
        0 <= depth <= walk_path(op).len(),
    ensures
        updated(m, op, depth) matches Err(Refusal::NotObject(i)) ==> i <= walk_path(op).len(),
    decreases walk_path(op).len() - depth,
{
    if depth < walk_path(op).len() {
        if let JsonModel::Object(x) = m {
            let key = walk_path(op)[depth];
            let child = match member(m, key) {
                Some(c) => c,
                None => JsonModel::Object(Seq::empty()),
            };
            lemma_updated_refusal(child, op, depth + 1);
        }
    }
}

/// `a` without the values equal to `v`.
pub open spec fn without_eq(a: Seq<JsonModel>, v: JsonModel) -> Seq<JsonModel>
    decreases a.len(),
{
    if a.len() == 0 {
        a
    } else if json_eq(a.last(), v) {
        without_eq(a.drop_last(), v)
    } else {
        without_eq(a.drop_last(), v).push(a.last())
    }
}

/// `a` without the tool's groups.
pub open spec fn without_groups(a: Seq<JsonModel>, prefix: Seq<char>) -> Seq<JsonModel>
    decreases a.len(),
{
    if a.len() == 0 {
        a
    } else if is_tool_group(a.last(), prefix) {
        without_groups(a.drop_last(), prefix)
    } else {
        without_groups(a.drop_last(), prefix).push(a.last())
    }
}

/// The container at the end of the path of `op` without the tool's entry;
/// `None` when nothing is removed.
pub open spec fn remove_leaf(m: JsonModel, op: OpModel) -> Option<JsonModel> {
    match (m, op) {
        (JsonModel::Array(a), OpModel::ArrayEntry(_, v)) => {
            let kept = without_eq(a, v);
            if kept.len() < a.len() {
                Some(JsonModel::Array(kept))
            } else {
                None
            }
        },
        (JsonModel::Object(x), OpModel::ObjectMember(_, key, _)) => {
            let k = key_from(x, key, 0);
            if 0 <= k < x.len() {
                Some(JsonModel::Object(x.remove(k)))
            } else {
                None
            }
        },
        (JsonModel::Array(a), OpModel::HookGroup(_, prefix, _)) => {
            let kept = without_groups(a, prefix);
            if kept.len() < a.len() {
                Some(JsonModel::Array(kept))
            } else {
                None
            }
        },
        _ => None,
    }
}

/// `m`, the value after `depth` keys of the path of `op`, without the
/// tool's entry; `None` when nothing is removed. Containers are kept.
pub open spec fn removed_at(m: JsonModel, op: OpModel, depth: int) -> Option<JsonModel>
    decreases array_path(op).len() - depth,
{
    if depth < 0 || depth >= array_path(op).len() {
        remove_leaf(m, op)
    } else {
        match m {
            JsonModel::Object(x) => {
                let k = key_from(x, array_path(op)[depth], 0);
                if 0 <= k < x.len() {
                    match removed_at(x[k].1, op, depth + 1) {
                        Some(c) => Some(JsonModel::Object(x.update(k, (x[k].0, c)))),
                        None => None,
                    }
                } else {
                    None
                }
            },
            _ => None,
        }
    }
}

/// `doc` without the tool's entry of `op`; `None` when nothing is removed.
pub open spec fn removed(doc: JsonModel, op: OpModel) -> Option<JsonModel> {
    removed_at(doc, op, 0)
}

/// The keys of the path of `op`, as exec strings.
fn path_key(op: &MergeOp, depth: usize) -> (k: String)
    requires
        depth < array_path(op_model(*op)).len(),
    ensures
        k@ == array_path(op_model(*op))[depth as int],
{
    match op {
        MergeOp::ArrayEntry { path, .. } => {
            assert(strings_view(path@)[depth as int] == path@[depth as int]@);
            copy_string(&path[depth])
        },
        MergeOp::ObjectMember { path, .. } => {
            assert(strings_view(path@)[depth as int] == path@[depth as int]@);
            copy_string(&path[depth])
        },
        MergeOp::HookGroup { event, .. } => {
            proof {
                reveal_strlit("hooks");
            }
            if depth == 0 {
                "hooks".to_string()
            } else {
                copy_string(event)
            }
        },
    }
}

/// The length of the path of `op`.
fn path_len(op: &MergeOp) -> (n: usize)
    ensures
        n == array_path(op_model(*op)).len(),
{
    match op {
        MergeOp::ArrayEntry { path, .. } => path.len(),
        MergeOp::ObjectMember { path, .. } => path.len(),
        MergeOp::HookGroup { .. } => 2,
    }
}

/// The elements of `a` not equal to `v`.
fn keep_unequal(a: &Vec<Json>, v: &Json) -> (out: Vec<Json>)
    ensures
        models(out@) == without_eq(models(a@), model(*v)),
{
    let mut out: Vec<Json> = Vec::new();
    let mut i: usize = 0;
    assert(models(a@).take(0) =~= Seq::<JsonModel>::empty());
    while i < a.len()
        invariant
            i <= a.len(),
            models(out@) == without_eq(models(a@).take(i as int), model(*v)),
        decreases a.len() - i,
    {
        let ghost t = models(a@).take(i + 1);
        assert(t.drop_last() =~= models(a@).take(i as int));
        assert(t.last() == model(a@[i as int]));
        if !same_json(&a[i], v) {
            let c = copy_json(&a[i]);
            let ghost before = out@;
            out.push(c);
            assert(models(out@) =~= models(before).push(model(c)));
        }
        i = i + 1;
    }
    assert(models(a@).take(a@.len() as int) =~= models(a@));
    out
}

/// The elements of `a` that are not the tool's groups.
fn keep_other_groups(a: &Vec<Json>, prefix: &str) -> (out: Vec<Json>)
    ensures
        models(out@) == without_groups(models(a@), prefix@),
{
    let mut out: Vec<Json> = Vec::new();
    let mut i: usize = 0;
    assert(models(a@).take(0) =~= Seq::<JsonModel>::empty());
    while i < a.len()
        invariant
            i <= a.len(),
            models(out@) == without_groups(models(a@).take(i as int), prefix@),
        decreases a.len() - i,
    {
        let ghost t = models(a@).take(i + 1);
        assert(t.drop_last() =~= models(a@).take(i as int));
        assert(t.last() == model(a@[i as int]));
        if !tool_group(&a[i], prefix) {
            let c = copy_json(&a[i]);
            let ghost before = out@;
            out.push(c);
            assert(models(out@) =~= models(before).push(model(c)));
        }
        i = i + 1;
    }
    assert(models(a@).take(a@.len() as int) =~= models(a@));
    out
}

/// The container `m` without the tool's entry, and whether anything was
/// removed.
fn remove_leaf_exec(m: Json, op: &MergeOp) -> (r: (Json, bool))
    ensures
        match remove_leaf(model(m), op_model(*op)) {
            Some(d) => r.1 && model(r.0) == d,
            None => !r.1 && model(r.0) == model(m),
        },
{
    let ghost mm = model(m);
    match m {
        Json::Array(a) => {
            proof {
                lemma_array_model(a);
            }
            match op {
                MergeOp::ArrayEntry { value, .. } => {
                    let kept = keep_unequal(&a, value);
                    if kept.len() < a.len() {
                        proof {
                            lemma_array_model(kept);
                        }
                        (Json::Array(kept), true)
                    } else {
                        (Json::Array(a), false)
                    }
                },
                MergeOp::HookGroup { command_prefix, .. } => {
                    let kept = keep_other_groups(&a, command_prefix.as_str());
                    if kept.len() < a.len() {
                        proof {
                            lemma_array_model(kept);
                        }
                        (Json::Array(kept), true)
                    } else {
                        (Json::Array(a), false)
                    }
                },
                _ => (Json::Array(a), false),
            }
        },
        Json::Object(mut x) => {
            proof {
                lemma_object_model(x);
            }
            match op {
                MergeOp::ObjectMember { key, .. } => {
                    proof {
                        lemma_key_from_bounds(members(x@), key@, 0);
                    }
                    let ghost before = members(x@);
                    let k = find_key(&x, key);
                    if k < x.len() {
                        x.remove(k);
                        assert(members(x@) =~= before.remove(k as int));
                        proof {
                            lemma_object_model(x);
                        }
                        (Json::Object(x), true)
                    } else {
                        (Json::Object(x), false)
                    }
                },
                _ => (Json::Object(x), false),
            }
        },
        other => (other, false),
    }
}

/// `m`, the value after `depth` keys of the path of `op`, without the
/// tool's entry, and whether anything was removed.
fn remove_at(m: Json, op: &MergeOp, depth: usize) -> (r: (Json, bool))
    requires
        depth <= array_path(op_model(*op)).len(),
    ensures
        match removed_at(model(m), op_model(*op), depth as int) {
            Some(d) => r.1 && model(r.0) == d,
            None => !r.1 && model(r.0) == model(m),
        },
    decreases array_path(op_model(*op)).len() - depth,
{
    if depth == path_len(op) {
        return remove_leaf_exec(m, op);
    }
    let ghost mm = model(m);
    match m {
        Json::Object(mut x) => {
            proof {
                lemma_object_model(x);
            }
            let ghost before = members(x@);
            let key = path_key(op, depth);
            proof {
                lemma_key_from_bounds(before, key@, 0);
            }
            let k = find_key(&x, &key);
            if k < x.len() {
                let (name, child) = x.remove(k);
                assert(model(child) == before[k as int].1 && name@ == before[k as int].0);
                let (c, changed) = remove_at(child, op, depth + 1);
                x.insert(k, (name, c));
                assert(members(x@) =~= before.update(k as int, (before[k as int].0, model(c))));
                proof {
                    lemma_object_model(x);
                    if !changed {
                        assert(members(x@) =~= before);
                    }
                }
                (Json::Object(x), changed)
            } else {
                (Json::Object(x), false)
            }
        },
        other => (other, false),
    }
}

/// Removes the tool's entry of `op` from `doc`, leaving the containers.
/// Returns whether anything was removed.
pub fn remove(doc: &mut Json, op: &MergeOp) -> (r: bool)
    ensures
        match removed(model(*old(doc)), op_model(*op)) {
            Some(d) => r && model(*final(doc)) == d,
            None => !r && model(*final(doc)) == model(*old(doc)),
        },
{
    let mut taken = Json::Null;
    std::mem::swap(&mut taken, doc);
    let (out, changed) = remove_at(taken, op, 0);
    *doc = out;
    changed
}

/// The outcome of reading a file as JSON: its value, or the parser's
/// message.
pub open spec fn parsed_view(p: Result<Json, String>) -> Result<JsonModel, Seq<char>> {
    match p {
        Ok(d) => Ok(model(d)),
        Err(m) => Err(m@),
    }
}

/// A target file's document: an object, else a refusal naming `display`.
pub open spec fn parsed_doc(display: Seq<char>, p: Result<JsonModel, Seq<char>>) -> Result<JsonModel, ErrorView> {
    match p {
        Err(m) => Err(ErrorView::Harness(display + ": does not parse as JSON: "@ + m)),
        Ok(d) => if d is Object {
            Ok(d)
        } else {
            Err(ErrorView::Harness(display + ": is not a JSON object"@))
        },
    }
}

/// A target file's document from the parser's outcome: a file that does not
/// parse, or is not an object, is a refusal naming `display`.
pub fn document(display: &str, parsed: Result<Json, String>) -> (r: Result<Json, Error>)
    ensures
        match parsed_doc(display@, parsed_view(parsed)) {
            Ok(d) => r matches Ok(j) && model(j) == d,
            Err(e) => r matches Err(x) && x@ == e,
        },
{
    match parsed {
        Err(m) => {
            let mut out = chars_of(display);
            append_str(&mut out, ": does not parse as JSON: ");
            append_str(&mut out, m.as_str());
            proof {
                reveal_strlit(": does not parse as JSON: ");
            }
            Err(Error::Harness(string_of(&out)))
        },
        Ok(doc) => {
            proof {
                crate::json::lemma_model_kind(doc);
            }
            match doc {
                Json::Object(_) => Ok(doc),
                _ => {
                    let mut out = chars_of(display);
                    append_str(&mut out, ": is not a JSON object");
                    proof {
                        reveal_strlit(": is not a JSON object");
                    }
                    Err(Error::Harness(string_of(&out)))
                },
            }
        },
    }
}

/// A target file's text with the JSON parser's outcome on it.
pub open spec fn with_parse(text: Option<Seq<char>>) -> Option<(Seq<char>, Result<JsonModel, Seq<char>>)> {
    match text {
        Some(t) => Some((t, json_parsed(t))),
        None => None,
    }
}

/// Parses a target file: its document, which must be a JSON object; a
/// text that does not parse (`<display>: does not parse as JSON: <the
/// parser's message>`) or is not an object (`<display>: is not a JSON
/// object`) is a refusal naming `display`.
pub fn parse_json(display: &str, text: &str) -> (r: Result<Json, Error>)
    ensures
        match parsed_doc(display@, json_parsed(text@)) {
            Ok(d) => r matches Ok(j) && model(j) == d,
            Err(e) => r matches Err(x) && x@ == e,
        },
{
    document(display, parse_json_text(text))
}

/// The file to write with `ops` merged into the JSON object `existing`
/// (`None` when the file is absent), formatted in the file's own style;
/// `None` when nothing changes. A file that does not parse, is not an
/// object, or does not fit an operation is a refusal naming `display`.
pub fn render_merge(existing: Option<&str>, ops: &[MergeOp], display: &str) -> (r: Result<Option<String>, Error>)
    ensures
        match merge_rendered(with_parse(opt_str(existing)), ops_model(ops@), display@) {
            Ok(Some(t)) => r matches Ok(Some(s)) && s@ == t,
            Ok(None) => r matches Ok(None),
            Err(e) => r matches Err(x) && x@ == e,
        },
{
    match existing {
        Some(t) => {
            let p = parse_json_text(t);
            render_merge_parsed(Some((t, p)), ops, display)
        },
        None => render_merge_parsed(None, ops, display),
    }
}

/// The file to write with the entries of `ops` removed from `existing`;
/// `None` when nothing changes or the file is absent. A file that does not
/// parse or is not an object is a refusal naming `display`.
pub fn render_unmerge(existing: Option<&str>, ops: &[MergeOp], display: &str) -> (r: Result<Option<String>, Error>)
    ensures
        match unmerge_rendered(with_parse(opt_str(existing)), ops_model(ops@), display@) {
            Ok(Some(t)) => r matches Ok(Some(s)) && s@ == t,
            Ok(None) => r matches Ok(None),
            Err(e) => r matches Err(x) && x@ == e,
        },
{
    match existing {
        Some(t) => {
            let p = parse_json_text(t);
            render_unmerge_parsed(Some((t, p)), ops, display)
        },
        None => render_unmerge_parsed(None, ops, display),
    }
}

/// The plain values of a list of operations.
pub open spec fn ops_model(ops: Seq<MergeOp>) -> Seq<OpModel> {
    ops.map_values(|op: MergeOp| op_model(op))
}

/// `doc` with `ops` applied in order; the first refusal and the operation
/// it came from.
pub open spec fn applied_all(doc: JsonModel, ops: Seq<OpModel>) -> Result<JsonModel, (Refusal, OpModel)>
    decreases ops.len(),
{
    if ops.len() == 0 {
        Ok(doc)
    } else {
        match applied_all(doc, ops.drop_last()) {
            Ok(d) => match applied(d, ops.last()) {
                Ok(d2) => Ok(d2),
                Err(f) => Err((f, ops.last())),
            },
            Err(e) => Err(e),
        }
    }
}

/// Whether a text ends with a newline.
pub open spec fn ends_with_newline(t: Seq<char>) -> bool {
    t.len() > 0 && t.last() == '\n'
}

/// `doc` in the style of `existing`: its indent (two spaces for a new file)
/// and its trailing newline (one for a new file); `None` when the text is
/// unchanged.
pub open spec fn restyled(doc: JsonModel, existing: Option<Seq<char>>) -> Option<Seq<char>> {
    let out = match existing {
        Some(t) => json_text_of(doc, indent_of_text(t), ends_with_newline(t)),
        None => json_text_of(doc, "  "@, true),
    };
    if existing == Some(out) {
        None
    } else {
        Some(out)
    }
}

/// The file `render_merge` writes; `None` when nothing changes.
pub open spec fn merge_rendered(
    existing: Option<(Seq<char>, Result<JsonModel, Seq<char>>)>,
    ops: Seq<OpModel>,
    display: Seq<char>,
) -> Result<Option<Seq<char>>, ErrorView> {
    let (text, doc) = match existing {
        Some((t, p)) => (Some(t), parsed_doc(display, p)),
        None => (None, Ok(JsonModel::Object(Seq::empty()))),
    };
    match doc {
        Err(e) => Err(e),
        Ok(d) => match applied_all(d, ops) {
            Ok(d2) => Ok(restyled(d2, text)),
            Err((f, op)) => Err(refusal_error(f, op, display)),
        },
    }
}

/// An existing file as plain values: its text and its parse.
pub open spec fn existing_view(e: Option<(&str, Result<Json, String>)>) -> Option<(Seq<char>, Result<JsonModel, Seq<char>>)> {
    match e {
        Some((t, p)) => Some((t@, parsed_view(p))),
        None => None,
    }
}

/// `doc` re-serialised in the style of `existing`; `None` when unchanged.
fn restyle(doc: &Json, existing: Option<&str>) -> (r: Option<String>)
    ensures
        match r {
            Some(s) => restyled(model(*doc), opt_str(existing)) == Some(s@),
            None => restyled(model(*doc), opt_str(existing)) is None,
        },
{
    let out = match existing {
        Some(t) => {
            let indent = indent_of(t);
            let chars = chars_of(t);
            let newline = chars.len() > 0 && chars[chars.len() - 1] == '\n';
            json_text(doc, indent.as_str(), newline)
        },
        None => {
            proof {
                reveal_strlit("  ");
            }
            json_text(doc, "  ", true)
        },
    };
    match existing {
        Some(t) => if str_eq(out.as_str(), t) {
            None
        } else {
            Some(out)
        },
        None => Some(out),
    }
}

/// The characters of an optional text.
pub open spec fn opt_str(t: Option<&str>) -> Option<Seq<char>> {
    match t {
        Some(s) => Some(s@),
        None => None,
    }
}

/// The file to write with `ops` merged into `existing`, given with its
/// parse; `None` when nothing changes. `display` names the file in a
/// refusal.
pub fn render_merge_parsed(
    existing: Option<(&str, Result<Json, String>)>,
    ops: &[MergeOp],
    display: &str,
) -> (r: Result<Option<String>, Error>)
    ensures
        match merge_rendered(existing_view(existing), ops_model(ops@), display@) {
            Ok(Some(t)) => r matches Ok(Some(s)) && s@ == t,
            Ok(None) => r matches Ok(None),
            Err(e) => r matches Err(x) && x@ == e,
        },
{
    let ghost ev = existing_view(existing);
    let (text, mut doc) = match existing {
        Some((t, p)) => match document(display, p) {
            Ok(d) => (Some(t), d),
            Err(e) => return Err(e),
        },
        None => {
            let fresh: Vec<(String, Json)> = Vec::new();
            proof {
                lemma_object_model(fresh);
                assert(members(fresh@) =~= Seq::empty());
            }
            (None, Json::Object(fresh))
        },
    };
    let ghost d0 = model(doc);
    assert(opt_str(text) == match ev { Some((t, _)) => Some(t), None => None::<Seq<char>> });
    let mut i: usize = 0;
    assert(ops_model(ops@).take(0) =~= Seq::<OpModel>::empty());
    assert(merge_rendered(ev, ops_model(ops@), display@) == match applied_all(d0, ops_model(ops@)) {
        Ok(d2) => Ok(restyled(d2, opt_str(text))),
        Err((f, op)) => Err(refusal_error(f, op, display@)),
    });
    while i < ops.len()
        invariant
            i <= ops@.len(),
            ev == existing_view(existing),
            applied_all(d0, ops_model(ops@).take(i as int)) == Ok::<JsonModel, (Refusal, OpModel)>(model(doc)),
            merge_rendered(ev, ops_model(ops@), display@) == match applied_all(d0, ops_model(ops@)) {
                Ok(d2) => Ok(restyled(d2, opt_str(text))),
                Err((f, op)) => Err(refusal_error(f, op, display@)),
            },
        decreases ops@.len() - i,
    {
        let ghost t = ops_model(ops@).take(i + 1);
        assert(t.drop_last() =~= ops_model(ops@).take(i as int));
        assert(t.last() == op_model(ops@[i as int]));
        let ghost before = model(doc);
        match apply(doc, &ops[i], display) {
            Ok(d) => {
                doc = d;
            },
            Err(e) => {
                proof {
                    let op = op_model(ops@[i as int]);
                    assert(applied(before, op) is Err);
                    let f = applied(before, op)->Err_0;
                    assert(applied_all(d0, t) == Err::<JsonModel, (Refusal, OpModel)>((f, op)));
                    lemma_applied_all_prefix(d0, ops_model(ops@), i as int + 1);
                    assert(e@ == refusal_error(f, op, display@));
                }
                return Err(e);
            },
        }
        i = i + 1;
    }
    assert(ops_model(ops@).take(ops@.len() as int) =~= ops_model(ops@));
    Ok(restyle(&doc, text))
}

/// A refusal on a prefix of the operations is the refusal of all of them.
proof fn lemma_applied_all_prefix(doc: JsonModel, ops: Seq<OpModel>, n: int)
    requires
        0 <= n <= ops.len(),
        applied_all(doc, ops.take(n)) is Err,
    ensures
        applied_all(doc, ops) == applied_all(doc, ops.take(n)),
    decreases ops.len() - n,
{
    if n < ops.len() {
        assert(ops.take(n + 1).drop_last() =~= ops.take(n));
        lemma_applied_all_prefix(doc, ops, n + 1);
    } else {
        assert(ops.take(n) =~= ops);
    }
}

/// `doc` with the entries of `ops` removed in order, and whether anything
/// was removed.
pub open spec fn removed_all(doc: JsonModel, ops: Seq<OpModel>) -> (JsonModel, bool)
    decreases ops.len(),
{
    if ops.len() == 0 {
        (doc, false)
    } else {
        let (d, changed) = removed_all(doc, ops.drop_last());
        match removed(d, ops.last()) {
            Some(d2) => (d2, true),
            None => (d, changed),
        }
    }
}

/// The file `render_unmerge` writes; `None` when nothing changes or the
/// file is absent.
pub open spec fn unmerge_rendered(
    existing: Option<(Seq<char>, Result<JsonModel, Seq<char>>)>,
    ops: Seq<OpModel>,
    display: Seq<char>,
) -> Result<Option<Seq<char>>, ErrorView> {
    match existing {
        None => Ok(None),
        Some((t, p)) => match parsed_doc(display, p) {
            Err(e) => Err(e),
            Ok(d) => {
                let (d2, changed) = removed_all(d, ops);
                if changed {
                    Ok(restyled(d2, Some(t)))
                } else {
                    Ok(None)
                }
            },
        },
    }
}

/// The file to write with the entries of `ops` removed from `existing`,
/// given with its parse; `None` when nothing changes or the file is absent.
pub fn render_unmerge_parsed(
    existing: Option<(&str, Result<Json, String>)>,
    ops: &[MergeOp],
    display: &str,
) -> (r: Result<Option<String>, Error>)
    ensures
        match unmerge_rendered(existing_view(existing), ops_model(ops@), display@) {
            Ok(Some(t)) => r matches Ok(Some(s)) && s@ == t,
            Ok(None) => r matches Ok(None),
            Err(e) => r matches Err(x) && x@ == e,
        },
{
    let (text, parsed) = match existing {
        None => return Ok(None),
        Some(pair) => pair,
    };
    let mut doc = match document(display, parsed) {
        Ok(d) => d,
        Err(e) => return Err(e),
    };
    let ghost d0 = model(doc);
    let mut changed = false;
    let mut i: usize = 0;
    assert(ops_model(ops@).take(0) =~= Seq::<OpModel>::empty());
    while i < ops.len()
        invariant
            i <= ops@.len(),
            removed_all(d0, ops_model(ops@).take(i as int)) == (model(doc), changed),
        decreases ops@.len() - i,
    {
        let ghost t = ops_model(ops@).take(i + 1);
        assert(t.drop_last() =~= ops_model(ops@).take(i as int));
        assert(t.last() == op_model(ops@[i as int]));
        if remove(&mut doc, &ops[i]) {
            changed = true;
        }
        i = i + 1;
    }
    assert(ops_model(ops@).take(ops@.len() as int) =~= ops_model(ops@));
    if changed {
        Ok(restyle(&doc, Some(text)))
    } else {
        Ok(None)
    }
}

/// The first member with a key is the one before which no member has it.
proof fn lemma_key_from_found(x: Seq<(Seq<char>, JsonModel)>, key: Seq<char>, from: int, k: int)
    requires
        0 <= from <= k,
        k <= x.len(),
        k < x.len() ==> x[k].0 == key,
        forall|j: int| from <= j < k ==> #[trigger] x[j].0 != key,
    ensures
        key_from(x, key, from) == k,
    decreases k - from,
{
    if from < k {
        lemma_key_from_found(x, key, from + 1, k);
    }
}

/// The first equal element is the one before which none is equal.
proof fn lemma_eq_from_found(x: Seq<JsonModel>, v: JsonModel, from: int, k: int)
    requires
        0 <= from <= k,
        k <= x.len(),
        k < x.len() ==> json_eq(x[k], v),
        forall|j: int| from <= j < k ==> !json_eq(#[trigger] x[j], v),
    ensures
        eq_from(x, v, from) == k,
    decreases k - from,
{
    if from < k {
        lemma_eq_from_found(x, v, from + 1, k);
    }
}

/// The first group of the tool is the one before which none is.
proof fn lemma_group_from_found(x: Seq<JsonModel>, prefix: Seq<char>, from: int, k: int)
    requires
        0 <= from <= k,
        k <= x.len(),
        k < x.len() ==> is_tool_group(x[k], prefix),
        forall|j: int| from <= j < k ==> !is_tool_group(#[trigger] x[j], prefix),
    ensures
        group_from(x, prefix, from) == k,
    decreases k - from,
{
    if from < k {
        lemma_group_from_found(x, prefix, from + 1, k);
    }
}

/// A member just set is found under its key, and setting it again changes
/// nothing.
proof fn lemma_set_member(x: Seq<(Seq<char>, JsonModel)>, key: Seq<char>, v: JsonModel)
    ensures
        member(JsonModel::Object(set_member(x, key, v)), key) == Some(v),
        set_member(set_member(x, key, v), key, v) == set_member(x, key, v),
{
    lemma_key_from_bounds(x, key, 0);
    let k = key_from(x, key, 0);
    let y = set_member(x, key, v);
    if k < x.len() {
        assert forall|j: int| 0 <= j < k implies #[trigger] y[j].0 != key by {
            assert(y[j] == x[j]);
        }
        lemma_key_from_found(y, key, 0, k);
        assert(y.update(k, (key, v)) =~= y);
    } else {
        assert forall|j: int| 0 <= j < x.len() implies #[trigger] y[j].0 != key by {
            assert(y[j] == x[j]);
        }
        lemma_key_from_found(y, key, 0, x.len() as int);
        assert(y.update(x.len() as int, (key, v)) =~= y);
    }
}

/// The value at a path is the member, under the path's last key, of the
/// value at the path without it.
proof fn lemma_at_path_last(m: JsonModel, p: Seq<Seq<char>>)
    requires
        p.len() > 0,
    ensures
        at_path(m, p) == match at_path(m, p.drop_last()) {
            Some(o) => member(o, p.last()),
            None => None,
        },
    decreases p.len(),
{
    if p.len() == 1 {
        assert(p.drop_last().len() == 0);
        assert(p.skip(1).len() == 0);
        assert(at_path(m, p.drop_last()) == Some(m));
        match member(m, p[0]) {
            Some(v) => {
                assert(at_path(v, p.skip(1)) == Some(v));
            },
            None => {},
        }
    } else {
        assert(p.drop_last()[0] == p[0]);
        match member(m, p[0]) {
            Some(v) => {
                assert(p.skip(1).drop_last() =~= p.drop_last().skip(1));
                assert(p.skip(1).last() == p.last());
                lemma_at_path_last(v, p.skip(1));
                assert(at_path(m, p.drop_last()) == at_path(v, p.drop_last().skip(1)));
            },
            None => {
                assert(at_path(m, p.drop_last()) is None);
            },
        }
    }
}

/// What an update leaves at the end of its walk: the operation's leaf
/// applied to some object.
proof fn lemma_updated_at_path(m: JsonModel, op: OpModel, depth: int)
    requires
        0 <= depth <= walk_path(op).len(),
        updated(m, op, depth) is Ok,
    ensures
        exists|o: JsonModel|
            leaf_applied(o, op) is Ok && at_path(updated(m, op, depth)->Ok_0, walk_path(op).skip(depth))
                == Some(#[trigger] leaf_applied(o, op)->Ok_0),
    decreases walk_path(op).len() - depth,
{
    let w = walk_path(op);
    if depth == w.len() {
        assert(w.skip(depth).len() == 0);
        assert(leaf_applied(m, op) is Ok);
    } else {
        let x = m->Object_0;
        let key = w[depth];
        let child = match member(m, key) {
            Some(c) => c,
            None => JsonModel::Object(Seq::empty()),
        };
        lemma_updated_at_path(child, op, depth + 1);
        let c2 = updated(child, op, depth + 1)->Ok_0;
        lemma_set_member(x, key, c2);
        assert(w.skip(depth)[0] == key);
        assert(w.skip(depth).skip(1) =~= w.skip(depth + 1));
    }
}

/// Updating again what an update left changes nothing, when the leaf does
/// not change it either.
proof fn lemma_updated_twice(m: JsonModel, op: OpModel, depth: int)
    requires
        0 <= depth <= walk_path(op).len(),
        updated(m, op, depth) is Ok,
        forall|o: JsonModel| #[trigger] leaf_applied(o, op) is Ok ==> leaf_applied(leaf_applied(o, op)->Ok_0, op) == leaf_applied(o, op),
    ensures
        updated(updated(m, op, depth)->Ok_0, op, depth) == updated(m, op, depth),
    decreases walk_path(op).len() - depth,
{
    let w = walk_path(op);
    if depth < w.len() {
        let x = m->Object_0;
        let key = w[depth];
        let child = match member(m, key) {
            Some(c) => c,
            None => JsonModel::Object(Seq::empty()),
        };
        lemma_updated_twice(child, op, depth + 1);
        let c2 = updated(child, op, depth + 1)->Ok_0;
        lemma_set_member(x, key, c2);
    }
}

/// A leaf applied twice is applied once, when a hook group is the tool's.
proof fn lemma_leaf_twice(o: JsonModel, op: OpModel)
    requires
        leaf_applied(o, op) is Ok,
        op matches OpModel::HookGroup(_, prefix, g) ==> is_tool_group(g, prefix),
    ensures
        leaf_applied(leaf_applied(o, op)->Ok_0, op) == leaf_applied(o, op),
{
    let x = o->Object_0;
    match op {
        OpModel::ObjectMember(_, key, v) => {
            lemma_set_member(x, key, v);
        },
        OpModel::ArrayEntry(path, v) => {
            let arr = match member(o, path.last()) {
                Some(JsonModel::Array(a)) => with_entry(a, v),
                _ => seq![v],
            };
            lemma_set_member(x, path.last(), JsonModel::Array(arr));
            lemma_entry_found(o, path.last(), v);
        },
        OpModel::HookGroup(event, prefix, g) => {
            let arr = match member(o, event) {
                Some(JsonModel::Array(a)) => with_group(a, prefix, g),
                _ => seq![g],
            };
            lemma_set_member(x, event, JsonModel::Array(arr));
            lemma_group_found(o, event, prefix, g);
        },
    }
}

/// After an entry is added, the array holds a value equal to it, and adding
/// it again changes nothing.
proof fn lemma_entry_found(o: JsonModel, key: Seq<char>, v: JsonModel)
    requires
        member(o, key) matches Some(c) ==> c is Array,
    ensures
        ({
            let arr = match member(o, key) {
                Some(JsonModel::Array(a)) => with_entry(a, v),
                _ => seq![v],
            };
            &&& eq_from(arr, v, 0) < arr.len()
            &&& json_eq(arr[eq_from(arr, v, 0)], v)
            &&& with_entry(arr, v) == arr
        }),
{
    crate::json::lemma_json_eq_refl(v);
    let arr = match member(o, key) {
        Some(JsonModel::Array(a)) => with_entry(a, v),
        _ => seq![v],
    };
    match member(o, key) {
        Some(JsonModel::Array(a)) => {
            lemma_eq_from_bounds(a, v, 0);
            if eq_from(a, v, 0) >= a.len() {
                assert forall|j: int| 0 <= j < a.len() implies !json_eq(#[trigger] arr[j], v) by {
                    assert(arr[j] == a[j]);
                }
                lemma_eq_from_found(arr, v, 0, a.len() as int);
            }
        },
        _ => {
            lemma_eq_from_found(arr, v, 0, 0);
        },
    }
    lemma_eq_from_bounds(arr, v, 0);
}

/// After the tool's group is set, it is the tool's first group, and setting
/// it again changes nothing.
proof fn lemma_group_found(o: JsonModel, key: Seq<char>, prefix: Seq<char>, g: JsonModel)
    requires
        member(o, key) matches Some(c) ==> c is Array,
        is_tool_group(g, prefix),
    ensures
        ({
            let arr = match member(o, key) {
                Some(JsonModel::Array(a)) => with_group(a, prefix, g),
                _ => seq![g],
            };
            &&& group_from(arr, prefix, 0) < arr.len()
            &&& arr[group_from(arr, prefix, 0)] == g
            &&& with_group(arr, prefix, g) == arr
        }),
{
    let arr = match member(o, key) {
        Some(JsonModel::Array(a)) => with_group(a, prefix, g),
        _ => seq![g],
    };
    match member(o, key) {
        Some(JsonModel::Array(a)) => {
            lemma_group_from_bounds(a, prefix, 0);
            let k = group_from(a, prefix, 0);
            assert forall|j: int| 0 <= j < k implies !is_tool_group(#[trigger] arr[j], prefix) by {
                assert(arr[j] == a[j]);
            }
            lemma_group_from_found(arr, prefix, 0, k);
            assert(arr.update(k, g) =~= arr);
        },
        _ => {
            lemma_group_from_found(arr, prefix, 0, 0);
            assert(arr.update(0, g) =~= arr);
        },
    }
}

/// Applying an operation and then extracting its entry gives the entry: an
/// equal value for an array entry, the value itself for an object member
/// and for a hook group (one whose command starts with the prefix).
pub proof fn law_extract_after_apply(doc: JsonModel, op: OpModel)
    requires
        applied(doc, op) is Ok,
        op matches OpModel::HookGroup(_, prefix, g) ==> is_tool_group(g, prefix),
    ensures
        extracted(applied(doc, op)->Ok_0, op) is Some,
        json_eq(extracted(applied(doc, op)->Ok_0, op)->Some_0, op_value(op)),
        !(op is ArrayEntry) ==> extracted(applied(doc, op)->Ok_0, op) == Some(op_value(op)),
{
    let d2 = applied(doc, op)->Ok_0;
    let w = walk_path(op);
    lemma_updated_at_path(doc, op, 0);
    assert(w.skip(0) =~= w);
    let o = choose|o: JsonModel|
        leaf_applied(o, op) is Ok && at_path(d2, w.skip(0)) == Some(#[trigger] leaf_applied(o, op)->Ok_0);
    let l = leaf_applied(o, op)->Ok_0;
    let x = o->Object_0;
    crate::json::lemma_json_eq_refl(op_value(op));
    match op {
        OpModel::ObjectMember(path, key, v) => {
            lemma_set_member(x, key, v);
            assert(l == JsonModel::Object(set_member(x, key, v)));
            assert(at_path(d2, path) == Some(l));
            assert(extracted(d2, op) == member(l, key));
            assert(member(l, key) == Some(v));
            assert(json_eq(v, op_value(op)));
            assert(d2 == applied(doc, op)->Ok_0);
        },
        OpModel::ArrayEntry(path, v) => {
            lemma_at_path_last(d2, path);
            let arr = match member(o, path.last()) {
                Some(JsonModel::Array(a)) => with_entry(a, v),
                _ => seq![v],
            };
            lemma_set_member(x, path.last(), JsonModel::Array(arr));
            lemma_entry_found(o, path.last(), v);
            lemma_eq_from_bounds(arr, v, 0);
            assert(path.drop_last() == w);
            assert(at_path(d2, path.drop_last()) == Some(l));
            assert(l == JsonModel::Object(set_member(x, path.last(), JsonModel::Array(arr))));
            assert(at_path(d2, path) == Some(JsonModel::Array(arr)));
            assert(extracted(d2, op) is Some);
        },
        OpModel::HookGroup(event, prefix, g) => {
            reveal_strlit("hooks");
            lemma_at_path_last(d2, hooks_path(event));
            assert(hooks_path(event).drop_last() =~= w);
            let arr = match member(o, event) {
                Some(JsonModel::Array(a)) => with_group(a, prefix, g),
                _ => seq![g],
            };
            lemma_set_member(x, event, JsonModel::Array(arr));
            lemma_group_found(o, event, prefix, g);
            lemma_group_from_bounds(arr, prefix, 0);
            assert(at_path(d2, w) == Some(l));
            assert(l == JsonModel::Object(set_member(x, event, JsonModel::Array(arr))));
            assert(hooks_path(event).last() == event);
            assert(at_path(d2, hooks_path(event)) == Some(JsonModel::Array(arr)));
            assert(extracted(d2, op) is Some);
        },
    }
}

/// Applying an operation twice is applying it once (for a hook group, one
/// whose command starts with the prefix).
pub proof fn law_apply_idempotent(doc: JsonModel, op: OpModel)
    requires
        applied(doc, op) is Ok,
        op matches OpModel::HookGroup(_, prefix, g) ==> is_tool_group(g, prefix),
    ensures
        applied(applied(doc, op)->Ok_0, op) == applied(doc, op),
{
    assert forall|o: JsonModel| #[trigger] leaf_applied(o, op) is Ok implies leaf_applied(leaf_applied(o, op)->Ok_0, op)
        == leaf_applied(o, op) by {
        lemma_leaf_twice(o, op);
    }
    lemma_updated_twice(doc, op, 0);
}

/// The keys of an object's members, in order.
pub open spec fn keys_of(x: Seq<(Seq<char>, JsonModel)>) -> Seq<Seq<char>> {
    x.map_values(|m: (Seq<char>, JsonModel)| m.0)
}

/// The key an operation goes on with in the object after `depth` keys of
/// its walk: the next key of the walk, or at its end the member it sets.
pub open spec fn touched_key(op: OpModel, depth: int) -> Seq<char> {
    if depth < walk_path(op).len() {
        walk_path(op)[depth]
    } else {
        match op {
            OpModel::ArrayEntry(path, _) => path.last(),
            OpModel::ObjectMember(_, key, _) => key,
            OpModel::HookGroup(event, _, _) => event,
        }
    }
}

/// Members that agree wherever `other` could be found give the same
/// member `other`.
proof fn lemma_member_same(x: Seq<(Seq<char>, JsonModel)>, y: Seq<(Seq<char>, JsonModel)>, other: Seq<char>)
    requires
        x.len() <= y.len(),
        forall|j: int| 0 <= j < x.len() ==> #[trigger] y[j] == x[j] || (y[j].0 != other && x[j].0 != other),
        forall|j: int| x.len() <= j < y.len() ==> #[trigger] y[j].0 != other,
    ensures
        member(JsonModel::Object(y), other) == member(JsonModel::Object(x), other),
{
    lemma_key_from_bounds(x, other, 0);
    let kx = key_from(x, other, 0);
    if kx < x.len() {
        assert(y[kx] == x[kx]);
        assert forall|j: int| 0 <= j < kx implies #[trigger] y[j].0 != other by {
            assert(x[j].0 != other);
        }
        lemma_key_from_found(y, other, 0, kx);
    } else {
        assert forall|j: int| 0 <= j < y.len() implies #[trigger] y[j].0 != other by {
            if j < x.len() {
                assert(x[j].0 != other);
            }
        }
        lemma_key_from_found(y, other, 0, y.len() as int);
    }
}

/// Setting one member leaves every other member as it was, and the keys
/// in their order, a new key coming last.
proof fn lemma_set_member_other(x: Seq<(Seq<char>, JsonModel)>, key: Seq<char>, v: JsonModel, other: Seq<char>)
    requires
        other != key,
    ensures
        member(JsonModel::Object(set_member(x, key, v)), other) == member(JsonModel::Object(x), other),
        keys_of(set_member(x, key, v)) == if key_from(x, key, 0) < x.len() {
            keys_of(x)
        } else {
            keys_of(x).push(key)
        },
{
    lemma_key_from_bounds(x, key, 0);
    let k = key_from(x, key, 0);
    let y = set_member(x, key, v);
    assert forall|j: int| 0 <= j < x.len() implies #[trigger] y[j] == x[j] || (y[j].0 != other && x[j].0 != other) by {
        if j == k {
            assert(x[j].0 == key);
        }
    }
    lemma_member_same(x, y, other);
    if k < x.len() {
        assert(keys_of(y) =~= keys_of(x));
    } else {
        assert(keys_of(y) =~= keys_of(x).push(key));
    }
}

/// A merge changes an object on its operation's path only at the key the
/// operation goes on with: every other member keeps its value, and the
/// members keep their order, a created member coming last. At depth 0
/// this is the top-level object of the document (`applied` is `updated` at
/// depth 0 for every operation it accepts).
pub proof fn law_merge_keeps_the_rest(m: JsonModel, op: OpModel, depth: int, key: Seq<char>)
    requires
        0 <= depth,
        updated(m, op, depth) is Ok,
        key != touched_key(op, depth),
    ensures
        member(updated(m, op, depth)->Ok_0, key) == member(m, key),
        m is Object && updated(m, op, depth)->Ok_0 is Object,
        ({
            let x = m->Object_0;
            let t = touched_key(op, depth);
            keys_of(updated(m, op, depth)->Ok_0->Object_0) == if key_from(x, t, 0) < x.len() {
                keys_of(x)
            } else {
                keys_of(x).push(t)
            }
        }),
{
    let x = m->Object_0;
    if depth >= walk_path(op).len() {
        match op {
            OpModel::ObjectMember(_, k, v) => {
                lemma_set_member_other(x, k, v, key);
            },
            OpModel::ArrayEntry(path, v) => {
                let c = match member(m, path.last()) {
                    None => JsonModel::Array(seq![v]),
                    Some(a) => JsonModel::Array(with_entry(a->Array_0, v)),
                };
                lemma_set_member_other(x, path.last(), c, key);
            },
            OpModel::HookGroup(event, prefix, g) => {
                let c = match member(m, event) {
                    None => JsonModel::Array(seq![g]),
                    Some(a) => JsonModel::Array(with_group(a->Array_0, prefix, g)),
                };
                lemma_set_member_other(x, event, c, key);
            },
        }
    } else {
        let k = walk_path(op)[depth];
        let child = match member(m, k) {
            Some(c) => c,
            None => JsonModel::Object(Seq::empty()),
        };
        let c = updated(child, op, depth + 1)->Ok_0;
        lemma_set_member_other(x, k, c, key);
    }
}

/// The path from the document to an operation's entry: the array of an
/// array entry or of a hook group, the member of an object member.
pub open spec fn entry_path(op: OpModel) -> Seq<Seq<char>> {
    walk_path(op).push(touched_key(op, walk_path(op).len() as int))
}

/// Whether two paths part: at some depth both go on, with different keys.
pub open spec fn paths_part(p: Seq<Seq<char>>, q: Seq<Seq<char>>) -> bool {
    exists|d: int| 0 <= d < p.len() && d < q.len() && #[trigger] p[d] != q[d]
}

/// Nothing is found below an empty object.
proof fn lemma_at_path_empty(q: Seq<Seq<char>>)
    requires
        q.len() > 0,
    ensures
        at_path(JsonModel::Object(Seq::empty()), q) is None,
{
    let e = Seq::<(Seq<char>, JsonModel)>::empty();
    lemma_key_from_bounds(e, q[0], 0);
}

/// A merge leaves every value whose path parts from the operation's entry
/// path where it was.
proof fn lemma_updated_keeps(m: JsonModel, op: OpModel, depth: int, q: Seq<Seq<char>>)
    requires
        0 <= depth <= walk_path(op).len(),
        updated(m, op, depth) is Ok,
        exists|d: int| 0 <= d < q.len() && d < entry_path(op).len() - depth && #[trigger] q[d] != entry_path(op)[depth + d],
    ensures
        at_path(updated(m, op, depth)->Ok_0, q) == at_path(m, q),
    decreases walk_path(op).len() - depth,
{
    let e = entry_path(op);
    let w = walk_path(op);
    let r = updated(m, op, depth)->Ok_0;
    let d = choose|d: int| 0 <= d < q.len() && d < e.len() - depth && #[trigger] q[d] != e[depth + d];
    assert(e[depth] == touched_key(op, depth));
    if q[0] != e[depth] {
        law_merge_keeps_the_rest(m, op, depth, q[0]);
    } else {
        assert(d > 0);
        assert(depth < w.len());
        let x = m->Object_0;
        let key = w[depth];
        let child = match member(m, key) {
            Some(c) => c,
            None => JsonModel::Object(Seq::empty()),
        };
        let c = updated(child, op, depth + 1)->Ok_0;
        lemma_set_member(x, key, c);
        assert(member(r, q[0]) == Some(c));
        let q1 = q.skip(1);
        assert(q1[d - 1] == q[d]);
        assert(e[depth + 1 + (d - 1)] == e[depth + d]);
        lemma_updated_keeps(child, op, depth + 1, q1);
        if member(m, key) is None {
            lemma_at_path_empty(q1);
        }
    }
}

/// What an operation finds of its entry depends only on the value at its
/// entry path.
proof fn lemma_extracted_by_entry(d1: JsonModel, d2: JsonModel, op: OpModel)
    requires
        op matches OpModel::ArrayEntry(p, _) ==> p.len() > 0,
        at_path(d1, entry_path(op)) == at_path(d2, entry_path(op)),
    ensures
        extracted(d1, op) == extracted(d2, op),
{
    match op {
        OpModel::ArrayEntry(path, _) => {
            assert(entry_path(op) =~= path);
        },
        OpModel::ObjectMember(path, key, _) => {
            let p = entry_path(op);
            assert(p.drop_last() =~= path);
            lemma_at_path_last(d1, p);
            lemma_at_path_last(d2, p);
        },
        OpModel::HookGroup(event, _, _) => {
            assert(entry_path(op) =~= hooks_path(event));
        },
    }
}

/// A merge of several operations whose entry paths part pairwise sets
/// every entry: afterwards each operation finds its entry, equal as JSON
/// to the value it sets (the same value for an object member or a hook
/// group). The hook group each operation sets must be the tool's own.
pub proof fn law_merge_sets_every_entry(doc: JsonModel, ops: Seq<OpModel>)
    requires
        applied_all(doc, ops) is Ok,
        forall|i: int| 0 <= i < ops.len() ==> (#[trigger] ops[i] matches OpModel::HookGroup(_, prefix, g) ==> is_tool_group(g, prefix)),
        forall|i: int, j: int| 0 <= i < ops.len() && 0 <= j < ops.len() && i != j ==> paths_part(entry_path(#[trigger] ops[i]), entry_path(#[trigger] ops[j])),
    ensures
        forall|i: int| 0 <= i < ops.len() ==> (#[trigger] ops[i] matches OpModel::ArrayEntry(p, _) ==> p.len() > 0),
        forall|i: int| 0 <= i < ops.len() ==> #[trigger] extracted(applied_all(doc, ops)->Ok_0, ops[i]) is Some,
        forall|i: int| 0 <= i < ops.len() ==> json_eq(#[trigger] extracted(applied_all(doc, ops)->Ok_0, ops[i])->Some_0, op_value(ops[i])),
        forall|i: int| 0 <= i < ops.len() ==> !(ops[i] is ArrayEntry) ==> #[trigger] extracted(applied_all(doc, ops)->Ok_0, ops[i]) == Some(op_value(ops[i])),
    decreases ops.len(),
{
    if ops.len() > 0 {
        let d = ops.drop_last();
        assert forall|i: int| 0 <= i < d.len() implies (#[trigger] d[i] matches OpModel::HookGroup(_, prefix, g) ==> is_tool_group(g, prefix)) by {
            assert(d[i] == ops[i]);
        }
        assert forall|i: int, j: int| 0 <= i < d.len() && 0 <= j < d.len() && i != j implies paths_part(entry_path(#[trigger] d[i]), entry_path(#[trigger] d[j])) by {
            assert(d[i] == ops[i] && d[j] == ops[j]);
        }
        law_merge_sets_every_entry(doc, d);
        let before = applied_all(doc, d)->Ok_0;
        let last = ops.last();
        let after = applied_all(doc, ops)->Ok_0;
        assert(applied(before, last) is Ok);
        assert(after == applied(before, last)->Ok_0);
        assert(ops[ops.len() - 1] == last);
        law_extract_after_apply(before, last);
        assert forall|i: int| 0 <= i < ops.len() implies (#[trigger] ops[i] matches OpModel::ArrayEntry(p, _) ==> p.len() > 0)
            && extracted(after, ops[i]) is Some && json_eq(extracted(after, ops[i])->Some_0, op_value(ops[i]))
            && (!(ops[i] is ArrayEntry) ==> extracted(after, ops[i]) == Some(op_value(ops[i]))) by {
            if i < ops.len() - 1 {
                assert(d[i] == ops[i]);
                assert(paths_part(entry_path(ops[i]), entry_path(last)));
                let k = choose|k: int| 0 <= k < entry_path(ops[i]).len() && k < entry_path(last).len() && #[trigger] entry_path(ops[i])[k] != entry_path(last)[k];
                assert(entry_path(ops[i])[k] != entry_path(last)[0 + k]);
                assert(applied(before, last) == updated(before, last, 0));
                lemma_updated_keeps(before, last, 0, entry_path(ops[i]));
                lemma_extracted_by_entry(after, before, ops[i]);
            }
        }
    }
}

/// Applying operations to an object gives an object.
pub(crate) proof fn lemma_applied_all_object(doc: JsonModel, ops: Seq<OpModel>)
    requires
        doc is Object,
        applied_all(doc, ops) is Ok,
    ensures
        applied_all(doc, ops)->Ok_0 is Object,
    decreases ops.len(),
{
    if ops.len() > 0 {
        lemma_applied_all_object(doc, ops.drop_last());
        let before = applied_all(doc, ops.drop_last())->Ok_0;
        let last = ops.last();
        assert(applied(before, last) == updated(before, last, 0));
    }
}

/// Applying operations whose entry paths part from that of `op` leaves
/// what `op` finds of its entry as it was; the document stays an object.
pub(crate) proof fn lemma_applied_all_keeps(doc: JsonModel, ops: Seq<OpModel>, op: OpModel)
    requires
        applied_all(doc, ops) is Ok,
        op matches OpModel::ArrayEntry(p, _) ==> p.len() > 0,
        forall|i: int| 0 <= i < ops.len() ==> paths_part(entry_path(op), entry_path(#[trigger] ops[i])),
    ensures
        extracted(applied_all(doc, ops)->Ok_0, op) == extracted(doc, op),
        doc is Object ==> applied_all(doc, ops)->Ok_0 is Object,
    decreases ops.len(),
{
    if ops.len() > 0 {
        let d = ops.drop_last();
        assert forall|i: int| 0 <= i < d.len() implies paths_part(entry_path(op), entry_path(#[trigger] d[i])) by {
            assert(d[i] == ops[i]);
        }
        lemma_applied_all_keeps(doc, d, op);
        let before = applied_all(doc, d)->Ok_0;
        let last = ops.last();
        let after = applied_all(doc, ops)->Ok_0;
        assert(applied(before, last) is Ok);
        assert(after == applied(before, last)->Ok_0);
        assert(ops[ops.len() - 1] == last);
        assert(paths_part(entry_path(op), entry_path(last)));
        let k = choose|k: int| 0 <= k < entry_path(op).len() && k < entry_path(last).len() && #[trigger] entry_path(op)[k] != entry_path(last)[k];
        assert(entry_path(op)[k] != entry_path(last)[0 + k]);
        assert(applied(before, last) == updated(before, last, 0));
        lemma_updated_keeps(before, last, 0, entry_path(op));
        lemma_extracted_by_entry(after, before, op);
        if walk_path(last).len() == 0 {
            assert(updated(before, last, 0) == leaf_applied(before, last));
        }
    }
}

/// Whether a value at the end of an array operation's path holds none of
/// the tool's entries: no equal value, or no group of the tool's.
pub open spec fn leaf_gone(leaf: Option<JsonModel>, op: OpModel) -> bool {
    match (leaf, op) {
        (Some(JsonModel::Array(a)), OpModel::ArrayEntry(_, v)) => eq_from(a, v, 0) >= a.len(),
        (Some(JsonModel::Array(a)), OpModel::HookGroup(_, prefix, _)) => group_from(a, prefix, 0) >= a.len(),
        _ => true,
    }
}

/// Dropping the values equal to `v` leaves none, and drops nothing from a
/// list that has none.
proof fn lemma_without_eq(a: Seq<JsonModel>, v: JsonModel)
    ensures
        forall|i: int| 0 <= i < without_eq(a, v).len() ==> !json_eq(#[trigger] without_eq(a, v)[i], v),
        without_eq(a, v).len() == a.len() ==> forall|i: int| 0 <= i < a.len() ==> !json_eq(#[trigger] a[i], v),
        without_eq(a, v).len() <= a.len(),
    decreases a.len(),
{
    if a.len() > 0 {
        let d = a.drop_last();
        lemma_without_eq(d, v);
        let w = without_eq(a, v);
        if !json_eq(a.last(), v) {
            assert forall|i: int| 0 <= i < w.len() implies !json_eq(#[trigger] w[i], v) by {
                if i < w.len() - 1 {
                    assert(w[i] == without_eq(d, v)[i]);
                }
            }
            if w.len() == a.len() {
                assert forall|i: int| 0 <= i < a.len() implies !json_eq(#[trigger] a[i], v) by {
                    if i < a.len() - 1 {
                        assert(a[i] == d[i]);
                    }
                }
            }
        }
    }
}

/// Dropping the tool's groups leaves none, and drops nothing from a list
/// that has none.
proof fn lemma_without_groups(a: Seq<JsonModel>, prefix: Seq<char>)
    ensures
        forall|i: int| 0 <= i < without_groups(a, prefix).len() ==> !is_tool_group(#[trigger] without_groups(a, prefix)[i], prefix),
        without_groups(a, prefix).len() == a.len() ==> forall|i: int| 0 <= i < a.len() ==> !is_tool_group(#[trigger] a[i], prefix),
        without_groups(a, prefix).len() <= a.len(),
    decreases a.len(),
{
    if a.len() > 0 {
        let d = a.drop_last();
        lemma_without_groups(d, prefix);
        let w = without_groups(a, prefix);
        if !is_tool_group(a.last(), prefix) {
            assert forall|i: int| 0 <= i < w.len() implies !is_tool_group(#[trigger] w[i], prefix) by {
                if i < w.len() - 1 {
                    assert(w[i] == without_groups(d, prefix)[i]);
                }
            }
            if w.len() == a.len() {
                assert forall|i: int| 0 <= i < a.len() implies !is_tool_group(#[trigger] a[i], prefix) by {
                    if i < a.len() - 1 {
                        assert(a[i] == d[i]);
                    }
                }
            }
        }
    }
}

/// After the removal at `depth`, the value at the rest of the path holds
/// none of the tool's entries.
proof fn lemma_removed_gone(m: JsonModel, op: OpModel, depth: int)
    requires
        0 <= depth <= array_path(op).len(),
        !(op is ObjectMember),
    ensures
        leaf_gone(
            at_path(
                match removed_at(m, op, depth) {
                    Some(d) => d,
                    None => m,
                },
                array_path(op).skip(depth),
            ),
            op,
        ),
    decreases array_path(op).len() - depth,
{
    let ap = array_path(op);
    let after = match removed_at(m, op, depth) {
        Some(d) => d,
        None => m,
    };
    if depth == ap.len() {
        assert(ap.skip(depth).len() == 0);
        match (m, op) {
            (JsonModel::Array(a), OpModel::ArrayEntry(_, v)) => {
                lemma_without_eq(a, v);
                let kept = without_eq(a, v);
                if kept.len() < a.len() {
                    lemma_eq_from_bounds(kept, v, 0);
                } else {
                    lemma_eq_from_bounds(a, v, 0);
                }
            },
            (JsonModel::Array(a), OpModel::HookGroup(_, prefix, _)) => {
                lemma_without_groups(a, prefix);
                let kept = without_groups(a, prefix);
                if kept.len() < a.len() {
                    lemma_group_from_bounds(kept, prefix, 0);
                } else {
                    lemma_group_from_bounds(a, prefix, 0);
                }
            },
            _ => {},
        }
    } else {
        let rest = ap.skip(depth);
        assert(rest[0] == ap[depth]);
        assert(rest.skip(1) =~= ap.skip(depth + 1));
        match m {
            JsonModel::Object(x) => {
                let key = ap[depth];
                lemma_key_from_bounds(x, key, 0);
                let k = key_from(x, key, 0);
                if 0 <= k < x.len() {
                    lemma_removed_gone(x[k].1, op, depth + 1);
                    match removed_at(x[k].1, op, depth + 1) {
                        Some(c) => {
                            let y = x.update(k, (x[k].0, c));
                            assert forall|j: int| 0 <= j < k implies #[trigger] y[j].0 != key by {
                                assert(y[j] == x[j]);
                            }
                            lemma_key_from_found(y, key, 0, k);
                            assert(member(after, key) == Some(c));
                        },
                        None => {},
                    }
                }
            },
            _ => {},
        }
    }
}

/// After an unmerge, an array operation finds no entry of the tool's: no
/// value equal to its entry, no hook group of the tool's.
pub proof fn law_unmerge_leaves_no_entry(doc: JsonModel, op: OpModel)
    requires
        !(op is ObjectMember),
    ensures
        extracted(
            match removed(doc, op) {
                Some(d) => d,
                None => doc,
            },
            op,
        ) is None,
{
    lemma_removed_gone(doc, op, 0);
    assert(array_path(op).skip(0) =~= array_path(op));
    let after = match removed(doc, op) {
        Some(d) => d,
        None => doc,
    };
    match op {
        OpModel::HookGroup(event, _, _) => {
            assert(array_path(op) == hooks_path(event));
        },
        _ => {},
    }
}

/// An object's indented items start with a newline, the indent and the
/// quote of the first key.
proof fn lemma_items_start(m: JsonModel, indent: Seq<char>, n: int)
    requires
        m is Object,
        1 <= n <= crate::json::width(m),
    ensures
        crate::json::pretty_form_items(m, indent, Seq::empty(), n).len() >= indent.len() + 2,
        crate::json::pretty_form_items(m, indent, Seq::empty(), n).take(indent.len() as int + 2) == seq!['\n'] + indent
            + seq!['"'],
    decreases n,
{
    let e = Seq::<char>::empty();
    let inner = e + indent;
    assert(inner =~= indent);
    let x = m->Object_0;
    let item = inner + crate::json::json_quoted(x[n - 1].0) + ": "@ + crate::json::pretty_form(x[n - 1].1, indent, inner);
    let p = seq!['\n'] + indent + seq!['"'];
    reveal_strlit("\n");
    reveal_strlit(",\n");
    if n == 1 {
        let t = "\n"@ + item;
        assert(t == crate::json::pretty_form_items(m, indent, e, n));
        assert(t.take(indent.len() as int + 2) =~= p);
    } else {
        lemma_items_start(m, indent, n - 1);
        let prev = crate::json::pretty_form_items(m, indent, e, n - 1);
        let t = prev + ",\n"@ + item;
        assert(t == crate::json::pretty_form_items(m, indent, e, n));
        assert(t.take(indent.len() as int + 2) =~= prev.take(indent.len() as int + 2));
    }
}

/// The first line of a text begins with a beginning of the text that holds
/// no newline.
proof fn lemma_first_line_prefix(u: Seq<char>, q: Seq<char>)
    requires
        q.len() <= u.len(),
        u.take(q.len() as int) == q,
        !q.contains('\n'),
    ensures
        split_lines(u)[0].len() >= q.len(),
        split_lines(u)[0].take(q.len() as int) == q,
    decreases u.len(),
{
    if u.len() == q.len() {
        assert(u.take(q.len() as int) =~= u);
        crate::lines::lemma_split_single(q);
    } else {
        let d = u.drop_last();
        assert(d.take(q.len() as int) =~= u.take(q.len() as int));
        lemma_first_line_prefix(d, q);
        crate::lines::lemma_split_lines_len(d);
        let s = split_lines(d);
        if u.last() != '\n' && s.len() == 1 {
            assert(split_lines(u)[0] == s[0].push(u.last()));
            assert(s[0].push(u.last()).take(q.len() as int) =~= s[0].take(q.len() as int));
        }
    }
}

/// Spaces and tabs then a non-blank character lead with exactly those.
proof fn lemma_leading_ws(l: Seq<char>, indent: Seq<char>)
    requires
        l.len() > indent.len(),
        l.take(indent.len() as int) == indent,
        forall|i: int| 0 <= i < indent.len() ==> #[trigger] indent[i] == ' ' || indent[i] == '\t',
        !crate::lines::is_ws(l[indent.len() as int]),
    ensures
        crate::lines::leading_ws_len(l) == indent.len(),
    decreases indent.len(),
{
    if indent.len() > 0 {
        assert(l[0] == indent[0]);
        assert(crate::lines::is_ws(l[0]));
        let l1 = l.skip(1);
        let i1 = indent.skip(1);
        assert(l1.take(i1.len() as int) =~= i1) by {
            assert forall|k: int| 0 <= k < i1.len() implies l1[k] == i1[k] by {
                assert(l[k + 1] == l.take(indent.len() as int)[k + 1]);
            }
        }
        assert forall|k: int| 0 <= k < i1.len() implies #[trigger] i1[k] == ' ' || i1[k] == '\t' by {
            assert(i1[k] == indent[k + 1]);
        }
        assert(l1[i1.len() as int] == l[indent.len() as int]);
        lemma_leading_ws(l1, i1);
    }
}

/// The indented text of an object with members in a merge's style, with a
/// trailing newline or not.
pub open spec fn styled(doc: JsonModel, indent: Seq<char>, nl: bool) -> Seq<char> {
    crate::json::pretty_form(doc, indent, Seq::empty()) + if nl {
        "\n"@
    } else {
        Seq::empty()
    }
}

/// A merge keeps its file's style: the indented text of an object with at
/// least one member, indented by spaces and tabs, has that indent as its
/// indent, and ends with a newline exactly when written with one. (For a
/// plain document this text is what `json_text` writes; see `plain_json`.)
#[verifier::spinoff_prover]
pub proof fn law_merge_keeps_style(doc: JsonModel, indent: Seq<char>, nl: bool)
    requires
        doc is Object,
        crate::json::width(doc) > 0,
        indent.len() > 0,
        forall|i: int| 0 <= i < indent.len() ==> #[trigger] indent[i] == ' ' || indent[i] == '\t',
    ensures
        indent_of_text(styled(doc, indent, nl)) == indent,
        ends_with_newline(styled(doc, indent, nl)) == nl,
{
    let e = Seq::<char>::empty();
    let x = doc->Object_0;
    let n = x.len() as int;
    reveal_strlit("{");
    reveal_strlit("}");
    reveal_strlit("\n");
    let items = crate::json::pretty_form_items(doc, indent, e, n);
    let body = "{"@ + items + "\n"@ + e + "}"@;
    assert(crate::json::pretty_form(doc, indent, e) == body);
    let t = styled(doc, indent, nl);
    lemma_items_start(doc, indent, n);
    let rest = t.skip(2);
    assert(t == seq!['{'] + seq!['\n'] + rest) by {
        assert(t[0] == '{');
        assert(t[1] == items[0]);
        assert(items.take(indent.len() as int + 2)[0] == '\n');
        assert(t =~= seq!['{'] + seq!['\n'] + rest);
    }
    let q = indent + seq!['"'];
    assert(rest.take(q.len() as int) =~= q) by {
        assert forall|k: int| 0 <= k < q.len() implies rest[k] == q[k] by {
            assert(rest[k] == t[k + 2]);
            assert(t[k + 2] == items[k + 1]);
            assert(items[k + 1] == items.take(indent.len() as int + 2)[k + 1]);
        }
    }
    assert(!q.contains('\n')) by {
        if q.contains('\n') {
            let k = choose|k: int| 0 <= k < q.len() && q[k] == '\n';
            if k < indent.len() {
                assert(q[k] == indent[k]);
            }
        }
    }
    crate::lines::lemma_split_concat(seq!['{'], rest);
    assert(!seq!['{'].contains('\n')) by {
        if seq!['{'].contains('\n') {
            let k = choose|k: int| 0 <= k < 1 && seq!['{'][k] == '\n';
        }
    }
    crate::lines::lemma_split_single(seq!['{']);
    lemma_first_line_prefix(rest, q);
    crate::lines::lemma_split_lines_len(rest);
    let ls = split_lines(t);
    assert(ls == seq![seq!['{']] + split_lines(rest));
    assert(ls[0] == seq!['{']);
    assert(ls[1] == split_lines(rest)[0]);
    let l = strip_cr(ls[1]);
    assert(l.take(q.len() as int) =~= q) by {
        if ls[1].len() > 0 && ls[1].last() == '\r' {
            assert(ls[1].len() > q.len()) by {
                assert(ls[1].take(q.len() as int)[q.len() - 1] == q[q.len() - 1]);
                assert(ls[1][q.len() - 1] == '"');
            }
            assert forall|k: int| 0 <= k < q.len() implies l[k] == q[k] by {
                assert(l[k] == ls[1][k]);
                assert(ls[1][k] == ls[1].take(q.len() as int)[k]);
            }
        } else {
            assert forall|k: int| 0 <= k < q.len() implies l[k] == q[k] by {
                assert(ls[1][k] == ls[1].take(q.len() as int)[k]);
            }
        }
    }
    assert(!is_indented(strip_cr(ls[0])));
    assert(is_indented(l)) by {
        assert(l[0] == q[0]);
        assert(q[0] == indent[0]);
    }
    assert(ls.len() >= 2);
    assert(l.len() >= q.len());
    assert(first_indented(ls, 1) == Some(1int));
    assert(first_indented(ls, 0) == first_indented(ls, 1));
    assert(l.take(indent.len() as int) =~= indent) by {
        assert forall|k: int| 0 <= k < indent.len() implies l[k] == indent[k] by {
            assert(l[k] == q[k]);
        }
    }
    assert(q[indent.len() as int] == '"');
    assert(l.take(q.len() as int)[indent.len() as int] == q[indent.len() as int]);
    assert(l[indent.len() as int] == '"');
    lemma_leading_ws(l, indent);
    if !nl {
        assert(t == body);
        assert(t.last() == '}');
    }
}

} // verus!
