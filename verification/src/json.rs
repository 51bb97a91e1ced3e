//! JSON values as the merge logic reads them, and their compact and
//! indented text as `serde_json` writes them.

use vstd::prelude::*;

use crate::text::{append_str, string_of};

verus! {

/// A JSON value. An object keeps its members in order.
#[derive(Debug)]
pub enum Json {
    /// `null`.
    Null,
    /// `true` or `false`.
    Bool(bool),
    /// A number, as its JSON text.
    Number(String),
    /// A string.
    Str(String),
    /// An array.
    Array(Vec<Json>),
    /// An object: its members in order.
    Object(Vec<(String, Json)>),
}

/// A JSON value as plain values.
pub enum JsonModel {
    Null,
    Bool(bool),
    Number(Seq<char>),
    Str(Seq<char>),
    Array(Seq<JsonModel>),
    Object(Seq<(Seq<char>, JsonModel)>),
}

/// The plain value of `j`.
pub open spec fn model(j: Json) -> JsonModel
    decreases j,
{
    match j {
        Json::Null => JsonModel::Null,
        Json::Bool(b) => JsonModel::Bool(b),
        Json::Number(n) => JsonModel::Number(n@),
        Json::Str(s) => JsonModel::Str(s@),
        Json::Array(x) => JsonModel::Array(
            Seq::new(x@.len(), |i: int| if 0 <= i < x@.len() { model(x@[i]) } else { JsonModel::Null }),
        ),
        Json::Object(x) => JsonModel::Object(
            Seq::new(
                x@.len(),
                |i: int|
                    if 0 <= i < x@.len() {
                        (x@[i].0@, model(x@[i].1))
                    } else {
                        (Seq::empty(), JsonModel::Null)
                    },
            ),
        ),
    }
}

/// A value and its plain value have the same kind.
pub proof fn lemma_model_kind(j: Json)
    ensures
        j is Null <==> model(j) is Null,
        j is Bool <==> model(j) is Bool,
        j is Number <==> model(j) is Number,
        j is Str <==> model(j) is Str,
        j is Array <==> model(j) is Array,
        j is Object <==> model(j) is Object,
{
}

/// The plain values of a list of values.
pub open spec fn models(s: Seq<Json>) -> Seq<JsonModel> {
    s.map_values(|j: Json| model(j))
}

/// The plain members of an object.
pub open spec fn members(s: Seq<(String, Json)>) -> Seq<(Seq<char>, JsonModel)> {
    s.map_values(|m: (String, Json)| (m.0@, model(m.1)))
}

/// An array's plain value is the list of its elements' plain values.
pub proof fn lemma_array_model(x: Vec<Json>)
    ensures
        model(Json::Array(x)) == JsonModel::Array(models(x@)),
{
    assert(model(Json::Array(x))->Array_0 =~= models(x@));
}

/// An object's plain value is the list of its members' plain values.
pub proof fn lemma_object_model(x: Vec<(String, Json)>)
    ensures
        model(Json::Object(x)) == JsonModel::Object(members(x@)),
{
    assert(model(Json::Object(x))->Object_0 =~= members(x@));
}

/// How many members or elements `m` has: zero for a scalar.
pub open spec fn width(m: JsonModel) -> nat {
    match m {
        JsonModel::Array(x) => x.len(),
        JsonModel::Object(x) => x.len(),
        _ => 0,
    }
}

/// Whether two values are the same JSON value: arrays element by element,
/// objects by their members whatever their order (as `serde_json::Value`
/// compares them).
pub open spec fn json_eq(a: JsonModel, b: JsonModel) -> bool
    decreases a, width(a) + 1, 0int,
{
    match a {
        JsonModel::Null => b is Null,
        JsonModel::Bool(x) => b matches JsonModel::Bool(y) && x == y,
        JsonModel::Number(x) => b matches JsonModel::Number(y) && x == y,
        JsonModel::Str(x) => b matches JsonModel::Str(y) && x == y,
        JsonModel::Array(x) => match b {
            JsonModel::Array(y) => x.len() == y.len() && elements_eq(a, b, x.len() as int),
            _ => false,
        },
        JsonModel::Object(x) => match b {
            JsonModel::Object(y) => x.len() == y.len() && members_found(a, b, x.len() as int),
            _ => false,
        },
    }
}

/// The first `n` elements of the arrays `a` and `b` are the same values.
pub open spec fn elements_eq(a: JsonModel, b: JsonModel, n: int) -> bool
    decreases a, n, 0int,
{
    if n <= 0 || n > width(a) {
        true
    } else {
        match (a, b) {
            (JsonModel::Array(x), JsonModel::Array(y)) => elements_eq(a, b, n - 1) && n <= y.len()
                && json_eq(x[n - 1], y[n - 1]),
            _ => false,
        }
    }
}

/// Each of the first `n` members of the object `a` is a member of `b`.
pub open spec fn members_found(a: JsonModel, b: JsonModel, n: int) -> bool
    decreases a, n, 1int,
{
    if n <= 0 || n > width(a) {
        true
    } else {
        members_found(a, b, n - 1) && member_in(a, b, n - 1, width(b) as int)
    }
}

/// Member `i` of the object `a` is among the first `m` members of `b`:
/// same key, same value.
pub open spec fn member_in(a: JsonModel, b: JsonModel, i: int, m: int) -> bool
    decreases a, i, m,
{
    if m <= 0 || m > width(b) || i < 0 || i >= width(a) {
        false
    } else {
        match (a, b) {
            (JsonModel::Object(x), JsonModel::Object(y)) => member_in(a, b, i, m - 1) || (x[i].0
                == y[m - 1].0 && json_eq(x[i].1, y[m - 1].1)),
            _ => false,
        }
    }
}

/// `serde_json`'s value type, carried through the parser's wrapper.
#[verifier::external_type_specification]
#[verifier::external_body]
pub struct ExJsonValue(serde_json::Value);

/// What `serde_json::from_str` makes of `text`: the document, or the
/// parser's message.
pub uninterp spec fn json_parsed(text: Seq<char>) -> Result<JsonModel, Seq<char>>;

/// A `serde_json` value as a [`Json`], one variant for one: numbers as
/// their JSON text, objects with their members in order.
#[verifier::external_body]
fn json_of_value(v: &serde_json::Value) -> (j: Json) {
    match v {
        serde_json::Value::Null => Json::Null,
        serde_json::Value::Bool(b) => Json::Bool(*b),
        serde_json::Value::Number(n) => Json::Number(n.to_string()),
        serde_json::Value::String(s) => Json::Str(s.clone()),
        serde_json::Value::Array(a) => Json::Array(a.iter().map(json_of_value).collect()),
        serde_json::Value::Object(m) => Json::Object(m.iter().map(|(k, v)| (k.clone(), json_of_value(v))).collect()),
    }
}

/// Parses `text` as JSON: calls `serde_json::from_str` into a
/// `serde_json::Value` and converts the value one for one; the parser's
/// error as its message. The contract names the outcome, a function of the
/// text alone.
#[verifier::external_body]
pub(crate) fn parse_json_text(text: &str) -> (r: Result<Json, String>)
    ensures
        match r {
            Ok(j) => json_parsed(text@) == Ok::<JsonModel, Seq<char>>(model(j)),
            Err(m) => json_parsed(text@) == Err::<JsonModel, Seq<char>>(m@),
        },
{
    serde_json::from_str::<serde_json::Value>(text).map(|v| json_of_value(&v)).map_err(|e| e.to_string())
}

/// The lowercase hexadecimal digit `d` (below sixteen).
pub open spec fn hex_digit(d: nat) -> char {
    if d < 10 {
        ((48 + d) as u8) as char
    } else {
        ((87 + d) as u8) as char
    }
}

/// How `serde_json` writes one character inside a string literal: `"` and
/// `\` behind a backslash; backspace, form feed, line feed, carriage return
/// and tab as `\b`, `\f`, `\n`, `\r`, `\t`; any other character below
/// U+0020 as `\u00` and two lowercase hexadecimal digits; every other
/// character as it is.
pub open spec fn escaped_char(c: char) -> Seq<char> {
    let u = c as u32;
    if c == '"' {
        seq!['\\', '"']
    } else if c == '\\' {
        seq!['\\', '\\']
    } else if u == 8 {
        seq!['\\', 'b']
    } else if u == 12 {
        seq!['\\', 'f']
    } else if c == '\n' {
        seq!['\\', 'n']
    } else if c == '\r' {
        seq!['\\', 'r']
    } else if c == '\t' {
        seq!['\\', 't']
    } else if u < 0x20 {
        seq!['\\', 'u', '0', '0', hex_digit((u / 16) as nat), hex_digit((u % 16) as nat)]
    } else {
        seq![c]
    }
}

/// The characters of `s`, each as `serde_json` writes it in a string.
pub open spec fn escaped_text(s: Seq<char>) -> Seq<char>
    decreases s.len(),
{
    if s.len() == 0 {
        Seq::empty()
    } else {
        escaped_text(s.drop_last()) + escaped_char(s.last())
    }
}

/// The JSON string literal of `s` as `serde_json` writes it: between double
/// quotes, each character escaped as `escaped_char` says.
pub open spec fn json_quoted(s: Seq<char>) -> Seq<char> {
    seq!['"'] + escaped_text(s) + seq!['"']
}

/// `s` as a JSON string literal: quotes and escapes included.
///
/// Calls `serde_json::to_string` on the string, which cannot fail for a
/// `str`. Its serializer (`format_escaped_str` with the `ESCAPE` table in
/// `ser.rs`) writes the quotes and escapes each character as
/// `escaped_char` states; the contract claims that text.
#[verifier::external_body]
pub(crate) fn quote(s: &str) -> (q: String)
    ensures
        q@ == json_quoted(s@),
{
    serde_json::to_string(s).unwrap_or_default()
}

/// A number text that `serde_json` writes back as it is: an integer of at
/// most eighteen digits, without leading zeros, and not `-0`.
pub open spec fn plain_number(n: Seq<char>) -> bool {
    let d = if n.len() > 0 && n[0] == '-' { n.skip(1) } else { n };
    &&& 1 <= d.len() <= 18
    &&& forall|i: int| 0 <= i < d.len() ==> '0' <= #[trigger] d[i] <= '9'
    &&& d[0] == '0' ==> n.len() == 1
}

/// A value whose text `serde_json` writes as the value shows it: every
/// number plain, and no object with a key twice.
pub open spec fn plain_json(m: JsonModel) -> bool
    decreases m, width(m) + 1,
{
    match m {
        JsonModel::Number(n) => plain_number(n),
        JsonModel::Array(x) => plain_items(m, x.len() as int),
        JsonModel::Object(x) => plain_items(m, x.len() as int) && forall|i: int, k: int|
            0 <= i < k < x.len() ==> #[trigger] x[i].0 != #[trigger] x[k].0,
        _ => true,
    }
}

/// The first `n` elements or member values of `m` are plain.
pub open spec fn plain_items(m: JsonModel, n: int) -> bool
    decreases m, n,
{
    if n <= 0 || n > width(m) {
        true
    } else {
        plain_items(m, n - 1) && match m {
            JsonModel::Array(x) => plain_json(x[n - 1]),
            JsonModel::Object(x) => plain_json(x[n - 1].1),
            _ => true,
        }
    }
}

/// The compact text of a plain value (see `plain_json`), as
/// `serde_json::to_string` writes it.
pub open spec fn compact_form(m: JsonModel) -> Seq<char>
    decreases m, width(m) + 1,
{
    match m {
        JsonModel::Null => "null"@,
        JsonModel::Bool(b) => if b {
            "true"@
        } else {
            "false"@
        },
        JsonModel::Number(n) => n,
        JsonModel::Str(s) => json_quoted(s),
        JsonModel::Array(x) => "["@ + compact_form_items(m, x.len() as int) + "]"@,
        JsonModel::Object(x) => "{"@ + compact_form_items(m, x.len() as int) + "}"@,
    }
}

/// The first `n` elements or members of `m`, compact and comma-separated.
pub open spec fn compact_form_items(m: JsonModel, n: int) -> Seq<char>
    decreases m, n,
{
    if n <= 0 || n > width(m) {
        Seq::empty()
    } else {
        let sep = if n == 1 {
            Seq::empty()
        } else {
            compact_form_items(m, n - 1) + ","@
        };
        match m {
            JsonModel::Array(x) => sep + compact_form(x[n - 1]),
            JsonModel::Object(x) => sep + json_quoted(x[n - 1].0) + ":"@ + compact_form(x[n - 1].1),
            _ => Seq::empty(),
        }
    }
}

/// The indented text of a plain value whose line starts with `pad`, as
/// `serde_json`'s `PrettyFormatter` writes it with `indent`.
pub open spec fn pretty_form(m: JsonModel, indent: Seq<char>, pad: Seq<char>) -> Seq<char>
    decreases m, width(m) + 1,
{
    match m {
        JsonModel::Array(x) => if x.len() == 0 {
            "[]"@
        } else {
            "["@ + pretty_form_items(m, indent, pad, x.len() as int) + "\n"@ + pad + "]"@
        },
        JsonModel::Object(x) => if x.len() == 0 {
            "{}"@
        } else {
            "{"@ + pretty_form_items(m, indent, pad, x.len() as int) + "\n"@ + pad + "}"@
        },
        _ => compact_form(m),
    }
}

/// The first `n` elements or members of `m`, each on a line of its own
/// indented one step deeper than `pad`.
pub open spec fn pretty_form_items(m: JsonModel, indent: Seq<char>, pad: Seq<char>, n: int) -> Seq<char>
    decreases m, n,
{
    if n <= 0 || n > width(m) {
        Seq::empty()
    } else {
        let sep = if n == 1 {
            "\n"@
        } else {
            pretty_form_items(m, indent, pad, n - 1) + ",\n"@
        };
        let inner = pad + indent;
        match m {
            JsonModel::Array(x) => sep + inner + pretty_form(x[n - 1], indent, inner),
            JsonModel::Object(x) => sep + inner + json_quoted(x[n - 1].0) + ": "@ + pretty_form(
                x[n - 1].1,
                indent,
                inner,
            ),
            _ => Seq::empty(),
        }
    }
}

/// The compact text of a value as `serde_json::to_string` writes it for
/// the `serde_json::Value` the value converts to.
pub uninterp spec fn json_compact(m: JsonModel) -> Seq<char>;

/// The indented text of a value as `serde_json`'s serializer with
/// `PrettyFormatter::with_indent(indent)` writes it for the
/// `serde_json::Value` the value converts to.
pub uninterp spec fn json_pretty(m: JsonModel, indent: Seq<char>) -> Seq<char>;

/// A [`Json`] as a `serde_json` value, one variant for one: a number from
/// its JSON text (`null` where the text is no JSON number), an object with
/// its members in order.
#[verifier::external_body]
fn value_of_json(j: &Json) -> serde_json::Value {
    match j {
        Json::Null => serde_json::Value::Null,
        Json::Bool(b) => serde_json::Value::Bool(*b),
        Json::Number(n) => n.parse::<serde_json::Number>().map(serde_json::Value::Number).unwrap_or(serde_json::Value::Null),
        Json::Str(s) => serde_json::Value::String(s.clone()),
        Json::Array(a) => serde_json::Value::Array(a.iter().map(value_of_json).collect()),
        Json::Object(m) => serde_json::Value::Object(m.iter().map(|(k, v)| (k.clone(), value_of_json(v))).collect()),
    }
}

/// The compact text of `j`: calls `serde_json::to_string` on the value `j`
/// converts to, which cannot fail for a `serde_json::Value`. The contract
/// names the text, a function of the value alone.
#[verifier::external_body]
fn compact_json(j: &Json) -> (s: String)
    ensures
        s@ == json_compact(model(*j)),
        plain_json(model(*j)) ==> s@ == compact_form(model(*j)),
{
    serde_json::to_string(&value_of_json(j)).unwrap_or_default()
}

/// The indented text of `j`: serialises the value `j` converts to with
/// `serde_json::Serializer::with_formatter` and
/// `PrettyFormatter::with_indent(indent)`, which cannot fail for a
/// `serde_json::Value` and writes UTF-8. The contract names the text, a
/// function of the value and the indent alone.
#[verifier::external_body]
fn pretty_json(j: &Json, indent: &str) -> (s: String)
    ensures
        s@ == json_pretty(model(*j), indent@),
        plain_json(model(*j)) ==> s@ == pretty_form(model(*j), indent@, Seq::empty()),
{
    let mut buf: Vec<u8> = Vec::new();
    let mut ser = serde_json::Serializer::with_formatter(&mut buf, serde_json::ser::PrettyFormatter::with_indent(indent.as_bytes()));
    match serde::Serialize::serialize(&value_of_json(j), &mut ser) {
        Ok(()) => String::from_utf8(buf).unwrap_or_default(),
        Err(_) => String::new(),
    }
}

/// How many members or elements `j` has.
pub fn width_of(j: &Json) -> (n: usize)
    ensures
        n == width(model(*j)),
{
    match j {
        Json::Array(x) => x.len(),
        Json::Object(x) => x.len(),
        _ => 0,
    }
}

/// Whether two values are the same JSON value.
pub fn same_json(a: &Json, b: &Json) -> (r: bool)
    ensures
        r == json_eq(model(*a), model(*b)),
    decreases a, width(model(*a)) + 1, 0int,
{
    proof {
        lemma_model_kind(*a);
        lemma_model_kind(*b);
    }
    match a {
        Json::Null => match b {
            Json::Null => true,
            _ => false,
        },
        Json::Bool(x) => match b {
            Json::Bool(y) => *x == *y,
            _ => false,
        },
        Json::Number(x) => match b {
            Json::Number(y) => *x == *y,
            _ => false,
        },
        Json::Str(x) => match b {
            Json::Str(y) => *x == *y,
            _ => false,
        },
        Json::Array(x) => match b {
            Json::Array(y) => x.len() == y.len() && same_elements(a, b, x.len()),
            _ => false,
        },
        Json::Object(x) => match b {
            Json::Object(y) => x.len() == y.len() && all_members_found(a, b, x.len()),
            _ => false,
        },
    }
}

fn same_elements(a: &Json, b: &Json, n: usize) -> (r: bool)
    requires
        n <= width(model(*a)),
    ensures
        r == elements_eq(model(*a), model(*b), n as int),
    decreases a, n, 0int,
{
    if n == 0 {
        return true;
    }
    match (a, b) {
        (Json::Array(x), Json::Array(y)) => {
            if !same_elements(a, b, n - 1) {
                return false;
            }
            if n > y.len() {
                return false;
            }
            same_json(&x[n - 1], &y[n - 1])
        },
        _ => false,
    }
}

fn all_members_found(a: &Json, b: &Json, n: usize) -> (r: bool)
    requires
        n <= width(model(*a)),
    ensures
        r == members_found(model(*a), model(*b), n as int),
    decreases a, n, 1int,
{
    if n == 0 {
        return true;
    }
    if !all_members_found(a, b, n - 1) {
        return false;
    }
    let m = width_of(b);
    is_member_in(a, b, n - 1, m)
}

fn is_member_in(a: &Json, b: &Json, i: usize, m: usize) -> (r: bool)
    requires
        m <= width(model(*b)),
    ensures
        r == member_in(model(*a), model(*b), i as int, m as int),
    decreases a, i, m,
{
    if m == 0 || i >= width_of(a) {
        return false;
    }
    match (a, b) {
        (Json::Object(x), Json::Object(y)) => {
            if is_member_in(a, b, i, m - 1) {
                return true;
            }
            x[i].0 == y[m - 1].0 && same_json(&x[i].1, &y[m - 1].1)
        },
        _ => false,
    }
}

/// A copy of `s`.
pub fn copy_string(s: &String) -> (r: String)
    ensures
        r@ == s@,
{
    s.clone()
}

/// A copy of `j`: the same plain value.
#[verifier::loop_isolation(false)]
pub fn copy_json(j: &Json) -> (r: Json)
    ensures
        model(r) == model(*j),
    decreases j,
{
    match j {
        Json::Null => Json::Null,
        Json::Bool(b) => Json::Bool(*b),
        Json::Number(n) => Json::Number(copy_string(n)),
        Json::Str(s) => Json::Str(copy_string(s)),
        Json::Array(x) => {
            let mut out: Vec<Json> = Vec::new();
            let mut i: usize = 0;
            while i < x.len()
                invariant
                    *j == Json::Array(*x),
                    i <= x.len(),
                    out@.len() == i,
                    forall|k: int| 0 <= k < i ==> #[trigger] model(out@[k]) == model(x@[k]),
                decreases x.len() - i,
            {
                out.push(copy_json(&x[i]));
                i = i + 1;
            }
            let r = Json::Array(out);
            assert forall|k: int| 0 <= k < x@.len() implies model(r)->Array_0[k] == model(*j)->Array_0[k] by {
                assert(model(out@[k]) == model(x@[k]));
            }
            assert(model(r)->Array_0 =~= model(*j)->Array_0);
            r
        },
        Json::Object(x) => {
            let mut out: Vec<(String, Json)> = Vec::new();
            let mut i: usize = 0;
            while i < x.len()
                invariant
                    *j == Json::Object(*x),
                    i <= x.len(),
                    out@.len() == i,
                    forall|k: int|
                        0 <= k < i ==> out@[k].0@ == x@[k].0@ && #[trigger] model(out@[k].1) == model(
                            x@[k].1,
                        ),
                decreases x.len() - i,
            {
                out.push((copy_string(&x[i].0), copy_json(&x[i].1)));
                i = i + 1;
            }
            let r = Json::Object(out);
            assert forall|k: int| 0 <= k < x@.len() implies model(r)->Object_0[k] == model(*j)->Object_0[k] by {
                assert(model(out@[k].1) == model(x@[k].1));
            }
            assert(model(r)->Object_0 =~= model(*j)->Object_0);
            r
        },
    }
}

/// The compact text of `j`, as `serde_json::to_string` writes it.
pub fn compact_text(j: &Json) -> (s: String)
    ensures
        s@ == json_compact(model(*j)),
        plain_json(model(*j)) ==> s@ == compact_form(model(*j)),
{
    compact_json(j)
}

/// `doc` indented with `indent`, and a trailing newline when
/// `trailing_newline`.
pub open spec fn json_text_of(doc: JsonModel, indent: Seq<char>, trailing_newline: bool) -> Seq<char> {
    if trailing_newline {
        json_pretty(doc, indent) + "\n"@
    } else {
        json_pretty(doc, indent)
    }
}

/// Serialise with an indent and, when asked, a trailing newline.
pub fn json_text(doc: &Json, indent: &str, trailing_newline: bool) -> (s: String)
    ensures
        s@ == json_text_of(model(*doc), indent@, trailing_newline),
        plain_json(model(*doc)) ==> s@ == pretty_form(model(*doc), indent@, Seq::empty()) + if trailing_newline {
            "\n"@
        } else {
            Seq::empty()
        },
{
    let text = pretty_json(doc, indent);
    if trailing_newline {
        let mut out = crate::text::chars_of(text.as_str());
        append_str(&mut out, "\n");
        string_of(&out)
    } else {
        text
    }
}

/// Member `i` of an object is found among its own first `m` members, for
/// any `m` past it.
proof fn lemma_member_in_self(a: JsonModel, i: int, m: int)
    requires
        a is Object,
        0 <= i < m <= width(a),
        json_eq(a->Object_0[i].1, a->Object_0[i].1),
    ensures
        member_in(a, a, i, m),
    decreases m,
{
    if m > i + 1 {
        lemma_member_in_self(a, i, m - 1);
    }
}

/// Every value equals itself.
pub proof fn lemma_json_eq_refl(a: JsonModel)
    ensures
        json_eq(a, a),
    decreases a,
{
    match a {
        JsonModel::Array(x) => {
            lemma_elements_eq_refl(a, x.len() as int);
        },
        JsonModel::Object(x) => {
            lemma_members_found_refl(a, x.len() as int);
        },
        _ => {},
    }
}

proof fn lemma_elements_eq_refl(a: JsonModel, n: int)
    requires
        a is Array,
        0 <= n <= width(a),
    ensures
        elements_eq(a, a, n),
    decreases a, n,
{
    if n > 0 {
        lemma_elements_eq_refl(a, n - 1);
        let x = a->Array_0;
        assert(decreases_to!(a => x[n - 1]));
        lemma_json_eq_refl(x[n - 1]);
    }
}

proof fn lemma_members_found_refl(a: JsonModel, n: int)
    requires
        a is Object,
        0 <= n <= width(a),
    ensures
        members_found(a, a, n),
    decreases a, n,
{
    if n > 0 {
        lemma_members_found_refl(a, n - 1);
        let x = a->Object_0;
        assert(decreases_to!(a => x[n - 1].1));
        lemma_json_eq_refl(x[n - 1].1);
        lemma_member_in_self(a, n - 1, width(a) as int);
    }
}

} // verus!
