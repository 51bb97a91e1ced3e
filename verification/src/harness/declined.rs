//! The declined parts: the `[harness.<name>] without = [...]` list of a
//! TOML config file, read and set.

use vstd::prelude::*;

use toml_edit::{Array, DocumentMut, Item, Table, Value};

use crate::error::{Error, ErrorView};
use crate::harness::record::{parse_of, parse_toml_opt, refusal, toml_parsed, TomlValue};
use crate::json::copy_string;
use crate::harness::region::opt_view;
use crate::text::{append_str, chars_of, str_eq, string_of};

verus! {

/// Where the parts a user declined are kept.
pub trait DeclinedStore {
    /// The declined parts of `harness`; a store that cannot be read is a
    /// refusal, met before any write of an install.
    fn declined(&self, harness: &str) -> Result<Vec<String>, Error>;

    /// Set the declined parts of `harness` to `parts`, writing only on
    /// change; called once every part is written.
    fn set_declined(&self, harness: &str, parts: &[String]) -> Result<(), Error>;
}

/// A declined store in a TOML file: `[harness.<name>] without = [...]`.
#[derive(Debug, PartialEq, Eq)]
pub struct TomlDeclined {
    /// The file, e.g. `.smllm/config.toml`.
    pub path: String,
    /// The file's name in a refusal.
    pub display: String,
}

impl TomlDeclined {
    /// The store in the file `path`, named `display` in refusals.
    pub fn new(path: &str, display: &str) -> (s: Self)
        ensures
            s.path@ == path@,
            s.display@ == display@,
    {
        TomlDeclined { path: path.to_string(), display: display.to_string() }
    }
}

/// The value of the first entry of `t` named `key`.
pub open spec fn toml_get(t: Seq<(String, TomlValue)>, key: Seq<char>) -> Option<TomlValue>
    decreases t.len(),
{
    if t.len() == 0 {
        None
    } else if t[0].0@ == key {
        Some(t[0].1)
    } else {
        toml_get(t.skip(1), key)
    }
}

/// The strings of a list of values; `None` when one is not a string.
pub open spec fn all_strings(items: Seq<TomlValue>) -> Option<Seq<Seq<char>>>
    decreases items.len(),
{
    if items.len() == 0 {
        Some(Seq::empty())
    } else {
        match (all_strings(items.drop_last()), items.last()) {
            (Some(s), TomlValue::Str(x)) => Some(s.push(x@)),
            _ => None,
        }
    }
}

/// The declined parts of `harness` in a config document: none when a
/// table or the list is missing, a refusal naming `display` when a value
/// has the wrong type.
pub open spec fn declined_in(display: Seq<char>, harness: Seq<char>, doc: Seq<(String, TomlValue)>) -> Result<Seq<Seq<char>>, ErrorView> {
    let not_list = refusal(display, "`harness."@ + harness + ".without` is not a list of part names"@);
    match toml_get(doc, "harness"@) {
        None => Ok(Seq::empty()),
        Some(TomlValue::Table(h)) => match toml_get(h@, harness) {
            None => Ok(Seq::empty()),
            Some(TomlValue::Table(t)) => match toml_get(t@, "without"@) {
                None => Ok(Seq::empty()),
                Some(TomlValue::Array(items)) => match all_strings(items@) {
                    Some(s) => Ok(s),
                    None => Err(not_list),
                },
                Some(_) => Err(not_list),
            },
            Some(_) => Err(refusal(display, "`harness."@ + harness + "` is not a table"@)),
        },
        Some(_) => Err(refusal(display, "`harness` is not a table"@)),
    }
}

/// The declined parts of `harness` from a config file's parse (`None` when
/// the file is absent).
pub open spec fn declined_read(
    display: Seq<char>,
    harness: Seq<char>,
    parsed: Option<Result<Seq<(String, TomlValue)>, Seq<char>>>,
) -> Result<Seq<Seq<char>>, ErrorView> {
    match parsed {
        None => Ok(Seq::empty()),
        Some(Err(m)) => Err(refusal(display, m)),
        Some(Ok(doc)) => declined_in(display, harness, doc),
    }
}

/// The characters of each string.
pub open spec fn names_view(v: Seq<String>) -> Seq<Seq<char>> {
    v.map_values(|s: String| s@)
}

/// The value of the first entry of `t` named `key`.
pub(crate) fn get_value<'a>(t: &'a Vec<(String, TomlValue)>, key: &str) -> (r: Option<&'a TomlValue>)
    ensures
        match r {
            Some(v) => toml_get(t@, key@) == Some(*v),
            None => toml_get(t@, key@) is None,
        },
{
    let mut i: usize = 0;
    assert(t@.skip(0) =~= t@);
    while i < t.len()
        invariant
            i <= t@.len(),
            toml_get(t@, key@) == toml_get(t@.skip(i as int), key@),
        decreases t@.len() - i,
    {
        assert(t@.skip(i as int)[0] == t@[i as int]);
        if str_eq(t[i].0.as_str(), key) {
            return Some(&t[i].1);
        }
        assert(t@.skip(i as int).skip(1) =~= t@.skip(i + 1));
        i = i + 1;
    }
    None
}

/// The refusal `<display>: <m>`.
fn refuse_with(display: &str, m: Vec<char>) -> (e: Error)
    ensures
        e@ == refusal(display@, m@),
{
    let mut out = chars_of(display);
    append_str(&mut out, ": ");
    let mut mm = m;
    out.append(&mut mm);
    proof {
        reveal_strlit(": ");
    }
    Error::Harness(string_of(&out))
}

/// The declined parts of `harness` in a config file's text (`None` when
/// the file is absent): the list `harness.<name>.without`; none when a
/// table or the list is missing; a refusal naming `display` when the text
/// does not parse as TOML or a value has the wrong type.
pub fn declined_parts(display: &str, harness: &str, text: Option<&str>) -> (r: Result<Vec<String>, Error>)
    ensures
        exists|p: Option<Result<Seq<(String, TomlValue)>, Seq<char>>>|
            #[trigger] parse_of(opt_view(text), p) && match declined_read(display@, harness@, p) {
                Ok(s) => r matches Ok(v) && names_view(v@) == s,
                Err(e) => r matches Err(x) && x@ == e,
            },
{
    let parsed = parse_toml_opt(text);
    let r = declined_parts_parsed(display, harness, parsed);
    assert(parse_of(opt_view(text), toml_parsed(parsed)));
    r
}

/// The declined parts of `harness` from a config file's parse (`None` when
/// the file is absent, the parser's message when it does not parse).
pub fn declined_parts_parsed(
    display: &str,
    harness: &str,
    parsed: Option<Result<Vec<(String, TomlValue)>, String>>,
) -> (r: Result<Vec<String>, Error>)
    ensures
        match declined_read(display@, harness@, toml_parsed(parsed)) {
            Ok(s) => r matches Ok(v) && names_view(v@) == s,
            Err(e) => r matches Err(x) && x@ == e,
        },
{
    proof {
        reveal_strlit("harness");
        reveal_strlit("without");
        reveal_strlit("`harness.");
        reveal_strlit(".without` is not a list of part names");
        reveal_strlit("` is not a table");
        reveal_strlit("`harness` is not a table");
    }
    let doc = match parsed {
        None => return Ok(Vec::new()),
        Some(Err(m)) => return Err(refuse_with(display, chars_of(m.as_str()))),
        Some(Ok(d)) => d,
    };
    let h = match get_value(&doc, "harness") {
        None => return Ok(Vec::new()),
        Some(TomlValue::Table(h)) => h,
        Some(_) => return Err(refuse_with(display, chars_of("`harness` is not a table"))),
    };
    let t = match get_value(h, harness) {
        None => return Ok(Vec::new()),
        Some(TomlValue::Table(t)) => t,
        Some(_) => {
            let mut m = chars_of("`harness.");
            append_str(&mut m, harness);
            append_str(&mut m, "` is not a table");
            return Err(refuse_with(display, m));
        },
    };
    let mut not_list = chars_of("`harness.");
    append_str(&mut not_list, harness);
    append_str(&mut not_list, ".without` is not a list of part names");
    let items = match get_value(t, "without") {
        None => return Ok(Vec::new()),
        Some(TomlValue::Array(items)) => items,
        Some(_) => return Err(refuse_with(display, not_list)),
    };
    let mut out: Vec<String> = Vec::new();
    let mut i: usize = 0;
    assert(items@.take(0) =~= Seq::<TomlValue>::empty());
    let ghost want = declined_read(display@, harness@, toml_parsed(parsed));
    assert(want == match all_strings(items@) {
        Some(s) => Ok(s),
        None => Err(refusal(display@, not_list@)),
    });
    while i < items.len()
        invariant
            i <= items@.len(),
            want == declined_read(display@, harness@, toml_parsed(parsed)),
            want == match all_strings(items@) {
                Some(s) => Ok(s),
                None => Err(refusal(display@, not_list@)),
            },
            all_strings(items@.take(i as int)) == Some(names_view(out@)),
        decreases items@.len() - i,
    {
        let ghost t2 = items@.take(i + 1);
        assert(t2.drop_last() =~= items@.take(i as int));
        match &items[i] {
            TomlValue::Str(s) => {
                let ghost before = out@;
                out.push(copy_string(s));
                assert(names_view(out@) =~= names_view(before).push(s@));
            },
            _ => {
                proof {
                    lemma_all_strings_prefix(items@, i as int + 1);
                }
                return Err(refuse_with(display, not_list));
            },
        }
        i = i + 1;
    }
    assert(items@.take(items@.len() as int) =~= items@);
    Ok(out)
}

/// A list of strings gives their characters.
proof fn lemma_all_strings(items: Seq<TomlValue>, parts: Seq<Seq<char>>)
    requires
        items.len() == parts.len(),
        forall|i: int| 0 <= i < items.len() ==> (#[trigger] items[i] matches TomlValue::Str(s) && s@ == parts[i]),
    ensures
        all_strings(items) == Some(parts),
    decreases items.len(),
{
    if items.len() > 0 {
        let d = items.drop_last();
        assert forall|i: int| 0 <= i < d.len() implies (#[trigger] d[i] matches TomlValue::Str(s) && s@ == parts.drop_last()[i]) by {
            assert(d[i] == items[i]);
        }
        lemma_all_strings(d, parts.drop_last());
        assert(items[items.len() - 1] == items.last());
        assert(parts.drop_last().push(parts.last()) =~= parts);
    }
}

/// Reading back a declined list: a parsed config whose `harness.<h>.without`
/// is a list of strings gives those strings as the declined parts of `h`.
pub proof fn law_declined_reads_back(
    display: Seq<char>,
    harness: Seq<char>,
    doc: Seq<(String, TomlValue)>,
    h: Vec<(String, TomlValue)>,
    t: Vec<(String, TomlValue)>,
    items: Vec<TomlValue>,
    parts: Seq<Seq<char>>,
)
    requires
        toml_get(doc, "harness"@) == Some(TomlValue::Table(h)),
        toml_get(h@, harness) == Some(TomlValue::Table(t)),
        toml_get(t@, "without"@) == Some(TomlValue::Array(items)),
        items@.len() == parts.len(),
        forall|i: int| 0 <= i < items@.len() ==> (#[trigger] items@[i] matches TomlValue::Str(s) && s@ == parts[i]),
    ensures
        declined_read(display, harness, Some(Ok(doc))) == Ok::<Seq<Seq<char>>, ErrorView>(parts),
{
    lemma_all_strings(items@, parts);
}

/// A list with a non-string among its first `n` items has no strings.
proof fn lemma_all_strings_prefix(items: Seq<TomlValue>, n: int)
    requires
        0 <= n <= items.len(),
        all_strings(items.take(n)) is None,
    ensures
        all_strings(items) is None,
    decreases items.len() - n,
{
    if n < items.len() {
        assert(items.take(n + 1).drop_last() =~= items.take(n));
        lemma_all_strings_prefix(items, n + 1);
    } else {
        assert(items.take(n) =~= items);
    }
}

/// What toml_edit makes of the TOML text `text` (an empty document for
/// `None`) when `<table>.<name>.<key>` is set to the list of strings
/// `items`, tables being created as needed; `None` when the text does not
/// parse or `<table>` or `<table>.<name>` is not a table.
pub uninterp spec fn toml_list_set(
    text: Option<Seq<char>>,
    table: Seq<char>,
    name: Seq<char>,
    key: Seq<char>,
    items: Seq<Seq<char>>,
) -> Option<Seq<char>>;

/// The plain value of an optional string.
pub open spec fn opt_string(s: Option<String>) -> Option<Seq<char>> {
    match s {
        Some(x) => Some(x@),
        None => None,
    }
}

/// Sets `<table>.<name>.<key>` to the list `items` in the TOML text `text`
/// (an empty document for `None`) with toml_edit: `str::parse` into a
/// `DocumentMut` (or `DocumentMut::new`), `entry(..).or_insert(..)` with
/// an implicit table for `<table>` and a table for `<name>`,
/// `as_table_like_mut`, `insert` of an `Array` of the items, and
/// `to_string`. The text it gives back is named, not stated: toml_edit
/// keeps the rest of the document, its comments and layout, as it was.
#[verifier::external_body]
fn toml_set_list(text: Option<&str>, table: &str, name: &str, key: &str, items: &[String]) -> (r: Option<String>)
    ensures
        opt_string(r) == toml_list_set(opt_view(text), table@, name@, key@, names_view(items@)),
{
    let mut doc: DocumentMut = match text {
        Some(t) => t.parse().ok()?,
        None => DocumentMut::new(),
    };
    let mut implicit = Table::new();
    implicit.set_implicit(true);
    let outer = doc.entry(table).or_insert(Item::Table(implicit)).as_table_like_mut()?;
    let inner = outer.entry(name).or_insert(Item::Table(Table::new())).as_table_like_mut()?;
    let mut array = Array::new();
    for item in items {
        array.push(item.as_str());
    }
    inner.insert(key, Item::Value(Value::Array(array)));
    Some(doc.to_string())
}

/// The text `set_declined_text` gives back, from the config text, its
/// parse (`None` for no text) and the edited text.
pub open spec fn declined_set(
    text: Option<Seq<char>>,
    harness: Seq<char>,
    parts: Seq<Seq<char>>,
    display: Seq<char>,
    parsed: Option<Result<Seq<(String, TomlValue)>, Seq<char>>>,
) -> Result<Option<Seq<char>>, ErrorView> {
    let edit = match toml_list_set(text, "harness"@, harness, "without"@, parts) {
        Some(out) => Ok(if Some(out) == text { None } else { Some(out) }),
        None => Err(ErrorView::Internal("the config could not be edited"@)),
    };
    let doc = match parsed {
        Some(Ok(d)) => d,
        _ => Seq::empty(),
    };
    match parsed {
        Some(Err(m)) => Err(refusal(display, m)),
        _ => match toml_get(doc, "harness"@) {
            None => edit,
            Some(TomlValue::Table(h)) => match toml_get(h@, harness) {
                None => edit,
                Some(TomlValue::Table(_)) => edit,
                Some(_) => Err(refusal(display, "`harness."@ + harness + "` is not a table"@)),
            },
            Some(_) => Err(refusal(display, "`harness` is not a table"@)),
        },
    }
}

/// The config text (`None` for no file) with `harness.<name>.without` set
/// to `parts`, edited in place; `None` when the text is unchanged. A
/// refusal naming `display` when the text does not parse as TOML or
/// `harness` or `harness.<name>` is not a table.
pub fn set_declined_text(text: Option<&str>, harness: &str, parts: &[String], display: &str) -> (r: Result<
    Option<String>,
    Error,
>)
    ensures
        exists|p: Option<Result<Seq<(String, TomlValue)>, Seq<char>>>|
            #[trigger] parse_of(opt_view(text), p) && match declined_set(
                opt_view(text),
                harness@,
                names_view(parts@),
                display@,
                p,
            ) {
                Ok(o) => r matches Ok(x) && opt_string(x) == o,
                Err(e) => r matches Err(x) && x@ == e,
            },
{
    let parsed = parse_toml_opt(text);
    let r = set_declined_parsed(text, harness, parts, display, parsed);
    assert(parse_of(opt_view(text), toml_parsed(parsed)));
    r
}

/// The config text with `harness.<name>.without` set to `parts`, from the
/// text's parse (`None` when there is no text).
pub fn set_declined_parsed(
    text: Option<&str>,
    harness: &str,
    parts: &[String],
    display: &str,
    parsed: Option<Result<Vec<(String, TomlValue)>, String>>,
) -> (r: Result<Option<String>, Error>)
    ensures
        match declined_set(opt_view(text), harness@, names_view(parts@), display@, toml_parsed(parsed)) {
            Ok(o) => r matches Ok(x) && opt_string(x) == o,
            Err(e) => r matches Err(x) && x@ == e,
        },
{
    proof {
        reveal_strlit("harness");
        reveal_strlit("without");
        reveal_strlit("`harness.");
        reveal_strlit("` is not a table");
        reveal_strlit("`harness` is not a table");
        reveal_strlit("the config could not be edited");
    }
    let empty: Vec<(String, TomlValue)> = Vec::new();
    let doc = match &parsed {
        None => &empty,
        Some(Err(m)) => return Err(refuse_with(display, chars_of(m.as_str()))),
        Some(Ok(d)) => d,
    };
    assert(toml_get(empty@, "harness"@) is None);
    match get_value(doc, "harness") {
        None => {},
        Some(TomlValue::Table(h)) => match get_value(h, harness) {
            None => {},
            Some(TomlValue::Table(_)) => {},
            Some(_) => {
                let mut m = chars_of("`harness.");
                append_str(&mut m, harness);
                append_str(&mut m, "` is not a table");
                return Err(refuse_with(display, m));
            },
        },
        Some(_) => return Err(refuse_with(display, chars_of("`harness` is not a table"))),
    }
    match toml_set_list(text, "harness", harness, "without", parts) {
        Some(out) => {
            let same = match text {
                Some(t) => str_eq(out.as_str(), t),
                None => false,
            };
            if same {
                Ok(None)
            } else {
                Ok(Some(out))
            }
        },
        None => Err(Error::Internal("the config could not be edited".to_string())),
    }
}

} // verus!
