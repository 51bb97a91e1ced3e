//! The record: for each installed harness, the hash of each part the tool
//! wrote, kept in name order, and its TOML text.

use vstd::prelude::*;

use crate::error::{Error, ErrorView};
use crate::json::copy_string;
use crate::text::{append_str, chars_of, lemma_seq_lt_irreflexive, lemma_seq_lt_total, lemma_seq_lt_transitive, seq_lt, str_eq, str_lt, string_of};

verus! {

/// Whether the keys of `s` are strictly increasing.
pub open spec fn keys_sorted<V>(s: Seq<(String, V)>) -> bool {
    forall|i: int, j: int| 0 <= i < j < s.len() ==> seq_lt(#[trigger] s[i].0@, #[trigger] s[j].0@)
}

/// The first index at or after `from` whose key does not come before `key`;
/// `s.len()` when there is none.
pub open spec fn key_pos<V>(s: Seq<(String, V)>, key: Seq<char>, from: int) -> int
    decreases s.len() - from,
{
    if from < 0 || from >= s.len() {
        s.len() as int
    } else if !seq_lt(s[from].0@, key) {
        from
    } else {
        key_pos(s, key, from + 1)
    }
}

/// Whether `key` is at `key_pos` in `s`.
pub open spec fn has_key<V>(s: Seq<(String, V)>, key: Seq<char>) -> bool {
    let i = key_pos(s, key, 0);
    0 <= i < s.len() && s[i].0@ == key
}

/// The value under `key`.
pub open spec fn get_key<V>(s: Seq<(String, V)>, key: Seq<char>) -> Option<V> {
    if has_key(s, key) {
        Some(s[key_pos(s, key, 0)].1)
    } else {
        None
    }
}

/// `s` with the entry `e` put in its place: replacing the entry with its
/// key, or inserted in key order.
pub open spec fn put_key<V>(s: Seq<(String, V)>, e: (String, V)) -> Seq<(String, V)> {
    let i = key_pos(s, e.0@, 0);
    if has_key(s, e.0@) {
        s.update(i, e)
    } else {
        s.insert(i, e)
    }
}

/// `s` without the entry under `key`.
pub open spec fn drop_key<V>(s: Seq<(String, V)>, key: Seq<char>) -> Seq<(String, V)> {
    if has_key(s, key) {
        s.remove(key_pos(s, key, 0))
    } else {
        s
    }
}

proof fn lemma_key_pos_bounds<V>(s: Seq<(String, V)>, key: Seq<char>, from: int)
    requires
        0 <= from <= s.len(),
    ensures
        from <= key_pos(s, key, from) <= s.len(),
        forall|j: int| from <= j < key_pos(s, key, from) ==> seq_lt(#[trigger] s[j].0@, key),
        key_pos(s, key, from) < s.len() ==> !seq_lt(s[key_pos(s, key, from)].0@, key),
    decreases s.len() - from,
{
    if from < s.len() && seq_lt(s[from].0@, key) {
        lemma_key_pos_bounds(s, key, from + 1);
    }
}

/// In a sorted list, the entries after `key`'s place come after `key`.
proof fn lemma_after_pos<V>(s: Seq<(String, V)>, key: Seq<char>)
    requires
        keys_sorted(s),
    ensures
        ({
            let i = key_pos(s, key, 0);
            &&& forall|j: int| 0 <= j < i ==> seq_lt(#[trigger] s[j].0@, key)
            &&& forall|j: int| i <= j < s.len() && s[j].0@ != key ==> seq_lt(key, #[trigger] s[j].0@)
            &&& forall|j: int| i < j < s.len() ==> #[trigger] s[j].0@ != key || !has_key(s, key)
        }),
{
    lemma_key_pos_bounds(s, key, 0);
    let i = key_pos(s, key, 0);
    assert forall|j: int| i <= j < s.len() && s[j].0@ != key implies seq_lt(key, #[trigger] s[j].0@) by {
        lemma_seq_lt_total(key, s[i].0@);
        lemma_seq_lt_total(key, s[j].0@);
        if j > i {
            if s[i].0@ == key {
                assert(seq_lt(s[i].0@, s[j].0@));
            } else {
                assert(seq_lt(key, s[i].0@));
                lemma_seq_lt_transitive(key, s[i].0@, s[j].0@);
            }
        }
    }
    assert forall|j: int| i < j < s.len() implies #[trigger] s[j].0@ != key || !has_key(s, key) by {
        if has_key(s, key) && s[j].0@ == key {
            assert(seq_lt(s[i].0@, s[j].0@));
            lemma_seq_lt_irreflexive(key);
        }
    }
}

/// Putting an entry keeps a list sorted, and the entry is then found under
/// its key.
pub proof fn lemma_put_key<V>(s: Seq<(String, V)>, e: (String, V))
    requires
        keys_sorted(s),
    ensures
        keys_sorted(put_key(s, e)),
        get_key(put_key(s, e), e.0@) == Some(e.1),
{
    lemma_after_pos(s, e.0@);
    lemma_key_pos_bounds(s, e.0@, 0);
    let i = key_pos(s, e.0@, 0);
    let t = put_key(s, e);
    assert forall|a: int, b: int| 0 <= a < b < t.len() implies seq_lt(#[trigger] t[a].0@, #[trigger] t[b].0@) by {
        if has_key(s, e.0@) {
            if a != i && b != i {
                assert(seq_lt(s[a].0@, s[b].0@));
            }
        } else {
            if a < i && b > i {
                lemma_seq_lt_transitive(s[a].0@, e.0@, s[b - 1].0@);
            } else if a > i {
                assert(seq_lt(s[a - 1].0@, s[b - 1].0@));
            } else if b < i {
                assert(seq_lt(s[a].0@, s[b].0@));
            }
        }
    }
    assert forall|j: int| 0 <= j < i implies seq_lt(#[trigger] t[j].0@, e.0@) by {
        assert(t[j] == s[j]);
    }
    lemma_seq_lt_irreflexive(e.0@);
    lemma_key_pos_found(t, e.0@, i);
}

/// The place of `key` is the first index whose key does not come before it.
proof fn lemma_key_pos_found<V>(s: Seq<(String, V)>, key: Seq<char>, k: int)
    requires
        0 <= k <= s.len(),
        forall|j: int| 0 <= j < k ==> seq_lt(#[trigger] s[j].0@, key),
        k < s.len() ==> !seq_lt(s[k].0@, key),
    ensures
        key_pos(s, key, 0) == k,
{
    lemma_key_pos_found_from(s, key, 0, k);
}

proof fn lemma_key_pos_found_from<V>(s: Seq<(String, V)>, key: Seq<char>, from: int, k: int)
    requires
        0 <= from <= k <= s.len(),
        forall|j: int| from <= j < k ==> seq_lt(#[trigger] s[j].0@, key),
        k < s.len() ==> !seq_lt(s[k].0@, key),
    ensures
        key_pos(s, key, from) == k,
    decreases k - from,
{
    if from < k {
        lemma_key_pos_found_from(s, key, from + 1, k);
    }
}

/// Dropping an entry keeps a list sorted, and nothing is then found under
/// its key.
pub proof fn lemma_drop_key<V>(s: Seq<(String, V)>, key: Seq<char>)
    requires
        keys_sorted(s),
    ensures
        keys_sorted(drop_key(s, key)),
        get_key(drop_key(s, key), key) is None,
{
    lemma_after_pos(s, key);
    lemma_key_pos_bounds(s, key, 0);
    let i = key_pos(s, key, 0);
    let t = drop_key(s, key);
    assert forall|a: int, b: int| 0 <= a < b < t.len() implies seq_lt(#[trigger] t[a].0@, #[trigger] t[b].0@) by {
        if has_key(s, key) {
            let a2 = if a < i { a } else { a + 1 };
            let b2 = if b < i { b } else { b + 1 };
            assert(t[a] == s[a2] && t[b] == s[b2]);
            assert(seq_lt(s[a2].0@, s[b2].0@));
        } else {
            assert(seq_lt(s[a].0@, s[b].0@));
        }
    }
    if has_key(s, key) {
        assert forall|j: int| 0 <= j < i implies seq_lt(#[trigger] t[j].0@, key) by {
            assert(t[j] == s[j]);
        }
        if i < t.len() {
            assert(t[i] == s[i + 1]);
            lemma_seq_lt_total(key, s[i + 1].0@);
            assert(s[i + 1].0@ != key);
            assert(seq_lt(key, s[i + 1].0@));
        }
        lemma_key_pos_found(t, key, i);
    }
}

/// The place of `key` in `v`.
fn find_pos<V>(v: &Vec<(String, V)>, key: &str) -> (i: usize)
    ensures
        i == key_pos(v@, key@, 0),
        i <= v@.len(),
{
    let mut i: usize = 0;
    while i < v.len()
        invariant
            i <= v.len(),
            key_pos(v@, key@, 0) == key_pos(v@, key@, i as int),
        decreases v.len() - i,
    {
        if !str_lt(v[i].0.as_str(), key) {
            return i;
        }
        i = i + 1;
    }
    i
}

/// Whether `key` is at place `i` of `v`.
fn key_at<V>(v: &Vec<(String, V)>, key: &str, i: usize) -> (r: bool)
    requires
        i == key_pos(v@, key@, 0),
        i <= v@.len(),
    ensures
        r == has_key(v@, key@),
{
    i < v.len() && str_eq(v[i].0.as_str(), key)
}

/// Puts `e` in its place in `v`.
pub fn put_entry<V>(v: &mut Vec<(String, V)>, e: (String, V))
    ensures
        final(v)@ == put_key(old(v)@, e),
{
    let i = find_pos(v, e.0.as_str());
    if key_at(v, e.0.as_str(), i) {
        v.remove(i);
        v.insert(i, e);
        assert(v@ =~= put_key(old(v)@, e));
    } else {
        v.insert(i, e);
    }
}

/// Drops the entry under `key` from `v`.
pub fn drop_entry<V>(v: &mut Vec<(String, V)>, key: &str)
    ensures
        final(v)@ == drop_key(old(v)@, key@),
{
    let i = find_pos(v, key);
    if key_at(v, key, i) {
        v.remove(i);
    }
}

/// The value under `key` in `v`.
pub fn get_entry<'a, V>(v: &'a Vec<(String, V)>, key: &str) -> (r: Option<&'a V>)
    ensures
        match r {
            Some(x) => get_key(v@, key@) == Some(*x),
            None => get_key(v@, key@) is None,
        },
{
    let i = find_pos(v, key);
    if key_at(v, key, i) {
        Some(&v[i].1)
    } else {
        None
    }
}

/// The part hashes of one harness, as plain values.
pub open spec fn hashes_view(s: Seq<(String, String)>) -> Seq<(Seq<char>, Seq<char>)> {
    s.map_values(|e: (String, String)| (e.0@, e.1@))
}

/// The record: harness name to part name to hash, each in name order.
#[derive(Debug)]
pub struct Record {
    /// One table per installed harness.
    pub harnesses: Vec<(String, Vec<(String, String)>)>,
}

/// The record as plain values.
pub open spec fn record_view(r: Record) -> Seq<(Seq<char>, Seq<(Seq<char>, Seq<char>)>)> {
    r.harnesses@.map_values(|e: (String, Vec<(String, String)>)| (e.0@, hashes_view(e.1@)))
}

impl Record {
    /// Whether the harnesses and each harness's parts are in name order.
    pub open spec fn wf(self) -> bool {
        &&& keys_sorted(self.harnesses@)
        &&& forall|i: int| 0 <= i < self.harnesses@.len() ==> keys_sorted(#[trigger] self.harnesses@[i].1@)
    }

    /// The empty record.
    pub fn new() -> (r: Self)
        ensures
            r.wf(),
            r.harnesses@.len() == 0,
    {
        Record { harnesses: Vec::new() }
    }
}

/// The line of one part: `<part> = "<hash>"`.
pub open spec fn part_line(e: (Seq<char>, Seq<char>)) -> Seq<char> {
    e.0 + " = \""@ + e.1 + "\"\n"@
}

/// The lines of a table's parts, in order.
pub open spec fn parts_text(ps: Seq<(Seq<char>, Seq<char>)>) -> Seq<char>
    decreases ps.len(),
{
    if ps.len() == 0 {
        Seq::empty()
    } else {
        parts_text(ps.drop_last()) + part_line(ps.last())
    }
}

/// The tables of the harnesses that have parts, in order.
pub open spec fn tables_text(hs: Seq<(Seq<char>, Seq<(Seq<char>, Seq<char>)>)>) -> Seq<char>
    decreases hs.len(),
{
    if hs.len() == 0 {
        Seq::empty()
    } else if hs.last().1.len() == 0 {
        tables_text(hs.drop_last())
    } else {
        tables_text(hs.drop_last()) + "\n["@ + hs.last().0 + "]\n"@ + parts_text(hs.last().1)
    }
}

/// The record file's text: `header`, then one table per harness with parts,
/// in the record's order, LF.
pub open spec fn record_text(r: Seq<(Seq<char>, Seq<(Seq<char>, Seq<char>)>)>, header: Seq<char>) -> Seq<char> {
    header + "\n"@ + tables_text(r)
}

/// The record file's text: `header`, then one table per harness in name
/// order, keys in name order, LF.
pub fn render_record(record: &Record, header: &str) -> (s: String)
    ensures
        s@ == record_text(record_view(*record), header@),
{
    let ghost rv = record_view(*record);
    let mut out = chars_of(header);
    out.push('\n');
    proof {
        reveal_strlit("\n");
        reveal_strlit("\n[");
        reveal_strlit("]\n");
        reveal_strlit(" = \"");
        reveal_strlit("\"\n");
    }
    let mut i: usize = 0;
    assert(rv.take(0) =~= Seq::<(Seq<char>, Seq<(Seq<char>, Seq<char>)>)>::empty());
    while i < record.harnesses.len()
        invariant
            i <= record.harnesses@.len(),
            rv == record_view(*record),
            out@ == header@ + "\n"@ + tables_text(rv.take(i as int)),
        decreases record.harnesses@.len() - i,
    {
        let ghost t = rv.take(i + 1);
        assert(t.drop_last() =~= rv.take(i as int));
        let name = &record.harnesses[i].0;
        let parts = &record.harnesses[i].1;
        assert(t.last() == (name@, hashes_view(parts@)));
        if parts.len() > 0 {
            let ghost before = out@;
            append_str(&mut out, "\n[");
            append_str(&mut out, name.as_str());
            append_str(&mut out, "]\n");
            let ghost pv = hashes_view(parts@);
            let ghost mid = out@;
            let mut j: usize = 0;
            assert(pv.take(0) =~= Seq::<(Seq<char>, Seq<char>)>::empty());
            while j < parts.len()
                invariant
                    j <= parts@.len(),
                    pv == hashes_view(parts@),
                    out@ == mid + parts_text(pv.take(j as int)),
                decreases parts@.len() - j,
            {
                let ghost u = pv.take(j + 1);
                assert(u.drop_last() =~= pv.take(j as int));
                assert(u.last() == (parts@[j as int].0@, parts@[j as int].1@));
                append_str(&mut out, parts[j].0.as_str());
                append_str(&mut out, " = \"");
                append_str(&mut out, parts[j].1.as_str());
                append_str(&mut out, "\"\n");
                j = j + 1;
                assert(out@ =~= mid + parts_text(pv.take(j as int)));
            }
            assert(pv.take(parts@.len() as int) =~= pv);
            assert(out@ =~= before + ("\n["@ + name@ + "]\n"@ + parts_text(pv)));
        }
        i = i + 1;
        assert(out@ =~= header@ + "\n"@ + tables_text(rv.take(i as int)));
    }
    assert(rv.take(record.harnesses@.len() as int) =~= rv);
    string_of(&out)
}

/// The part hashes recorded for `harness`.
pub fn recorded_parts<'a>(record: &'a Record, harness: &str) -> (r: Option<&'a Vec<(String, String)>>)
    ensures
        match r {
            Some(p) => get_key(record.harnesses@, harness@) == Some(*p),
            None => get_key(record.harnesses@, harness@) is None,
        },
{
    get_entry(&record.harnesses, harness)
}

/// Whether two lists of part hashes are the same.
fn same_hashes(p: &Vec<(String, String)>, q: &Vec<(String, String)>) -> (r: bool)
    ensures
        r == (hashes_view(p@) == hashes_view(q@)),
{
    if p.len() != q.len() {
        assert(hashes_view(p@).len() != hashes_view(q@).len());
        return false;
    }
    let mut j: usize = 0;
    while j < p.len()
        invariant
            j <= p@.len(),
            p@.len() == q@.len(),
            forall|k: int| 0 <= k < j ==> hashes_view(p@)[k] == hashes_view(q@)[k],
        decreases p@.len() - j,
    {
        if !str_eq(p[j].0.as_str(), q[j].0.as_str()) || !str_eq(p[j].1.as_str(), q[j].1.as_str()) {
            assert(hashes_view(p@)[j as int] != hashes_view(q@)[j as int]);
            return false;
        }
        j = j + 1;
    }
    assert(hashes_view(p@) =~= hashes_view(q@));
    true
}

/// Whether two records hold the same harnesses, parts and hashes.
pub fn same_record(a: &Record, b: &Record) -> (r: bool)
    ensures
        r == (record_view(*a) == record_view(*b)),
{
    let ghost x = record_view(*a);
    let ghost y = record_view(*b);
    if a.harnesses.len() != b.harnesses.len() {
        assert(x.len() != y.len());
        return false;
    }
    let mut i: usize = 0;
    while i < a.harnesses.len()
        invariant
            i <= a.harnesses@.len(),
            a.harnesses@.len() == b.harnesses@.len(),
            x == record_view(*a),
            y == record_view(*b),
            forall|j: int| 0 <= j < i ==> x[j] == y[j],
        decreases a.harnesses@.len() - i,
    {
        assert(x[i as int] == (a.harnesses@[i as int].0@, hashes_view(a.harnesses@[i as int].1@)));
        assert(y[i as int] == (b.harnesses@[i as int].0@, hashes_view(b.harnesses@[i as int].1@)));
        if !str_eq(a.harnesses[i].0.as_str(), b.harnesses[i].0.as_str()) || !same_hashes(&a.harnesses[i].1, &b.harnesses[i].1) {
            assert(x[i as int] != y[i as int]);
            return false;
        }
        i = i + 1;
    }
    assert(x =~= y);
    true
}

/// A TOML value as the record and the declined lists read it.
#[derive(Debug)]
pub enum TomlValue {
    /// A table, or an inline table: its entries in order.
    Table(Vec<(String, TomlValue)>),
    /// An array: its items in order.
    Array(Vec<TomlValue>),
    /// A string.
    Str(String),
    /// Any other value.
    Other,
}

/// The first index at or after `from` whose name does not come before
/// `key`, in a list of plain entries.
pub open spec fn name_pos<X>(s: Seq<(Seq<char>, X)>, key: Seq<char>, from: int) -> int
    decreases s.len() - from,
{
    if from < 0 || from >= s.len() {
        s.len() as int
    } else if !seq_lt(s[from].0, key) {
        from
    } else {
        name_pos(s, key, from + 1)
    }
}

/// A plain list of entries with `e` put in its place.
pub open spec fn put_name<X>(s: Seq<(Seq<char>, X)>, e: (Seq<char>, X)) -> Seq<(Seq<char>, X)> {
    let i = name_pos(s, e.0, 0);
    if 0 <= i < s.len() && s[i].0 == e.0 {
        s.update(i, e)
    } else {
        s.insert(i, e)
    }
}

/// The plain entries of a list, its values mapped by `f`.
pub open spec fn entries_view<V, X>(s: Seq<(String, V)>, f: spec_fn(V) -> X) -> Seq<(Seq<char>, X)> {
    s.map_values(|e: (String, V)| (e.0@, f(e.1)))
}

proof fn lemma_key_pos_view<V, X>(s: Seq<(String, V)>, f: spec_fn(V) -> X, key: Seq<char>, from: int)
    requires
        0 <= from,
    ensures
        key_pos(s, key, from) == name_pos(entries_view(s, f), key, from),
    decreases s.len() - from,
{
    if from < s.len() {
        lemma_key_pos_view(s, f, key, from + 1);
    }
}

/// Putting an entry commutes with taking the plain entries.
pub proof fn lemma_put_view<V, X>(s: Seq<(String, V)>, e: (String, V), f: spec_fn(V) -> X)
    ensures
        entries_view(put_key(s, e), f) == put_name(entries_view(s, f), (e.0@, f(e.1))),
{
    lemma_key_pos_view(s, f, e.0@, 0);
    lemma_key_pos_bounds(s, e.0@, 0);
    assert(entries_view(put_key(s, e), f) =~= put_name(entries_view(s, f), (e.0@, f(e.1))));
}

/// A plain list of entries without the entry named `key`.
pub open spec fn drop_name<X>(s: Seq<(Seq<char>, X)>, key: Seq<char>) -> Seq<(Seq<char>, X)> {
    let i = name_pos(s, key, 0);
    if 0 <= i < s.len() && s[i].0 == key {
        s.remove(i)
    } else {
        s
    }
}

/// Dropping a key and then taking the plain entries is dropping the name
/// from the plain entries.
pub proof fn lemma_drop_view<V, X>(s: Seq<(String, V)>, key: Seq<char>, f: spec_fn(V) -> X)
    ensures
        entries_view(drop_key(s, key), f) == drop_name(entries_view(s, f), key),
{
    lemma_key_pos_view(s, f, key, 0);
    lemma_key_pos_bounds(s, key, 0);
    assert(entries_view(drop_key(s, key), f) =~= drop_name(entries_view(s, f), key));
}

/// The plain hashes are the plain entries of the hash strings.
pub proof fn lemma_hashes_entries(s: Seq<(String, String)>)
    ensures
        hashes_view(s) == entries_view(s, |v: String| v@),
{
    assert(hashes_view(s) =~= entries_view(s, |v: String| v@));
}

/// The refusal of a file named `display`.
pub open spec fn refusal(display: Seq<char>, m: Seq<char>) -> ErrorView {
    ErrorView::Harness(display + ": "@ + m)
}

/// The index of the first entry of `parts` whose value is not a string.
pub open spec fn first_non_string(parts: Seq<(String, TomlValue)>, from: int) -> Option<int>
    decreases parts.len() - from,
{
    if from < 0 || from >= parts.len() {
        None
    } else if parts[from].1 is Str {
        first_non_string(parts, from + 1)
    } else {
        Some(from)
    }
}

proof fn lemma_first_non_string_bounds(parts: Seq<(String, TomlValue)>, from: int)
    requires
        0 <= from,
    ensures
        first_non_string(parts, from) matches Some(k) ==> from <= k < parts.len(),
    decreases parts.len() - from,
{
    if from < parts.len() && parts[from].1 is Str {
        lemma_first_non_string_bounds(parts, from + 1);
    }
}

/// The first entry of `doc` at or after `from` that is not a table of
/// strings: its index, and the index of its first value that is not a
/// string, when it is a table.
pub open spec fn first_bad(doc: Seq<(String, TomlValue)>, from: int) -> Option<(int, Option<int>)>
    decreases doc.len() - from,
{
    if from < 0 || from >= doc.len() {
        None
    } else {
        match doc[from].1 {
            TomlValue::Table(parts) => match first_non_string(parts@, 0) {
                Some(k) => Some((from, Some(k))),
                None => first_bad(doc, from + 1),
            },
            _ => Some((from, None)),
        }
    }
}

/// The hashes of a table of strings, put in name order one after another.
pub open spec fn hashes_of(parts: Seq<(String, TomlValue)>) -> Seq<(Seq<char>, Seq<char>)>
    decreases parts.len(),
{
    if parts.len() == 0 {
        Seq::empty()
    } else {
        match parts.last().1 {
            TomlValue::Str(h) => put_name(hashes_of(parts.drop_last()), (parts.last().0@, h@)),
            _ => hashes_of(parts.drop_last()),
        }
    }
}

/// The harnesses of a document of tables, put in name order one after
/// another.
pub open spec fn tables_of(doc: Seq<(String, TomlValue)>) -> Seq<(Seq<char>, Seq<(Seq<char>, Seq<char>)>)>
    decreases doc.len(),
{
    if doc.len() == 0 {
        Seq::empty()
    } else {
        let parts = match doc.last().1 {
            TomlValue::Table(p) => hashes_of(p@),
            _ => Seq::empty(),
        };
        put_name(tables_of(doc.drop_last()), (doc.last().0@, parts))
    }
}

/// The record a file holds, from the outcome of parsing it (`None` when it
/// is absent): empty when absent, a refusal naming `display` when it does
/// not parse or holds anything but tables of strings.
pub open spec fn record_read(
    display: Seq<char>,
    parsed: Option<Result<Seq<(String, TomlValue)>, Seq<char>>>,
) -> Result<Seq<(Seq<char>, Seq<(Seq<char>, Seq<char>)>)>, ErrorView> {
    match parsed {
        None => Ok(Seq::empty()),
        Some(Err(m)) => Err(refusal(display, m)),
        Some(Ok(doc)) => match first_bad(doc, 0) {
            Some((i, None)) => Err(refusal(display, "`"@ + doc[i].0@ + "` is not a table"@)),
            Some((i, Some(k))) => Err(
                refusal(
                    display,
                    "`"@ + doc[i].0@ + "."@ + doc[i].1->Table_0@[k].0@ + "` is not a string"@,
                ),
            ),
            None => Ok(tables_of(doc)),
        },
    }
}

/// A TOML value as plain values.
pub enum TomlModel {
    Table(Seq<(Seq<char>, TomlModel)>),
    Array(Seq<TomlModel>),
    Str(Seq<char>),
    Other,
}

/// The plain value of a TOML value.
pub open spec fn toml_model(v: TomlValue) -> TomlModel
    decreases v,
{
    match v {
        TomlValue::Table(t) => TomlModel::Table(
            Seq::new(
                t@.len(),
                |i: int|
                    if 0 <= i < t@.len() {
                        (t@[i].0@, toml_model(t@[i].1))
                    } else {
                        (Seq::empty(), TomlModel::Other)
                    },
            ),
        ),
        TomlValue::Array(a) => TomlModel::Array(
            Seq::new(a@.len(), |i: int| if 0 <= i < a@.len() { toml_model(a@[i]) } else { TomlModel::Other }),
        ),
        TomlValue::Str(s) => TomlModel::Str(s@),
        TomlValue::Other => TomlModel::Other,
    }
}

/// The plain entries of a TOML document or table.
pub open spec fn entries_model(d: Seq<(String, TomlValue)>) -> Seq<(Seq<char>, TomlModel)> {
    d.map_values(|e: (String, TomlValue)| (e.0@, toml_model(e.1)))
}

/// toml_edit's item type, carried through the parser's wrapper.
#[verifier::external_type_specification]
#[verifier::external_body]
pub struct ExTomlItem(toml_edit::Item);

/// toml_edit's value type, carried through the parser's wrapper.
#[verifier::external_type_specification]
#[verifier::external_body]
pub struct ExTomlValue(toml_edit::Value);

/// A toml_edit value as a [`TomlValue`], one variant for one: strings,
/// arrays and inline tables kept, any other value as `Other`.
#[verifier::external_body]
fn toml_value_of(v: &toml_edit::Value) -> (t: TomlValue) {
    match v {
        toml_edit::Value::String(s) => TomlValue::Str(s.value().clone()),
        toml_edit::Value::Array(a) => TomlValue::Array(a.iter().map(toml_value_of).collect()),
        toml_edit::Value::InlineTable(t) => TomlValue::Table(t.iter().map(|(k, v)| (k.to_string(), toml_value_of(v))).collect()),
        _ => TomlValue::Other,
    }
}

/// A toml_edit item as a [`TomlValue`], one variant for one: tables and
/// values kept, anything else as `Other`.
#[verifier::external_body]
fn toml_item_of(i: &toml_edit::Item) -> (t: TomlValue) {
    match i {
        toml_edit::Item::Table(t) => TomlValue::Table(t.iter().map(|(k, v)| (k.to_string(), toml_item_of(v))).collect()),
        toml_edit::Item::Value(v) => toml_value_of(v),
        _ => TomlValue::Other,
    }
}

/// What toml_edit makes of `text`: the document's entries in order, or the
/// parser's message.
pub uninterp spec fn toml_doc(text: Seq<char>) -> Result<Seq<(Seq<char>, TomlModel)>, Seq<char>>;

/// Parses `text` as TOML: calls `str::parse` into a toml_edit `DocumentMut`
/// and converts its entries one for one; the parser's error as its
/// message. The contract names the outcome, a function of the text alone.
#[verifier::external_body]
pub(crate) fn toml_parse_text(text: &str) -> (r: Result<Vec<(String, TomlValue)>, String>)
    ensures
        match r {
            Ok(d) => toml_doc(text@) == Ok::<Seq<(Seq<char>, TomlModel)>, Seq<char>>(entries_model(d@)),
            Err(m) => toml_doc(text@) == Err::<Seq<(Seq<char>, TomlModel)>, Seq<char>>(m@),
        },
{
    let doc: toml_edit::DocumentMut = text.parse().map_err(|e: toml_edit::TomlError| e.message().to_string())?;
    Ok(doc.iter().map(|(k, v)| (k.to_string(), toml_item_of(v))).collect())
}

/// Whether `p` is an outcome of parsing `text` (`None` for no text): the
/// parser's message, or a document whose plain entries are what the parser
/// made of the text.
pub open spec fn parse_of(text: Option<Seq<char>>, p: Option<Result<Seq<(String, TomlValue)>, Seq<char>>>) -> bool {
    match (text, p) {
        (None, None) => true,
        (Some(t), Some(Ok(d))) => toml_doc(t) == Ok::<Seq<(Seq<char>, TomlModel)>, Seq<char>>(entries_model(d)),
        (Some(t), Some(Err(m))) => toml_doc(t) == Err::<Seq<(Seq<char>, TomlModel)>, Seq<char>>(m),
        _ => false,
    }
}

/// Parses an optional TOML text.
pub(crate) fn parse_toml_opt(text: Option<&str>) -> (r: Option<Result<Vec<(String, TomlValue)>, String>>)
    ensures
        parse_of(crate::harness::region::opt_view(text), toml_parsed(r)),
{
    match text {
        Some(t) => Some(toml_parse_text(t)),
        None => None,
    }
}

/// The plain outcome of parsing a TOML file.
pub open spec fn toml_parsed(p: Option<Result<Vec<(String, TomlValue)>, String>>) -> Option<Result<Seq<(String, TomlValue)>, Seq<char>>> {
    match p {
        None => None,
        Some(Ok(d)) => Some(Ok(d@)),
        Some(Err(m)) => Some(Err(m@)),
    }
}

/// The refusal `<display>: <m>`.
fn refuse(display: &str, m: &Vec<char>) -> (e: Error)
    ensures
        e@ == refusal(display@, m@),
{
    let mut out = chars_of(display);
    append_str(&mut out, ": ");
    let mut mm = m.clone();
    out.append(&mut mm);
    proof {
        reveal_strlit(": ");
    }
    Error::Harness(string_of(&out))
}

/// The hashes of one table of the record file, or the index of its first
/// value that is not a string.
fn read_hashes(parts: &Vec<(String, TomlValue)>) -> (r: Result<Vec<(String, String)>, usize>)
    ensures
        match first_non_string(parts@, 0) {
            Some(k) => r == Err::<Vec<(String, String)>, usize>(k as usize),
            None => r matches Ok(h) && hashes_view(h@) == hashes_of(parts@) && keys_sorted(h@),
        },
{
    let mut out: Vec<(String, String)> = Vec::new();
    let mut i: usize = 0;
    assert(parts@.take(0) =~= Seq::<(String, TomlValue)>::empty());
    while i < parts.len()
        invariant
            i <= parts@.len(),
            first_non_string(parts@, 0) == first_non_string(parts@, i as int),
            hashes_view(out@) == hashes_of(parts@.take(i as int)),
            keys_sorted(out@),
        decreases parts@.len() - i,
    {
        let ghost t = parts@.take(i + 1);
        assert(t.drop_last() =~= parts@.take(i as int));
        match &parts[i].1 {
            TomlValue::Str(h) => {
                let e = (copy_string(&parts[i].0), copy_string(h));
                proof {
                    lemma_put_key(out@, e);
                    lemma_put_view(out@, e, |x: String| x@);
                    assert(hashes_view(out@) =~= entries_view(out@, |x: String| x@));
                    assert(hashes_view(put_key(out@, e)) =~= entries_view(put_key(out@, e), |x: String| x@));
                }
                put_entry(&mut out, e);
            },
            _ => {
                return Err(i);
            },
        }
        i = i + 1;
    }
    assert(parts@.take(parts@.len() as int) =~= parts@);
    Ok(out)
}

/// Reads the record from its file's text (`None` when the file is absent):
/// empty when absent, a refusal naming `display` when the text does not
/// parse as TOML (`<display>: <the parser's message>`) or holds anything but
/// tables of strings.
pub fn read_record(display: &str, text: Option<&str>) -> (r: Result<Record, Error>)
    ensures
        exists|p: Option<Result<Seq<(String, TomlValue)>, Seq<char>>>|
            #[trigger] parse_of(crate::harness::region::opt_view(text), p) && match record_read(display@, p) {
                Ok(rec) => r matches Ok(x) && record_view(x) == rec && x.wf(),
                Err(e) => r matches Err(x) && x@ == e,
            },
{
    let parsed = parse_toml_opt(text);
    let r = read_record_parsed(display, parsed);
    assert(parse_of(crate::harness::region::opt_view(text), toml_parsed(parsed)));
    r
}

/// Reads the record from the outcome of parsing its file (`None` when the
/// file is absent, the parser's message when it does not parse).
pub fn read_record_parsed(display: &str, parsed: Option<Result<Vec<(String, TomlValue)>, String>>) -> (r: Result<Record, Error>)
    ensures
        match record_read(display@, toml_parsed(parsed)) {
            Ok(rec) => r matches Ok(x) && record_view(x) == rec && x.wf(),
            Err(e) => r matches Err(x) && x@ == e,
        },
{
    let doc = match parsed {
        None => return Ok(Record::new()),
        Some(Err(m)) => return Err(refuse(display, &chars_of(m.as_str()))),
        Some(Ok(d)) => d,
    };
    let mut rec = Record::new();
    let mut i: usize = 0;
    proof {
        reveal_strlit("`");
        reveal_strlit("` is not a table");
        reveal_strlit(".");
        reveal_strlit("` is not a string");
    }
    assert(doc@.take(0) =~= Seq::<(String, TomlValue)>::empty());
    while i < doc.len()
        invariant
            i <= doc@.len(),
            toml_parsed(parsed) == Some(Ok::<Seq<(String, TomlValue)>, Seq<char>>(doc@)),
            first_bad(doc@, 0) == first_bad(doc@, i as int),
            record_view(rec) == tables_of(doc@.take(i as int)),
            rec.wf(),
        decreases doc@.len() - i,
    {
        let ghost t = doc@.take(i + 1);
        assert(t.drop_last() =~= doc@.take(i as int));
        let name = &doc[i].0;
        match &doc[i].1 {
            TomlValue::Table(parts) => {
                match read_hashes(parts) {
                    Ok(h) => {
                        let e = (copy_string(name), h);
                        proof {
                            lemma_put_key(rec.harnesses@, e);
                            let f = |v: Vec<(String, String)>| hashes_view(v@);
                            lemma_put_view(rec.harnesses@, e, f);
                            assert(record_view(rec) =~= entries_view(rec.harnesses@, f));
                        }
                        let ghost before = rec.harnesses@;
                        put_entry(&mut rec.harnesses, e);
                        proof {
                            let f = |v: Vec<(String, String)>| hashes_view(v@);
                            assert(record_view(rec) =~= entries_view(rec.harnesses@, f));
                            lemma_put_wf(before, e);
                        }
                    },
                    Err(k) => {
                        proof {
                            lemma_first_non_string_bounds(parts@, 0);
                        }
                        let mut m = chars_of("`");
                        append_str(&mut m, name.as_str());
                        append_str(&mut m, ".");
                        append_str(&mut m, parts[k].0.as_str());
                        append_str(&mut m, "` is not a string");
                        return Err(refuse(display, &m));
                    },
                }
            },
            _ => {
                let mut m = chars_of("`");
                append_str(&mut m, name.as_str());
                append_str(&mut m, "` is not a table");
                return Err(refuse(display, &m));
            },
        }
        i = i + 1;
    }
    assert(doc@.take(doc@.len() as int) =~= doc@);
    Ok(rec)
}

/// Putting a sorted table into a well-formed record keeps it well formed.
proof fn lemma_put_wf(s: Seq<(String, Vec<(String, String)>)>, e: (String, Vec<(String, String)>))
    requires
        keys_sorted(s),
        forall|i: int| 0 <= i < s.len() ==> keys_sorted(#[trigger] s[i].1@),
        keys_sorted(e.1@),
    ensures
        forall|i: int| 0 <= i < put_key(s, e).len() ==> keys_sorted(#[trigger] put_key(s, e)[i].1@),
{
    lemma_key_pos_bounds(s, e.0@, 0);
    let t = put_key(s, e);
    let k = key_pos(s, e.0@, 0);
    assert forall|i: int| 0 <= i < t.len() implies keys_sorted(#[trigger] t[i].1@) by {
        if has_key(s, e.0@) {
            if i != k {
                assert(t[i] == s[i]);
            }
        } else {
            if i < k {
                assert(t[i] == s[i]);
            } else if i > k {
                assert(t[i] == s[i - 1]);
            }
        }
    }
}

/// The document a record's text stands for: one table per harness, in
/// order, holding its parts' hashes as strings, in order.
pub open spec fn record_doc(r: Seq<(Seq<char>, Seq<(Seq<char>, Seq<char>)>)>) -> Seq<(Seq<char>, TomlModel)> {
    r.map_values(
        |e: (Seq<char>, Seq<(Seq<char>, Seq<char>)>)|
            (e.0, TomlModel::Table(e.1.map_values(|p: (Seq<char>, Seq<char>)| (p.0, TomlModel::Str(p.1))))),
    )
}

/// A name after every name of a list goes at its end.
proof fn lemma_name_pos_end<X>(s: Seq<(Seq<char>, X)>, key: Seq<char>, from: int)
    requires
        0 <= from <= s.len(),
        forall|i: int| from <= i < s.len() ==> seq_lt(#[trigger] s[i].0, key),
    ensures
        name_pos(s, key, from) == s.len(),
    decreases s.len() - from,
{
    if from < s.len() {
        lemma_name_pos_end(s, key, from + 1);
    }
}

/// A table of strings under names in order reads as those names and
/// strings.
proof fn lemma_hashes_read(p: Seq<(String, TomlValue)>, hs: Seq<(Seq<char>, Seq<char>)>, m: int)
    requires
        0 <= m <= p.len(),
        p.len() == hs.len(),
        forall|j: int| 0 <= j < p.len() ==> (#[trigger] p[j]).0@ == hs[j].0 && (p[j].1 matches TomlValue::Str(x) && x@ == hs[j].1),
        forall|i: int, j: int| 0 <= i < j < hs.len() ==> seq_lt(#[trigger] hs[i].0, #[trigger] hs[j].0),
    ensures
        hashes_of(p.take(m)) == hs.take(m),
        first_non_string(p, m) is None,
    decreases p.len() - m, 0int,
{
    lemma_hashes_of_take(p, hs, m);
    if m < p.len() {
        lemma_hashes_read(p, hs, m + 1);
        assert(p[m].1 is Str);
    }
}

proof fn lemma_hashes_of_take(p: Seq<(String, TomlValue)>, hs: Seq<(Seq<char>, Seq<char>)>, m: int)
    requires
        0 <= m <= p.len(),
        p.len() == hs.len(),
        forall|j: int| 0 <= j < p.len() ==> (#[trigger] p[j]).0@ == hs[j].0 && (p[j].1 matches TomlValue::Str(x) && x@ == hs[j].1),
        forall|i: int, j: int| 0 <= i < j < hs.len() ==> seq_lt(#[trigger] hs[i].0, #[trigger] hs[j].0),
    ensures
        hashes_of(p.take(m)) == hs.take(m),
    decreases m,
{
    if m == 0 {
        assert(p.take(0) =~= Seq::<(String, TomlValue)>::empty());
        assert(hs.take(0) =~= Seq::<(Seq<char>, Seq<char>)>::empty());
    } else {
        lemma_hashes_of_take(p, hs, m - 1);
        let t = p.take(m);
        assert(t.drop_last() =~= p.take(m - 1));
        assert(t.last() == p[m - 1]);
        let prev = hs.take(m - 1);
        assert forall|i: int| 0 <= i < prev.len() implies seq_lt(#[trigger] prev[i].0, hs[m - 1].0) by {
            assert(prev[i] == hs[i]);
        }
        lemma_name_pos_end(prev, hs[m - 1].0, 0);
        assert(prev.insert(prev.len() as int, hs[m - 1]) =~= hs.take(m));
    }
}

/// A document of tables of strings under names in order reads as those
/// tables.
proof fn lemma_tables_read(doc: Seq<(String, TomlValue)>, rv: Seq<(Seq<char>, Seq<(Seq<char>, Seq<char>)>)>, m: int)
    requires
        0 <= m <= doc.len(),
        doc.len() == rv.len(),
        forall|j: int| 0 <= j < doc.len() ==> (#[trigger] doc[j]).0@ == rv[j].0 && (doc[j].1 matches TomlValue::Table(p)
            && hashes_of(p@) == rv[j].1 && first_non_string(p@, 0) is None),
        forall|i: int, j: int| 0 <= i < j < rv.len() ==> seq_lt(#[trigger] rv[i].0, #[trigger] rv[j].0),
    ensures
        tables_of(doc.take(m)) == rv.take(m),
    decreases m,
{
    if m == 0 {
        assert(doc.take(0) =~= Seq::<(String, TomlValue)>::empty());
        assert(rv.take(0) =~= Seq::<(Seq<char>, Seq<(Seq<char>, Seq<char>)>)>::empty());
    } else {
        lemma_tables_read(doc, rv, m - 1);
        let t = doc.take(m);
        assert(t.drop_last() =~= doc.take(m - 1));
        assert(t.last() == doc[m - 1]);
        let prev = rv.take(m - 1);
        assert forall|i: int| 0 <= i < prev.len() implies seq_lt(#[trigger] prev[i].0, rv[m - 1].0) by {
            assert(prev[i] == rv[i]);
        }
        lemma_name_pos_end(prev, rv[m - 1].0, 0);
        assert(prev.insert(prev.len() as int, rv[m - 1]) =~= rv.take(m));
    }
}

/// No entry from `from` on is bad when each is a table of strings.
proof fn lemma_first_bad_none(doc: Seq<(String, TomlValue)>, from: int)
    requires
        0 <= from,
        forall|j: int| 0 <= j < doc.len() ==> ((#[trigger] doc[j]).1 matches TomlValue::Table(p) && first_non_string(p@, 0) is None),
    ensures
        first_bad(doc, from) is None,
    decreases doc.len() - from,
{
    if from < doc.len() {
        lemma_first_bad_none(doc, from + 1);
    }
}

/// Reading back the record: a parsed file whose document is the one the
/// record's text stands for (a table per harness, its parts' hashes as
/// strings) reads as the record.
pub proof fn law_record_reads_back(record: Record, display: Seq<char>, doc: Seq<(String, TomlValue)>)
    requires
        record.wf(),
        entries_model(doc) == record_doc(record_view(record)),
    ensures
        record_read(display, Some(Ok(doc))) == Ok::<Seq<(Seq<char>, Seq<(Seq<char>, Seq<char>)>)>, ErrorView>(
            record_view(record),
        ),
{
    let rv = record_view(record);
    assert(doc.len() == rv.len()) by {
        assert(entries_model(doc).len() == doc.len());
    }
    assert forall|j: int| 0 <= j < doc.len() implies (#[trigger] doc[j]).0@ == rv[j].0 && (doc[j].1 matches TomlValue::Table(p)
        && hashes_of(p@) == rv[j].1 && first_non_string(p@, 0) is None) by {
        assert(entries_model(doc)[j] == record_doc(rv)[j]);
        let hs = rv[j].1;
        let tm = TomlModel::Table(hs.map_values(|q: (Seq<char>, Seq<char>)| (q.0, TomlModel::Str(q.1))));
        assert(toml_model(doc[j].1) == tm);
        let v = doc[j].1;
        match v {
            TomlValue::Table(p) => {
                assert(p@.len() == hs.len()) by {
                    assert(toml_model(v)->Table_0.len() == p@.len());
                }
                assert forall|x: int| 0 <= x < p@.len() implies (#[trigger] p@[x]).0@ == hs[x].0 && (p@[x].1 matches TomlValue::Str(y)
                    && y@ == hs[x].1) by {
                    assert(toml_model(v)->Table_0[x] == (p@[x].0@, toml_model(p@[x].1)));
                    assert(tm->Table_0[x] == (hs[x].0, TomlModel::Str(hs[x].1)));
                    match p@[x].1 {
                        TomlValue::Str(y) => {},
                        TomlValue::Table(_) => {},
                        TomlValue::Array(_) => {},
                        TomlValue::Other => {},
                    }
                }
                let h = record.harnesses@[j].1;
                assert(keys_sorted(h@));
                assert forall|a: int, b: int| 0 <= a < b < hs.len() implies seq_lt(#[trigger] hs[a].0, #[trigger] hs[b].0) by {
                    assert(hs[a].0 == h@[a].0@ && hs[b].0 == h@[b].0@);
                }
                lemma_hashes_read(p@, hs, 0);
                lemma_hashes_read(p@, hs, p@.len() as int);
                assert(p@.take(p@.len() as int) =~= p@);
                assert(hs.take(hs.len() as int) =~= hs);
            },
            _ => {
                assert(false);
            },
        }
    }
    assert forall|a: int, b: int| 0 <= a < b < rv.len() implies seq_lt(#[trigger] rv[a].0, #[trigger] rv[b].0) by {
        assert(rv[a].0 == record.harnesses@[a].0@ && rv[b].0 == record.harnesses@[b].0@);
    }
    lemma_first_bad_none(doc, 0);
    lemma_tables_read(doc, rv, doc.len() as int);
    assert(doc.take(doc.len() as int) =~= doc);
    assert(rv.take(rv.len() as int) =~= rv);
}

} // verus!
