//! What the tree holds for a part, from what was read for it.

use vstd::prelude::*;

use crate::error::{Error, ErrorView};
use crate::harness::merge::{
    applied_all, entry_path, extract, extracted, is_tool_group, law_merge_sets_every_entry, op_model, op_value, ops_model, parse_json,
    parsed_doc, paths_part, OpModel,
};
use crate::harness::part::{Content, Part};
use crate::harness::region::{find_region, region_of, Markers};
use crate::harness::state::{files_view, observed_view, same_content, state_of, Found, FoundView, Observed, State};
use crate::json::{json_parsed, copy_string, models, Json, JsonModel};

verus! {

/// What was read for a part, before its state is decided.
#[derive(Debug)]
pub enum Read {
    /// A `file` part: the text of each of its files, in the part's order;
    /// `None` for a file that is absent.
    Files(Vec<Option<String>>),
    /// A `region` part: its file's text; `None` when the file is absent.
    Text(Option<String>),
    /// A `merge` part: its file's text; `None` when the file is absent.
    Json(Option<String>),
    /// An `external` part: what the part holds now; `None` when absent.
    External(Option<String>),
}

/// The first file at or after `k` that was absent.
pub open spec fn first_absent(texts: Seq<Option<String>>, k: int) -> Option<int>
    decreases texts.len() - k,
{
    if k < 0 || k >= texts.len() {
        None
    } else if texts[k] is None {
        Some(k)
    } else {
        first_absent(texts, k + 1)
    }
}

/// The entries of `ops` present in `doc`, in operation order.
pub open spec fn extracted_all(doc: JsonModel, ops: Seq<OpModel>) -> Seq<JsonModel>
    decreases ops.len(),
{
    if ops.len() == 0 {
        Seq::empty()
    } else {
        let rest = extracted_all(doc, ops.drop_last());
        match extracted(doc, ops.last()) {
            Some(v) => rest.push(v),
            None => rest,
        }
    }
}

/// The refusal when what was read does not fit the part.
pub open spec fn read_mismatch() -> ErrorView {
    ErrorView::Internal("what was read does not fit the part"@)
}

/// What the tree holds for a part of content `c`, from what was read
/// (`None` when absent): a `file` part is absent when one of its files is;
/// a `region` part holds the region between the markers; a `merge` part
/// the entries of its operations that are present, absent when none is;
/// an `external` part what it holds now. A `merge` file that does not
/// parse as a JSON object is a refusal naming `display`.
pub open spec fn observed_of(c: Content, read: Read, open: Seq<char>, close: Seq<char>, display: Seq<char>) -> Result<Option<FoundView>, ErrorView> {
    match (c, read) {
        (Content::Files(fs), Read::Files(texts)) => if texts@.len() != fs@.len() {
            Err(read_mismatch())
        } else if first_absent(texts@, 0) is Some {
            Ok(None)
        } else {
            Ok(Some(FoundView::Files(Seq::new(fs@.len(), |i: int| (fs@[i].0@, texts@[i]->Some_0@)))))
        },
        (Content::Block(_), Read::Text(t)) => match t {
            None => Ok(None),
            Some(t) => match region_of(t@, open, close) {
                Some(b) => Ok(Some(FoundView::Block(b))),
                None => Ok(None),
            },
        },
        (Content::Merge(ops), Read::Json(p)) => match p {
            None => Ok(None),
            Some(p) => match parsed_doc(display, json_parsed(p@)) {
                Err(e) => Err(e),
                Ok(doc) => {
                    let entries = extracted_all(doc, ops_model(ops@));
                    if entries.len() == 0 {
                        Ok(None)
                    } else {
                        Ok(Some(FoundView::Entries(entries)))
                    }
                },
            },
        },
        (Content::External(_), Read::External(t)) => match t {
            None => Ok(None),
            Some(t) => Ok(Some(FoundView::Text(t@))),
        },
        _ => Err(read_mismatch()),
    }
}

/// The error for what was read not fitting the part.
fn mismatch() -> (e: Error)
    ensures
        e@ == read_mismatch(),
{
    proof {
        reveal_strlit("what was read does not fit the part");
    }
    Error::Internal("what was read does not fit the part".to_string())
}

/// The files of a `file` part with the texts read for them; `None` when
/// one of them was absent.
fn found_files(fs: &Vec<(String, String)>, texts: &Vec<Option<String>>) -> (r: Option<Vec<(String, String)>>)
    requires
        texts@.len() == fs@.len(),
    ensures
        match first_absent(texts@, 0) {
            Some(_) => r is None,
            None => r matches Some(v) && files_view(v@) == Seq::new(
                fs@.len(),
                |i: int| (fs@[i].0@, texts@[i]->Some_0@),
            ),
        },
{
    let mut out: Vec<(String, String)> = Vec::new();
    let mut i: usize = 0;
    while i < fs.len()
        invariant
            i <= fs@.len(),
            texts@.len() == fs@.len(),
            first_absent(texts@, 0) == first_absent(texts@, i as int),
            out@.len() == i,
            forall|j: int| 0 <= j < i ==> #[trigger] files_view(out@)[j] == (fs@[j].0@, texts@[j]->Some_0@),
        decreases fs@.len() - i,
    {
        match &texts[i] {
            None => return None,
            Some(t) => {
                let ghost before = out@;
                out.push((copy_string(&fs[i].0), copy_string(t)));
                assert(files_view(out@) =~= files_view(before).push((fs@[i as int].0@, texts@[i as int]->Some_0@)));
            },
        }
        i = i + 1;
    }
    assert(files_view(out@) =~= Seq::new(fs@.len(), |i: int| (fs@[i].0@, texts@[i]->Some_0@)));
    Some(out)
}

/// The entries of `ops` present in `doc`, in operation order.
fn extract_all(doc: &Json, ops: &Vec<crate::harness::merge::MergeOp>) -> (r: Vec<Json>)
    ensures
        models(r@) == extracted_all(crate::json::model(*doc), ops_model(ops@)),
{
    let mut out: Vec<Json> = Vec::new();
    let mut i: usize = 0;
    assert(ops_model(ops@).take(0) =~= Seq::<OpModel>::empty());
    while i < ops.len()
        invariant
            i <= ops@.len(),
            models(out@) == extracted_all(crate::json::model(*doc), ops_model(ops@).take(i as int)),
        decreases ops@.len() - i,
    {
        assert(ops_model(ops@).take(i + 1).drop_last() =~= ops_model(ops@).take(i as int));
        assert(ops_model(ops@).take(i + 1).last() == op_model(ops@[i as int]));
        match extract(doc, &ops[i]) {
            Some(v) => {
                let ghost before = out@;
                out.push(v);
                assert(models(out@) =~= models(before).push(crate::json::model(v)));
            },
            None => {},
        }
        i = i + 1;
    }
    assert(ops_model(ops@).take(ops@.len() as int) =~= ops_model(ops@));
    out
}

/// What the tree holds for `part`, from what was read for it: a `file`
/// part is absent when one of its files is; a `region` part holds the
/// block between the markers, absent without them; a `merge` part the
/// entries of its operations that are present, absent when none is; an
/// `external` part what it holds now. A `merge` file that does not parse
/// as a JSON object is a refusal naming `display`.
pub fn observe(part: &Part, read: Read, markers: &Markers, display: &str) -> (r: Result<Observed, Error>)
    ensures
        match observed_of(part.content, read, markers.open@, markers.close@, display@) {
            Ok(o) => r matches Ok(x) && observed_view(x) == o,
            Err(e) => r matches Err(x) && x@ == e,
        },
{
    match (&part.content, read) {
        (Content::Files(fs), Read::Files(texts)) => {
            if texts.len() != fs.len() {
                return Err(mismatch());
            }
            match found_files(fs, &texts) {
                None => Ok(Observed::Absent),
                Some(v) => Ok(Observed::Present(Found::Files(v))),
            }
        },
        (Content::Block(_), Read::Text(t)) => match t {
            None => Ok(Observed::Absent),
            Some(t) => match find_region(t.as_str(), markers) {
                Some(b) => Ok(Observed::Present(Found::Block(b))),
                None => Ok(Observed::Absent),
            },
        },
        (Content::Merge(ops), Read::Json(p)) => match p {
            None => Ok(Observed::Absent),
            Some(p) => {
                let doc = parse_json(display, p.as_str())?;
                let entries = extract_all(&doc, ops);
                if entries.len() == 0 {
                    Ok(Observed::Absent)
                } else {
                    Ok(Observed::Present(Found::Entries(entries)))
                }
            },
        },
        (Content::External(_), Read::External(t)) => match t {
            None => Ok(Observed::Absent),
            Some(t) => Ok(Observed::Present(Found::Text(t))),
        },
        _ => Err(mismatch()),
    }
}

/// When every operation finds its entry, the entries found are those, in
/// operation order.
proof fn lemma_extracted_all_present(doc: JsonModel, ops: Seq<OpModel>)
    requires
        forall|i: int| 0 <= i < ops.len() ==> #[trigger] extracted(doc, ops[i]) is Some,
    ensures
        extracted_all(doc, ops).len() == ops.len(),
        forall|i: int| 0 <= i < ops.len() ==> extracted_all(doc, ops)[i] == #[trigger] extracted(doc, ops[i])->Some_0,
    decreases ops.len(),
{
    if ops.len() > 0 {
        let d = ops.drop_last();
        assert forall|i: int| 0 <= i < d.len() implies #[trigger] extracted(doc, d[i]) is Some by {
            assert(d[i] == ops[i]);
        }
        lemma_extracted_all_present(doc, d);
        assert(extracted(doc, ops[ops.len() - 1]) is Some);
        assert forall|i: int| 0 <= i < ops.len() implies extracted_all(doc, ops)[i] == #[trigger] extracted(doc, ops[i])->Some_0 by {
            if i < ops.len() - 1 {
                assert(d[i] == ops[i]);
            }
        }
    }
}

/// A `merge` part that an install wrote is found current in the document
/// it serialised: every operation finds its entry there, equal as JSON to
/// the value it sets, so the part's state is `current` whatever the record
/// holds. This holds for operations whose entry paths part pairwise and
/// whose hook groups are the tool's own; that the written text parses back
/// to the same document is the JSON parser's part.
pub proof fn law_written_merge_is_current(doc: JsonModel, ops: Seq<OpModel>, recorded: Option<Seq<char>>)
    requires
        applied_all(doc, ops) is Ok,
        forall|i: int| 0 <= i < ops.len() ==> (#[trigger] ops[i] matches OpModel::HookGroup(_, prefix, g) ==> is_tool_group(g, prefix)),
        forall|i: int, j: int| 0 <= i < ops.len() && 0 <= j < ops.len() && i != j ==> paths_part(entry_path(#[trigger] ops[i]), entry_path(#[trigger] ops[j])),
    ensures
        state_of(
            Some(FoundView::Entries(extracted_all(applied_all(doc, ops)->Ok_0, ops))),
            FoundView::Entries(ops.map_values(|op: OpModel| op_value(op))),
            recorded,
            false,
        ) == State::Current,
{
    let after = applied_all(doc, ops)->Ok_0;
    law_merge_sets_every_entry(doc, ops);
    lemma_extracted_all_present(after, ops);
    let found = extracted_all(after, ops);
    let want = ops.map_values(|op: OpModel| op_value(op));
    assert forall|i: int| 0 <= i < found.len() implies crate::json::json_eq(#[trigger] found[i], want[i]) by {
        assert(found[i] == extracted(after, ops[i])->Some_0);
    }
}

/// Whether every operation finds its entry in `doc`, equal as JSON to the
/// value it sets.
pub open spec fn entries_ok(doc: JsonModel, ops: Seq<OpModel>) -> bool {
    forall|i: int|
        0 <= i < ops.len() ==> #[trigger] extracted(doc, ops[i]) is Some && crate::json::json_eq(
            extracted(doc, ops[i])->Some_0,
            op_value(ops[i]),
        )
}

/// Fewer entries are found than there are operations unless every
/// operation finds its entry.
proof fn lemma_extracted_all_len(doc: JsonModel, ops: Seq<OpModel>)
    ensures
        extracted_all(doc, ops).len() <= ops.len(),
        extracted_all(doc, ops).len() == ops.len() ==> forall|i: int|
            0 <= i < ops.len() ==> #[trigger] extracted(doc, ops[i]) is Some,
    decreases ops.len(),
{
    if ops.len() > 0 {
        let d = ops.drop_last();
        lemma_extracted_all_len(doc, d);
        if extracted_all(doc, ops).len() == ops.len() {
            assert(extracted(doc, ops.last()) is Some);
            assert forall|i: int| 0 <= i < ops.len() implies #[trigger] extracted(doc, ops[i]) is Some by {
                if i < ops.len() - 1 {
                    assert(d[i] == ops[i]);
                }
            }
        }
    }
}

/// A part's entries found as they are set make it current whatever the
/// record holds; and found current, they are there as set.
pub(crate) proof fn lemma_entries_current(doc: JsonModel, ops: Seq<OpModel>, recorded: Option<Seq<char>>)
    ensures
        entries_ok(doc, ops) ==> extracted_all(doc, ops).len() == ops.len(),
        entries_ok(doc, ops) ==> state_of(
            Some(FoundView::Entries(extracted_all(doc, ops))),
            FoundView::Entries(ops.map_values(|op: OpModel| op_value(op))),
            recorded,
            false,
        ) == State::Current,
        same_content(
            FoundView::Entries(extracted_all(doc, ops)),
            FoundView::Entries(ops.map_values(|op: OpModel| op_value(op))),
        ) ==> entries_ok(doc, ops),
{
    let want = ops.map_values(|op: OpModel| op_value(op));
    let found = extracted_all(doc, ops);
    if entries_ok(doc, ops) {
        lemma_extracted_all_present(doc, ops);
        assert forall|i: int| 0 <= i < found.len() implies crate::json::json_eq(#[trigger] found[i], want[i]) by {
            assert(found[i] == extracted(doc, ops[i])->Some_0);
        }
    }
    if same_content(FoundView::Entries(found), FoundView::Entries(want)) {
        lemma_extracted_all_len(doc, ops);
        lemma_extracted_all_present(doc, ops);
        assert forall|i: int| 0 <= i < ops.len() implies #[trigger] extracted(doc, ops[i]) is Some && crate::json::json_eq(
            extracted(doc, ops[i])->Some_0,
            op_value(ops[i]),
        ) by {
            assert(found[i] == extracted(doc, ops[i])->Some_0);
            assert(crate::json::json_eq(found[i], want[i]));
        }
    }
}

} // verus!
