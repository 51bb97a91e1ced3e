//! A whole install decided at once: from the profile, the options, the
//! record, the declined parts and what was read of each part, either the
//! first refusal or the complete plan of writes and the report. Nothing is
//! written before the plan is complete, so a refusal leaves the tree as it
//! was.

use vstd::prelude::*;

use crate::error::{Error, ErrorView};
use crate::harness::declined::names_view;
use crate::harness::install::{
    check_without, examine_part, install_parts, line_view, plan_record, record_after, unknown_part,
    unknown_part_error, verb_of, writes, Examined, HarnessResult, InstallOptions, PartResult,
};
use crate::harness::observe::{observe, observed_of, Read};
use crate::harness::part::{expected_view, rendered_files, target_of, target_path, Content, Part, Profile};
use crate::harness::record::{
    drop_name, get_entry, get_key, hashes_view, put_name, record_text, record_view, recorded_parts, Record,
};
use crate::harness::region::Markers;
use crate::harness::state::{content_hash, observed_view, state_of, State};
use crate::harness::write::{
    existing_of, existing_text, law_plan_replaces, path_index, pending_text, plan_part, planned, planned_part, strings_of, with_file, with_files, Plan,
};
use crate::harness::region::{body_lines, cr_inside, find_markers, first_line_from, marker_ok, rendered};
use crate::lines::{split_lines, trim_end};
use crate::text::crlf_to_lf;
use crate::harness::merge::{
    applied_all, ends_with_newline, entry_path, indent_of_text, is_tool_group, merge_rendered, ops_model, paths_part,
    with_parse, OpModel,
};
use crate::harness::observe::entries_ok;
use crate::json::{copy_string, json_parsed, json_text_of, JsonModel};
use crate::smllm::{join, joined_to};

verus! {

/// A part as an install examined it, as plain values.
pub struct ExamView {
    pub name: Seq<char>,
    pub path: Seq<char>,
    pub state: State,
    pub existed: bool,
    pub is_files: bool,
    pub hash: Seq<char>,
}

/// The plain value of an examined part.
pub open spec fn exam_view(e: Examined) -> ExamView {
    ExamView { name: e.name@, path: e.path@, state: e.state, existed: e.existed, is_files: e.is_files, hash: e.hash@ }
}

/// The hash the record keeps for part `name` of `harness`.
pub open spec fn recorded_hash(record: Record, harness: Seq<char>, name: Seq<char>) -> Option<Seq<char>> {
    match get_key(record.harnesses@, harness) {
        Some(v) => match get_key(v@, name) {
            Some(h) => Some(h@),
            None => None,
        },
        None => None,
    }
}

/// A part examined from what was read for it (`on_disk`: whether its path
/// exists): its path, its state against the tool's content, the recorded
/// hash and the declined parts; a refusal when what was read does not
/// observe.
#[verifier::opaque]
pub open spec fn exam_of(
    p: Part,
    read: Read,
    on_disk: bool,
    markers: (Seq<char>, Seq<char>),
    instructions: Seq<char>,
    record: Record,
    harness: Seq<char>,
    declined: Seq<Seq<char>>,
) -> Result<ExamView, ErrorView> {
    let path = target_of(p, instructions);
    match observed_of(p.content, read, markers.0, markers.1, path) {
        Err(e) => Err(e),
        Ok(o) => Ok(
            ExamView {
                name: p.name@,
                path,
                state: state_of(
                    o,
                    expected_view(p.content),
                    recorded_hash(record, harness, p.name@),
                    declined.contains(p.name@),
                ),
                existed: o is Some || (!(p.content is External) && on_disk),
                is_files: p.content is Files,
                hash: content_hash(expected_view(p.content)),
            },
        ),
    }
}

/// Every part examined in profile order; the first refusal.
pub open spec fn exams_of(
    parts: Seq<Part>,
    reads: Seq<Read>,
    on_disk: Seq<bool>,
    markers: (Seq<char>, Seq<char>),
    instructions: Seq<char>,
    record: Record,
    harness: Seq<char>,
    declined: Seq<Seq<char>>,
) -> Result<Seq<ExamView>, ErrorView>
    decreases parts.len(),
{
    if parts.len() == 0 {
        Ok(Seq::empty())
    } else {
        let n = parts.len() - 1;
        match exams_of(parts.drop_last(), reads, on_disk, markers, instructions, record, harness, declined) {
            Err(e) => Err(e),
            Ok(es) => match exam_of(parts[n], reads[n], on_disk[n], markers, instructions, record, harness, declined) {
                Err(e) => Err(e),
                Ok(x) => Ok(es.push(x)),
            },
        }
    }
}

/// The record's hashes after an install passed the examined parts `es`.
pub open spec fn hashes_after(rec: Seq<(Seq<char>, Seq<char>)>, es: Seq<ExamView>, force: bool) -> Seq<(Seq<char>, Seq<char>)>
    decreases es.len(),
{
    if es.len() == 0 {
        rec
    } else {
        let r = hashes_after(rec, es.drop_last(), force);
        let e = es.last();
        match e.state {
            State::Skipped => drop_name(r, e.name),
            _ => if e.state == State::Edited && !force {
                r
            } else {
                put_name(r, (e.name, e.hash))
            },
        }
    }
}

/// The text an install plans on for a part: its file's text as read, for a
/// `region` or `merge` part.
pub open spec fn part_text(p: Part, text: Option<String>) -> Option<Seq<char>> {
    match p.content {
        Content::Block(_) | Content::Merge(_) => match text {
            Some(t) => Some(t@),
            None => None,
        },
        _ => None,
    }
}

/// The writes planned for the parts an install writes, in profile order:
/// each part at its path under `root`, from the text planned for that path
/// already or else the text read; the first refusal.
pub open spec fn plans_of(
    parts: Seq<Part>,
    es: Seq<ExamView>,
    texts: Seq<Option<String>>,
    root: Seq<char>,
    markers: (Seq<char>, Seq<char>),
    force: bool,
) -> Result<(Seq<(Seq<char>, Seq<char>)>, Seq<Seq<char>>), ErrorView>
    decreases parts.len(),
{
    if parts.len() == 0 {
        Ok((Seq::empty(), Seq::empty()))
    } else {
        let n = parts.len() - 1;
        match plans_of(parts.drop_last(), es, texts, root, markers, force) {
            Err(e) => Err(e),
            Ok((fs, xs)) => if writes(es[n].state, force) {
                let at = joined_to(root, es[n].path);
                planned_part(
                    fs,
                    xs,
                    parts[n].name@,
                    parts[n].content,
                    at,
                    existing_of(fs, at, part_text(parts[n], texts[n])),
                    markers.0,
                    markers.1,
                    es[n].path,
                )
            } else {
                Ok((fs, xs))
            },
        }
    }
}

/// What an install decides: the report lines, the planned files, the
/// external parts to write and the record write; or the first refusal, in
/// the order an install meets them: an unknown part in `--without`, the
/// declined store, a part whose file does not observe, a part whose write
/// cannot be planned.
pub open spec fn install_of(
    profile: Profile,
    opts: InstallOptions,
    record: Record,
    stored: Result<Seq<Seq<char>>, ErrorView>,
    reads: Seq<Read>,
    on_disk: Seq<bool>,
    texts: Seq<Option<String>>,
    root: Seq<char>,
    markers: (Seq<char>, Seq<char>),
    instructions: Seq<char>,
    record_path: Seq<char>,
    record_on_disk: bool,
    header: Seq<char>,
) -> Result<
    (
        Seq<(Seq<char>, Seq<char>, Seq<char>)>,
        Seq<(Seq<char>, Seq<char>)>,
        Seq<Seq<char>>,
        Option<(Seq<char>, Seq<char>)>,
    ),
    ErrorView,
> {
    let harness = profile.harness@;
    let unknown = match opts.without {
        Some(w) => unknown_part(profile.parts@, w@, 0),
        None => None,
    };
    match unknown {
        Some(k) => Err(unknown_part_error(harness, opts.without->Some_0@[k]@)),
        None => match stored {
            Err(e) => Err(e),
            Ok(s) => {
                let declined = match opts.without {
                    Some(w) => names_view(w@),
                    None => s,
                };
                match exams_of(profile.parts@, reads, on_disk, markers, instructions, record, harness, declined) {
                    Err(e) => Err(e),
                    Ok(es) => match plans_of(profile.parts@, es, texts, root, markers, opts.force) {
                        Err(e) => Err(e),
                        Ok((fs, xs)) => {
                            let start = match get_key(record.harnesses@, harness) {
                                Some(v) => hashes_view(v@),
                                None => Seq::empty(),
                            };
                            let after = record_after(record_view(record), harness, hashes_after(start, es, opts.force));
                            let rw = if after != record_view(record) || !record_on_disk {
                                Some((record_path, record_text(after, header)))
                            } else {
                                None
                            };
                            Ok(
                                (
                                    es.map_values(
                                        |e: ExamView| (e.name, verb_of(e.state, e.existed, e.is_files, opts.force), e.path),
                                    ),
                                    fs,
                                    xs,
                                    rw,
                                ),
                            )
                        },
                    },
                }
            },
        },
    }
}

/// A refusal met on a prefix of the parts is the refusal of them all.
proof fn lemma_exams_prefix(
    parts: Seq<Part>,
    reads: Seq<Read>,
    on_disk: Seq<bool>,
    markers: (Seq<char>, Seq<char>),
    instructions: Seq<char>,
    record: Record,
    harness: Seq<char>,
    declined: Seq<Seq<char>>,
    k: int,
)
    requires
        0 <= k <= parts.len(),
        exams_of(parts.take(k), reads, on_disk, markers, instructions, record, harness, declined) is Err,
    ensures
        exams_of(parts, reads, on_disk, markers, instructions, record, harness, declined) == exams_of(
            parts.take(k),
            reads,
            on_disk,
            markers,
            instructions,
            record,
            harness,
            declined,
        ),
    decreases parts.len(),
{
    if k == parts.len() {
        assert(parts.take(k) =~= parts);
    } else {
        let d = parts.drop_last();
        assert(d.take(k) =~= parts.take(k));
        lemma_exams_prefix(d, reads, on_disk, markers, instructions, record, harness, declined, k);
    }
}

/// A refusal met while planning a prefix of the parts is the refusal of
/// them all.
proof fn lemma_plans_prefix(
    parts: Seq<Part>,
    es: Seq<ExamView>,
    texts: Seq<Option<String>>,
    root: Seq<char>,
    markers: (Seq<char>, Seq<char>),
    force: bool,
    k: int,
)
    requires
        0 <= k <= parts.len(),
        plans_of(parts.take(k), es, texts, root, markers, force) is Err,
    ensures
        plans_of(parts, es, texts, root, markers, force) == plans_of(parts.take(k), es, texts, root, markers, force),
    decreases parts.len(),
{
    if k == parts.len() {
        assert(parts.take(k) =~= parts);
    } else {
        let d = parts.drop_last();
        assert(d.take(k) =~= parts.take(k));
        lemma_plans_prefix(d, es, texts, root, markers, force, k);
    }
}

/// The record's hashes after the parts, by examined part or by its plain
/// value.
proof fn lemma_hashes_after(rec: Seq<(Seq<char>, Seq<char>)>, ex: Seq<Examined>, force: bool)
    ensures
        crate::harness::install::recorded_after_all(rec, ex, force) == hashes_after(
            rec,
            ex.map_values(|e: Examined| exam_view(e)),
            force,
        ),
    decreases ex.len(),
{
    if ex.len() > 0 {
        lemma_hashes_after(rec, ex.drop_last(), force);
        assert(ex.drop_last().map_values(|e: Examined| exam_view(e)) =~= ex.map_values(|e: Examined| exam_view(e)).drop_last());
    }
}

/// Planning parts of which none is written plans nothing.
proof fn lemma_plans_settled(
    parts: Seq<Part>,
    es: Seq<ExamView>,
    texts: Seq<Option<String>>,
    root: Seq<char>,
    markers: (Seq<char>, Seq<char>),
    force: bool,
)
    requires
        parts.len() <= es.len(),
        forall|k: int| 0 <= k < parts.len() ==> !writes(#[trigger] es[k].state, force),
    ensures
        plans_of(parts, es, texts, root, markers, force) == Ok::<
            (Seq<(Seq<char>, Seq<char>)>, Seq<Seq<char>>),
            ErrorView,
        >((Seq::empty(), Seq::empty())),
    decreases parts.len(),
{
    if parts.len() > 0 {
        lemma_plans_settled(parts.drop_last(), es, texts, root, markers, force);
        assert(!writes(es[parts.len() - 1].state, force));
    }
}

/// The declined parts an install goes by: `--without` when given, else
/// the stored ones.
pub open spec fn declined_of(without: Option<Vec<String>>, stored: Seq<Seq<char>>) -> Seq<Seq<char>> {
    match without {
        Some(w) => names_view(w@),
        None => stored,
    }
}

/// An install that examines every part of its profile as current or
/// declined plans no write to any part's file and no external part, and
/// reports each part by the state it found: deciding the same install again
/// on the tree it left changes nothing there.
pub proof fn law_settled_install_plans_no_part_write(
    profile: Profile,
    opts: InstallOptions,
    record: Record,
    stored: Seq<Seq<char>>,
    reads: Seq<Read>,
    on_disk: Seq<bool>,
    texts: Seq<Option<String>>,
    root: Seq<char>,
    markers: (Seq<char>, Seq<char>),
    instructions: Seq<char>,
    record_path: Seq<char>,
    record_on_disk: bool,
    header: Seq<char>,
)
    requires
        opts.without matches Some(w) ==> unknown_part(profile.parts@, w@, 0) is None,
        exams_of(profile.parts@, reads, on_disk, markers, instructions, record, profile.harness@, declined_of(opts.without, stored)) is Ok,
        forall|k: int|
            0 <= k < profile.parts@.len() ==> {
                let s = (#[trigger] exams_of(
                    profile.parts@,
                    reads,
                    on_disk,
                    markers,
                    instructions,
                    record,
                    profile.harness@,
                    declined_of(opts.without, stored),
                )->Ok_0[k]).state;
                s == State::Current || s == State::Skipped
            },
    ensures
        ({
            let es = exams_of(profile.parts@, reads, on_disk, markers, instructions, record, profile.harness@, declined_of(opts.without, stored))->Ok_0;
            install_of(
                profile,
                opts,
                record,
                Ok(stored),
                reads,
                on_disk,
                texts,
                root,
                markers,
                instructions,
                record_path,
                record_on_disk,
                header,
            ) matches Ok((lines, fs, xs, rw)) && fs.len() == 0 && xs.len() == 0 && lines == es.map_values(
                |e: ExamView| (e.name, crate::harness::state::state_name(e.state), e.path),
            )
        }),
{
    let es = exams_of(profile.parts@, reads, on_disk, markers, instructions, record, profile.harness@, declined_of(opts.without, stored))->Ok_0;
    lemma_exams_len(profile.parts@, reads, on_disk, markers, instructions, record, profile.harness@, declined_of(opts.without, stored));
    assert forall|k: int| 0 <= k < profile.parts@.len() implies !writes(#[trigger] es[k].state, opts.force) by {
        let s = exams_of(profile.parts@, reads, on_disk, markers, instructions, record, profile.harness@, declined_of(opts.without, stored))->Ok_0[k].state;
        assert(s == State::Current || s == State::Skipped);
    }
    lemma_plans_settled(profile.parts@, es, texts, root, markers, opts.force);
    let lines = es.map_values(
        |e: ExamView| (e.name, verb_of(e.state, e.existed, e.is_files, opts.force), e.path),
    );
    assert forall|k: int| 0 <= k < es.len() implies #[trigger] lines[k] == (
        es[k].name,
        crate::harness::state::state_name(es[k].state),
        es[k].path,
    ) by {
        let s = exams_of(profile.parts@, reads, on_disk, markers, instructions, record, profile.harness@, declined_of(opts.without, stored))->Ok_0[k].state;
        assert(s == State::Current || s == State::Skipped);
    }
    assert(lines =~= es.map_values(|e: ExamView| (e.name, crate::harness::state::state_name(e.state), e.path)));
}

/// Examining every part gives one exam per part.
proof fn lemma_exams_len(
    parts: Seq<Part>,
    reads: Seq<Read>,
    on_disk: Seq<bool>,
    markers: (Seq<char>, Seq<char>),
    instructions: Seq<char>,
    record: Record,
    harness: Seq<char>,
    declined: Seq<Seq<char>>,
)
    ensures
        exams_of(parts, reads, on_disk, markers, instructions, record, harness, declined) matches Ok(es) ==> es.len()
            == parts.len(),
    decreases parts.len(),
{
    if parts.len() > 0 {
        lemma_exams_len(parts.drop_last(), reads, on_disk, markers, instructions, record, harness, declined);
    }
}

/// An exam of a whole profile holds each part's own exam.
proof fn lemma_exams_at(
    parts: Seq<Part>,
    reads: Seq<Read>,
    on_disk: Seq<bool>,
    markers: (Seq<char>, Seq<char>),
    instructions: Seq<char>,
    record: Record,
    harness: Seq<char>,
    declined: Seq<Seq<char>>,
    k: int,
)
    requires
        exams_of(parts, reads, on_disk, markers, instructions, record, harness, declined) is Ok,
        0 <= k < parts.len(),
    ensures
        exam_of(parts[k], reads[k], on_disk[k], markers, instructions, record, harness, declined) == Ok::<
            ExamView,
            ErrorView,
        >(exams_of(parts, reads, on_disk, markers, instructions, record, harness, declined)->Ok_0[k]),
    decreases parts.len(),
{
    let d = parts.drop_last();
    lemma_exams_len(d, reads, on_disk, markers, instructions, record, harness, declined);
    if k < parts.len() - 1 {
        lemma_exams_at(d, reads, on_disk, markers, instructions, record, harness, declined, k);
        assert(d[k] == parts[k]);
    }
}

/// Parts each examined as current or declined make an exam of the whole
/// profile holding those exams.
proof fn lemma_exams_settled(
    parts: Seq<Part>,
    reads: Seq<Read>,
    on_disk: Seq<bool>,
    markers: (Seq<char>, Seq<char>),
    instructions: Seq<char>,
    record: Record,
    harness: Seq<char>,
    declined: Seq<Seq<char>>,
)
    requires
        forall|k: int|
            0 <= k < parts.len() ==> #[trigger] exam_of(parts[k], reads[k], on_disk[k], markers, instructions, record, harness, declined) is Ok,
    ensures
        exams_of(parts, reads, on_disk, markers, instructions, record, harness, declined) is Ok,
        forall|k: int|
            0 <= k < parts.len() ==> Ok::<ExamView, ErrorView>(
                #[trigger] exams_of(parts, reads, on_disk, markers, instructions, record, harness, declined)->Ok_0[k],
            ) == exam_of(parts[k], reads[k], on_disk[k], markers, instructions, record, harness, declined),
    decreases parts.len(),
{
    if parts.len() > 0 {
        let d = parts.drop_last();
        assert forall|k: int| 0 <= k < d.len() implies #[trigger] exam_of(d[k], reads[k], on_disk[k], markers, instructions, record, harness, declined) is Ok by {
            assert(d[k] == parts[k]);
        }
        lemma_exams_settled(d, reads, on_disk, markers, instructions, record, harness, declined);
        lemma_exams_len(d, reads, on_disk, markers, instructions, record, harness, declined);
        let n = parts.len() - 1;
        assert(exam_of(parts[n], reads[n], on_disk[n], markers, instructions, record, harness, declined) is Ok);
        let es = exams_of(parts, reads, on_disk, markers, instructions, record, harness, declined)->Ok_0;
        assert forall|k: int| 0 <= k < parts.len() implies Ok::<ExamView, ErrorView>(#[trigger] es[k]) == exam_of(
            parts[k],
            reads[k],
            on_disk[k],
            markers,
            instructions,
            record,
            harness,
            declined,
        ) by {
            if k < n {
                assert(d[k] == parts[k]);
            }
        }
    }
}

/// The file an install writes part `p` at, under `root`.
pub open spec fn part_at(p: Part, root: Seq<char>, instructions: Seq<char>) -> Seq<char> {
    joined_to(root, target_of(p, instructions))
}

/// The files an install writes for part `p` at `at`: a region part's own
/// file, or each file of a `file` part under `at`.
pub open spec fn written_paths(p: Part, at: Seq<char>) -> Seq<Seq<char>> {
    match p.content {
        Content::Files(_) => rendered_files(p.content).map_values(|f: (Seq<char>, Seq<char>)| joined_to(at, f.0)),
        _ => seq![at],
    }
}

/// No two files that the parts are written to are the same file, but for
/// `merge` parts, which may share their file.
pub open spec fn apart(parts: Seq<Part>, root: Seq<char>, instructions: Seq<char>) -> bool {
    forall|i: int, a: int, k: int, b: int|
        0 <= i < parts.len() && 0 <= k < parts.len() && !(parts[i].content is Merge && parts[k].content is Merge)
            && 0 <= a < written_paths(
            parts[i],
            part_at(parts[i], root, instructions),
        ).len() && 0 <= b < written_paths(parts[k], part_at(parts[k], root, instructions)).len() && (i != k || a
            != b) ==> #[trigger] written_paths(parts[i], part_at(parts[i], root, instructions))[a]
            != #[trigger] written_paths(parts[k], part_at(parts[k], root, instructions))[b]
}

/// The text an install plans for file `a` of part `p`, `pt` being the text
/// it plans on: a `file` part's own text, or the rendered region.
pub open spec fn planned_at(p: Part, a: int, pt: Option<Seq<char>>, markers: (Seq<char>, Seq<char>)) -> Option<Seq<char>> {
    match p.content {
        Content::Files(_) => Some(rendered_files(p.content)[a].1),
        Content::Block(b) => rendered(pt, b@, markers.0, markers.1),
        _ => None,
    }
}

/// Setting files under a directory plans each of them with its text and
/// leaves every other path as it was.
proof fn lemma_with_files(fs0: Seq<(Seq<char>, Seq<char>)>, dir: Seq<char>, l: Seq<(Seq<char>, Seq<char>)>, q: Seq<char>)
    requires
        forall|a: int, b: int|
            0 <= a < b < l.len() ==> joined_to(dir, #[trigger] l[a].0) != joined_to(dir, #[trigger] l[b].0),
    ensures
        forall|a: int|
            0 <= a < l.len() ==> #[trigger] pending_text(with_files(fs0, dir, l), joined_to(dir, l[a].0)) == Some(
                l[a].1,
            ),
        (forall|a: int| 0 <= a < l.len() ==> joined_to(dir, #[trigger] l[a].0) != q) ==> pending_text(
            with_files(fs0, dir, l),
            q,
        ) == pending_text(fs0, q),
    decreases l.len(),
{
    if l.len() > 0 {
        let d = l.drop_last();
        let m = l.len() - 1;
        assert forall|a: int, b: int| 0 <= a < b < d.len() implies joined_to(dir, #[trigger] d[a].0) != joined_to(
            dir,
            #[trigger] d[b].0,
        ) by {
            assert(d[a] == l[a] && d[b] == l[b]);
        }
        lemma_with_files(fs0, dir, d, q);
        let before = with_files(fs0, dir, d);
        let last = joined_to(dir, l[m].0);
        assert forall|a: int| 0 <= a < l.len() implies #[trigger] pending_text(with_files(fs0, dir, l), joined_to(dir, l[a].0))
            == Some(l[a].1) by {
            if a == m {
                law_plan_replaces(before, last, l[m].1, last.push('a'));
            } else {
                assert(d[a] == l[a]);
                lemma_with_files(fs0, dir, d, joined_to(dir, l[a].0));
                law_plan_replaces(before, last, l[m].1, joined_to(dir, l[a].0));
            }
        }
        if forall|a: int| 0 <= a < l.len() ==> joined_to(dir, #[trigger] l[a].0) != q {
            assert forall|a: int| 0 <= a < d.len() implies joined_to(dir, #[trigger] d[a].0) != q by {
                assert(d[a] == l[a]);
            }
            assert(joined_to(dir, l[m].0) != q);
            law_plan_replaces(before, last, l[m].1, q);
        }
    }
}

/// Planning region and file parts whose files are apart leaves each file
/// of a written part planned with its text (a region's file only when
/// rendering changes it), and every other file of theirs not planned.
#[verifier::rlimit(60)]
proof fn lemma_part_plans(
    parts: Seq<Part>,
    es: Seq<ExamView>,
    texts: Seq<Option<String>>,
    root: Seq<char>,
    markers: (Seq<char>, Seq<char>),
    force: bool,
    instructions: Seq<char>,
    j: int,
)
    requires
        0 <= j <= parts.len(),
        parts.len() <= es.len(),
        forall|k: int|
            0 <= k < parts.len() ==> (#[trigger] parts[k]).content is Block || parts[k].content is Files
                || parts[k].content is Merge,
        forall|k: int| 0 <= k < parts.len() ==> (#[trigger] es[k]).path == target_of(parts[k], instructions),
        apart(parts, root, instructions),
        plans_of(parts.take(j), es, texts, root, markers, force) is Ok,
    ensures
        forall|k: int, a: int|
            0 <= k < parts.len() && !(parts[k].content is Merge) && 0 <= a < written_paths(parts[k], part_at(parts[k], root, instructions)).len()
                ==> #[trigger] pending_text(
                plans_of(parts.take(j), es, texts, root, markers, force)->Ok_0.0,
                written_paths(parts[k], part_at(parts[k], root, instructions))[a],
            ) == if k < j && writes(es[k].state, force) {
                planned_at(parts[k], a, part_text(parts[k], texts[k]), markers)
            } else {
                None
            },
    decreases j,
{
    let t = parts.take(j);
    if j == 0 {
        assert(t =~= Seq::<Part>::empty());
        assert forall|k: int, a: int|
            0 <= k < parts.len() && !(parts[k].content is Merge) && 0 <= a < written_paths(parts[k], part_at(parts[k], root, instructions)).len()
                implies #[trigger] pending_text(
            plans_of(t, es, texts, root, markers, force)->Ok_0.0,
            written_paths(parts[k], part_at(parts[k], root, instructions))[a],
        ) == None::<Seq<char>> by {
            let e = Seq::<(Seq<char>, Seq<char>)>::empty();
            assert(path_index(e, written_paths(parts[k], part_at(parts[k], root, instructions))[a], 0) == 0);
        }
    } else {
        let n = j - 1;
        assert(t.drop_last() =~= parts.take(n));
        assert(t[n] == parts[n]);
        lemma_part_plans(parts, es, texts, root, markers, force, instructions, n);
        let prev = plans_of(parts.take(n), es, texts, root, markers, force)->Ok_0;
        let fs = prev.0;
        let pn = parts[n];
        let at = part_at(pn, root, instructions);
        let wn = written_paths(pn, at);
        assert(joined_to(root, es[n].path) == at);
        let pt = part_text(pn, texts[n]);
        let out = plans_of(t, es, texts, root, markers, force)->Ok_0.0;
        if pn.content is Block {
            assert(wn[0] == at);
            assert(pending_text(fs, wn[0]) is None);
            assert(existing_of(fs, at, pt) == pt);
        } else if pn.content is Files {
            let l = rendered_files(pn.content);
            assert forall|a: int, b: int| 0 <= a < b < l.len() implies joined_to(at, #[trigger] l[a].0) != joined_to(
                at,
                #[trigger] l[b].0,
            ) by {
                assert(wn[a] == joined_to(at, l[a].0));
                assert(wn[b] == joined_to(at, l[b].0));
            }
            lemma_with_files(fs, at, l, at);
        }
        assert forall|k: int, a: int|
            0 <= k < parts.len() && !(parts[k].content is Merge) && 0 <= a < written_paths(parts[k], part_at(parts[k], root, instructions)).len()
                implies #[trigger] pending_text(out, written_paths(parts[k], part_at(parts[k], root, instructions))[a])
            == if k < j && writes(es[k].state, force) {
            planned_at(parts[k], a, part_text(parts[k], texts[k]), markers)
        } else {
            None
        } by {
            let q = written_paths(parts[k], part_at(parts[k], root, instructions))[a];
            if writes(es[n].state, force) {
                if pn.content is Block {
                    let b = pn.content->Block_0@;
                    match rendered(pt, b, markers.0, markers.1) {
                        Some(x) => {
                            assert(out == with_file(fs, at, x));
                            if k == n {
                                assert(a == 0);
                                law_plan_replaces(fs, at, x, at.push('a'));
                            } else {
                                assert(q != wn[0]);
                                law_plan_replaces(fs, at, x, q);
                            }
                        },
                        None => {
                            assert(out == fs);
                        },
                    }
                } else if pn.content is Merge {
                    assert(wn[0] == at);
                    match crate::harness::merge::merge_rendered(
                        crate::harness::merge::with_parse(existing_of(fs, at, pt)),
                        crate::harness::merge::ops_model(pn.content->Merge_0@),
                        es[n].path,
                    ) {
                        Ok(Some(x)) => {
                            assert(out == with_file(fs, at, x));
                            assert(q != wn[0]);
                            law_plan_replaces(fs, at, x, q);
                        },
                        _ => {
                            assert(out == fs);
                        },
                    }
                } else {
                    let l = rendered_files(pn.content);
                    assert(out == with_files(fs, at, l));
                    if k == n {
                        assert(wn[a] == joined_to(at, l[a].0));
                    } else {
                        assert forall|c: int| 0 <= c < l.len() implies joined_to(at, #[trigger] l[c].0) != q by {
                            assert(wn[c] == joined_to(at, l[c].0));
                            assert(wn[c] != q);
                        }
                        lemma_with_files(fs, at, l, q);
                    }
                }
            } else {
                assert(out == fs);
            }
        }
    }
}

/// The operations of a `merge` part.
pub open spec fn part_ops(p: Part) -> Seq<OpModel> {
    match p.content {
        Content::Merge(ops) => ops_model(ops@),
        _ => Seq::empty(),
    }
}

/// A `merge` part an install keeps current: at least one operation, each
/// array entry at a non-empty path, each hook group the tool's own, and
/// the entry paths of its operations parting pairwise.
pub open spec fn merge_kept(p: Part) -> bool {
    &&& p.content is Merge
    &&& part_ops(p).len() > 0
    &&& forall|i: int|
        0 <= i < part_ops(p).len() ==> (#[trigger] part_ops(p)[i] matches OpModel::ArrayEntry(q, _) ==> q.len() > 0)
    &&& forall|i: int|
        0 <= i < part_ops(p).len() ==> (#[trigger] part_ops(p)[i] matches OpModel::HookGroup(_, prefix, g)
            ==> is_tool_group(g, prefix))
    &&& forall|i: int, j: int|
        0 <= i < part_ops(p).len() && 0 <= j < part_ops(p).len() && i != j ==> paths_part(
            entry_path(#[trigger] part_ops(p)[i]),
            entry_path(#[trigger] part_ops(p)[j]),
        )
}

/// `merge` parts that share a file read the same text of it, and the entry
/// paths of their operations part.
pub open spec fn merges_share_well(
    parts: Seq<Part>,
    texts: Seq<Option<String>>,
    root: Seq<char>,
    instructions: Seq<char>,
) -> bool {
    forall|i: int, k: int|
        0 <= i < parts.len() && 0 <= k < parts.len() && parts[i].content is Merge && parts[k].content is Merge
            && #[trigger] part_at(parts[i], root, instructions) == #[trigger] part_at(parts[k], root, instructions)
            ==> part_text(parts[i], texts[i]) == part_text(parts[k], texts[k]) && (i != k ==> forall|a: int, b: int|
            0 <= a < part_ops(parts[i]).len() && 0 <= b < part_ops(parts[k]).len() ==> paths_part(
                entry_path(#[trigger] part_ops(parts[i])[a]),
                entry_path(#[trigger] part_ops(parts[k])[b]),
            ))
}

/// The document a merge reads from a file's text: its parse, or an empty
/// object where there is no file.
pub open spec fn doc_of(t: Option<Seq<char>>) -> JsonModel {
    match t {
        Some(x) => json_parsed(x)->Ok_0,
        None => JsonModel::Object(Seq::empty()),
    }
}

/// The text a merge of `ops` serialises from a file's text `t`, in the
/// file's style (two spaces and a trailing newline for a new file).
pub open spec fn merge_out(t: Option<Seq<char>>, ops: Seq<OpModel>) -> Seq<char> {
    let a = applied_all(doc_of(t), ops)->Ok_0;
    match t {
        Some(x) => json_text_of(a, indent_of_text(x), ends_with_newline(x)),
        None => json_text_of(a, "  "@, true),
    }
}

/// The text part `k` plans on at its file once the first `j` parts are
/// planned.
pub open spec fn text_planned_on(
    parts: Seq<Part>,
    es: Seq<ExamView>,
    texts: Seq<Option<String>>,
    root: Seq<char>,
    markers: (Seq<char>, Seq<char>),
    force: bool,
    instructions: Seq<char>,
    j: int,
    k: int,
) -> Option<Seq<char>> {
    existing_of(
        plans_of(parts.take(j), es, texts, root, markers, force)->Ok_0.0,
        part_at(parts[k], root, instructions),
        part_text(parts[k], texts[k]),
    )
}

/// Each `merge` part an install writes reads back: the text it serialises
/// parses to the document it serialised.
pub open spec fn merges_read_back(
    parts: Seq<Part>,
    es: Seq<ExamView>,
    texts: Seq<Option<String>>,
    root: Seq<char>,
    markers: (Seq<char>, Seq<char>),
    force: bool,
    instructions: Seq<char>,
) -> bool {
    forall|k: int|
        0 <= k < parts.len() && parts[k].content is Merge && writes(es[k].state, force) ==> json_parsed(
            merge_out(
                #[trigger] text_planned_on(parts, es, texts, root, markers, force, instructions, k, k),
                part_ops(parts[k]),
            ),
        ) == Ok::<JsonModel, Seq<char>>(
            applied_all(
                doc_of(text_planned_on(parts, es, texts, root, markers, force, instructions, k, k)),
                part_ops(parts[k]),
            )->Ok_0,
        )
}

/// Planning parts whose `merge` files are shared well and read back keeps
/// each such file's text parsing to an object, and holding the entries of
/// every `merge` part there that is current or written so far.
#[verifier::rlimit(80)]
proof fn lemma_merge_plans(
    parts: Seq<Part>,
    es: Seq<ExamView>,
    texts: Seq<Option<String>>,
    root: Seq<char>,
    markers: (Seq<char>, Seq<char>),
    force: bool,
    instructions: Seq<char>,
    j: int,
)
    requires
        0 <= j <= parts.len(),
        parts.len() <= es.len(),
        forall|k: int|
            0 <= k < parts.len() ==> (#[trigger] parts[k]).content is Block || parts[k].content is Files
                || parts[k].content is Merge,
        forall|k: int| 0 <= k < parts.len() ==> (#[trigger] es[k]).path == target_of(parts[k], instructions),
        apart(parts, root, instructions),
        plans_of(parts.take(j), es, texts, root, markers, force) is Ok,
        forall|k: int| 0 <= k < parts.len() && (#[trigger] parts[k]).content is Merge ==> merge_kept(parts[k]),
        merges_share_well(parts, texts, root, instructions),
        merges_read_back(parts, es, texts, root, markers, force, instructions),
        forall|k: int|
            0 <= k < parts.len() && parts[k].content is Merge ==> (#[trigger] part_text(parts[k], texts[k]) matches Some(
                x,
            ) ==> json_parsed(x) matches Ok(d) && d is Object),
        forall|k: int|
            0 <= k < parts.len() && parts[k].content is Merge && (#[trigger] es[k]).state == State::Current
                ==> part_text(parts[k], texts[k]) is Some && entries_ok(doc_of(part_text(parts[k], texts[k])), part_ops(parts[k])),
    ensures
        forall|k: int|
            0 <= k < parts.len() && parts[k].content is Merge ==> (#[trigger] text_planned_on(
                parts,
                es,
                texts,
                root,
                markers,
                force,
                instructions,
                j,
                k,
            ) matches Some(x) ==> json_parsed(x) matches Ok(d) && d is Object),
        forall|i: int, k: int|
            #![trigger text_planned_on(parts, es, texts, root, markers, force, instructions, j, k), part_ops(parts[i])]
            0 <= i < parts.len() && 0 <= k < parts.len() && parts[i].content is Merge && parts[k].content is Merge
                && part_at(parts[i], root, instructions) == part_at(parts[k], root, instructions) && (es[i].state
                == State::Current || (i < j && writes(es[i].state, force))) ==> text_planned_on(
                parts,
                es,
                texts,
                root,
                markers,
                force,
                instructions,
                j,
                k,
            ) is Some && entries_ok(
                doc_of(text_planned_on(parts, es, texts, root, markers, force, instructions, j, k)),
                part_ops(parts[i]),
            ),
    decreases j,
{
    if j == 0 {
        let e = Seq::<(Seq<char>, Seq<char>)>::empty();
        assert(parts.take(0) =~= Seq::<Part>::empty());
        assert forall|k: int| 0 <= k < parts.len() implies #[trigger] text_planned_on(parts, es, texts, root, markers, force, instructions, 0, k)
            == part_text(parts[k], texts[k]) by {
            assert(path_index(e, part_at(parts[k], root, instructions), 0) == 0);
        }
        assert forall|i: int, k: int|
            0 <= i < parts.len() && 0 <= k < parts.len() && parts[i].content is Merge && parts[k].content is Merge
                && part_at(parts[i], root, instructions) == part_at(parts[k], root, instructions) && (es[i].state
                == State::Current || (i < 0 && writes(es[i].state, force))) implies text_planned_on(
            parts,
            es,
            texts,
            root,
            markers,
            force,
            instructions,
            0,
            k,
        ) is Some && entries_ok(doc_of(text_planned_on(parts, es, texts, root, markers, force, instructions, 0, k)), part_ops(parts[i])) by {
            assert(part_text(parts[i], texts[i]) == part_text(parts[k], texts[k]));
            assert(es[i].state == State::Current);
        }
    } else {
        let n = j - 1;
        let t = parts.take(j);
        assert(t.drop_last() =~= parts.take(n));
        assert(t[n] == parts[n]);
        lemma_merge_plans(parts, es, texts, root, markers, force, instructions, n);
        let fs = plans_of(parts.take(n), es, texts, root, markers, force)->Ok_0.0;
        let out = plans_of(t, es, texts, root, markers, force)->Ok_0.0;
        let pn = parts[n];
        let at = part_at(pn, root, instructions);
        let wn = written_paths(pn, at);
        assert(joined_to(root, es[n].path) == at);
        let pt = part_text(pn, texts[n]);
        // What the plan of part `n` does at a merge file `q`.
        assert forall|k: int| 0 <= k < parts.len() && parts[k].content is Merge implies {
            let q = part_at(parts[k], root, instructions);
            if pn.content is Merge && writes(es[n].state, force) && q == at {
                #[trigger] text_planned_on(parts, es, texts, root, markers, force, instructions, j, k) == Some(
                    merge_out(text_planned_on(parts, es, texts, root, markers, force, instructions, n, n), part_ops(pn)),
                ) && text_planned_on(parts, es, texts, root, markers, force, instructions, n, k)
                    == text_planned_on(parts, es, texts, root, markers, force, instructions, n, n)
                    && applied_all(doc_of(text_planned_on(parts, es, texts, root, markers, force, instructions, n, n)), part_ops(pn)) is Ok
                    && doc_of(text_planned_on(parts, es, texts, root, markers, force, instructions, n, n)) is Object
            } else {
                text_planned_on(parts, es, texts, root, markers, force, instructions, j, k) == text_planned_on(
                    parts,
                    es,
                    texts,
                    root,
                    markers,
                    force,
                    instructions,
                    n,
                    k,
                )
            }
        } by {
            let q = part_at(parts[k], root, instructions);
            let pk = part_text(parts[k], texts[k]);
            if writes(es[n].state, force) {
                if pn.content is Block {
                    assert(wn[0] == at);
                    assert(written_paths(parts[k], q)[0] == q);
                    assert(q != at);
                    match rendered(existing_of(fs, at, pt), pn.content->Block_0@, markers.0, markers.1) {
                        Some(x) => {
                            assert(out == with_file(fs, at, x));
                            law_plan_replaces(fs, at, x, q);
                        },
                        None => {
                            assert(out == fs);
                        },
                    }
                } else if pn.content is Files {
                    let l = rendered_files(pn.content);
                    assert(out == with_files(fs, at, l));
                    assert(written_paths(parts[k], q)[0] == q);
                    assert forall|a: int, b: int| 0 <= a < b < l.len() implies joined_to(at, #[trigger] l[a].0)
                        != joined_to(at, #[trigger] l[b].0) by {
                        assert(wn[a] == joined_to(at, l[a].0));
                        assert(wn[b] == joined_to(at, l[b].0));
                    }
                    assert forall|c: int| 0 <= c < l.len() implies joined_to(at, #[trigger] l[c].0) != q by {
                        assert(wn[c] == joined_to(at, l[c].0));
                    }
                    lemma_with_files(fs, at, l, q);
                } else {
                    let ops = part_ops(pn);
                    let tn = existing_of(fs, at, pt);
                    assert(tn == text_planned_on(parts, es, texts, root, markers, force, instructions, n, n));
                    match merge_rendered(with_parse(tn), ops, es[n].path) {
                        Ok(Some(x)) => {
                            assert(out == with_file(fs, at, x));
                            if q == at {
                                law_plan_replaces(fs, at, x, at.push('a'));
                            } else {
                                law_plan_replaces(fs, at, x, q);
                            }
                        },
                        _ => {
                            assert(out == fs);
                        },
                    }
                    if q == at {
                        assert(pk == pt);
                        assert(text_planned_on(parts, es, texts, root, markers, force, instructions, n, k) == tn);
                        if tn is Some {
                            assert(json_parsed(tn->Some_0) matches Ok(d) && d is Object);
                        }
                        assert(merge_rendered(with_parse(tn), ops, es[n].path) is Ok);
                    }
                }
            } else {
                assert(out == fs);
            }
        }
        // The invariant at `j`.
        assert forall|k: int| 0 <= k < parts.len() && parts[k].content is Merge implies (#[trigger] text_planned_on(
            parts,
            es,
            texts,
            root,
            markers,
            force,
            instructions,
            j,
            k,
        ) matches Some(x) ==> json_parsed(x) matches Ok(d) && d is Object) by {
            let q = part_at(parts[k], root, instructions);
            if pn.content is Merge && writes(es[n].state, force) && q == at {
                let tn = text_planned_on(parts, es, texts, root, markers, force, instructions, n, n);
                crate::harness::merge::lemma_applied_all_object(doc_of(tn), part_ops(pn));
            }
        }
        assert forall|i: int, k: int|
            0 <= i < parts.len() && 0 <= k < parts.len() && parts[i].content is Merge && parts[k].content is Merge
                && part_at(parts[i], root, instructions) == part_at(parts[k], root, instructions) && (es[i].state
                == State::Current || (i < j && writes(es[i].state, force))) implies #[trigger] text_planned_on(
            parts,
            es,
            texts,
            root,
            markers,
            force,
            instructions,
            j,
            k,
        ) is Some && entries_ok(doc_of(text_planned_on(parts, es, texts, root, markers, force, instructions, j, k)), #[trigger] part_ops(parts[i])) by {
            let q = part_at(parts[k], root, instructions);
            let tj = text_planned_on(parts, es, texts, root, markers, force, instructions, j, k);
            let tp = text_planned_on(parts, es, texts, root, markers, force, instructions, n, k);
            if pn.content is Merge && writes(es[n].state, force) && q == at {
                let tn = text_planned_on(parts, es, texts, root, markers, force, instructions, n, n);
                let d = doc_of(tn);
                let ops = part_ops(pn);
                let a = applied_all(d, ops)->Ok_0;
                assert(merge_kept(pn));
                assert(json_parsed(merge_out(tn, ops)) == Ok::<JsonModel, Seq<char>>(a));
                assert(doc_of(tj) == a);
                if i == n {
                    crate::harness::merge::law_merge_sets_every_entry(d, ops);
                } else {
                    assert(es[i].state == State::Current || (i < n && writes(es[i].state, force)));
                    assert(entries_ok(doc_of(tp), part_ops(parts[i])));
                    assert(tp == tn);
                    let oi = part_ops(parts[i]);
                    assert(merge_kept(parts[i]));
                    assert forall|x: int| 0 <= x < oi.len() implies #[trigger] crate::harness::merge::extracted(a, oi[x])
                        is Some && crate::json::json_eq(crate::harness::merge::extracted(a, oi[x])->Some_0, crate::harness::merge::op_value(oi[x])) by {
                        assert(part_at(parts[i], root, instructions) == part_at(parts[n], root, instructions));
                        assert forall|b: int| 0 <= b < ops.len() implies paths_part(entry_path(oi[x]), entry_path(#[trigger] ops[b])) by {
                            assert(paths_part(entry_path(part_ops(parts[i])[x]), entry_path(part_ops(parts[n])[b])));
                        }
                        crate::harness::merge::lemma_applied_all_keeps(d, ops, oi[x]);
                        assert(crate::harness::merge::extracted(d, oi[x]) is Some);
                    }
                }
            } else {
                assert(tj == tp);
                if i == n {
                    assert(es[i].state == State::Current);
                }
                assert(es[i].state == State::Current || (i < n && writes(es[i].state, force)));
                assert(tp is Some && entries_ok(doc_of(tp), part_ops(parts[i])));
            }
        }
    }
}

/// A region part whose block a round trip keeps: once CRLF is folded the
/// block holds no CR, and none of its lines is the closing marker.
pub open spec fn block_kept(p: Part, close: Seq<char>) -> bool {
    match p.content {
        Content::Block(b) => !crlf_to_lf(b@).contains('\r') && forall|j: int|
            0 <= j < body_lines(b@).len() ==> trim_end(#[trigger] body_lines(b@)[j]) != close,
        _ => false,
    }
}

/// A file text a region round trip keeps: one with a CRLF pair or not
/// ending in CR, and either both markers or no opening marker.
pub open spec fn text_kept(t: Option<Seq<char>>, open: Seq<char>, close: Seq<char>) -> bool {
    match t {
        None => true,
        Some(e) => (crate::harness::region::has_crlf(e) || !crate::harness::region::ends_in_cr(e)) && (find_markers(split_lines(crlf_to_lf(e)), open, close) is Some
            || first_line_from(split_lines(crlf_to_lf(e)), open, 0) is None),
    }
}

/// A `file` part whose texts a round trip keeps: once CRLF is folded none
/// holds a CR.
pub open spec fn files_kept(p: Part) -> bool {
    match p.content {
        Content::Files(fs) => forall|i: int| 0 <= i < fs@.len() ==> !crlf_to_lf(#[trigger] fs@[i].1@).contains('\r'),
        _ => false,
    }
}

/// What an install reads of part `p` in a tree that holds, at each of the
/// part's files, what the plan `fs` left there: the planned text, or what
/// the tree held before, as `first` read it.
pub open spec fn reads_planned(
    p: Part,
    first: Read,
    text: Option<String>,
    again: Read,
    fs: Seq<(Seq<char>, Seq<char>)>,
    at: Seq<char>,
) -> bool {
    match (p.content, first, again) {
        (Content::Block(_), Read::Text(t1), Read::Text(t2)) => t1 == text && crate::harness::write::opt_view_string(t2)
            == existing_of(fs, at, part_text(p, text)),
        (Content::Files(c), Read::Files(t1), Read::Files(t2)) => t1@.len() == c@.len() && t2@.len() == c@.len()
            && forall|a: int|
            0 <= a < c@.len() ==> crate::harness::write::opt_view_string(#[trigger] t2@[a]) == existing_of(
                fs,
                joined_to(at, c@[a].0@),
                crate::harness::write::opt_view_string(t1@[a]),
            ),
        (Content::Merge(_), Read::Json(t1), Read::Json(t2)) => t1 == text && crate::harness::write::opt_view_string(t2)
            == existing_of(fs, at, part_text(p, text)),
        _ => false,
    }
}

/// An install after a forced install is settled: for a profile of region,
/// `file` and `merge` parts, once a forced install has planned its files
/// and they stand in the tree (each file of a part reads as the plan left
/// it, or as it was where the plan left it alone), installing again finds
/// each part current, or skipped where it is declined, and plans no write
/// to any part's file.
///
/// This holds where the parts' files are apart but for `merge` parts that
/// share a file well (`apart`, `merges_share_well`), for single-line
/// markers, for region blocks, file texts, region files and `merge` parts
/// an install keeps (`block_kept`, `files_kept`, `text_kept`,
/// `merge_kept`), and where each file a merge serialises parses back to
/// the document it serialised (`merges_read_back`), which is the JSON
/// parser's part.
#[verifier::rlimit(80)]
pub proof fn law_forced_install_then_settled(
    profile: Profile,
    opts: InstallOptions,
    record: Record,
    stored: Seq<Seq<char>>,
    reads: Seq<Read>,
    on_disk: Seq<bool>,
    texts: Seq<Option<String>>,
    root: Seq<char>,
    markers: (Seq<char>, Seq<char>),
    instructions: Seq<char>,
    record_path: Seq<char>,
    record_on_disk: bool,
    header: Seq<char>,
    again: InstallOptions,
    record2: Record,
    reads2: Seq<Read>,
    on_disk2: Seq<bool>,
    texts2: Seq<Option<String>>,
    record_on_disk2: bool,
)
    requires
        opts.force,
        again.without == opts.without,
        marker_ok(markers.0),
        marker_ok(markers.1),
        forall|k: int|
            0 <= k < profile.parts@.len() ==> block_kept(#[trigger] profile.parts@[k], markers.1) || files_kept(
                profile.parts@[k],
            ) || merge_kept(profile.parts@[k]),
        merges_share_well(profile.parts@, texts, root, instructions),
        merges_read_back(
            profile.parts@,
            exams_of(
                profile.parts@,
                reads,
                on_disk,
                markers,
                instructions,
                record,
                profile.harness@,
                declined_of(opts.without, stored),
            )->Ok_0,
            texts,
            root,
            markers,
            true,
            instructions,
        ),
        apart(profile.parts@, root, instructions),
        forall|k: int|
            0 <= k < profile.parts@.len() ==> text_kept(
                #[trigger] part_text(profile.parts@[k], texts[k]),
                markers.0,
                markers.1,
            ),
        install_of(
            profile,
            opts,
            record,
            Ok(stored),
            reads,
            on_disk,
            texts,
            root,
            markers,
            instructions,
            record_path,
            record_on_disk,
            header,
        ) is Ok,
        forall|k: int|
            0 <= k < profile.parts@.len() ==> reads_planned(
                profile.parts@[k],
                #[trigger] reads[k],
                texts[k],
                reads2[k],
                install_of(
                    profile,
                    opts,
                    record,
                    Ok(stored),
                    reads,
                    on_disk,
                    texts,
                    root,
                    markers,
                    instructions,
                    record_path,
                    record_on_disk,
                    header,
                )->Ok_0.1,
                part_at(profile.parts@[k], root, instructions),
            ),
    ensures
        install_of(
            profile,
            again,
            record2,
            Ok(stored),
            reads2,
            on_disk2,
            texts2,
            root,
            markers,
            instructions,
            record_path,
            record_on_disk2,
            header,
        ) matches Ok((lines, fs, xs, rw)) && (fs.len() == 0 && xs.len() == 0 && lines.len() == profile.parts@.len()
            && forall|k: int|
            0 <= k < profile.parts@.len() ==> (#[trigger] lines[k]).1 == if declined_of(opts.without, stored).contains(profile.parts@[k].name@) {
                "skipped"@
            } else {
                "current"@
            }),
{
    let parts = profile.parts@;
    let harness = profile.harness@;
    let n = parts.len();
    let dc = declined_of(opts.without, stored);
    let es = exams_of(parts, reads, on_disk, markers, instructions, record, harness, dc)->Ok_0;
    assert(exams_of(parts, reads, on_disk, markers, instructions, record, harness, dc) is Ok);
    assert(plans_of(parts, es, texts, root, markers, true) is Ok);
    let fs = plans_of(parts, es, texts, root, markers, true)->Ok_0.0;
    lemma_exams_len(parts, reads, on_disk, markers, instructions, record, harness, dc);
    assert forall|k: int| 0 <= k < n implies (#[trigger] parts[k]).content is Block || parts[k].content is Files
        || parts[k].content is Merge by {
        assert(block_kept(parts[k], markers.1) || files_kept(parts[k]) || merge_kept(parts[k]));
    }
    assert forall|k: int| 0 <= k < n && (#[trigger] parts[k]).content is Merge implies merge_kept(parts[k]) by {
        assert(block_kept(parts[k], markers.1) || files_kept(parts[k]) || merge_kept(parts[k]));
    }
    assert forall|k: int| 0 <= k < n implies (#[trigger] es[k]).path == target_of(parts[k], instructions) by {
        lemma_exams_at(parts, reads, on_disk, markers, instructions, record, harness, dc, k);
        reveal(exam_of);
    }
    assert(parts.take(n as int) =~= parts);
    lemma_part_plans(parts, es, texts, root, markers, true, instructions, n as int);
    assert forall|k: int| 0 <= k < n && parts[k].content is Merge implies (#[trigger] part_text(parts[k], texts[k]) matches Some(
        x,
    ) ==> json_parsed(x) matches Ok(d) && d is Object) by {
        lemma_exams_at(parts, reads, on_disk, markers, instructions, record, harness, dc, k);
        reveal(exam_of);
        assert(reads_planned(parts[k], reads[k], texts[k], reads2[k], fs, part_at(parts[k], root, instructions)));
    }
    assert forall|k: int| 0 <= k < n && parts[k].content is Merge && (#[trigger] es[k]).state == State::Current implies part_text(
        parts[k],
        texts[k],
    ) is Some && entries_ok(doc_of(part_text(parts[k], texts[k])), part_ops(parts[k])) by {
        lemma_exams_at(parts, reads, on_disk, markers, instructions, record, harness, dc, k);
        reveal(exam_of);
        assert(reads_planned(parts[k], reads[k], texts[k], reads2[k], fs, part_at(parts[k], root, instructions)));
        let pt = part_text(parts[k], texts[k]);
        if let Some(x) = pt {
            crate::harness::observe::lemma_entries_current(
                json_parsed(x)->Ok_0,
                part_ops(parts[k]),
                recorded_hash(record, harness, parts[k].name@),
            );
        }
    }
    lemma_merge_plans(parts, es, texts, root, markers, true, instructions, n as int);
    assert forall|k: int| 0 <= k < n implies #[trigger] exam_of(
        parts[k],
        reads2[k],
        on_disk2[k],
        markers,
        instructions,
        record2,
        harness,
        dc,
    ) matches Ok(x) && (x.state == (if dc.contains(parts[k].name@) {
        State::Skipped
    } else {
        State::Current
    })) by {
        lemma_exams_at(parts, reads, on_disk, markers, instructions, record, harness, dc, k);
        reveal(exam_of);
        let p = parts[k];
        let at = part_at(p, root, instructions);
        let wp = written_paths(p, at);
        assert(reads_planned(p, reads[k], texts[k], reads2[k], fs, at));
        let rec2 = recorded_hash(record2, harness, p.name@);
        if p.content is Block {
            let b = p.content->Block_0@;
            let pt = part_text(p, texts[k]);
            assert(block_kept(p, markers.1));
            assert(text_kept(pt, markers.0, markers.1));
            assert(wp[0] == at);
            assert(pending_text(fs, wp[0]) == if writes(es[k].state, true) {
                planned_at(p, 0, pt, markers)
            } else {
                None
            });
            let t2 = existing_of(fs, at, pt);
            if !dc.contains(p.name@) {
                if writes(es[k].state, true) {
                    crate::harness::region::law_written_region_is_current(pt, b, markers.0, markers.1, rec2);
                    assert(t2 == Some(crate::harness::region::after_render(pt, b, markers.0, markers.1)));
                } else {
                    assert(t2 == pt);
                }
            }
        } else if p.content is Merge {
            let ops = part_ops(p);
            assert(merge_kept(p));
            let tk = text_planned_on(parts, es, texts, root, markers, true, instructions, n as int, k);
            assert(tk == existing_of(fs, at, part_text(p, texts[k])));
            assert(tk matches Some(x) ==> json_parsed(x) matches Ok(d) && d is Object);
            if !dc.contains(p.name@) {
                assert(es[k].state == State::Current || writes(es[k].state, true));
                assert(tk is Some && entries_ok(doc_of(tk), part_ops(parts[k])));
                crate::harness::observe::lemma_entries_current(doc_of(tk), ops, rec2);
            }
        } else {
            let c = p.content->Files_0;
            assert(files_kept(p));
            let l = rendered_files(p.content);
            assert(l.len() == c@.len());
            if let Read::Files(t1) = reads[k] {
                if let Read::Files(t2) = reads2[k] {
                    assert forall|a: int| 0 <= a < c@.len() implies #[trigger] crate::harness::write::opt_view_string(t2@[a])
                        == if writes(es[k].state, true) {
                        Some(l[a].1)
                    } else {
                        crate::harness::write::opt_view_string(t1@[a])
                    } by {
                        assert(wp[a] == joined_to(at, c@[a].0@));
                        assert(pending_text(fs, wp[a]) == if writes(es[k].state, true) {
                            planned_at(p, a, part_text(p, texts[k]), markers)
                        } else {
                            None
                        });
                    }
                    if !dc.contains(p.name@) {
                        if writes(es[k].state, true) {
                            assert(first_absent_none(t2@, 0)) by {
                                lemma_first_absent_none(t2@, 0);
                            }
                            let found = Seq::new(c@.len(), |i: int| (c@[i].0@, t2@[i]->Some_0@));
                            let fv = crate::harness::state::files_view(c@);
                            assert(found =~= fv.map_values(|f: (Seq<char>, Seq<char>)| (f.0, crlf_to_lf(f.1))));
                            assert forall|i: int| 0 <= i < fv.len() implies !crlf_to_lf(#[trigger] fv[i].1).contains('\r') by {
                                assert(fv[i].1 == c@[i].1@);
                            }
                            crate::harness::part::law_written_files_are_current(fv, rec2);
                        } else {
                            assert forall|a: int| 0 <= a < c@.len() implies #[trigger] t2@[a] is Some == t1@[a] is Some
                                && (t2@[a] is Some ==> t2@[a]->Some_0@ == t1@[a]->Some_0@) by {
                                assert(crate::harness::write::opt_view_string(t2@[a]) == crate::harness::write::opt_view_string(t1@[a]));
                            }
                            lemma_first_absent_same(t1@, t2@, 0);
                            let f1 = Seq::new(c@.len(), |i: int| (c@[i].0@, t1@[i]->Some_0@));
                            let f2 = Seq::new(c@.len(), |i: int| (c@[i].0@, t2@[i]->Some_0@));
                            if crate::harness::observe::first_absent(t1@, 0) is None {
                                assert forall|i: int| 0 <= i < c@.len() implies t1@[i] is Some by {
                                    lemma_first_absent_some(t1@, 0, i);
                                }
                                assert(f1 =~= f2);
                            }
                        }
                    }
                }
            }
        }
    }
    lemma_exams_settled(parts, reads2, on_disk2, markers, instructions, record2, harness, dc);
    let es2 = exams_of(parts, reads2, on_disk2, markers, instructions, record2, harness, dc)->Ok_0;
    lemma_exams_len(parts, reads2, on_disk2, markers, instructions, record2, harness, dc);
    assert forall|k: int| 0 <= k < n implies {
        let s = (#[trigger] exams_of(parts, reads2, on_disk2, markers, instructions, record2, harness, dc)->Ok_0[k]).state;
        s == State::Current || s == State::Skipped
    } by {
        assert(exam_of(parts[k], reads2[k], on_disk2[k], markers, instructions, record2, harness, dc) is Ok);
    }
    law_settled_install_plans_no_part_write(
        profile,
        again,
        record2,
        stored,
        reads2,
        on_disk2,
        texts2,
        root,
        markers,
        instructions,
        record_path,
        record_on_disk2,
        header,
    );
    assert forall|k: int| 0 <= k < n implies #[trigger] es2[k].state == if dc.contains(parts[k].name@) {
        State::Skipped
    } else {
        State::Current
    } by {
        assert(exam_of(parts[k], reads2[k], on_disk2[k], markers, instructions, record2, harness, dc) is Ok);
    }
}

/// Every read text present from `k` on: no first absent one.
spec fn first_absent_none(ts: Seq<Option<String>>, k: int) -> bool {
    (forall|i: int| k <= i < ts.len() ==> (#[trigger] ts[i]) is Some) ==> crate::harness::observe::first_absent(ts, k) is None
}

proof fn lemma_first_absent_none(ts: Seq<Option<String>>, k: int)
    requires
        0 <= k,
    ensures
        first_absent_none(ts, k),
    decreases ts.len() - k,
{
    if k < ts.len() {
        lemma_first_absent_none(ts, k + 1);
    }
}

/// Two lists of reads present at the same places have the same first
/// absent one.
proof fn lemma_first_absent_same(a: Seq<Option<String>>, b: Seq<Option<String>>, k: int)
    requires
        0 <= k,
        a.len() == b.len(),
        forall|i: int| 0 <= i < a.len() ==> (#[trigger] b[i] is Some) == a[i] is Some,
    ensures
        crate::harness::observe::first_absent(a, k) == crate::harness::observe::first_absent(b, k),
    decreases a.len() - k,
{
    if k < a.len() {
        assert(b[k] is Some == a[k] is Some);
        lemma_first_absent_same(a, b, k + 1);
    }
}

/// With no first absent read from `k` on, each read from `k` on is there.
proof fn lemma_first_absent_some(ts: Seq<Option<String>>, k: int, i: int)
    requires
        0 <= k <= i < ts.len(),
        crate::harness::observe::first_absent(ts, k) is None,
    ensures
        ts[i] is Some,
    decreases i - k,
{
    if k < i {
        lemma_first_absent_some(ts, k + 1, i);
    }
}

/// The hash the record keeps for a part, as an exam reads it.
spec fn record_hash_of(record: Record, harness: Seq<char>, name: Seq<char>) -> Option<Seq<char>> {
    recorded_hash(record, harness, name)
}

/// A copy of a table of hashes.
fn copy_hashes(v: &Vec<(String, String)>) -> (out: Vec<(String, String)>)
    ensures
        out@.len() == v@.len(),
        forall|i: int| 0 <= i < v@.len() ==> #[trigger] out@[i].0@ == v@[i].0@ && out@[i].1@ == v@[i].1@,
{
    let mut out: Vec<(String, String)> = Vec::new();
    let mut i: usize = 0;
    while i < v.len()
        invariant
            i <= v@.len(),
            out@.len() == i,
            forall|j: int| 0 <= j < i ==> #[trigger] out@[j].0@ == v@[j].0@ && out@[j].1@ == v@[j].1@,
        decreases v@.len() - i,
    {
        out.push((copy_string(&v[i].0), copy_string(&v[i].1)));
        i = i + 1;
    }
    out
}

/// A copy of a list of names.
fn copy_names(v: &Vec<String>) -> (out: Vec<String>)
    ensures
        names_view(out@) == names_view(v@),
{
    let mut out: Vec<String> = Vec::new();
    let mut i: usize = 0;
    while i < v.len()
        invariant
            i <= v@.len(),
            out@.len() == i,
            forall|j: int| 0 <= j < i ==> #[trigger] out@[j]@ == v@[j]@,
        decreases v@.len() - i,
    {
        out.push(copy_string(&v[i]));
        i = i + 1;
    }
    assert(names_view(out@) =~= names_view(v@));
    out
}

/// The plain outcome of reading the declined store.
pub open spec fn stored_view(s: Result<Vec<String>, Error>) -> Result<Seq<Seq<char>>, ErrorView> {
    match s {
        Ok(v) => Ok(names_view(v@)),
        Err(e) => Err(e@),
    }
}

/// One part examined from what was read for it; `table` is the record's
/// table of the harness.
fn examine_one(
    part: &Part,
    read: Read,
    on_disk: bool,
    markers: &Markers,
    instructions: &str,
    record: &Record,
    harness: &str,
    table: Option<&Vec<(String, String)>>,
    declined: &Vec<String>,
) -> (r: Result<Examined, Error>)
    requires
        match table {
            Some(t) => get_key(record.harnesses@, harness@) == Some(*t),
            None => get_key(record.harnesses@, harness@) is None,
        },
    ensures
        match exam_of(*part, read, on_disk, (markers.open@, markers.close@), instructions@, *record, harness@, names_view(declined@)) {
            Err(e) => r matches Err(x) && x@ == e,
            Ok(x) => r matches Ok(v) && exam_view(v) == x,
        },
{
    reveal(exam_of);
    let path = target_path(part, instructions);
    let observed = match observe(part, read, markers, path.as_str()) {
        Ok(o) => o,
        Err(e) => {
            return Err(e);
        },
    };
    let hash: Option<&str> = match table {
        Some(tb) => match get_entry(tb, part.name.as_str()) {
            Some(h) => Some(h.as_str()),
            None => None,
        },
        None => None,
    };
    Ok(examine_part(part, path.as_str(), &observed, hash, declined, on_disk))
}

/// Every part examined in profile order from what was read for it; the
/// first refusal.
fn examine_all(
    profile: &Profile,
    reads: Vec<Read>,
    on_disk: &Vec<bool>,
    markers: &Markers,
    instructions: &str,
    record: &Record,
    declined: &Vec<String>,
) -> (r: Result<Vec<Examined>, Error>)
    requires
        reads@.len() == profile.parts@.len(),
        on_disk@.len() == profile.parts@.len(),
    ensures
        match exams_of(
            profile.parts@,
            reads@,
            on_disk@,
            (markers.open@, markers.close@),
            instructions@,
            *record,
            profile.harness@,
            names_view(declined@),
        ) {
            Err(e) => r matches Err(x) && x@ == e,
            Ok(es) => r matches Ok(v) && v@.map_values(|e: Examined| exam_view(e)) == es,
        },
        r matches Ok(v) ==> v@.len() == profile.parts@.len(),
{
    let ghost mk = (markers.open@, markers.close@);
    let ghost harness = profile.harness@;
    let ghost rs = reads@;
    let ghost dv = names_view(declined@);
    let table = recorded_parts(record, profile.harness.as_str());
    let n = profile.parts.len();
    let mut rest = reads;
    let mut examined: Vec<Examined> = Vec::new();
    let mut i: usize = 0;
    assert(profile.parts@.take(0) =~= Seq::<Part>::empty());
    assert(examined@.map_values(|e: Examined| exam_view(e)) =~= Seq::<ExamView>::empty());
    assert(rest@ =~= rs.skip(0));
    while i < n
        invariant
            i <= n,
            n == profile.parts@.len(),
            rs.len() == n,
            rs == reads@,
            on_disk@.len() == n,
            rest@ == rs.skip(i as int),
            mk == (markers.open@, markers.close@),
            harness == profile.harness@,
            dv == names_view(declined@),
            examined@.len() == i,
            match table {
                Some(t) => get_key(record.harnesses@, harness) == Some(*t),
                None => get_key(record.harnesses@, harness) is None,
            },
            exams_of(profile.parts@.take(i as int), rs, on_disk@, mk, instructions@, *record, harness, dv)
                == Ok::<Seq<ExamView>, ErrorView>(examined@.map_values(|e: Examined| exam_view(e))),
        decreases n - i,
    {
        let ghost before = rest@;
        assert(before[0] == rs[i as int]);
        let read = rest.remove(0);
        assert(read == rs[i as int]);
        assert(rest@ =~= rs.skip(i + 1));
        let part = &profile.parts[i];
        let ghost t = profile.parts@.take(i + 1);
        assert(t.drop_last() =~= profile.parts@.take(i as int));
        assert(t[i as int] == *part);
        let e = match examine_one(part, read, on_disk[i], markers, instructions, record, profile.harness.as_str(), table, declined) {
            Ok(x) => x,
            Err(err) => {
                proof {
                    assert(exams_of(t, rs, on_disk@, mk, instructions@, *record, harness, dv) == Err::<Seq<ExamView>, ErrorView>(
                        err@,
                    ));
                    lemma_exams_prefix(profile.parts@, rs, on_disk@, mk, instructions@, *record, harness, dv, i + 1);
                    assert(exams_of(profile.parts@, rs, on_disk@, mk, instructions@, *record, harness, dv)
                        == Err::<Seq<ExamView>, ErrorView>(err@));
                }
                return Err(err);
            },
        };
        let ghost prev = examined@;
        examined.push(e);
        assert(examined@.map_values(|e: Examined| exam_view(e)) =~= prev.map_values(|e: Examined| exam_view(e)).push(
            exam_view(e),
        ));
        i = i + 1;
    }
    assert(profile.parts@.take(n as int) =~= profile.parts@);
    Ok(examined)
}

/// The writes of the parts an install writes, planned in profile order;
/// the first refusal.
fn plan_all(
    profile: &Profile,
    examined: &Vec<Examined>,
    written: &Vec<bool>,
    texts: &Vec<Option<String>>,
    root: &str,
    markers: &Markers,
    force: bool,
) -> (r: Result<Plan, Error>)
    requires
        examined@.len() == profile.parts@.len(),
        written@.len() == profile.parts@.len(),
        texts@.len() == profile.parts@.len(),
        forall|k: int| 0 <= k < written@.len() ==> #[trigger] written@[k] == writes(examined@[k].state, force),
    ensures
        match plans_of(
            profile.parts@,
            examined@.map_values(|e: Examined| exam_view(e)),
            texts@,
            root@,
            (markers.open@, markers.close@),
            force,
        ) {
            Err(e) => r matches Err(x) && x@ == e,
            Ok((fs, xs)) => r matches Ok(plan) && planned(plan.files@) == fs && strings_of(plan.externals@) == xs
                && plan.record is None,
        },
{
    let ghost mk = (markers.open@, markers.close@);
    let ghost es = examined@.map_values(|e: Examined| exam_view(e));
    let n = profile.parts.len();
    let mut plan = Plan::new();
    let mut j: usize = 0;
    assert(profile.parts@.take(0) =~= Seq::<Part>::empty());
    assert(planned(plan.files@) =~= Seq::<(Seq<char>, Seq<char>)>::empty());
    assert(strings_of(plan.externals@) =~= Seq::<Seq<char>>::empty());
    while j < n
        invariant
            j <= n,
            n == profile.parts@.len(),
            n == examined@.len(),
            n == written@.len(),
            texts@.len() == n,
            es == examined@.map_values(|e: Examined| exam_view(e)),
            forall|k: int| 0 <= k < n ==> #[trigger] written@[k] == writes(examined@[k].state, force),
            mk == (markers.open@, markers.close@),
            plan.record is None,
            plans_of(profile.parts@.take(j as int), es, texts@, root@, mk, force)
                == Ok::<(Seq<(Seq<char>, Seq<char>)>, Seq<Seq<char>>), ErrorView>(
                (planned(plan.files@), strings_of(plan.externals@)),
            ),
        decreases n - j,
    {
        let ghost t = profile.parts@.take(j + 1);
        assert(t.drop_last() =~= profile.parts@.take(j as int));
        let part = &profile.parts[j];
        assert(t[j as int] == *part);
        assert(es[j as int] == exam_view(examined@[j as int]));
        if written[j] {
            let at = join(root, examined[j].path.as_str());
            let text: Option<String> = match &part.content {
                Content::Block(_) | Content::Merge(_) => match &texts[j] {
                    Some(x) => Some(copy_string(x)),
                    None => None,
                },
                _ => None,
            };
            assert(crate::harness::write::opt_view_string(text) == part_text(*part, texts@[j as int]));
            let existing = existing_text(&plan, at.as_str(), text);
            match plan_part(&mut plan, part, at.as_str(), existing, markers, examined[j].path.as_str()) {
                Ok(()) => {},
                Err(e) => {
                    proof {
                        lemma_plans_prefix(profile.parts@, es, texts@, root@, mk, force, j + 1);
                    }
                    return Err(e);
                },
            }
        }
        j = j + 1;
    }
    assert(profile.parts@.take(n as int) =~= profile.parts@);
    Ok(plan)
}

/// Decides a whole install before anything is written: `stored` is the
/// outcome of reading the declined parts, and for each part of the profile,
/// in order, `reads` holds what was read for it, `on_disk` whether its
/// path exists, and `texts` its file's text. The first refusal (an unknown
/// part in `--without`, the declined store, a file that does not observe,
/// a write that cannot be planned) comes back alone, with nothing planned;
/// otherwise the complete plan, the parts' files under `root`, then the
/// external parts, then the record at `record_path` with `header`, and the
/// report, one line per part.
pub fn install_plan(
    profile: &Profile,
    opts: &InstallOptions,
    record: &Record,
    stored: Result<Vec<String>, Error>,
    reads: Vec<Read>,
    on_disk: &Vec<bool>,
    texts: &Vec<Option<String>>,
    root: &str,
    markers: &Markers,
    instructions: &str,
    record_path: &str,
    record_on_disk: bool,
    header: &str,
) -> (r: Result<(Plan, HarnessResult), Error>)
    requires
        reads@.len() == profile.parts@.len(),
        on_disk@.len() == profile.parts@.len(),
        texts@.len() == profile.parts@.len(),
        record.wf(),
    ensures
        match install_of(
            *profile,
            *opts,
            *record,
            stored_view(stored),
            reads@,
            on_disk@,
            texts@,
            root@,
            (markers.open@, markers.close@),
            instructions@,
            record_path@,
            record_on_disk,
            header@,
        ) {
            Err(e) => r matches Err(x) && x@ == e,
            Ok((lines, fs, xs, rw)) => r matches Ok((plan, res)) && res.parts@.map_values(|p: PartResult| line_view(p))
                == lines && planned(plan.files@) == fs && strings_of(plan.externals@) == xs
                && crate::harness::write::record_write(plan.record) == rw && res.harness@ == profile.harness@
                && res.scope == opts.scope && res.root@ == root@,
        },
{
    match check_without(profile, &opts.without) {
        Ok(()) => {},
        Err(e) => {
            return Err(e);
        },
    }
    let stored = match stored {
        Ok(v) => v,
        Err(e) => {
            return Err(e);
        },
    };
    let declined: Vec<String> = match &opts.without {
        Some(w) => copy_names(w),
        None => stored,
    };
    let examined = match examine_all(profile, reads, on_disk, markers, instructions, record, &declined) {
        Ok(v) => v,
        Err(e) => {
            return Err(e);
        },
    };
    let ghost es = examined@.map_values(|e: Examined| exam_view(e));
    let table = recorded_parts(record, profile.harness.as_str());
    let mut recorded: Vec<(String, String)> = match table {
        Some(tb) => copy_hashes(tb),
        None => Vec::new(),
    };
    let ghost start = hashes_view(recorded@);
    proof {
        match table {
            Some(tb) => {
                let k = crate::harness::record::key_pos(record.harnesses@, profile.harness@, 0);
                assert(record.harnesses@[k].1 == *tb);
                assert(crate::harness::record::keys_sorted(tb@));
                assert(hashes_view(recorded@) =~= hashes_view(tb@));
            },
            None => {
                assert(hashes_view(recorded@) =~= Seq::<(Seq<char>, Seq<char>)>::empty());
            },
        }
    }
    let (lines, written) = install_parts(&examined, &mut recorded, opts.force);
    proof {
        lemma_hashes_after(start, examined@, opts.force);
    }
    let mut plan = match plan_all(profile, &examined, &written, texts, root, markers, opts.force) {
        Ok(p) => p,
        Err(e) => {
            return Err(e);
        },
    };
    plan_record(&mut plan, record, profile.harness.as_str(), recorded, record_on_disk, record_path, header);
    proof {
        assert(lines@.map_values(|p: PartResult| line_view(p)) =~= es.map_values(
            |e: ExamView| (e.name, verb_of(e.state, e.existed, e.is_files, opts.force), e.path),
        ));
    }
    Ok((plan, HarnessResult { harness: copy_string(&profile.harness), scope: opts.scope, root: root.to_string(), parts: lines }))
}

/// A status report decided from what was read: `stored` is the outcome of
/// reading the declined parts and, for each part of the profile in order,
/// `reads` holds what was read for it and `on_disk` whether its path
/// exists. It plans no write at all: its only outcome is the report, each
/// part with the state it is in, or the first refusal.
pub fn status_report(
    profile: &Profile,
    scope: crate::harness::tool::Scope,
    record: &Record,
    stored: Result<Vec<String>, Error>,
    reads: Vec<Read>,
    on_disk: &Vec<bool>,
    root: &str,
    markers: &Markers,
    instructions: &str,
) -> (r: Result<HarnessResult, Error>)
    requires
        reads@.len() == profile.parts@.len(),
        on_disk@.len() == profile.parts@.len(),
    ensures
        match stored_view(stored) {
            Err(e) => r matches Err(x) && x@ == e,
            Ok(s) => match exams_of(
                profile.parts@,
                reads@,
                on_disk@,
                (markers.open@, markers.close@),
                instructions@,
                *record,
                profile.harness@,
                s,
            ) {
                Err(e) => r matches Err(x) && x@ == e,
                Ok(es) => r matches Ok(res) && res.parts@.map_values(|p: PartResult| line_view(p)) == es.map_values(
                    |e: ExamView| (e.name, crate::harness::state::state_name(e.state), e.path),
                ) && res.harness@ == profile.harness@ && res.scope == scope && res.root@ == root@,
            },
        },
{
    let declined = match stored {
        Ok(v) => v,
        Err(e) => {
            return Err(e);
        },
    };
    let examined = match examine_all(profile, reads, on_disk, markers, instructions, record, &declined) {
        Ok(v) => v,
        Err(e) => {
            return Err(e);
        },
    };
    let lines = crate::harness::install::status_parts(&examined);
    let ghost es = examined@.map_values(|e: Examined| exam_view(e));
    assert(lines@.map_values(|p: PartResult| line_view(p)) =~= es.map_values(
        |e: ExamView| (e.name, crate::harness::state::state_name(e.state), e.path),
    ));
    Ok(HarnessResult { harness: copy_string(&profile.harness), scope, root: root.to_string(), parts: lines })
}

} // verus!
