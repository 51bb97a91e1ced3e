//! The decisions of an install and of a status report: what each part's
//! state asks to be written, the verb the report shows, the record's new
//! hashes, and the report's text.

use vstd::prelude::*;

use crate::error::{Error, ErrorView};
use crate::harness::declined::names_view;
use crate::harness::part::{expected, expected_view, part_index, Content, Part, Profile};
use crate::harness::record::{record_text, record_view, render_record, same_record, Record, drop_entry, drop_key, drop_name, hashes_view, keys_sorted, lemma_drop_key, lemma_drop_view, lemma_hashes_entries, lemma_put_key, lemma_put_view, put_entry, put_key, put_name};
use crate::harness::region::opt_view;
use crate::harness::state::{content_hash, hash, observed_view, state, state_name, Observed, State};
use crate::harness::tool::Scope;
use crate::harness::write::{planned, strings_of, Plan};
use crate::json::copy_string;
use crate::text::{append_str, chars_of, starts_with, string_of};

verus! {

/// The options of an install.
#[derive(Debug)]
pub struct InstallOptions {
    /// The harness (profile) name.
    pub harness: String,
    /// `--scope`.
    pub scope: Scope,
    /// `--without`, when given at all: replaces the declined parts.
    pub without: Option<Vec<String>>,
    /// `--force`: write a part whose state is `edited`.
    pub force: bool,
}

impl Default for InstallOptions {
    fn default() -> (o: Self)
        ensures
            o.harness@.len() == 0,
            o.scope == Scope::Project,
            o.without is None,
            !o.force,
    {
        InstallOptions { harness: String::new(), scope: Scope::Project, without: None, force: false }
    }
}

/// One line of the report.
#[derive(Debug)]
pub struct PartResult {
    /// The part's name.
    pub part: String,
    /// The verb of an install (`created`, `rewrote`, `updated`, `current`,
    /// `edited`, `skipped`) or the state of a status report.
    pub state: String,
    /// The part's path relative to the root, `/`-separated; an external
    /// part's location.
    pub path: String,
}

/// The outcome of an install or a status report.
#[derive(Debug)]
pub struct HarnessResult {
    /// The harness name.
    pub harness: String,
    /// The scope.
    pub scope: Scope,
    /// The root directory the paths are relative to.
    pub root: String,
    /// One entry per part, in profile order.
    pub parts: Vec<PartResult>,
}

/// `s` padded with spaces to `w` characters.
pub open spec fn padded(s: Seq<char>, w: nat) -> Seq<char> {
    if s.len() >= w {
        s
    } else {
        s + Seq::new((w - s.len()) as nat, |i: int| ' ')
    }
}

/// A report line: `<verb> <path> (<part>)`, the verb padded to seven
/// columns.
pub open spec fn result_line(p: PartResult) -> Seq<char> {
    padded(p.state@, 7) + " "@ + p.path@ + " ("@ + p.part@ + ")\n"@
}

/// The report lines of `ps`, in order.
pub open spec fn results_text(ps: Seq<PartResult>) -> Seq<char>
    decreases ps.len(),
{
    if ps.len() == 0 {
        Seq::empty()
    } else {
        results_text(ps.drop_last()) + result_line(ps.last())
    }
}

impl HarnessResult {
    /// The text report: one line per part, `<verb> <path> (<part>)`, the
    /// verb padded to seven columns.
    pub fn to_text(&self) -> (s: String)
        ensures
            s@ == results_text(self.parts@),
    {
        let mut out: Vec<char> = Vec::new();
        let mut i: usize = 0;
        proof {
            reveal_strlit(" ");
            reveal_strlit(" (");
            reveal_strlit(")\n");
        }
        assert(self.parts@.take(0) =~= Seq::<PartResult>::empty());
        while i < self.parts.len()
            invariant
                i <= self.parts@.len(),
                out@ == results_text(self.parts@.take(i as int)),
            decreases self.parts@.len() - i,
        {
            let ghost t = self.parts@.take(i + 1);
            assert(t.drop_last() =~= self.parts@.take(i as int));
            let p = &self.parts[i];
            let ghost before = out@;
            append_str(&mut out, p.state.as_str());
            let n = chars_of(p.state.as_str()).len();
            let mut k = n;
            while k < 7
                invariant
                    n <= k <= 7 || (n >= 7 && k == n),
                    n == p.state@.len(),
                    out@ == before + p.state@ + Seq::new((k - n) as nat, |j: int| ' '),
                decreases 7 - k,
            {
                out.push(' ');
                k = k + 1;
                assert(out@ =~= before + p.state@ + Seq::new((k - n) as nat, |j: int| ' '));
            }
            assert(before + p.state@ + Seq::new((k - n) as nat, |j: int| ' ') =~= before + padded(p.state@, 7));
            append_str(&mut out, " ");
            append_str(&mut out, p.path.as_str());
            append_str(&mut out, " (");
            append_str(&mut out, p.part.as_str());
            append_str(&mut out, ")\n");
            assert(out@ =~= before + result_line(*p));
            i = i + 1;
        }
        assert(self.parts@.take(self.parts@.len() as int) =~= self.parts@);
        string_of(&out)
    }
}

/// Whether `path` lies under `root`, component by component.
pub open spec fn lies_under(root: Seq<char>, path: Seq<char>) -> bool {
    &&& root.len() > 0
    &&& root.is_prefix_of(path)
    &&& (path.len() == root.len() || root.last() == '/' || path[root.len() as int] == '/')
}

/// `path` relative to `root` when it lies under it, else `path`; with `/`
/// for every `\`.
pub open spec fn shown_path(root: Seq<char>, path: Seq<char>) -> Seq<char> {
    let rest = if !lies_under(root, path) {
        path
    } else if path.len() == root.len() {
        Seq::empty()
    } else if root.last() == '/' {
        path.skip(root.len() as int)
    } else {
        path.skip(root.len() as int + 1)
    };
    rest.map_values(|c: char| if c == '\\' { '/' } else { c })
}

/// `path` relative to `root` when it lies under it, `/`-separated.
pub fn display(root: &str, path: &str) -> (s: String)
    ensures
        s@ == shown_path(root@, path@),
{
    let r = chars_of(root);
    let p = chars_of(path);
    let mut under = r.len() > 0 && starts_with(path, root);
    if under {
        under = p.len() == r.len() || r[r.len() - 1] == '/' || p[r.len()] == '/';
    }
    assert(under == lies_under(root@, path@));
    let start: usize = if !under {
        0
    } else if p.len() == r.len() {
        p.len()
    } else if r[r.len() - 1] == '/' {
        r.len()
    } else {
        r.len() + 1
    };
    let mut out: Vec<char> = Vec::new();
    let mut k = start;
    let ghost rest = p@.skip(start as int);
    while k < p.len()
        invariant
            start <= k <= p@.len(),
            rest == p@.skip(start as int),
            out@ == rest.take(k - start).map_values(|c: char| if c == '\\' { '/' } else { c }),
        decreases p@.len() - k,
    {
        let c = p[k];
        out.push(if c == '\\' { '/' } else { c });
        k = k + 1;
        assert(out@ =~= rest.take(k - start).map_values(|c: char| if c == '\\' { '/' } else { c }));
    }
    assert(rest.take(p@.len() - start) =~= rest);
    proof {
        if under && p@.len() == r@.len() {
            assert(rest =~= Seq::<char>::empty());
        }
        if !under {
            assert(rest =~= p@);
        }
    }
    string_of(&out)
}

/// A part's state and what the tree held, examined before any write; and
/// the hash of the tool's content for it.
#[derive(Debug)]
pub struct Examined {
    /// The part's name.
    pub name: String,
    /// The part's path relative to the root; an external part's location.
    pub path: String,
    /// The part's state.
    pub state: State,
    /// Whether the part's file was there, or its content was found.
    pub existed: bool,
    /// Whether the part is of the `file` kind.
    pub is_files: bool,
    /// The hash of the tool's content for the part.
    pub hash: String,
}

/// Whether `names` holds `name`.
fn contains_name(names: &Vec<String>, name: &str) -> (r: bool)
    ensures
        r == names_view(names@).contains(name@),
{
    let mut i: usize = 0;
    while i < names.len()
        invariant
            i <= names@.len(),
            forall|j: int| 0 <= j < i ==> names_view(names@)[j] != name@,
        decreases names@.len() - i,
    {
        if crate::text::str_eq(names[i].as_str(), name) {
            assert(names_view(names@)[i as int] == name@);
            return true;
        }
        i = i + 1;
    }
    false
}

/// Examines a part before any write: its state from what the tree holds
/// (`observed`), the tool's content, the hash the record keeps for it and
/// the declined parts; whether it was there (found, or its file exists,
/// `on_disk`, for a part that is not external); and the hash of the tool's
/// content.
pub fn examine_part(part: &Part, path: &str, observed: &Observed, recorded: Option<&str>, declined: &Vec<String>, on_disk: bool) -> (e: Examined)
    ensures
        e.name@ == part.name@,
        e.path@ == path@,
        e.state == crate::harness::state::state_of(
            observed_view(*observed),
            expected_view(part.content),
            opt_view(recorded),
            names_view(declined@).contains(part.name@),
        ),
        e.existed == (observed is Present || (!(part.content is External) && on_disk)),
        e.is_files == part.content is Files,
        e.hash@ == content_hash(expected_view(part.content)),
{
    let want = expected(part);
    let st = state(observed, &want, recorded, contains_name(declined, part.name.as_str()));
    let present = match observed {
        Observed::Present(_) => true,
        Observed::Absent => false,
    };
    let external = match &part.content {
        Content::External(_) => true,
        _ => false,
    };
    let is_files = match &part.content {
        Content::Files(_) => true,
        _ => false,
    };
    Examined {
        name: copy_string(&part.name),
        path: path.to_string(),
        state: st,
        existed: present || (!external && on_disk),
        is_files,
        hash: hash(&want),
    }
}

/// Whether an install writes a part in `state`: an absent or stale part
/// always, an edited one only when forced.
pub open spec fn writes(state: State, force: bool) -> bool {
    match state {
        State::Skipped | State::Current => false,
        State::Absent | State::Stale => true,
        State::Edited => force,
    }
}

/// The verb an install reports for a part.
pub open spec fn verb_of(state: State, existed: bool, is_files: bool, force: bool) -> Seq<char> {
    match state {
        State::Skipped => "skipped"@,
        State::Current => "current"@,
        _ => if state == State::Edited && !force {
            "edited"@
        } else if !existed {
            "created"@
        } else if is_files {
            "rewrote"@
        } else {
            "updated"@
        },
    }
}

/// Whether an install writes a part, and the verb it reports for it.
pub fn decide(state: State, existed: bool, is_files: bool, force: bool) -> (r: (bool, &'static str))
    ensures
        r.0 == writes(state, force),
        r.1@ == verb_of(state, existed, is_files, force),
{
    proof {
        reveal_strlit("skipped");
        reveal_strlit("current");
        reveal_strlit("edited");
        reveal_strlit("created");
        reveal_strlit("rewrote");
        reveal_strlit("updated");
    }
    let written = match state {
        State::Skipped | State::Current => false,
        State::Absent | State::Stale => true,
        State::Edited => force,
    };
    let verb = match state {
        State::Skipped => "skipped",
        State::Current => "current",
        _ => if state == State::Edited && !force {
            "edited"
        } else if !existed {
            "created"
        } else if is_files {
            "rewrote"
        } else {
            "updated"
        },
    };
    (written, verb)
}

/// The record's hashes after an install passed one part: a skipped part
/// is forgotten, an edited part left alone keeps its old hash, and any
/// other part records the hash of the tool's content.
pub open spec fn recorded_after(rec: Seq<(Seq<char>, Seq<char>)>, e: Examined, force: bool) -> Seq<(Seq<char>, Seq<char>)> {
    match e.state {
        State::Skipped => drop_name(rec, e.name@),
        _ => if e.state == State::Edited && !force {
            rec
        } else {
            put_name(rec, (e.name@, e.hash@))
        },
    }
}

/// The record's hashes after an install passed the parts `examined` in
/// order.
pub open spec fn recorded_after_all(rec: Seq<(Seq<char>, Seq<char>)>, examined: Seq<Examined>, force: bool) -> Seq<(Seq<char>, Seq<char>)>
    decreases examined.len(),
{
    if examined.len() == 0 {
        rec
    } else {
        recorded_after(recorded_after_all(rec, examined.drop_last(), force), examined.last(), force)
    }
}

/// The report line of an install for a part.
pub open spec fn install_line(e: Examined, force: bool) -> (Seq<char>, Seq<char>, Seq<char>) {
    (e.name@, verb_of(e.state, e.existed, e.is_files, force), e.path@)
}

/// The plain value of a report line.
pub open spec fn line_view(p: PartResult) -> (Seq<char>, Seq<char>, Seq<char>) {
    (p.part@, p.state@, p.path@)
}

/// Decides an install, part by part in profile order: the report lines,
/// which parts are written, and the record's hashes of the harness updated
/// in place.
pub fn install_parts(examined: &Vec<Examined>, recorded: &mut Vec<(String, String)>, force: bool) -> (r: (Vec<PartResult>, Vec<bool>))
    requires
        keys_sorted(old(recorded)@),
    ensures
        r.0@.len() == examined@.len(),
        r.1@.len() == examined@.len(),
        forall|i: int| 0 <= i < examined@.len() ==> line_view(#[trigger] r.0@[i]) == install_line(examined@[i], force),
        forall|i: int| 0 <= i < examined@.len() ==> #[trigger] r.1@[i] == writes(examined@[i].state, force),
        keys_sorted(final(recorded)@),
        hashes_view(final(recorded)@) == recorded_after_all(hashes_view(old(recorded)@), examined@, force),
{
    let mut lines: Vec<PartResult> = Vec::new();
    let mut written: Vec<bool> = Vec::new();
    let mut i: usize = 0;
    while i < examined.len()
        invariant
            i <= examined@.len(),
            lines@.len() == i,
            written@.len() == i,
            keys_sorted(recorded@),
            forall|j: int| 0 <= j < i ==> line_view(#[trigger] lines@[j]) == install_line(examined@[j], force),
            forall|j: int| 0 <= j < i ==> #[trigger] written@[j] == writes(examined@[j].state, force),
            hashes_view(recorded@) == recorded_after_all(hashes_view(old(recorded)@), examined@.take(i as int), force),
        decreases examined@.len() - i,
    {
        let e = &examined[i];
        let ghost before = recorded@;
        assert(examined@.take(i + 1).drop_last() =~= examined@.take(i as int));
        proof {
            lemma_hashes_entries(before);
        }
        let (w, verb) = decide(e.state, e.existed, e.is_files, force);
        match e.state {
            State::Skipped => {
                proof {
                    lemma_drop_key(recorded@, e.name@);
                    lemma_drop_view(recorded@, e.name@, |v: String| v@);
                    lemma_hashes_entries(drop_key(recorded@, e.name@));
                }
                drop_entry(recorded, e.name.as_str());
            },
            _ => {
                if !(e.state == State::Edited && !force) {
                    let entry = (copy_string(&e.name), copy_string(&e.hash));
                    proof {
                        lemma_put_key(recorded@, entry);
                        lemma_put_view(recorded@, entry, |v: String| v@);
                        lemma_hashes_entries(put_key(recorded@, entry));
                    }
                    put_entry(recorded, entry);
                }
            },
        }
        lines.push(PartResult { part: copy_string(&e.name), state: verb.to_string(), path: copy_string(&e.path) });
        written.push(w);
        i = i + 1;
    }
    assert(examined@.take(examined@.len() as int) =~= examined@);
    (lines, written)
}

/// The report lines of a status: each part's state.
pub fn status_parts(examined: &Vec<Examined>) -> (r: Vec<PartResult>)
    ensures
        r@.len() == examined@.len(),
        forall|i: int| 0 <= i < examined@.len() ==> line_view(#[trigger] r@[i]) == (
            examined@[i].name@,
            state_name(examined@[i].state),
            examined@[i].path@,
        ),
{
    let mut lines: Vec<PartResult> = Vec::new();
    let mut i: usize = 0;
    while i < examined.len()
        invariant
            i <= examined@.len(),
            lines@.len() == i,
            forall|j: int| 0 <= j < i ==> line_view(#[trigger] lines@[j]) == (
                examined@[j].name@,
                state_name(examined@[j].state),
                examined@[j].path@,
            ),
        decreases examined@.len() - i,
    {
        let e = &examined[i];
        lines.push(PartResult { part: copy_string(&e.name), state: e.state.as_str().to_string(), path: copy_string(&e.path) });
        i = i + 1;
    }
    lines
}

/// The first name of `without` that names no part of the profile.
pub open spec fn unknown_part(parts: Seq<crate::harness::part::Part>, without: Seq<String>, from: int) -> Option<int>
    decreases without.len() - from,
{
    if from < 0 || from >= without.len() {
        None
    } else if part_index(parts, without[from]@, 0) >= parts.len() {
        Some(from)
    } else {
        unknown_part(parts, without, from + 1)
    }
}

/// The refusal of an unknown part.
pub open spec fn unknown_part_error(harness: Seq<char>, part: Seq<char>) -> ErrorView {
    ErrorView::Harness("profile `"@ + harness + "` has no part named `"@ + part + "`"@)
}

proof fn lemma_unknown_part_bounds(parts: Seq<crate::harness::part::Part>, without: Seq<String>, from: int)
    requires
        0 <= from,
    ensures
        unknown_part(parts, without, from) matches Some(k) ==> from <= k < without.len(),
    decreases without.len() - from,
{
    if from < without.len() && part_index(parts, without[from]@, 0) < parts.len() {
        lemma_unknown_part_bounds(parts, without, from + 1);
    }
}

/// Checks names: every one must be a part of the profile.
fn check_names(profile: &Profile, w: &Vec<String>) -> (r: Result<(), Error>)
    ensures
        match unknown_part(profile.parts@, w@, 0) {
            None => r is Ok,
            Some(k) => 0 <= k < w@.len() && (r matches Err(e) && e@ == unknown_part_error(profile.harness@, w@[k]@)),
        },
{
    let mut i: usize = 0;
    proof {
        lemma_unknown_part_bounds(profile.parts@, w@, 0);
    }
    while i < w.len()
        invariant
            i <= w@.len(),
            unknown_part(profile.parts@, w@, 0) == unknown_part(profile.parts@, w@, i as int),
        decreases w@.len() - i,
    {
        if profile.part(w[i].as_str()).is_none() {
            let mut out = chars_of("profile `");
            append_str(&mut out, profile.harness.as_str());
            append_str(&mut out, "` has no part named `");
            append_str(&mut out, w[i].as_str());
            append_str(&mut out, "`");
            proof {
                reveal_strlit("profile `");
                reveal_strlit("` has no part named `");
                reveal_strlit("`");
            }
            return Err(Error::Harness(string_of(&out)));
        }
        i = i + 1;
    }
    Ok(())
}

/// Checks `--without`: every name must be a part of the profile.
pub fn check_without(profile: &Profile, without: &Option<Vec<String>>) -> (r: Result<(), Error>)
    ensures
        match without {
            None => r is Ok,
            Some(w) => match unknown_part(profile.parts@, w@, 0) {
                None => r is Ok,
                Some(k) => 0 <= k < w@.len() && (r matches Err(e) && e@ == unknown_part_error(profile.harness@, w@[k]@)),
            },
        },
{
    match without {
        None => Ok(()),
        Some(w) => check_names(profile, w),
    }
}

/// An install that finds every part current or declined writes nothing and
/// reports each part as it found it.
pub proof fn law_settled_install_writes_nothing(state: State, existed: bool, is_files: bool, force: bool)
    requires
        state == State::Current || state == State::Skipped,
    ensures
        !writes(state, force),
        verb_of(state, existed, is_files, force) == state_name(state),
{
}

/// An edited part is written only when forced, and otherwise reported as
/// edited.
pub proof fn law_edited_needs_force(existed: bool, is_files: bool, force: bool)
    ensures
        writes(State::Edited, force) == force,
        !force ==> verb_of(State::Edited, existed, is_files, force) == "edited"@,
{
}

/// A copy of a record.
fn copy_record(r: &Record) -> (out: Record)
    ensures
        record_view(out) == record_view(*r),
        out.harnesses@.len() == r.harnesses@.len(),
        forall|i: int| 0 <= i < r.harnesses@.len() ==> #[trigger] out.harnesses@[i].0@ == r.harnesses@[i].0@,
{
    let mut hs: Vec<(String, Vec<(String, String)>)> = Vec::new();
    let mut i: usize = 0;
    while i < r.harnesses.len()
        invariant
            i <= r.harnesses@.len(),
            hs@.len() == i,
            forall|j: int| 0 <= j < i ==> #[trigger] hs@[j].0@ == r.harnesses@[j].0@ && hashes_view(hs@[j].1@)
                == hashes_view(r.harnesses@[j].1@),
        decreases r.harnesses@.len() - i,
    {
        let src = &r.harnesses[i].1;
        let mut parts: Vec<(String, String)> = Vec::new();
        let mut k: usize = 0;
        while k < src.len()
            invariant
                k <= src@.len(),
                parts@.len() == k,
                forall|j: int| 0 <= j < k ==> #[trigger] parts@[j].0@ == src@[j].0@ && parts@[j].1@ == src@[j].1@,
            decreases src@.len() - k,
        {
            parts.push((copy_string(&src[k].0), copy_string(&src[k].1)));
            k = k + 1;
        }
        assert(hashes_view(parts@) =~= hashes_view(src@));
        hs.push((copy_string(&r.harnesses[i].0), parts));
        i = i + 1;
    }
    let out = Record { harnesses: hs };
    assert(record_view(out) =~= record_view(*r));
    out
}

/// The record after an install of `harness`: its table set to `recorded`.
pub open spec fn record_after(r: Seq<(Seq<char>, Seq<(Seq<char>, Seq<char>)>)>, harness: Seq<char>, recorded: Seq<(Seq<char>, Seq<char>)>) -> Seq<(Seq<char>, Seq<(Seq<char>, Seq<char>)>)> {
    put_name(r, (harness, recorded))
}

/// Plans the record's write after an install of `harness`, whose parts'
/// hashes are now `recorded`: the record file at `path` (`on_disk` when it
/// is a file) is written, with `header` as its first line, when the record
/// changes or the file is not there.
pub fn plan_record(
    plan: &mut Plan,
    record: &Record,
    harness: &str,
    recorded: Vec<(String, String)>,
    on_disk: bool,
    path: &str,
    header: &str,
)
    ensures
        planned(final(plan).files@) == planned(old(plan).files@),
        strings_of(final(plan).externals@) == strings_of(old(plan).externals@),
        ({
            let after = record_after(record_view(*record), harness@, hashes_view(recorded@));
            if after != record_view(*record) || !on_disk {
                final(plan).record matches Some((p, t)) && p@ == path@ && t@ == record_text(after, header@)
            } else {
                final(plan).record == old(plan).record
            }
        }),
{
    let mut after = copy_record(record);
    let entry = (harness.to_string(), recorded);
    proof {
        lemma_record_entries(after.harnesses@);
        lemma_put_view(after.harnesses@, entry, |v: Vec<(String, String)>| hashes_view(v@));
        lemma_record_entries(put_key(after.harnesses@, entry));
        assert(record_view(after) == record_view(*record));
    }
    put_entry(&mut after.harnesses, entry);
    if !same_record(&after, record) || !on_disk {
        let text = render_record(&after, header);
        plan.record = Some((path.to_string(), text));
    }
}

/// The plain record is the plain entries of its tables.
proof fn lemma_record_entries(s: Seq<(String, Vec<(String, String)>)>)
    ensures
        s.map_values(|e: (String, Vec<(String, String)>)| (e.0@, hashes_view(e.1@)))
            == crate::harness::record::entries_view(s, |v: Vec<(String, String)>| hashes_view(v@)),
{
    assert(s.map_values(|e: (String, Vec<(String, String)>)| (e.0@, hashes_view(e.1@)))
        =~= crate::harness::record::entries_view(s, |v: Vec<(String, String)>| hashes_view(v@)));
}

/// The refusal for a harness the tool has no profile of.
pub open spec fn no_profile(harness: Seq<char>) -> ErrorView {
    ErrorView::Harness("no profile named `"@ + harness + "`"@)
}

/// The profile an install or a status report works on: the tool's
/// profile of `harness`, a refusal when it has none.
pub fn require_profile(profile: Option<Profile>, harness: &str) -> (r: Result<Profile, Error>)
    ensures
        match profile {
            Some(p) => r == Ok::<Profile, Error>(p),
            None => r matches Err(e) && e@ == no_profile(harness@),
        },
{
    match profile {
        Some(p) => Ok(p),
        None => {
            let mut m = chars_of("no profile named `");
            append_str(&mut m, harness);
            append_str(&mut m, "`");
            proof {
                reveal_strlit("no profile named `");
                reveal_strlit("`");
            }
            Err(Error::Harness(string_of(&m)))
        },
    }
}

/// The note after a text report that left edited parts alone, naming the
/// command that overwrites them; none when forced or when no part is
/// edited.
pub open spec fn edited_note_of(states: Seq<Seq<char>>, force: bool, harness: Seq<char>) -> Option<Seq<char>> {
    if !force && states.contains("edited"@) {
        Some("note: parts marked edited were changed by hand and left alone; `smllm harness install "@ + harness
            + " --force` overwrites them\n"@)
    } else {
        None
    }
}

/// The note after a text report that left edited parts alone.
pub fn edited_note(parts: &Vec<PartResult>, force: bool, harness: &str) -> (r: Option<String>)
    ensures
        opt_text(r) == edited_note_of(parts@.map_values(|p: PartResult| p.state@), force, harness@),
{
    proof {
        reveal_strlit("edited");
        reveal_strlit("note: parts marked edited were changed by hand and left alone; `smllm harness install ");
        reveal_strlit(" --force` overwrites them\n");
    }
    let ghost states = parts@.map_values(|p: PartResult| p.state@);
    if force {
        return None;
    }
    let mut i: usize = 0;
    while i < parts.len()
        invariant
            i <= parts@.len(),
            !force,
            states == parts@.map_values(|p: PartResult| p.state@),
            forall|j: int| 0 <= j < i ==> states[j] != "edited"@,
        decreases parts@.len() - i,
    {
        if crate::text::str_eq(parts[i].state.as_str(), "edited") {
            assert(states[i as int] == "edited"@);
            assert(states.contains("edited"@));
            let mut m = chars_of("note: parts marked edited were changed by hand and left alone; `smllm harness install ");
            append_str(&mut m, harness);
            append_str(&mut m, " --force` overwrites them\n");
            let out = string_of(&m);
            return Some(out);
        }
        i = i + 1;
    }
    None
}

/// The plain value of an optional string.
pub open spec fn opt_text(s: Option<String>) -> Option<Seq<char>> {
    match s {
        Some(x) => Some(x@),
        None => None,
    }
}

/// The verb an install reports for a part: a part it writes is `created`
/// when nothing of it existed, else `rewrote` for a `file` part and
/// `updated` for any other, whatever state made it write (absent, stale,
/// or edited and forced); a part it does not write is reported by its
/// state.
pub proof fn law_verb_of_a_written_part(state: State, existed: bool, is_files: bool, force: bool)
    ensures
        writes(state, force) && !existed ==> verb_of(state, existed, is_files, force) == "created"@,
        writes(state, force) && existed ==> verb_of(state, existed, is_files, force) == if is_files {
            "rewrote"@
        } else {
            "updated"@
        },
        !writes(state, force) ==> verb_of(state, existed, is_files, force) == state_name(state),
{
}

} // verus!
