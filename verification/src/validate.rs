//! What `validate` reports: the format checker's findings as a report, and
//! the saved instances whose state a machine no longer has.

use vstd::prelude::*;

use crate::harness::declined::names_view;
use crate::paths::ConfigFile;
use crate::harness::install::{display, shown_path};
use crate::report::collect::{finished, views, Report};
use crate::report::finding::{Finding, FindingView, Severity};
use crate::text::{append_str, str_eq, string_of};

verus! {

/// A finding of the machine-format checker.
pub struct FormatFinding {
    /// Error, warning or info.
    pub level: Severity,
    /// The file it is on.
    pub file: String,
    /// The line, when one applies.
    pub line: Option<usize>,
    /// Where in the document, e.g. `states.WORK.on`.
    pub path: Option<String>,
    /// What is wrong.
    pub message: String,
    /// How to fix it.
    pub hint: Option<String>,
    /// The rule it breaks.
    pub rule: String,
}

/// A finding's message in a report: `<path>: <message> — <hint>`, the path
/// and the hint only where there is one.
pub open spec fn folded_message(f: FormatFinding) -> Seq<char> {
    (match f.path {
        Some(p) => p@ + ": "@,
        None => Seq::empty(),
    }) + f.message@ + (match f.hint {
        Some(h) => " — "@ + h@,
        None => Seq::empty(),
    })
}

/// A format finding as a report finding, its file shown relative to `cwd`.
pub open spec fn as_finding(cwd: Seq<char>, f: FormatFinding) -> FindingView {
    FindingView {
        path: shown_path(cwd, f.file@),
        line: f.line,
        severity: f.level,
        message: folded_message(f),
        authority: f.rule@,
    }
}

/// The findings of `fs` at `level`, as report findings, in order.
pub open spec fn at_level(cwd: Seq<char>, fs: Seq<FormatFinding>, level: Severity) -> Seq<FindingView>
    decreases fs.len(),
{
    if fs.len() == 0 {
        Seq::empty()
    } else if fs.last().level == level {
        at_level(cwd, fs.drop_last(), level).push(as_finding(cwd, fs.last()))
    } else {
        at_level(cwd, fs.drop_last(), level)
    }
}

fn folded(f: &FormatFinding) -> (s: String)
    ensures
        s@ == folded_message(*f),
{
    let mut out: Vec<char> = Vec::new();
    match &f.path {
        Some(p) => {
            append_str(&mut out, p.as_str());
            append_str(&mut out, ": ");
        },
        None => {},
    }
    append_str(&mut out, f.message.as_str());
    match &f.hint {
        Some(h) => {
            append_str(&mut out, " — ");
            append_str(&mut out, h.as_str());
        },
        None => {},
    }
    string_of(&out)
}

/// The format checker's findings as a finished report: each on its file
/// shown relative to `cwd`, its message `<path>: <message> — <hint>` (path
/// and hint where there are), its rule as the authority; errors, warnings
/// and info each ordered by path then line, without repeats.
pub fn report(findings: &Vec<FormatFinding>, cwd: &str) -> (r: Report)
    ensures
        views(r.errors@) == finished(at_level(cwd@, findings@, Severity::Error)),
        views(r.warnings@) == finished(at_level(cwd@, findings@, Severity::Warning)),
        views(r.info@) == finished(at_level(cwd@, findings@, Severity::Info)),
{
    let mut r = Report::new();
    let mut i: usize = 0;
    while i < findings.len()
        invariant
            i <= findings.len(),
            views(r.errors@) == at_level(cwd@, findings@.take(i as int), Severity::Error),
            views(r.warnings@) == at_level(cwd@, findings@.take(i as int), Severity::Warning),
            views(r.info@) == at_level(cwd@, findings@.take(i as int), Severity::Info),
        decreases findings.len() - i,
    {
        let f = &findings[i];
        let shown = display(cwd, f.file.as_str());
        let message = folded(f);
        let finding = Finding::new(shown.as_str(), f.line, f.level, message.as_str(), f.rule.as_str());
        let ghost (e0, w0, n0) = (r.errors@, r.warnings@, r.info@);
        r.push(finding);
        proof {
            let t = findings@.take(i + 1);
            assert(t.drop_last() =~= findings@.take(i as int));
            assert(t.last() == *f);
            assert(finding@ == as_finding(cwd@, *f));
            assert(views(e0.push(finding)) =~= views(e0).push(finding@));
            assert(views(w0.push(finding)) =~= views(w0).push(finding@));
            assert(views(n0.push(finding)) =~= views(n0).push(finding@));
        }
        i = i + 1;
    }
    assert(findings@.take(i as int) =~= findings@);
    r.finish()
}

/// A saved instance: how it is labelled and the state it was saved in.
pub struct SavedInstance {
    /// Its ref, else its id.
    pub label: String,
    /// The state it is in.
    pub state: String,
}

/// A configured machine with its saved instances.
pub struct SavedMachine {
    /// The file that defines the machine.
    pub file: String,
    /// The names of its states.
    pub states: Vec<String>,
    /// Its saved instances.
    pub instances: Vec<SavedInstance>,
}

/// The warning for an instance saved in a state its machine no longer has.
pub open spec fn stale_finding(file: Seq<char>, i: SavedInstance) -> (Seq<char>, Seq<char>) {
    (
        file,
        "saved instance "@ + i.label@ + " is in state "@ + i.state@
            + ", which no longer exists; enter it with a state to repair it"@,
    )
}

/// The (file, message) of each instance of `is` whose state `states` lacks.
pub open spec fn stale_in(file: Seq<char>, states: Seq<Seq<char>>, is: Seq<SavedInstance>) -> Seq<
    (Seq<char>, Seq<char>),
>
    decreases is.len(),
{
    if is.len() == 0 {
        Seq::empty()
    } else if states.contains(is.last().state@) {
        stale_in(file, states, is.drop_last())
    } else {
        stale_in(file, states, is.drop_last()).push(stale_finding(file, is.last()))
    }
}

/// The stale instances of each machine, machine by machine.
pub open spec fn stale_of(ms: Seq<SavedMachine>) -> Seq<(Seq<char>, Seq<char>)>
    decreases ms.len(),
{
    if ms.len() == 0 {
        Seq::empty()
    } else {
        stale_of(ms.drop_last()) + stale_in(ms.last().file@, names_view(ms.last().states@), ms.last().instances@)
    }
}

/// The plain (file, message) of a stale-state warning.
pub open spec fn stale_view(f: FormatFinding) -> (Seq<char>, Seq<char>) {
    (f.file@, f.message@)
}

/// The shape every stale-state warning has: a warning under rule
/// `IDLE-4`, with no line, document path or hint.
pub open spec fn is_stale_warning(f: FormatFinding) -> bool {
    &&& f.level == Severity::Warning
    &&& f.line is None
    &&& f.path is None
    &&& f.hint is None
    &&& f.rule@ == "IDLE-4"@
}

fn has_state(states: &Vec<String>, state: &str) -> (r: bool)
    ensures
        r == names_view(states@).contains(state@),
{
    let mut i: usize = 0;
    while i < states.len()
        invariant
            i <= states.len(),
            forall|j: int| 0 <= j < i ==> names_view(states@)[j] != state@,
        decreases states.len() - i,
    {
        if str_eq(states[i].as_str(), state) {
            assert(names_view(states@)[i as int] == state@);
            return true;
        }
        i = i + 1;
    }
    false
}

fn stale_warning(file: &String, i: &SavedInstance) -> (f: FormatFinding)
    ensures
        is_stale_warning(f),
        stale_view(f) == stale_finding(file@, *i),
{
    let mut m: Vec<char> = Vec::new();
    append_str(&mut m, "saved instance ");
    append_str(&mut m, i.label.as_str());
    append_str(&mut m, " is in state ");
    append_str(&mut m, i.state.as_str());
    append_str(&mut m, ", which no longer exists; enter it with a state to repair it");
    FormatFinding {
        level: Severity::Warning,
        file: file.clone(),
        line: None,
        path: None,
        message: string_of(&m),
        hint: None,
        rule: "IDLE-4".to_string(),
    }
}

/// The saved instances whose state no longer exists: for each machine, in
/// order, a warning (rule `IDLE-4`) on the machine's file for each of its
/// instances saved in a state the machine does not have,
/// `saved instance <label> is in state <state>, which no longer exists;
/// enter it with a state to repair it`.
pub fn saved_states(machines: &Vec<SavedMachine>) -> (out: Vec<FormatFinding>)
    ensures
        out@.map_values(|f: FormatFinding| stale_view(f)) == stale_of(machines@),
        forall|k: int| 0 <= k < out@.len() ==> is_stale_warning(#[trigger] out@[k]),
{
    let mut out: Vec<FormatFinding> = Vec::new();
    let mut m: usize = 0;
    while m < machines.len()
        invariant
            m <= machines.len(),
            out@.map_values(|f: FormatFinding| stale_view(f)) == stale_of(machines@.take(m as int)),
            forall|k: int| 0 <= k < out@.len() ==> is_stale_warning(#[trigger] out@[k]),
        decreases machines.len() - m,
    {
        let sm = &machines[m];
        let ghost before = out@.map_values(|f: FormatFinding| stale_view(f));
        let mut i: usize = 0;
        while i < sm.instances.len()
            invariant
                i <= sm.instances.len(),
                out@.map_values(|f: FormatFinding| stale_view(f)) == before + stale_in(
                    sm.file@,
                    names_view(sm.states@),
                    sm.instances@.take(i as int),
                ),
                forall|k: int| 0 <= k < out@.len() ==> is_stale_warning(#[trigger] out@[k]),
            decreases sm.instances.len() - i,
        {
            let inst = &sm.instances[i];
            let ghost prev = out@;
            if !has_state(&sm.states, inst.state.as_str()) {
                let w = stale_warning(&sm.file, inst);
                out.push(w);
                assert(out@.map_values(|f: FormatFinding| stale_view(f)) =~= prev.map_values(
                    |f: FormatFinding| stale_view(f),
                ).push(stale_view(w)));
            }
            proof {
                assert(sm.instances@.take(i + 1).drop_last() =~= sm.instances@.take(i as int));
                assert(sm.instances@.take(i + 1).last() == *inst);
            }
            i = i + 1;
        }
        proof {
            assert(sm.instances@.take(i as int) =~= sm.instances@);
            assert(machines@.take(m + 1).drop_last() =~= machines@.take(m as int));
        }
        m = m + 1;
    }
    assert(machines@.take(m as int) =~= machines@);
    out
}

/// The findings of `fs` at `level` are there exactly when one finding of
/// `fs` has that level.
proof fn lemma_at_level_some(cwd: Seq<char>, fs: Seq<FormatFinding>, level: Severity)
    ensures
        at_level(cwd, fs, level).len() > 0 <==> exists|i: int| 0 <= i < fs.len() && #[trigger] fs[i].level == level,
    decreases fs.len(),
{
    if fs.len() > 0 {
        let d = fs.drop_last();
        lemma_at_level_some(cwd, d, level);
        if exists|i: int| 0 <= i < d.len() && #[trigger] d[i].level == level {
            let i = choose|i: int| 0 <= i < d.len() && #[trigger] d[i].level == level;
            assert(fs[i] == d[i]);
        }
        if exists|i: int| 0 <= i < fs.len() && #[trigger] fs[i].level == level {
            let i = choose|i: int| 0 <= i < fs.len() && #[trigger] fs[i].level == level;
            if i < fs.len() - 1 {
                assert(d[i] == fs[i]);
            }
        }
    }
}

/// `validate`'s report of `findings` and its exit status: `EXIT_ERRORS`
/// exactly when one of the findings is an error, `EXIT_OK` otherwise.
pub fn validated(findings: &Vec<FormatFinding>, cwd: &str) -> (r: (Report, u8))
    ensures
        views(r.0.errors@) == finished(at_level(cwd@, findings@, Severity::Error)),
        views(r.0.warnings@) == finished(at_level(cwd@, findings@, Severity::Warning)),
        views(r.0.info@) == finished(at_level(cwd@, findings@, Severity::Info)),
        r.1 == (if exists|i: int| 0 <= i < findings@.len() && #[trigger] findings@[i].level == Severity::Error {
            crate::cli::EXIT_ERRORS
        } else {
            crate::cli::EXIT_OK
        }),
{
    let r = report(findings, cwd);
    proof {
        let e = at_level(cwd@, findings@, Severity::Error);
        lemma_at_level_some(cwd@, findings@, Severity::Error);
        crate::report::collect::law_finish_orders_and_dedups(e);
        if e.len() > 0 {
            assert(e.contains(e[0]));
            assert(finished(e).contains(e[0]));
        }
        if finished(e).len() > 0 {
            assert(finished(e).contains(finished(e)[0]));
        }
    }
    let code = if r.has_errors() {
        crate::cli::EXIT_ERRORS
    } else {
        crate::cli::EXIT_OK
    };
    (r, code)
}

/// The configs `validate` checks when no path is given: those found, or
/// `Err("no config found: run smllm init, or pass --config")` when none is.
pub fn found_configs(files: Vec<ConfigFile>) -> (r: Result<Vec<ConfigFile>, String>)
    ensures
        files@.len() == 0 ==> r is Err && r->Err_0@ == "no config found: run smllm init, or pass --config"@,
        files@.len() > 0 ==> r is Ok && r->Ok_0@ == files@,
{
    if files.len() == 0 {
        Err("no config found: run smllm init, or pass --config".to_string())
    } else {
        Ok(files)
    }
}

} // verus!
