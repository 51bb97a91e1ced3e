//! The text of `session list`, `instance list` and `instance show`, and
//! which instance a key names.

use vstd::prelude::*;

use crate::graph::joined_with;
use crate::text::{append_decimal, append_str, decimal, str_eq, string_of};

verus! {

/// The instance a session holds.
pub struct Holding {
    /// Its state machine.
    pub machine: String,
    /// Its id.
    pub id: String,
}

/// A session as `session list` shows it.
pub struct SessionRow {
    /// The session key.
    pub key: String,
    /// The harness it is bound to.
    pub harness: String,
    /// The instance it holds, if any.
    pub holding: Option<Holding>,
    /// When it was last active, as UTC text.
    pub last_active: String,
    /// The directory it works in.
    pub cwd: String,
}

/// An instance as the instance commands show it.
pub struct InstanceRow {
    /// Its state machine.
    pub machine: String,
    /// Its id.
    pub id: String,
    /// Its ref, if it has one.
    pub reference: Option<String>,
    /// Its label: the ref when there is one, else the id.
    pub label: String,
    /// The state it is in.
    pub state: String,
    /// Its status, e.g. `active`.
    pub status: String,
    /// The session that holds it, if any.
    pub holder: Option<String>,
    /// How many times each state was entered, in order.
    pub visits: Vec<(String, u32)>,
}

/// One entry of an instance's history.
pub struct HistoryRow {
    /// When, as UTC text.
    pub at: String,
    /// The session that fired.
    pub session: String,
    /// The event.
    pub event: String,
    /// The state it left, if any.
    pub from: Option<String>,
    /// The state it entered, if any.
    pub to: Option<String>,
    /// The params fired with, each as a key and its text.
    pub params: Vec<(String, String)>,
    /// The trace lines.
    pub trace: Vec<String>,
}

/// Where a session is: `<machine> <id>`, or `idle`.
pub open spec fn at_of(h: Option<Holding>) -> Seq<char> {
    match h {
        Some(x) => x.machine@ + " "@ + x.id@,
        None => "idle"@,
    }
}

/// `<key>  <harness>  <at>  last active <time>  <cwd>` and a newline.
pub open spec fn session_line(s: SessionRow) -> Seq<char> {
    s.key@ + "  "@ + s.harness@ + "  "@ + at_of(s.holding) + "  last active "@ + s.last_active@ + "  "@
        + s.cwd@ + "\n"@
}

/// The lines of `ss`, in order.
pub open spec fn session_lines(ss: Seq<SessionRow>) -> Seq<char>
    decreases ss.len(),
{
    if ss.len() == 0 {
        Seq::empty()
    } else {
        session_lines(ss.drop_last()) + session_line(ss.last())
    }
}

/// The text of `session list`: a line per session, or `no sessions`.
pub open spec fn session_list_of(ss: Seq<SessionRow>) -> Seq<char> {
    if ss.len() == 0 {
        "no sessions\n"@
    } else {
        session_lines(ss)
    }
}

fn push_session_line(out: &mut Vec<char>, s: &SessionRow)
    ensures
        final(out)@ == old(out)@ + session_line(*s),
{
    let ghost start = out@;
    append_str(out, s.key.as_str());
    append_str(out, "  ");
    append_str(out, s.harness.as_str());
    append_str(out, "  ");
    match &s.holding {
        Some(h) => {
            append_str(out, h.machine.as_str());
            append_str(out, " ");
            append_str(out, h.id.as_str());
        },
        None => append_str(out, "idle"),
    }
    append_str(out, "  last active ");
    append_str(out, s.last_active.as_str());
    append_str(out, "  ");
    append_str(out, s.cwd.as_str());
    append_str(out, "\n");
}

/// The text of `session list`: for each session
/// `<key>  <harness>  <machine> <id>  last active <time>  <cwd>` (`idle` in
/// place of the instance when it holds none), or `no sessions` when there
/// is none; each line ends in a newline.
pub fn session_list_text(sessions: &Vec<SessionRow>) -> (s: String)
    ensures
        s@ == session_list_of(sessions@),
{
    let mut out: Vec<char> = Vec::new();
    let mut i: usize = 0;
    while i < sessions.len()
        invariant
            i <= sessions.len(),
            out@ == session_lines(sessions@.take(i as int)),
        decreases sessions.len() - i,
    {
        push_session_line(&mut out, &sessions[i]);
        assert(sessions@.take(i + 1).drop_last() =~= sessions@.take(i as int));
        i = i + 1;
    }
    assert(sessions@.take(i as int) =~= sessions@);
    if sessions.len() == 0 {
        append_str(&mut out, "no sessions\n");
    }
    string_of(&out)
}

/// `  held by <session>`, or nothing for an instance nobody holds.
pub open spec fn held_of(h: Option<String>) -> Seq<char> {
    match h {
        Some(x) => "  held by "@ + x@,
        None => Seq::empty(),
    }
}

/// `<machine>  <label> (<id>)  <state>  <status>[  held by <session>]` and a
/// newline.
pub open spec fn instance_line(i: InstanceRow) -> Seq<char> {
    i.machine@ + "  "@ + i.label@ + " ("@ + i.id@ + ")  "@ + i.state@ + "  "@ + i.status@ + held_of(i.holder)
        + "\n"@
}

/// The lines of `is`, in order.
pub open spec fn instance_lines(is: Seq<InstanceRow>) -> Seq<char>
    decreases is.len(),
{
    if is.len() == 0 {
        Seq::empty()
    } else {
        instance_lines(is.drop_last()) + instance_line(is.last())
    }
}

/// The text of `instance list`: a line per instance, or `no instances`.
pub open spec fn instance_list_of(is: Seq<InstanceRow>) -> Seq<char> {
    if is.len() == 0 {
        "no instances\n"@
    } else {
        instance_lines(is)
    }
}

fn push_instance_line(out: &mut Vec<char>, i: &InstanceRow)
    ensures
        final(out)@ == old(out)@ + instance_line(*i),
{
    append_str(out, i.machine.as_str());
    append_str(out, "  ");
    append_str(out, i.label.as_str());
    append_str(out, " (");
    append_str(out, i.id.as_str());
    append_str(out, ")  ");
    append_str(out, i.state.as_str());
    append_str(out, "  ");
    append_str(out, i.status.as_str());
    match &i.holder {
        Some(h) => {
            append_str(out, "  held by ");
            append_str(out, h.as_str());
        },
        None => {},
    }
    append_str(out, "\n");
}

/// The text of `instance list`: for each instance
/// `<machine>  <label> (<id>)  <state>  <status>`, with `  held by <session>`
/// when a session holds it, or `no instances` when there is none; each line
/// ends in a newline.
pub fn instance_list_text(instances: &Vec<InstanceRow>) -> (s: String)
    ensures
        s@ == instance_list_of(instances@),
{
    let mut out: Vec<char> = Vec::new();
    let mut i: usize = 0;
    while i < instances.len()
        invariant
            i <= instances.len(),
            out@ == instance_lines(instances@.take(i as int)),
        decreases instances.len() - i,
    {
        push_instance_line(&mut out, &instances[i]);
        assert(instances@.take(i + 1).drop_last() =~= instances@.take(i as int));
        i = i + 1;
    }
    assert(instances@.take(i as int) =~= instances@);
    if instances.len() == 0 {
        append_str(&mut out, "no instances\n");
    }
    string_of(&out)
}

/// Whether `key` names instance `i`: its id or its ref.
pub open spec fn names(i: InstanceRow, key: Seq<char>) -> bool {
    i.id@ == key || (i.reference matches Some(r) && r@ == key)
}

/// The last instance of `is` before `upto` that `key` names.
pub open spec fn last_named(is: Seq<InstanceRow>, key: Seq<char>, upto: int) -> Option<int>
    decreases upto,
{
    if upto <= 0 || upto > is.len() {
        None
    } else if names(is[upto - 1], key) {
        Some(upto - 1)
    } else {
        last_named(is, key, upto - 1)
    }
}

proof fn lemma_last_named(is: Seq<InstanceRow>, key: Seq<char>, upto: int)
    ensures
        last_named(is, key, upto) matches Some(i) ==> 0 <= i < upto && names(is[i], key),
    decreases upto,
{
    if 0 < upto <= is.len() && !names(is[upto - 1], key) {
        lemma_last_named(is, key, upto - 1);
    }
}

/// The instance `key` names by id or ref, the last one when several do;
/// `Err("no instance <key> in the configured state machines")` when none
/// does.
pub fn find_instance(instances: &Vec<InstanceRow>, key: &str) -> (r: Result<usize, String>)
    ensures
        match last_named(instances@, key@, instances@.len() as int) {
            Some(i) => r == Ok::<usize, String>(i as usize),
            None => r is Err && r->Err_0@ == "no instance "@ + key@ + " in the configured state machines"@,
        },
{
    let mut found: Option<usize> = None;
    let mut i: usize = 0;
    while i < instances.len()
        invariant
            i <= instances.len(),
            found == (match last_named(instances@, key@, i as int) {
                Some(k) => Some(k as usize),
                None => None::<usize>,
            }),
        decreases instances.len() - i,
    {
        let inst = &instances[i];
        let by_ref = match &inst.reference {
            Some(r) => str_eq(r.as_str(), key),
            None => false,
        };
        if str_eq(inst.id.as_str(), key) || by_ref {
            found = Some(i);
        }
        proof { lemma_last_named(instances@, key@, i as int); }
        i = i + 1;
    }
    match found {
        Some(k) => Ok(k),
        None => {
            let mut e: Vec<char> = Vec::new();
            append_str(&mut e, "no instance ");
            append_str(&mut e, key);
            append_str(&mut e, " in the configured state machines");
            Err(string_of(&e))
        },
    }
}

/// `<state>=<n>`.
pub open spec fn visit_text(v: (String, u32)) -> Seq<char> {
    v.0@ + "="@ + decimal(v.1 as nat)
}

/// The header of `instance show`: the instance, its state, status, holder
/// (`-` for none) and visits, then `history:`.
pub open spec fn show_header(i: InstanceRow) -> Seq<char> {
    i.machine@ + " "@ + i.label@ + " ("@ + i.id@ + ")\nstate: "@ + i.state@ + "  status: "@ + i.status@
        + "  holder: "@ + (match i.holder {
        Some(h) => h@,
        None => "-"@,
    }) + "\nvisits: "@ + joined_with(i.visits@.map_values(|v: (String, u32)| visit_text(v)), " "@)
        + "\nhistory:\n"@
}

/// How an entry moved: `<from> → <to>`, `→ <to>`, `<from> →`, or nothing.
pub open spec fn route_of(from: Option<String>, to: Option<String>) -> Seq<char> {
    match (from, to) {
        (Some(f), Some(t)) => f@ + " → "@ + t@,
        (None, Some(t)) => "→ "@ + t@,
        (Some(f), None) => f@ + " →"@,
        (None, None) => Seq::empty(),
    }
}

/// `      <key> = <value>` lines.
pub open spec fn param_lines(ps: Seq<(String, String)>) -> Seq<char>
    decreases ps.len(),
{
    if ps.len() == 0 {
        Seq::empty()
    } else {
        param_lines(ps.drop_last()) + "      "@ + ps.last().0@ + " = "@ + ps.last().1@ + "\n"@
    }
}

/// `      <line>` lines.
pub open spec fn trace_lines(ts: Seq<String>) -> Seq<char>
    decreases ts.len(),
{
    if ts.len() == 0 {
        Seq::empty()
    } else {
        trace_lines(ts.drop_last()) + "      "@ + ts.last()@ + "\n"@
    }
}

/// `  <at>  <session>  <event>  <route>` and a newline, then its params and
/// trace, indented by six.
pub open spec fn history_entry(h: HistoryRow) -> Seq<char> {
    "  "@ + h.at@ + "  "@ + h.session@ + "  "@ + h.event@ + "  "@ + route_of(h.from, h.to) + "\n"@
        + param_lines(h.params@) + trace_lines(h.trace@)
}

/// The entries of `hs`, in order.
pub open spec fn history_text(hs: Seq<HistoryRow>) -> Seq<char>
    decreases hs.len(),
{
    if hs.len() == 0 {
        Seq::empty()
    } else {
        history_text(hs.drop_last()) + history_entry(hs.last())
    }
}

fn push_header(out: &mut Vec<char>, i: &InstanceRow)
    ensures
        final(out)@ == old(out)@ + show_header(*i),
{
    let ghost start = out@;
    append_str(out, i.machine.as_str());
    append_str(out, " ");
    append_str(out, i.label.as_str());
    append_str(out, " (");
    append_str(out, i.id.as_str());
    append_str(out, ")\nstate: ");
    append_str(out, i.state.as_str());
    append_str(out, "  status: ");
    append_str(out, i.status.as_str());
    append_str(out, "  holder: ");
    match &i.holder {
        Some(h) => append_str(out, h.as_str()),
        None => append_str(out, "-"),
    }
    append_str(out, "\nvisits: ");
    let ghost mid = out@;
    let ghost vs = i.visits@.map_values(|v: (String, u32)| visit_text(v));
    let mut k: usize = 0;
    while k < i.visits.len()
        invariant
            k <= i.visits.len(),
            vs == i.visits@.map_values(|v: (String, u32)| visit_text(v)),
            out@ == mid + joined_with(vs.take(k as int), " "@),
        decreases i.visits.len() - k,
    {
        if k > 0 {
            append_str(out, " ");
        }
        let (s, n) = &i.visits[k];
        append_str(out, s.as_str());
        append_str(out, "=");
        append_decimal(out, *n as usize);
        proof {
            assert(vs.take(k + 1).drop_last() =~= vs.take(k as int));
            if k == 0 {
                assert(vs.take(1) =~= seq![vs[0]]);
            }
        }
        k = k + 1;
    }
    assert(vs.take(k as int) =~= vs);
    append_str(out, "\nhistory:\n");
}

fn push_route(out: &mut Vec<char>, from: &Option<String>, to: &Option<String>)
    ensures
        final(out)@ == old(out)@ + route_of(*from, *to),
{
    match (from, to) {
        (Some(f), Some(t)) => {
            append_str(out, f.as_str());
            append_str(out, " → ");
            append_str(out, t.as_str());
        },
        (None, Some(t)) => {
            append_str(out, "→ ");
            append_str(out, t.as_str());
        },
        (Some(f), None) => {
            append_str(out, f.as_str());
            append_str(out, " →");
        },
        (None, None) => {},
    }
}

fn push_entry_head(out: &mut Vec<char>, h: &HistoryRow)
    ensures
        final(out)@ == old(out)@ + ("  "@ + h.at@ + "  "@ + h.session@ + "  "@ + h.event@ + "  "@ + route_of(
            h.from,
            h.to,
        ) + "\n"@),
{
    append_str(out, "  ");
    append_str(out, h.at.as_str());
    append_str(out, "  ");
    append_str(out, h.session.as_str());
    append_str(out, "  ");
    append_str(out, h.event.as_str());
    append_str(out, "  ");
    push_route(out, &h.from, &h.to);
    append_str(out, "\n");
}

fn push_history_entry(out: &mut Vec<char>, h: &HistoryRow)
    ensures
        final(out)@ == old(out)@ + history_entry(*h),
{
    let ghost start = out@;
    push_entry_head(out, h);
    let ghost mid = out@;
    let mut k: usize = 0;
    while k < h.params.len()
        invariant
            k <= h.params.len(),
            out@ == mid + param_lines(h.params@.take(k as int)),
        decreases h.params.len() - k,
    {
        let (key, value) = &h.params[k];
        append_str(out, "      ");
        append_str(out, key.as_str());
        append_str(out, " = ");
        append_str(out, value.as_str());
        append_str(out, "\n");
        assert(h.params@.take(k + 1).drop_last() =~= h.params@.take(k as int));
        k = k + 1;
    }
    assert(h.params@.take(k as int) =~= h.params@);
    let ghost mid2 = out@;
    let mut t: usize = 0;
    while t < h.trace.len()
        invariant
            t <= h.trace.len(),
            out@ == mid2 + trace_lines(h.trace@.take(t as int)),
        decreases h.trace.len() - t,
    {
        append_str(out, "      ");
        append_str(out, h.trace[t].as_str());
        append_str(out, "\n");
        assert(h.trace@.take(t + 1).drop_last() =~= h.trace@.take(t as int));
        t = t + 1;
    }
    assert(h.trace@.take(t as int) =~= h.trace@);
}

/// The text of `instance show`: `<machine> <label> (<id>)`, then
/// `state: <state>  status: <status>  holder: <session or ->`, then
/// `visits: <state>=<n> …`, then `history:` and each entry as
/// `  <at>  <session>  <event>  <route>`, its params (`<key> = <value>`) and
/// trace lines under it, indented by six.
pub fn instance_text(inst: &InstanceRow, history: &Vec<HistoryRow>) -> (s: String)
    ensures
        s@ == show_header(*inst) + history_text(history@),
{
    let mut out: Vec<char> = Vec::new();
    push_header(&mut out, inst);
    let ghost head = out@;
    let mut i: usize = 0;
    while i < history.len()
        invariant
            i <= history.len(),
            out@ == head + history_text(history@.take(i as int)),
        decreases history.len() - i,
    {
        push_history_entry(&mut out, &history[i]);
        assert(history@.take(i + 1).drop_last() =~= history@.take(i as int));
        i = i + 1;
    }
    assert(history@.take(i as int) =~= history@);
    string_of(&out)
}

} // verus!
