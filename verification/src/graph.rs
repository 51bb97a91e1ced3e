//! The state graph of a machine as text, as a Mermaid diagram and as JSON:
//! states with their tags, and every transition with its event, guard and
//! target.

use vstd::prelude::*;

use crate::cli::json_line;
use crate::commands::{texts, GraphArgs};
use crate::json::{copy_string, json_compact, lemma_array_model, lemma_object_model, members, model, models, Json, JsonModel};
use crate::text::{append_chars, append_decimal, append_str, chars_of, decimal, string_of};

verus! {

/// What a host guard runs, as its `run` parameter gives it.
pub enum HostRun {
    /// A command line.
    Command(String),
    /// A command as its words.
    Words(Vec<String>),
}

/// A transition's guard.
pub enum GuardDef {
    /// The state has been visited at least `at_least` times.
    Visits { state: String, at_least: u32 },
    /// A check the host makes; `run` is what it runs, when that is a
    /// string or a list of strings.
    Host { kind: String, run: Option<HostRun> },
}

/// A transition: where it goes, when, and how.
pub struct TransitionDef {
    /// The target state; none for a transition that stays.
    pub target: Option<String>,
    /// The guard, if any.
    pub guard: Option<GuardDef>,
    /// Whether the state is entered again when the target is the same.
    pub reenter: bool,
    /// Whether the transition sets the instance's ref.
    pub set_ref: bool,
}

/// The transitions an event triggers.
pub struct OnEvent {
    /// The event.
    pub event: String,
    /// Its transitions, in order.
    pub transitions: Vec<TransitionDef>,
}

/// A state.
pub struct StateDef {
    /// Its name.
    pub name: String,
    /// Whether a session may start in it.
    pub entry_point: bool,
    /// Whether it is the fallback state.
    pub fallback: bool,
    /// Whether it is final.
    pub is_final: bool,
    /// Its event transitions, in order.
    pub on: Vec<OnEvent>,
    /// Its `always` transitions, in order.
    pub always: Vec<TransitionDef>,
}

/// A state machine.
pub struct MachineDef {
    /// Its id.
    pub id: String,
    /// Its initial state.
    pub initial: String,
    /// Its states, in order.
    pub states: Vec<StateDef>,
}

/// `parts` with `sep` between each two.
pub open spec fn joined_with(parts: Seq<Seq<char>>, sep: Seq<char>) -> Seq<char>
    decreases parts.len(),
{
    if parts.len() == 0 {
        Seq::empty()
    } else if parts.len() == 1 {
        parts[0]
    } else {
        joined_with(parts.drop_last(), sep) + sep + parts.last()
    }
}

/// A guard as the graph shows it: `visits <state> ≥ <n>`, `<kind> \`<run>\``,
/// `<kind> [<words>]`, or the kind alone.
pub open spec fn guard_label_of(g: GuardDef) -> Seq<char> {
    match g {
        GuardDef::Visits { state, at_least } => "visits "@ + state@ + " ≥ "@ + decimal(at_least as nat),
        GuardDef::Host { kind, run } => match run {
            Some(HostRun::Command(s)) => kind@ + " `"@ + s@ + "`"@,
            Some(HostRun::Words(l)) => kind@ + " ["@ + joined_with(texts(l@), " "@) + "]"@,
            None => kind@,
        },
    }
}

/// Appends `parts` joined by `sep`.
fn append_joined(out: &mut Vec<char>, parts: &Vec<String>, sep: &str)
    ensures
        final(out)@ == old(out)@ + joined_with(texts(parts@), sep@),
{
    let ghost start = out@;
    let ghost ts = texts(parts@);
    let mut i: usize = 0;
    while i < parts.len()
        invariant
            i <= parts.len(),
            ts == texts(parts@),
            out@ == start + joined_with(ts.take(i as int), sep@),
        decreases parts.len() - i,
    {
        if i > 0 {
            append_str(out, sep);
        }
        append_str(out, parts[i].as_str());
        proof {
            assert(ts.take(i + 1).drop_last() =~= ts.take(i as int));
            assert(ts.take(i + 1).last() == parts@[i as int]@);
            if i == 0 {
                assert(ts.take(1) =~= seq![parts@[0]@]);
            }
        }
        i = i + 1;
    }
    assert(ts.take(i as int) =~= ts);
}

/// A guard as the graph shows it: `visits <state> ≥ <n>` for a visit count,
/// else the host check's kind with what it runs, `` `cmd` `` for a command
/// line or `[w1 w2]` for its words.
pub fn guard_label(g: &GuardDef) -> (s: String)
    ensures
        s@ == guard_label_of(*g),
{
    let mut out: Vec<char> = Vec::new();
    match g {
        GuardDef::Visits { state, at_least } => {
            append_str(&mut out, "visits ");
            append_str(&mut out, state.as_str());
            append_str(&mut out, " ≥ ");
            append_decimal(&mut out, *at_least as usize);
        },
        GuardDef::Host { kind, run } => {
            append_str(&mut out, kind.as_str());
            match run {
                Some(HostRun::Command(s)) => {
                    append_str(&mut out, " `");
                    append_str(&mut out, s.as_str());
                    append_str(&mut out, "`");
                },
                Some(HostRun::Words(l)) => {
                    append_str(&mut out, " [");
                    append_joined(&mut out, l, " ");
                    append_str(&mut out, "]");
                },
                None => {},
            }
        },
    }
    string_of(&out)
}

/// An event's transitions, each with the event.
pub open spec fn event_edges(o: OnEvent) -> Seq<(Seq<char>, TransitionDef)> {
    o.transitions@.map_values(|t: TransitionDef| (o.event@, t))
}

/// The transitions of `on`, event by event, each with its event.
pub open spec fn on_edges(on: Seq<OnEvent>) -> Seq<(Seq<char>, TransitionDef)>
    decreases on.len(),
{
    if on.len() == 0 {
        Seq::empty()
    } else {
        on_edges(on.drop_last()) + event_edges(on.last())
    }
}

/// Every (event, transition) of a state: its event transitions in order,
/// then its `always` transitions under the event `always`.
pub open spec fn edges_of(s: StateDef) -> Seq<(Seq<char>, TransitionDef)> {
    on_edges(s.on@) + s.always@.map_values(|t: TransitionDef| ("always"@, t))
}

/// An edge as plain values.
pub open spec fn edge_view(p: (&str, &TransitionDef)) -> (Seq<char>, TransitionDef) {
    (p.0@, *p.1)
}

/// Every (event, transition) of a state: its event transitions in order,
/// then its `always` transitions under the event `always`.
pub fn edges<'a>(s: &'a StateDef) -> (out: Vec<(&'a str, &'a TransitionDef)>)
    ensures
        out@.map_values(|p: (&str, &TransitionDef)| edge_view(p)) == edges_of(*s),
{
    let mut out: Vec<(&'a str, &'a TransitionDef)> = Vec::new();
    let mut i: usize = 0;
    while i < s.on.len()
        invariant
            i <= s.on.len(),
            out@.map_values(|p: (&str, &TransitionDef)| edge_view(p)) == on_edges(s.on@.take(i as int)),
        decreases s.on.len() - i,
    {
        let o = &s.on[i];
        let ghost before = out@.map_values(|p: (&str, &TransitionDef)| edge_view(p));
        let mut j: usize = 0;
        while j < o.transitions.len()
            invariant
                j <= o.transitions.len(),
                out@.map_values(|p: (&str, &TransitionDef)| edge_view(p)) == before + event_edges(
                    *o,
                ).take(j as int),
            decreases o.transitions.len() - j,
        {
            let ghost prev = out@;
            out.push((o.event.as_str(), &o.transitions[j]));
            proof {
                assert(out@.map_values(|p: (&str, &TransitionDef)| edge_view(p)) =~= prev.map_values(
                    |p: (&str, &TransitionDef)| edge_view(p),
                ).push(event_edges(*o)[j as int]));
                assert(event_edges(*o).take(j + 1) =~= event_edges(*o).take(j as int).push(
                    event_edges(*o)[j as int],
                ));
            }
            j = j + 1;
        }
        proof {
            assert(event_edges(*o).take(j as int) =~= event_edges(*o));
            assert(s.on@.take(i + 1).drop_last() =~= s.on@.take(i as int));
        }
        i = i + 1;
    }
    assert(s.on@.take(i as int) =~= s.on@);
    let ghost before = out@.map_values(|p: (&str, &TransitionDef)| edge_view(p));
    let ghost alw = s.always@.map_values(|t: TransitionDef| ("always"@, t));
    let mut k: usize = 0;
    while k < s.always.len()
        invariant
            k <= s.always.len(),
            alw == s.always@.map_values(|t: TransitionDef| ("always"@, t)),
            out@.map_values(|p: (&str, &TransitionDef)| edge_view(p)) == before + alw.take(k as int),
        decreases s.always.len() - k,
    {
        let ghost prev = out@;
        out.push(("always", &s.always[k]));
        proof {
            assert(out@.map_values(|p: (&str, &TransitionDef)| edge_view(p)) =~= prev.map_values(
                |p: (&str, &TransitionDef)| edge_view(p),
            ).push(alw[k as int]));
            assert(alw.take(k + 1) =~= alw.take(k as int).push(alw[k as int]));
        }
        k = k + 1;
    }
    assert(alw.take(k as int) =~= alw);
    out
}

/// A state's tags, in order: `entry point`, `fallback`, `final`.
pub open spec fn tags_of(s: StateDef) -> Seq<Seq<char>> {
    (if s.entry_point {
        seq!["entry point"@]
    } else {
        Seq::empty()
    }) + (if s.fallback {
        seq!["fallback"@]
    } else {
        Seq::empty()
    }) + (if s.is_final {
        seq!["final"@]
    } else {
        Seq::empty()
    })
}

/// ` [<tags>]`, or nothing for a state without tags.
pub open spec fn tags_text(s: StateDef) -> Seq<char> {
    if tags_of(s).len() == 0 {
        Seq::empty()
    } else {
        " ["@ + joined_with(tags_of(s), ", "@) + "]"@
    }
}

/// The target of a transition, or `otherwise` for one that stays.
pub open spec fn target_or(t: TransitionDef, otherwise: Seq<char>) -> Seq<char> {
    match t.target {
        Some(x) => x@,
        None => otherwise,
    }
}

/// `    <event> [<guard>] → <target> (reenter) (setRef)` and a newline, each
/// bracket only where it applies; a transition that stays shows `(stays)`.
pub open spec fn edge_line(e: Seq<char>, t: TransitionDef) -> Seq<char> {
    "    "@ + e + (match t.guard {
        Some(g) => " ["@ + guard_label_of(g) + "]"@,
        None => Seq::empty(),
    }) + " → "@ + target_or(t, "(stays)"@) + (if t.reenter {
        " (reenter)"@
    } else {
        Seq::empty()
    }) + (if t.set_ref {
        " (setRef)"@
    } else {
        Seq::empty()
    }) + "\n"@
}

/// The lines of `es`, in order.
pub open spec fn edge_lines(es: Seq<(Seq<char>, TransitionDef)>) -> Seq<char>
    decreases es.len(),
{
    if es.len() == 0 {
        Seq::empty()
    } else {
        edge_lines(es.drop_last()) + edge_line(es.last().0, es.last().1)
    }
}

/// `  <name> [<tags>]` and a newline, then a line per transition.
pub open spec fn state_text(s: StateDef) -> Seq<char> {
    "  "@ + s.name@ + tags_text(s) + "\n"@ + edge_lines(edges_of(s))
}

/// The text of each state, in order.
pub open spec fn states_text(ss: Seq<StateDef>) -> Seq<char>
    decreases ss.len(),
{
    if ss.len() == 0 {
        Seq::empty()
    } else {
        states_text(ss.drop_last()) + state_text(ss.last())
    }
}

/// `<id> (initial <state>)` and a newline, then each state.
pub open spec fn text_of(m: MachineDef) -> Seq<char> {
    m.id@ + " (initial "@ + m.initial@ + ")\n"@ + states_text(m.states@)
}

fn push_tags(out: &mut Vec<char>, s: &StateDef)
    ensures
        final(out)@ == old(out)@ + tags_text(*s),
{
    let mut tags: Vec<String> = Vec::new();
    if s.entry_point {
        tags.push("entry point".to_string());
    }
    if s.fallback {
        tags.push("fallback".to_string());
    }
    if s.is_final {
        tags.push("final".to_string());
    }
    assert(texts(tags@) =~= tags_of(*s));
    if tags.len() > 0 {
        append_str(out, " [");
        append_joined(out, &tags, ", ");
        append_str(out, "]");
    }
}

fn push_edge_line(out: &mut Vec<char>, e: &str, t: &TransitionDef)
    ensures
        final(out)@ == old(out)@ + edge_line(e@, *t),
{
    let ghost start = out@;
    append_str(out, "    ");
    append_str(out, e);
    match &t.guard {
        Some(g) => {
            append_str(out, " [");
            let l = guard_label(g);
            append_str(out, l.as_str());
            append_str(out, "]");
        },
        None => {},
    }
    append_str(out, " → ");
    match &t.target {
        Some(x) => append_str(out, x.as_str()),
        None => append_str(out, "(stays)"),
    }
    let ghost mid = out@;
    if t.reenter {
        append_str(out, " (reenter)");
    }
    if t.set_ref {
        append_str(out, " (setRef)");
    }
    append_str(out, "\n");
    assert(mid == start + ("    "@ + e@ + (match t.guard {
        Some(g) => " ["@ + guard_label_of(g) + "]"@,
        None => Seq::<char>::empty(),
    }) + " → "@ + target_or(*t, "(stays)"@)));
}

fn push_state_text(out: &mut Vec<char>, s: &StateDef)
    ensures
        final(out)@ == old(out)@ + state_text(*s),
{
    let ghost start = out@;
    append_str(out, "  ");
    append_str(out, s.name.as_str());
    push_tags(out, s);
    append_str(out, "\n");
    let es = edges(s);
    let ghost ev = es@.map_values(|p: (&str, &TransitionDef)| edge_view(p));
    let ghost head = out@;
    let mut i: usize = 0;
    while i < es.len()
        invariant
            i <= es.len(),
            ev == es@.map_values(|p: (&str, &TransitionDef)| edge_view(p)),
            out@ == head + edge_lines(ev.take(i as int)),
        decreases es.len() - i,
    {
        let (e, t) = es[i];
        push_edge_line(out, e, t);
        proof {
            assert(ev.take(i + 1).drop_last() =~= ev.take(i as int));
            assert(ev[i as int] == (e@, *t));
        }
        i = i + 1;
    }
    assert(ev.take(i as int) =~= ev);
}

/// The graph of a machine as text: `<id> (initial <state>)`, then each
/// state on a line of its own, indented by two, with its tags
/// (`[entry point, fallback, final]`, those that apply), and under it each
/// transition indented by four: `<event> [<guard>] → <target>`, then
/// `(reenter)` and `(setRef)` where they apply; `always` transitions come
/// last, under the event `always`, and a transition without a target shows
/// `(stays)`.
pub fn text(m: &MachineDef) -> (s: String)
    ensures
        s@ == text_of(*m),
{
    let mut out: Vec<char> = Vec::new();
    append_str(&mut out, m.id.as_str());
    append_str(&mut out, " (initial ");
    append_str(&mut out, m.initial.as_str());
    append_str(&mut out, ")\n");
    let ghost head = out@;
    let mut i: usize = 0;
    while i < m.states.len()
        invariant
            i <= m.states.len(),
            out@ == head + states_text(m.states@.take(i as int)),
        decreases m.states.len() - i,
    {
        push_state_text(&mut out, &m.states[i]);
        proof {
            assert(m.states@.take(i + 1).drop_last() =~= m.states@.take(i as int));
        }
        i = i + 1;
    }
    assert(m.states@.take(i as int) =~= m.states@);
    string_of(&out)
}

/// Whether `c` is one of the characters a Mermaid label cannot hold: `"`,
/// `` ` `` and `:`.
pub open spec fn is_mark(c: char) -> bool {
    c == '"' || c == '`' || c == ':'
}

/// `s` without the characters a Mermaid label cannot hold.
pub open spec fn strip_marks(s: Seq<char>) -> Seq<char>
    decreases s.len(),
{
    if s.len() == 0 {
        Seq::empty()
    } else if is_mark(s.last()) {
        strip_marks(s.drop_last())
    } else {
        strip_marks(s.drop_last()).push(s.last())
    }
}

/// An edge's Mermaid label: the event, with the guard in brackets.
pub open spec fn mermaid_label(e: Seq<char>, t: TransitionDef) -> Seq<char> {
    match t.guard {
        Some(g) => e + " ["@ + strip_marks(guard_label_of(g)) + "]"@,
        None => e,
    }
}

/// `    <from> --> <target>: <label>` and a newline; a transition that stays
/// goes back to `from`.
pub open spec fn mermaid_edge(from: Seq<char>, e: Seq<char>, t: TransitionDef) -> Seq<char> {
    "    "@ + from + " --> "@ + target_or(t, from) + ": "@ + mermaid_label(e, t) + "\n"@
}

/// The Mermaid lines of `es`, in order.
pub open spec fn mermaid_edges(from: Seq<char>, es: Seq<(Seq<char>, TransitionDef)>) -> Seq<char>
    decreases es.len(),
{
    if es.len() == 0 {
        Seq::empty()
    } else {
        mermaid_edges(from, es.drop_last()) + mermaid_edge(from, es.last().0, es.last().1)
    }
}

/// A state's transitions, then `    <name> --> [*]` for a final state.
pub open spec fn mermaid_state(s: StateDef) -> Seq<char> {
    mermaid_edges(s.name@, edges_of(s)) + (if s.is_final {
        "    "@ + s.name@ + " --> [*]\n"@
    } else {
        Seq::empty()
    })
}

/// The Mermaid lines of each state, in order.
pub open spec fn mermaid_states(ss: Seq<StateDef>) -> Seq<char>
    decreases ss.len(),
{
    if ss.len() == 0 {
        Seq::empty()
    } else {
        mermaid_states(ss.drop_last()) + mermaid_state(ss.last())
    }
}

/// The title block, `stateDiagram-v2` and the initial arrow, then each state.
pub open spec fn mermaid_of(m: MachineDef) -> Seq<char> {
    "---\ntitle: "@ + m.id@ + "\n---\nstateDiagram-v2\n    [*] --> "@ + m.initial@ + "\n"@
        + mermaid_states(m.states@)
}

fn push_stripped(out: &mut Vec<char>, s: &Vec<char>)
    ensures
        final(out)@ == old(out)@ + strip_marks(s@),
{
    let ghost start = out@;
    let mut i: usize = 0;
    while i < s.len()
        invariant
            i <= s.len(),
            out@ == start + strip_marks(s@.take(i as int)),
        decreases s.len() - i,
    {
        let c = s[i];
        if !(c == '"' || c == '`' || c == ':') {
            out.push(c);
        }
        proof {
            assert(s@.take(i + 1).drop_last() =~= s@.take(i as int));
            assert(s@.take(i + 1).last() == c);
        }
        i = i + 1;
    }
    assert(s@.take(i as int) =~= s@);
}

fn push_mermaid_edge(out: &mut Vec<char>, from: &str, e: &str, t: &TransitionDef)
    ensures
        final(out)@ == old(out)@ + mermaid_edge(from@, e@, *t),
{
    let ghost start = out@;
    append_str(out, "    ");
    append_str(out, from);
    append_str(out, " --> ");
    match &t.target {
        Some(x) => append_str(out, x.as_str()),
        None => append_str(out, from),
    }
    append_str(out, ": ");
    let ghost mid = out@;
    append_str(out, e);
    match &t.guard {
        Some(g) => {
            append_str(out, " [");
            let l = guard_label(g);
            let lc = chars_of(l.as_str());
            push_stripped(out, &lc);
            append_str(out, "]");
        },
        None => {},
    }
    assert(out@ == mid + mermaid_label(e@, *t));
    append_str(out, "\n");
}

fn push_mermaid_state(out: &mut Vec<char>, s: &StateDef)
    ensures
        final(out)@ == old(out)@ + mermaid_state(*s),
{
    let es = edges(s);
    let ghost ev = es@.map_values(|p: (&str, &TransitionDef)| edge_view(p));
    let ghost head = out@;
    let mut i: usize = 0;
    while i < es.len()
        invariant
            i <= es.len(),
            ev == es@.map_values(|p: (&str, &TransitionDef)| edge_view(p)),
            out@ == head + mermaid_edges(s.name@, ev.take(i as int)),
        decreases es.len() - i,
    {
        let (e, t) = es[i];
        push_mermaid_edge(out, s.name.as_str(), e, t);
        proof {
            assert(ev.take(i + 1).drop_last() =~= ev.take(i as int));
            assert(ev[i as int] == (e@, *t));
        }
        i = i + 1;
    }
    assert(ev.take(i as int) =~= ev);
    let ghost mid = out@;
    if s.is_final {
        append_str(out, "    ");
        append_str(out, s.name.as_str());
        append_str(out, " --> [*]\n");
    }
    assert(out@ == mid + (if s.is_final {
        "    "@ + s.name@ + " --> [*]\n"@
    } else {
        Seq::<char>::empty()
    }));
}

/// The graph of a machine as a Mermaid state diagram: a front-matter title
/// with the id, `stateDiagram-v2`, `[*] --> <initial>`, then for each state
/// a `<state> --> <target>: <event> [<guard>]` line per transition (the
/// guard without `"`, `` ` `` and `:`; a transition without a target goes
/// back to its state) and `<state> --> [*]` for a final state.
pub fn mermaid(m: &MachineDef) -> (s: String)
    ensures
        s@ == mermaid_of(*m),
{
    let mut out: Vec<char> = Vec::new();
    append_str(&mut out, "---\ntitle: ");
    append_str(&mut out, m.id.as_str());
    append_str(&mut out, "\n---\nstateDiagram-v2\n    [*] --> ");
    append_str(&mut out, m.initial.as_str());
    append_str(&mut out, "\n");
    let ghost head = out@;
    let mut i: usize = 0;
    while i < m.states.len()
        invariant
            i <= m.states.len(),
            out@ == head + mermaid_states(m.states@.take(i as int)),
        decreases m.states.len() - i,
    {
        push_mermaid_state(&mut out, &m.states[i]);
        proof {
            assert(m.states@.take(i + 1).drop_last() =~= m.states@.take(i as int));
        }
        i = i + 1;
    }
    assert(m.states@.take(i as int) =~= m.states@);
    string_of(&out)
}

/// A string, or `null` for none.
pub open spec fn opt_str_json(o: Option<Seq<char>>) -> JsonModel {
    match o {
        Some(x) => JsonModel::Str(x),
        None => JsonModel::Null,
    }
}

/// A transition as JSON: `event`, `target` (null when it stays), `guard`
/// (its label, or null) and `reenter`.
pub open spec fn edge_json_of(e: Seq<char>, t: TransitionDef) -> JsonModel {
    JsonModel::Object(
        seq![
            ("event"@, JsonModel::Str(e)),
            ("target"@, opt_str_json(
                match t.target {
                    Some(x) => Some(x@),
                    None => None,
                },
            )),
            ("guard"@, opt_str_json(
                match t.guard {
                    Some(g) => Some(guard_label_of(g)),
                    None => None,
                },
            )),
            ("reenter"@, JsonModel::Bool(t.reenter)),
        ],
    )
}

/// A state as JSON: `name`, `final`, `entryPoint`, `fallback` and its
/// `transitions`.
pub open spec fn state_json_of(s: StateDef) -> JsonModel {
    JsonModel::Object(
        seq![
            ("name"@, JsonModel::Str(s.name@)),
            ("final"@, JsonModel::Bool(s.is_final)),
            ("entryPoint"@, JsonModel::Bool(s.entry_point)),
            ("fallback"@, JsonModel::Bool(s.fallback)),
            ("transitions"@, JsonModel::Array(
                edges_of(s).map_values(|p: (Seq<char>, TransitionDef)| edge_json_of(p.0, p.1)),
            )),
        ],
    )
}

/// A machine as JSON: `id`, `initial` and its `states`.
pub open spec fn machine_json_of(m: MachineDef) -> JsonModel {
    JsonModel::Object(
        seq![
            ("id"@, JsonModel::Str(m.id@)),
            ("initial"@, JsonModel::Str(m.initial@)),
            ("states"@, JsonModel::Array(m.states@.map_values(|s: StateDef| state_json_of(s)))),
        ],
    )
}

fn opt_str(o: &Option<String>) -> (j: Json)
    ensures
        model(j) == opt_str_json(
            match *o {
                Some(x) => Some(x@),
                None => None,
            },
        ),
{
    match o {
        Some(x) => Json::Str(copy_string(x)),
        None => Json::Null,
    }
}

fn edge_json(e: &str, t: &TransitionDef) -> (j: Json)
    ensures
        model(j) == edge_json_of(e@, *t),
{
    let mut m: Vec<(String, Json)> = Vec::new();
    m.push(("event".to_string(), Json::Str(e.to_string())));
    m.push(("target".to_string(), opt_str(&t.target)));
    let guard = match &t.guard {
        Some(g) => Json::Str(guard_label(g)),
        None => Json::Null,
    };
    m.push(("guard".to_string(), guard));
    m.push(("reenter".to_string(), Json::Bool(t.reenter)));
    proof {
        lemma_object_model(m);
        assert(members(m@) =~= edge_json_of(e@, *t)->Object_0);
    }
    Json::Object(m)
}

fn state_json(s: &StateDef) -> (j: Json)
    ensures
        model(j) == state_json_of(*s),
{
    let es = edges(s);
    let ghost ev = es@.map_values(|p: (&str, &TransitionDef)| edge_view(p));
    let mut ts: Vec<Json> = Vec::new();
    let mut i: usize = 0;
    while i < es.len()
        invariant
            i <= es.len(),
            ev == es@.map_values(|p: (&str, &TransitionDef)| edge_view(p)),
            ts@.len() == i,
            forall|k: int| 0 <= k < i ==> #[trigger] model(ts@[k]) == edge_json_of(ev[k].0, ev[k].1),
        decreases es.len() - i,
    {
        let (e, t) = es[i];
        ts.push(edge_json(e, t));
        i = i + 1;
    }
    proof {
        lemma_array_model(ts);
        assert(models(ts@) =~= edges_of(*s).map_values(
            |p: (Seq<char>, TransitionDef)| edge_json_of(p.0, p.1),
        ));
    }
    let mut m: Vec<(String, Json)> = Vec::new();
    m.push(("name".to_string(), Json::Str(copy_string(&s.name))));
    m.push(("final".to_string(), Json::Bool(s.is_final)));
    m.push(("entryPoint".to_string(), Json::Bool(s.entry_point)));
    m.push(("fallback".to_string(), Json::Bool(s.fallback)));
    m.push(("transitions".to_string(), Json::Array(ts)));
    proof {
        lemma_object_model(m);
        assert(members(m@) =~= state_json_of(*s)->Object_0);
    }
    Json::Object(m)
}

/// The graph of a machine as JSON: `{"id", "initial", "states"}`, each
/// state `{"name", "final", "entryPoint", "fallback", "transitions"}` and
/// each transition `{"event", "target", "guard", "reenter"}`, with `null`
/// for a transition that stays and for one without a guard.
pub fn to_json(m: &MachineDef) -> (j: Json)
    ensures
        model(j) == machine_json_of(*m),
{
    let mut states: Vec<Json> = Vec::new();
    let mut i: usize = 0;
    while i < m.states.len()
        invariant
            i <= m.states.len(),
            states@.len() == i,
            forall|k: int| 0 <= k < i ==> #[trigger] model(states@[k]) == state_json_of(m.states@[k]),
        decreases m.states.len() - i,
    {
        states.push(state_json(&m.states[i]));
        i = i + 1;
    }
    proof {
        lemma_array_model(states);
        assert(models(states@) =~= m.states@.map_values(|s: StateDef| state_json_of(s)));
    }
    let mut o: Vec<(String, Json)> = Vec::new();
    o.push(("id".to_string(), Json::Str(copy_string(&m.id))));
    o.push(("initial".to_string(), Json::Str(copy_string(&m.initial))));
    o.push(("states".to_string(), Json::Array(states)));
    proof {
        lemma_object_model(o);
        assert(members(o@) =~= machine_json_of(*m)->Object_0);
    }
    Json::Object(o)
}

/// The index of the first machine from `from` on whose id is `id`.
pub open spec fn first_with_id(ms: Seq<MachineDef>, id: Seq<char>, from: int) -> Option<int>
    decreases ms.len() - from,
{
    if from < 0 || from >= ms.len() {
        None
    } else if ms[from].id@ == id {
        Some(from)
    } else {
        first_with_id(ms, id, from + 1)
    }
}

proof fn lemma_first_with_id(ms: Seq<MachineDef>, id: Seq<char>, from: int)
    ensures
        first_with_id(ms, id, from) matches Some(i) ==> from <= i < ms.len() && ms[i].id@ == id,
    decreases ms.len() - from,
{
    if 0 <= from < ms.len() && ms[from].id@ != id {
        lemma_first_with_id(ms, id, from + 1);
    }
}

/// The machines a graph shows: all of them, or the first with the id asked
/// for; `None` when no machine has that id.
pub open spec fn picked(ms: Seq<MachineDef>, id: Option<Seq<char>>) -> Option<Seq<MachineDef>> {
    match id {
        None => Some(ms),
        Some(x) => match first_with_id(ms, x, 0) {
            Some(i) => Some(seq![ms[i]]),
            None => None,
        },
    }
}

/// The graph output of machines `ms`: one JSON line `{"machines": [...]}`,
/// or their Mermaid diagrams, or their text, each separated by an empty
/// line.
pub open spec fn graph_output_of(ms: Seq<MachineDef>, json: bool, mermaid: bool) -> Seq<char> {
    if json {
        json_compact(JsonModel::Object(
            seq![("machines"@, JsonModel::Array(ms.map_values(|m: MachineDef| machine_json_of(m))))],
        )) + "\n"@
    } else if mermaid {
        joined_with(ms.map_values(|m: MachineDef| mermaid_of(m)), "\n"@)
    } else {
        joined_with(ms.map_values(|m: MachineDef| text_of(m)), "\n"@)
    }
}

fn find_machine(ms: &Vec<MachineDef>, id: &str) -> (r: Option<usize>)
    ensures
        r == (match first_with_id(ms@, id@, 0) {
            Some(i) => Some(i as usize),
            None => None::<usize>,
        }),
        r matches Some(i) ==> i < ms.len() && ms@[i as int].id@ == id@,
{
    proof { lemma_first_with_id(ms@, id@, 0); }
    let mut i: usize = 0;
    while i < ms.len()
        invariant
            i <= ms.len(),
            first_with_id(ms@, id@, 0) == first_with_id(ms@, id@, i as int),
        decreases ms.len() - i,
    {
        if crate::text::str_eq(ms[i].id.as_str(), id) {
            return Some(i);
        }
        i = i + 1;
    }
    None
}

fn pick<'a>(machines: &'a Vec<MachineDef>, id: &Option<String>) -> (r: Option<Vec<&'a MachineDef>>)
    ensures
        match picked(
            machines@,
            match *id {
                Some(x) => Some(x@),
                None => None,
            },
        ) {
            Some(ms) => r is Some && r->Some_0@.map_values(|m: &MachineDef| *m) == ms,
            None => r is None && id is Some,
        },
{
    let mut shown: Vec<&MachineDef> = Vec::new();
    match id {
        Some(id) => match find_machine(machines, id.as_str()) {
            Some(i) => {
                proof { lemma_first_with_id(machines@, id@, 0); }
                shown.push(&machines[i]);
                assert(shown@.map_values(|m: &MachineDef| *m) =~= seq![machines@[i as int]]);
            },
            None => {
                return None;
            },
        },
        None => {
            let mut i: usize = 0;
            while i < machines.len()
                invariant
                    i <= machines.len(),
                    shown@.len() == i,
                    forall|k: int| 0 <= k < i ==> *#[trigger] shown@[k] == machines@[k],
                decreases machines.len() - i,
            {
                shown.push(&machines[i]);
                i = i + 1;
            }
            assert(shown@.map_values(|m: &MachineDef| *m) =~= machines@);
        },
    }
    Some(shown)
}

/// `graph`: the graph of every machine of `machines`, or of the one whose
/// id `args.id` names, as text (`text`), as Mermaid (`mermaid`) or as one
/// JSON line (`to_json` under `machines`); two machines are separated by an
/// empty line. `Err("no state machine <id>")` when no machine has the id.
pub fn graph(args: &GraphArgs, machines: &Vec<MachineDef>) -> (r: Result<String, String>)
    ensures
        match picked(
            machines@,
            match args.id {
                Some(x) => Some(x@),
                None => None,
            },
        ) {
            Some(ms) => r is Ok && r->Ok_0@ == graph_output_of(ms, args.json, args.mermaid),
            None => r is Err && r->Err_0@ == "no state machine "@ + args.id->Some_0@,
        },
{
    let shown = match pick(machines, &args.id) {
        Some(v) => v,
        None => {
            let mut e: Vec<char> = Vec::new();
            append_str(&mut e, "no state machine ");
            match &args.id {
                Some(id) => append_str(&mut e, id.as_str()),
                None => {},
            }
            return Err(string_of(&e));
        },
    };
    let ghost ms = shown@.map_values(|m: &MachineDef| *m);
    if args.json {
        let mut all: Vec<Json> = Vec::new();
        let mut i: usize = 0;
        while i < shown.len()
            invariant
                i <= shown.len(),
                ms == shown@.map_values(|m: &MachineDef| *m),
                all@.len() == i,
                forall|k: int| 0 <= k < i ==> #[trigger] model(all@[k]) == machine_json_of(ms[k]),
            decreases shown.len() - i,
        {
            all.push(to_json(shown[i]));
            i = i + 1;
        }
        proof {
            lemma_array_model(all);
            assert(models(all@) =~= ms.map_values(|m: MachineDef| machine_json_of(m)));
        }
        let mut o: Vec<(String, Json)> = Vec::new();
        o.push(("machines".to_string(), Json::Array(all)));
        proof {
            lemma_object_model(o);
            assert(members(o@) =~= seq![
                ("machines"@, JsonModel::Array(ms.map_values(|m: MachineDef| machine_json_of(m)))),
            ]);
        }
        return Ok(json_line(&Json::Object(o)));
    }
    let mut parts: Vec<String> = Vec::new();
    let mut i: usize = 0;
    while i < shown.len()
        invariant
            i <= shown.len(),
            ms == shown@.map_values(|m: &MachineDef| *m),
            parts@.len() == i,
            forall|k: int|
                0 <= k < i ==> #[trigger] parts@[k]@ == (if args.mermaid {
                    mermaid_of(ms[k])
                } else {
                    text_of(ms[k])
                }),
        decreases shown.len() - i,
    {
        if args.mermaid {
            parts.push(mermaid(shown[i]));
        } else {
            parts.push(text(shown[i]));
        }
        i = i + 1;
    }
    let mut out: Vec<char> = Vec::new();
    append_joined(&mut out, &parts, "\n");
    proof {
        if args.mermaid {
            assert(texts(parts@) =~= ms.map_values(|m: MachineDef| mermaid_of(m)));
        } else {
            assert(texts(parts@) =~= ms.map_values(|m: MachineDef| text_of(m)));
        }
    }
    Ok(string_of(&out))
}

/// A machine's JSON lists its states under `states`, in order, each as its
/// state's JSON (see `law_state_json_own_fields`).
pub proof fn law_machine_json_states(m: MachineDef)
    ensures
        crate::harness::merge::member(machine_json_of(m), "states"@) == Some(
            JsonModel::Array(m.states@.map_values(|s: StateDef| state_json_of(s))),
        ),
{
    reveal_strlit("id");
    reveal_strlit("initial");
    reveal_strlit("states");
    let x = machine_json_of(m)->Object_0;
    assert(x[0].0.len() == 2 && x[1].0.len() == 7 && x[2].0.len() == 6);
    assert(x[0].0 != "states"@ && x[1].0 != "states"@);
    assert(crate::harness::merge::key_from(x, "states"@, 2) == 2);
    assert(crate::harness::merge::key_from(x, "states"@, 1) == 2);
    assert(crate::harness::merge::key_from(x, "states"@, 0) == 2);
}

/// A state's JSON carries its own fields: `name` its name, `final`,
/// `entryPoint` and `fallback` its flags of those names.
pub proof fn law_state_json_own_fields(s: StateDef)
    ensures
        crate::harness::merge::member(state_json_of(s), "name"@) == Some(JsonModel::Str(s.name@)),
        crate::harness::merge::member(state_json_of(s), "final"@) == Some(JsonModel::Bool(s.is_final)),
        crate::harness::merge::member(state_json_of(s), "entryPoint"@) == Some(JsonModel::Bool(s.entry_point)),
        crate::harness::merge::member(state_json_of(s), "fallback"@) == Some(JsonModel::Bool(s.fallback)),
{
    reveal_strlit("name");
    reveal_strlit("final");
    reveal_strlit("entryPoint");
    reveal_strlit("fallback");
    reveal_strlit("transitions");
    let x = state_json_of(s)->Object_0;
    assert(x[0].0.len() == 4 && x[1].0.len() == 5 && x[2].0.len() == 10 && x[3].0.len() == 8);
    assert(x[0].0 != "final"@ && x[0].0 != "entryPoint"@ && x[1].0 != "entryPoint"@);
    assert(x[0].0 != "fallback"@ && x[1].0 != "fallback"@ && x[2].0 != "fallback"@);
    assert(crate::harness::merge::key_from(x, "name"@, 0) == 0);
    assert(crate::harness::merge::key_from(x, "final"@, 1) == 1);
    assert(crate::harness::merge::key_from(x, "final"@, 0) == 1);
    assert(crate::harness::merge::key_from(x, "entryPoint"@, 2) == 2);
    assert(crate::harness::merge::key_from(x, "entryPoint"@, 1) == 2);
    assert(crate::harness::merge::key_from(x, "entryPoint"@, 0) == 2);
    assert(crate::harness::merge::key_from(x, "fallback"@, 3) == 3);
    assert(crate::harness::merge::key_from(x, "fallback"@, 2) == 3);
    assert(crate::harness::merge::key_from(x, "fallback"@, 1) == 3);
    assert(crate::harness::merge::key_from(x, "fallback"@, 0) == 3);
}

} // verus!
