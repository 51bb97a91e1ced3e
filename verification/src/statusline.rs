//! The status-line row: where a session is, in one line, coloured or not.

use vstd::prelude::*;

use crate::text::{append_decimal, append_str, decimal, string_of};

verus! {

/// The instance a session works on, as the row names it.
pub struct InstanceLabel {
    /// Its kind, e.g. `issue`.
    pub kind: String,
    /// Its ref when it has one, else its id.
    pub label: String,
}

/// What the status line shows of a session.
pub struct SessionStatus {
    /// The state machine it is in, when it holds an instance.
    pub machine: Option<String>,
    /// The state it is in, when it holds an instance.
    pub state: Option<String>,
    /// How many times the state has been entered.
    pub visit: Option<u32>,
    /// Whether the session yielded to ask the user something.
    pub yielded: bool,
    /// The instance it holds.
    pub instance: Option<InstanceLabel>,
    /// Whether an instance of the session is suspended.
    pub suspended: bool,
    /// How many of its instances are parked.
    pub parked: u32,
}

/// `text` wrapped in the SGR sequence `sgr` and a reset when `color`.
pub open spec fn paint_of(color: bool, sgr: Seq<char>, text: Seq<char>) -> Seq<char> {
    if color {
        "\x1b["@ + sgr + "m"@ + text + "\x1b[0m"@
    } else {
        text
    }
}

/// ` (visit n)`, dimmed, from the second visit on.
pub open spec fn visit_part(color: bool, visit: Option<u32>) -> Seq<char> {
    match visit {
        Some(n) => if n >= 2 {
            " "@ + paint_of(color, "2"@, "(visit "@ + decimal(n as nat) + ")"@)
        } else {
            Seq::empty()
        },
        None => Seq::empty(),
    }
}

/// ` · 1 suspended` and ` · <n> parked`, dimmed, each when there is any.
pub open spec fn idle_part(color: bool, suspended: bool, parked: u32) -> Seq<char> {
    (if suspended {
        " · "@ + paint_of(color, "2"@, "1 suspended"@)
    } else {
        Seq::empty()
    }) + (if parked > 0 {
        " · "@ + paint_of(color, "2"@, decimal(parked as nat) + " parked"@)
    } else {
        Seq::empty()
    })
}

/// ` <machine> › <state> [(visit n)] · <kind> <label> [· yielded]`.
pub open spec fn held_part(
    color: bool,
    machine: Seq<char>,
    state: Seq<char>,
    visit: Option<u32>,
    i: InstanceLabel,
    yielded: bool,
) -> Seq<char> {
    " "@ + paint_of(color, "36"@, machine) + " › "@ + paint_of(color, "1"@, state) + visit_part(
        color,
        visit,
    ) + " · "@ + paint_of(color, "35"@, i.kind@ + " "@ + i.label@) + (if yielded {
        " · "@ + paint_of(color, "33"@, "yielded"@)
    } else {
        Seq::empty()
    })
}

/// The row: `smllm <machine> › <state> [(visit n)] · <kind> <label> [· yielded]`
/// for a session that holds an instance, else `smllm idle` with its
/// suspended and parked counts.
pub open spec fn row_of(s: SessionStatus, color: bool) -> Seq<char> {
    paint_of(color, "2"@, "smllm"@) + match (s.machine, s.state, s.instance) {
        (Some(m), Some(st), Some(i)) => held_part(color, m@, st@, s.visit, i, s.yielded),
        _ => " idle"@ + idle_part(color, s.suspended, s.parked),
    }
}

fn paint(out: &mut Vec<char>, color: bool, sgr: &str, text: &str)
    ensures
        final(out)@ == old(out)@ + paint_of(color, sgr@, text@),
{
    if color {
        append_str(out, "\x1b[");
        append_str(out, sgr);
        append_str(out, "m");
        append_str(out, text);
        append_str(out, "\x1b[0m");
    } else {
        append_str(out, text);
    }
}

fn paint_chars(out: &mut Vec<char>, color: bool, sgr: &str, text: &Vec<char>)
    ensures
        final(out)@ == old(out)@ + paint_of(color, sgr@, text@),
{
    let t = string_of(text);
    paint(out, color, sgr, t.as_str());
}

fn push_visit(out: &mut Vec<char>, color: bool, visit: Option<u32>)
    ensures
        final(out)@ == old(out)@ + visit_part(color, visit),
{
    match visit {
        Some(n) => {
            if n >= 2 {
                let mut v: Vec<char> = Vec::new();
                append_str(&mut v, "(visit ");
                append_decimal(&mut v, n as usize);
                append_str(&mut v, ")");
                append_str(out, " ");
                paint_chars(out, color, "2", &v);
                assert(v@ == "(visit "@ + decimal(n as nat) + ")"@);
            }
        },
        None => {},
    }
}

fn push_held(
    out: &mut Vec<char>,
    color: bool,
    machine: &String,
    state: &String,
    visit: Option<u32>,
    inst: &InstanceLabel,
    yielded: bool,
)
    ensures
        final(out)@ == old(out)@ + held_part(color, machine@, state@, visit, *inst, yielded),
{
    let ghost start = out@;
    append_str(out, " ");
    paint(out, color, "36", machine.as_str());
    append_str(out, " › ");
    paint(out, color, "1", state.as_str());
    push_visit(out, color, visit);
    append_str(out, " · ");
    let mut what: Vec<char> = Vec::new();
    append_str(&mut what, inst.kind.as_str());
    append_str(&mut what, " ");
    append_str(&mut what, inst.label.as_str());
    paint_chars(out, color, "35", &what);
    let ghost mid = out@;
    if yielded {
        append_str(out, " · ");
        paint(out, color, "33", "yielded");
    }
    assert(mid == start + (" "@ + paint_of(color, "36"@, machine@) + " › "@ + paint_of(color, "1"@, state@)
        + visit_part(color, visit) + " · "@ + paint_of(color, "35"@, inst.kind@ + " "@ + inst.label@)));
}

fn push_idle(out: &mut Vec<char>, color: bool, suspended: bool, parked: u32)
    ensures
        final(out)@ == old(out)@ + idle_part(color, suspended, parked),
{
    let ghost start = out@;
    if suspended {
        append_str(out, " · ");
        paint(out, color, "2", "1 suspended");
    }
    let ghost mid = out@;
    if parked > 0 {
        let mut p: Vec<char> = Vec::new();
        append_decimal(&mut p, parked as usize);
        append_str(&mut p, " parked");
        append_str(out, " · ");
        paint_chars(out, color, "2", &p);
    }
    assert(out@ == mid + (if parked > 0 {
        " · "@ + paint_of(color, "2"@, decimal(parked as nat) + " parked"@)
    } else {
        Seq::<char>::empty()
    }));
}

/// The default status-line row, without a trailing newline: `smllm`, then
/// the machine, state, visit, instance and whether it yielded, or `idle`
/// with the suspended and parked counts; coloured when `color`.
pub fn row(s: &SessionStatus, color: bool) -> (r: String)
    ensures
        r@ == row_of(*s, color),
{
    let mut out: Vec<char> = Vec::new();
    paint(&mut out, color, "2", "smllm");
    match (&s.machine, &s.state, &s.instance) {
        (Some(machine), Some(state), Some(inst)) => {
            push_held(&mut out, color, machine, state, s.visit, inst, s.yielded);
        },
        _ => {
            append_str(&mut out, " idle");
            push_idle(&mut out, color, s.suspended, s.parked);
        },
    }
    string_of(&out)
}

/// The row of a session that holds no instance, without colour: `smllm
/// idle`, then ` · 1 suspended` exactly when an instance is suspended and
/// ` · <n> parked` exactly when `n` instances are parked, each whatever
/// the other is.
pub proof fn law_idle_row(s: SessionStatus)
    requires
        !(s.machine is Some && s.state is Some && s.instance is Some),
    ensures
        row_of(s, false) == "smllm idle"@ + (if s.suspended {
            " · 1 suspended"@
        } else {
            Seq::empty()
        }) + (if s.parked > 0 {
            " · "@ + decimal(s.parked as nat) + " parked"@
        } else {
            Seq::empty()
        }),
{
    reveal_strlit("smllm");
    reveal_strlit(" idle");
    reveal_strlit("smllm idle");
    reveal_strlit(" · ");
    reveal_strlit("1 suspended");
    reveal_strlit(" · 1 suspended");
    let a: Seq<char> = if s.suspended { " · 1 suspended"@ } else { Seq::empty() };
    let b: Seq<char> = if s.parked > 0 { " · "@ + decimal(s.parked as nat) + " parked"@ } else { Seq::empty() };
    assert(idle_part(false, s.suspended, s.parked) =~= a + b);
    assert("smllm"@ + " idle"@ =~= "smllm idle"@);
    assert(row_of(s, false) =~= "smllm idle"@ + a + b);
}

/// With colour as without: the idle row shows ` · 1 suspended` exactly when
/// an instance is suspended and ` · <n> parked` exactly when `n > 0`
/// instances are parked, each dimmed, each whatever the other is.
pub proof fn law_idle_row_painted(s: SessionStatus, color: bool)
    requires
        !(s.machine is Some && s.state is Some && s.instance is Some),
    ensures
        row_of(s, color) == paint_of(color, "2"@, "smllm"@) + " idle"@ + (if s.suspended {
            " · "@ + paint_of(color, "2"@, "1 suspended"@)
        } else {
            Seq::empty()
        }) + (if s.parked > 0 {
            " · "@ + paint_of(color, "2"@, decimal(s.parked as nat) + " parked"@)
        } else {
            Seq::empty()
        }),
{
    let a: Seq<char> = if s.suspended { " · "@ + paint_of(color, "2"@, "1 suspended"@) } else { Seq::empty() };
    let b: Seq<char> = if s.parked > 0 { " · "@ + paint_of(color, "2"@, decimal(s.parked as nat) + " parked"@) } else { Seq::empty() };
    assert(idle_part(color, s.suspended, s.parked) =~= a + b);
    assert(row_of(s, color) =~= paint_of(color, "2"@, "smllm"@) + " idle"@ + a + b);
}

} // verus!
