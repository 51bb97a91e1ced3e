//! The text report: findings, then the counts line.

use vstd::prelude::*;

use crate::report::collect::{Report, sort_by_key, sort_findings, views};
use crate::report::finding::{Finding, FindingView, line_of};
use crate::text::{append_chars, append_decimal, append_str, chars_of, decimal, string_of};

verus! {

/// One line per finding, each ending in LF.
pub open spec fn lines_text(s: Seq<FindingView>) -> Seq<char>
    decreases s.len(),
{
    if s.len() == 0 {
        Seq::empty()
    } else {
        lines_text(s.drop_last()) + line_of(s.last()) + "\n"@
    }
}

/// `1 <noun>` or `<n> <noun>s`.
pub open spec fn plural_of(n: nat, noun: Seq<char>) -> Seq<char> {
    if n == 1 {
        "1 "@ + noun
    } else {
        decimal(n) + " "@ + noun + "s"@
    }
}

/// The findings a text report lists: the errors, then the warnings when
/// `warnings`, then the info findings when `info`.
pub open spec fn listed(r: Report, warnings: bool, info: bool) -> Seq<FindingView> {
    views(r.errors@) + (if warnings { views(r.warnings@) } else { Seq::empty() }) + (if info {
        views(r.info@)
    } else {
        Seq::empty()
    })
}

/// The text report of `r`.
pub open spec fn report_text_of(r: Report, warnings: bool, info: bool) -> Seq<char> {
    lines_text(sort_findings(listed(r, warnings, info), false)) + plural_of(r.errors@.len(), "error"@)
        + ", "@ + plural_of(r.warnings@.len(), "warning"@) + ", "@ + decimal(r.info@.len()) + " info\n"@
}

/// `1 <noun>` or `<n> <noun>s`.
pub fn plural(n: usize, noun: &str) -> (s: String)
    ensures
        s@ == plural_of(n as nat, noun@),
{
    let mut out: Vec<char> = Vec::new();
    if n == 1 {
        append_str(&mut out, "1 ");
        append_str(&mut out, noun);
        proof { reveal_strlit("1 "); }
    } else {
        append_decimal(&mut out, n);
        append_str(&mut out, " ");
        append_str(&mut out, noun);
        append_str(&mut out, "s");
        proof { reveal_strlit(" "); reveal_strlit("s"); }
    }
    string_of(&out)
}

fn push_copies(out: &mut Vec<Finding>, from: &Vec<Finding>)
    ensures
        views(final(out)@) == views(old(out)@) + views(from@),
{
    let ghost start = views(out@);
    let mut i: usize = 0;
    while i < from.len()
        invariant
            i <= from.len(),
            views(out@) == start + views(from@).take(i as int),
        decreases from.len() - i,
    {
        let ghost before = out@;
        out.push(from[i].duplicate());
        assert(views(out@) =~= views(before).push(views(from@)[i as int]));
        i = i + 1;
        assert(views(out@) =~= start + views(from@).take(i as int));
    }
    assert(views(from@).take(i as int) =~= views(from@));
}

/// The text report: the errors, the warnings when `warnings`, the info
/// findings when `info` (ordered together by path then line), one
/// `<path>:<line>: <level>: <message> (<authority>)` line each; then the
/// counts line, e.g. `1 error, 0 warnings, 2 info`.
pub fn report_text(report: &Report, warnings: bool, info: bool) -> (s: String)
    ensures
        s@ == report_text_of(*report, warnings, info),
{
    let mut all: Vec<Finding> = Vec::new();
    push_copies(&mut all, &report.errors);
    if warnings {
        push_copies(&mut all, &report.warnings);
    }
    if info {
        push_copies(&mut all, &report.info);
    }
    assert(views(all@) =~= listed(*report, warnings, info));
    let sorted = sort_by_key(all, false);
    let ghost s = views(sorted@);
    let mut out: Vec<char> = Vec::new();
    let mut i: usize = 0;
    while i < sorted.len()
        invariant
            i <= sorted.len(),
            s == views(sorted@),
            out@ == lines_text(s.take(i as int)),
        decreases sorted.len() - i,
    {
        let line = chars_of(sorted[i].to_line().as_str());
        append_chars(&mut out, &line);
        append_str(&mut out, "\n");
        proof {
            reveal_strlit("\n");
            assert(s.take(i + 1).drop_last() =~= s.take(i as int));
            assert(s[i as int] == sorted@[i as int]@);
        }
        i = i + 1;
    }
    assert(s.take(i as int) =~= s);
    let e = plural(report.errors.len(), "error");
    append_str(&mut out, e.as_str());
    append_str(&mut out, ", ");
    let w = plural(report.warnings.len(), "warning");
    append_str(&mut out, w.as_str());
    append_str(&mut out, ", ");
    append_decimal(&mut out, report.info.len());
    append_str(&mut out, " info\n");
    proof { reveal_strlit(", "); reveal_strlit(" info\n"); }
    string_of(&out)
}

/// Whether two findings are listed together: the same finding.
proof fn lemma_insert_contains(s: Seq<FindingView>, x: FindingView, by_message: bool)
    ensures
        crate::report::collect::insert_sorted(s, x, by_message).len() == s.len() + 1,
        forall|y: FindingView| #[trigger] crate::report::collect::insert_sorted(s, x, by_message).contains(y) <==> (s.contains(y)
            || y == x),
    decreases s.len(),
{
    let r = crate::report::collect::insert_sorted(s, x, by_message);
    if s.len() == 0 {
        assert(r =~= seq![x]);
        assert forall|y: FindingView| r.contains(y) <==> (s.contains(y) || y == x) by {
            if r.contains(y) {
                let k = choose|k: int| 0 <= k < r.len() && r[k] == y;
                assert(k == 0);
                assert(r[0] == x);
            }
            if y == x {
                assert(r[0] == x);
            }
            if s.contains(y) {
                let k = choose|k: int| 0 <= k < s.len() && s[k] == y;
            }
        }
    } else if crate::report::collect::key_le(s.last(), x, by_message) {
        assert(r == s.push(x));
        assert forall|y: FindingView| r.contains(y) <==> (s.contains(y) || y == x) by {
            if r.contains(y) {
                let k = choose|k: int| 0 <= k < r.len() && r[k] == y;
                if k < s.len() {
                    assert(s[k] == y);
                }
            }
            if s.contains(y) {
                let k = choose|k: int| 0 <= k < s.len() && s[k] == y;
                assert(r[k] == y);
            }
            if y == x {
                assert(r[s.len() as int] == x);
            }
        }
    } else {
        let d = s.drop_last();
        lemma_insert_contains(d, x, by_message);
        let m = crate::report::collect::insert_sorted(d, x, by_message);
        assert(r == m.push(s.last()));
        assert forall|y: FindingView| r.contains(y) <==> (s.contains(y) || y == x) by {
            if r.contains(y) {
                let k = choose|k: int| 0 <= k < r.len() && r[k] == y;
                if k < m.len() {
                    assert(m[k] == y);
                    assert(m.contains(y));
                    if d.contains(y) {
                        let j = choose|j: int| 0 <= j < d.len() && d[j] == y;
                        assert(s[j] == y);
                    }
                } else {
                    assert(s[s.len() - 1] == y);
                }
            }
            if s.contains(y) {
                let k = choose|k: int| 0 <= k < s.len() && s[k] == y;
                if k < d.len() {
                    assert(d[k] == y);
                    assert(m.contains(y));
                    let j = choose|j: int| 0 <= j < m.len() && m[j] == y;
                    assert(r[j] == y);
                } else {
                    assert(r[m.len() as int] == y);
                }
            }
            if y == x {
                assert(m.contains(x));
                let j = choose|j: int| 0 <= j < m.len() && m[j] == x;
                assert(r[j] == x);
            }
        }
    }
}

/// Sorting keeps the findings and their number.
proof fn lemma_sort_contains(s: Seq<FindingView>, by_message: bool)
    ensures
        sort_findings(s, by_message).len() == s.len(),
        forall|y: FindingView| #[trigger] sort_findings(s, by_message).contains(y) <==> s.contains(y),
    decreases s.len(),
{
    if s.len() > 0 {
        let d = s.drop_last();
        lemma_sort_contains(d, by_message);
        lemma_insert_contains(sort_findings(d, by_message), s.last(), by_message);
        assert forall|y: FindingView| #[trigger] sort_findings(s, by_message).contains(y) <==> s.contains(y) by {
            if s.contains(y) && y != s.last() {
                let k = choose|k: int| 0 <= k < s.len() && s[k] == y;
                assert(k < d.len());
                assert(d[k] == y);
            }
            if d.contains(y) {
                let k = choose|k: int| 0 <= k < d.len() && d[k] == y;
                assert(s[k] == y);
            }
            if y == s.last() {
                assert(s[s.len() - 1] == y);
            }
        }
    }
}

/// The text report lists the errors, the warnings exactly when `warnings`
/// is set and the info findings exactly when `info` is set, each flag
/// independent of the other: the text opens with the lines of findings that
/// are exactly those, as many as they are, before the counts line.
pub proof fn law_report_lists_what_was_asked(r: Report, warnings: bool, info: bool)
    ensures
        exists|s: Seq<FindingView>|
            #![trigger lines_text(s)]
            {
                &&& report_text_of(r, warnings, info).len() >= lines_text(s).len()
                &&& report_text_of(r, warnings, info).take(lines_text(s).len() as int) == lines_text(s)
                &&& s.len() == r.errors@.len() + (if warnings { r.warnings@.len() } else { 0 }) + (if info {
                    r.info@.len()
                } else {
                    0
                })
                &&& forall|y: FindingView| #[trigger] s.contains(y) <==> (views(r.errors@).contains(y) || (warnings
                    && views(r.warnings@).contains(y)) || (info && views(r.info@).contains(y)))
            },
{
    let l = listed(r, warnings, info);
    let s = sort_findings(l, false);
    lemma_sort_contains(l, false);
    let e = views(r.errors@);
    let w: Seq<FindingView> = if warnings { views(r.warnings@) } else { Seq::empty() };
    let i: Seq<FindingView> = if info { views(r.info@) } else { Seq::empty() };
    assert(l == e + w + i);
    assert forall|y: FindingView| #[trigger] l.contains(y) <==> (e.contains(y) || (warnings && views(r.warnings@).contains(y))
        || (info && views(r.info@).contains(y))) by {
        if l.contains(y) {
            let k = choose|k: int| 0 <= k < l.len() && l[k] == y;
            if k < e.len() {
                assert(e[k] == y);
            } else if k < e.len() + w.len() {
                assert(w[k - e.len()] == y);
            } else {
                assert(i[k - e.len() - w.len()] == y);
            }
        }
        if e.contains(y) {
            let k = choose|k: int| 0 <= k < e.len() && e[k] == y;
            assert(l[k] == y);
        }
        if warnings && views(r.warnings@).contains(y) {
            let k = choose|k: int| 0 <= k < w.len() && w[k] == y;
            assert(l[e.len() + k] == y);
        }
        if info && views(r.info@).contains(y) {
            let k = choose|k: int| 0 <= k < i.len() && i[k] == y;
            assert(l[e.len() + w.len() + k] == y);
        }
    }
    let t = report_text_of(r, warnings, info);
    assert(t.take(lines_text(s).len() as int) =~= lines_text(s));
}

} // verus!
