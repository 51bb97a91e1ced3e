//! `Report`: the findings of a run, ordered.

use vstd::prelude::*;

use crate::report::finding::{Finding, FindingView, Severity};
use crate::json::{copy_string, lemma_array_model, lemma_object_model, members, model, models, Json, JsonModel};
use crate::text::{append_decimal, decimal, lemma_seq_lt_total, lemma_seq_lt_transitive, seq_lt, str_lt, string_of};

verus! {

/// The views of a list of findings.
pub open spec fn views(s: Seq<Finding>) -> Seq<FindingView> {
    s.map_values(|f: Finding| f@)
}

/// `a` before `b` as lines: `None` first, then by number.
pub open spec fn line_lt(a: Option<usize>, b: Option<usize>) -> bool {
    match (a, b) {
        (None, Some(_)) => true,
        (Some(x), Some(y)) => x < y,
        _ => false,
    }
}

/// `a` orders no later than `b` by path then line, and then by message when
/// `by_message`.
pub open spec fn key_le(a: FindingView, b: FindingView, by_message: bool) -> bool {
    ||| seq_lt(a.path, b.path)
    ||| a.path == b.path && line_lt(a.line, b.line)
    ||| a.path == b.path && a.line == b.line && (!by_message || !seq_lt(b.message, a.message))
}

/// `s` with `x` inserted after every element that orders no later than it
/// (the step of a stable insertion sort on a sorted `s`).
pub open spec fn insert_sorted(s: Seq<FindingView>, x: FindingView, by_message: bool) -> Seq<FindingView>
    decreases s.len(),
{
    if s.len() == 0 {
        seq![x]
    } else if key_le(s.last(), x, by_message) {
        s.push(x)
    } else {
        insert_sorted(s.drop_last(), x, by_message).push(s.last())
    }
}

/// The stable sort of `s` by `key_le`.
pub open spec fn sort_findings(s: Seq<FindingView>, by_message: bool) -> Seq<FindingView>
    decreases s.len(),
{
    if s.len() == 0 {
        s
    } else {
        insert_sorted(sort_findings(s.drop_last(), by_message), s.last(), by_message)
    }
}

/// `s` without repeats: each element where it first occurs.
pub open spec fn dedup_seq(s: Seq<FindingView>) -> Seq<FindingView>
    decreases s.len(),
{
    if s.len() == 0 {
        s
    } else if s.drop_last().contains(s.last()) {
        dedup_seq(s.drop_last())
    } else {
        dedup_seq(s.drop_last()).push(s.last())
    }
}

/// A list ordered as `finish` orders it: sorted by path, line, message, and
/// without repeats.
pub open spec fn finished(s: Seq<FindingView>) -> Seq<FindingView> {
    dedup_seq(sort_findings(s, true))
}

proof fn lemma_insert_at(s: Seq<FindingView>, x: FindingView, by_message: bool, j: int)
    requires
        0 <= j <= s.len(),
        j == 0 || key_le(s[j - 1], x, by_message),
        forall|k: int| j <= k < s.len() ==> !key_le(#[trigger] s[k], x, by_message),
    ensures
        insert_sorted(s, x, by_message) == s.take(j).push(x) + s.skip(j),
    decreases s.len(),
{
    if s.len() == j {
        assert(s.take(j) == s);
        assert(s.skip(j) =~= Seq::<FindingView>::empty());
        if j > 0 {
            assert(s.last() == s[j - 1]);
        }
    } else {
        assert(!key_le(s[s.len() - 1], x, by_message));
        let d = s.drop_last();
        assert forall|k: int| j <= k < d.len() implies !key_le(#[trigger] d[k], x, by_message) by {
            assert(d[k] == s[k]);
        }
        lemma_insert_at(d, x, by_message, j);
        assert(d.take(j) == s.take(j));
        assert(d.skip(j).push(s.last()) =~= s.skip(j));
        assert((d.take(j).push(x) + d.skip(j)).push(s.last()) =~= d.take(j).push(x) + d.skip(j).push(s.last()));
    }
}

/// Deduplication keeps exactly the elements of `s`.
proof fn lemma_dedup_contains(s: Seq<FindingView>)
    ensures
        forall|y: FindingView| #[trigger] dedup_seq(s).contains(y) <==> s.contains(y),
    decreases s.len(),
{
    if s.len() > 0 {
        let d = s.drop_last();
        lemma_dedup_contains(d);
        let r = dedup_seq(s);
        let t = dedup_seq(d);
        assert forall|y: FindingView| r.contains(y) <==> s.contains(y) by {
            if s.contains(y) {
                let k = choose|k: int| 0 <= k < s.len() && s[k] == y;
                if k < s.len() - 1 {
                    assert(d[k] == y);
                    assert(d.contains(y));
                    assert(t.contains(y));
                    if !d.contains(s.last()) {
                        let m = choose|m: int| 0 <= m < t.len() && t[m] == y;
                        assert(r[m] == y);
                    }
                } else if d.contains(s.last()) {
                    assert(t.contains(y));
                } else {
                    assert(r[r.len() - 1] == y);
                }
            }
            if r.contains(y) {
                let k = choose|k: int| 0 <= k < r.len() && r[k] == y;
                if d.contains(s.last()) {
                    assert(t.contains(y));
                    let m = choose|m: int| 0 <= m < d.len() && d[m] == y;
                    assert(s[m] == y);
                } else if k < t.len() {
                    assert(t[k] == y);
                    assert(t.contains(y));
                    let m = choose|m: int| 0 <= m < d.len() && d[m] == y;
                    assert(s[m] == y);
                } else {
                    assert(s[s.len() - 1] == y);
                }
            }
        }
    }
}

/// Whether `a` orders no later than `b`.
fn finding_le(a: &Finding, b: &Finding, by_message: bool) -> (r: bool)
    ensures
        r == key_le(a@, b@, by_message),
{
    if str_lt(a.path.as_str(), b.path.as_str()) {
        return true;
    }
    if a.path != b.path {
        return false;
    }
    let lt = match (a.line, b.line) {
        (None, Some(_)) => true,
        (Some(x), Some(y)) => x < y,
        _ => false,
    };
    if lt {
        return true;
    }
    let same_line = match (a.line, b.line) {
        (None, None) => true,
        (Some(x), Some(y)) => x == y,
        _ => false,
    };
    same_line && (!by_message || !str_lt(b.message.as_str(), a.message.as_str()))
}

/// Insert `x` into the sorted `out` after every element that orders no
/// later than it.
fn insert_finding(out: &mut Vec<Finding>, x: Finding, by_message: bool)
    ensures
        views(final(out)@) == insert_sorted(views(old(out)@), x@, by_message),
{
    let mut j = out.len();
    while j > 0 && !finding_le(&out[j - 1], &x, by_message)
        invariant
            j <= out.len(),
            forall|k: int| j <= k < out.len() ==> !key_le(#[trigger] out@[k]@, x@, by_message),
        decreases j,
    {
        j = j - 1;
    }
    let ghost s = views(out@);
    proof {
        assert forall|k: int| j <= k < s.len() implies !key_le(#[trigger] s[k], x@, by_message) by {
            assert(s[k] == out@[k]@);
        }
        lemma_insert_at(s, x@, by_message, j as int);
    }
    out.insert(j, x);
    assert(views(out@) =~= s.take(j as int).push(x@) + s.skip(j as int));
}

/// The findings in stable order of path, line and, when `by_message`,
/// message.
pub fn sort_by_key(v: Vec<Finding>, by_message: bool) -> (out: Vec<Finding>)
    ensures
        views(out@) == sort_findings(views(v@), by_message),
{
    let ghost orig = views(v@);
    let mut rest = v;
    let mut out: Vec<Finding> = Vec::new();
    let ghost mut k: int = 0;
    assert(orig.take(0) =~= Seq::<FindingView>::empty());
    assert(views(rest@) =~= orig.skip(0));
    while rest.len() > 0
        invariant
            0 <= k <= orig.len(),
            k + rest@.len() == orig.len(),
            views(rest@) == orig.skip(k as int),
            views(out@) == sort_findings(orig.take(k as int), by_message),
        decreases rest.len(),
    {
        let ghost before = rest@;
        assert(views(before).len() == before.len());
        assert(orig.skip(k)[0] == orig[k]);
        assert(views(before)[0] == before[0]@);
        let x = rest.remove(0);
        assert(x@ == orig[k as int]);
        assert forall|i: int| 0 <= i < rest@.len() implies views(rest@)[i] == orig.skip(k + 1)[i] by {
            assert(rest@[i] == before[i + 1]);
            assert(views(before)[i + 1] == before[i + 1]@);
        }
        assert(views(rest@) =~= orig.skip(k + 1));
        insert_finding(&mut out, x, by_message);
        assert(orig.take(k + 1).drop_last() =~= orig.take(k as int));
        proof { k = k + 1; }
    }
    assert(orig.take(k as int) =~= orig);
    out
}

/// Whether `out` holds a finding equal to `x`.
fn holds(out: &Vec<Finding>, x: &Finding) -> (r: bool)
    ensures
        r == views(out@).contains(x@),
{
    let mut i: usize = 0;
    while i < out.len()
        invariant
            i <= out.len(),
            forall|j: int| 0 <= j < i ==> views(out@)[j] != x@,
        decreases out.len() - i,
    {
        if out[i].same(x) {
            assert(views(out@)[i as int] == x@);
            return true;
        }
        i = i + 1;
    }
    false
}

/// `v` without repeats: each finding where it first occurs.
pub fn dedup_findings(v: Vec<Finding>) -> (out: Vec<Finding>)
    ensures
        views(out@) == dedup_seq(views(v@)),
{
    let ghost orig = views(v@);
    let mut out: Vec<Finding> = Vec::new();
    let mut k: usize = 0;
    assert(orig.take(0) =~= Seq::<FindingView>::empty());
    while k < v.len()
        invariant
            k <= v.len(),
            orig == views(v@),
            views(out@) == dedup_seq(orig.take(k as int)),
        decreases v.len() - k,
    {
        let ghost t = orig.take(k + 1);
        assert(t.drop_last() =~= orig.take(k as int));
        assert(t.last() == v@[k as int]@);
        proof { lemma_dedup_contains(orig.take(k as int)); }
        if !holds(&out, &v[k]) {
            let ghost before = out@;
            out.push(v[k].duplicate());
            assert(views(out@) =~= views(before).push(v@[k as int]@));
        }
        k = k + 1;
    }
    assert(orig.take(k as int) =~= orig);
    out
}

/// Errors, warnings and info.
#[derive(Debug, Clone)]
pub struct Report {
    /// The errors, ordered by path then line after `finish`.
    pub errors: Vec<Finding>,
    /// The warnings, ordered likewise.
    pub warnings: Vec<Finding>,
    /// The info findings, ordered likewise.
    pub info: Vec<Finding>,
}

impl Report {
    /// A report with no findings.
    pub fn new() -> (r: Self)
        ensures
            r.errors@.len() == 0,
            r.warnings@.len() == 0,
            r.info@.len() == 0,
    {
        Report { errors: Vec::new(), warnings: Vec::new(), info: Vec::new() }
    }

    /// Add a finding to the list its severity selects.
    pub fn push(&mut self, finding: Finding)
        ensures
            finding.severity == Severity::Error ==> final(self).errors@ == old(self).errors@.push(finding)
                && final(self).warnings@ == old(self).warnings@ && final(self).info@ == old(self).info@,
            finding.severity == Severity::Warning ==> final(self).warnings@ == old(self).warnings@.push(finding)
                && final(self).errors@ == old(self).errors@ && final(self).info@ == old(self).info@,
            finding.severity == Severity::Info ==> final(self).info@ == old(self).info@.push(finding)
                && final(self).errors@ == old(self).errors@ && final(self).warnings@ == old(self).warnings@,
    {
        match finding.severity {
            Severity::Error => self.errors.push(finding),
            Severity::Warning => self.warnings.push(finding),
            Severity::Info => self.info.push(finding),
        }
    }

    /// Add every finding, in order.
    pub fn extend(&mut self, findings: Vec<Finding>)
        ensures
            final(self).errors@ == old(self).errors@ + findings@.filter(|f: Finding| f.severity == Severity::Error),
            final(self).warnings@ == old(self).warnings@ + findings@.filter(|f: Finding| f.severity == Severity::Warning),
            final(self).info@ == old(self).info@ + findings@.filter(|f: Finding| f.severity == Severity::Info),
    {
        let ghost all = findings@;
        let ghost e0 = self.errors@;
        let ghost w0 = self.warnings@;
        let ghost i0 = self.info@;
        let mut rest = findings;
        let ghost mut k: int = 0;
        assert(all.take(0) =~= Seq::<Finding>::empty());
        assert(rest@ =~= all.skip(0));
        while rest.len() > 0
            invariant
                0 <= k <= all.len(),
                k + rest@.len() == all.len(),
                rest@ == all.skip(k as int),
                self.errors@ == e0 + all.take(k as int).filter(|f: Finding| f.severity == Severity::Error),
                self.warnings@ == w0 + all.take(k as int).filter(|f: Finding| f.severity == Severity::Warning),
                self.info@ == i0 + all.take(k as int).filter(|f: Finding| f.severity == Severity::Info),
            decreases rest.len(),
        {
            assert(all.skip(k)[0] == all[k]);
            let f = rest.remove(0);
            assert(f == all[k as int]);
            assert(rest@ =~= all.skip(k + 1));
            let ghost t = all.take(k + 1);
            assert(t.drop_last() =~= all.take(k as int));
            reveal_with_fuel(Seq::filter, 1);
            self.push(f);
            assert(self.errors@ =~= e0 + t.filter(|f: Finding| f.severity == Severity::Error));
            assert(self.warnings@ =~= w0 + t.filter(|f: Finding| f.severity == Severity::Warning));
            assert(self.info@ =~= i0 + t.filter(|f: Finding| f.severity == Severity::Info));
            proof { k = k + 1; }
        }
        assert(all.take(k as int) =~= all);
    }

    /// Order findings by path, line then message, and remove duplicates.
    pub fn finish(self) -> (r: Self)
        ensures
            views(r.errors@) == finished(views(self.errors@)),
            views(r.warnings@) == finished(views(self.warnings@)),
            views(r.info@) == finished(views(self.info@)),
    {
        let Report { errors, warnings, info } = self;
        Report {
            errors: dedup_findings(sort_by_key(errors, true)),
            warnings: dedup_findings(sort_by_key(warnings, true)),
            info: dedup_findings(sort_by_key(info, true)),
        }
    }

    /// Whether the run found an error.
    pub fn has_errors(&self) -> (r: bool)
        ensures
            r == (self.errors@.len() > 0),
    {
        self.errors.len() > 0
    }
}

/// Whether a list is ordered as `finish` leaves it: each finding orders no
/// later than every one after it, by path, line and message, and no finding
/// occurs twice.
pub open spec fn ordered(f: Seq<FindingView>) -> bool {
    &&& forall|i: int, j: int| 0 <= i < j < f.len() ==> key_le(#[trigger] f[i], #[trigger] f[j], true)
    &&& forall|i: int, j: int| 0 <= i < j < f.len() ==> #[trigger] f[i] != #[trigger] f[j]
}

/// Whether a list orders each finding no later than the next.
pub open spec fn sorted(f: Seq<FindingView>) -> bool {
    forall|i: int| 0 <= i < f.len() - 1 ==> key_le(#[trigger] f[i], f[i + 1], true)
}

/// Of two findings, one orders no later than the other.
proof fn lemma_key_le_total(a: FindingView, b: FindingView)
    ensures
        key_le(a, b, true) || key_le(b, a, true),
{
    lemma_seq_lt_total(a.path, b.path);
    lemma_seq_lt_total(a.message, b.message);
}

/// Inserting into a sorted list keeps it sorted and adds just the one
/// finding.
proof fn lemma_insert_sorted(s: Seq<FindingView>, x: FindingView)
    requires
        sorted(s),
    ensures
        sorted(insert_sorted(s, x, true)),
        forall|y: FindingView| #[trigger] insert_sorted(s, x, true).contains(y) <==> (s.contains(y) || y == x),
    decreases s.len(),
{
    let r = insert_sorted(s, x, true);
    if s.len() == 0 {
        assert(r =~= seq![x]);
        assert forall|y: FindingView| r.contains(y) <==> (s.contains(y) || y == x) by {
            if r.contains(y) {
                assert(r[0] == x);
            }
            if y == x {
                assert(r[0] == y);
            }
        }
    } else if key_le(s.last(), x, true) {
        assert(r == s.push(x));
        assert forall|i: int| 0 <= i < r.len() - 1 implies key_le(#[trigger] r[i], r[i + 1], true) by {
            if i < s.len() - 1 {
                assert(r[i] == s[i] && r[i + 1] == s[i + 1]);
            }
        }
        assert forall|y: FindingView| r.contains(y) <==> (s.contains(y) || y == x) by {
            if r.contains(y) {
                let k = choose|k: int| 0 <= k < r.len() && r[k] == y;
                if k < s.len() {
                    assert(s[k] == y);
                }
            }
            if s.contains(y) {
                let k = choose|k: int| 0 <= k < s.len() && s[k] == y;
                assert(r[k] == y);
            }
            if y == x {
                assert(r[s.len() as int] == y);
            }
        }
    } else {
        let d = s.drop_last();
        assert(sorted(d)) by {
            assert forall|i: int| 0 <= i < d.len() - 1 implies key_le(#[trigger] d[i], d[i + 1], true) by {
                assert(d[i] == s[i] && d[i + 1] == s[i + 1]);
            }
        }
        lemma_insert_sorted(d, x);
        let t = insert_sorted(d, x, true);
        assert(r == t.push(s.last()));
        lemma_key_le_total(s.last(), x);
        assert(key_le(t.last(), s.last(), true)) by {
            if d.len() == 0 {
                assert(t =~= seq![x]);
            } else if key_le(d.last(), x, true) {
                assert(t == d.push(x));
            } else {
                assert(t.last() == d.last());
                assert(d.last() == s[s.len() - 2]);
            }
        }
        assert forall|i: int| 0 <= i < r.len() - 1 implies key_le(#[trigger] r[i], r[i + 1], true) by {
            if i < t.len() - 1 {
                assert(r[i] == t[i] && r[i + 1] == t[i + 1]);
            } else {
                assert(r[i] == t.last() && r[i + 1] == s.last());
            }
        }
        assert forall|y: FindingView| r.contains(y) <==> (s.contains(y) || y == x) by {
            if r.contains(y) {
                let k = choose|k: int| 0 <= k < r.len() && r[k] == y;
                if k < t.len() {
                    assert(t[k] == y);
                    assert(t.contains(y));
                    if d.contains(y) {
                        let m = choose|m: int| 0 <= m < d.len() && d[m] == y;
                        assert(s[m] == y);
                    }
                } else {
                    assert(s[s.len() - 1] == y);
                }
            }
            if s.contains(y) {
                let k = choose|k: int| 0 <= k < s.len() && s[k] == y;
                if k < s.len() - 1 {
                    assert(d[k] == y);
                    assert(d.contains(y));
                    assert(t.contains(y));
                    let m = choose|m: int| 0 <= m < t.len() && t[m] == y;
                    assert(r[m] == y);
                } else {
                    assert(r[r.len() - 1] == y);
                }
            }
            if y == x {
                assert(t.contains(y));
                let m = choose|m: int| 0 <= m < t.len() && t[m] == y;
                assert(r[m] == y);
            }
        }
    }
}

/// Sorting gives a sorted list of the same findings.
proof fn lemma_sort_findings(s: Seq<FindingView>)
    ensures
        sorted(sort_findings(s, true)),
        forall|y: FindingView| #[trigger] sort_findings(s, true).contains(y) <==> s.contains(y),
    decreases s.len(),
{
    if s.len() > 0 {
        let d = s.drop_last();
        lemma_sort_findings(d);
        lemma_insert_sorted(sort_findings(d, true), s.last());
        assert forall|y: FindingView| sort_findings(s, true).contains(y) <==> s.contains(y) by {
            if s.contains(y) && y != s.last() {
                let k = choose|k: int| 0 <= k < s.len() && s[k] == y;
                assert(k < s.len() - 1);
                assert(d[k] == y);
                assert(d.contains(y));
            }
            if d.contains(y) {
                let k = choose|k: int| 0 <= k < d.len() && d[k] == y;
                assert(s[k] == y);
            }
            if y == s.last() {
                assert(s[s.len() - 1] == y);
            }
        }
    }
}

/// Ordering by path, line and message is transitive.
proof fn lemma_key_le_transitive(a: FindingView, b: FindingView, c: FindingView)
    requires
        key_le(a, b, true),
        key_le(b, c, true),
    ensures
        key_le(a, c, true),
{
    if seq_lt(a.path, b.path) && seq_lt(b.path, c.path) {
        lemma_seq_lt_transitive(a.path, b.path, c.path);
    }
    lemma_seq_lt_total(a.message, b.message);
    lemma_seq_lt_total(b.message, c.message);
    lemma_seq_lt_total(a.message, c.message);
    if seq_lt(a.message, b.message) && seq_lt(b.message, c.message) {
        lemma_seq_lt_transitive(a.message, b.message, c.message);
    }
}

/// A list that orders each finding no later than the next orders each no
/// later than every one after it.
proof fn lemma_sorted_pairwise(s: Seq<FindingView>)
    requires
        sorted(s),
    ensures
        forall|i: int, j: int| 0 <= i < j < s.len() ==> key_le(#[trigger] s[i], #[trigger] s[j], true),
    decreases s.len(),
{
    if s.len() > 1 {
        let d = s.drop_last();
        assert(sorted(d)) by {
            assert forall|i: int| 0 <= i < d.len() - 1 implies key_le(#[trigger] d[i], d[i + 1], true) by {
                assert(d[i] == s[i] && d[i + 1] == s[i + 1]);
            }
        }
        lemma_sorted_pairwise(d);
        assert forall|i: int, j: int| 0 <= i < j < s.len() implies key_le(#[trigger] s[i], #[trigger] s[j], true) by {
            if j < s.len() - 1 {
                assert(d[i] == s[i] && d[j] == s[j]);
            } else if i < s.len() - 2 {
                assert(d[i] == s[i] && d[s.len() - 2] == s[s.len() - 2]);
                assert(key_le(s[s.len() - 2], s[s.len() - 1], true));
                lemma_key_le_transitive(s[i], s[s.len() - 2], s[s.len() - 1]);
            }
        }
    }
}

/// Deduplicating a list whose findings are ordered pairwise keeps them
/// ordered, without repeats.
proof fn lemma_dedup_ordered(s: Seq<FindingView>)
    requires
        forall|i: int, j: int| 0 <= i < j < s.len() ==> key_le(#[trigger] s[i], #[trigger] s[j], true),
    ensures
        ordered(dedup_seq(s)),
    decreases s.len(),
{
    if s.len() > 0 {
        let d = s.drop_last();
        assert forall|i: int, j: int| 0 <= i < j < d.len() implies key_le(#[trigger] d[i], #[trigger] d[j], true) by {
            assert(d[i] == s[i] && d[j] == s[j]);
        }
        lemma_dedup_ordered(d);
        lemma_dedup_contains(d);
        let t = dedup_seq(d);
        if !d.contains(s.last()) {
            let r = t.push(s.last());
            assert forall|i: int, j: int| 0 <= i < j < r.len() implies key_le(#[trigger] r[i], #[trigger] r[j], true)
                && r[i] != r[j] by {
                if j < t.len() {
                    assert(r[i] == t[i] && r[j] == t[j]);
                } else {
                    assert(r[i] == t[i]);
                    assert(t.contains(t[i]));
                    let m = choose|m: int| 0 <= m < d.len() && d[m] == t[i];
                    assert(s[m] == t[i]);
                    assert(r[j] == s[s.len() - 1]);
                    assert(d.contains(t[i]));
                }
            }
        }
    }
}

/// `finish` leaves each list ordered by path, then line, then message,
/// with no finding twice, and with exactly the findings it was given.
pub proof fn law_finish_orders_and_dedups(s: Seq<FindingView>)
    ensures
        ordered(finished(s)),
        forall|y: FindingView| #[trigger] finished(s).contains(y) <==> s.contains(y),
{
    lemma_sort_findings(s);
    lemma_sorted_pairwise(sort_findings(s, true));
    lemma_dedup_ordered(sort_findings(s, true));
    lemma_dedup_contains(sort_findings(s, true));
}

/// A report holds an error exactly when one of the findings it was given
/// is an error, before `finish` and after it: `has_errors` after `extend`
/// with `fs` (from an empty report) and after `finish` tells whether `fs`
/// holds an error.
pub proof fn law_has_errors(fs: Seq<Finding>)
    ensures
        fs.filter(|f: Finding| f.severity == Severity::Error).len() > 0 <==> exists|i: int|
            0 <= i < fs.len() && #[trigger] fs[i].severity == Severity::Error,
        finished(views(fs.filter(|f: Finding| f.severity == Severity::Error))).len() > 0 <==> exists|i: int|
            0 <= i < fs.len() && #[trigger] fs[i].severity == Severity::Error,
{
    broadcast use vstd::seq_lib::group_filter_ensures;
    let pred = |f: Finding| f.severity == Severity::Error;
    let e = fs.filter(pred);
    let v = views(e);
    law_finish_orders_and_dedups(v);
    if exists|i: int| 0 <= i < fs.len() && #[trigger] fs[i].severity == Severity::Error {
        let i = choose|i: int| 0 <= i < fs.len() && #[trigger] fs[i].severity == Severity::Error;
        assert(pred(fs[i]));
        assert(e.contains(fs[i]));
        let k = choose|k: int| 0 <= k < e.len() && e[k] == fs[i];
        assert(v[k] == e[k]@);
        assert(v.contains(v[k]));
        assert(finished(v).contains(v[k]));
    }
    if e.len() > 0 {
        assert(pred(e[0]));
        assert(e.contains(e[0]));
        fs.lemma_filter_contains_rev(pred, e[0]);
        let j = choose|j: int| 0 <= j < fs.len() && fs[j] == e[0];
        assert(fs[j].severity == Severity::Error);
    }
    if finished(v).len() > 0 {
        assert(finished(v).contains(finished(v)[0]));
        assert(v.contains(finished(v)[0]));
        assert(e.len() > 0);
        assert(pred(e[0]));
        assert(e.contains(e[0]));
        fs.lemma_filter_contains_rev(pred, e[0]);
        let j = choose|j: int| 0 <= j < fs.len() && fs[j] == e[0];
        assert(fs[j].severity == Severity::Error);
    }
}

/// A finding as a JSON object: `path`, `line` when there is one,
/// `message`, and `authority` when it is not empty.
pub open spec fn entry_json(f: FindingView) -> JsonModel {
    JsonModel::Object(
        seq![("path"@, JsonModel::Str(f.path))] + match f.line {
            Some(n) => seq![("line"@, JsonModel::Number(decimal(n as nat)))],
            None => Seq::empty(),
        } + seq![("message"@, JsonModel::Str(f.message))] + if f.authority.len() > 0 {
            seq![("authority"@, JsonModel::Str(f.authority))]
        } else {
            Seq::empty()
        },
    )
}

/// A report as a JSON object of three lists: `errors`, `warnings`, `info`.
pub open spec fn report_json(e: Seq<FindingView>, w: Seq<FindingView>, i: Seq<FindingView>) -> JsonModel {
    JsonModel::Object(
        seq![
            ("errors"@, JsonModel::Array(e.map_values(|f: FindingView| entry_json(f)))),
            ("warnings"@, JsonModel::Array(w.map_values(|f: FindingView| entry_json(f)))),
            ("info"@, JsonModel::Array(i.map_values(|f: FindingView| entry_json(f)))),
        ],
    )
}

/// A finding as a JSON object.
fn finding_json(f: &Finding) -> (j: Json)
    ensures
        model(j) == entry_json(f@),
{
    proof {
        reveal_strlit("path");
        reveal_strlit("line");
        reveal_strlit("message");
        reveal_strlit("authority");
    }
    let mut m: Vec<(String, Json)> = Vec::new();
    m.push(("path".to_string(), Json::Str(copy_string(&f.path))));
    match f.line {
        Some(n) => {
            let mut digits: Vec<char> = Vec::new();
            append_decimal(&mut digits, n);
            assert(digits@ =~= decimal(n as nat));
            m.push(("line".to_string(), Json::Number(string_of(&digits))));
        },
        None => {},
    }
    m.push(("message".to_string(), Json::Str(copy_string(&f.message))));
    if !f.authority.as_str().is_empty() {
        m.push(("authority".to_string(), Json::Str(copy_string(&f.authority))));
    }
    let j = Json::Object(m);
    proof {
        lemma_object_model(m);
        assert(members(m@) =~= entry_json(f@)->Object_0);
    }
    j
}

/// A list of findings as a JSON array.
fn entries_json(v: &Vec<Finding>) -> (j: Json)
    ensures
        model(j) == JsonModel::Array(views(v@).map_values(|f: FindingView| entry_json(f))),
{
    let mut out: Vec<Json> = Vec::new();
    let mut i: usize = 0;
    while i < v.len()
        invariant
            i <= v@.len(),
            out@.len() == i,
            forall|k: int| 0 <= k < i ==> #[trigger] model(out@[k]) == entry_json(v@[k]@),
        decreases v@.len() - i,
    {
        out.push(finding_json(&v[i]));
        i = i + 1;
    }
    proof {
        lemma_array_model(out);
        assert(models(out@) =~= views(v@).map_values(|f: FindingView| entry_json(f)));
    }
    Json::Array(out)
}

impl Report {
    /// The report as JSON: an object of three lists, `errors`, `warnings`
    /// and `info`, each finding an object of `path`, `line` when there is
    /// one, `message`, and `authority` when it is not empty.
    pub fn to_json(&self) -> (j: Json)
        ensures
            model(j) == report_json(views(self.errors@), views(self.warnings@), views(self.info@)),
    {
        proof {
            reveal_strlit("errors");
            reveal_strlit("warnings");
            reveal_strlit("info");
        }
        let mut m: Vec<(String, Json)> = Vec::new();
        m.push(("errors".to_string(), entries_json(&self.errors)));
        m.push(("warnings".to_string(), entries_json(&self.warnings)));
        m.push(("info".to_string(), entries_json(&self.info)));
        proof {
            lemma_object_model(m);
            assert(members(m@) =~= report_json(views(self.errors@), views(self.warnings@), views(self.info@))->Object_0);
        }
        Json::Object(m)
    }
}

} // verus!
