//! The plan of an install: every write, computed before any is made, and
//! the order in which they are made.

use vstd::prelude::*;

use crate::error::{Error, ErrorView};
use crate::harness::merge::{merge_rendered, ops_model, render_merge, with_parse};
use crate::harness::part::{render_files, rendered_files, Content, Part};
use crate::harness::region::{opt_view, render_region, rendered, Markers};
use crate::harness::state::files_view;
use crate::json::{copy_string, Json};
use crate::smllm::{join, joined_to};
use crate::text::str_eq;

verus! {

/// Everything an install will write, computed before any write.
#[derive(Debug)]
pub struct Plan {
    /// Each file's full new text, in profile order.
    pub files: Vec<(String, String)>,
    /// The external parts to write, by name, in profile order.
    pub externals: Vec<String>,
    /// The record file and its new text, when it changes.
    pub record: Option<(String, String)>,
}

/// The planned files as plain values.
pub open spec fn planned(files: Seq<(String, String)>) -> Seq<(Seq<char>, Seq<char>)> {
    files.map_values(|f: (String, String)| (f.0@, f.1@))
}

/// The index of the first planned file at or after `from` whose path is
/// `path`; the number of files when there is none.
pub open spec fn path_index(files: Seq<(Seq<char>, Seq<char>)>, path: Seq<char>, from: int) -> int
    decreases files.len() - from,
{
    if from < 0 || from >= files.len() {
        files.len() as int
    } else if files[from].0 == path {
        from
    } else {
        path_index(files, path, from + 1)
    }
}

/// The planned text of `path`.
pub open spec fn pending_text(files: Seq<(Seq<char>, Seq<char>)>, path: Seq<char>) -> Option<Seq<char>> {
    let k = path_index(files, path, 0);
    if 0 <= k < files.len() {
        Some(files[k].1)
    } else {
        None
    }
}

/// The planned files with `path` set to `text`: the earlier plan for the
/// path replaced, or the write appended.
pub open spec fn with_file(files: Seq<(Seq<char>, Seq<char>)>, path: Seq<char>, text: Seq<char>) -> Seq<(Seq<char>, Seq<char>)> {
    let k = path_index(files, path, 0);
    if 0 <= k < files.len() {
        files.update(k, (path, text))
    } else {
        files.push((path, text))
    }
}

/// Whether no path is planned twice.
pub open spec fn paths_unique(files: Seq<(Seq<char>, Seq<char>)>) -> bool {
    forall|i: int, j: int| 0 <= i < j < files.len() ==> #[trigger] files[i].0 != #[trigger] files[j].0
}

proof fn lemma_path_index_bounds(files: Seq<(Seq<char>, Seq<char>)>, path: Seq<char>, from: int)
    requires
        0 <= from <= files.len(),
    ensures
        from <= path_index(files, path, from) <= files.len(),
        path_index(files, path, from) < files.len() ==> files[path_index(files, path, from)].0 == path,
        forall|j: int| from <= j < path_index(files, path, from) ==> #[trigger] files[j].0 != path,
    decreases files.len() - from,
{
    if from < files.len() && files[from].0 != path {
        lemma_path_index_bounds(files, path, from + 1);
    }
}

proof fn lemma_path_index_found(files: Seq<(Seq<char>, Seq<char>)>, path: Seq<char>, from: int, k: int)
    requires
        0 <= from <= k <= files.len(),
        k < files.len() ==> files[k].0 == path,
        forall|j: int| from <= j < k ==> #[trigger] files[j].0 != path,
    ensures
        path_index(files, path, from) == k,
    decreases k - from,
{
    if from < k {
        lemma_path_index_found(files, path, from + 1, k);
    }
}

impl Plan {
    /// An empty plan.
    pub fn new() -> (p: Self)
        ensures
            p.files@.len() == 0,
            p.externals@.len() == 0,
            p.record is None,
    {
        Plan { files: Vec::new(), externals: Vec::new(), record: None }
    }

    /// The planned text of `path`, when a part planned one already.
    pub fn pending(&self, path: &str) -> (r: Option<&str>)
        ensures
            match r {
                Some(t) => pending_text(planned(self.files@), path@) == Some(t@),
                None => pending_text(planned(self.files@), path@) is None,
            },
    {
        let ghost fv = planned(self.files@);
        let mut i: usize = 0;
        while i < self.files.len()
            invariant
                i <= self.files@.len(),
                fv == planned(self.files@),
                path_index(fv, path@, 0) == path_index(fv, path@, i as int),
            decreases self.files@.len() - i,
        {
            if str_eq(self.files[i].0.as_str(), path) {
                return Some(self.files[i].1.as_str());
            }
            i = i + 1;
        }
        None
    }

    /// Plans a write, replacing an earlier plan for the same path.
    pub fn set(&mut self, path: String, text: String)
        ensures
            planned(final(self).files@) == with_file(planned(old(self).files@), path@, text@),
            final(self).externals@ == old(self).externals@,
            final(self).record == old(self).record,
    {
        let ghost fv = planned(self.files@);
        proof {
            lemma_path_index_bounds(fv, path@, 0);
        }
        let mut i: usize = 0;
        while i < self.files.len()
            invariant
                i <= self.files@.len(),
                fv == planned(self.files@),
                fv == planned(old(self).files@),
                self.externals@ == old(self).externals@,
                self.record == old(self).record,
                path_index(fv, path@, 0) == path_index(fv, path@, i as int),
            decreases self.files@.len() - i,
        {
            if str_eq(self.files[i].0.as_str(), path.as_str()) {
                self.files.remove(i);
                self.files.insert(i, (path, text));
                assert(planned(self.files@) =~= fv.update(i as int, (path@, text@)));
                return;
            }
            i = i + 1;
        }
        self.files.push((path, text));
        assert(planned(self.files@) =~= fv.push((path@, text@)));
    }
}

/// A write replaces an earlier write to the same path: afterwards the path
/// is pending with the new text, every other path keeps its text, and no
/// path is planned twice when none was.
pub proof fn law_plan_replaces(files: Seq<(Seq<char>, Seq<char>)>, path: Seq<char>, text: Seq<char>, other: Seq<char>)
    requires
        other != path,
    ensures
        pending_text(with_file(files, path, text), path) == Some(text),
        pending_text(with_file(files, path, text), other) == pending_text(files, other),
        paths_unique(files) ==> paths_unique(with_file(files, path, text)),
        with_file(files, path, text).len() <= files.len() + 1,
{
    lemma_path_index_bounds(files, path, 0);
    lemma_path_index_bounds(files, other, 0);
    let k = path_index(files, path, 0);
    let w = with_file(files, path, text);
    assert forall|j: int| 0 <= j < k implies #[trigger] w[j].0 != path by {
        assert(w[j] == files[j]);
    }
    lemma_path_index_found(w, path, 0, k);
    let m = path_index(files, other, 0);
    assert forall|j: int| 0 <= j < m implies #[trigger] w[j].0 != other by {
        if j == k {
        } else {
            assert(w[j] == files[j]);
        }
    }
    if m < files.len() {
        assert(w[m] == files[m]);
        lemma_path_index_found(w, other, 0, m);
    } else {
        if k < files.len() {
            lemma_path_index_found(w, other, 0, m);
        } else {
            assert(w[files.len() as int].0 == path);
            lemma_path_index_found(w, other, 0, files.len() as int + 1);
        }
    }
    if paths_unique(files) {
        assert forall|i: int, j: int| 0 <= i < j < w.len() implies #[trigger] w[i].0 != #[trigger] w[j].0 by {
            if k < files.len() {
                if i != k && j != k {
                    assert(files[i].0 != files[j].0);
                }
            } else {
                if j < files.len() {
                    assert(files[i].0 != files[j].0);
                }
            }
        }
    }
}

/// One write of a plan.
#[derive(Debug)]
pub enum Step {
    /// Write the external part of this name.
    External(String),
    /// Write this text to this path, unless it is already there.
    File(String, String),
}

/// A step as plain values.
pub enum StepView {
    External(Seq<char>),
    File(Seq<char>, Seq<char>),
}

/// A step as plain values.
pub open spec fn step_view(st: Step) -> StepView {
    match st {
        Step::External(n) => StepView::External(n@),
        Step::File(p, t) => StepView::File(p@, t@),
    }
}

/// The steps as plain values.
pub open spec fn steps_view(s: Seq<Step>) -> Seq<StepView> {
    s.map_values(|st: Step| step_view(st))
}

/// The order of a plan's writes: the external parts first (they run other
/// programs, the likeliest to fail, so a failure leaves every file as
/// found), then the files in order, then the record.
pub open spec fn plan_steps(externals: Seq<Seq<char>>, files: Seq<(Seq<char>, Seq<char>)>, record: Option<(Seq<char>, Seq<char>)>) -> Seq<StepView> {
    externals.map_values(|n: Seq<char>| StepView::External(n)) + files.map_values(
        |f: (Seq<char>, Seq<char>)| StepView::File(f.0, f.1),
    ) + match record {
        Some(r) => seq![StepView::File(r.0, r.1)],
        None => Seq::empty(),
    }
}

/// The record of a plan as plain values.
pub open spec fn record_write(r: Option<(String, String)>) -> Option<(Seq<char>, Seq<char>)> {
    match r {
        Some(x) => Some((x.0@, x.1@)),
        None => None,
    }
}

/// The steps that apply a plan, in the order they are to be taken: the
/// external parts first, then the files in order, then the record. The
/// caller stops at the first step that fails.
pub fn apply_plan(plan: &Plan) -> (steps: Vec<Step>)
    ensures
        steps_view(steps@) == plan_steps(
            plan.externals@.map_values(|n: String| n@),
            planned(plan.files@),
            record_write(plan.record),
        ),
{
    let ghost want = plan_steps(plan.externals@.map_values(|n: String| n@), planned(plan.files@), record_write(plan.record));
    let mut steps: Vec<Step> = Vec::new();
    let mut i: usize = 0;
    while i < plan.externals.len()
        invariant
            i <= plan.externals@.len(),
            steps@.len() == i,
            forall|j: int| 0 <= j < i ==> #[trigger] step_view(steps@[j]) == StepView::External(plan.externals@[j]@),
        decreases plan.externals@.len() - i,
    {
        steps.push(Step::External(copy_string(&plan.externals[i])));
        i = i + 1;
    }
    let n = plan.externals.len();
    let mut j: usize = 0;
    while j < plan.files.len()
        invariant
            j <= plan.files@.len(),
            n == plan.externals@.len(),
            steps@.len() == n + j,
            forall|k: int| 0 <= k < n ==> #[trigger] step_view(steps@[k]) == StepView::External(plan.externals@[k]@),
            forall|k: int| n <= k < n + j ==> #[trigger] step_view(steps@[k]) == StepView::File(plan.files@[k - n].0@, plan.files@[k - n].1@),
        decreases plan.files@.len() - j,
    {
        steps.push(Step::File(copy_string(&plan.files[j].0), copy_string(&plan.files[j].1)));
        j = j + 1;
    }
    if let Some((p, t)) = &plan.record {
        steps.push(Step::File(copy_string(p), copy_string(t)));
    }
    proof {
        let e = plan.externals@.map_values(|n: String| n@).map_values(|n: Seq<char>| StepView::External(n));
        let f = planned(plan.files@).map_values(|f: (Seq<char>, Seq<char>)| StepView::File(f.0, f.1));
        assert(e.len() == n);
        assert(f.len() == plan.files@.len());
        assert forall|k: int| 0 <= k < steps@.len() implies #[trigger] steps_view(steps@)[k] == want[k] by {
            if k < n {
                assert(want[k] == e[k]);
            } else if k < n + plan.files@.len() {
                assert(want[k] == f[k - n]);
            }
        }
    }
    assert(steps_view(steps@) =~= want);
    steps
}

/// The text an install plans on for a path: the text a part planned
/// already, else the text on disk (`None` when absent).
pub open spec fn existing_of(files: Seq<(Seq<char>, Seq<char>)>, path: Seq<char>, on_disk: Option<Seq<char>>) -> Option<Seq<char>> {
    match pending_text(files, path) {
        Some(t) => Some(t),
        None => on_disk,
    }
}

/// The text an install plans on for `path`: what the plan holds for it
/// already, else `on_disk`, the file's text (`None` when absent).
pub fn existing_text(plan: &Plan, path: &str, on_disk: Option<String>) -> (r: Option<String>)
    ensures
        opt_view_string(r) == existing_of(planned(plan.files@), path@, opt_view_string(on_disk)),
{
    match plan.pending(path) {
        Some(t) => Some(t.to_string()),
        None => on_disk,
    }
}

/// The plain value of an optional string.
pub open spec fn opt_view_string(s: Option<String>) -> Option<Seq<char>> {
    match s {
        Some(x) => Some(x@),
        None => None,
    }
}

/// The planned files with each of `fs` set under `dir`, in order.
pub open spec fn with_files(files: Seq<(Seq<char>, Seq<char>)>, dir: Seq<char>, fs: Seq<(Seq<char>, Seq<char>)>) -> Seq<(Seq<char>, Seq<char>)>
    decreases fs.len(),
{
    if fs.len() == 0 {
        files
    } else {
        let before = with_files(files, dir, fs.drop_last());
        with_file(before, joined_to(dir, fs.last().0), fs.last().1)
    }
}

/// The plan after an install planned the write of a part of content `c`
/// at `path`: a `file` part sets each of its files under `path`; a
/// `region` part sets the file when rendering the block into `existing`
/// changes it; a `merge` part likewise, a refusal when its file does not
/// parse or an operation does not fit; an `external` part is queued by
/// `name`.
pub open spec fn planned_part(
    files: Seq<(Seq<char>, Seq<char>)>,
    externals: Seq<Seq<char>>,
    name: Seq<char>,
    c: Content,
    path: Seq<char>,
    existing: Option<Seq<char>>,
    open: Seq<char>,
    close: Seq<char>,
    display: Seq<char>,
) -> Result<(Seq<(Seq<char>, Seq<char>)>, Seq<Seq<char>>), ErrorView> {
    let text = existing;
    match c {
        Content::Files(_) => Ok((with_files(files, path, rendered_files(c)), externals)),
        Content::Block(b) => match rendered(text, b@, open, close) {
            Some(t) => Ok((with_file(files, path, t), externals)),
            None => Ok((files, externals)),
        },
        Content::Merge(ops) => {
            match merge_rendered(with_parse(existing), ops_model(ops@), display) {
                Ok(Some(t)) => Ok((with_file(files, path, t), externals)),
                Ok(None) => Ok((files, externals)),
                Err(e) => Err(e),
            }
        },
        Content::External(_) => Ok((files, externals.push(name))),
    }
}

/// Plans the write of `part` at `path` (the file, or the directory of a
/// `file` part), from `existing`: the text the install plans on for it
/// (see `existing_text`). `display` names the file in a refusal.
pub fn plan_part(
    plan: &mut Plan,
    part: &Part,
    path: &str,
    existing: Option<String>,
    markers: &Markers,
    display: &str,
) -> (r: Result<(), Error>)
    ensures
        match planned_part(
            planned(old(plan).files@),
            strings_of(old(plan).externals@),
            part.name@,
            part.content,
            path@,
            opt_view_string(existing),
            markers.open@,
            markers.close@,
            display@,
        ) {
            Ok((fs, xs)) => r is Ok && planned(final(plan).files@) == fs && strings_of(final(plan).externals@) == xs,
            Err(e) => r matches Err(x) && x@ == e,
        },
        final(plan).record == old(plan).record,
{
    match &part.content {
        Content::Files(_) => {
            let files = render_files(part);
            let ghost fv = files_view(files@);
            let ghost start = planned(plan.files@);
            let mut i: usize = 0;
            assert(fv.take(0) =~= Seq::<(Seq<char>, Seq<char>)>::empty());
            while i < files.len()
                invariant
                    i <= files@.len(),
                    fv == files_view(files@),
                    fv == rendered_files(part.content),
                    planned(plan.files@) == with_files(start, path@, fv.take(i as int)),
                    strings_of(plan.externals@) == strings_of(old(plan).externals@),
                    start == planned(old(plan).files@),
                    plan.record == old(plan).record,
                decreases files@.len() - i,
            {
                assert(fv.take(i + 1).drop_last() =~= fv.take(i as int));
                let target = join(path, files[i].0.as_str());
                plan.set(target, copy_string(&files[i].1));
                i = i + 1;
            }
            assert(fv.take(files@.len() as int) =~= fv);
            Ok(())
        },
        Content::Block(block) => {
            let text = match &existing {
                Some(t) => Some(t.as_str()),
                None => None,
            };
            match render_region(text, block.as_str(), markers) {
                Some(t) => plan.set(path.to_string(), t),
                None => {},
            }
            Ok(())
        },
        Content::Merge(ops) => {
            let out = match &existing {
                Some(t) => render_merge(Some(t.as_str()), ops.as_slice(), display),
                None => render_merge(None, ops.as_slice(), display),
            };
            match out? {
                Some(t) => plan.set(path.to_string(), t),
                None => {},
            }
            Ok(())
        },
        Content::External(_) => {
            let ghost before = plan.externals@;
            plan.externals.push(copy_string(&part.name));
            assert(strings_of(plan.externals@) =~= strings_of(before).push(part.name@));
            Ok(())
        },
    }
}

/// The characters of each string.
pub open spec fn strings_of(v: Seq<String>) -> Seq<Seq<char>> {
    v.map_values(|s: String| s@)
}

} // verus!
