//! Profiles and parts: data the tool supplies, one profile per harness and
//! scope. The kit embeds no content.

use vstd::prelude::*;

use crate::error::Error;
use crate::harness::merge::{op_value, ops_model, MergeOp};
use crate::harness::state::{files_view, found_view, same_file, state_of, Found, FoundView, State};
use crate::hash::normalise;
use crate::json::{copy_json, copy_string, model, models};
use crate::lines::{split_lines, split_lines_exec, lines_view, trim, trimmed};
use crate::text::{chars_of, crlf_to_lf, equal_chars, str_eq};

verus! {

/// A part the kit does not write as a file: the tool reads and writes it
/// itself, e.g. by running another program.
pub trait ExternalPart {
    /// Where the part lives, as the report shows it.
    fn location(&self) -> String;
    /// The content the tool wants, compared with what `observe` returns
    /// (line endings aside) and hashed into the record.
    fn expected(&self) -> String;
    /// What is there now; `None` when the part is absent.
    fn observe(&self) -> Result<Option<String>, Error>;
    /// Make the part hold the expected content.
    fn write(&self) -> Result<(), Error>;
}

/// What the kit knows of an external part: where it lives and the content
/// the tool wants there.
#[derive(Debug)]
pub struct ExternalContent {
    /// Where the part lives, as the report shows it.
    pub location: String,
    /// The content the tool wants.
    pub expected: String,
}

/// A part's content, in the shape its write kind uses.
#[derive(Debug)]
pub enum Content {
    /// `file` kind: the tool owns these files of a directory, each a path
    /// relative to it and its text. Written with LF line endings.
    Files(Vec<(String, String)>),
    /// `region` kind: the tool owns one block between its markers in the
    /// user's file. The block, without markers.
    Block(String),
    /// `merge` kind: the tool owns entries in the user's JSON file.
    Merge(Vec<MergeOp>),
    /// `external` kind: the tool reads and writes the part itself.
    External(ExternalContent),
}

/// Where a part lives, relative to the scope's root directory.
#[derive(Debug, PartialEq, Eq)]
pub enum Target {
    /// A path the profile fixes, relative to the root, `/`-separated.
    Fixed(String),
    /// The instructions file, chosen by the rule of [`instructions_file`].
    Instructions,
}

/// One part of a profile.
#[derive(Debug)]
pub struct Part {
    /// The name, as `--without` and the report use it.
    pub name: String,
    /// Where it lives. Ignored for [`Content::External`].
    pub target: Target,
    /// The content the tool wants there.
    pub content: Content,
}

/// The content the tool wants for a part, as plain values.
pub open spec fn expected_view(c: Content) -> FoundView {
    match c {
        Content::Files(fs) => FoundView::Files(files_view(fs@)),
        Content::Block(b) => FoundView::Block(b@),
        Content::Merge(ops) => FoundView::Entries(ops_model(ops@).map_values(|op| op_value(op))),
        Content::External(e) => FoundView::Text(e.expected@),
    }
}

/// A copy of a list of files.
fn copy_files(files: &Vec<(String, String)>) -> (out: Vec<(String, String)>)
    ensures
        files_view(out@) == files_view(files@),
{
    let mut out: Vec<(String, String)> = Vec::new();
    let mut i: usize = 0;
    while i < files.len()
        invariant
            i <= files.len(),
            out@.len() == i,
            forall|j: int| 0 <= j < i ==> #[trigger] out@[j].0@ == files@[j].0@ && out@[j].1@ == files@[j].1@,
        decreases files.len() - i,
    {
        out.push((copy_string(&files[i].0), copy_string(&files[i].1)));
        i = i + 1;
    }
    assert(files_view(out@) =~= files_view(files@));
    out
}

impl Part {
    /// A `file` part: `files` (relative path, text) under the directory
    /// `dir`.
    pub fn files(name: &str, dir: &str, files: Vec<(String, String)>) -> (p: Self)
        ensures
            p.name@ == name@,
            p.target matches Target::Fixed(d) && d@ == dir@,
            p.content matches Content::Files(fs) && fs@ == files@,
    {
        Part { name: name.to_string(), target: Target::Fixed(dir.to_string()), content: Content::Files(files) }
    }

    /// A `region` part in the instructions file (`AGENTS.md` or the
    /// harness's own, per [`instructions_file`]).
    pub fn instructions(name: &str, block: &str) -> (p: Self)
        ensures
            p.name@ == name@,
            p.target == Target::Instructions,
            p.content matches Content::Block(b) && b@ == block@,
    {
        Part { name: name.to_string(), target: Target::Instructions, content: Content::Block(block.to_string()) }
    }

    /// A `region` part in a fixed file.
    pub fn region(name: &str, file: &str, block: &str) -> (p: Self)
        ensures
            p.name@ == name@,
            p.target matches Target::Fixed(f) && f@ == file@,
            p.content matches Content::Block(b) && b@ == block@,
    {
        Part { name: name.to_string(), target: Target::Fixed(file.to_string()), content: Content::Block(block.to_string()) }
    }

    /// A `merge` part: `ops` applied to the JSON object in `file`.
    pub fn merge(name: &str, file: &str, ops: Vec<MergeOp>) -> (p: Self)
        ensures
            p.name@ == name@,
            p.target matches Target::Fixed(f) && f@ == file@,
            p.content matches Content::Merge(o) && o@ == ops@,
    {
        Part { name: name.to_string(), target: Target::Fixed(file.to_string()), content: Content::Merge(ops) }
    }

    /// An `external` part: its location is its target.
    pub fn external<E: ExternalPart>(name: &str, part: &E) -> (p: Self)
        ensures
            p.name@ == name@,
            p.content matches Content::External(e) && p.target matches Target::Fixed(t) && t@ == e.location@,
    {
        let location = part.location();
        let expected = part.expected();
        let target = Target::Fixed(copy_string(&location));
        Part { name: name.to_string(), target, content: Content::External(ExternalContent { location, expected }) }
    }
}

/// A harness profile at one scope: its parts in profile order, and the
/// hooks its `hook` command accepts.
#[derive(Debug)]
pub struct Profile {
    /// The harness name, as it is named on the command line.
    pub harness: String,
    /// The parts, in profile order.
    pub parts: Vec<Part>,
    /// The hook names the harness's `hook` command accepts.
    pub hooks: Vec<String>,
}

/// The index of the first part named `name`; the number of parts when
/// there is none.
pub open spec fn part_index(parts: Seq<Part>, name: Seq<char>, from: int) -> int
    decreases parts.len() - from,
{
    if from < 0 || from >= parts.len() {
        parts.len() as int
    } else if parts[from].name@ == name {
        from
    } else {
        part_index(parts, name, from + 1)
    }
}

impl Profile {
    /// The part named `name`.
    pub fn part(&self, name: &str) -> (r: Option<&Part>)
        ensures
            ({
                let k = part_index(self.parts@, name@, 0);
                match r {
                    Some(p) => 0 <= k < self.parts@.len() && *p == self.parts@[k],
                    None => k == self.parts@.len(),
                }
            }),
    {
        let key = name.to_string();
        let mut i: usize = 0;
        while i < self.parts.len()
            invariant
                i <= self.parts@.len(),
                key@ == name@,
                part_index(self.parts@, name@, 0) == part_index(self.parts@, name@, i as int),
            decreases self.parts@.len() - i,
        {
            if self.parts[i].name == key {
                return Some(&self.parts[i]);
            }
            i = i + 1;
        }
        None
    }

    /// Whether `hook` is one of the profile's hooks.
    pub fn has_hook(&self, hook: &str) -> (r: bool)
        ensures
            r == exists|i: int| 0 <= i < self.hooks@.len() && #[trigger] self.hooks@[i]@ == hook@,
    {
        let mut i: usize = 0;
        while i < self.hooks.len()
            invariant
                i <= self.hooks@.len(),
                forall|j: int| 0 <= j < i ==> #[trigger] self.hooks@[j]@ != hook@,
            decreases self.hooks@.len() - i,
        {
            if str_eq(self.hooks[i].as_str(), hook) {
                return true;
            }
            i = i + 1;
        }
        false
    }
}

/// The content the tool wants for `part`.
pub fn expected(part: &Part) -> (f: Found)
    ensures
        found_view(f) == expected_view(part.content),
{
    match &part.content {
        Content::Files(files) => Found::Files(copy_files(files)),
        Content::Block(block) => Found::Block(copy_string(block)),
        Content::Merge(ops) => {
            let mut values = Vec::new();
            let mut i: usize = 0;
            while i < ops.len()
                invariant
                    i <= ops@.len(),
                    values@.len() == i,
                    forall|j: int| 0 <= j < i ==> #[trigger] model(values@[j]) == op_value(ops_model(ops@)[j]),
                decreases ops@.len() - i,
            {
                values.push(copy_json(ops[i].value()));
                i = i + 1;
            }
            assert(models(values@) =~= ops_model(ops@).map_values(|op| op_value(op)));
            Found::Entries(values)
        },
        Content::External(ext) => Found::Text(copy_string(&ext.expected)),
    }
}

/// The files a `file` part writes, with LF line endings, as plain values.
pub open spec fn rendered_files(c: Content) -> Seq<(Seq<char>, Seq<char>)> {
    match c {
        Content::Files(fs) => files_view(fs@).map_values(|f: (Seq<char>, Seq<char>)| (f.0, crlf_to_lf(f.1))),
        _ => Seq::empty(),
    }
}

/// The files a `file` part writes, each with LF line endings; empty for a
/// part of another kind.
pub fn render_files(part: &Part) -> (out: Vec<(String, String)>)
    ensures
        files_view(out@) == rendered_files(part.content),
{
    let mut out: Vec<(String, String)> = Vec::new();
    match &part.content {
        Content::Files(files) => {
            let mut i: usize = 0;
            while i < files.len()
                invariant
                    i <= files.len(),
                    out@.len() == i,
                    forall|j: int| 0 <= j < i ==> #[trigger] out@[j].0@ == files@[j].0@ && out@[j].1@ == crlf_to_lf(files@[j].1@),
                decreases files.len() - i,
            {
                out.push((copy_string(&files[i].0), normalise(files[i].1.as_str())));
                i = i + 1;
            }
            assert(files_view(out@) =~= rendered_files(part.content));
        },
        _ => {
            assert(files_view(out@) =~= Seq::empty());
        },
    }
    out
}

/// Whether an instructions file imports AGENTS.md: one of its lines,
/// trimmed, is `@AGENTS.md`.
pub open spec fn imports_agents(text: Seq<char>) -> bool {
    exists|i: int| 0 <= i < split_lines(text).len() && trim(#[trigger] split_lines(text)[i]) == "@AGENTS.md"@
}

/// The instructions file's name: `AGENTS.md` when it exists and the
/// harness's own file `own` is absent or imports it; otherwise `own`.
pub open spec fn instructions_name(agents_is_file: bool, own: Seq<char>, own_text: Option<Seq<char>>) -> Seq<char> {
    if !agents_is_file {
        own
    } else {
        match own_text {
            None => "AGENTS.md"@,
            Some(t) => if imports_agents(t) {
                "AGENTS.md"@
            } else {
                own
            },
        }
    }
}

/// The instructions file under a root, from whether `AGENTS.md` is a file
/// there, the name of the harness's own instructions file, and that file's
/// text when it is one: `AGENTS.md` when it exists and the harness's file
/// is absent or has a line `@AGENTS.md`; otherwise the harness's file,
/// created when absent.
pub fn instructions_file(agents_is_file: bool, own: &str, own_text: Option<&str>) -> (r: String)
    ensures
        r@ == instructions_name(agents_is_file, own@, crate::harness::region::opt_view(own_text)),
{
    proof {
        reveal_strlit("AGENTS.md");
    }
    if !agents_is_file {
        return own.to_string();
    }
    let text = match own_text {
        None => return "AGENTS.md".to_string(),
        Some(t) => t,
    };
    let chars = chars_of(text);
    let ls = split_lines_exec(&chars);
    let import = chars_of("@AGENTS.md");
    proof {
        reveal_strlit("@AGENTS.md");
    }
    let mut i: usize = 0;
    while i < ls.len()
        invariant
            i <= ls.len(),
            lines_view(ls@) == split_lines(text@),
            import@ == "@AGENTS.md"@,
            agents_is_file,
            crate::harness::region::opt_view(own_text) == Some(text@),
            forall|j: int| 0 <= j < i ==> trim(#[trigger] split_lines(text@)[j]) != "@AGENTS.md"@,
        decreases ls.len() - i,
    {
        let t = trimmed(&ls[i]);
        assert(split_lines(text@)[i as int] == ls@[i as int]@);
        if equal_chars(&t, &import) {
            proof {
                reveal_strlit("AGENTS.md");
                assert(trim(split_lines(text@)[i as int]) == "@AGENTS.md"@);
            }
            return "AGENTS.md".to_string();
        }
        i = i + 1;
    }
    own.to_string()
}

/// The path a part is written to, relative to the root and `/`-separated,
/// given the instructions file's name; for an external part, its location.
pub open spec fn target_of(p: Part, instructions: Seq<char>) -> Seq<char> {
    match p.content {
        Content::External(e) => e.location@,
        _ => match p.target {
            Target::Fixed(f) => f@,
            Target::Instructions => instructions,
        },
    }
}

/// The path `part` is written to, relative to the root and `/`-separated,
/// `instructions` being the instructions file's name there; for an external
/// part, its location.
pub fn target_path(part: &Part, instructions: &str) -> (s: String)
    ensures
        s@ == target_of(*part, instructions@),
{
    if let Content::External(ext) = &part.content {
        return copy_string(&ext.location);
    }
    match &part.target {
        Target::Fixed(p) => copy_string(p),
        Target::Instructions => instructions.to_string(),
    }
}

/// A `file` part that an install wrote is found current: each file read
/// back holds the text the install wrote, its LF form, which compares
/// equal to the tool's text whatever the record holds. This holds for
/// texts whose LF form has no CR left (a CR before a CRLF pair would
/// survive one conversion but not two).
pub proof fn law_written_files_are_current(files: Seq<(Seq<char>, Seq<char>)>, recorded: Option<Seq<char>>)
    requires
        forall|i: int| 0 <= i < files.len() ==> !crlf_to_lf(#[trigger] files[i].1).contains('\r'),
    ensures
        state_of(
            Some(FoundView::Files(files.map_values(|f: (Seq<char>, Seq<char>)| (f.0, crlf_to_lf(f.1))))),
            FoundView::Files(files),
            recorded,
            false,
        ) == State::Current,
{
    let written = files.map_values(|f: (Seq<char>, Seq<char>)| (f.0, crlf_to_lf(f.1)));
    assert forall|i: int| 0 <= i < written.len() implies #[trigger] same_file(written[i], files[i]) by {
        crate::harness::region::lemma_crlf_to_lf_plain(crlf_to_lf(files[i].1));
    }
}

} // verus!
