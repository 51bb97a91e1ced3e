//! The scope a harness integration is installed at, and the record's
//! header line.

use vstd::prelude::*;

use crate::error::{Error, ErrorView};
use crate::text::{append_str, chars_of, str_eq, string_of};

verus! {

/// Where a harness integration is installed.
#[derive(Debug, Clone, Copy, PartialEq, Eq, Structural, Hash)]
pub enum Scope {
    /// The project: files beside the project's own files.
    Project,
    /// The user: files in the user's harness configuration.
    User,
}

/// A scope's name, as `--scope` takes it.
pub open spec fn scope_name(s: Scope) -> Seq<char> {
    match s {
        Scope::Project => "project"@,
        Scope::User => "user"@,
    }
}

/// The scope a name names, or the refusal of another name.
pub open spec fn scope_parsed(name: Seq<char>) -> Result<Scope, ErrorView> {
    if name == "project"@ {
        Ok(Scope::Project)
    } else if name == "user"@ {
        Ok(Scope::User)
    } else {
        Err(ErrorView::Harness("no scope named `"@ + name + "`"@))
    }
}

impl Scope {
    /// The scope's name, as `--scope` takes it.
    pub fn as_str(self) -> (s: &'static str)
        ensures
            s@ == scope_name(self),
    {
        proof {
            reveal_strlit("project");
            reveal_strlit("user");
        }
        match self {
            Scope::Project => "project",
            Scope::User => "user",
        }
    }

    /// The scope named `name`; another name is a refusal.
    pub fn parse(name: &str) -> (r: Result<Scope, Error>)
        ensures
            match scope_parsed(name@) {
                Ok(s) => r == Ok::<Scope, Error>(s),
                Err(e) => r matches Err(x) && x@ == e,
            },
    {
        proof {
            reveal_strlit("project");
            reveal_strlit("user");
            reveal_strlit("no scope named `");
            reveal_strlit("`");
        }
        if str_eq(name, "project") {
            Ok(Scope::Project)
        } else if str_eq(name, "user") {
            Ok(Scope::User)
        } else {
            let mut out = chars_of("no scope named `");
            append_str(&mut out, name);
            append_str(&mut out, "`");
            Err(Error::Harness(string_of(&out)))
        }
    }
}

impl std::str::FromStr for Scope {
    type Err = Error;

    /// The scope named `s`, as [`Scope::parse`] gives it.
    fn from_str(s: &str) -> (r: Result<Scope, Error>)
        ensures
            match scope_parsed(s@) {
                Ok(x) => r == Ok::<Scope, Error>(x),
                Err(e) => r matches Err(x) && x@ == e,
            },
    {
        Scope::parse(s)
    }
}

impl Default for Scope {
    fn default() -> (s: Self)
        ensures
            s == Scope::Project,
    {
        Scope::Project
    }
}

/// Every scope's name parses back to the scope.
pub proof fn law_scope_round_trip(s: Scope)
    ensures
        scope_parsed(scope_name(s)) == Ok::<Scope, ErrorView>(s),
{
    reveal_strlit("project");
    reveal_strlit("user");
    assert("project"@.len() != "user"@.len());
}

/// The record file's first line for the tool named `name`.
pub open spec fn header_of(name: Seq<char>) -> Seq<char> {
    "# Written by "@ + name + " harness install. Do not edit."@
}

/// The record file's first line: `# Written by <name> harness install. Do
/// not edit.`
pub fn record_header(name: &str) -> (s: String)
    ensures
        s@ == header_of(name@),
{
    let mut out = chars_of("# Written by ");
    append_str(&mut out, name);
    append_str(&mut out, " harness install. Do not edit.");
    proof {
        reveal_strlit("# Written by ");
        reveal_strlit(" harness install. Do not edit.");
    }
    string_of(&out)
}

} // verus!
