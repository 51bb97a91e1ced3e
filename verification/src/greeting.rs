//! Building a greeting: plain data in, a greeting or an error out, no I/O
//! and no printing.

use vstd::prelude::*;

use crate::json::{json_quoted, quote};
use crate::lines::{trim, trimmed};
use crate::text::{append_chars, append_str, chars_of, string_of};

verus! {

/// Who a greeting addresses when the caller names nobody.
pub const DEFAULT_NAME: &'static str = "world";

/// A greeting, ready to be rendered as text or JSON.
#[derive(Debug)]
pub struct Greeting {
    /// Who the greeting is addressed to, trimmed of surrounding whitespace.
    pub name: String,
    /// The rendered greeting line.
    pub message: String,
}

/// Everything that can go wrong building a greeting.
#[derive(Debug)]
pub enum Error {
    /// The configuration is invalid.
    Config(String),
}

/// The text of an error: `config error: <message>`.
pub open spec fn error_message(e: Error) -> Seq<char> {
    match e {
        Error::Config(m) => "config error: "@ + m@,
    }
}

impl Error {
    /// A configuration error with this message.
    pub fn config(message: &str) -> (e: Self)
        ensures
            e matches Error::Config(m) && m@ == message@,
    {
        Error::Config(message.to_string())
    }

    /// The error's text.
    pub fn message(&self) -> (s: String)
        ensures
            s@ == error_message(*self),
    {
        match self {
            Error::Config(m) => {
                let mut out = chars_of("config error: ");
                append_str(&mut out, m.as_str());
                proof {
                    reveal_strlit("config error: ");
                }
                string_of(&out)
            },
        }
    }
}

/// The greeting of `name`, or of the default name when there is none; an
/// error when the name is blank once trimmed.
pub open spec fn greeting_of(name: Option<Seq<char>>) -> Result<(Seq<char>, Seq<char>), Seq<char>> {
    let n = trim(
        match name {
            Some(s) => s,
            None => "world"@,
        },
    );
    if n.len() == 0 {
        Err("name must not be blank"@)
    } else {
        Ok((n, "Hello, "@ + n + "!"@))
    }
}

/// Builds a greeting for `name`, or for [`DEFAULT_NAME`] when it is `None`.
/// A name given but blank once trimmed is a configuration error: a mistake
/// worth reporting, not a greeting to nobody.
pub fn greet(name: Option<&str>) -> (r: Result<Greeting, Error>)
    ensures
        match greeting_of(crate::harness::region::opt_view(name)) {
            Ok((n, m)) => r matches Ok(g) && g.name@ == n && g.message@ == m,
            Err(m) => r matches Err(Error::Config(x)) && x@ == m,
        },
{
    proof {
        reveal_strlit("world");
        reveal_strlit("name must not be blank");
        reveal_strlit("Hello, ");
        reveal_strlit("!");
    }
    let given = match name {
        Some(s) => s,
        None => DEFAULT_NAME,
    };
    let chars = chars_of(given);
    let t = trimmed(&chars);
    if t.len() == 0 {
        return Err(Error::config("name must not be blank"));
    }
    let mut message = chars_of("Hello, ");
    append_chars(&mut message, &t);
    append_str(&mut message, "!");
    Ok(Greeting { name: string_of(&t), message: string_of(&message) })
}

/// What `hello` prints for a greeting: its JSON object and a newline, or
/// its message and a newline.
pub open spec fn hello_text(name: Seq<char>, message: Seq<char>, json: bool) -> Seq<char> {
    if json {
        "{\"name\":"@ + json_quoted(name) + ",\"message\":"@ + json_quoted(message) + "}\n"@
    } else {
        message + "\n"@
    }
}

/// The text `hello` prints for a greeting: as a JSON object or as a line.
pub fn render_hello(greeting: &Greeting, json: bool) -> (s: String)
    ensures
        s@ == hello_text(greeting.name@, greeting.message@, json),
{
    proof {
        reveal_strlit("{\"name\":");
        reveal_strlit(",\"message\":");
        reveal_strlit("}\n");
        reveal_strlit("\n");
    }
    if json {
        let mut out = chars_of("{\"name\":");
        append_str(&mut out, quote(greeting.name.as_str()).as_str());
        append_str(&mut out, ",\"message\":");
        append_str(&mut out, quote(greeting.message.as_str()).as_str());
        append_str(&mut out, "}\n");
        string_of(&out)
    } else {
        let mut out = chars_of(greeting.message.as_str());
        append_str(&mut out, "\n");
        string_of(&out)
    }
}

} // verus!
