//! The file store's paths: sessions under the user's state directory,
//! each machine's instances under its own state directory, every name made
//! safe for a file name.

use vstd::prelude::*;
use vstd::utf8::{decode_utf8, encode_utf8, encode_utf8_decode_utf8};

use crate::json::copy_string;
use crate::smllm::{join, joined_to};
use crate::lines::{is_blank, is_blank_range, lines_view, split_lines, split_lines_exec, trim, trimmed};
use crate::text::{append_str, chars_of, str_eq, string_of};

verus! {

/// Whether a byte stands for itself in a safe name: an ASCII letter or
/// digit, or `-`.
pub open spec fn plain_byte(b: u8) -> bool {
    (0x30 <= b <= 0x39) || (0x41 <= b <= 0x5a) || (0x61 <= b <= 0x7a) || b == 0x2d
}

/// The uppercase hexadecimal digit of `d` (below sixteen).
pub open spec fn upper_hex(d: u8) -> char {
    if d < 10 {
        ((d + 48) as u8) as char
    } else {
        ((d - 10 + 65) as u8) as char
    }
}

/// How one byte is written in a safe name: itself, or `%` and two
/// uppercase hex digits.
pub open spec fn escaped(b: u8) -> Seq<char> {
    if plain_byte(b) {
        seq![b as char]
    } else {
        seq!['%', upper_hex(b / 16), upper_hex(b % 16)]
    }
}

/// How a byte string is written in a safe name.
pub open spec fn escaped_bytes(bs: Seq<u8>) -> Seq<char>
    decreases bs.len(),
{
    if bs.len() == 0 {
        Seq::empty()
    } else {
        escaped(bs[0]) + escaped_bytes(bs.skip(1))
    }
}

/// A file name from arbitrary text: each byte of its UTF-8 form that is not
/// an ASCII letter, digit or `-` is `%`-escaped.
pub open spec fn safe_name(name: Seq<char>) -> Seq<char> {
    escaped_bytes(encode_utf8(name))
}

/// A file name from arbitrary text (harness session ids): `_` and other
/// bytes are `%`-escaped, so `a/b` and `a_b` differ.
pub fn safe(name: &str) -> (s: String)
    ensures
        s@ == safe_name(name@),
{
    let bytes = name.as_bytes();
    let mut out: Vec<char> = Vec::new();
    let mut i: usize = 0;
    assert(bytes@.skip(0) =~= bytes@);
    while i < bytes.len()
        invariant
            i <= bytes@.len(),
            bytes@ == encode_utf8(name@),
            safe_name(name@) == out@ + escaped_bytes(bytes@.skip(i as int)),
        decreases bytes@.len() - i,
    {
        let b = bytes[i];
        assert(bytes@.skip(i as int)[0] == b);
        assert(bytes@.skip(i as int).skip(1) =~= bytes@.skip(i + 1));
        let ghost before = out@;
        if (0x30 <= b && b <= 0x39) || (0x41 <= b && b <= 0x5a) || (0x61 <= b && b <= 0x7a) || b == 0x2d {
            out.push(b as char);
        } else {
            out.push('%');
            out.push(hex_upper(b / 16));
            out.push(hex_upper(b % 16));
        }
        assert(out@ =~= before + escaped(b));
        i = i + 1;
    }
    assert(bytes@.skip(i as int).len() == 0);
    assert(out@ + escaped_bytes(bytes@.skip(i as int)) =~= out@);
    string_of(&out)
}

fn hex_upper(d: u8) -> (c: char)
    requires
        d < 16,
    ensures
        c == upper_hex(d),
{
    if d < 10 {
        ((d + 48) as u8) as char
    } else {
        ((d - 10 + 65) as u8) as char
    }
}

proof fn lemma_upper_hex_injective(a: u8, b: u8)
    requires
        a < 16,
        b < 16,
        upper_hex(a) == upper_hex(b),
    ensures
        a == b,
{
    let x = if a < 10 { a + 48 } else { a - 10 + 65 };
    let y = if b < 10 { b + 48 } else { b - 10 + 65 };
    assert((x as u8) as char as u32 == x);
    assert((y as u8) as char as u32 == y);
}

proof fn lemma_escaped_first(b: u8)
    ensures
        escaped(b).len() > 0,
        (escaped(b)[0] == '%') == !plain_byte(b),
{
    if plain_byte(b) {
        assert((b as char) as u32 == b);
    }
}

proof fn lemma_escaped_eq(a: u8, b: u8)
    requires
        escaped(a) == escaped(b),
    ensures
        a == b,
{
    lemma_escaped_first(a);
    lemma_escaped_first(b);
    if plain_byte(a) {
        assert(escaped(a)[0] == escaped(b)[0]);
        assert((a as char) as u32 == a);
        assert((b as char) as u32 == b);
    } else {
        assert(escaped(a)[1] == escaped(b)[1]);
        assert(escaped(a)[2] == escaped(b)[2]);
        lemma_upper_hex_injective(a / 16, b / 16);
        lemma_upper_hex_injective(a % 16, b % 16);
    }
}

/// Two byte strings are written the same only when they are the same.
#[verifier::spinoff_prover]
proof fn lemma_escaped_bytes_injective(x: Seq<u8>, y: Seq<u8>)
    requires
        escaped_bytes(x) == escaped_bytes(y),
    ensures
        x == y,
    decreases x.len(),
{
    if x.len() == 0 {
        if y.len() > 0 {
            lemma_escaped_first(y[0]);
        }
        assert(x =~= y);
    } else {
        lemma_escaped_first(x[0]);
        if y.len() == 0 {
            assert(escaped_bytes(x) == escaped(x[0]) + escaped_bytes(x.skip(1)));
            assert(escaped_bytes(x).len() > 0);
            assert(escaped_bytes(y).len() == 0);
            assert(false);
        }
        lemma_escaped_first(y[0]);
        let ex = escaped(x[0]);
        let ey = escaped(y[0]);
        let s = escaped_bytes(x);
        assert(s[0] == ex[0]);
        assert(s[0] == ey[0]);
        assert(ex.len() == ey.len());
        assert(s.take(ex.len() as int) =~= ex);
        assert(escaped_bytes(y).take(ey.len() as int) =~= ey);
        assert(ex =~= ey);
        lemma_escaped_eq(x[0], y[0]);
        assert(s.skip(ex.len() as int) =~= escaped_bytes(x.skip(1)));
        assert(escaped_bytes(y).skip(ey.len() as int) =~= escaped_bytes(y.skip(1)));
        lemma_escaped_bytes_injective(x.skip(1), y.skip(1));
        assert(x =~= seq![x[0]] + x.skip(1));
        assert(y =~= seq![y[0]] + y.skip(1));
    }
}

/// Safe names are injective: two different texts never share a file name.
pub proof fn law_safe_injective(a: Seq<char>, b: Seq<char>)
    requires
        safe_name(a) == safe_name(b),
    ensures
        a == b,
{
    lemma_escaped_bytes_injective(encode_utf8(a), encode_utf8(b));
    encode_utf8_decode_utf8(a);
    encode_utf8_decode_utf8(b);
}

/// Sessions under `user`, instances under each machine's state directory.
#[derive(Debug)]
pub struct FsStore {
    /// The user's state directory.
    pub user: String,
    /// Each machine id and its state directory.
    pub machines: Vec<(String, String)>,
}

/// The state directory of the first machine named `machine`.
pub open spec fn machine_state(ms: Seq<(String, String)>, machine: Seq<char>) -> Option<Seq<char>>
    decreases ms.len(),
{
    if ms.len() == 0 {
        None
    } else if ms[0].0@ == machine {
        Some(ms[0].1@)
    } else {
        machine_state(ms.skip(1), machine)
    }
}

impl FsStore {
    /// A store with sessions under `user`; `machines` maps machine id to
    /// state directory.
    pub fn new(user: &str, machines: Vec<(String, String)>) -> (s: Self)
        ensures
            s.user@ == user@,
            s.machines@ == machines@,
    {
        FsStore { user: user.to_string(), machines }
    }

    /// The file of session `key`: `sessions/<safe key>.json` under the
    /// user's state directory.
    pub fn session_path(&self, key: &str) -> (p: String)
        ensures
            p@ == joined_to(joined_to(self.user@, "sessions"@), safe_name(key@) + ".json"@),
    {
        let mut file = chars_of(safe(key).as_str());
        append_str(&mut file, ".json");
        proof {
            reveal_strlit(".json");
            reveal_strlit("sessions");
        }
        join(join(self.user.as_str(), "sessions").as_str(), string_of(&file).as_str())
    }

    /// The directory of `machine`'s instances: its safe name under its
    /// state directory; a machine that is not configured is an error.
    pub fn machine_dir(&self, machine: &str) -> (r: Result<String, String>)
        ensures
            match machine_state(self.machines@, machine@) {
                Some(d) => r matches Ok(p) && p@ == joined_to(d, safe_name(machine@)),
                None => r matches Err(m) && m@ == "state machine "@ + machine@ + " is not configured"@,
            },
    {
        let mut i: usize = 0;
        assert(self.machines@.skip(0) =~= self.machines@);
        while i < self.machines.len()
            invariant
                i <= self.machines@.len(),
                machine_state(self.machines@, machine@) == machine_state(self.machines@.skip(i as int), machine@),
            decreases self.machines@.len() - i,
        {
            assert(self.machines@.skip(i as int)[0] == self.machines@[i as int]);
            if str_eq(self.machines[i].0.as_str(), machine) {
                return Ok(join(self.machines[i].1.as_str(), safe(machine).as_str()));
            }
            assert(self.machines@.skip(i as int).skip(1) =~= self.machines@.skip(i + 1));
            i = i + 1;
        }
        let mut m = chars_of("state machine ");
        append_str(&mut m, machine);
        append_str(&mut m, " is not configured");
        proof {
            reveal_strlit("state machine ");
            reveal_strlit(" is not configured");
        }
        Err(string_of(&m))
    }
}

impl FsStore {
    /// The file binding a harness session to a session key:
    /// `bindings/<safe harness>/<safe host session>` under the user's state
    /// directory.
    pub fn binding_path(&self, harness: &str, host_session: &str) -> (p: String)
        ensures
            p@ == joined_to(
                joined_to(joined_to(self.user@, "bindings"@), safe_name(harness@)),
                safe_name(host_session@),
            ),
    {
        let b = join(self.user.as_str(), "bindings");
        let h = join(b.as_str(), safe(harness).as_str());
        join(h.as_str(), safe(host_session).as_str())
    }

    /// The file of instance `id` of `machine`: `<safe id>.json` in the
    /// machine's directory; a machine that is not configured is an error.
    pub fn instance_path(&self, machine: &str, id: &str) -> (r: Result<String, String>)
        ensures
            match machine_state(self.machines@, machine@) {
                Some(d) => r matches Ok(p) && p@ == joined_to(joined_to(d, safe_name(machine@)), safe_name(id@)
                    + ".json"@),
                None => r matches Err(m) && m@ == "state machine "@ + machine@ + " is not configured"@,
            },
    {
        let dir = self.machine_dir(machine)?;
        let mut file = chars_of(safe(id).as_str());
        append_str(&mut file, ".json");
        Ok(join(dir.as_str(), string_of(&file).as_str()))
    }

    /// The history file of instance `id` of `machine`:
    /// `<safe id>.history.jsonl` in the machine's directory; a machine that
    /// is not configured is an error.
    pub fn history_path(&self, machine: &str, id: &str) -> (r: Result<String, String>)
        ensures
            match machine_state(self.machines@, machine@) {
                Some(d) => r matches Ok(p) && p@ == joined_to(joined_to(d, safe_name(machine@)), safe_name(id@)
                    + ".history.jsonl"@),
                None => r matches Err(m) && m@ == "state machine "@ + machine@ + " is not configured"@,
            },
    {
        let dir = self.machine_dir(machine)?;
        let mut file = chars_of(safe(id).as_str());
        append_str(&mut file, ".history.jsonl");
        Ok(join(dir.as_str(), string_of(&file).as_str()))
    }
}

/// Whether a write of an instance at `version` is accepted over the stored
/// one at `stored` (`None` when there is none): it must be the next
/// version, the first being 1.
pub open spec fn next_version(version: u64, stored: Option<u64>) -> bool {
    version == (match stored {
        Some(v) => v as int,
        None => 0,
    }) + 1
}

/// Whether a write of an instance at `version` is accepted over the stored
/// instance's version (`None` when there is none); any other write is a
/// conflict and leaves the stored instance alone.
pub fn accepts_version(version: u64, stored: Option<u64>) -> (r: bool)
    ensures
        r == next_version(version, stored),
{
    let s: u64 = match stored {
        Some(v) => v,
        None => 0,
    };
    version > 0 && version - 1 == s
}

/// Whether `c` stands for itself in a safe name: an ASCII letter or
/// digit, or `-`.
pub open spec fn plain_char(c: char) -> bool {
    ('0' <= c <= '9') || ('A' <= c <= 'Z') || ('a' <= c <= 'z') || c == '-'
}

/// Whether `c` may stand in a safe name: a plain character or `%` (the
/// hexadecimal digits of an escape are plain characters).
pub open spec fn safe_char(c: char) -> bool {
    plain_char(c) || c == '%'
}

proof fn lemma_escaped_alphabet(bs: Seq<u8>)
    ensures
        forall|i: int| 0 <= i < escaped_bytes(bs).len() ==> safe_char(#[trigger] escaped_bytes(bs)[i]),
    decreases bs.len(),
{
    if bs.len() > 0 {
        lemma_escaped_alphabet(bs.skip(1));
        let e = escaped(bs[0]);
        let r = escaped_bytes(bs.skip(1));
        assert forall|i: int| 0 <= i < e.len() implies safe_char(#[trigger] e[i]) by {
            if plain_byte(bs[0]) {
                assert(e[i] == bs[0] as char);
            } else {
                let hi = bs[0] / 16;
                let lo = bs[0] % 16;
                assert(hi < 16 && lo < 16);
            }
        }
        assert forall|i: int| 0 <= i < (e + r).len() implies safe_char(#[trigger] (e + r)[i]) by {
            if i < e.len() {
                assert((e + r)[i] == e[i]);
            } else {
                assert((e + r)[i] == r[i - e.len()]);
            }
        }
    }
}

proof fn lemma_plain_bytes_kept(name: Seq<char>, bs: Seq<u8>)
    requires
        bs.len() == name.len(),
        forall|i: int| 0 <= i < name.len() ==> plain_char(#[trigger] name[i]) && name[i] as u8 == bs[i],
    ensures
        escaped_bytes(bs) == name,
    decreases bs.len(),
{
    if bs.len() > 0 {
        let c = name[0];
        assert(plain_char(c) && c as u8 == bs[0]);
        assert(plain_byte(bs[0]));
        assert((bs[0] as char) == c);
        lemma_plain_bytes_kept(name.skip(1), bs.skip(1));
        assert(seq![c] + name.skip(1) =~= name);
    }
}

/// A safe name is made only of ASCII letters, digits, `-`, `%` and
/// uppercase hexadecimal digits; and a name of ASCII letters, digits and
/// `-` alone is its own safe name.
pub proof fn law_safe_alphabet(name: Seq<char>)
    ensures
        forall|i: int| 0 <= i < safe_name(name).len() ==> safe_char(#[trigger] safe_name(name)[i]),
        (forall|i: int| 0 <= i < name.len() ==> plain_char(#[trigger] name[i])) ==> safe_name(name) == name,
{
    lemma_escaped_alphabet(encode_utf8(name));
    if forall|i: int| 0 <= i < name.len() ==> plain_char(#[trigger] name[i]) {
        assert(vstd::utf8::is_ascii_chars(name)) by {
            assert forall|i: int| 0 <= i < name.len() implies '\0' <= #[trigger] name[i] <= '\u{7f}' by {
                assert(plain_char(name[i]));
            }
        }
        vstd::utf8::is_ascii_chars_encode_utf8(name);
        lemma_plain_bytes_kept(name, encode_utf8(name));
    }
}

/// Instance versions guard writes: a version is accepted once, over the
/// version before it, so of two writers that read the same instance only
/// the first is accepted, and a replayed write is a conflict.
pub proof fn law_a_version_is_written_once(version: u64, stored: Option<u64>)
    requires
        next_version(version, stored),
    ensures
        !next_version(version, Some(version)),
        version >= 1,
        stored matches Some(v) ==> version == v + 1,
{
}

/// Whether `name` is the file of an instance: it ends in `.json`.
pub open spec fn instance_file(name: Seq<char>) -> bool {
    name.len() >= 5 && name.skip(name.len() - 5) == ".json"@
}

/// Whether `name` is the file of an instance: it ends in `.json` (a
/// history, `.history.jsonl`, does not).
pub fn is_instance_file(name: &str) -> (r: bool)
    ensures
        r == instance_file(name@),
{
    let c = chars_of(name);
    let n = c.len();
    proof { reveal_strlit(".json"); }
    if n < 5 {
        return false;
    }
    let r = c[n - 5] == '.' && c[n - 4] == 'j' && c[n - 3] == 's' && c[n - 2] == 'o' && c[n - 1] == 'n';
    proof {
        let t = c@.skip(n - 5);
        let j = ".json"@;
        assert(j.len() == 5 && j[0] == '.' && j[1] == 'j' && j[2] == 's' && j[3] == 'o' && j[4] == 'n');
        if r {
            assert(t =~= j);
        } else {
            assert(t[0] != j[0] || t[1] != j[1] || t[2] != j[2] || t[3] != j[3] || t[4] != j[4]);
        }
    }
    r
}

/// A line as `str::lines` gives it: without the CR of a CRLF ending.
pub open spec fn without_cr(l: Seq<char>, ended: bool) -> Seq<char> {
    if ended && l.len() > 0 && l.last() == '\r' {
        l.drop_last()
    } else {
        l
    }
}

/// The lines of `ls` that are not blank, each without the CR of a CRLF
/// ending; every piece but the last one ended at a line feed.
pub open spec fn kept_lines(ls: Seq<Seq<char>>, n: int) -> Seq<Seq<char>>
    decreases ls.len(),
{
    if ls.len() == 0 {
        Seq::empty()
    } else {
        let l = without_cr(ls.last(), ls.len() < n);
        if is_blank(l) {
            kept_lines(ls.drop_last(), n)
        } else {
            kept_lines(ls.drop_last(), n).push(l)
        }
    }
}

/// The entries of a history file: its lines that are not blank.
pub open spec fn history_lines_of(text: Seq<char>) -> Seq<Seq<char>> {
    kept_lines(split_lines(text), split_lines(text).len() as int)
}

/// The entries of a history file, one JSON object a line: the lines of
/// `text` that are not blank, without the CR of a CRLF ending.
pub fn history_lines(text: &str) -> (out: Vec<String>)
    ensures
        out@.map_values(|l: String| l@) == history_lines_of(text@),
{
    let pieces = split_lines_exec(&chars_of(text));
    let ghost ps = lines_view(pieces@);
    let n = pieces.len();
    let mut out: Vec<String> = Vec::new();
    let mut i: usize = 0;
    while i < n
        invariant
            i <= n,
            n == pieces@.len(),
            ps == lines_view(pieces@),
            ps == split_lines(text@),
            out@.map_values(|l: String| l@) == kept_lines(ps.take(i as int), n as int),
        decreases n - i,
    {
        let p = &pieces[i];
        let mut end = p.len();
        if i + 1 < n && end > 0 && p[end - 1] == '\r' {
            end = end - 1;
        }
        let ghost l = without_cr(ps[i as int], i + 1 < n);
        assert(p@.subrange(0, end as int) =~= l);
        let ghost before = out@;
        if !is_blank_range(p, 0, end) {
            let mut line: Vec<char> = Vec::new();
            let mut k: usize = 0;
            while k < end
                invariant
                    k <= end <= p.len(),
                    line@ == p@.subrange(0, k as int),
                decreases end - k,
            {
                line.push(p[k]);
                k = k + 1;
                assert(line@ =~= p@.subrange(0, k as int));
            }
            out.push(string_of(&line));
            assert(out@.map_values(|l: String| l@) =~= before.map_values(|l: String| l@).push(l));
        }
        proof {
            let t = ps.take(i + 1);
            assert(t.drop_last() =~= ps.take(i as int));
            assert(t.last() == ps[i as int]);
            assert(t.len() < n as int <==> i + 1 < n);
        }
        i = i + 1;
    }
    assert(ps.take(n as int) =~= ps);
    out
}

/// The session key of a binding file's text: the text without surrounding
/// whitespace.
pub fn binding_key(text: &str) -> (k: String)
    ensures
        k@ == trim(text@),
{
    string_of(&trimmed(&chars_of(text)))
}

} // verus!
