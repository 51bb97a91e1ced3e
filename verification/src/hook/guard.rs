//! The loop guard of a blocking hook: the hash of the last text the hook
//! blocked on, one file per key (a repository, a session) in a directory the
//! caller chooses. A hook that would block twice on the same text lets the
//! agent stop instead.

use vstd::prelude::*;
use vstd::utf8::encode_utf8;

use crate::hash::{fnv_fold, hash_text, hex_digits, render_hash, text_hash, Fnv, FNV_OFFSET};
use crate::json::copy_string;
use crate::lines::{is_ws, leading_ws_len, trim, trim_end, trimmed, trimmed_end_len};
use crate::text::{append_str, chars_of, str_eq, string_of};

verus! {

/// A loop guard whose files live in one directory.
#[derive(Debug, PartialEq, Eq)]
pub struct LoopGuard {
    /// The directory of the guard files.
    pub dir: String,
}

/// Whether `c` may stand in a guard file's name as it is.
pub open spec fn is_name_char(c: char) -> bool {
    ('a' <= c <= 'z') || ('A' <= c <= 'Z') || ('0' <= c <= '9') || c == '-' || c == '_'
}

/// Whether a key is short and made of `[A-Za-z0-9_-]`.
pub open spec fn safe_key(k: Seq<char>) -> bool {
    &&& 0 < k.len() <= 64
    &&& forall|i: int| 0 <= i < k.len() ==> is_name_char(#[trigger] k[i])
}

/// `t` with every `:` replaced by `-`.
pub open spec fn colons_to_dashes(t: Seq<char>) -> Seq<char> {
    t.map_values(|c: char| if c == ':' { '-' } else { c })
}

/// The name of a key's guard file, without its extension: the key itself
/// when it is safe, else its hash with `-` for `:`.
pub open spec fn guard_name(k: Seq<char>) -> Seq<char> {
    if safe_key(k) {
        k
    } else {
        colons_to_dashes(render_hash(fnv_fold(FNV_OFFSET, encode_utf8(k))))
    }
}

/// `name` in the directory `dir`.
pub open spec fn in_dir(dir: Seq<char>, name: Seq<char>) -> Seq<char> {
    if dir.len() == 0 {
        name
    } else if dir.last() == '/' {
        dir + name
    } else {
        dir + "/"@ + name
    }
}

/// The guard file of `key` in `dir`.
pub open spec fn guard_file(dir: Seq<char>, key: Seq<char>) -> Seq<char> {
    in_dir(dir, guard_name(key) + ".hash"@)
}

/// The hash a guard file records: its text trimmed, when not empty.
pub open spec fn recorded_hash(file: Option<Seq<char>>) -> Option<Seq<char>> {
    match file {
        Some(t) => if trim(t).len() > 0 {
            Some(trim(t))
        } else {
            None
        },
        None => None,
    }
}

/// Whether a hook blocks on `text` given its guard file: not when it
/// blocked on the same text last time.
pub open spec fn blocks(file: Option<Seq<char>>, text: Seq<char>) -> bool {
    recorded_hash(file) != Some(text_hash(text))
}

/// What a blocking hook does next for one key and one text.
#[derive(Debug)]
pub struct GuardStep {
    /// Whether the hook blocks.
    pub block: bool,
    /// The key's guard file.
    pub file: String,
    /// The text to write to the guard file, when the hook blocks.
    pub record: Option<String>,
}

impl LoopGuard {
    /// A guard keeping its files in `dir`.
    pub fn new(dir: &str) -> (g: Self)
        ensures
            g.dir@ == dir@,
    {
        LoopGuard { dir: dir.to_string() }
    }

    /// The guard file of `key`: the key itself when it is short and made of
    /// `[A-Za-z0-9_-]`, else its hash.
    pub fn path(&self, key: &str) -> (p: String)
        ensures
            p@ == guard_file(self.dir@, key@),
    {
        let k = chars_of(key);
        let mut safe = k.len() > 0 && k.len() <= 64;
        let mut i: usize = 0;
        while i < k.len()
            invariant
                i <= k@.len(),
                k@ == key@,
                safe == (0 < k@.len() <= 64 && forall|j: int| 0 <= j < i ==> is_name_char(#[trigger] k@[j])),
            decreases k@.len() - i,
        {
            let c = k[i];
            let ok = ('a' <= c && c <= 'z') || ('A' <= c && c <= 'Z') || ('0' <= c && c <= '9') || c == '-' || c == '_';
            if !ok {
                safe = false;
            }
            i = i + 1;
        }
        let mut name: Vec<char> = if safe {
            k
        } else {
            let mut h = Fnv::new();
            h.update(key.as_bytes());
            let r = chars_of(h.render().as_str());
            let mut out: Vec<char> = Vec::new();
            let mut j: usize = 0;
            while j < r.len()
                invariant
                    j <= r@.len(),
                    out@ == colons_to_dashes(r@.take(j as int)),
                decreases r@.len() - j,
            {
                out.push(if r[j] == ':' { '-' } else { r[j] });
                j = j + 1;
                assert(out@ =~= colons_to_dashes(r@.take(j as int)));
            }
            assert(r@.take(r@.len() as int) =~= r@);
            out
        };
        assert(name@ == guard_name(key@));
        append_str(&mut name, ".hash");
        let d = chars_of(self.dir.as_str());
        let mut out: Vec<char> = Vec::new();
        if d.len() > 0 {
            out = d;
            if out[out.len() - 1] != '/' {
                out.push('/');
            }
        }
        let mut n = name;
        out.append(&mut n);
        proof {
            reveal_strlit(".hash");
            reveal_strlit("/");
        }
        string_of(&out)
    }

    /// The hash a guard file records, from its text (`None` when it cannot
    /// be read): the text trimmed, when not empty.
    pub fn recorded(&self, file: Option<&str>) -> (r: Option<String>)
        ensures
            match r {
                Some(h) => recorded_hash(crate::harness::region::opt_view(file)) == Some(h@),
                None => recorded_hash(crate::harness::region::opt_view(file)) is None,
            },
    {
        match file {
            Some(t) => {
                let c = chars_of(t);
                let tr = trimmed(&c);
                if tr.len() > 0 {
                    Some(string_of(&tr))
                } else {
                    None
                }
            },
            None => None,
        }
    }

    /// What the hook does for `key` and `text`, given the text of the key's
    /// guard file (`None` when it cannot be read): it blocks unless the file
    /// records the hash of the same text, and when it blocks, the hash is
    /// to be recorded.
    pub fn should_block(&self, key: &str, text: &str, file: Option<&str>) -> (s: GuardStep)
        ensures
            s.block == blocks(crate::harness::region::opt_view(file), text@),
            s.file@ == guard_file(self.dir@, key@),
            match s.record {
                Some(r) => s.block && r@ == text_hash(text@) + "\n"@,
                None => !s.block,
            },
    {
        let hash = hash_text(text);
        let last = match file {
            Some(t) => {
                let c = chars_of(t);
                let tr = trimmed(&c);
                if tr.len() > 0 {
                    Some(string_of(&tr))
                } else {
                    None
                }
            },
            None => None,
        };
        let same = match &last {
            Some(l) => str_eq(l.as_str(), hash.as_str()),
            None => false,
        };
        let file_path = self.path(key);
        if same {
            GuardStep { block: false, file: file_path, record: None }
        } else {
            let mut rec = chars_of(hash.as_str());
            rec.push('\n');
            proof {
                reveal_strlit("\n");
            }
            GuardStep { block: true, file: file_path, record: Some(string_of(&rec)) }
        }
    }
}

/// The hexadecimal digits hold no whitespace.
proof fn lemma_hex_digits_no_ws(v: nat, n: nat)
    ensures
        forall|i: int| 0 <= i < hex_digits(v, n).len() ==> !is_ws(#[trigger] hex_digits(v, n)[i]),
        hex_digits(v, n).len() == n,
    decreases n,
{
    if n > 0 {
        lemma_hex_digits_no_ws(v / 16, (n - 1) as nat);
        let d = v % 16;
        let c = crate::hash::hex_digit(d);
        assert(!is_ws(c)) by {
            if d < 10 {
                assert(((d + 48) as u8) as char as u32 == d + 48);
            } else {
                assert(((d - 10 + 97) as u8) as char as u32 == d - 10 + 97);
            }
        }
    }
}

/// A rendered hash, and that hash followed by a newline, trim to the hash.
proof fn lemma_trim_hash_line(h: u64)
    ensures
        trim(render_hash(h) + "\n"@) == render_hash(h),
        trim(render_hash(h)).len() > 0,
{
    reveal_strlit("fnv1a64:");
    reveal_strlit("\n");
    let r = render_hash(h);
    lemma_hex_digits_no_ws(h as nat, 16);
    let hx = hex_digits(h as nat, 16);
    assert forall|i: int| 0 <= i < r.len() implies !is_ws(#[trigger] r[i]) by {
        if i < 8 {
            assert(r[i] == "fnv1a64:"@[i]);
        } else {
            assert(r[i] == hx[i - 8]);
        }
    }
    let line = r + "\n"@;
    assert(line.drop_last() =~= r);
    assert(is_ws(line.last()));
    assert(trimmed_end_len(line) == trimmed_end_len(r));
    assert(trimmed_end_len(r) == r.len());
    assert(trim_end(line) =~= r);
    assert(trim_end(r) =~= r);
    assert(leading_ws_len(r) == 0);
}

/// The guard blocks once per text: once the hash of a text is recorded,
/// the same text does not block again, and another text blocks exactly
/// when its hash differs.
pub proof fn law_blocks_once_per_text(recorded: Seq<char>, text: Seq<char>)
    ensures
        !blocks(Some(text_hash(recorded) + "\n"@), recorded),
        blocks(Some(text_hash(recorded) + "\n"@), text) == (text_hash(recorded) != text_hash(text)),
        blocks(None, text),
{
    let h = fnv_fold(FNV_OFFSET, encode_utf8(crate::text::crlf_to_lf(recorded)));
    lemma_trim_hash_line(h);
}

/// A key's guard file after calls on `texts` in turn, from no file, each
/// call's record written when it blocks and nothing written otherwise.
pub open spec fn file_after(texts: Seq<Seq<char>>) -> Option<Seq<char>>
    decreases texts.len(),
{
    if texts.len() == 0 {
        None
    } else {
        let f = file_after(texts.drop_last());
        if blocks(f, texts.last()) {
            Some(text_hash(texts.last()) + "\n"@)
        } else {
            f
        }
    }
}

/// The hash of the text of the latest call on `texts` that blocked.
pub open spec fn last_blocked(texts: Seq<Seq<char>>) -> Option<Seq<char>>
    decreases texts.len(),
{
    if texts.len() == 0 {
        None
    } else {
        let p = last_blocked(texts.drop_last());
        if p != Some(text_hash(texts.last())) {
            Some(text_hash(texts.last()))
        } else {
            p
        }
    }
}

/// The guard over a run of calls for one key: each call blocks exactly
/// when the latest call that blocked was on a text of another hash (or
/// none blocked yet), and the guard file then records that hash.
pub proof fn law_guard_over_calls(texts: Seq<Seq<char>>)
    ensures
        recorded_hash(file_after(texts)) == last_blocked(texts),
        forall|i: int|
            0 <= i < texts.len() ==> blocks(#[trigger] file_after(texts.take(i)), texts[i]) == (last_blocked(
                texts.take(i),
            ) != Some(text_hash(texts[i]))),
    decreases texts.len(),
{
    if texts.len() > 0 {
        let d = texts.drop_last();
        law_guard_over_calls(d);
        let t = texts.last();
        let h = fnv_fold(FNV_OFFSET, encode_utf8(crate::text::crlf_to_lf(t)));
        lemma_trim_hash_line(h);
        assert forall|i: int| 0 <= i < texts.len() implies blocks(#[trigger] file_after(texts.take(i)), texts[i]) == (
        last_blocked(texts.take(i)) != Some(text_hash(texts[i]))) by {
            if i < d.len() {
                assert(texts.take(i) =~= d.take(i));
                assert(d[i] == texts[i]);
            } else {
                assert(texts.take(i) =~= d);
            }
        }
    }
}

} // verus!
