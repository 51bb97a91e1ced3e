//! The 64-bit FNV-1a hash the record and the loop guard use.

use vstd::prelude::*;
use vstd::utf8::encode_utf8;

use crate::text::{chars_of, crlf_to_lf, normalise_chars, string_of};

verus! {

/// The FNV-1a offset basis.
pub const FNV_OFFSET: u64 = 0xcbf2_9ce4_8422_2325;

/// The FNV-1a prime.
pub const FNV_PRIME: u64 = 0x0000_0100_0000_01b3;

/// The FNV-1a state after feeding `bytes` to the state `h`.
pub open spec fn fnv_fold(h: u64, bytes: Seq<u8>) -> u64
    decreases bytes.len(),
{
    if bytes.len() == 0 {
        h
    } else {
        fnv_fold(vstd::wrapping::u64_specs::wrapping_mul(h ^ (bytes[0] as u64), FNV_PRIME), bytes.skip(1))
    }
}

/// The lowercase hexadecimal digit of `d` (below sixteen).
pub open spec fn hex_digit(d: nat) -> char {
    if d < 10 {
        ((d + 48) as u8) as char
    } else {
        ((d - 10 + 97) as u8) as char
    }
}

/// The `n` lowest hexadecimal digits of `v`, most significant first.
pub open spec fn hex_digits(v: nat, n: nat) -> Seq<char>
    decreases n,
{
    if n == 0 {
        Seq::empty()
    } else {
        hex_digits(v / 16, (n - 1) as nat).push(hex_digit(v % 16))
    }
}

/// `fnv1a64:` and sixteen lowercase hex digits of `h`.
pub open spec fn render_hash(h: u64) -> Seq<char> {
    "fnv1a64:"@ + hex_digits(h as nat, 16)
}

/// The hash of a text as `hash_text` renders it.
pub open spec fn text_hash(text: Seq<char>) -> Seq<char> {
    render_hash(fnv_fold(FNV_OFFSET, encode_utf8(crlf_to_lf(text))))
}

/// An incremental FNV-1a hasher.
pub(crate) struct Fnv {
    pub(crate) state: u64,
}

impl Fnv {
    pub(crate) fn new() -> (h: Self)
        ensures
            h.state == FNV_OFFSET,
    {
        Fnv { state: FNV_OFFSET }
    }

    pub(crate) fn update(&mut self, bytes: &[u8])
        ensures
            final(self).state == fnv_fold(old(self).state, bytes@),
    {
        let ghost start = self.state;
        let mut i: usize = 0;
        assert(bytes@.skip(0) == bytes@);
        while i < bytes.len()
            invariant
                i <= bytes.len(),
                fnv_fold(start, bytes@) == fnv_fold(self.state, bytes@.skip(i as int)),
            decreases bytes.len() - i,
        {
            let b = bytes[i];
            assert(bytes@.skip(i as int).skip(1) == bytes@.skip(i + 1));
            self.state = (self.state ^ (b as u64)).wrapping_mul(FNV_PRIME);
            i = i + 1;
        }
        assert(bytes@.skip(i as int).len() == 0);
    }

    pub(crate) fn render(&self) -> (s: String)
        ensures
            s@ == render_hash(self.state),
    {
        let mut out = chars_of("fnv1a64:");
        let digits = hex_of(self.state as u64, 16);
        out.append(&mut digits.clone());
        proof { reveal_strlit("fnv1a64:"); }
        string_of(&out)
    }
}

fn hex_char(d: u64) -> (c: char)
    requires
        d < 16,
    ensures
        c == hex_digit(d as nat),
{
    if d < 10 {
        ((d + 48) as u8) as char
    } else {
        ((d - 10 + 97) as u8) as char
    }
}

fn hex_of(v: u64, n: usize) -> (out: Vec<char>)
    ensures
        out@ == hex_digits(v as nat, n as nat),
    decreases n,
{
    if n == 0 {
        Vec::new()
    } else {
        let mut out = hex_of(v / 16, n - 1);
        out.push(hex_char(v % 16));
        out
    }
}

/// The FNV-1a hash of a text, line endings normalised to LF, as `fnv1a64:`
/// and sixteen lowercase hex digits.
pub fn hash_text(text: &str) -> (out: String)
    ensures
        out@ == text_hash(text@),
{
    let norm = normalise(text);
    let mut h = Fnv::new();
    h.update(norm.as_str().as_bytes());
    h.render()
}

/// CRLF to LF.
pub fn normalise(text: &str) -> (out: String)
    ensures
        out@ == crlf_to_lf(text@),
{
    let chars = chars_of(text);
    string_of(&normalise_chars(&chars))
}

} // verus!
