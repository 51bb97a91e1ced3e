//! The state of a part and the hash the record keeps of its content.

use vstd::prelude::*;
use vstd::utf8::encode_utf8;

use crate::hash::{fnv_fold, normalise, render_hash, Fnv, FNV_OFFSET};
use crate::json::{compact_text, copy_json, json_compact, json_eq, lemma_array_model, model, models, same_json, Json, JsonModel};
use crate::lines::{is_ws, is_ws_char};
use crate::text::{append_chars, chars_of, crlf_to_lf, equal_chars, str_eq, string_of};

verus! {

/// The state of a part.
#[derive(Debug, Clone, Copy, PartialEq, Eq, Structural)]
pub enum State {
    /// Declined by the user.
    Skipped,
    /// The file, the block or the entries are not there.
    Absent,
    /// Equal to the tool's content.
    Current,
    /// Differs from the tool's content and equals the recorded hash: the
    /// tool wrote it and has changed since.
    Stale,
    /// Differs from both, or present with no recorded hash.
    Edited,
}

/// The name of a state in a report.
pub open spec fn state_name(s: State) -> Seq<char> {
    match s {
        State::Skipped => "skipped"@,
        State::Absent => "absent"@,
        State::Current => "current"@,
        State::Stale => "stale"@,
        State::Edited => "edited"@,
    }
}

impl State {
    /// The state's name in a report.
    pub fn as_str(self) -> (s: &'static str)
        ensures
            s@ == state_name(self),
    {
        proof {
            reveal_strlit("skipped");
            reveal_strlit("absent");
            reveal_strlit("current");
            reveal_strlit("stale");
            reveal_strlit("edited");
        }
        match self {
            State::Skipped => "skipped",
            State::Absent => "absent",
            State::Current => "current",
            State::Stale => "stale",
            State::Edited => "edited",
        }
    }
}

/// A part's content in a comparable form: what the tool wants, or what the
/// tree holds.
#[derive(Debug)]
pub enum Found {
    /// A `file` part's files: (relative path, text).
    Files(Vec<(String, String)>),
    /// A `region` part's block, compared by words.
    Block(String),
    /// A `merge` part's entries that are present, in operation order.
    Entries(Vec<Json>),
    /// An `external` part's text.
    Text(String),
}

/// A content as plain values.
pub enum FoundView {
    Files(Seq<(Seq<char>, Seq<char>)>),
    Block(Seq<char>),
    Entries(Seq<JsonModel>),
    Text(Seq<char>),
}

/// The plain value of a list of files.
pub open spec fn files_view(fs: Seq<(String, String)>) -> Seq<(Seq<char>, Seq<char>)> {
    fs.map_values(|f: (String, String)| (f.0@, f.1@))
}

/// The plain value of a content.
pub open spec fn found_view(f: Found) -> FoundView {
    match f {
        Found::Files(fs) => FoundView::Files(files_view(fs@)),
        Found::Block(b) => FoundView::Block(b@),
        Found::Entries(v) => FoundView::Entries(models(v@)),
        Found::Text(t) => FoundView::Text(t@),
    }
}

/// What the tree holds for a part.
#[derive(Debug)]
pub enum Observed {
    /// Nothing the tool could own.
    Absent,
    /// The part's content as found.
    Present(Found),
}

/// What the tree holds, as plain values: `None` when absent.
pub open spec fn observed_view(o: Observed) -> Option<FoundView> {
    match o {
        Observed::Absent => None,
        Observed::Present(f) => Some(found_view(f)),
    }
}

/// The words of `t` (the maximal runs of non-whitespace), `cur` being the
/// word read so far.
pub open spec fn words_from(t: Seq<char>, cur: Seq<char>) -> Seq<Seq<char>>
    decreases t.len(),
{
    if t.len() == 0 {
        if cur.len() > 0 {
            seq![cur]
        } else {
            Seq::empty()
        }
    } else if is_ws(t[0]) {
        (if cur.len() > 0 {
            seq![cur]
        } else {
            Seq::empty()
        }) + words_from(t.skip(1), Seq::empty())
    } else {
        words_from(t.skip(1), cur.push(t[0]))
    }
}

/// The words of a text, as `str::split_whitespace` gives them.
pub open spec fn words(t: Seq<char>) -> Seq<Seq<char>> {
    words_from(t, Seq::empty())
}

/// Words joined by single spaces.
pub open spec fn join_words(ws: Seq<Seq<char>>) -> Seq<char>
    decreases ws.len(),
{
    if ws.len() == 0 {
        Seq::empty()
    } else if ws.len() == 1 {
        ws[0]
    } else {
        join_words(ws.drop_last()) + seq![' '] + ws.last()
    }
}

/// Whether two files are equal: the same path, the same text once line
/// endings are LF.
pub open spec fn same_file(a: (Seq<char>, Seq<char>), b: (Seq<char>, Seq<char>)) -> bool {
    a.0 == b.0 && crlf_to_lf(a.1) == crlf_to_lf(b.1)
}

/// Whether two contents are equal: files and text line endings aside, a
/// block by its words, entries as JSON values.
pub open spec fn same_content(a: FoundView, b: FoundView) -> bool {
    match (a, b) {
        (FoundView::Files(x), FoundView::Files(y)) => x.len() == y.len() && forall|i: int|
            0 <= i < x.len() ==> #[trigger] same_file(x[i], y[i]),
        (FoundView::Block(x), FoundView::Block(y)) => words(x) == words(y),
        (FoundView::Entries(x), FoundView::Entries(y)) => x.len() == y.len() && forall|i: int|
            0 <= i < x.len() ==> json_eq(#[trigger] x[i], y[i]),
        (FoundView::Text(x), FoundView::Text(y)) => crlf_to_lf(x) == crlf_to_lf(y),
        _ => false,
    }
}

/// The bytes hashed for a list of files: each path and its text with LF
/// line endings, each followed by a zero byte.
pub open spec fn files_bytes(fs: Seq<(Seq<char>, Seq<char>)>) -> Seq<u8>
    decreases fs.len(),
{
    if fs.len() == 0 {
        Seq::empty()
    } else {
        files_bytes(fs.drop_last()) + encode_utf8(fs.last().0) + seq![0u8] + encode_utf8(
            crlf_to_lf(fs.last().1),
        ) + seq![0u8]
    }
}

/// The bytes hashed for a content: files with their paths; a block's
/// words joined by single spaces; entries as compact JSON; text with LF
/// line endings.
pub open spec fn content_bytes(f: FoundView) -> Seq<u8> {
    match f {
        FoundView::Files(fs) => files_bytes(fs),
        FoundView::Block(b) => encode_utf8(join_words(words(b))),
        FoundView::Entries(v) => encode_utf8(json_compact(JsonModel::Array(v))),
        FoundView::Text(t) => encode_utf8(crlf_to_lf(t)),
    }
}

/// The FNV-1a hash of a content, as `fnv1a64:` and sixteen hex digits.
pub open spec fn content_hash(f: FoundView) -> Seq<char> {
    render_hash(fnv_fold(FNV_OFFSET, content_bytes(f)))
}

/// The state of a part from what the tree holds, the tool's content, the
/// recorded hash and whether the user declined it.
pub open spec fn state_of(
    observed: Option<FoundView>,
    expected: FoundView,
    recorded: Option<Seq<char>>,
    declined: bool,
) -> State {
    if declined {
        State::Skipped
    } else {
        match observed {
            None => State::Absent,
            Some(f) => if same_content(f, expected) {
                State::Current
            } else if recorded == Some(content_hash(f)) {
                State::Stale
            } else {
                State::Edited
            },
        }
    }
}

/// Feeding two byte strings in turn is feeding their concatenation.
pub proof fn lemma_fnv_fold_concat(h: u64, a: Seq<u8>, b: Seq<u8>)
    ensures
        fnv_fold(h, a + b) == fnv_fold(fnv_fold(h, a), b),
    decreases a.len(),
{
    if a.len() == 0 {
        assert(a + b =~= b);
    } else {
        assert((a + b)[0] == a[0]);
        assert((a + b).skip(1) =~= a.skip(1) + b);
        lemma_fnv_fold_concat(vstd::wrapping::u64_specs::wrapping_mul(h ^ (a[0] as u64), crate::hash::FNV_PRIME), a.skip(1), b);
    }
}

/// The words of a text.
pub(crate) fn words_exec(t: &str) -> (out: Vec<Vec<char>>)
    ensures
        out@.map_values(|w: Vec<char>| w@) == words(t@),
{
    let chars = chars_of(t);
    let mut out: Vec<Vec<char>> = Vec::new();
    let mut cur: Vec<char> = Vec::new();
    let mut i: usize = 0;
    assert(chars@.skip(0) == chars@);
    while i < chars.len()
        invariant
            i <= chars.len(),
            chars@ == t@,
            words(t@) == out@.map_values(|w: Vec<char>| w@) + words_from(chars@.skip(i as int), cur@),
        decreases chars.len() - i,
    {
        let c = chars[i];
        assert(chars@.skip(i as int).skip(1) == chars@.skip(i + 1));
        if is_ws_char(c) {
            if cur.len() > 0 {
                let ghost before = out@;
                out.push(cur);
                assert(out@.map_values(|w: Vec<char>| w@) =~= before.map_values(|w: Vec<char>| w@).push(cur@));
                assert(before.map_values(|w: Vec<char>| w@).push(cur@) + words_from(chars@.skip(i + 1), Seq::empty())
                    =~= before.map_values(|w: Vec<char>| w@) + (seq![cur@] + words_from(chars@.skip(i + 1), Seq::empty())));
            } else {
                assert(Seq::<Seq<char>>::empty() + words_from(chars@.skip(i + 1), Seq::empty())
                    =~= words_from(chars@.skip(i + 1), Seq::empty()));
            }
            cur = Vec::new();
        } else {
            cur.push(c);
        }
        i = i + 1;
    }
    if cur.len() > 0 {
        let ghost before = out@;
        out.push(cur);
        assert(out@.map_values(|w: Vec<char>| w@) =~= before.map_values(|w: Vec<char>| w@).push(cur@));
        assert(before.map_values(|w: Vec<char>| w@).push(cur@) =~= before.map_values(|w: Vec<char>| w@) + seq![cur@]);
    } else {
        assert(out@.map_values(|w: Vec<char>| w@) + Seq::<Seq<char>>::empty() =~= out@.map_values(|w: Vec<char>| w@));
    }
    out
}

/// Words joined by single spaces.
pub(crate) fn join_words_exec(ws: &Vec<Vec<char>>) -> (out: Vec<char>)
    ensures
        out@ == join_words(ws@.map_values(|w: Vec<char>| w@)),
{
    let ghost v = ws@.map_values(|w: Vec<char>| w@);
    let mut out: Vec<char> = Vec::new();
    let mut i: usize = 0;
    assert(v.take(0) =~= Seq::<Seq<char>>::empty());
    while i < ws.len()
        invariant
            i <= ws.len(),
            v == ws@.map_values(|w: Vec<char>| w@),
            out@ == join_words(v.take(i as int)),
        decreases ws.len() - i,
    {
        let ghost t = v.take(i + 1);
        assert(t.drop_last() =~= v.take(i as int));
        assert(t.last() == ws@[i as int]@);
        if i > 0 {
            out.push(' ');
        }
        append_chars(&mut out, &ws[i]);
        proof {
            if i == 0 {
                assert(out@ =~= t[0]);
            } else {
                assert(out@ =~= join_words(t.drop_last()) + seq![' '] + t.last());
            }
        }
        i = i + 1;
    }
    assert(v.take(ws.len() as int) =~= v);
    out
}

/// Whether two lists of words are equal.
fn same_words(a: &Vec<Vec<char>>, b: &Vec<Vec<char>>) -> (r: bool)
    ensures
        r == (a@.map_values(|w: Vec<char>| w@) == b@.map_values(|w: Vec<char>| w@)),
{
    let ghost x = a@.map_values(|w: Vec<char>| w@);
    let ghost y = b@.map_values(|w: Vec<char>| w@);
    if a.len() != b.len() {
        assert(x.len() != y.len());
        return false;
    }
    let mut i: usize = 0;
    while i < a.len()
        invariant
            i <= a.len(),
            a.len() == b.len(),
            x == a@.map_values(|w: Vec<char>| w@),
            y == b@.map_values(|w: Vec<char>| w@),
            forall|j: int| 0 <= j < i ==> x[j] == y[j],
        decreases a.len() - i,
    {
        if !equal_chars(&a[i], &b[i]) {
            assert(x[i as int] != y[i as int]);
            return false;
        }
        i = i + 1;
    }
    assert(x =~= y);
    true
}

/// Whether two contents are equal: files and text line endings aside, a
/// block by its words.
fn equal(a: &Found, b: &Found) -> (r: bool)
    ensures
        r == same_content(found_view(*a), found_view(*b)),
{
    match (a, b) {
        (Found::Files(x), Found::Files(y)) => {
            let ghost xv = files_view(x@);
            let ghost yv = files_view(y@);
            if x.len() != y.len() {
                return false;
            }
            let mut i: usize = 0;
            while i < x.len()
                invariant
                    i <= x.len(),
                    x.len() == y.len(),
                    xv == files_view(x@),
                    yv == files_view(y@),
                    found_view(*a) == FoundView::Files(xv),
                    found_view(*b) == FoundView::Files(yv),
                    forall|j: int| 0 <= j < i ==> #[trigger] same_file(xv[j], yv[j]),
                decreases x.len() - i,
            {
                let same_path = x[i].0 == y[i].0;
                let p = normalise(x[i].1.as_str());
                let q = normalise(y[i].1.as_str());
                if !same_path || !str_eq(p.as_str(), q.as_str()) {
                    proof {
                        assert(xv[i as int] == (x@[i as int].0@, x@[i as int].1@));
                        assert(yv[i as int] == (y@[i as int].0@, y@[i as int].1@));
                        assert(!same_file(xv[i as int], yv[i as int]));
                        assert(!same_content(FoundView::Files(xv), FoundView::Files(yv)));
                    }
                    return false;
                }
                i = i + 1;
            }
            true
        },
        (Found::Block(x), Found::Block(y)) => {
            let wx = words_exec(x.as_str());
            let wy = words_exec(y.as_str());
            same_words(&wx, &wy)
        },
        (Found::Entries(x), Found::Entries(y)) => {
            if x.len() != y.len() {
                return false;
            }
            let mut i: usize = 0;
            while i < x.len()
                invariant
                    i <= x.len(),
                    x.len() == y.len(),
                    found_view(*a) == FoundView::Entries(models(x@)),
                    found_view(*b) == FoundView::Entries(models(y@)),
                    forall|j: int| 0 <= j < i ==> json_eq(#[trigger] models(x@)[j], models(y@)[j]),
                decreases x.len() - i,
            {
                if !same_json(&x[i], &y[i]) {
                    assert(!json_eq(models(x@)[i as int], models(y@)[i as int]));
                    return false;
                }
                i = i + 1;
            }
            true
        },
        (Found::Text(x), Found::Text(y)) => {
            let p = normalise(x.as_str());
            let q = normalise(y.as_str());
            str_eq(p.as_str(), q.as_str())
        },
        _ => false,
    }
}

/// The FNV-1a hash of a content, as `fnv1a64:` and sixteen hex digits:
/// files with LF line endings and their paths; a block's words joined by
/// single spaces; entries as compact JSON; text with LF line endings.
pub fn hash(content: &Found) -> (s: String)
    ensures
        s@ == content_hash(found_view(*content)),
{
    let mut h = Fnv::new();
    match content {
        Found::Files(files) => {
            let ghost fv = files_view(files@);
            let mut i: usize = 0;
            let zero: [u8; 1] = [0u8];
            assert(fv.take(0) =~= Seq::<(Seq<char>, Seq<char>)>::empty());
            while i < files.len()
                invariant
                    i <= files.len(),
                    fv == files_view(files@),
                    zero@ == seq![0u8],
                    h.state == fnv_fold(FNV_OFFSET, files_bytes(fv.take(i as int))),
                decreases files.len() - i,
            {
                let ghost t = fv.take(i + 1);
                assert(t.drop_last() =~= fv.take(i as int));
                assert(t.last() == (files@[i as int].0@, files@[i as int].1@));
                let ghost s0 = files_bytes(fv.take(i as int));
                let path = files[i].0.as_str();
                let norm = normalise(files[i].1.as_str());
                h.update(path.as_bytes());
                h.update(zero.as_slice());
                h.update(norm.as_str().as_bytes());
                h.update(zero.as_slice());
                proof {
                    let p = encode_utf8(files@[i as int].0@);
                    let n = encode_utf8(crlf_to_lf(files@[i as int].1@));
                    lemma_fnv_fold_concat(FNV_OFFSET, s0, p);
                    lemma_fnv_fold_concat(FNV_OFFSET, s0 + p, seq![0u8]);
                    lemma_fnv_fold_concat(FNV_OFFSET, s0 + p + seq![0u8], n);
                    lemma_fnv_fold_concat(FNV_OFFSET, s0 + p + seq![0u8] + n, seq![0u8]);
                }
                i = i + 1;
            }
            assert(fv.take(files.len() as int) =~= fv);
        },
        Found::Block(text) => {
            let ws = words_exec(text.as_str());
            let joined = string_of(&join_words_exec(&ws));
            h.update(joined.as_str().as_bytes());
        },
        Found::Entries(v) => {
            let mut copies: Vec<Json> = Vec::new();
            let mut i: usize = 0;
            while i < v.len()
                invariant
                    i <= v.len(),
                    copies@.len() == i,
                    forall|j: int| 0 <= j < i ==> #[trigger] model(copies@[j]) == model(v@[j]),
                decreases v.len() - i,
            {
                copies.push(copy_json(&v[i]));
                i = i + 1;
            }
            assert(models(copies@) =~= models(v@));
            let arr = Json::Array(copies);
            proof {
                lemma_array_model(copies);
            }
            let text = compact_text(&arr);
            h.update(text.as_str().as_bytes());
        },
        Found::Text(text) => {
            let norm = normalise(text.as_str());
            h.update(norm.as_str().as_bytes());
        },
    }
    h.render()
}

/// The state of a part from what the tree holds, the tool's content and the
/// recorded hash.
pub fn state(observed: &Observed, expected: &Found, recorded: Option<&str>, declined: bool) -> (s: State)
    ensures
        s == state_of(observed_view(*observed), found_view(*expected), crate::harness::region::opt_view(recorded), declined),
{
    if declined {
        return State::Skipped;
    }
    match observed {
        Observed::Absent => State::Absent,
        Observed::Present(found) => {
            if equal(found, expected) {
                State::Current
            } else {
                match recorded {
                    Some(h) => {
                        let mine = hash(found);
                        if str_eq(h, mine.as_str()) {
                            State::Stale
                        } else {
                            State::Edited
                        }
                    },
                    None => State::Edited,
                }
            }
        },
    }
}

/// A content is the same as itself.
pub proof fn lemma_same_content_refl(f: FoundView)
    ensures
        same_content(f, f),
{
    match f {
        FoundView::Entries(x) => {
            assert forall|i: int| 0 <= i < x.len() implies json_eq(#[trigger] x[i], x[i]) by {
                crate::json::lemma_json_eq_refl(x[i]);
            }
        },
        _ => {},
    }
}

/// The state table: a declined part is skipped; otherwise an absent part is
/// absent, a part equal to the tool's content is current, one that differs
/// but whose hash was recorded is stale, and any other is edited. In
/// particular the tool's own content, present, is current whatever was
/// recorded.
pub proof fn law_state_table(observed: Option<FoundView>, expected: FoundView, recorded: Option<Seq<char>>, declined: bool)
    ensures
        (state_of(observed, expected, recorded, declined) == State::Skipped) == declined,
        (state_of(observed, expected, recorded, declined) == State::Absent) == (!declined && observed is None),
        (state_of(observed, expected, recorded, declined) == State::Current) == (!declined && (observed matches Some(f)
            && same_content(f, expected))),
        (state_of(observed, expected, recorded, declined) == State::Stale) == (!declined && (observed matches Some(f)
            && !same_content(f, expected) && recorded == Some(content_hash(f)))),
        !declined ==> state_of(Some(expected), expected, recorded, false) == State::Current,
{
    lemma_same_content_refl(expected);
}

/// A block is compared and hashed by its words: two blocks with the same
/// words have the same hash and the same state against any content.
pub proof fn law_block_by_words(a: Seq<char>, b: Seq<char>, expected: FoundView, recorded: Option<Seq<char>>, declined: bool)
    requires
        words(a) == words(b),
    ensures
        content_hash(FoundView::Block(a)) == content_hash(FoundView::Block(b)),
        state_of(Some(FoundView::Block(a)), expected, recorded, declined) == state_of(
            Some(FoundView::Block(b)),
            expected,
            recorded,
            declined,
        ),
        state_of(Some(FoundView::Block(a)), FoundView::Block(b), recorded, declined) == if declined {
            State::Skipped
        } else {
            State::Current
        },
{
}

/// A text's hash is the hash of the text itself, line endings aside, as
/// `hash_text` computes it.
pub proof fn law_text_hash(t: Seq<char>)
    ensures
        content_hash(FoundView::Text(t)) == crate::hash::text_hash(t),
{
}

/// No word holds a CR.
proof fn lemma_words_no_cr(t: Seq<char>, cur: Seq<char>)
    requires
        !cur.contains('\r'),
    ensures
        forall|i: int| 0 <= i < words_from(t, cur).len() ==> !(#[trigger] words_from(t, cur)[i]).contains('\r'),
    decreases t.len(),
{
    if t.len() == 0 {
        if cur.len() > 0 {
            assert(words_from(t, cur) =~= seq![cur]);
        }
    } else {
        if is_ws(t[0]) {
            lemma_words_no_cr(t.skip(1), Seq::empty());
            let a: Seq<Seq<char>> = if cur.len() > 0 { seq![cur] } else { Seq::empty() };
            let b = words_from(t.skip(1), Seq::empty());
            assert(words_from(t, cur) == a + b);
            assert forall|i: int| 0 <= i < (a + b).len() implies !(#[trigger] (a + b)[i]).contains('\r') by {
                if i >= a.len() {
                    assert((a + b)[i] == b[i - a.len()]);
                }
            }
        } else {
            assert(t[0] != '\r') by {
                assert(is_ws('\r'));
            }
            assert(!cur.push(t[0]).contains('\r')) by {
                if cur.push(t[0]).contains('\r') {
                    let k = choose|k: int| 0 <= k < cur.push(t[0]).len() && cur.push(t[0])[k] == '\r';
                    if k < cur.len() {
                        assert(cur[k] == '\r');
                    }
                }
            }
            lemma_words_no_cr(t.skip(1), cur.push(t[0]));
            assert(words_from(t, cur) == words_from(t.skip(1), cur.push(t[0])));
        }
    }
}

/// Words without CR joined by spaces hold no CR.
proof fn lemma_join_words_no_cr(ws: Seq<Seq<char>>)
    requires
        forall|i: int| 0 <= i < ws.len() ==> !(#[trigger] ws[i]).contains('\r'),
    ensures
        !join_words(ws).contains('\r'),
    decreases ws.len(),
{
    if ws.len() > 1 {
        let d = ws.drop_last();
        assert forall|i: int| 0 <= i < d.len() implies !(#[trigger] d[i]).contains('\r') by {
            assert(d[i] == ws[i]);
        }
        lemma_join_words_no_cr(d);
        let j = join_words(d) + seq![' '] + ws.last();
        assert(!ws[ws.len() - 1].contains('\r'));
        if j.contains('\r') {
            let k = choose|k: int| 0 <= k < j.len() && j[k] == '\r';
            let n = join_words(d).len() as int;
            if k < n {
                assert(join_words(d)[k] == '\r');
            } else if k > n {
                assert(ws.last()[k - n - 1] == '\r');
            }
        }
    } else if ws.len() == 1 {
        assert(!ws[0].contains('\r'));
    }
}

/// A block hashes as `hash_text` hashes its words joined by single spaces.
pub proof fn law_block_hash_is_text_hash_of_words(b: Seq<char>)
    ensures
        content_hash(FoundView::Block(b)) == crate::hash::text_hash(join_words(words(b))),
{
    lemma_words_no_cr(b, Seq::empty());
    lemma_join_words_no_cr(words(b));
    crate::harness::region::lemma_crlf_to_lf_plain(join_words(words(b)));
}

/// The words of a text do not see its CRLF pairs: they are whitespace
/// either way.
pub proof fn lemma_words_crlf(x: Seq<char>, cur: Seq<char>)
    ensures
        words_from(crlf_to_lf(x), cur) == words_from(x, cur),
    decreases x.len(),
{
    if x.len() > 0 {
        let y = crlf_to_lf(x);
        if x.len() >= 2 && x[0] == '\r' && x[1] == '\n' {
            lemma_words_crlf(x.skip(2), Seq::empty());
            assert(y[0] == '\n');
            assert(y.skip(1) =~= crlf_to_lf(x.skip(2)));
            assert(is_ws(x[0]) && is_ws(x[1]));
            assert(x.skip(1)[0] == '\n');
            assert(x.skip(1).skip(1) =~= x.skip(2));
            let e = Seq::<char>::empty();
            assert(words_from(x.skip(1), e) == words_from(x.skip(2), e));
            assert(Seq::<Seq<char>>::empty() + words_from(x.skip(2), e) =~= words_from(x.skip(2), e));
        } else {
            lemma_words_crlf(x.skip(1), cur.push(x[0]));
            lemma_words_crlf(x.skip(1), Seq::empty());
            assert(y[0] == x[0]);
            assert(y.skip(1) =~= crlf_to_lf(x.skip(1)));
        }
    }
}

/// Whitespace in front does not change the words.
pub proof fn lemma_words_skip_ws(t: Seq<char>, k: int)
    requires
        0 <= k <= t.len(),
        forall|j: int| 0 <= j < k ==> is_ws(#[trigger] t[j]),
    ensures
        words(t.skip(k)) == words(t),
    decreases k,
{
    if k == 0 {
        assert(t.skip(0) =~= t);
    } else {
        lemma_words_skip_ws(t.skip(1), k - 1);
        assert(t.skip(1).skip(k - 1) =~= t.skip(k));
        assert(is_ws(t[0]));
        assert(Seq::<Seq<char>>::empty() + words_from(t.skip(1), Seq::empty()) =~= words_from(t.skip(1), Seq::empty()));
    }
}

/// A whitespace character at the end does not change the words.
pub proof fn lemma_words_push_ws(b: Seq<char>, c: char, cur: Seq<char>)
    requires
        is_ws(c),
    ensures
        words_from(b.push(c), cur) == words_from(b, cur),
    decreases b.len(),
{
    let t = b.push(c);
    if b.len() == 0 {
        let e = Seq::<char>::empty();
        assert(t[0] == c);
        assert(t.skip(1) =~= e);
        assert(words_from(e, e) =~= Seq::<Seq<char>>::empty());
        assert(words_from(t.skip(1), e) =~= Seq::<Seq<char>>::empty());
        assert(b =~= e);
        if cur.len() > 0 {
            assert(seq![cur] + Seq::<Seq<char>>::empty() =~= seq![cur]);
        } else {
            assert(Seq::<Seq<char>>::empty() + Seq::<Seq<char>>::empty() =~= Seq::<Seq<char>>::empty());
        }
    } else {
        assert(t[0] == b[0]);
        assert(t.skip(1) =~= b.skip(1).push(c));
        lemma_words_push_ws(b.skip(1), c, Seq::empty());
        lemma_words_push_ws(b.skip(1), c, cur.push(b[0]));
    }
}

} // verus!
