//! The `region` kind: the tool owns one block between its markers in the
//! user's file.

use vstd::prelude::*;

use crate::lines::{index_from, index_from_exec, is_blank, is_blank_range, is_ws, join_lines, join_range, lemma_join_concat, lemma_join_split, lemma_split_concat, lemma_split_join, lemma_split_lines_len, lemma_split_single, lemma_trim_end_fixed, lines_view, split_lines, split_lines_exec, trim_end, trim_end_is};
use crate::harness::state::{lemma_words_crlf, lemma_words_push_ws, lemma_words_skip_ws, state_of, words, FoundView, State};
use crate::text::{append_chars, append_str, chars_of, crlf_to_lf, equal_chars, normalise_chars, string_of};

verus! {

/// `<!-- <tool>:harness -->`.
pub open spec fn open_marker(tool: Seq<char>) -> Seq<char> {
    "<!-- "@ + tool + ":harness -->"@
}

/// `<!-- /<tool>:harness -->`.
pub open spec fn close_marker(tool: Seq<char>) -> Seq<char> {
    "<!-- /"@ + tool + ":harness -->"@
}

/// A tool's region markers: `<!-- <tool>:harness -->` and
/// `<!-- /<tool>:harness -->`, each on a line of its own.
#[derive(Debug, Clone)]
pub struct Markers {
    /// The opening marker.
    pub open: String,
    /// The closing marker.
    pub close: String,
}

/// The first line at or after `from` that is `m` once its trailing
/// whitespace is trimmed.
pub open spec fn first_line_from(ls: Seq<Seq<char>>, m: Seq<char>, from: int) -> Option<int>
    decreases ls.len() - from,
{
    if from < 0 || from >= ls.len() {
        None
    } else if trim_end(ls[from]) == m {
        Some(from)
    } else {
        first_line_from(ls, m, from + 1)
    }
}

/// The line indexes of the markers: the first opening line and the first
/// closing line after it.
pub open spec fn find_markers(ls: Seq<Seq<char>>, open: Seq<char>, close: Seq<char>) -> Option<(int, int)> {
    match first_line_from(ls, open, 0) {
        Some(o) => match first_line_from(ls, close, o + 1) {
            Some(c) => Some((o, c)),
            None => None,
        },
        None => None,
    }
}

/// Text without its leading whitespace-only lines; empty when nothing but
/// whitespace is left.
pub open spec fn strip_blank_lines(t: Seq<char>) -> Seq<char>
    decreases t.len(),
{
    match index_from(t, '\n', 0) {
        Some(i) => if 0 <= i < t.len() && is_blank(t.take(i)) {
            strip_blank_lines(t.skip(i + 1))
        } else {
            t
        },
        None => if is_blank(t) {
            Seq::empty()
        } else {
            t
        },
    }
}

/// The block as the region holds it: LF, without its leading blank lines,
/// ending in LF unless empty.
pub open spec fn block_body(block: Seq<char>) -> Seq<char> {
    let b = strip_blank_lines(crlf_to_lf(block));
    if b.len() > 0 && b.last() != '\n' {
        b.push('\n')
    } else {
        b
    }
}

/// The block with its markers, LF, a blank line after the opening marker.
pub open spec fn framed_text(block: Seq<char>, open: Seq<char>, close: Seq<char>) -> Seq<char> {
    open + "\n\n"@ + block_body(block) + close + "\n"@
}

/// The region of `text` between the markers, as `find_region` returns it.
pub open spec fn region_of(text: Seq<char>, open: Seq<char>, close: Seq<char>) -> Option<Seq<char>> {
    let ls = split_lines(crlf_to_lf(text));
    match find_markers(ls, open, close) {
        Some((o, c)) => if c == o + 1 {
            Some(Seq::empty())
        } else {
            Some(strip_blank_lines(join_lines(ls.subrange(o + 1, c)).push('\n')))
        },
        None => None,
    }
}

/// Whether `t` holds a CR directly followed by LF.
pub open spec fn has_crlf(t: Seq<char>) -> bool {
    exists|i: int| 0 <= i < t.len() - 1 && #[trigger] t[i] == '\r' && t[i + 1] == '\n'
}

/// `t` with every LF replaced by CRLF.
pub open spec fn lf_to_crlf(t: Seq<char>) -> Seq<char>
    decreases t.len(),
{
    if t.len() == 0 {
        t
    } else if t.last() == '\n' {
        lf_to_crlf(t.drop_last()) + "\r\n"@
    } else {
        lf_to_crlf(t.drop_last()).push(t.last())
    }
}

/// The new text before line endings are restored.
pub open spec fn render_lf(text: Seq<char>, framed: Seq<char>, open: Seq<char>, close: Seq<char>) -> Seq<char> {
    let ls = split_lines(text);
    match find_markers(ls, open, close) {
        Some((o, c)) => {
            let head = join_lines(ls.take(o));
            let head = if o == 0 { head } else { head.push('\n') };
            head + framed + join_lines(ls.skip(c + 1))
        },
        None => if text.len() == 0 {
            framed
        } else {
            let head = if text.last() == '\n' { text } else { text.push('\n') };
            head.push('\n') + framed
        },
    }
}

/// The characters of an optional text.
pub open spec fn opt_view(t: Option<&str>) -> Option<Seq<char>> {
    match t {
        Some(s) => Some(s@),
        None => None,
    }
}

/// The file `render_region` writes; `None` when nothing changes.
pub open spec fn rendered(existing: Option<Seq<char>>, block: Seq<char>, open: Seq<char>, close: Seq<char>) -> Option<Seq<char>> {
    let framed = framed_text(block, open, close);
    match existing {
        None => Some(framed),
        Some(e) => {
            let out = render_lf(crlf_to_lf(e), framed, open, close);
            let out = if has_crlf(e) { lf_to_crlf(out) } else { out };
            if out == e { None } else { Some(out) }
        },
    }
}

proof fn lemma_index_from_skip(t: Seq<char>, c: char, p: int, k: int)
    requires
        0 <= p <= t.len(),
        0 <= k,
    ensures
        index_from(t.skip(p), c, k) == (match index_from(t, c, p + k) {
            Some(i) => Some(i - p),
            None => None,
        }),
    decreases t.len() - p - k,
{
    if p + k < t.len() {
        assert(t.skip(p)[k] == t[p + k]);
        lemma_index_from_skip(t, c, p, k + 1);
    }
}

proof fn lemma_index_from_bounds(t: Seq<char>, c: char, from: int)
    ensures
        index_from(t, c, from) matches Some(i) ==> from <= i < t.len() && t[i] == c
            && forall|j: int| from <= j < i ==> t[j] != c,
    decreases t.len() - from,
{
    if 0 <= from < t.len() && t[from] != c {
        lemma_index_from_bounds(t, c, from + 1);
    }
}

proof fn lemma_first_line_from_bounds(ls: Seq<Seq<char>>, m: Seq<char>, from: int)
    ensures
        first_line_from(ls, m, from) matches Some(i) ==> from <= i < ls.len() && trim_end(ls[i]) == m
            && forall|j: int| from <= j < i ==> trim_end(#[trigger] ls[j]) != m,
    decreases ls.len() - from,
{
    if 0 <= from < ls.len() && trim_end(ls[from]) != m {
        lemma_first_line_from_bounds(ls, m, from + 1);
    }
}

/// `t[from..]` without its leading whitespace-only lines.
fn strip_leading_blank_lines(t: &Vec<char>) -> (out: Vec<char>)
    ensures
        out@ == strip_blank_lines(t@),
{
    let mut pos: usize = 0;
    assert(t@.skip(0) =~= t@);
    loop
        invariant
            pos <= t.len(),
            strip_blank_lines(t@) == strip_blank_lines(t@.skip(pos as int)),
        ensures
            pos <= t.len(),
            strip_blank_lines(t@) == t@.skip(pos as int),
        decreases t.len() - pos,
    {
        let ghost rest = t@.skip(pos as int);
        proof {
            lemma_index_from_skip(t@, '\n', pos as int, 0);
            lemma_index_from_bounds(t@, '\n', pos as int);
        }
        match index_from_exec(t, '\n', pos) {
            Some(i) => {
                assert(rest.take(i - pos) =~= t@.subrange(pos as int, i as int));
                if !is_blank_range(t, pos, i) {
                    break;
                }
                assert(rest.skip(i - pos + 1) =~= t@.skip(i + 1));
                pos = i + 1;
            },
            None => {
                assert(rest =~= t@.subrange(pos as int, t.len() as int));
                if is_blank_range(t, pos, t.len()) {
                    return Vec::new();
                }
                break;
            },
        }
    }
    let mut out: Vec<char> = Vec::new();
    let mut j = pos;
    while j < t.len()
        invariant
            pos <= j <= t.len(),
            out@ == t@.subrange(pos as int, j as int),
        decreases t.len() - j,
    {
        out.push(t[j]);
        j = j + 1;
        assert(out@ =~= t@.subrange(pos as int, j as int));
    }
    assert(out@ =~= t@.skip(pos as int));
    out
}

/// The first line at or after `from` that is `m` once trimmed at its end.
fn first_line_from_exec(ls: &Vec<Vec<char>>, m: &Vec<char>, from: usize) -> (r: Option<usize>)
    ensures
        r matches Some(i) ==> first_line_from(lines_view(ls@), m@, from as int) == Some(i as int),
        r is None ==> first_line_from(lines_view(ls@), m@, from as int) is None,
{
    let mut i = from;
    while i < ls.len()
        invariant
            from <= i,
            first_line_from(lines_view(ls@), m@, from as int) == first_line_from(lines_view(ls@), m@, i as int),
        decreases ls.len() - i,
    {
        assert(lines_view(ls@)[i as int] == ls@[i as int]@);
        if trim_end_is(&ls[i], m) {
            return Some(i);
        }
        i = i + 1;
    }
    None
}

/// Whether `t` holds a CR directly followed by LF.
fn has_crlf_exec(t: &Vec<char>) -> (r: bool)
    ensures
        r == has_crlf(t@),
{
    if t.len() < 2 {
        return false;
    }
    let mut i: usize = 0;
    while i < t.len() - 1
        invariant
            t.len() >= 2,
            forall|j: int| 0 <= j < i && j < t.len() - 1 ==> !(#[trigger] t@[j] == '\r' && t@[j + 1] == '\n'),
        decreases t.len() - i,
    {
        if t[i] == '\r' && t[i + 1] == '\n' {
            return true;
        }
        i = i + 1;
    }
    false
}

/// `t` with every LF replaced by CRLF.
fn lf_to_crlf_exec(t: &Vec<char>) -> (out: Vec<char>)
    ensures
        out@ == lf_to_crlf(t@),
{
    let mut out: Vec<char> = Vec::new();
    let mut i: usize = 0;
    assert(t@.take(0) =~= Seq::<char>::empty());
    while i < t.len()
        invariant
            i <= t.len(),
            out@ == lf_to_crlf(t@.take(i as int)),
        decreases t.len() - i,
    {
        assert(t@.take(i + 1).drop_last() =~= t@.take(i as int));
        if t[i] == '\n' {
            out.push('\r');
            out.push('\n');
            assert(out@ =~= lf_to_crlf(t@.take(i as int)) + "\r\n"@) by {
                reveal_strlit("\r\n");
            }
        } else {
            out.push(t[i]);
        }
        i = i + 1;
    }
    assert(t@.take(i as int) =~= t@);
    out
}

impl Markers {
    /// The markers of the tool named `tool`.
    pub fn new(tool: &str) -> (m: Self)
        ensures
            m.open@ == open_marker(tool@),
            m.close@ == close_marker(tool@),
    {
        let mut open: Vec<char> = Vec::new();
        append_str(&mut open, "<!-- ");
        append_str(&mut open, tool);
        append_str(&mut open, ":harness -->");
        let mut close: Vec<char> = Vec::new();
        append_str(&mut close, "<!-- /");
        append_str(&mut close, tool);
        append_str(&mut close, ":harness -->");
        Markers { open: string_of(&open), close: string_of(&close) }
    }

    /// The line indexes of the markers in LF text: the first opening line
    /// and the first closing line after it.
    fn find(&self, lines: &Vec<Vec<char>>) -> (r: Option<(usize, usize)>)
        ensures
            r matches Some((o, c)) ==> find_markers(lines_view(lines@), self.open@, self.close@) == Some(
                (o as int, c as int),
            ),
            r is None ==> find_markers(lines_view(lines@), self.open@, self.close@) is None,
    {
        let open = chars_of(self.open.as_str());
        let close = chars_of(self.close.as_str());
        let o = match first_line_from_exec(lines, &open, 0) {
            Some(o) => o,
            None => return None,
        };
        proof { lemma_first_line_from_bounds(lines_view(lines@), open@, 0); }
        assert(o < lines.len());
        match first_line_from_exec(lines, &close, o + 1) {
            Some(c) => Some((o, c)),
            None => None,
        }
    }

    /// The block with its markers, LF, a blank line after the opening
    /// marker.
    pub fn framed(&self, block: &str) -> (s: String)
        ensures
            s@ == framed_text(block@, self.open@, self.close@),
    {
        string_of(&self.framed_chars(block))
    }

    fn framed_chars(&self, block: &str) -> (s: Vec<char>)
        ensures
            s@ == framed_text(block@, self.open@, self.close@),
    {
        let b = chars_of(block);
        let mut body = strip_leading_blank_lines(&normalise_chars(&b));
        if body.len() > 0 && body[body.len() - 1] != '\n' {
            body.push('\n');
        }
        let mut out = chars_of(self.open.as_str());
        append_str(&mut out, "\n\n");
        append_chars(&mut out, &body);
        append_str(&mut out, self.close.as_str());
        append_str(&mut out, "\n");
        out
    }
}

/// The block between the markers, LF, without the blank lines that open
/// it and with its trailing newline; `None` when the markers are absent.
pub fn find_region(text: &str, markers: &Markers) -> (r: Option<String>)
    ensures
        r matches Some(s) ==> region_of(text@, markers.open@, markers.close@) == Some(s@),
        r is None ==> region_of(text@, markers.open@, markers.close@) is None,
{
    let t = normalise_chars(&chars_of(text));
    let lines = split_lines_exec(&t);
    let (open, close) = match markers.find(&lines) {
        Some(p) => p,
        None => return None,
    };
    proof {
        let ls = lines_view(lines@);
        lemma_first_line_from_bounds(ls, markers.open@, 0);
        lemma_first_line_from_bounds(ls, markers.close@, open + 1);
    }
    if close == open + 1 {
        return Some(String::new());
    }
    let mut inner = join_range(&lines, open + 1, close);
    inner.push('\n');
    Some(string_of(&strip_leading_blank_lines(&inner)))
}

/// The file to write: the block rewritten between the first markers,
/// appended after one blank line when they are absent, or alone for an
/// absent or empty file. The file's line endings are kept. `None` when
/// nothing changes.
pub fn render_region(existing: Option<&str>, block: &str, markers: &Markers) -> (r: Option<String>)
    ensures
        r matches Some(s) ==> rendered(opt_view(existing), block@, markers.open@, markers.close@) == Some(s@),
        r is None ==> rendered(opt_view(existing), block@, markers.open@, markers.close@) is None,
{
    let new_block = markers.framed_chars(block);
    let existing = match existing {
        Some(e) => e,
        None => return Some(string_of(&new_block)),
    };
    let e = chars_of(existing);
    let crlf = has_crlf_exec(&e);
    let text = normalise_chars(&e);
    let lines = split_lines_exec(&text);
    let out = match markers.find(&lines) {
        Some((open, close)) => {
            proof {
                let ls = lines_view(lines@);
                lemma_first_line_from_bounds(ls, markers.open@, 0);
                lemma_first_line_from_bounds(ls, markers.close@, open + 1);
                assert(ls.take(open as int) =~= ls.subrange(0, open as int));
                assert(ls.skip(close + 1) =~= ls.subrange(close + 1, ls.len() as int));
            }
            let mut head = join_range(&lines, 0, open);
            if open != 0 {
                head.push('\n');
            }
            let tail = join_range(&lines, close + 1, lines.len());
            append_chars(&mut head, &new_block);
            append_chars(&mut head, &tail);
            head
        },
        None => {
            if text.len() == 0 {
                new_block
            } else {
                let mut head = text;
                if head[head.len() - 1] != '\n' {
                    head.push('\n');
                }
                head.push('\n');
                append_chars(&mut head, &new_block);
                head
            }
        },
    };
    let out = if crlf { lf_to_crlf_exec(&out) } else { out };
    if equal_chars(&out, &e) {
        None
    } else {
        Some(string_of(&out))
    }
}

/// Text without CR is its own LF form.
pub proof fn lemma_crlf_to_lf_plain(t: Seq<char>)
    requires
        !t.contains('\r'),
    ensures
        crlf_to_lf(t) == t,
    decreases t.len(),
{
    if t.len() > 0 {
        assert(t[0] != '\r');
        assert(!t.skip(1).contains('\r')) by {
            if t.skip(1).contains('\r') {
                let k = choose|k: int| 0 <= k < t.skip(1).len() && t.skip(1)[k] == '\r';
                assert(t[k + 1] == '\r');
            }
        }
        lemma_crlf_to_lf_plain(t.skip(1));
        assert(seq![t[0]] + t.skip(1) =~= t);
    }
}

/// Whether `t` ends in CR.
pub open spec fn ends_in_cr(t: Seq<char>) -> bool {
    t.len() > 0 && t.last() == '\r'
}

/// Restoring CRLF and converting back gives any text back; a text with a
/// LF has a CRLF pair once restored.
proof fn lemma_crlf_round_trip_any(t: Seq<char>)
    ensures
        crlf_to_lf(lf_to_crlf(t)) == t,
        t.contains('\n') ==> has_crlf(lf_to_crlf(t)),
    decreases t.len(),
{
    if t.len() > 0 {
        let d = t.drop_last();
        lemma_crlf_round_trip_any(d);
        let x = lf_to_crlf(d);
        if t.last() == '\n' {
            reveal_strlit("\r\n");
            lemma_crlf_to_lf_split(x, "\r\n"@);
            assert(crlf_to_lf("\r\n"@) =~= seq!['\n']) by {
                let e = "\r\n"@.skip(2);
                assert(e =~= Seq::<char>::empty());
                assert(crlf_to_lf(e) == e);
            }
            assert(d.push('\n') =~= t);
            let r = x + "\r\n"@;
            assert(r[x.len() as int] == '\r' && r[x.len() as int + 1] == '\n');
        } else {
            let c = t.last();
            lemma_crlf_to_lf_split(x, seq![c]);
            assert(crlf_to_lf(seq![c]) =~= seq![c]) by {
                let e = seq![c].skip(1);
                assert(e =~= Seq::<char>::empty());
                assert(crlf_to_lf(e) == e);
            }
            assert(x + seq![c] =~= x.push(c));
            assert(d.push(c) =~= t);
            if t.contains('\n') {
                assert(d.contains('\n')) by {
                    let k = choose|k: int| 0 <= k < t.len() && t[k] == '\n';
                    assert(k < t.len() - 1);
                    assert(d[k] == '\n');
                }
                let k = choose|k: int| 0 <= k < x.len() - 1 && #[trigger] x[k] == '\r' && x[k + 1] == '\n';
                assert(x.push(c)[k] == '\r' && x.push(c)[k + 1] == '\n');
            }
        }
    }
}

/// A text with no CRLF pair that does not end in CR has its CRs inside.
proof fn lemma_unpaired_cr_inside(t: Seq<char>)
    requires
        !has_crlf(t),
        !ends_in_cr(t),
    ensures
        cr_inside(t),
{
    assert forall|i: int| 0 <= i < t.len() && #[trigger] t[i] == '\r' implies i + 1 < t.len() && t[i + 1] != '\n' by {
        if i + 1 >= t.len() {
            assert(t.last() == t[i]);
        }
    }
}

/// No CR of `t` stands at its end or directly before a LF.
pub open spec fn cr_inside(t: Seq<char>) -> bool {
    forall|i: int| 0 <= i < t.len() && #[trigger] t[i] == '\r' ==> i + 1 < t.len() && t[i + 1] != '\n'
}

/// Converting CRLF to LF splits at a boundary that does not cut a CRLF
/// pair, whichever side a CR stands on.
proof fn lemma_crlf_to_lf_split(x: Seq<char>, y: Seq<char>)
    requires
        x.len() == 0 || x.last() != '\r' || y.len() == 0 || y[0] != '\n',
    ensures
        crlf_to_lf(x + y) == crlf_to_lf(x) + crlf_to_lf(y),
    decreases x.len(),
{
    if x.len() == 0 {
        assert(x + y =~= y);
    } else if x.len() >= 2 && x[0] == '\r' && x[1] == '\n' {
        assert((x + y).skip(2) =~= x.skip(2) + y);
        lemma_crlf_to_lf_split(x.skip(2), y);
    } else {
        assert((x + y).skip(1) =~= x.skip(1) + y);
        if x.len() == 1 && y.len() > 0 {
            assert((x + y)[1] == y[0]);
        }
        lemma_crlf_to_lf_split(x.skip(1), y);
    }
}

/// Text without a CRLF pair is its own LF form.
proof fn lemma_crlf_to_lf_unpaired(t: Seq<char>)
    requires
        !has_crlf(t),
    ensures
        crlf_to_lf(t) == t,
    decreases t.len(),
{
    if t.len() > 0 {
        assert(!(t.len() >= 2 && t[0] == '\r' && t[1] == '\n'));
        assert(!has_crlf(t.skip(1))) by {
            if has_crlf(t.skip(1)) {
                let k = choose|k: int| 0 <= k < t.skip(1).len() - 1 && #[trigger] t.skip(1)[k] == '\r' && t.skip(1)[k + 1] == '\n';
                assert(t[k + 1] == '\r' && t[k + 2] == '\n');
            }
        }
        lemma_crlf_to_lf_unpaired(t.skip(1));
        assert(seq![t[0]] + t.skip(1) =~= t);
    }
}

/// Restoring CRLF and converting back gives text without a CRLF pair back;
/// the restored text ends as the text does.
proof fn lemma_crlf_round_trip_unpaired(t: Seq<char>)
    requires
        !has_crlf(t),
    ensures
        crlf_to_lf(lf_to_crlf(t)) == t,
        t.len() > 0 ==> lf_to_crlf(t).len() > 0 && lf_to_crlf(t).last() == t.last(),
        t.contains('\n') ==> has_crlf(lf_to_crlf(t)),
    decreases t.len(),
{
    if t.len() > 0 {
        let d = t.drop_last();
        assert(!has_crlf(d)) by {
            if has_crlf(d) {
                let k = choose|k: int| 0 <= k < d.len() - 1 && #[trigger] d[k] == '\r' && d[k + 1] == '\n';
                assert(t[k] == '\r' && t[k + 1] == '\n');
            }
        }
        lemma_crlf_round_trip_unpaired(d);
        let x = lf_to_crlf(d);
        if t.last() == '\n' {
            if d.len() > 0 {
                assert(d.last() != '\r') by {
                    assert(t[d.len() - 1] == d.last());
                    assert(t[d.len() as int] == '\n');
                }
            }
            lemma_crlf_to_lf_split(x, "\r\n"@);
            reveal_strlit("\r\n");
            assert(crlf_to_lf("\r\n"@) =~= seq!['\n']) by {
                reveal_strlit("\r\n");
                let e = "\r\n"@.skip(2);
                assert(e =~= Seq::<char>::empty());
                assert(crlf_to_lf(e) == e);
            }
            assert(d.push('\n') =~= t);
            let r = x + "\r\n"@;
            assert(r[x.len() as int] == '\r' && r[x.len() as int + 1] == '\n');
        } else {
            let c = t.last();
            lemma_crlf_to_lf_split(x, seq![c]);
            assert(crlf_to_lf(seq![c]) =~= seq![c]) by {
                let e = seq![c].skip(1);
                assert(e =~= Seq::<char>::empty());
                assert(crlf_to_lf(e) == e);
            }
            assert(x + seq![c] =~= x.push(c));
            assert(d.push(c) =~= t);
            if t.contains('\n') {
                assert(d.contains('\n')) by {
                    let k = choose|k: int| 0 <= k < t.len() && t[k] == '\n';
                    assert(k < t.len() - 1);
                    assert(d[k] == '\n');
                }
                let k = choose|k: int| 0 <= k < x.len() - 1 && #[trigger] x[k] == '\r' && x[k + 1] == '\n';
                assert(x.push(c)[k] == '\r' && x.push(c)[k + 1] == '\n');
            }
        }
    }
}

/// Text whose CRs all stand inside has no CRLF pair and does not end in CR.
proof fn lemma_cr_inside_unpaired(t: Seq<char>)
    requires
        cr_inside(t),
    ensures
        !has_crlf(t),
        t.len() > 0 ==> t.last() != '\r',
{
    if has_crlf(t) {
        let k = choose|k: int| 0 <= k < t.len() - 1 && #[trigger] t[k] == '\r' && t[k + 1] == '\n';
        assert(t[k] == '\r');
    }
    if t.len() > 0 && t.last() == '\r' {
        assert(t[t.len() - 1] == '\r');
    }
}

/// Text whose CRs stand inside, joined, still has them inside.
proof fn lemma_cr_inside_concat(x: Seq<char>, y: Seq<char>)
    requires
        cr_inside(x),
        cr_inside(y),
    ensures
        cr_inside(x + y),
{
    assert forall|i: int| 0 <= i < (x + y).len() && #[trigger] (x + y)[i] == '\r' implies i + 1 < (x + y).len() && (x
        + y)[i + 1] != '\n' by {
        if i < x.len() {
            assert(x[i] == '\r');
            assert((x + y)[i + 1] == x[i + 1]);
        } else {
            assert(y[i - x.len()] == '\r');
            assert((x + y)[i + 1] == y[i + 1 - x.len()]);
        }
    }
}

/// Text without CR has its CRs inside.
proof fn lemma_no_cr_inside(t: Seq<char>)
    requires
        !t.contains('\r'),
    ensures
        cr_inside(t),
{
    assert forall|i: int| 0 <= i < t.len() && #[trigger] t[i] == '\r' implies i + 1 < t.len() && t[i + 1] != '\n' by {
        assert(t.contains('\r'));
    }
}

/// A piece of text whose CRs stand inside, cut after a LF or at its end
/// on either side, has its CRs inside.
proof fn lemma_cr_inside_cut(t: Seq<char>, k: int)
    requires
        cr_inside(t),
        0 <= k <= t.len(),
    ensures
        cr_inside(t.skip(k)),
        k == 0 || t[k - 1] == '\n' ==> cr_inside(t.take(k)),
{
    assert forall|i: int| 0 <= i < t.skip(k).len() && #[trigger] t.skip(k)[i] == '\r' implies i + 1 < t.skip(k).len()
        && t.skip(k)[i + 1] != '\n' by {
        assert(t[i + k] == '\r');
    }
    if k == 0 || t[k - 1] == '\n' {
        assert forall|i: int| 0 <= i < t.take(k).len() && #[trigger] t.take(k)[i] == '\r' implies i + 1 < t.take(
            k,
        ).len() && t.take(k)[i + 1] != '\n' by {
            assert(t[i] == '\r');
            assert(i != k - 1);
        }
    }
}

proof fn lemma_index_from_found(t: Seq<char>, c: char, from: int, i: int)
    requires
        0 <= from <= i < t.len(),
        t[i] == c,
        forall|j: int| from <= j < i ==> t[j] != c,
    ensures
        index_from(t, c, from) == Some(i),
    decreases i - from,
{
    if from < i {
        lemma_index_from_found(t, c, from + 1, i);
    }
}

proof fn lemma_index_from_none(t: Seq<char>, c: char, from: int)
    requires
        0 <= from,
        index_from(t, c, from) is None,
    ensures
        forall|j: int| from <= j < t.len() ==> t[j] != c,
    decreases t.len() - from,
{
    if from < t.len() {
        lemma_index_from_none(t, c, from + 1);
    }
}

/// What `strip_blank_lines` leaves is a suffix of its input.
proof fn lemma_strip_suffix(t: Seq<char>) -> (k: int)
    ensures
        0 <= k <= t.len(),
        strip_blank_lines(t) == t.skip(k),
    decreases t.len(),
{
    match index_from(t, '\n', 0) {
        Some(i) => if 0 <= i < t.len() && is_blank(t.take(i)) {
            let k2 = lemma_strip_suffix(t.skip(i + 1));
            assert(t.skip(i + 1).skip(k2) =~= t.skip(i + 1 + k2));
            i + 1 + k2
        } else {
            assert(t.skip(0) =~= t);
            0
        },
        None => if is_blank(t) {
            assert(t.skip(t.len() as int) =~= Seq::<char>::empty());
            t.len() as int
        } else {
            assert(t.skip(0) =~= t);
            0
        },
    }
}

/// Stripping the blank lines twice is stripping them once.
proof fn lemma_strip_idempotent(t: Seq<char>)
    ensures
        strip_blank_lines(strip_blank_lines(t)) == strip_blank_lines(t),
    decreases t.len(),
{
    match index_from(t, '\n', 0) {
        Some(i) => if 0 <= i < t.len() && is_blank(t.take(i)) {
            lemma_strip_idempotent(t.skip(i + 1));
        },
        None => if is_blank(t) {
            let e = Seq::<char>::empty();
            assert(index_from(e, '\n', 0) is None);
            assert(is_blank(e));
        },
    }
}

/// A text whose first line is not blank keeps that line when a LF is
/// appended.
proof fn lemma_strip_push_lf(b: Seq<char>)
    requires
        b.len() > 0,
        strip_blank_lines(b) == b,
    ensures
        strip_blank_lines(b.push('\n')) == b.push('\n'),
{
    let bp = b.push('\n');
    match index_from(b, '\n', 0) {
        Some(i) => {
            lemma_index_from_bounds(b, '\n', 0);
            if is_blank(b.take(i)) {
                let k = lemma_strip_suffix(b.skip(i + 1));
                assert(false);
            }
            assert forall|j: int| 0 <= j < i implies bp[j] != '\n' by {
                assert(bp[j] == b[j]);
            }
            lemma_index_from_found(bp, '\n', 0, i);
            assert(bp.take(i) =~= b.take(i));
        },
        None => {
            lemma_index_from_none(b, '\n', 0);
            assert(!is_blank(b));
            assert forall|j: int| 0 <= j < b.len() implies bp[j] != '\n' by {
                assert(bp[j] == b[j]);
            }
            lemma_index_from_found(bp, '\n', 0, b.len() as int);
            assert(bp.take(b.len() as int) =~= b);
        },
    }
}

/// A blank first line is stripped.
proof fn lemma_strip_lf_first(y: Seq<char>)
    ensures
        strip_blank_lines(seq!['\n'] + y) == strip_blank_lines(y),
{
    let t = seq!['\n'] + y;
    lemma_index_from_found(t, '\n', 0, 0);
    assert(t.take(0) =~= Seq::<char>::empty());
    assert(t.skip(1) =~= y);
}

/// The block as the region holds it is its own stripped form, ends in LF
/// unless empty, and holds no CR when the block holds none.
proof fn lemma_block_body(block: Seq<char>)
    ensures
        strip_blank_lines(block_body(block)) == block_body(block),
        block_body(block).len() > 0 ==> block_body(block).last() == '\n',
        !crlf_to_lf(block).contains('\r') ==> !block_body(block).contains('\r'),
{
    let x = crlf_to_lf(block);
    let b = strip_blank_lines(x);
    lemma_strip_idempotent(x);
    let k = lemma_strip_suffix(x);
    if b.len() > 0 && b.last() != '\n' {
        lemma_strip_push_lf(b);
    }
    if !x.contains('\r') && block_body(block).contains('\r') {
        let j = choose|j: int| 0 <= j < block_body(block).len() && block_body(block)[j] == '\r';
        if j < b.len() {
            assert(x[k + j] == '\r');
        }
    }
}

/// The lines of the block as the region holds it, without the empty piece
/// after its final LF.
pub open spec fn body_lines(block: Seq<char>) -> Seq<Seq<char>> {
    let b = block_body(block);
    if b.len() == 0 {
        Seq::empty()
    } else {
        split_lines(b.drop_last())
    }
}

/// The lines `p`, each ended by LF.
pub open spec fn head_text(p: Seq<Seq<char>>) -> Seq<char> {
    if p.len() == 0 {
        Seq::empty()
    } else {
        join_lines(p).push('\n')
    }
}

/// Whether `m` can stand as a marker: a non-empty line without CR, not
/// ending in whitespace.
pub open spec fn marker_ok(m: Seq<char>) -> bool {
    &&& m.len() > 0
    &&& !m.contains('\n')
    &&& !m.contains('\r')
    &&& !is_ws(m.last())
}

proof fn lemma_no_char_concat(a: Seq<char>, b: Seq<char>, c: char)
    requires
        !a.contains(c),
        !b.contains(c),
    ensures
        !(a + b).contains(c),
{
    if (a + b).contains(c) {
        let k = choose|k: int| 0 <= k < (a + b).len() && (a + b)[k] == c;
        if k < a.len() {
            assert(a[k] == c);
        } else {
            assert(b[k - a.len()] == c);
        }
    }
}

/// The lines of a text made of lines, the framed block and a tail.
#[verifier::spinoff_prover]
#[verifier::rlimit(40)]
proof fn lemma_output_lines(p: Seq<Seq<char>>, block: Seq<char>, open: Seq<char>, close: Seq<char>, tail: Seq<char>)
    requires
        forall|i: int| 0 <= i < p.len() ==> !(#[trigger] p[i]).contains('\n'),
        !open.contains('\n'),
        !close.contains('\n'),
    ensures
        split_lines(head_text(p) + framed_text(block, open, close) + tail) == p + seq![open, Seq::<char>::empty()]
            + body_lines(block) + seq![close] + split_lines(tail),
{
    let body = block_body(block);
    let bl = body_lines(block);
    let lf = seq!['\n'];
    let e = Seq::<char>::empty();
    lemma_block_body(block);
    let z = close + lf + tail;
    lemma_split_concat(close, tail);
    lemma_split_single(close);
    let y = body + z;
    if body.len() == 0 {
        assert(y =~= z);
        assert(bl =~= Seq::<Seq<char>>::empty());
    } else {
        assert(y =~= body.drop_last() + lf + z);
        lemma_split_concat(body.drop_last(), z);
    }
    assert(split_lines(y) =~= bl + seq![close] + split_lines(tail));
    let w = e + lf + y;
    lemma_split_concat(e, y);
    assert(split_lines(e) =~= seq![e]);
    let v = open + lf + w;
    lemma_split_concat(open, w);
    lemma_split_single(open);
    reveal_strlit("\n\n");
    reveal_strlit("\n");
    assert(framed_text(block, open, close) + tail =~= v);
    if p.len() == 0 {
        assert(head_text(p) + framed_text(block, open, close) + tail =~= v);
    } else {
        lemma_split_join(p);
        lemma_split_concat(join_lines(p), v);
        assert(head_text(p) + framed_text(block, open, close) + tail =~= join_lines(p) + lf + v);
    }
    assert(p + seq![open, e] + bl + seq![close] + split_lines(tail) =~= p + (seq![open] + (seq![e] + (bl
        + seq![close] + split_lines(tail)))));
}

proof fn lemma_first_line_found(ls: Seq<Seq<char>>, m: Seq<char>, from: int, k: int)
    requires
        0 <= from <= k < ls.len(),
        trim_end(ls[k]) == m,
        forall|j: int| from <= j < k ==> trim_end(#[trigger] ls[j]) != m,
    ensures
        first_line_from(ls, m, from) == Some(k),
    decreases k - from,
{
    if from < k {
        lemma_first_line_found(ls, m, from + 1, k);
    }
}

proof fn lemma_first_line_none(ls: Seq<Seq<char>>, m: Seq<char>, from: int)
    requires
        0 <= from,
        first_line_from(ls, m, from) is None,
    ensures
        forall|j: int| from <= j < ls.len() ==> trim_end(#[trigger] ls[j]) != m,
    decreases ls.len() - from,
{
    if from < ls.len() {
        lemma_first_line_none(ls, m, from + 1);
    }
}

/// The markers of a text laid out as `p`, the opening marker, a blank
/// line, the block, the closing marker and `r` are the ones around the
/// block, and the region is the block.
proof fn lemma_markers_found(p: Seq<Seq<char>>, block: Seq<char>, open: Seq<char>, close: Seq<char>, r: Seq<Seq<char>>)
    requires
        marker_ok(open),
        marker_ok(close),
        forall|j: int| 0 <= j < p.len() ==> trim_end(#[trigger] p[j]) != open,
        forall|j: int| 0 <= j < body_lines(block).len() ==> trim_end(#[trigger] body_lines(block)[j]) != close,
    ensures
        ({
            let ls = p + seq![open, Seq::<char>::empty()] + body_lines(block) + seq![close] + r;
            find_markers(ls, open, close) == Some((p.len() as int, p.len() + 2 + body_lines(block).len() as int))
        }),
{
    let bl = body_lines(block);
    let e = Seq::<char>::empty();
    let ls = p + seq![open, e] + bl + seq![close] + r;
    let o = p.len() as int;
    let c = o + 2 + bl.len();
    lemma_trim_end_fixed(open);
    lemma_trim_end_fixed(close);
    lemma_trim_end_fixed(e);
    assert forall|j: int| 0 <= j < o implies trim_end(#[trigger] ls[j]) != open by {
        assert(ls[j] == p[j]);
    }
    assert(ls[o] == open);
    lemma_first_line_found(ls, open, 0, o);
    assert forall|j: int| o + 1 <= j < c implies trim_end(#[trigger] ls[j]) != close by {
        if j == o + 1 {
            assert(ls[j] == e);
        } else {
            assert(ls[j] == bl[j - o - 2]);
        }
    }
    assert(ls[c] == close);
    lemma_first_line_found(ls, close, o + 1, c);
}

/// In a text laid out as lines `p`, the framed block and a tail, the region
/// is the block, and rendering the block again gives the text back.
proof fn lemma_framed_round_trip(
    p: Seq<Seq<char>>,
    block: Seq<char>,
    open: Seq<char>,
    close: Seq<char>,
    tail: Seq<char>,
    after: Seq<char>,
)
    requires
        marker_ok(open),
        marker_ok(close),
        forall|j: int| 0 <= j < p.len() ==> !(#[trigger] p[j]).contains('\n'),
        forall|j: int| 0 <= j < p.len() ==> trim_end(#[trigger] p[j]) != open,
        forall|j: int| 0 <= j < body_lines(block).len() ==> trim_end(#[trigger] body_lines(block)[j]) != close,
        crlf_to_lf(after) == head_text(p) + framed_text(block, open, close) + tail,
    ensures
        region_of(after, open, close) == Some(block_body(block)),
        render_lf(crlf_to_lf(after), framed_text(block, open, close), open, close) == crlf_to_lf(after),
{
    let framed = framed_text(block, open, close);
    let out = head_text(p) + framed + tail;
    let bl = body_lines(block);
    let body = block_body(block);
    let e = Seq::<char>::empty();
    let r = split_lines(tail);
    lemma_output_lines(p, block, open, close, tail);
    lemma_markers_found(p, block, open, close, r);
    let ls = split_lines(out);
    let o = p.len() as int;
    let c = o + 2 + bl.len();
    assert(ls =~= p + seq![open, e] + bl + seq![close] + r);
    // The region.
    lemma_block_body(block);
    assert(ls.subrange(o + 1, c) =~= seq![e] + bl);
    if bl.len() == 0 {
        assert(seq![e] + bl =~= seq![e]);
        assert(join_lines(seq![e]) == e);
        assert(e.push('\n') =~= seq!['\n'] + e);
        lemma_strip_lf_first(e);
        assert(index_from(e, '\n', 0) is None);
        assert(is_blank(e));
        assert(body.len() == 0) by {
            if body.len() > 0 {
                assert(bl == split_lines(body.drop_last()));
                lemma_split_lines_len(body.drop_last());
            }
        }
        assert(body =~= e);
    } else {
        lemma_join_concat(seq![e], bl);
        assert(join_lines(seq![e]) == e);
        lemma_join_split(body.drop_last());
        assert(join_lines(seq![e] + bl).push('\n') =~= seq!['\n'] + body);
        lemma_strip_lf_first(body);
    }
    // Rendering again.
    assert(ls.take(o) =~= p);
    assert(ls.skip(c + 1) =~= r);
    lemma_join_split(tail);
    if o == 0 {
        assert(join_lines(ls.take(o)) =~= e);
    }
    assert(render_lf(out, framed, open, close) =~= out);
}

/// The rendering of an existing LF text is laid out as lines, the framed
/// block and a tail taken from the text.
proof fn lemma_existing_layout(text: Seq<char>, block: Seq<char>, open: Seq<char>, close: Seq<char>) -> (pt: (
    Seq<Seq<char>>,
    Seq<char>,
))
    requires
        marker_ok(open),
        find_markers(split_lines(text), open, close) is Some || first_line_from(split_lines(text), open, 0) is None,
    ensures
        render_lf(text, framed_text(block, open, close), open, close) == head_text(pt.0) + framed_text(block, open, close)
            + pt.1,
        forall|j: int| 0 <= j < pt.0.len() ==> !(#[trigger] pt.0[j]).contains('\n'),
        forall|j: int| 0 <= j < pt.0.len() ==> trim_end(#[trigger] pt.0[j]) != open,
        cr_inside(text) ==> cr_inside(head_text(pt.0)) && cr_inside(pt.1),
        find_markers(split_lines(text), open, close) matches Some((o, c)) ==> pt.0 == split_lines(text).take(o)
            && pt.0.len() == o,
        find_markers(split_lines(text), open, close) is None ==> (head_text(pt.0) + framed_text(block, open, close)
            + pt.1).take(text.len() as int) == text,
{
    let framed = framed_text(block, open, close);
    let ls = split_lines(text);
    let e = Seq::<char>::empty();
    lemma_join_split(text);
    match find_markers(ls, open, close) {
        Some((o, c)) => {
            lemma_first_line_from_bounds(ls, open, 0);
            lemma_first_line_from_bounds(ls, close, o + 1);
            let p = ls.take(o);
            let rest = ls.skip(c + 1);
            let tail = join_lines(rest);
            if o == 0 {
                assert(join_lines(p) =~= e);
                assert(head_text(p) =~= e);
                if cr_inside(text) {
                    lemma_cr_inside_cut(text, 0);
                }
                assert(text.take(0) =~= e);
            } else {
                assert(ls =~= p + ls.skip(o));
                lemma_join_concat(p, ls.skip(o));
                let k: int = join_lines(p).len() as int + 1;
                assert(text.take(k) =~= head_text(p));
                if cr_inside(text) {
                    lemma_cr_inside_cut(text, k);
                }
            }
            if rest.len() == 0 {
                assert(tail =~= e);
                if cr_inside(text) {
                    lemma_cr_inside_cut(text, text.len() as int);
                }
                assert(text.skip(text.len() as int) =~= e);
            } else {
                assert(ls =~= ls.take(c + 1) + rest);
                lemma_join_concat(ls.take(c + 1), rest);
                let k: int = join_lines(ls.take(c + 1)).len() as int + 1;
                assert(text.skip(k) =~= tail);
                if cr_inside(text) {
                    lemma_cr_inside_cut(text, k);
                }
            }
            (p, tail)
        },
        None => {
            lemma_first_line_none(ls, open, 0);
            if text.len() == 0 {
                assert(head_text(Seq::<Seq<char>>::empty()) + framed + e =~= framed);
                (Seq::<Seq<char>>::empty(), e)
            } else {
                let head = if text.last() == '\n' { text } else { text.push('\n') };
                let p = split_lines(head);
                lemma_split_lines_len(head);
                lemma_join_split(head);
                if text.last() != '\n' {
                    assert(head.drop_last() =~= text);
                    assert(p == ls.push(e));
                    lemma_trim_end_fixed(e);
                }
                if cr_inside(text) {
                    lemma_cr_inside_unpaired(text);
                    lemma_no_cr_inside(seq!['\n']);
                    if text.last() != '\n' {
                        lemma_cr_inside_concat(text, seq!['\n']);
                        assert(text + seq!['\n'] =~= head);
                    }
                    lemma_cr_inside_concat(head, seq!['\n']);
                }
                assert(head + seq!['\n'] =~= head.push('\n'));
                assert(head_text(p) == head.push('\n'));
                assert(head_text(p) + framed + e =~= head.push('\n') + framed);
                assert((head.push('\n') + framed).take(text.len() as int) =~= text);
                (p, e)
            }
        },
    }
}

/// The text after `render_region`: what it writes, or the existing text
/// when it writes nothing.
pub open spec fn after_render(existing: Option<Seq<char>>, block: Seq<char>, open: Seq<char>, close: Seq<char>) -> Seq<char> {
    match rendered(existing, block, open, close) {
        Some(s) => s,
        None => match existing {
            Some(e) => e,
            None => Seq::empty(),
        },
    }
}

/// Rendering a block and then finding the region gives the block back (as
/// the region holds it); rendering it once more changes nothing; the
/// file's CRLF line endings are kept; and what stood before the markers,
/// or the whole file when it had none, stays in front.
///
/// This holds for markers that are single non-blank-ended lines, a block
/// none of whose lines is the closing marker, and a file that either holds
/// both markers or no opening marker at all, and that holds a CRLF pair or
/// does not end in CR (a file such as `x` CR, with no CRLF, would gain one).
pub proof fn law_region_round_trip(existing: Option<Seq<char>>, block: Seq<char>, open: Seq<char>, close: Seq<char>)
    requires
        marker_ok(open),
        marker_ok(close),
        !crlf_to_lf(block).contains('\r'),
        forall|j: int| 0 <= j < body_lines(block).len() ==> trim_end(#[trigger] body_lines(block)[j]) != close,
        existing matches Some(e) ==> has_crlf(e) || !ends_in_cr(e),
        existing matches Some(e) ==> (find_markers(split_lines(crlf_to_lf(e)), open, close) is Some || first_line_from(
            split_lines(crlf_to_lf(e)),
            open,
            0,
        ) is None),
    ensures
        region_of(after_render(existing, block, open, close), open, close) == Some(block_body(block)),
        rendered(Some(after_render(existing, block, open, close)), block, open, close) is None,
        has_crlf(after_render(existing, block, open, close)) == (existing matches Some(e) && has_crlf(e)),
        existing matches Some(e) ==> (find_markers(split_lines(crlf_to_lf(e)), open, close) matches Some((o, c))
            ==> split_lines(crlf_to_lf(after_render(existing, block, open, close))).take(o) == split_lines(
            crlf_to_lf(e),
        ).take(o)),
        existing matches Some(e) ==> (find_markers(split_lines(crlf_to_lf(e)), open, close) is None
            ==> crlf_to_lf(after_render(existing, block, open, close)).take(crlf_to_lf(e).len() as int)
            == crlf_to_lf(e)),
{
    let framed = framed_text(block, open, close);
    let e = Seq::<char>::empty();
    let lf = seq!['\n'];
    lemma_block_body(block);
    reveal_strlit("\n\n");
    reveal_strlit("\n");
    assert(!lf.contains('\r'));
    assert(!"\n\n"@.contains('\r'));
    lemma_no_char_concat(open, "\n\n"@, '\r');
    lemma_no_char_concat(open + "\n\n"@, block_body(block), '\r');
    lemma_no_char_concat(open + "\n\n"@ + block_body(block), close, '\r');
    lemma_no_char_concat(open + "\n\n"@ + block_body(block) + close, "\n"@, '\r');
    assert(!framed.contains('\r'));
    assert(framed[open.len() as int] == '\n');
    match existing {
        None => {
            let p = Seq::<Seq<char>>::empty();
            lemma_crlf_to_lf_plain(framed);
            assert(head_text(p) + framed + e =~= framed);
            lemma_framed_round_trip(p, block, open, close, e, framed);
            assert(!has_crlf(framed));
        },
        Some(ex) => {
            let text = crlf_to_lf(ex);
            let (p, tail) = lemma_existing_layout(text, block, open, close);
            let out = head_text(p) + framed + tail;
            if !has_crlf(ex) {
                lemma_crlf_to_lf_unpaired(ex);
                lemma_unpaired_cr_inside(ex);
                lemma_no_cr_inside(framed);
                lemma_cr_inside_concat(head_text(p), framed);
                lemma_cr_inside_concat(head_text(p) + framed, tail);
                lemma_cr_inside_unpaired(out);
            }
            assert(out.contains('\n')) by {
                assert(out[head_text(p).len() as int + open.len()] == '\n');
            }
            let after = if has_crlf(ex) { lf_to_crlf(out) } else { out };
            if has_crlf(ex) {
                lemma_crlf_round_trip_any(out);
            } else {
                lemma_crlf_to_lf_unpaired(out);
            }
            assert(after_render(existing, block, open, close) == after);
            lemma_framed_round_trip(p, block, open, close, tail, after);
            lemma_output_lines(p, block, open, close, tail);
            assert(split_lines(out).take(p.len() as int) =~= p);
        },
    }
}

/// Stripping the blank lines in front leaves the words.
proof fn lemma_strip_words(t: Seq<char>)
    ensures
        words(strip_blank_lines(t)) == words(t),
    decreases t.len(),
{
    match index_from(t, '\n', 0) {
        Some(i) => {
            lemma_index_from_bounds(t, '\n', 0);
            if 0 <= i < t.len() && is_blank(t.take(i)) {
                lemma_strip_words(t.skip(i + 1));
                assert forall|j: int| 0 <= j < i + 1 implies is_ws(#[trigger] t[j]) by {
                    if j < i {
                        assert(t.take(i)[j] == t[j]);
                    }
                }
                lemma_words_skip_ws(t, i + 1);
            }
        },
        None => {
            if is_blank(t) {
                lemma_words_skip_ws(t, t.len() as int);
                let e = Seq::<char>::empty();
                assert(t.skip(t.len() as int) =~= e);
                assert(words(e) =~= Seq::<Seq<char>>::empty());
                assert(strip_blank_lines(t) =~= e);
            }
        },
    }
}

/// The block as the region holds it has the block's words.
proof fn lemma_body_words(block: Seq<char>)
    ensures
        words(block_body(block)) == words(block),
{
    let x = crlf_to_lf(block);
    let b = strip_blank_lines(x);
    lemma_words_crlf(block, Seq::empty());
    lemma_strip_words(x);
    if b.len() > 0 && b.last() != '\n' {
        lemma_words_push_ws(b, '\n', Seq::empty());
    }
}

/// A region part that an install wrote is found current: the block found
/// between the markers of the file it wrote has the block's words, so the
/// part's state is `current` whatever the record holds. This holds where
/// the region round trip does.
pub proof fn law_written_region_is_current(
    existing: Option<Seq<char>>,
    block: Seq<char>,
    open: Seq<char>,
    close: Seq<char>,
    recorded: Option<Seq<char>>,
)
    requires
        marker_ok(open),
        marker_ok(close),
        !crlf_to_lf(block).contains('\r'),
        forall|j: int| 0 <= j < body_lines(block).len() ==> trim_end(#[trigger] body_lines(block)[j]) != close,
        existing matches Some(e) ==> has_crlf(e) || !ends_in_cr(e),
        existing matches Some(e) ==> (find_markers(split_lines(crlf_to_lf(e)), open, close) is Some || first_line_from(
            split_lines(crlf_to_lf(e)),
            open,
            0,
        ) is None),
    ensures
        region_of(after_render(existing, block, open, close), open, close) == Some(block_body(block)),
        state_of(
            Some(FoundView::Block(block_body(block))),
            FoundView::Block(block),
            recorded,
            false,
        ) == State::Current,
{
    law_region_round_trip(existing, block, open, close);
    lemma_body_words(block);
}

/// The hash of a text folds CRLF line endings: a text with no CR directly
/// before a LF hashes the same with its LFs written as CRLF, as a part's
/// text and through `hash_text`.
pub proof fn law_hash_folds_crlf(t: Seq<char>)
    requires
        !has_crlf(t),
    ensures
        crate::hash::text_hash(lf_to_crlf(t)) == crate::hash::text_hash(t),
        crate::harness::state::content_hash(FoundView::Text(lf_to_crlf(t))) == crate::hash::text_hash(t),
{
    lemma_crlf_round_trip_unpaired(t);
    lemma_crlf_to_lf_unpaired(t);
}

/// Normalising folds CRLF pairs and nothing else: text with no CR
/// directly before a LF normalises to itself, and normalises back from its
/// LFs written as CRLF, which hold a CRLF pair wherever it held a LF.
pub proof fn law_normalise_folds_crlf(t: Seq<char>)
    requires
        !has_crlf(t),
    ensures
        crlf_to_lf(t) == t,
        crlf_to_lf(lf_to_crlf(t)) == t,
        t.contains('\n') ==> has_crlf(lf_to_crlf(t)),
{
    lemma_crlf_round_trip_unpaired(t);
    lemma_crlf_to_lf_unpaired(t);
}

} // verus!
