//! Lines and whitespace: splitting at LF, joining with LF, trimming.

use vstd::prelude::*;

verus! {

/// Whether `c` is whitespace (the Unicode `White_Space` property, as
/// `char::is_whitespace`).
pub open spec fn is_ws(c: char) -> bool {
    let u = c as u32;
    ||| u == 0x20
    ||| 0x09 <= u <= 0x0d
    ||| u == 0x85
    ||| u == 0xa0
    ||| u == 0x1680
    ||| 0x2000 <= u <= 0x200a
    ||| u == 0x2028
    ||| u == 0x2029
    ||| u == 0x202f
    ||| u == 0x205f
    ||| u == 0x3000
}

/// Whether `c` is whitespace.
pub fn is_ws_char(c: char) -> (r: bool)
    ensures
        r == is_ws(c),
{
    let u = c as u32;
    u == 0x20 || (0x09 <= u && u <= 0x0d) || u == 0x85 || u == 0xa0 || u == 0x1680 || (0x2000 <= u
        && u <= 0x200a) || u == 0x2028 || u == 0x2029 || u == 0x202f || u == 0x205f || u == 0x3000
}

/// Whether every character of `s` is whitespace.
pub open spec fn is_blank(s: Seq<char>) -> bool {
    forall|i: int| 0 <= i < s.len() ==> is_ws(#[trigger] s[i])
}

/// The length of `s` without its trailing whitespace.
pub open spec fn trimmed_end_len(s: Seq<char>) -> nat
    decreases s.len(),
{
    if s.len() > 0 && is_ws(s.last()) {
        trimmed_end_len(s.drop_last())
    } else {
        s.len()
    }
}

/// `s` without its trailing whitespace.
pub open spec fn trim_end(s: Seq<char>) -> Seq<char> {
    s.take(trimmed_end_len(s) as int)
}

/// The number of leading whitespace characters of `s`.
pub open spec fn leading_ws_len(s: Seq<char>) -> nat
    decreases s.len(),
{
    if s.len() > 0 && is_ws(s[0]) {
        1 + leading_ws_len(s.skip(1))
    } else {
        0
    }
}

/// `s` without its leading whitespace.
pub open spec fn trim_start(s: Seq<char>) -> Seq<char> {
    s.skip(leading_ws_len(s) as int)
}

/// `s` without leading or trailing whitespace.
pub open spec fn trim(s: Seq<char>) -> Seq<char> {
    trim_start(trim_end(s))
}

/// The lines of `t`: the pieces between LFs (one more than the LFs).
pub open spec fn split_lines(t: Seq<char>) -> Seq<Seq<char>>
    decreases t.len(),
{
    if t.len() == 0 {
        seq![Seq::<char>::empty()]
    } else {
        let s = split_lines(t.drop_last());
        if t.last() == '\n' {
            s.push(Seq::empty())
        } else {
            s.update(s.len() - 1, s.last().push(t.last()))
        }
    }
}

/// `ls` joined with LF.
pub open spec fn join_lines(ls: Seq<Seq<char>>) -> Seq<char>
    decreases ls.len(),
{
    if ls.len() == 0 {
        Seq::empty()
    } else if ls.len() == 1 {
        ls[0]
    } else {
        join_lines(ls.drop_last()) + seq!['\n'] + ls.last()
    }
}

/// The views of a list of lines.
pub open spec fn lines_view(v: Seq<Vec<char>>) -> Seq<Seq<char>> {
    v.map_values(|l: Vec<char>| l@)
}

/// The index of the first `c` in `t` at or after `from`.
pub open spec fn index_from(t: Seq<char>, c: char, from: int) -> Option<int>
    decreases t.len() - from,
{
    if from < 0 || from >= t.len() {
        None
    } else if t[from] == c {
        Some(from)
    } else {
        index_from(t, c, from + 1)
    }
}

pub proof fn lemma_split_lines_len(t: Seq<char>)
    ensures
        split_lines(t).len() >= 1,
    decreases t.len(),
{
    if t.len() > 0 {
        lemma_split_lines_len(t.drop_last());
    }
}

/// Joining the lines of a text gives the text back.
pub proof fn lemma_join_split(t: Seq<char>)
    ensures
        join_lines(split_lines(t)) == t,
        forall|i: int| 0 <= i < split_lines(t).len() ==> !(#[trigger] split_lines(t)[i]).contains('\n'),
    decreases t.len(),
{
    if t.len() > 0 {
        let d = t.drop_last();
        lemma_join_split(d);
        lemma_split_lines_len(d);
        let s = split_lines(d);
        if t.last() == '\n' {
            let r = s.push(Seq::empty());
            assert(r.drop_last() =~= s);
            assert(join_lines(r) =~= join_lines(s) + seq!['\n'] + Seq::<char>::empty());
            assert(t =~= d.push('\n'));
        } else {
            let r = s.update(s.len() - 1, s.last().push(t.last()));
            if s.len() == 1 {
                assert(join_lines(r) == r[0]);
                assert(t =~= d.push(t.last()));
            } else {
                assert(r.drop_last() =~= s.drop_last());
                assert(join_lines(r) =~= join_lines(s.drop_last()) + seq!['\n'] + s.last().push(t.last()));
                assert(t =~= d.push(t.last()));
            }
            assert forall|i: int| 0 <= i < r.len() implies !(#[trigger] r[i]).contains('\n') by {
                if i == r.len() - 1 {
                    if r[i].contains('\n') {
                        let k = choose|k: int| 0 <= k < r[i].len() && r[i][k] == '\n';
                        if k < s.last().len() {
                            assert(s.last()[k] == '\n');
                        }
                    }
                } else {
                    assert(r[i] == s[i]);
                }
            }
        }
    }
}

/// The lines of `t`, each a vector of characters.
pub fn split_lines_exec(t: &Vec<char>) -> (out: Vec<Vec<char>>)
    ensures
        lines_view(out@) == split_lines(t@),
{
    let mut done: Vec<Vec<char>> = Vec::new();
    let mut cur: Vec<char> = Vec::new();
    let mut i: usize = 0;
    assert(t@.take(0) =~= Seq::<char>::empty());
    while i < t.len()
        invariant
            i <= t.len(),
            lines_view(done@).push(cur@) == split_lines(t@.take(i as int)),
        decreases t.len() - i,
    {
        let c = t[i];
        let ghost prev = lines_view(done@).push(cur@);
        assert(t@.take(i + 1).drop_last() =~= t@.take(i as int));
        if c == '\n' {
            let ghost d0 = done@;
            done.push(cur);
            assert(lines_view(done@) =~= lines_view(d0).push(prev.last()));
            cur = Vec::new();
            assert(lines_view(done@).push(cur@) =~= prev.push(Seq::empty()));
        } else {
            cur.push(c);
            assert(lines_view(done@).push(cur@) =~= prev.update(prev.len() - 1, prev.last().push(c)));
        }
        i = i + 1;
    }
    assert(t@.take(i as int) =~= t@);
    let ghost last = lines_view(done@).push(cur@);
    done.push(cur);
    assert(lines_view(done@) =~= last);
    done
}

/// `ls[lo..hi]` joined with LF.
pub fn join_range(ls: &Vec<Vec<char>>, lo: usize, hi: usize) -> (out: Vec<char>)
    requires
        lo <= hi <= ls.len(),
    ensures
        out@ == join_lines(lines_view(ls@).subrange(lo as int, hi as int)),
{
    let mut out: Vec<char> = Vec::new();
    let mut i = lo;
    assert(lines_view(ls@).subrange(lo as int, lo as int) =~= Seq::<Seq<char>>::empty());
    while i < hi
        invariant
            lo <= i <= hi <= ls.len(),
            out@ == join_lines(lines_view(ls@).subrange(lo as int, i as int)),
        decreases hi - i,
    {
        let ghost before = lines_view(ls@).subrange(lo as int, i as int);
        let ghost after = lines_view(ls@).subrange(lo as int, i + 1);
        assert(after.drop_last() =~= before);
        if i > lo {
            out.push('\n');
        }
        let line = &ls[i];
        let mut j: usize = 0;
        let ghost base = out@;
        while j < line.len()
            invariant
                j <= line.len(),
                out@ == base + line@.take(j as int),
            decreases line.len() - j,
        {
            out.push(line[j]);
            j = j + 1;
            assert(out@ =~= base + line@.take(j as int));
        }
        assert(line@.take(j as int) =~= line@);
        assert(lines_view(ls@)[i as int] == line@);
        if i == lo {
            assert(after.len() == 1);
            assert(out@ =~= after[0]);
        } else {
            assert(out@ =~= join_lines(before) + seq!['\n'] + after.last());
        }
        i = i + 1;
    }
    out
}

/// The length of `s` without its trailing whitespace.
pub fn trimmed_end_len_exec(s: &Vec<char>) -> (k: usize)
    ensures
        k == trimmed_end_len(s@),
{
    let mut k = s.len();
    assert(s@.take(k as int) =~= s@);
    while k > 0 && is_ws_char(s[k - 1])
        invariant
            k <= s.len(),
            trimmed_end_len(s@) == trimmed_end_len(s@.take(k as int)),
        decreases k,
    {
        assert(s@.take(k as int).drop_last() =~= s@.take(k - 1));
        k = k - 1;
    }
    k
}

/// Whether `s` without its trailing whitespace is `m`.
pub fn trim_end_is(s: &Vec<char>, m: &Vec<char>) -> (r: bool)
    ensures
        r == (trim_end(s@) == m@),
{
    let k = trimmed_end_len_exec(s);
    proof { lemma_trimmed_end_len_le(s@); }
    if k != m.len() {
        assert(trim_end(s@).len() != m@.len());
        return false;
    }
    let mut i: usize = 0;
    while i < k
        invariant
            k == m.len(),
            k == trimmed_end_len(s@),
            k <= s.len(),
            i <= k,
            forall|j: int| 0 <= j < i ==> s@[j] == m@[j],
        decreases k - i,
    {
        if s[i] != m[i] {
            assert(trim_end(s@)[i as int] != m@[i as int]);
            return false;
        }
        i = i + 1;
    }
    assert(trim_end(s@) =~= m@);
    true
}

pub proof fn lemma_trimmed_end_len_le(s: Seq<char>)
    ensures
        trimmed_end_len(s) <= s.len(),
    decreases s.len(),
{
    if s.len() > 0 && is_ws(s.last()) {
        lemma_trimmed_end_len_le(s.drop_last());
    }
}

/// Whether every character of `s[lo..hi]` is whitespace.
pub fn is_blank_range(s: &Vec<char>, lo: usize, hi: usize) -> (r: bool)
    requires
        lo <= hi <= s.len(),
    ensures
        r == is_blank(s@.subrange(lo as int, hi as int)),
{
    let mut i = lo;
    while i < hi
        invariant
            lo <= i <= hi <= s.len(),
            forall|j: int| lo <= j < i ==> is_ws(#[trigger] s@[j]),
        decreases hi - i,
    {
        if !is_ws_char(s[i]) {
            assert(!is_ws(s@.subrange(lo as int, hi as int)[i - lo]));
            return false;
        }
        i = i + 1;
    }
    assert forall|j: int| 0 <= j < hi - lo implies is_ws(#[trigger] s@.subrange(lo as int, hi as int)[j]) by {
        assert(s@.subrange(lo as int, hi as int)[j] == s@[lo + j]);
    }
    true
}

/// The index of the first `c` in `t` at or after `from`.
pub fn index_from_exec(t: &Vec<char>, c: char, from: usize) -> (r: Option<usize>)
    ensures
        r matches Some(i) ==> index_from(t@, c, from as int) == Some(i as int),
        r is None ==> index_from(t@, c, from as int) is None,
{
    let mut i = from;
    while i < t.len()
        invariant
            from <= i,
            index_from(t@, c, from as int) == index_from(t@, c, i as int),
        decreases t.len() - i,
    {
        if t[i] == c {
            return Some(i);
        }
        i = i + 1;
    }
    None
}

/// The lines of two texts joined by a LF are the lines of each.
pub proof fn lemma_split_concat(a: Seq<char>, b: Seq<char>)
    ensures
        split_lines(a + seq!['\n'] + b) == split_lines(a) + split_lines(b),
    decreases b.len(),
{
    let t = a + seq!['\n'] + b;
    if b.len() == 0 {
        assert(t.drop_last() =~= a);
        assert(split_lines(b) =~= seq![Seq::<char>::empty()]);
        assert(split_lines(a).push(Seq::empty()) =~= split_lines(a) + seq![Seq::<char>::empty()]);
    } else {
        assert(t.drop_last() =~= a + seq!['\n'] + b.drop_last());
        assert(t.last() == b.last());
        lemma_split_concat(a, b.drop_last());
        lemma_split_lines_len(b.drop_last());
        lemma_split_lines_len(a);
        let sa = split_lines(a);
        let sb = split_lines(b.drop_last());
        if b.last() == '\n' {
            assert((sa + sb).push(Seq::empty()) =~= sa + sb.push(Seq::empty()));
        } else {
            let u = sa + sb;
            assert(u.update(u.len() - 1, u.last().push(b.last())) =~= sa + sb.update(sb.len() - 1, sb.last().push(b.last())));
        }
    }
}

/// A text without LF is one line.
pub proof fn lemma_split_single(a: Seq<char>)
    requires
        !a.contains('\n'),
    ensures
        split_lines(a) == seq![a],
    decreases a.len(),
{
    if a.len() > 0 {
        assert(!a.drop_last().contains('\n')) by {
            if a.drop_last().contains('\n') {
                let k = choose|k: int| 0 <= k < a.drop_last().len() && a.drop_last()[k] == '\n';
                assert(a[k] == '\n');
            }
        }
        lemma_split_single(a.drop_last());
        assert(a.last() != '\n') by {
            if a.last() == '\n' {
                assert(a[a.len() - 1] == '\n');
            }
        }
        assert(a.drop_last().push(a.last()) =~= a);
        assert(seq![a.drop_last()].update(0, a.drop_last().push(a.last())) =~= seq![a]);
    } else {
        assert(a =~= Seq::<char>::empty());
        assert(seq![Seq::<char>::empty()] =~= seq![a]);
    }
}

/// Joining two non-empty lists of lines is joining each with a LF between.
pub proof fn lemma_join_concat(x: Seq<Seq<char>>, y: Seq<Seq<char>>)
    requires
        x.len() > 0,
        y.len() > 0,
    ensures
        join_lines(x + y) == join_lines(x) + seq!['\n'] + join_lines(y),
    decreases y.len(),
{
    if y.len() == 1 {
        assert((x + y).drop_last() =~= x);
        assert((x + y).last() == y[0]);
    } else {
        assert((x + y).drop_last() =~= x + y.drop_last());
        assert((x + y).last() == y.last());
        lemma_join_concat(x, y.drop_last());
    }
}

/// Splitting the join of lines without LF gives the lines back.
pub proof fn lemma_split_join(ls: Seq<Seq<char>>)
    requires
        ls.len() > 0,
        forall|i: int| 0 <= i < ls.len() ==> !(#[trigger] ls[i]).contains('\n'),
    ensures
        split_lines(join_lines(ls)) == ls,
    decreases ls.len(),
{
    if ls.len() == 1 {
        lemma_split_single(ls[0]);
        assert(seq![ls[0]] =~= ls);
    } else {
        lemma_split_join(ls.drop_last());
        lemma_split_single(ls.last());
        lemma_split_concat(join_lines(ls.drop_last()), ls.last());
        assert(ls.drop_last() + seq![ls.last()] =~= ls);
    }
}

/// A text that does not end in whitespace is its own trim at the end.
pub proof fn lemma_trim_end_fixed(s: Seq<char>)
    requires
        s.len() == 0 || !is_ws(s.last()),
    ensures
        trim_end(s) == s,
{
    assert(trimmed_end_len(s) == s.len());
    assert(s.take(s.len() as int) =~= s);
}

proof fn lemma_leading(s: Seq<char>, k: int)
    requires
        0 <= k <= s.len(),
        forall|j: int| 0 <= j < k ==> is_ws(#[trigger] s[j]),
        k == s.len() || !is_ws(s[k]),
    ensures
        leading_ws_len(s) == k,
    decreases k,
{
    if k > 0 {
        lemma_leading(s.skip(1), k - 1);
    }
}

/// `l` without its leading and trailing whitespace.
pub fn trimmed(l: &Vec<char>) -> (out: Vec<char>)
    ensures
        out@ == trim(l@),
{
    let e = trimmed_end_len_exec(l);
    proof {
        lemma_trimmed_end_len_le(l@);
    }
    let mut s: usize = 0;
    while s < e && is_ws_char(l[s])
        invariant
            s <= e,
            e <= l@.len(),
            e == trimmed_end_len(l@),
            forall|j: int| 0 <= j < s ==> is_ws(#[trigger] l@[j]),
        decreases e - s,
    {
        s = s + 1;
    }
    let mut out: Vec<char> = Vec::new();
    let mut j: usize = s;
    while j < e
        invariant
            s <= j <= e,
            e <= l@.len(),
            out@ == l@.subrange(s as int, j as int),
        decreases e - j,
    {
        out.push(l[j]);
        j = j + 1;
        assert(out@ =~= l@.subrange(s as int, j as int));
    }
    proof {
        let te = trim_end(l@);
        assert(te == l@.take(e as int));
        assert forall|j: int| 0 <= j < s implies is_ws(#[trigger] te[j]) by {
            assert(te[j] == l@[j]);
        }
        if s < e {
            assert(te[s as int] == l@[s as int]);
        }
        lemma_leading(te, s as int);
        assert(out@ =~= te.skip(s as int));
    }
    out
}

} // verus!
