//! Character-level model of the text operations the search is built from:
//! splitting into lines, joining, finding occurrences and marking them.
use vstd::prelude::*;
use vstd::std_specs::iter::IteratorSpec;

verus! {

broadcast use vstd::string::group_string_axioms;

// ------------------------------------------------------------------
// Conversions between strings and character vectors
// ------------------------------------------------------------------

/// The characters of `s`, in order.
pub fn to_chars(s: &str) -> (v: Vec<char>)
    ensures
        v@ == s@,
{
    let mut v: Vec<char> = Vec::new();
    for c in iter: s.chars()
        invariant
            v@ == iter.seq().take(iter.index() as int),
            iter.seq() == s@,
    {
        v.push(c);
    }
    v
}

/// Appends one character to a string (`String::push`).
#[verifier::external_body]
pub(crate) fn push_char(s: &mut String, c: char)
    ensures
        final(s)@ == old(s)@.push(c),
{
    s.push(c);
}

/// The string made of the characters of `v`.
pub fn from_chars(v: &[char]) -> (s: String)
    ensures
        s@ == v@,
{
    let mut s = String::new();
    let mut i: usize = 0;
    while i < v.len()
        invariant
            i <= v.len(),
            s@ == v@.take(i as int),
        decreases v.len() - i,
    {
        push_char(&mut s, v[i]);
        i = i + 1;
        assert(s@ == v@.take(i as int));
    }
    assert(v@.take(v.len() as int) == v@);
    s
}

/// Whether two character slices hold the same characters.
pub fn chars_eq(a: &[char], b: &[char]) -> (r: bool)
    ensures
        r == (a@ == b@),
{
    if a.len() != b.len() {
        return false;
    }
    let mut i: usize = 0;
    while i < a.len()
        invariant
            a.len() == b.len(),
            i <= a.len(),
            forall|j: int| 0 <= j < i ==> a@[j] == b@[j],
        decreases a.len() - i,
    {
        if a[i] != b[i] {
            return false;
        }
        i = i + 1;
    }
    assert(a@ =~= b@);
    true
}

/// Appends all characters of `src` to `dst`.
pub fn extend_chars(dst: &mut Vec<char>, src: &[char])
    ensures
        final(dst)@ == old(dst)@ + src@,
{
    let mut i: usize = 0;
    while i < src.len()
        invariant
            i <= src.len(),
            dst@ == old(dst)@ + src@.take(i as int),
        decreases src.len() - i,
    {
        dst.push(src[i]);
        i = i + 1;
        assert(dst@ == old(dst)@ + src@.take(i as int));
    }
    assert(src@.take(src.len() as int) == src@);
}

// ------------------------------------------------------------------
// Lines
// ------------------------------------------------------------------

/// The character sequences held by a list of character vectors.
pub open spec fn views(ls: Seq<Vec<char>>) -> Seq<Seq<char>> {
    Seq::new(ls.len(), |i: int| ls[i]@)
}

/// Pushing a vector pushes its characters.
pub proof fn lemma_views_push(v: Seq<Vec<char>>, x: Vec<char>)
    ensures
        views(v.push(x)) == views(v).push(x@),
{
    assert(views(v.push(x)) =~= views(v).push(x@));
}

/// A line as `str::lines` yields it when a `'\n'` ended it: one trailing
/// `'\r'` belongs to the line ending.
pub open spec fn strip_cr(l: Seq<char>) -> Seq<char> {
    if l.len() > 0 && l.last() == '\r' {
        l.drop_last()
    } else {
        l
    }
}

/// The lines of `s` that follow a partial line `cur` (which holds no
/// `'\n'`): each `'\n'` ends a line, and a last line that no `'\n'` ends is
/// kept, with its characters as they are, only when it is not empty.
pub open spec fn lines_after(cur: Seq<char>, s: Seq<char>) -> Seq<Seq<char>>
    decreases s.len(),
{
    if s.len() == 0 {
        if cur.len() == 0 {
            seq![]
        } else {
            seq![cur]
        }
    } else if s[0] == '\n' {
        seq![strip_cr(cur)] + lines_after(seq![], s.drop_first())
    } else {
        lines_after(cur.push(s[0]), s.drop_first())
    }
}

/// The lines of `s`, as `str::lines` splits it.
pub open spec fn lines_of(s: Seq<char>) -> Seq<Seq<char>> {
    lines_after(seq![], s)
}

/// The lines joined back with a `'\n'` between each two of them.
pub open spec fn join_lines(ls: Seq<Seq<char>>) -> Seq<char>
    decreases ls.len(),
{
    if ls.len() == 0 {
        seq![]
    } else if ls.len() == 1 {
        ls[0]
    } else {
        join_lines(ls.drop_last()) + seq!['\n'] + ls.last()
    }
}

/// `l` holds neither `'\n'` nor `'\r'`.
pub open spec fn no_breaks(l: Seq<char>) -> bool {
    forall|k: int| 0 <= k < l.len() ==> #[trigger] l[k] != '\n' && l[k] != '\r'
}

/// Reading on past characters without `'\n'` only lengthens the partial line.
proof fn lemma_lines_after_append(cur: Seq<char>, l: Seq<char>, s: Seq<char>)
    requires
        forall|k: int| 0 <= k < l.len() ==> #[trigger] l[k] != '\n',
    ensures
        lines_after(cur, l + s) == lines_after(cur + l, s),
    decreases l.len(),
{
    if l.len() == 0 {
        assert(l + s == s);
        assert(cur + l == cur);
    } else {
        assert((l + s)[0] == l[0]);
        assert((l + s).drop_first() == l.drop_first() + s);
        lemma_lines_after_append(cur.push(l[0]), l.drop_first(), s);
        assert(cur.push(l[0]) + l.drop_first() == cur + l);
    }
}

/// The lines of a text without `'\r'` hold neither `'\n'` nor `'\r'`.
proof fn lemma_lines_after_no_breaks(cur: Seq<char>, s: Seq<char>)
    requires
        no_breaks(cur),
        !s.contains('\r'),
    ensures
        forall|i: int| 0 <= i < lines_after(cur, s).len() ==> no_breaks(#[trigger] lines_after(cur, s)[i]),
    decreases s.len(),
{
    if s.len() == 0 {
        if cur.len() > 0 {
            assert(lines_after(cur, s) == seq![cur]);
        }
    } else {
        assert(!s.drop_first().contains('\r')) by {
            if s.drop_first().contains('\r') {
                let j = choose|j: int| 0 <= j < s.drop_first().len() && s.drop_first()[j] == '\r';
                assert(s[j + 1] == '\r');
            }
        }
        if s[0] == '\n' {
            lemma_lines_after_no_breaks(seq![], s.drop_first());
            let rest = lines_after(seq![], s.drop_first());
            let all = seq![strip_cr(cur)] + rest;
            assert(lines_after(cur, s) == all);
            assert forall|i: int| 0 <= i < all.len() implies no_breaks(#[trigger] all[i]) by {
                if i > 0 {
                    assert(all[i] == rest[i - 1]);
                } else {
                    assert forall|k: int| 0 <= k < strip_cr(cur).len() implies #[trigger] strip_cr(cur)[k] != '\n'
                        && strip_cr(cur)[k] != '\r' by {
                        assert(strip_cr(cur)[k] == cur[k]);
                    }
                }
            }
        } else {
            assert(s[0] != '\r');
            let c2 = cur.push(s[0]);
            assert forall|k: int| 0 <= k < c2.len() implies #[trigger] c2[k] != '\n' && c2[k] != '\r' by {
                if k < cur.len() {
                    assert(c2[k] == cur[k]);
                }
            }
            lemma_lines_after_no_breaks(c2, s.drop_first());
            assert(lines_after(cur, s) == lines_after(c2, s.drop_first()));
        }
    }
}

/// The lines of a text without a character other than `'\n'` hold none
/// of it either.
proof fn lemma_lines_after_without(cur: Seq<char>, s: Seq<char>, c: char)
    requires
        !cur.contains(c),
        !s.contains(c),
        c != '\n',
    ensures
        forall|i: int| 0 <= i < lines_after(cur, s).len() ==> !(#[trigger] lines_after(cur, s)[i]).contains(c),
    decreases s.len(),
{
    if s.len() == 0 {
        if cur.len() > 0 {
            assert(lines_after(cur, s) == seq![cur]);
        }
    } else {
        assert(!s.drop_first().contains(c)) by {
            if s.drop_first().contains(c) {
                let j = choose|j: int| 0 <= j < s.drop_first().len() && s.drop_first()[j] == c;
                assert(s[j + 1] == c);
            }
        }
        if s[0] == '\n' {
            lemma_lines_after_without(seq![], s.drop_first(), c);
            let rest = lines_after(seq![], s.drop_first());
            let all = seq![strip_cr(cur)] + rest;
            assert(lines_after(cur, s) == all);
            assert forall|i: int| 0 <= i < all.len() implies !(#[trigger] all[i]).contains(c) by {
                if i > 0 {
                    assert(all[i] == rest[i - 1]);
                } else if strip_cr(cur).contains(c) {
                    let k = choose|k: int| 0 <= k < strip_cr(cur).len() && strip_cr(cur)[k] == c;
                    assert(strip_cr(cur)[k] == cur[k]);
                }
            }
        } else {
            let c2 = cur.push(s[0]);
            assert(!c2.contains(c)) by {
                if c2.contains(c) {
                    let k = choose|k: int| 0 <= k < c2.len() && c2[k] == c;
                    if k < cur.len() {
                        assert(c2[k] == cur[k]);
                    }
                }
            }
            lemma_lines_after_without(c2, s.drop_first(), c);
            assert(lines_after(cur, s) == lines_after(c2, s.drop_first()));
        }
    }
}

/// The lines of a text without a character other than `'\n'` hold none of
/// it either.
pub proof fn lemma_lines_of_without(s: Seq<char>, c: char)
    requires
        !s.contains(c),
        c != '\n',
    ensures
        forall|i: int| 0 <= i < lines_of(s).len() ==> !(#[trigger] lines_of(s)[i]).contains(c),
{
    lemma_lines_after_without(seq![], s, c);
}

/// Joining lines without a character other than `'\n'` gives a text
/// without it.
pub proof fn lemma_join_lines_without(ls: Seq<Seq<char>>, c: char)
    requires
        forall|i: int| 0 <= i < ls.len() ==> !(#[trigger] ls[i]).contains(c),
        c != '\n',
    ensures
        !join_lines(ls).contains(c),
    decreases ls.len(),
{
    if ls.len() == 1 {
        assert(!ls[0].contains(c));
    } else if ls.len() > 1 {
        let p = ls.drop_last();
        assert forall|i: int| 0 <= i < p.len() implies !(#[trigger] p[i]).contains(c) by {
            assert(p[i] == ls[i]);
        }
        lemma_join_lines_without(p, c);
        let a = join_lines(p);
        let l = ls.last();
        assert(!ls[ls.len() - 1].contains(c));
        let j = a + seq!['\n'] + l;
        if j.contains(c) {
            let k = choose|k: int| 0 <= k < j.len() && j[k] == c;
            if k < a.len() {
                assert(j[k] == a[k]);
            } else if k > a.len() {
                assert(j[k] == l[k - a.len() - 1]);
            }
        }
    }
}

/// Joining lines puts the first one, a `'\n'`, and the others joined.
proof fn lemma_join_lines_front(x: Seq<char>, t: Seq<Seq<char>>)
    requires
        t.len() > 0,
    ensures
        join_lines(seq![x] + t) == x + seq!['\n'] + join_lines(t),
    decreases t.len(),
{
    let ls = seq![x] + t;
    assert(ls.drop_last() == seq![x] + t.drop_last());
    assert(ls.last() == t.last());
    assert(ls.len() == t.len() + 1);
    assert(join_lines(ls) == join_lines(ls.drop_last()) + seq!['\n'] + ls.last());
    if t.len() == 1 {
        assert(seq![x] + t.drop_last() == seq![x]);
        assert(join_lines(seq![x]) == x);
        assert(join_lines(t) == t[0]);
        assert(t.last() == t[0]);
    } else {
        assert(join_lines(t) == join_lines(t.drop_last()) + seq!['\n'] + t.last());
        lemma_join_lines_front(x, t.drop_last());
        assert(x + seq!['\n'] + join_lines(t.drop_last()) + seq!['\n'] + t.last() == x + seq!['\n'] + (join_lines(
            t.drop_last(),
        ) + seq!['\n'] + t.last()));
    }
}

/// Splitting joined lines, read on from a partial line `cur`: the first
/// line is lengthened by `cur`, the others come back as they were.
proof fn lemma_lines_after_join(cur: Seq<char>, ls: Seq<Seq<char>>)
    requires
        ls.len() > 0,
        no_breaks(cur),
        forall|i: int| 0 <= i < ls.len() ==> no_breaks(#[trigger] ls[i]),
        ls.last().len() > 0,
    ensures
        lines_after(cur, join_lines(ls)) == seq![cur + ls[0]] + ls.drop_first(),
    decreases ls.len(),
{
    assert(no_breaks(ls[0]));
    if ls.len() == 1 {
        lemma_lines_after_append(cur, ls[0], seq![]);
        assert(ls[0] + seq![] == ls[0]);
        assert(ls.drop_first().len() == 0);
        assert(seq![cur + ls[0]] + ls.drop_first() == seq![cur + ls[0]]);
    } else {
        let t = ls.drop_first();
        assert(ls == seq![ls[0]] + t);
        lemma_join_lines_front(ls[0], t);
        let j = join_lines(t);
        assert(ls[0] + seq!['\n'] + j == ls[0] + (seq!['\n'] + j));
        lemma_lines_after_append(cur, ls[0], seq!['\n'] + j);
        assert((seq!['\n'] + j)[0] == '\n');
        assert((seq!['\n'] + j).drop_first() == j);
        let c = cur + ls[0];
        if c.len() > 0 {
            assert(c.last() != '\r') by {
                if ls[0].len() > 0 {
                    assert(c.last() == ls[0][ls[0].len() - 1]);
                } else {
                    assert(c.last() == cur[cur.len() - 1]);
                }
            }
        }
        assert(strip_cr(c) == c);
        assert forall|i: int| 0 <= i < t.len() implies no_breaks(#[trigger] t[i]) by {
            assert(t[i] == ls[i + 1]);
        }
        assert(t.last() == ls.last());
        lemma_lines_after_join(seq![], t);
        assert(seq![] + t[0] == t[0]);
        assert(seq![t[0]] + t.drop_first() == t);
    }
}

/// Lines without `'\n'` or `'\r'`, the last of them not empty, come back
/// as they were when joined and split again.
pub proof fn lemma_lines_of_join(ls: Seq<Seq<char>>)
    requires
        forall|i: int| 0 <= i < ls.len() ==> no_breaks(#[trigger] ls[i]),
        ls.len() > 0 ==> ls.last().len() > 0,
    ensures
        lines_of(join_lines(ls)) == ls,
{
    if ls.len() > 0 {
        lemma_lines_after_join(seq![], ls);
        assert(seq![] + ls[0] == ls[0]);
        assert(seq![ls[0]] + ls.drop_first() == ls);
    }
}

/// The lines of a text without `'\r'` hold neither `'\n'` nor `'\r'`.
pub proof fn lemma_lines_of_no_breaks(s: Seq<char>)
    requires
        !s.contains('\r'),
    ensures
        forall|i: int| 0 <= i < lines_of(s).len() ==> no_breaks(#[trigger] lines_of(s)[i]),
{
    lemma_lines_after_no_breaks(seq![], s);
}

/// Splits `s` into its lines.
pub fn split_lines(s: &[char]) -> (ls: Vec<Vec<char>>)
    ensures
        views(ls@) == lines_of(s@),
{
    let mut ls: Vec<Vec<char>> = Vec::new();
    let mut cur: Vec<char> = Vec::new();
    let mut i: usize = 0;
    assert(views(ls@) =~= Seq::<Seq<char>>::empty());
    assert(s@.skip(0) == s@);
    while i < s.len()
        invariant
            i <= s.len(),
            views(ls@) + lines_after(cur@, s@.skip(i as int)) == lines_of(s@),
        decreases s.len() - i,
    {
        let c = s[i];
        let ghost rest = s@.skip(i as int);
        assert(rest.drop_first() == s@.skip(i + 1));
        if c == '\n' {
            let ghost before = views(ls@);
            let ghost cur_v = cur@;
            let mut line = cur;
            if line.len() > 0 && line[line.len() - 1] == '\r' {
                line.pop();
            }
            assert(line@ == strip_cr(cur_v));
            ls.push(line);
            assert(views(ls@) =~= before.push(strip_cr(cur_v)));
            cur = Vec::new();
            assert(cur@ == Seq::<char>::empty());
        } else {
            cur.push(c);
        }
        i = i + 1;
    }
    if cur.len() > 0 {
        let ghost before = views(ls@);
        let ghost cur_v = cur@;
        ls.push(cur);
        assert(views(ls@) =~= before.push(cur_v));
    }
    ls
}

/// Joins lines with `'\n'` between each two of them.
pub fn join_with_newlines(ls: &Vec<Vec<char>>) -> (s: Vec<char>)
    ensures
        s@ == join_lines(views(ls@)),
{
    let mut s: Vec<char> = Vec::new();
    let mut i: usize = 0;
    while i < ls.len()
        invariant
            i <= ls.len(),
            s@ == join_lines(views(ls@).take(i as int)),
        decreases ls.len() - i,
    {
        let ghost prev = views(ls@).take(i as int);
        if i > 0 {
            s.push('\n');
        }
        extend_chars(&mut s, &ls[i]);
        i = i + 1;
        assert(views(ls@).take(i as int).drop_last() == prev);
    }
    assert(views(ls@).take(ls.len() as int) == views(ls@));
    s
}

// ------------------------------------------------------------------
// Occurrences of a pattern
// ------------------------------------------------------------------

/// `p` occurs in `t` starting at position `i`.
pub open spec fn occurs_at(t: Seq<char>, p: Seq<char>, i: int) -> bool {
    0 <= i && i + p.len() <= t.len() && t.subrange(i, i + p.len()) == p
}

/// `p` occurs somewhere in `t`.
pub open spec fn contains(t: Seq<char>, p: Seq<char>) -> bool {
    exists|i: int| occurs_at(t, p, i)
}

/// The occurrences of `p` in `t` at or after `pos`, as (start, end) spans:
/// the leftmost first, each next one searched from the end of the last, so
/// that they never overlap. An empty `p` occurs at every position, the end
/// of `t` included.
pub open spec fn spans_from(t: Seq<char>, p: Seq<char>, pos: int) -> Seq<(int, int)>
    decreases t.len() + 1 - pos,
{
    if pos < 0 || pos > t.len() {
        seq![]
    } else if occurs_at(t, p, pos) {
        let next = if p.len() == 0 { pos + 1 } else { pos + p.len() };
        seq![(pos, pos + p.len())] + spans_from(t, p, next)
    } else {
        spans_from(t, p, pos + 1)
    }
}

/// The non-overlapping occurrences of `p` in `t`, leftmost first.
pub open spec fn match_spans(t: Seq<char>, p: Seq<char>) -> Seq<(int, int)> {
    spans_from(t, p, 0)
}

/// Spans held as machine integers, read as mathematical integers.
pub open spec fn int_spans(v: Seq<(usize, usize)>) -> Seq<(int, int)> {
    Seq::new(v.len(), |k: int| (v[k].0 as int, v[k].1 as int))
}

/// Whether `p` occurs in `t` at position `i`.
pub fn occurs_at_exec(t: &[char], p: &[char], i: usize) -> (r: bool)
    ensures
        r == occurs_at(t@, p@, i as int),
{
    if i > t.len() || p.len() > t.len() - i {
        return false;
    }
    let mut j: usize = 0;
    while j < p.len()
        invariant
            i + p.len() <= t.len(),
            j <= p.len(),
            forall|k: int| 0 <= k < j ==> t@[i + k] == p@[k],
        decreases p.len() - j,
    {
        if t[i + j] != p[j] {
            assert(t@.subrange(i as int, i + p.len())[j as int] != p@[j as int]);
            return false;
        }
        j = j + 1;
    }
    assert(t@.subrange(i as int, i + p.len()) =~= p@);
    true
}

/// Whether `p` occurs somewhere in `t`.
pub fn contains_exec(t: &[char], p: &[char]) -> (r: bool)
    ensures
        r == contains(t@, p@),
{
    let mut i: usize = 0;
    loop
        invariant
            i <= t.len(),
            forall|j: int| 0 <= j < i ==> !occurs_at(t@, p@, j),
        decreases t.len() - i,
    {
        if occurs_at_exec(t, p, i) {
            return true;
        }
        if i == t.len() {
            assert forall|j: int| !occurs_at(t@, p@, j) by {
                if 0 <= j < i {
                } else if j > i {
                    assert(j + p@.len() > t@.len());
                }
            }
            return false;
        }
        i = i + 1;
    }
}

/// The non-overlapping occurrences of `p` in `t`, leftmost first.
pub fn match_spans_exec(t: &[char], p: &[char]) -> (r: Vec<(usize, usize)>)
    ensures
        int_spans(r@) == match_spans(t@, p@),
{
    let mut r: Vec<(usize, usize)> = Vec::new();
    let mut pos: usize = 0;
    assert(int_spans(r@) =~= Seq::<(int, int)>::empty());
    loop
        invariant
            pos <= t.len(),
            int_spans(r@) + spans_from(t@, p@, pos as int) == match_spans(t@, p@),
        decreases t.len() - pos,
    {
        let ghost before = int_spans(r@);
        if occurs_at_exec(t, p, pos) {
            r.push((pos, pos + p.len()));
            assert(int_spans(r@) =~= before.push((pos as int, pos + p.len())));
            if pos == t.len() {
                assert(spans_from(t@, p@, pos + 1) =~= Seq::<(int, int)>::empty());
                assert(int_spans(r@) =~= int_spans(r@) + spans_from(t@, p@, pos + 1));
                return r;
            }
            pos = if p.len() == 0 { pos + 1 } else { pos + p.len() };
        } else {
            if pos == t.len() {
                assert(spans_from(t@, p@, pos + 1) =~= Seq::<(int, int)>::empty());
                assert(int_spans(r@) =~= int_spans(r@) + spans_from(t@, p@, pos + 1));
                return r;
            }
            pos = pos + 1;
        }
    }
}

// ------------------------------------------------------------------
// Marking spans
// ------------------------------------------------------------------

/// The escape sequence that starts red text.
pub open spec fn red_on() -> Seq<char> {
    seq!['\x1b', '[', '3', '1', 'm']
}

/// The escape sequence that ends coloured text.
pub open spec fn red_off() -> Seq<char> {
    seq!['\x1b', '[', '0', 'm']
}

/// `s` shown in red.
pub open spec fn mark(s: Seq<char>) -> Seq<char> {
    red_on() + s + red_off()
}

/// The spans lie in order, without overlap, within `pos..=len`.
pub open spec fn spans_fit(sp: Seq<(int, int)>, pos: int, len: int) -> bool
    decreases sp.len(),
{
    if sp.len() == 0 {
        pos <= len
    } else {
        pos <= sp[0].0 <= sp[0].1 && spans_fit(sp.drop_first(), sp[0].1, len)
    }
}

/// `t` from `pos` on, with each span of `sp` marked red.
pub open spec fn render_from(t: Seq<char>, sp: Seq<(int, int)>, pos: int) -> Seq<char>
    decreases sp.len(),
{
    if sp.len() == 0 {
        t.subrange(pos, t.len() as int)
    } else {
        t.subrange(pos, sp[0].0) + mark(t.subrange(sp[0].0, sp[0].1)) + render_from(
            t,
            sp.drop_first(),
            sp[0].1,
        )
    }
}

/// `t` with each span of `sp` marked red.
pub open spec fn render(t: Seq<char>, sp: Seq<(int, int)>) -> Seq<char> {
    render_from(t, sp, 0)
}

/// Spans that fit from `a` on fit from any earlier position too.
pub proof fn lemma_spans_fit_earlier(sp: Seq<(int, int)>, a: int, b: int, len: int)
    requires
        spans_fit(sp, a, len),
        b <= a,
    ensures
        spans_fit(sp, b, len),
    decreases sp.len(),
{
}

/// Spans that fit from `pos` start no later than `len`, and so do their ends.
pub proof fn lemma_spans_fit_bounds(sp: Seq<(int, int)>, pos: int, len: int)
    requires
        spans_fit(sp, pos, len),
    ensures
        pos <= len,
        forall|k: int| 0 <= k < sp.len() ==> pos <= #[trigger] sp[k].0 <= sp[k].1 <= len,
    decreases sp.len(),
{
    if sp.len() > 0 {
        lemma_spans_fit_bounds(sp.drop_first(), sp[0].1, len);
        assert forall|k: int| 0 <= k < sp.len() implies pos <= #[trigger] sp[k].0 <= sp[k].1 <= len by {
            if k > 0 {
                assert(sp[k] == sp.drop_first()[k - 1]);
            }
        }
    }
}

/// The occurrences of a pattern lie in order, without overlap, within the text.
pub proof fn lemma_spans_from_fit(t: Seq<char>, p: Seq<char>, pos: int)
    requires
        0 <= pos <= t.len(),
    ensures
        spans_fit(spans_from(t, p, pos), pos, t.len() as int),
    decreases t.len() + 1 - pos,
{
    if occurs_at(t, p, pos) {
        let next = if p.len() == 0 { pos + 1 } else { pos + p.len() };
        let rest = spans_from(t, p, next);
        let all = spans_from(t, p, pos);
        assert(all == seq![(pos, pos + p.len())] + rest);
        assert(all.drop_first() == rest);
        if next <= t.len() {
            lemma_spans_from_fit(t, p, next);
            lemma_spans_fit_earlier(rest, next, pos + p.len(), t.len() as int);
        } else {
            assert(rest.len() == 0);
        }
        assert(spans_fit(rest, all[0].1, t.len() as int));
    } else if pos < t.len() {
        lemma_spans_from_fit(t, p, pos + 1);
        lemma_spans_fit_earlier(spans_from(t, p, pos + 1), pos + 1, pos, t.len() as int);
    }
}

fn push_red_on(out: &mut Vec<char>)
    ensures
        final(out)@ == old(out)@ + red_on(),
{
    out.push('\x1b');
    out.push('[');
    out.push('3');
    out.push('1');
    out.push('m');
    assert(out@ =~= old(out)@ + red_on());
}

fn push_red_off(out: &mut Vec<char>)
    ensures
        final(out)@ == old(out)@ + red_off(),
{
    out.push('\x1b');
    out.push('[');
    out.push('0');
    out.push('m');
    assert(out@ =~= old(out)@ + red_off());
}

/// Appends `t[from..to]` to `out`.
fn extend_range(out: &mut Vec<char>, t: &[char], from: usize, to: usize)
    requires
        from <= to <= t.len(),
    ensures
        final(out)@ == old(out)@ + t@.subrange(from as int, to as int),
{
    let mut i = from;
    while i < to
        invariant
            from <= i <= to <= t.len(),
            out@ == old(out)@ + t@.subrange(from as int, i as int),
        decreases to - i,
    {
        out.push(t[i]);
        i = i + 1;
        assert(out@ =~= old(out)@ + t@.subrange(from as int, i as int));
    }
}

/// `t` with each span of `sp` marked red.
pub fn render_exec(t: &[char], sp: &[(usize, usize)]) -> (r: Vec<char>)
    requires
        spans_fit(int_spans(sp@), 0, t.len() as int),
    ensures
        r@ == render(t@, int_spans(sp@)),
{
    let mut out: Vec<char> = Vec::new();
    let mut pos: usize = 0;
    let mut k: usize = 0;
    assert(int_spans(sp@).skip(0) == int_spans(sp@));
    while k < sp.len()
        invariant
            k <= sp.len(),
            spans_fit(int_spans(sp@).skip(k as int), pos as int, t.len() as int),
            out@ + render_from(t@, int_spans(sp@).skip(k as int), pos as int) == render(
                t@,
                int_spans(sp@),
            ),
        decreases sp.len() - k,
    {
        let ghost rest = int_spans(sp@).skip(k as int);
        assert(rest[0] == (sp@[k as int].0 as int, sp@[k as int].1 as int));
        assert(rest.drop_first() == int_spans(sp@).skip(k + 1));
        proof {
            lemma_spans_fit_bounds(rest, pos as int, t.len() as int);
        }
        let (s, e) = sp[k];
        extend_range(&mut out, t, pos, s);
        push_red_on(&mut out);
        extend_range(&mut out, t, s, e);
        push_red_off(&mut out);
        pos = e;
        k = k + 1;
        assert(out@ + render_from(t@, int_spans(sp@).skip(k as int), pos as int) =~= render(
            t@,
            int_spans(sp@),
        ));
    }
    extend_range(&mut out, t, pos, t.len());
    assert(out@ =~= render(t@, int_spans(sp@)));
    out
}

// ------------------------------------------------------------------
// Byte offsets of UTF-8 text
// ------------------------------------------------------------------

/// The number of bytes that the UTF-8 encoding of `c` takes.
pub open spec fn char_width(c: char) -> int {
    let u = c as u32;
    if u < 0x80 {
        1
    } else if u < 0x800 {
        2
    } else if u < 0x10000 {
        3
    } else {
        4
    }
}

/// The number of bytes that the UTF-8 encoding of `s` takes.
pub open spec fn utf8_len(s: Seq<char>) -> int
    decreases s.len(),
{
    if s.len() == 0 {
        0
    } else {
        utf8_len(s.drop_last()) + char_width(s.last())
    }
}

/// The character position at which the UTF-8 encoding of `s` reaches byte
/// offset `b`; `None` when `b` falls inside a character or past the end.
pub open spec fn char_at_byte(s: Seq<char>, b: int) -> Option<int> {
    if exists|i: int| 0 <= i <= s.len() && utf8_len(#[trigger] s.take(i)) == b {
        Some(choose|i: int| 0 <= i <= s.len() && utf8_len(#[trigger] s.take(i)) == b)
    } else {
        None
    }
}

/// Character spans of `t` given as byte offsets of its UTF-8 encoding.
pub open spec fn byte_spans(t: Seq<char>, sp: Seq<(int, int)>) -> Seq<(int, int)> {
    Seq::new(sp.len(), |k: int| (utf8_len(t.take(sp[k].0)), utf8_len(t.take(sp[k].1))))
}

/// Every offset of the byte spans `bsp` falls between two characters of
/// `t` (or at its start or end).
pub open spec fn bytes_at_chars(t: Seq<char>, bsp: Seq<(int, int)>) -> bool {
    forall|k: int|
        0 <= k < bsp.len() ==> (#[trigger] char_at_byte(t, bsp[k].0)) is Some && char_at_byte(
            t,
            bsp[k].1,
        ) is Some
}

/// Byte spans of the UTF-8 encoding of `t` given as character spans.
pub open spec fn spans_at_bytes(t: Seq<char>, bsp: Seq<(int, int)>) -> Seq<(int, int)> {
    Seq::new(
        bsp.len(),
        |k: int| (char_at_byte(t, bsp[k].0)->0, char_at_byte(t, bsp[k].1)->0),
    )
}

/// Longer prefixes take more bytes.
pub proof fn lemma_utf8_len_prefix(s: Seq<char>, i: int, j: int)
    requires
        0 <= i <= j <= s.len(),
    ensures
        utf8_len(s.take(i)) <= utf8_len(s.take(j)),
        i < j ==> utf8_len(s.take(i)) < utf8_len(s.take(j)),
        0 <= utf8_len(s.take(i)),
        utf8_len(s.take(j)) <= 4 * j,
    decreases j,
{
    if j > 0 {
        assert(s.take(j).drop_last() == s.take(j - 1));
        lemma_utf8_len_prefix(s, if i == j { j - 1 } else { i }, j - 1);
    }
}

/// The character position of a byte offset is where a prefix reaches it.
pub proof fn lemma_char_at_byte(s: Seq<char>, i: int)
    requires
        0 <= i <= s.len(),
    ensures
        char_at_byte(s, utf8_len(s.take(i))) == Some(i),
{
    let b = utf8_len(s.take(i));
    assert(0 <= i <= s.len() && utf8_len(s.take(i)) == b);
    let c = choose|c: int| 0 <= c <= s.len() && utf8_len(#[trigger] s.take(c)) == b;
    if c < i {
        lemma_utf8_len_prefix(s, c, i);
    } else if c > i {
        lemma_utf8_len_prefix(s, i, c);
    }
}

/// Later byte offsets fall at later character positions.
pub proof fn lemma_char_at_byte_monotone(s: Seq<char>, b1: int, b2: int)
    requires
        b1 <= b2,
        char_at_byte(s, b1) is Some,
        char_at_byte(s, b2) is Some,
    ensures
        char_at_byte(s, b1)->0 <= char_at_byte(s, b2)->0,
        0 <= char_at_byte(s, b1)->0,
        char_at_byte(s, b2)->0 <= s.len(),
{
    let i1 = char_at_byte(s, b1)->0;
    let i2 = char_at_byte(s, b2)->0;
    if i2 < i1 {
        lemma_utf8_len_prefix(s, i2, i1);
    }
}

/// Ordered character spans stay ordered as byte offsets.
pub proof fn lemma_byte_spans_fit(t: Seq<char>, sp: Seq<(int, int)>, pos: int, len: int)
    requires
        spans_fit(sp, pos, t.len() as int),
        0 <= pos,
        utf8_len(t) <= len,
    ensures
        spans_fit(byte_spans(t, sp), utf8_len(t.take(pos)), len),
    decreases sp.len(),
{
    lemma_spans_fit_bounds(sp, pos, t.len() as int);
    assert(t.take(t.len() as int) == t);
    if sp.len() == 0 {
        lemma_utf8_len_prefix(t, pos, t.len() as int);
    } else {
        lemma_utf8_len_prefix(t, pos, sp[0].0);
        lemma_utf8_len_prefix(t, sp[0].0, sp[0].1);
        lemma_byte_spans_fit(t, sp.drop_first(), sp[0].1, len);
        assert(byte_spans(t, sp).drop_first() =~= byte_spans(t, sp.drop_first()));
    }
}

/// Ordered byte spans that all fall between characters give ordered
/// character spans.
pub proof fn lemma_spans_at_bytes_fit(t: Seq<char>, bsp: Seq<(int, int)>, bpos: int, blen: int, cpos: int)
    requires
        spans_fit(bsp, bpos, blen),
        char_at_byte(t, bpos) == Some(cpos),
        bytes_at_chars(t, bsp),
    ensures
        spans_fit(spans_at_bytes(t, bsp), cpos, t.len() as int),
    decreases bsp.len(),
{
    if bsp.len() == 0 {
        lemma_char_at_byte_monotone(t, bpos, bpos);
    } else {
        assert(char_at_byte(t, bsp[0].0) is Some);
        let b = char_at_byte(t, bsp[0].1)->0;
        lemma_char_at_byte_monotone(t, bpos, bsp[0].0);
        lemma_char_at_byte_monotone(t, bsp[0].0, bsp[0].1);
        assert forall|k: int| 0 <= k < bsp.drop_first().len() implies (#[trigger] char_at_byte(t, bsp.drop_first()[k].0)) is Some
            && char_at_byte(t, bsp.drop_first()[k].1) is Some by {
            assert(bsp.drop_first()[k] == bsp[k + 1]);
            assert(char_at_byte(t, bsp[k + 1].0) is Some);
        }
        lemma_spans_at_bytes_fit(t, bsp.drop_first(), bsp[0].1, blen, b);
        assert(spans_at_bytes(t, bsp).drop_first() =~= spans_at_bytes(t, bsp.drop_first()));
    }
}

/// The number of bytes that the UTF-8 encoding of `c` takes.
pub fn char_width_exec(c: char) -> (w: u128)
    ensures
        w == char_width(c),
{
    let u = c as u32;
    if u < 0x80 {
        1
    } else if u < 0x800 {
        2
    } else if u < 0x10000 {
        3
    } else {
        4
    }
}

/// The byte offset at which character position `i` of `s` starts.
pub fn byte_offset(s: &[char], i: usize) -> (b: u128)
    requires
        i <= s.len(),
    ensures
        b == utf8_len(s@.take(i as int)),
{
    let mut acc: u128 = 0;
    let mut k: usize = 0;
    assert(s@.take(0) =~= Seq::<char>::empty());
    while k < i
        invariant
            k <= i <= s.len(),
            acc == utf8_len(s@.take(k as int)),
            acc <= 4 * k,
        decreases i - k,
    {
        assert(s@.take(k + 1).drop_last() == s@.take(k as int));
        acc = acc + char_width_exec(s[k]);
        k = k + 1;
    }
    acc
}

/// The character position at which the UTF-8 encoding of `s` reaches byte
/// offset `b`, if it does.
pub fn char_index_at_byte(s: &[char], b: u128) -> (r: Option<usize>)
    ensures
        r matches Some(i) ==> char_at_byte(s@, b as int) == Some(i as int),
        r is None ==> char_at_byte(s@, b as int) is None,
{
    let mut acc: u128 = 0;
    let mut k: usize = 0;
    assert(s@.take(0) =~= Seq::<char>::empty());
    loop
        invariant
            k <= s.len(),
            acc == utf8_len(s@.take(k as int)),
            acc <= 4 * k,
            forall|j: int| 0 <= j < k ==> utf8_len(#[trigger] s@.take(j)) < b,
        decreases s.len() - k,
    {
        if acc == b {
            proof {
                lemma_char_at_byte(s@, k as int);
            }
            return Some(k);
        }
        if acc > b || k == s.len() {
            assert forall|j: int| 0 <= j <= s.len() implies utf8_len(#[trigger] s@.take(j)) != b by {
                if j > k {
                    lemma_utf8_len_prefix(s@, k as int, j);
                }
            }
            return None;
        }
        assert(s@.take(k + 1).drop_last() == s@.take(k as int));
        acc = acc + char_width_exec(s[k]);
        k = k + 1;
    }
}

/// Byte spans of the UTF-8 encoding of `t` given as character spans, if
/// every offset falls between characters.
pub fn spans_at_bytes_exec(t: &[char], bsp: &[(u128, u128)]) -> (r: Option<Vec<(usize, usize)>>)
    ensures
        r is Some <==> bytes_at_chars(t@, wide_spans(bsp@)),
        r matches Some(v) ==> int_spans(v@) == spans_at_bytes(t@, wide_spans(bsp@)),
{
    let mut out: Vec<(usize, usize)> = Vec::new();
    let mut k: usize = 0;
    while k < bsp.len()
        invariant
            k <= bsp.len(),
            out@.len() == k,
            bytes_at_chars(t@, wide_spans(bsp@).take(k as int)),
            int_spans(out@) == spans_at_bytes(t@, wide_spans(bsp@).take(k as int)),
        decreases bsp.len() - k,
    {
        let (bs, be) = bsp[k];
        let a = char_index_at_byte(t, bs);
        let b = char_index_at_byte(t, be);
        match (a, b) {
            (Some(a), Some(b)) => {
                let ghost prev = int_spans(out@);
                out.push((a, b));
                k = k + 1;
                assert(wide_spans(bsp@).take(k as int)[k - 1] == (bs as int, be as int));
                assert forall|j: int| 0 <= j < k implies (#[trigger] char_at_byte(
                    t@,
                    wide_spans(bsp@).take(k as int)[j].0,
                )) is Some && char_at_byte(t@, wide_spans(bsp@).take(k as int)[j].1) is Some by {
                    if j < k - 1 {
                        assert(wide_spans(bsp@).take(k as int)[j] == wide_spans(bsp@).take(k - 1)[j]);
                    }
                }
                assert forall|j: int| 0 <= j < k implies #[trigger] int_spans(out@)[j] == spans_at_bytes(
                    t@,
                    wide_spans(bsp@).take(k as int),
                )[j] by {
                    if j < k - 1 {
                        assert(int_spans(out@)[j] == prev[j]);
                        assert(wide_spans(bsp@).take(k as int)[j] == wide_spans(bsp@).take(k - 1)[j]);
                    }
                }
                assert(int_spans(out@) =~= spans_at_bytes(t@, wide_spans(bsp@).take(k as int)));
            },
            _ => {
                assert(!bytes_at_chars(t@, wide_spans(bsp@))) by {
                    assert(wide_spans(bsp@)[k as int] == (bs as int, be as int));
                }
                return None;
            },
        }
    }
    assert(wide_spans(bsp@).take(bsp.len() as int) =~= wide_spans(bsp@));
    Some(out)
}

/// Byte spans held as machine integers, read as mathematical integers.
pub open spec fn wide_spans(v: Seq<(u128, u128)>) -> Seq<(int, int)> {
    Seq::new(v.len(), |k: int| (v[k].0 as int, v[k].1 as int))
}

// ------------------------------------------------------------------
// Decimal numbers
// ------------------------------------------------------------------

/// The decimal digit for `d`, where `0 <= d < 10`.
pub open spec fn digit_char(d: int) -> char {
    if d == 0 {
        '0'
    } else if d == 1 {
        '1'
    } else if d == 2 {
        '2'
    } else if d == 3 {
        '3'
    } else if d == 4 {
        '4'
    } else if d == 5 {
        '5'
    } else if d == 6 {
        '6'
    } else if d == 7 {
        '7'
    } else if d == 8 {
        '8'
    } else {
        '9'
    }
}

/// `n` written in decimal, without leading zeros.
pub open spec fn decimal(n: nat) -> Seq<char>
    decreases n,
{
    if n < 10 {
        seq![digit_char(n as int)]
    } else {
        decimal(n / 10).push(digit_char((n % 10) as int))
    }
}

/// The number that a sequence of decimal digits writes.
pub open spec fn digits_value(s: Seq<char>) -> int
    decreases s.len(),
{
    if s.len() == 0 {
        0
    } else {
        digits_value(s.drop_last()) * 10 + ((s.last() as u32) - 48)
    }
}

/// The decimal form of `n` is made of the digits `0` to `9`, writes `n`,
/// and starts with `0` only for `n == 0`.
pub proof fn lemma_decimal_writes(n: nat)
    ensures
        forall|i: int| 0 <= i < decimal(n).len() ==> 48 <= (#[trigger] decimal(n)[i] as u32) <= 57,
        digits_value(decimal(n)) == n,
        decimal(n).len() > 0,
        decimal(n)[0] == '0' ==> n == 0,
    decreases n,
{
    if n < 10 {
        assert(digits_value(decimal(n)) == digits_value(seq![digit_char(n as int)].drop_last()) * 10 + ((digit_char(
            n as int,
        ) as u32) - 48));
        assert(seq![digit_char(n as int)].drop_last() == Seq::<char>::empty());
    } else {
        lemma_decimal_writes(n / 10);
        let p = decimal(n / 10);
        let d = digit_char((n % 10) as int);
        assert(decimal(n) == p.push(d));
        assert(decimal(n).drop_last() == p);
        assert forall|i: int| 0 <= i < decimal(n).len() implies 48 <= (#[trigger] decimal(n)[i] as u32) <= 57 by {
            if i < p.len() {
                assert(decimal(n)[i] == p[i]);
            }
        }
        assert(decimal(n)[0] == p[0]);
    }
}

fn digit_exec(d: u64) -> (c: char)
    requires
        d < 10,
    ensures
        c == digit_char(d as int),
{
    if d == 0 {
        '0'
    } else if d == 1 {
        '1'
    } else if d == 2 {
        '2'
    } else if d == 3 {
        '3'
    } else if d == 4 {
        '4'
    } else if d == 5 {
        '5'
    } else if d == 6 {
        '6'
    } else if d == 7 {
        '7'
    } else if d == 8 {
        '8'
    } else {
        '9'
    }
}

/// Appends `n` written in decimal.
pub fn push_decimal(out: &mut Vec<char>, n: u64)
    ensures
        final(out)@ == old(out)@ + decimal(n as nat),
    decreases n,
{
    if n >= 10 {
        push_decimal(out, n / 10);
    }
    out.push(digit_exec(n % 10));
    assert(out@ =~= old(out)@ + decimal(n as nat));
}

// ------------------------------------------------------------------
// Searching a case-folded copy, marking the unfolded text
// ------------------------------------------------------------------

/// The occurrences of `pat` in `hay`, as byte offsets of the UTF-8 encoding.
pub open spec fn folded_bytes(hay: Seq<char>, pat: Seq<char>) -> Seq<(int, int)> {
    byte_spans(hay, match_spans(hay, pat))
}

/// The byte offsets of the occurrences of `pat` in `hay` all fall between
/// characters of `orig`.
pub open spec fn folded_ok(orig: Seq<char>, hay: Seq<char>, pat: Seq<char>) -> bool {
    bytes_at_chars(orig, folded_bytes(hay, pat))
}

/// The spans of `orig` at the byte offsets of the occurrences of `pat` in `hay`.
pub open spec fn folded_spans(orig: Seq<char>, hay: Seq<char>, pat: Seq<char>) -> Seq<(int, int)> {
    spans_at_bytes(orig, folded_bytes(hay, pat))
}

/// Marks in `orig` the spans at the byte offsets where `pat` occurs in
/// `hay`; `None` when one of those offsets does not fall between two
/// characters of `orig`.
pub fn mark_folded(orig: &[char], hay: &[char], pat: &[char]) -> (r: Option<Vec<char>>)
    ensures
        r is Some <==> folded_ok(orig@, hay@, pat@),
        r matches Some(v) ==> v@ == render(orig@, folded_spans(orig@, hay@, pat@)),
{
    let sp = match_spans_exec(hay, pat);
    proof {
        lemma_spans_from_fit(hay@, pat@, 0);
        lemma_spans_fit_bounds(int_spans(sp@), 0, hay.len() as int);
    }
    let mut bsp: Vec<(u128, u128)> = Vec::new();
    let mut k: usize = 0;
    while k < sp.len()
        invariant
            k <= sp.len(),
            int_spans(sp@) == match_spans(hay@, pat@),
            forall|j: int|
                0 <= j < sp.len() ==> 0 <= #[trigger] int_spans(sp@)[j].0 <= int_spans(sp@)[j].1
                    <= hay.len(),
            bsp@.len() == k,
            wide_spans(bsp@) == byte_spans(hay@, int_spans(sp@).take(k as int)),
        decreases sp.len() - k,
    {
        let (s, e) = sp[k];
        assert(int_spans(sp@)[k as int] == (s as int, e as int));
        let bs = byte_offset(hay, s);
        let be = byte_offset(hay, e);
        let ghost old_b = bsp@;
        bsp.push((bs, be));
        k = k + 1;
        assert(int_spans(sp@).take(k as int)[k - 1] == (s as int, e as int));
        assert forall|j: int| 0 <= j < k implies #[trigger] wide_spans(bsp@)[j] == byte_spans(
            hay@,
            int_spans(sp@).take(k as int),
        )[j] by {
            if j < k - 1 {
                assert(bsp@[j] == old_b[j]);
                assert(wide_spans(old_b)[j] == byte_spans(hay@, int_spans(sp@).take(k - 1))[j]);
                assert(int_spans(sp@).take(k as int)[j] == int_spans(sp@).take(k - 1)[j]);
            }
        }
        assert(wide_spans(bsp@) =~= byte_spans(hay@, int_spans(sp@).take(k as int)));
    }
    assert(int_spans(sp@).take(sp.len() as int) =~= int_spans(sp@));
    match spans_at_bytes_exec(orig, &bsp) {
        Some(csp) => {
            proof {
                lemma_byte_spans_fit(hay@, int_spans(sp@), 0, utf8_len(hay@));
                assert(hay@.take(0) =~= Seq::<char>::empty());
                assert(orig@.take(0) =~= Seq::<char>::empty());
                lemma_char_at_byte(orig@, 0);
                lemma_spans_at_bytes_fit(orig@, wide_spans(bsp@), 0, utf8_len(hay@), 0);
            }
            Some(render_exec(orig, &csp))
        },
        None => None,
    }
}

// ------------------------------------------------------------------
// Case mappings
// ------------------------------------------------------------------

/// What `str::to_uppercase` gives for a string: its Unicode upper-case mapping.
pub uninterp spec fn upper_case(s: Seq<char>) -> Seq<char>;

/// What `str::to_lowercase` gives for a string: its Unicode lower-case mapping.
pub uninterp spec fn lower_case(s: Seq<char>) -> Seq<char>;

/// Every character is ASCII.
pub open spec fn is_ascii_text(s: Seq<char>) -> bool {
    forall|i: int| 0 <= i < s.len() ==> (#[trigger] s[i] as u32) < 128
}

/// The ASCII upper-case partner of a lower-case ASCII letter; any other
/// character as it is.
pub open spec fn ascii_upper(c: char) -> char {
    if 97 <= (c as u32) <= 122 {
        ((c as u32) - 32) as char
    } else {
        c
    }
}

/// The ASCII lower-case partner of an upper-case ASCII letter; any other
/// character as it is.
pub open spec fn ascii_lower(c: char) -> char {
    if 65 <= (c as u32) <= 90 {
        ((c as u32) + 32) as char
    } else {
        c
    }
}

/// `str::to_uppercase`: the result is a function of the string alone, named
/// `upper_case`. Each character maps to one or more characters, so the
/// result is at least as long (and empty only for the empty string); an
/// ASCII string maps letter by letter to its ASCII partners. The Unicode
/// tables for the other characters are not restated.
#[verifier::external_body]
pub(crate) fn to_upper(s: &str) -> (r: String)
    ensures
        r@ == upper_case(s@),
        r@.len() >= s@.len(),
        s@.len() == 0 ==> r@.len() == 0,
        is_ascii_text(s@) ==> r@ == s@.map_values(|c: char| ascii_upper(c)),
{
    s.to_uppercase()
}

/// `str::to_lowercase`: the result is a function of the string alone, named
/// `lower_case`. Each character maps to one or more characters, so the
/// result is at least as long (and empty only for the empty string); an
/// ASCII string maps letter by letter to its ASCII partners. The Unicode
/// tables for the other characters are not restated.
#[verifier::external_body]
pub(crate) fn to_lower(s: &str) -> (r: String)
    ensures
        r@ == lower_case(s@),
        r@.len() >= s@.len(),
        s@.len() == 0 ==> r@.len() == 0,
        is_ascii_text(s@) ==> r@ == s@.map_values(|c: char| ascii_lower(c)),
{
    s.to_lowercase()
}

/// The upper-case mapping of a character sequence.
pub fn upper_chars(s: &[char]) -> (r: Vec<char>)
    ensures
        r@ == upper_case(s@),
        r@.len() >= s@.len(),
        s@.len() == 0 ==> r@.len() == 0,
        is_ascii_text(s@) ==> r@ == s@.map_values(|c: char| ascii_upper(c)),
{
    let st = from_chars(s);
    let u = to_upper(st.as_str());
    to_chars(u.as_str())
}

/// The lower-case mapping of a character sequence.
pub fn lower_chars(s: &[char]) -> (r: Vec<char>)
    ensures
        r@ == lower_case(s@),
        r@.len() >= s@.len(),
        s@.len() == 0 ==> r@.len() == 0,
        is_ascii_text(s@) ==> r@ == s@.map_values(|c: char| ascii_lower(c)),
{
    let st = from_chars(s);
    let u = to_lower(st.as_str());
    to_chars(u.as_str())
}

// ------------------------------------------------------------------
// Removing the marks again
// ------------------------------------------------------------------

/// `s` with every red-on and colour-off escape sequence taken out, read
/// from left to right.
pub open spec fn unmark(s: Seq<char>) -> Seq<char>
    decreases s.len(),
{
    if s.len() == 0 {
        seq![]
    } else if s.len() >= 5 && s.take(5) == red_on() {
        unmark(s.skip(5))
    } else if s.len() >= 4 && s.take(4) == red_off() {
        unmark(s.skip(4))
    } else {
        seq![s[0]] + unmark(s.drop_first())
    }
}

/// Text without escape characters passes through unchanged.
pub proof fn lemma_unmark_plain(x: Seq<char>, y: Seq<char>)
    requires
        !x.contains('\x1b'),
    ensures
        unmark(x + y) == x + unmark(y),
    decreases x.len(),
{
    if x.len() == 0 {
        assert(x + y == y);
    } else {
        let s = x + y;
        assert(s[0] == x[0]);
        assert(x[0] != '\x1b');
        if s.len() >= 5 && s.take(5) == red_on() {
            assert(s.take(5)[0] == s[0]);
        }
        if s.len() >= 4 && s.take(4) == red_off() {
            assert(s.take(4)[0] == s[0]);
        }
        assert(s.drop_first() == x.drop_first() + y);
        assert(!x.drop_first().contains('\x1b')) by {
            if x.drop_first().contains('\x1b') {
                let j = choose|j: int| 0 <= j < x.drop_first().len() && x.drop_first()[j] == '\x1b';
                assert(x[j + 1] == '\x1b');
            }
        }
        lemma_unmark_plain(x.drop_first(), y);
        assert(x == seq![x[0]] + x.drop_first());
    }
}

/// The escape sequences of a mark are taken out.
pub proof fn lemma_unmark_marks(y: Seq<char>)
    ensures
        unmark(red_on() + y) == unmark(y),
        unmark(red_off() + y) == unmark(y),
{
    let a = red_on() + y;
    assert(a.take(5) =~= red_on());
    assert(a.skip(5) =~= y);
    let b = red_off() + y;
    if b.len() >= 5 {
        assert(b.take(5)[2] == '0');
        assert(red_on()[2] == '3');
    }
    assert(b.take(4) =~= red_off());
    assert(b.skip(4) =~= y);
}

/// Marking spans, then taking the marks out, gives back the text from `pos` on.
proof fn lemma_unmark_render_from(t: Seq<char>, sp: Seq<(int, int)>, pos: int)
    requires
        !t.contains('\x1b'),
        0 <= pos,
        spans_fit(sp, pos, t.len() as int),
    ensures
        unmark(render_from(t, sp, pos)) == t.subrange(pos, t.len() as int),
    decreases sp.len(),
{
    lemma_spans_fit_bounds(sp, pos, t.len() as int);
    assert forall|a: int, b: int| 0 <= a <= b <= t.len() implies !(#[trigger] t.subrange(a, b)).contains('\x1b') by {
        if t.subrange(a, b).contains('\x1b') {
            let j = choose|j: int| 0 <= j < t.subrange(a, b).len() && t.subrange(a, b)[j] == '\x1b';
            assert(t[a + j] == '\x1b');
        }
    }
    if sp.len() == 0 {
        lemma_unmark_plain(t.subrange(pos, t.len() as int), seq![]);
        assert(t.subrange(pos, t.len() as int) + Seq::<char>::empty() == t.subrange(pos, t.len() as int));
        assert(unmark(Seq::<char>::empty()) == Seq::<char>::empty());
    } else {
        let (s, e) = sp[0];
        let rest = render_from(t, sp.drop_first(), e);
        lemma_unmark_render_from(t, sp.drop_first(), e);
        let pre = t.subrange(pos, s);
        let mid = t.subrange(s, e);
        assert(render_from(t, sp, pos) == pre + (red_on() + (mid + (red_off() + rest))));
        lemma_unmark_plain(pre, red_on() + (mid + (red_off() + rest)));
        lemma_unmark_marks(mid + (red_off() + rest));
        lemma_unmark_plain(mid, red_off() + rest);
        lemma_unmark_marks(rest);
        assert(pre + (mid + t.subrange(e, t.len() as int)) =~= t.subrange(pos, t.len() as int));
    }
}

/// Taking the marks out of marked text gives back the text, when the text
/// holds no escape characters of its own.
pub proof fn lemma_unmark_render(t: Seq<char>, sp: Seq<(int, int)>)
    requires
        !t.contains('\x1b'),
        spans_fit(sp, 0, t.len() as int),
    ensures
        unmark(render(t, sp)) == t,
{
    lemma_unmark_render_from(t, sp, 0);
    assert(t.subrange(0, t.len() as int) == t);
}

/// A pattern that occurs nowhere has no spans.
pub proof fn lemma_spans_none(t: Seq<char>, p: Seq<char>, pos: int)
    requires
        !contains(t, p),
    ensures
        spans_from(t, p, pos) == Seq::<(int, int)>::empty(),
    decreases t.len() + 1 - pos,
{
    if 0 <= pos <= t.len() {
        assert(!occurs_at(t, p, pos));
        lemma_spans_none(t, p, pos + 1);
    }
}

} // verus!
