//! The search behind [`crate::Config`]: keep the lines that hold the target,
//! mark each occurrence red, number the lines, prefix them with the source
//! name when several sources are searched.
use vstd::prelude::*;

use crate::text::{
    contains, contains_exec, occurs_at, decimal, extend_chars, folded_ok, folded_spans, from_chars, join_lines,
    join_with_newlines, lemma_spans_from_fit, lemma_views_push, lines_of, mark_folded, match_spans, match_spans_exec,
    push_decimal, render, render_exec, split_lines, to_chars, upper_case, upper_chars, views,
    folded_bytes, lemma_byte_spans_fit, lemma_char_at_byte, lemma_spans_at_bytes_fit,
    lemma_spans_none, lemma_unmark_render, unmark, utf8_len, lemma_lines_of_join, lemma_lines_of_no_breaks,
    no_breaks, lemma_lines_of_without, lemma_join_lines_without,
};
use crate::{lemma_str_views_push, str_views};
use crate::{Config, Controller};

verus! {

/// Whether line `l` holds `target`, upper-case mapped first when `upper`.
pub open spec fn line_has(l: Seq<char>, target: Seq<char>, upper: bool) -> bool {
    if upper {
        contains(upper_case(l), upper_case(target))
    } else {
        contains(l, target)
    }
}

/// The lines that hold `target`, in order.
pub open spec fn kept_lines(ls: Seq<Seq<char>>, target: Seq<char>, upper: bool) -> Seq<Seq<char>>
    decreases ls.len(),
{
    if ls.len() == 0 {
        seq![]
    } else if line_has(ls.last(), target, upper) {
        kept_lines(ls.drop_last(), target, upper).push(ls.last())
    } else {
        kept_lines(ls.drop_last(), target, upper)
    }
}

/// Each line preceded by its number, counted from 1, and a colon.
pub open spec fn numbered(ls: Seq<Seq<char>>) -> Seq<Seq<char>> {
    Seq::new(ls.len(), |i: int| decimal((i + 1) as nat) + seq![':'] + ls[i])
}

/// `text` with each occurrence of `target` marked red. With `upper`, the
/// occurrences are found in the upper-case mappings and marked at the same
/// byte offsets of `text`; `None` when such an offset does not fall between
/// two characters of `text` (where slicing the text would panic).
pub open spec fn highlighted(text: Seq<char>, target: Seq<char>, upper: bool) -> Option<Seq<char>> {
    if upper {
        let hay = upper_case(text);
        let pat = upper_case(target);
        if folded_ok(text, hay, pat) {
            Some(render(text, folded_spans(text, hay, pat)))
        } else {
            None
        }
    } else {
        Some(render(text, match_spans(text, target)))
    }
}

/// The option bit `bit` is set in `controller`.
pub open spec fn has_bit(controller: u8, bit: u8) -> bool {
    controller & bit != 0
}

/// The text shown for one source: with the `SHOW_ALL` bit the whole
/// content, else only the lines that hold the target; the occurrences
/// marked red; with the `SHOW_LINE` bit each line numbered.
pub open spec fn shown_text(content: Seq<char>, target: Seq<char>, controller: u8) -> Option<
    Seq<char>,
> {
    let upper = has_bit(controller, Controller::CHECK_UPPER);
    let base = if has_bit(controller, Controller::SHOW_ALL) {
        highlighted(content, target, upper)
    } else {
        highlighted(join_lines(kept_lines(lines_of(content), target, upper)), target, upper)
    };
    match base {
        Some(r) => Some(
            if has_bit(controller, Controller::SHOW_LINE) {
                join_lines(numbered(lines_of(r)))
            } else {
                r
            },
        ),
        None => None,
    }
}

/// The printed lines of one source, prefixed with `name` and a colon when
/// several sources are searched.
pub open spec fn source_lines(
    name: Seq<char>,
    content: Seq<char>,
    target: Seq<char>,
    controller: u8,
    multi: bool,
) -> Option<Seq<Seq<char>>> {
    match shown_text(content, target, controller) {
        Some(r) => Some(
            Seq::new(
                lines_of(r).len(),
                |i: int|
                    if multi {
                        name + seq![':'] + lines_of(r)[i]
                    } else {
                        lines_of(r)[i]
                    },
            ),
        ),
        None => None,
    }
}

/// The printed lines of the sources, in order; `None` when one of them is.
pub open spec fn run_lines(
    sources: Seq<(Seq<char>, Seq<char>)>,
    target: Seq<char>,
    controller: u8,
    multi: bool,
) -> Option<Seq<Seq<char>>>
    decreases sources.len(),
{
    if sources.len() == 0 {
        Some(seq![])
    } else {
        match (
            run_lines(sources.drop_last(), target, controller, multi),
            source_lines(sources.last().0, sources.last().1, target, controller, multi),
        ) {
            (Some(a), Some(b)) => Some(a + b),
            _ => None,
        }
    }
}

/// The (name, content) pairs of the sources, as character sequences.
pub open spec fn source_views(s: Seq<(String, String)>) -> Seq<(Seq<char>, Seq<char>)> {
    Seq::new(s.len(), |i: int| (s[i].0@, s[i].1@))
}

/// Whether line `l` holds `target`, upper-case mapped first when `upper`.
pub fn line_has_exec(l: &[char], target: &[char], upper: bool) -> (r: bool)
    ensures
        r == line_has(l@, target@, upper),
        r && target@.len() > 0 ==> l@.len() > 0,
{
    if upper {
        let ul = upper_chars(l);
        let ut = upper_chars(target);
        let r = contains_exec(&ul, &ut);
        proof {
            if r && target@.len() > 0 {
                let i = choose|i: int| occurs_at(ul@, ut@, i);
                assert(ul@.len() > 0);
            }
        }
        r
    } else {
        let r = contains_exec(l, target);
        proof {
            if r && target@.len() > 0 {
                let i = choose|i: int| occurs_at(l@, target@, i);
            }
        }
        r
    }
}

/// Marks the occurrences of `target` in `text`; `None` exactly when the
/// upper-case search finds an occurrence that does not fall between
/// characters of `text`.
fn highlight_chars(text: &[char], target: &[char], upper: bool) -> (r: Option<Vec<char>>)
    ensures
        r matches Some(v) ==> highlighted(text@, target@, upper) == Some(v@),
        r is None ==> highlighted(text@, target@, upper) is None,
{
    if upper {
        let hay = upper_chars(text);
        let pat = upper_chars(target);
        mark_folded(text, &hay, &pat)
    } else {
        let sp = match_spans_exec(text, target);
        proof {
            lemma_spans_from_fit(text@, target@, 0);
        }
        Some(render_exec(text, &sp))
    }
}

/// Whether [`highlight`] is defined for these arguments.
pub fn highlight_defined(text: &str, target: &str, check_upper: bool) -> (r: bool)
    ensures
        r == highlighted(text@, target@, check_upper) is Some,
{
    let t = to_chars(text);
    let p = to_chars(target);
    highlight_chars(&t, &p, check_upper).is_some()
}

/// Marks every occurrence of `target` in `text` red; with `check_upper`
/// the occurrences are found in the upper-case mappings.
pub fn highlight(text: &str, target: &str, check_upper: bool) -> (r: String)
    requires
        highlighted(text@, target@, check_upper) is Some,
    ensures
        Some(r@) == highlighted(text@, target@, check_upper),
{
    let t = to_chars(text);
    let p = to_chars(target);
    match highlight_chars(&t, &p, check_upper) {
        Some(v) => from_chars(&v),
        None => String::new(),
    }
}

/// [`highlight`] where it is defined, `None` where slicing the text at an
/// upper-case match would panic.
pub fn try_highlight(text: &str, target: &str, check_upper: bool) -> (r: Option<String>)
    ensures
        r matches Some(s) ==> highlighted(text@, target@, check_upper) == Some(s@),
        r is None ==> highlighted(text@, target@, check_upper) is None,
{
    if highlight_defined(text, target, check_upper) {
        Some(highlight(text, target, check_upper))
    } else {
        None
    }
}

/// The lines of `ls` that hold `target`, in order.
fn keep_lines(ls: &Vec<Vec<char>>, target: &[char], upper: bool) -> (r: Vec<Vec<char>>)
    ensures
        views(r@) == kept_lines(views(ls@), target@, upper),
        target@.len() > 0 ==> forall|j: int| 0 <= j < r@.len() ==> (#[trigger] r@[j])@.len() > 0,
{
    let mut r: Vec<Vec<char>> = Vec::new();
    let mut i: usize = 0;
    assert(views(r@) =~= Seq::<Seq<char>>::empty());
    while i < ls.len()
        invariant
            i <= ls.len(),
            views(r@) == kept_lines(views(ls@).take(i as int), target@, upper),
            target@.len() > 0 ==> forall|j: int| 0 <= j < r@.len() ==> (#[trigger] r@[j])@.len() > 0,
        decreases ls.len() - i,
    {
        assert(views(ls@).take(i + 1).drop_last() == views(ls@).take(i as int));
        assert(views(ls@).take(i + 1).last() == ls@[i as int]@);
        if line_has_exec(&ls[i], target, upper) {
            let ghost before = views(r@);
            let l = ls[i].clone();
            r.push(l);
            assert(views(r@) =~= before.push(ls@[i as int]@));
        }
        i = i + 1;
    }
    assert(views(ls@).take(ls.len() as int) == views(ls@));
    r
}

/// Keeps only the lines of `content` that hold `target` (upper-case mapped
/// first with `check_upper`), joined with `'\n'`.
///
/// Keeping the matching lines of the result again gives the result (for a
/// text without `'\r'` and a target that is not empty).
pub fn keep_matching_lines(content: &str, target: &str, check_upper: bool) -> (r: String)
    ensures
        r@ == join_lines(kept_lines(lines_of(content@), target@, check_upper)),
        !content@.contains('\r') && target@.len() > 0 ==> join_lines(kept_lines(lines_of(r@), target@, check_upper))
            == r@,
{
    let c = to_chars(content);
    let t = to_chars(target);
    let ls = split_lines(&c);
    let kept = keep_lines(&ls, &t, check_upper);
    proof {
        if !content@.contains('\r') && target@.len() > 0 {
            let k = kept_lines(lines_of(content@), target@, check_upper);
            assert forall|i: int| 0 <= i < k.len() implies (#[trigger] k[i]).len() > 0 by {
                assert(k[i] == views(kept@)[i]);
                assert(kept@[i]@.len() > 0);
            }
            lemma_keep_twice_nonempty(content@, target@, check_upper);
        }
    }
    from_chars(&join_with_newlines(&kept))
}

/// Each line preceded by its number, counted from 1, and a colon.
fn number_chars(c: &[char]) -> (r: Vec<char>)
    ensures
        r@ == join_lines(numbered(lines_of(c@))),
{
    let ls = split_lines(c);
    let mut out: Vec<Vec<char>> = Vec::new();
    let mut i: usize = 0;
    while i < ls.len()
        invariant
            i <= ls.len(),
            views(ls@) == lines_of(c@),
            views(out@) == numbered(views(ls@)).take(i as int),
        decreases ls.len() - i,
    {
        let mut l: Vec<char> = Vec::new();
        push_decimal(&mut l, (i + 1) as u64);
        l.push(':');
        extend_chars(&mut l, &ls[i]);
        assert(l@ =~= numbered(views(ls@))[i as int]);
        let ghost before = out@;
        out.push(l);
        proof {
            lemma_views_push(before, l);
        }
        i = i + 1;
        assert(numbered(views(ls@)).take(i as int) =~= numbered(views(ls@)).take(i - 1).push(
            numbered(views(ls@))[i - 1],
        ));
    }
    assert(numbered(views(ls@)).take(ls.len() as int) =~= numbered(views(ls@)));
    join_with_newlines(&out)
}

/// Precedes each line of `content` by its number, counted from 1, and a
/// colon; the lines joined with `'\n'`.
pub fn number_lines(content: &str) -> (r: String)
    ensures
        r@ == join_lines(numbered(lines_of(content@))),
{
    let c = to_chars(content);
    from_chars(&number_chars(&c))
}

/// The text shown for one source.
fn shown_text_exec(content: &[char], target: &[char], controller: u8) -> (r: Option<Vec<char>>)
    ensures
        r matches Some(v) ==> shown_text(content@, target@, controller) == Some(v@),
        r is None ==> shown_text(content@, target@, controller) is None,
{
    let upper = controller & Controller::CHECK_UPPER != 0;
    let base = if controller & Controller::SHOW_ALL != 0 {
        highlight_chars(content, target, upper)
    } else {
        let ls = split_lines(content);
        let kept = keep_lines(&ls, target, upper);
        let joined = join_with_newlines(&kept);
        highlight_chars(&joined, target, upper)
    };
    match base {
        Some(r) => {
            if controller & Controller::SHOW_LINE != 0 {
                Some(number_chars(&r))
            } else {
                Some(r)
            }
        },
        None => None,
    }
}

/// The printed lines of one source.
fn source_lines_exec(name: &[char], content: &[char], target: &[char], controller: u8, multi: bool) -> (r:
    Option<Vec<String>>)
    ensures
        r matches Some(v) ==> source_lines(name@, content@, target@, controller, multi) == Some(
            str_views(v@),
        ),
        r is None ==> source_lines(name@, content@, target@, controller, multi) is None,
{
    match shown_text_exec(content, target, controller) {
        None => None,
        Some(text) => {
            let ls = split_lines(&text);
            let mut out: Vec<String> = Vec::new();
            let mut i: usize = 0;
            let ghost want = source_lines(name@, content@, target@, controller, multi)->0;
            while i < ls.len()
                invariant
                    i <= ls.len(),
                    views(ls@) == lines_of(text@),
                    shown_text(content@, target@, controller) == Some(text@),
                    want == source_lines(name@, content@, target@, controller, multi)->0,
                    want.len() == ls.len(),
                    str_views(out@) == want.take(i as int),
                decreases ls.len() - i,
            {
                let mut l: Vec<char> = Vec::new();
                if multi {
                    extend_chars(&mut l, name);
                    l.push(':');
                }
                extend_chars(&mut l, &ls[i]);
                assert(views(ls@)[i as int] == ls@[i as int]@);
                assert(l@ =~= want[i as int]);
                let s = from_chars(&l);
                let ghost before = out@;
                out.push(s);
                proof {
                    lemma_str_views_push(before, s);
                }
                i = i + 1;
                assert(want.take(i as int) =~= want.take(i - 1).push(want[i - 1]));
            }
            assert(want.take(ls.len() as int) =~= want);
            Some(out)
        },
    }
}

/// The lines that the search prints for `sources` ((name, content) pairs):
/// for each source, in order, its shown text split into lines, each
/// prefixed with the name and a colon when there are several sources.
/// `None` where the search would panic on slicing an upper-case match.
pub fn run(config: &Config, sources: &[(String, String)]) -> (r: Option<Vec<String>>)
    ensures
        r matches Some(v) ==> run_lines(
            source_views(sources@),
            config.target@,
            config.controller,
            sources.len() > 1,
        ) == Some(str_views(v@)),
        r is None ==> run_lines(
            source_views(sources@),
            config.target@,
            config.controller,
            sources.len() > 1,
        ) is None,
{
    let multi = sources.len() > 1;
    let target = to_chars(config.target.as_str());
    let mut out: Vec<String> = Vec::new();
    let mut i: usize = 0;
    let ghost all = source_views(sources@);
    assert(str_views(out@) =~= Seq::<Seq<char>>::empty());
    while i < sources.len()
        invariant
            i <= sources.len(),
            multi == (sources.len() > 1),
            target@ == config.target@,
            all == source_views(sources@),
            run_lines(all.take(i as int), config.target@, config.controller, multi) == Some(
                str_views(out@),
            ),
        decreases sources.len() - i,
    {
        assert(all.take(i + 1).drop_last() == all.take(i as int));
        assert(all.take(i + 1).last() == (sources@[i as int].0@, sources@[i as int].1@));
        let name = to_chars(sources[i].0.as_str());
        let content = to_chars(sources[i].1.as_str());
        match source_lines_exec(&name, &content, &target, config.controller, multi) {
            None => {
                assert(run_lines(all.take(i + 1), config.target@, config.controller, multi) is None);
                proof {
                    lemma_run_lines_none(all, (i + 1) as int, config.target@, config.controller, multi);
                }
                assert(all.take(sources.len() as int) == all);
                return None;
            },
            Some(lines) => {
                let ghost before = str_views(out@);
                let mut lines = lines;
                let ghost added = str_views(lines@);
                let mut j: usize = 0;
                while j < lines.len()
                    invariant
                        j <= lines.len(),
                        added == str_views(lines@),
                        str_views(out@) == before + added.take(j as int),
                    decreases lines.len() - j,
                {
                    let s = lines[j].clone();
                    let ghost prev = out@;
                    out.push(s);
                    proof {
                        lemma_str_views_push(prev, s);
                    }
                    j = j + 1;
                    assert(added.take(j as int) =~= added.take(j - 1).push(added[j - 1]));
                    assert(before + added.take(j as int) =~= (before + added.take(j - 1)).push(
                        added[j - 1],
                    ));
                }
                assert(added.take(lines.len() as int) == added);
            },
        }
        i = i + 1;
    }
    assert(all.take(sources.len() as int) == all);
    Some(out)
}

/// Once a source gives no lines, neither does any longer list of sources.
proof fn lemma_run_lines_none(
    all: Seq<(Seq<char>, Seq<char>)>,
    k: int,
    target: Seq<char>,
    controller: u8,
    multi: bool,
)
    requires
        0 <= k <= all.len(),
        run_lines(all.take(k), target, controller, multi) is None,
    ensures
        run_lines(all, target, controller, multi) is None,
    decreases all.len() - k,
{
    if k < all.len() {
        assert(all.take(k + 1).drop_last() == all.take(k));
        lemma_run_lines_none(all, k + 1, target, controller, multi);
    } else {
        assert(all.take(k) == all);
    }
}

// ------------------------------------------------------------------
// Laws
// ------------------------------------------------------------------

/// Marking only inserts escape sequences: taking them out gives back the
/// text (when it holds no escape characters of its own).
pub proof fn lemma_highlight_removable(text: Seq<char>, target: Seq<char>, upper: bool)
    requires
        !text.contains('\x1b'),
        highlighted(text, target, upper) is Some,
    ensures
        unmark(highlighted(text, target, upper)->0) == text,
{
    if upper {
        let hay = upper_case(text);
        let pat = upper_case(target);
        let sp = match_spans(hay, pat);
        lemma_spans_from_fit(hay, pat, 0);
        lemma_byte_spans_fit(hay, sp, 0, utf8_len(hay));
        assert(hay.take(0) =~= Seq::<char>::empty());
        assert(text.take(0) =~= Seq::<char>::empty());
        lemma_char_at_byte(text, 0);
        lemma_spans_at_bytes_fit(text, folded_bytes(hay, pat), 0, utf8_len(hay), 0);
        lemma_unmark_render(text, folded_spans(text, hay, pat));
    } else {
        lemma_spans_from_fit(text, target, 0);
        lemma_unmark_render(text, match_spans(text, target));
    }
}

/// A text without the target is shown unchanged.
pub proof fn lemma_highlight_absent(text: Seq<char>, target: Seq<char>)
    requires
        !contains(text, target),
    ensures
        highlighted(text, target, false) == Some(text),
{
    lemma_spans_none(text, target, 0);
    assert(text.subrange(0, text.len() as int) == text);
}

/// The kept lines are exactly the lines that hold the target.
pub proof fn lemma_kept_lines(ls: Seq<Seq<char>>, target: Seq<char>, upper: bool, l: Seq<char>)
    ensures
        kept_lines(ls, target, upper).contains(l) <==> ls.contains(l) && line_has(l, target, upper),
    decreases ls.len(),
{
    if ls.len() > 0 {
        let prev = ls.drop_last();
        lemma_kept_lines(prev, target, upper, l);
        let kp = kept_lines(prev, target, upper);
        if prev.contains(l) {
            let j = choose|j: int| 0 <= j < prev.len() && prev[j] == l;
            assert(ls[j] == l);
        }
        if ls.contains(l) {
            let j = choose|j: int| 0 <= j < ls.len() && ls[j] == l;
            if j < ls.len() - 1 {
                assert(prev[j] == l);
            }
        }
        if line_has(ls.last(), target, upper) {
            let k2 = kp.push(ls.last());
            assert(k2[kp.len() as int] == ls.last());
            if k2.contains(l) && l != ls.last() {
                let j = choose|j: int| 0 <= j < k2.len() && k2[j] == l;
                assert(kp[j] == l);
            }
            if kp.contains(l) {
                let j = choose|j: int| 0 <= j < kp.len() && kp[j] == l;
                assert(k2[j] == l);
            }
        }
    }
}

/// Keeping the kept lines again keeps them all.
proof fn lemma_kept_twice(ls: Seq<Seq<char>>, target: Seq<char>, upper: bool)
    ensures
        kept_lines(kept_lines(ls, target, upper), target, upper) == kept_lines(ls, target, upper),
        forall|i: int| 0 <= i < kept_lines(ls, target, upper).len() ==> line_has(
            #[trigger] kept_lines(ls, target, upper)[i],
            target,
            upper,
        ),
        forall|i: int| 0 <= i < kept_lines(ls, target, upper).len() ==> ls.contains(
            #[trigger] kept_lines(ls, target, upper)[i],
        ),
    decreases ls.len(),
{
    if ls.len() > 0 {
        let prev = ls.drop_last();
        lemma_kept_twice(prev, target, upper);
        let kp = kept_lines(prev, target, upper);
        let k = kept_lines(ls, target, upper);
        assert forall|i: int| 0 <= i < kp.len() implies ls.contains(#[trigger] kp[i]) by {
            let j = choose|j: int| 0 <= j < prev.len() && prev[j] == kp[i];
            assert(ls[j] == kp[i]);
        }
        if line_has(ls.last(), target, upper) {
            let k2 = kp.push(ls.last());
            assert(k2.drop_last() == kp);
            assert(k2.last() == ls.last());
            assert forall|i: int| 0 <= i < k2.len() implies line_has(#[trigger] k2[i], target, upper) by {
                if i < kp.len() {
                    assert(k2[i] == kp[i]);
                }
            }
            assert forall|i: int| 0 <= i < k2.len() implies ls.contains(#[trigger] k2[i]) by {
                if i < kp.len() {
                    assert(k2[i] == kp[i]);
                } else {
                    assert(ls[ls.len() - 1] == k2[i]);
                }
            }
        }
    }
}

/// Keeping the matching lines twice gives what keeping them once gives
/// (for a text without `'\r'`, and a target that the empty line does not
/// hold).
pub proof fn lemma_keep_idempotent(content: Seq<char>, target: Seq<char>, upper: bool)
    requires
        !content.contains('\r'),
        !line_has(seq![], target, upper),
    ensures
        join_lines(
            kept_lines(lines_of(join_lines(kept_lines(lines_of(content), target, upper))), target, upper),
        ) == join_lines(kept_lines(lines_of(content), target, upper)),
{
    let k = kept_lines(lines_of(content), target, upper);
    lemma_kept_twice(lines_of(content), target, upper);
    assert forall|i: int| 0 <= i < k.len() implies (#[trigger] k[i]).len() > 0 by {
        assert(line_has(k[i], target, upper));
        if k[i].len() == 0 {
            assert(k[i] == Seq::<char>::empty());
        }
    }
    lemma_keep_twice_nonempty(content, target, upper);
}

/// Keeping the matching lines twice gives what keeping them once gives,
/// when the text has no `'\r'` and no kept line is empty.
proof fn lemma_keep_twice_nonempty(content: Seq<char>, target: Seq<char>, upper: bool)
    requires
        !content.contains('\r'),
        forall|i: int|
            0 <= i < kept_lines(lines_of(content), target, upper).len() ==> (#[trigger] kept_lines(
                lines_of(content),
                target,
                upper,
            )[i]).len() > 0,
    ensures
        join_lines(
            kept_lines(lines_of(join_lines(kept_lines(lines_of(content), target, upper))), target, upper),
        ) == join_lines(kept_lines(lines_of(content), target, upper)),
{
    let ls = lines_of(content);
    let k = kept_lines(ls, target, upper);
    lemma_kept_twice(ls, target, upper);
    lemma_lines_of_no_breaks(content);
    assert forall|i: int| 0 <= i < k.len() implies no_breaks(#[trigger] k[i]) by {
        let j = choose|j: int| 0 <= j < ls.len() && ls[j] == k[i];
        assert(no_breaks(ls[j]));
    }
    if k.len() > 0 {
        assert(k.last().len() > 0);
    }
    lemma_lines_of_join(k);
}

/// The lines kept are the lines that hold the target, in order.
proof fn lemma_kept_lines_filter(ls: Seq<Seq<char>>, target: Seq<char>, upper: bool)
    ensures
        kept_lines(ls, target, upper) == ls.filter(
            |l: Seq<char>|
                if upper {
                    contains(upper_case(l), upper_case(target))
                } else {
                    contains(l, target)
                },
        ),
    decreases ls.len(),
{
    reveal(Seq::filter);
    if ls.len() > 0 {
        lemma_kept_lines_filter(ls.drop_last(), target, upper);
    }
}

/// Without the `SHOW_ALL` and `SHOW_LINE` bits, the text shown for a source
/// is, once its marks are taken out, exactly the lines of the source that
/// hold the target (with `CHECK_UPPER`: whose upper-case mapping holds the
/// target's), in order, joined by `'\n'`. With `SHOW_ALL` (and no
/// `SHOW_LINE`) it is the whole source. (For a source without escape
/// characters of its own, where the search returns normally.)
pub proof fn lemma_shown_lines(content: Seq<char>, target: Seq<char>, controller: u8)
    requires
        !has_bit(controller, Controller::SHOW_LINE),
        !content.contains('\x1b'),
        shown_text(content, target, controller) is Some,
    ensures
        !has_bit(controller, Controller::SHOW_ALL) ==> unmark(shown_text(content, target, controller)->0)
            == join_lines(
            lines_of(content).filter(
                |l: Seq<char>|
                    if has_bit(controller, Controller::CHECK_UPPER) {
                        contains(upper_case(l), upper_case(target))
                    } else {
                        contains(l, target)
                    },
            ),
        ),
        has_bit(controller, Controller::SHOW_ALL) ==> unmark(shown_text(content, target, controller)->0) == content,
{
    let upper = has_bit(controller, Controller::CHECK_UPPER);
    if has_bit(controller, Controller::SHOW_ALL) {
        lemma_highlight_removable(content, target, upper);
    } else {
        let ls = lines_of(content);
        let k = kept_lines(ls, target, upper);
        lemma_kept_lines_filter(ls, target, upper);
        lemma_kept_twice(ls, target, upper);
        lemma_lines_of_without(content, '\x1b');
        assert forall|i: int| 0 <= i < k.len() implies !(#[trigger] k[i]).contains('\x1b') by {
            let j = choose|j: int| 0 <= j < ls.len() && ls[j] == k[i];
            assert(!ls[j].contains('\x1b'));
        }
        lemma_join_lines_without(k, '\x1b');
        lemma_highlight_removable(join_lines(k), target, upper);
    }
}

} // verus!
