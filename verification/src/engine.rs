//! The output side of the search: context lines around matches, the output
//! modes (lines, whole text, counts, file names, quiet), the choice between
//! them, and the choice between searching in memory and streaming.
use vstd::prelude::*;

use crate::cli::Cli;
use crate::matcher::{hit_view, hit_views, line_counts_fit, source_views, Hit, HitView};
use crate::{lemma_str_views_push, str_views};
use crate::text::{decimal, extend_chars, from_chars, lines_of, push_decimal, split_lines, to_chars, views};

verus! {

// ------------------------------------------------------------------
// Context lines
// ------------------------------------------------------------------

/// The text of the first found line of source `src` numbered `n`, if any.
pub open spec fn found_text(results: Seq<HitView>, src: Seq<char>, n: u32) -> Option<Seq<char>>
    decreases results.len(),
{
    if results.len() == 0 {
        None
    } else if results[0].0 == src && results[0].1 == n {
        Some(results[0].2)
    } else {
        found_text(results.drop_first(), src, n)
    }
}

/// The first line of the context window around line `m`.
pub open spec fn window_low(m: u32, before: usize) -> u32 {
    if m >= (before as u32) {
        (m - (before as u32)) as u32
    } else {
        0
    }
}

/// The last line of the context window around line `m` in a text of
/// `total` lines.
pub open spec fn window_high(m: u32, after: usize, total: u32) -> int {
    if m + (after as u32) <= total {
        m + (after as u32)
    } else {
        total as int
    }
}

/// Line `n` of source `src` (of `total` lines) lies in the context window
/// of one of its found lines.
pub open spec fn in_context(results: Seq<HitView>, src: Seq<char>, n: u32, before: usize, after: usize, total: u32) -> bool {
    exists|k: int|
        0 <= k < results.len() && (#[trigger] results[k]).0 == src && window_low(results[k].1, before)
            <= n <= window_high(results[k].1, after, total)
}

/// The lines among the first `k` lines of source `src` that lie in a
/// context window: numbered, with the found text for a found line and the
/// line itself for the others.
pub open spec fn context_upto(src: Seq<char>, ls: Seq<Seq<char>>, k: int, results: Seq<HitView>, before: usize, after: usize) -> Seq<HitView>
    decreases k,
{
    if k <= 0 {
        seq![]
    } else {
        let prev = context_upto(src, ls, k - 1, results, before, after);
        let n = k as u32;
        if in_context(results, src, n, before, after, ls.len() as u32) {
            prev.push(
                (
                    src,
                    n,
                    match found_text(results, src, n) {
                        Some(t) => t,
                        None => ls[k - 1],
                    },
                ),
            )
        } else {
            prev
        }
    }
}

/// The found lines with their context, source by source.
pub open spec fn with_context(srcs: Seq<(Seq<char>, Seq<char>)>, results: Seq<HitView>, before: usize, after: usize) -> Seq<HitView>
    decreases srcs.len(),
{
    if srcs.len() == 0 {
        seq![]
    } else {
        let ls = lines_of(srcs.last().1);
        with_context(srcs.drop_last(), results, before, after) + context_upto(
            srcs.last().0,
            ls,
            ls.len() as int,
            results,
            before,
            after,
        )
    }
}

/// The numbers involved fit in `u32`: a source with found lines has at
/// most `u32::MAX` lines, and no found line of it ends its window past
/// `u32::MAX`.
pub open spec fn context_fits(srcs: Seq<(Seq<char>, Seq<char>)>, results: Seq<HitView>, after: usize) -> bool {
    forall|i: int, k: int|
        0 <= i < srcs.len() && 0 <= k < results.len() && (#[trigger] results[k]).0 == (
        #[trigger] srcs[i]).0 ==> lines_of(srcs[i].1).len() <= u32::MAX && results[k].1 + (after
            as u32) <= u32::MAX
}

/// The text of the first found line of `src` numbered `n`.
fn found_text_exec(results: &[Hit], src: &String, n: u32) -> (r: Option<String>)
    ensures
        match r {
            Some(t) => found_text(hit_views(results@), src@, n) == Some(t@),
            None => found_text(hit_views(results@), src@, n) is None,
        },
{
    let mut k: usize = 0;
    assert(hit_views(results@).skip(0) == hit_views(results@));
    while k < results.len()
        invariant
            k <= results.len(),
            found_text(hit_views(results@), src@, n) == found_text(hit_views(results@).skip(k as int), src@, n),
        decreases results.len() - k,
    {
        let ghost rest = hit_views(results@).skip(k as int);
        assert(rest[0] == hit_view(results@[k as int]));
        assert(rest.drop_first() == hit_views(results@).skip(k + 1));
        if results[k].0 == *src && results[k].1 == n {
            return Some(results[k].2.clone());
        }
        k = k + 1;
    }
    None
}

/// Whether line `n` of source `src` (of `total` lines) lies in a context window.
fn in_context_exec(results: &[Hit], src: &String, n: u32, before: usize, after: usize, total: u32) -> (r: bool)
    requires
        forall|k: int| 0 <= k < results.len() && (#[trigger] results@[k]).0@ == src@ ==> results@[k].1 + (after as u32) <= u32::MAX,
    ensures
        r == in_context(hit_views(results@), src@, n, before, after, total),
{
    let b = before as u32;
    let a = after as u32;
    let mut k: usize = 0;
    while k < results.len()
        invariant
            k <= results.len(),
            b == before as u32,
            a == after as u32,
            forall|j: int| 0 <= j < results.len() && (#[trigger] results@[j]).0@ == src@ ==> results@[j].1 + (after as u32) <= u32::MAX,
            forall|j: int| 0 <= j < k ==> !((#[trigger] hit_views(results@)[j]).0 == src@ && window_low(hit_views(results@)[j].1, before)
                <= n <= window_high(hit_views(results@)[j].1, after, total)),
        decreases results.len() - k,
    {
        assert(hit_views(results@)[k as int] == hit_view(results@[k as int]));
        if results[k].0 == *src {
            let m = results[k].1;
            let lo: u32 = if m >= b { m - b } else { 0 };
            let hi: u32 = if m + a <= total { m + a } else { total };
            if lo <= n && n <= hi {
                return true;
            }
        }
        k = k + 1;
    }
    false
}

/// The found lines with the lines around them: for each source, in order,
/// each line that lies within `before` lines before or `after` lines after
/// one of its found lines, numbered, a found line with its found text. With
/// no context asked, the found lines as they are.
pub fn expand_context(sources: &[(String, String)], results: &[Hit], before: usize, after: usize) -> (r: Vec<Hit>)
    requires
        !(before == 0 && after == 0) ==> context_fits(source_views(sources@), hit_views(results@), after),
    ensures
        before == 0 && after == 0 ==> hit_views(r@) == hit_views(results@),
        !(before == 0 && after == 0) ==> hit_views(r@) == with_context(source_views(sources@), hit_views(results@), before, after),
{
    if before == 0 && after == 0 {
        let mut out: Vec<Hit> = Vec::new();
        let mut k: usize = 0;
        while k < results.len()
            invariant
                k <= results.len(),
                out@.len() == k,
                hit_views(out@) == hit_views(results@).take(k as int),
            decreases results.len() - k,
        {
            let h: Hit = (results[k].0.clone(), results[k].1, results[k].2.clone());
            let ghost prev = out@;
            out.push(h);
            k = k + 1;
            assert forall|j: int| 0 <= j < k implies #[trigger] hit_views(out@)[j] == hit_views(results@).take(k as int)[j] by {
                if j < k - 1 {
                    assert(out@[j] == prev[j]);
                    assert(hit_views(prev)[j] == hit_views(results@).take(k - 1)[j]);
                }
            }
            assert(hit_views(out@) =~= hit_views(results@).take(k as int));
        }
        assert(hit_views(results@).take(results.len() as int) =~= hit_views(results@));
        return out;
    }
    let ghost srcs = source_views(sources@);
    let ghost res = hit_views(results@);
    let mut out: Vec<Hit> = Vec::new();
    let mut i: usize = 0;
    assert(hit_views(out@) =~= Seq::<HitView>::empty());
    while i < sources.len()
        invariant
            i <= sources.len(),
            srcs == source_views(sources@),
            res == hit_views(results@),
            context_fits(srcs, res, after),
            hit_views(out@) == with_context(srcs.take(i as int), res, before, after),
        decreases sources.len() - i,
    {
        assert(srcs.take(i + 1).drop_last() == srcs.take(i as int));
        assert(srcs.take(i + 1).last() == srcs[i as int]);
        let src = &sources[i].0;
        let ls = split_lines(&to_chars(sources[i].1.as_str()));
        let ghost lv = lines_of(srcs[i as int].1);
        let has_results = {
            let mut found = false;
            let mut k: usize = 0;
            while k < results.len()
                invariant
                    k <= results.len(),
                    found ==> exists|j: int| 0 <= j < results.len() && (#[trigger] results@[j]).0@ == src@,
                    !found ==> forall|j: int| 0 <= j < k ==> (#[trigger] results@[j]).0@ != src@,
                decreases results.len() - k,
            {
                if results[k].0 == *src {
                    found = true;
                }
                k = k + 1;
            }
            found
        };
        let ghost before_out = hit_views(out@);
        if has_results {
            proof {
                let j = choose|j: int| 0 <= j < results.len() && (#[trigger] results@[j]).0@ == src@;
                assert(res[j].0 == srcs[i as int].0);
                assert(lv.len() <= u32::MAX);
                assert forall|k: int| 0 <= k < results.len() && (#[trigger] results@[k]).0@ == src@ implies results@[k].1 + (after as u32) <= u32::MAX by {
                    assert(res[k].0 == srcs[i as int].0);
                }
            }
            let total = ls.len() as u32;
            let mut k: usize = 0;
            while k < ls.len()
                invariant
                    k <= ls.len(),
                    views(ls@) == lv,
                    lv.len() <= u32::MAX,
                    total == lv.len() as u32,
                    srcs[i as int].0 == src@,
                    res == hit_views(results@),
                    forall|j: int| 0 <= j < results.len() && (#[trigger] results@[j]).0@ == src@ ==> results@[j].1 + (after as u32) <= u32::MAX,
                    hit_views(out@) == before_out + context_upto(src@, lv, k as int, res, before, after),
                decreases ls.len() - k,
            {
                let n: u32 = (k as u32) + 1;
                assert(n == (k + 1) as u32);
                if in_context_exec(results, src, n, before, after, total) {
                    let text = match found_text_exec(results, src, n) {
                        Some(t) => t,
                        None => crate::text::from_chars(&ls[k]),
                    };
                    let h: Hit = (src.clone(), n, text);
                    let ghost prev = out@;
                    out.push(h);
                    assert(hit_views(out@) =~= hit_views(prev).push(hit_view(h)));
                }
                k = k + 1;
            }
        } else {
            proof {
                assert forall|j: int| 0 <= j < res.len() implies (#[trigger] res[j]).0 != src@ by {
                    assert(res[j].0 == results@[j].0@);
                }
                lemma_context_upto_empty(src@, lv, lv.len() as int, res, before, after);
            }
        }
        i = i + 1;
    }
    assert(srcs.take(sources.len() as int) == srcs);
    out
}

/// A source without found lines shows no context.
proof fn lemma_context_upto_empty(src: Seq<char>, ls: Seq<Seq<char>>, k: int, results: Seq<HitView>, before: usize, after: usize)
    requires
        forall|j: int| 0 <= j < results.len() ==> (#[trigger] results[j]).0 != src,
    ensures
        context_upto(src, ls, k, results, before, after) == Seq::<HitView>::empty(),
    decreases k,
{
    if k > 0 {
        lemma_context_upto_empty(src, ls, k - 1, results, before, after);
    }
}

// ------------------------------------------------------------------
// Output modes
// ------------------------------------------------------------------

/// One output line: the content, preceded by the line number and a colon
/// with `line_number`, and before that by the source name and a colon with
/// `show_name`.
pub open spec fn format_line(show_name: bool, line_number: bool, src: Seq<char>, n: u32, content: Seq<char>) -> Seq<char> {
    if line_number {
        if show_name {
            src + seq![':'] + decimal(n as nat) + seq![':'] + content
        } else {
            decimal(n as nat) + seq![':'] + content
        }
    } else {
        if show_name {
            src + seq![':'] + content
        } else {
            content
        }
    }
}

/// One output line (see [`format_line`]).
fn format_line_exec(show_name: bool, line_number: bool, src: &str, n: u32, content: &str) -> (r: String)
    ensures
        r@ == format_line(show_name, line_number, src@, n, content@),
{
    let mut v: Vec<char> = Vec::new();
    if show_name {
        extend_chars(&mut v, &to_chars(src));
        v.push(':');
    }
    if line_number {
        push_decimal(&mut v, n as u64);
        v.push(':');
    }
    extend_chars(&mut v, &to_chars(content));
    assert(v@ =~= format_line(show_name, line_number, src@, n, content@));
    from_chars(&v)
}

/// What the output modes read: the options, the sources and the found lines.
pub struct OutputContext<'a> {
    /// The options.
    pub cli: &'a Cli,
    /// The sources, as (name, content) pairs.
    pub sources: &'a [(String, String)],
    /// The found lines.
    pub results: &'a [Hit],
}

/// An output mode: the lines it prints for a search.
pub trait OutputStrategy {
    /// The mode numbers the lines of the sources themselves.
    spec fn numbers_lines(&self) -> bool;

    /// The lines printed, in order. (Line numbers are `u32`, so a mode that
    /// numbers the lines of a source needs it to hold at most `u32::MAX`
    /// lines.)
    fn execute(&self, ctx: &OutputContext) -> Vec<String>
        requires
            self.numbers_lines() ==> line_counts_fit(source_views(ctx.sources@)),
    ;
}

/// The found lines, one per output line.
pub open spec fn line_output(cli: Cli, n_sources: nat, results: Seq<HitView>) -> Seq<Seq<char>> {
    Seq::new(
        results.len(),
        |i: int|
            format_line(
                n_sources > 1 || cli.with_filename,
                cli.line_number,
                results[i].0,
                results[i].1,
                results[i].2,
            ),
    )
}

/// Prints each found line.
pub struct LineOutput;

impl OutputStrategy for LineOutput {
    open spec fn numbers_lines(&self) -> bool {
        false
    }

    fn execute(&self, ctx: &OutputContext) -> (r: Vec<String>)
        ensures
            str_views(r@) == line_output(*ctx.cli, ctx.sources@.len(), hit_views(ctx.results@)),
    {
        let show_name = ctx.sources.len() > 1 || ctx.cli.with_filename;
        let mut out: Vec<String> = Vec::new();
        let mut i: usize = 0;
        let ghost want = line_output(*ctx.cli, ctx.sources@.len(), hit_views(ctx.results@));
        while i < ctx.results.len()
            invariant
                i <= ctx.results.len(),
                show_name == (ctx.sources@.len() > 1 || ctx.cli.with_filename),
                want == line_output(*ctx.cli, ctx.sources@.len(), hit_views(ctx.results@)),
                out@.len() == i,
                str_views(out@) == want.take(i as int),
            decreases ctx.results.len() - i,
        {
            let s = format_line_exec(
                show_name,
                ctx.cli.line_number,
                ctx.results[i].0.as_str(),
                ctx.results[i].1,
                ctx.results[i].2.as_str(),
            );
            let ghost prev = out@;
            out.push(s);
            proof {
                lemma_str_views_push(prev, s);
            }
            i = i + 1;
            assert(want.take(i as int) =~= want.take(i - 1).push(want[i - 1]));
        }
        assert(want.take(ctx.results.len() as int) =~= want);
        out
    }
}

/// The output lines of the whole text of one source: each line numbered,
/// a found line with its found text.
pub open spec fn all_lines_of(show_name: bool, line_number: bool, src: Seq<char>, ls: Seq<Seq<char>>, results: Seq<HitView>) -> Seq<Seq<char>> {
    Seq::new(
        ls.len(),
        |k: int|
            format_line(
                show_name,
                line_number,
                src,
                (k + 1) as u32,
                match found_text(results, src, (k + 1) as u32) {
                    Some(t) => t,
                    None => ls[k],
                },
            ),
    )
}

/// The output lines of the whole text of all sources, source by source.
pub open spec fn all_output(cli: Cli, srcs: Seq<(Seq<char>, Seq<char>)>, k: int, results: Seq<HitView>) -> Seq<Seq<char>>
    decreases k,
{
    if k <= 0 {
        seq![]
    } else {
        all_output(cli, srcs, k - 1, results) + all_lines_of(
            srcs.len() > 1 || cli.with_filename,
            cli.line_number,
            srcs[k - 1].0,
            lines_of(srcs[k - 1].1),
            results,
        )
    }
}

/// Prints the whole text of each source, found lines marked.
pub struct AllOutput;

impl OutputStrategy for AllOutput {
    open spec fn numbers_lines(&self) -> bool {
        true
    }

    fn execute(&self, ctx: &OutputContext) -> (r: Vec<String>)
        ensures
            str_views(r@) == all_output(
                *ctx.cli,
                source_views(ctx.sources@),
                ctx.sources@.len() as int,
                hit_views(ctx.results@),
            ),
    {
        all_output_exec(ctx)
    }
}

fn all_output_exec(ctx: &OutputContext) -> (r: Vec<String>)
    requires
        line_counts_fit(source_views(ctx.sources@)),
    ensures
        str_views(r@) == all_output(
            *ctx.cli,
            source_views(ctx.sources@),
            ctx.sources@.len() as int,
            hit_views(ctx.results@),
        ),
{
    let ghost srcs = source_views(ctx.sources@);
    let ghost res = hit_views(ctx.results@);
    let show_name = ctx.sources.len() > 1 || ctx.cli.with_filename;
    let mut out: Vec<String> = Vec::new();
    let mut i: usize = 0;
    assert(str_views(out@) =~= Seq::<Seq<char>>::empty());
    while i < ctx.sources.len()
        invariant
            i <= ctx.sources.len(),
            srcs == source_views(ctx.sources@),
            res == hit_views(ctx.results@),
            show_name == (srcs.len() > 1 || ctx.cli.with_filename),
            line_counts_fit(srcs),
            str_views(out@) == all_output(*ctx.cli, srcs, i as int, res),
        decreases ctx.sources.len() - i,
    {
        let src = &ctx.sources[i].0;
        let ls = split_lines(&to_chars(ctx.sources[i].1.as_str()));
        let ghost lv = lines_of(srcs[i as int].1);
        let ghost want = all_lines_of(show_name, ctx.cli.line_number, src@, lv, res);
        let ghost before_out = str_views(out@);
        assert(lv.len() <= u32::MAX);
        let mut k: usize = 0;
        while k < ls.len()
            invariant
                k <= ls.len(),
                lv.len() <= u32::MAX,
                views(ls@) == lv,
                srcs[i as int].0 == src@,
                res == hit_views(ctx.results@),
                want == all_lines_of(show_name, ctx.cli.line_number, src@, lv, res),
                str_views(out@) == before_out + want.take(k as int),
            decreases ls.len() - k,
        {
            let n: u32 = (k as u32) + 1;
            let displayed = match found_text_exec(ctx.results, src, n) {
                Some(t) => t,
                None => from_chars(&ls[k]),
            };
            let s = format_line_exec(show_name, ctx.cli.line_number, src.as_str(), n, displayed.as_str());
            let ghost prev = out@;
            out.push(s);
            proof {
                lemma_str_views_push(prev, s);
            }
            k = k + 1;
            assert(want.take(k as int) =~= want.take(k - 1).push(want[k - 1]));
        }
        i = i + 1;
    }
    out
}

/// `a` comes before `b` in the order of `str`: character by character
/// (UTF-8 bytes compare as their code points do), a proper prefix first.
pub open spec fn str_lt(a: Seq<char>, b: Seq<char>) -> bool
    decreases a.len(),
{
    if a.len() == 0 {
        b.len() > 0
    } else if b.len() == 0 {
        false
    } else if a[0] != b[0] {
        (a[0] as u32) < (b[0] as u32)
    } else {
        str_lt(a.drop_first(), b.drop_first())
    }
}

proof fn lemma_char_u32_injective(x: char, y: char)
    ensures
        (x as u32) == (y as u32) ==> x == y,
{
    vstd::utf8::char_u32_cast(x, x as u32);
    vstd::utf8::char_u32_cast(y, y as u32);
}

proof fn lemma_str_lt_irrefl(a: Seq<char>)
    ensures
        !str_lt(a, a),
    decreases a.len(),
{
    if a.len() > 0 {
        lemma_str_lt_irrefl(a.drop_first());
    }
}

proof fn lemma_str_lt_asym(a: Seq<char>, b: Seq<char>)
    ensures
        str_lt(a, b) ==> !str_lt(b, a),
    decreases a.len(),
{
    if a.len() > 0 && b.len() > 0 {
        lemma_str_lt_asym(a.drop_first(), b.drop_first());
    }
}

proof fn lemma_str_lt_total(a: Seq<char>, b: Seq<char>)
    ensures
        a != b ==> str_lt(a, b) || str_lt(b, a),
    decreases a.len(),
{
    if a.len() > 0 && b.len() > 0 {
        lemma_char_u32_injective(a[0], b[0]);
        lemma_str_lt_total(a.drop_first(), b.drop_first());
        if a[0] == b[0] && a.drop_first() == b.drop_first() {
            assert(a =~= seq![a[0]] + a.drop_first());
            assert(b =~= seq![b[0]] + b.drop_first());
        }
    } else if a.len() == 0 && b.len() == 0 {
        assert(a =~= b);
    }
}

proof fn lemma_str_lt_trans(a: Seq<char>, b: Seq<char>, c: Seq<char>)
    ensures
        str_lt(a, b) && str_lt(b, c) ==> str_lt(a, c),
    decreases a.len(),
{
    if a.len() > 0 && b.len() > 0 && c.len() > 0 {
        lemma_char_u32_injective(a[0], b[0]);
        lemma_char_u32_injective(b[0], c[0]);
        lemma_char_u32_injective(a[0], c[0]);
        lemma_str_lt_trans(a.drop_first(), b.drop_first(), c.drop_first());
    }
}

/// The order of `str` is a strict total order.
pub proof fn lemma_str_lt_order(a: Seq<char>, b: Seq<char>, c: Seq<char>)
    ensures
        !str_lt(a, a),
        str_lt(a, b) ==> !str_lt(b, a),
        a != b ==> str_lt(a, b) || str_lt(b, a),
        str_lt(a, b) && str_lt(b, c) ==> str_lt(a, c),
{
    lemma_str_lt_irrefl(a);
    lemma_str_lt_asym(a, b);
    lemma_str_lt_total(a, b);
    lemma_str_lt_trans(a, b, c);
}

/// The names are in strictly increasing order.
pub open spec fn strictly_sorted(names: Seq<Seq<char>>) -> bool {
    forall|i: int, j: int| 0 <= i < j < names.len() ==> str_lt(#[trigger] names[i], #[trigger] names[j])
}

/// The source names of the found lines.
pub open spec fn result_names(results: Seq<HitView>) -> Set<Seq<char>> {
    Set::new(|x: Seq<char>| exists|k: int| 0 <= k < results.len() && (#[trigger] results[k]).0 == x)
}

/// The number of found lines of source `src`.
pub open spec fn count_of(results: Seq<HitView>, src: Seq<char>) -> nat
    decreases results.len(),
{
    if results.len() == 0 {
        0
    } else {
        count_of(results.drop_last(), src) + if results.last().0 == src {
            1nat
        } else {
            0nat
        }
    }
}

/// One count line per name: the name, a colon and its number of found lines.
pub open spec fn count_lines(names: Seq<Seq<char>>, results: Seq<HitView>) -> Seq<Seq<char>> {
    Seq::new(names.len(), |i: int| names[i] + seq![':'] + decimal(count_of(results, names[i])))
}

/// What the count mode prints: with one source the number of found lines;
/// else, for each source name with found lines, in the order of `str`, the
/// name, a colon and its number of found lines.
pub open spec fn count_output(n_sources: nat, results: Seq<HitView>, r: Seq<Seq<char>>) -> bool {
    if n_sources == 1 {
        r == seq![decimal(results.len())]
    } else {
        exists|names: Seq<Seq<char>>|
            strictly_sorted(names) && names.to_set() == result_names(results) && r == count_lines(
                names,
                results,
            )
    }
}

/// Whether `a` comes before `b` in the order of `str`.
fn str_lt_exec(a: &[char], b: &[char]) -> (r: bool)
    ensures
        r == str_lt(a@, b@),
{
    let mut i: usize = 0;
    assert(a@.skip(0) == a@);
    assert(b@.skip(0) == b@);
    while i < a.len() && i < b.len()
        invariant
            i <= a.len(),
            i <= b.len(),
            forall|j: int| 0 <= j < i ==> a@[j] == b@[j],
            str_lt(a@, b@) == str_lt(a@.skip(i as int), b@.skip(i as int)),
        decreases a.len() - i,
    {
        if a[i] != b[i] {
            assert(a@.skip(i as int)[0] == a@[i as int]);
            assert(b@.skip(i as int)[0] == b@[i as int]);
            return (a[i] as u32) < (b[i] as u32);
        }
        assert(a@.skip(i as int).drop_first() == a@.skip(i + 1));
        assert(b@.skip(i as int).drop_first() == b@.skip(i + 1));
        i = i + 1;
    }
    i == a.len() && i < b.len()
}

/// The number of found lines of source `src`.
fn count_of_exec(results: &[Hit], src: &String) -> (r: usize)
    ensures
        r == count_of(hit_views(results@), src@),
{
    let mut c: usize = 0;
    let mut k: usize = 0;
    assert(hit_views(results@).take(0) =~= Seq::<HitView>::empty());
    while k < results.len()
        invariant
            k <= results.len(),
            c <= k,
            c == count_of(hit_views(results@).take(k as int), src@),
        decreases results.len() - k,
    {
        assert(hit_views(results@).take(k + 1).drop_last() == hit_views(results@).take(k as int));
        assert(hit_views(results@).take(k + 1).last() == hit_view(results@[k as int]));
        if results[k].0 == *src {
            c = c + 1;
        }
        k = k + 1;
    }
    assert(hit_views(results@).take(results.len() as int) == hit_views(results@));
    c
}

/// Puts `x` into the strictly sorted `v`, unless it is there already.
fn insert_sorted(v: &mut Vec<Vec<char>>, x: &[char])
    requires
        strictly_sorted(views(old(v)@)),
    ensures
        strictly_sorted(views(final(v)@)),
        views(final(v)@).to_set() == views(old(v)@).to_set().insert(x@),
{
    let ghost old_v = views(v@);
    let mut p: usize = 0;
    while p < v.len() && str_lt_exec(&v[p], x)
        invariant
            p <= v.len(),
            views(v@) == old_v,
            forall|j: int| 0 <= j < p ==> str_lt(#[trigger] old_v[j], x@),
        decreases v.len() - p,
    {
        p = p + 1;
    }
    if p < v.len() && crate::text::chars_eq(&v[p], x) {
        assert(old_v.to_set().insert(x@) =~= old_v.to_set()) by {
            assert(old_v[p as int] == x@);
        }
        return;
    }
    let mut xv: Vec<char> = Vec::new();
    extend_chars(&mut xv, x);
    v.insert(p, xv);
    let ghost nv = views(v@);
    assert(nv =~= old_v.insert(p as int, x@));
    assert forall|i: int, j: int| 0 <= i < j < nv.len() implies str_lt(#[trigger] nv[i], #[trigger] nv[j]) by {
        if p < old_v.len() {
            proof_lt_after(old_v, x@, p as int);
        }
        if i < p && j == p {
        } else if i < p && j > p {
            lemma_str_lt_order(nv[i], x@, nv[j]);
            assert(nv[j] == old_v[j - 1]);
            if j - 1 > p {
                lemma_str_lt_order(x@, old_v[p as int], old_v[j - 1]);
            }
        } else if i == p {
            assert(nv[j] == old_v[j - 1]);
            if j - 1 > p {
                lemma_str_lt_order(x@, old_v[p as int], old_v[j - 1]);
            }
        } else if i < p {
        } else {
            assert(nv[i] == old_v[i - 1]);
            assert(nv[j] == old_v[j - 1]);
        }
    }
    assert(nv.to_set() =~= old_v.to_set().insert(x@)) by {
        assert forall|y: Seq<char>| nv.to_set().contains(y) <==> old_v.to_set().insert(x@).contains(y) by {
            if nv.to_set().contains(y) {
                let k = choose|k: int| 0 <= k < nv.len() && nv[k] == y;
                if k < p {
                    assert(old_v[k] == y);
                } else if k > p {
                    assert(old_v[k - 1] == y);
                }
            }
            if old_v.to_set().contains(y) {
                let k = choose|k: int| 0 <= k < old_v.len() && old_v[k] == y;
                if k < p {
                    assert(nv[k] == y);
                } else {
                    assert(nv[k + 1] == y);
                }
            }
            if y == x@ {
                assert(nv[p as int] == y);
            }
        }
    }
}

/// Where `x` would go in a sorted list it is not in: before the element at
/// `p`, the first one it does not follow.
proof fn proof_lt_after(v: Seq<Seq<char>>, x: Seq<char>, p: int)
    requires
        0 <= p < v.len(),
        !str_lt(v[p], x),
        v[p] != x,
    ensures
        str_lt(x, v[p]),
{
    lemma_str_lt_order(v[p], x, x);
}

/// Prints the number of found lines, per source when there are several.
pub struct CountOutput;

impl OutputStrategy for CountOutput {
    open spec fn numbers_lines(&self) -> bool {
        false
    }

    fn execute(&self, ctx: &OutputContext) -> (r: Vec<String>)
        ensures
            count_output(ctx.sources@.len(), hit_views(ctx.results@), str_views(r@)),
    {
        let ghost res = hit_views(ctx.results@);
        if ctx.sources.len() == 1 {
            let mut v: Vec<char> = Vec::new();
            push_decimal(&mut v, ctx.results.len() as u64);
            let mut out: Vec<String> = Vec::new();
            let s = from_chars(&v);
            out.push(s);
            assert(str_views(out@) =~= seq![decimal(res.len())]);
            return out;
        }
        let mut names: Vec<Vec<char>> = Vec::new();
        let mut k: usize = 0;
        while k < ctx.results.len()
            invariant
                k <= ctx.results.len(),
                res == hit_views(ctx.results@),
                strictly_sorted(views(names@)),
                views(names@).to_set() == result_names(res.take(k as int)),
            decreases ctx.results.len() - k,
        {
            insert_sorted(&mut names, &to_chars(ctx.results[k].0.as_str()));
            k = k + 1;
            assert(result_names(res.take(k as int)) =~= result_names(res.take(k - 1)).insert(ctx.results@[k - 1].0@)) by {
                assert forall|x: Seq<char>| result_names(res.take(k as int)).contains(x) <==> result_names(res.take(k - 1)).insert(ctx.results@[k - 1].0@).contains(x) by {
                    if result_names(res.take(k as int)).contains(x) {
                        let j = choose|j: int| 0 <= j < res.take(k as int).len() && (#[trigger] res.take(k as int)[j]).0 == x;
                        if j < k - 1 {
                            assert(res.take(k - 1)[j] == res.take(k as int)[j]);
                        }
                    }
                    if result_names(res.take(k - 1)).contains(x) {
                        let j = choose|j: int| 0 <= j < res.take(k - 1).len() && (#[trigger] res.take(k - 1)[j]).0 == x;
                        assert(res.take(k as int)[j] == res.take(k - 1)[j]);
                    }
                    if x == ctx.results@[k - 1].0@ {
                        assert(res.take(k as int)[k - 1].0 == x);
                    }
                }
            }
        }
        assert(res.take(ctx.results.len() as int) == res);
        let mut out: Vec<String> = Vec::new();
        let mut i: usize = 0;
        let ghost nv = views(names@);
        let ghost want = count_lines(nv, res);
        while i < names.len()
            invariant
                i <= names.len(),
                nv == views(names@),
                res == hit_views(ctx.results@),
                want == count_lines(nv, res),
                out@.len() == i,
                str_views(out@) == want.take(i as int),
            decreases names.len() - i,
        {
            let name = from_chars(&names[i]);
            let c = count_of_exec(ctx.results, &name);
            let mut v: Vec<char> = Vec::new();
            extend_chars(&mut v, &names[i]);
            v.push(':');
            push_decimal(&mut v, c as u64);
            assert(v@ =~= want[i as int]);
            let s = from_chars(&v);
            let ghost prev = out@;
            out.push(s);
            proof {
                lemma_str_views_push(prev, s);
            }
            i = i + 1;
            assert(want.take(i as int) =~= want.take(i - 1).push(want[i - 1]));
        }
        assert(want.take(names.len() as int) =~= want);
        assert(strictly_sorted(nv) && nv.to_set() == result_names(res) && str_views(out@) == count_lines(nv, res));
        out
    }
}

/// The source names of the found lines, each once, in the order they
/// first appear.
pub open spec fn first_names(results: Seq<HitView>) -> Seq<Seq<char>>
    decreases results.len(),
{
    if results.len() == 0 {
        seq![]
    } else {
        let prev = first_names(results.drop_last());
        if prev.contains(results.last().0) {
            prev
        } else {
            prev.push(results.last().0)
        }
    }
}

/// Prints the name of each source with found lines, once.
pub struct FilesWithMatchesOutput;

impl OutputStrategy for FilesWithMatchesOutput {
    open spec fn numbers_lines(&self) -> bool {
        false
    }

    fn execute(&self, ctx: &OutputContext) -> (r: Vec<String>)
        ensures
            str_views(r@) == first_names(hit_views(ctx.results@)),
    {
        let ghost res = hit_views(ctx.results@);
        let mut out: Vec<String> = Vec::new();
        let mut k: usize = 0;
        assert(str_views(out@) =~= Seq::<Seq<char>>::empty());
        while k < ctx.results.len()
            invariant
                k <= ctx.results.len(),
                res == hit_views(ctx.results@),
                str_views(out@) == first_names(res.take(k as int)),
            decreases ctx.results.len() - k,
        {
            assert(res.take(k + 1).drop_last() == res.take(k as int));
            assert(res.take(k + 1).last().0 == ctx.results@[k as int].0@);
            let mut seen = false;
            let mut j: usize = 0;
            while j < out.len()
                invariant
                    j <= out.len(),
                    k < ctx.results.len(),
                    seen == exists|m: int| 0 <= m < j && (#[trigger] str_views(out@)[m]) == ctx.results@[k as int].0@,
                decreases out.len() - j,
            {
                assert(str_views(out@)[j as int] == out@[j as int]@);
                if out[j] == ctx.results[k].0 {
                    seen = true;
                }
                j = j + 1;
            }
            assert(seen == first_names(res.take(k as int)).contains(ctx.results@[k as int].0@));
            if !seen {
                let s = ctx.results[k].0.clone();
                let ghost prev = out@;
                out.push(s);
                proof {
                    lemma_str_views_push(prev, s);
                }
            }
            k = k + 1;
        }
        assert(res.take(ctx.results.len() as int) == res);
        out
    }
}

/// The names of the sources without found lines, in source order.
pub open spec fn names_without(srcs: Seq<(Seq<char>, Seq<char>)>, results: Seq<HitView>) -> Seq<Seq<char>>
    decreases srcs.len(),
{
    if srcs.len() == 0 {
        seq![]
    } else {
        let prev = names_without(srcs.drop_last(), results);
        if result_names(results).contains(srcs.last().0) {
            prev
        } else {
            prev.push(srcs.last().0)
        }
    }
}

/// Prints the name of each source without found lines.
pub struct FilesWithoutMatchOutput;

impl OutputStrategy for FilesWithoutMatchOutput {
    open spec fn numbers_lines(&self) -> bool {
        false
    }

    fn execute(&self, ctx: &OutputContext) -> (r: Vec<String>)
        ensures
            str_views(r@) == names_without(source_views(ctx.sources@), hit_views(ctx.results@)),
    {
        let ghost res = hit_views(ctx.results@);
        let ghost srcs = source_views(ctx.sources@);
        let mut out: Vec<String> = Vec::new();
        let mut i: usize = 0;
        assert(str_views(out@) =~= Seq::<Seq<char>>::empty());
        while i < ctx.sources.len()
            invariant
                i <= ctx.sources.len(),
                res == hit_views(ctx.results@),
                srcs == source_views(ctx.sources@),
                str_views(out@) == names_without(srcs.take(i as int), res),
            decreases ctx.sources.len() - i,
        {
            assert(srcs.take(i + 1).drop_last() == srcs.take(i as int));
            assert(srcs.take(i + 1).last().0 == ctx.sources@[i as int].0@);
            let mut matched = false;
            let mut k: usize = 0;
            while k < ctx.results.len()
                invariant
                    k <= ctx.results.len(),
                    i < ctx.sources.len(),
                    res == hit_views(ctx.results@),
                    matched == exists|m: int| 0 <= m < k && (#[trigger] res[m]).0 == ctx.sources@[i as int].0@,
                decreases ctx.results.len() - k,
            {
                assert(res[k as int] == hit_view(ctx.results@[k as int]));
                if ctx.results[k].0 == ctx.sources[i].0 {
                    matched = true;
                }
                k = k + 1;
            }
            assert(matched == result_names(res).contains(ctx.sources@[i as int].0@));
            if !matched {
                let s = ctx.sources[i].0.clone();
                let ghost prev = out@;
                out.push(s);
                proof {
                    lemma_str_views_push(prev, s);
                }
            }
            i = i + 1;
        }
        assert(srcs.take(ctx.sources.len() as int) == srcs);
        out
    }
}

/// Prints nothing.
pub struct QuietOutput;

impl OutputStrategy for QuietOutput {
    open spec fn numbers_lines(&self) -> bool {
        false
    }

    fn execute(&self, ctx: &OutputContext) -> (r: Vec<String>)
        ensures
            r@.len() == 0,
    {
        Vec::new()
    }
}

/// The output modes.
pub enum OutputMode {
    /// Nothing (`-q`).
    Quiet,
    /// Names of sources with found lines (`-l`).
    FilesWithMatches,
    /// Names of sources without found lines (`-L`).
    FilesWithoutMatch,
    /// Numbers of found lines (`-c`).
    Count,
    /// The whole text, found lines marked (`--all`).
    All,
    /// The found lines.
    Lines,
}

/// The output mode the options ask for, the first that applies of quiet,
/// files with matches, files without match, count, all, lines.
pub open spec fn chosen_mode(cli: Cli) -> OutputMode {
    if cli.quiet {
        OutputMode::Quiet
    } else if cli.files_with_matches {
        OutputMode::FilesWithMatches
    } else if cli.files_without_match {
        OutputMode::FilesWithoutMatch
    } else if cli.count {
        OutputMode::Count
    } else if cli.all {
        OutputMode::All
    } else {
        OutputMode::Lines
    }
}

/// Chooses the output mode.
pub fn choose_mode(cli: &Cli) -> (r: OutputMode)
    ensures
        r == chosen_mode(*cli),
{
    if cli.quiet {
        OutputMode::Quiet
    } else if cli.files_with_matches {
        OutputMode::FilesWithMatches
    } else if cli.files_without_match {
        OutputMode::FilesWithoutMatch
    } else if cli.count {
        OutputMode::Count
    } else if cli.all {
        OutputMode::All
    } else {
        OutputMode::Lines
    }
}

/// What an output mode prints for the search described by `ctx`.
pub open spec fn mode_output(mode: OutputMode, cli: Cli, srcs: Seq<(Seq<char>, Seq<char>)>, results: Seq<HitView>, r: Seq<Seq<char>>) -> bool {
    match mode {
        OutputMode::Quiet => r.len() == 0,
        OutputMode::FilesWithMatches => r == first_names(results),
        OutputMode::FilesWithoutMatch => r == names_without(srcs, results),
        OutputMode::Count => count_output(srcs.len(), results, r),
        OutputMode::All => r == all_output(cli, srcs, srcs.len() as int, results),
        OutputMode::Lines => r == line_output(cli, srcs.len(), results),
    }
}

/// The lines an output mode prints.
pub fn execute_mode(mode: &OutputMode, ctx: &OutputContext) -> (r: Vec<String>)
    requires
        *mode is All ==> line_counts_fit(source_views(ctx.sources@)),
    ensures
        mode_output(*mode, *ctx.cli, source_views(ctx.sources@), hit_views(ctx.results@), str_views(r@)),
{
    match mode {
        OutputMode::Quiet => QuietOutput.execute(ctx),
        OutputMode::FilesWithMatches => FilesWithMatchesOutput.execute(ctx),
        OutputMode::FilesWithoutMatch => FilesWithoutMatchOutput.execute(ctx),
        OutputMode::Count => CountOutput.execute(ctx),
        OutputMode::All => AllOutput.execute(ctx),
        OutputMode::Lines => LineOutput.execute(ctx),
    }
}

// ------------------------------------------------------------------
// Running a search
// ------------------------------------------------------------------

/// How a search runs: reading all input first, or line by line.
pub enum RunPlan {
    /// All input read first (inversion, whole text, file names, context).
    Memory,
    /// Line by line, each found line printed at once.
    Streaming,
}

/// The value of an optional number, 0 when absent.
pub open spec fn or_zero(o: Option<usize>) -> usize {
    match o {
        Some(n) => n,
        None => 0,
    }
}

/// The search needs all input first: with `-v`, `--all`, `-l`, `-L`, or
/// any context lines asked.
pub open spec fn needs_full(cli: Cli) -> bool {
    cli.invert_match || cli.all || cli.files_with_matches || cli.files_without_match || or_zero(
        cli.before_context,
    ) > 0 || or_zero(cli.after_context) > 0 || or_zero(cli.context) > 0
}

fn or_zero_exec(o: Option<usize>) -> (r: usize)
    ensures
        r == or_zero(o),
{
    match o {
        Some(n) => n,
        None => 0,
    }
}

/// Chooses how the search runs.
pub fn run(cli: &Cli) -> (r: RunPlan)
    ensures
        r is Memory <==> needs_full(*cli),
{
    let need_full = cli.invert_match || cli.all || cli.files_with_matches || cli.files_without_match
        || or_zero_exec(cli.before_context) > 0 || or_zero_exec(cli.after_context) > 0
        || or_zero_exec(cli.context) > 0;
    if need_full {
        RunPlan::Memory
    } else {
        RunPlan::Streaming
    }
}

/// The lines of context asked before found lines: `-B`, else `-C`, else 0.
pub open spec fn before_lines(cli: Cli) -> usize {
    match cli.before_context {
        Some(n) => n,
        None => or_zero(cli.context),
    }
}

/// The lines of context asked after found lines: `-A`, else `-C`, else 0.
pub open spec fn after_lines(cli: Cli) -> usize {
    match cli.after_context {
        Some(n) => n,
        None => or_zero(cli.context),
    }
}

/// Context lines are shown: the mode prints the found lines themselves
/// (not a count, file names, the whole text or nothing), and some context
/// is asked.
pub open spec fn context_shown(cli: Cli) -> bool {
    chosen_mode(cli) is Lines && (before_lines(cli) > 0 || after_lines(cli) > 0)
}

/// The found lines shown in memory mode: with context lines around them
/// where context is shown (`None` when the context numbers overflow `u32`).
/// A count, the file names and the whole text go by the found lines alone.
pub open spec fn shown_hits(cli: Cli, srcs: Seq<(Seq<char>, Seq<char>)>, hits: Seq<HitView>) -> Option<Seq<HitView>> {
    let before = before_lines(cli);
    let after = after_lines(cli);
    if context_shown(cli) {
        if context_fits(srcs, hits, after) {
            Some(with_context(srcs, hits, before, after))
        } else {
            None
        }
    } else {
        Some(hits)
    }
}

/// What memory mode prints: the regular expression's message as an error;
/// `Ok(None)` where the search does not return normally; else the lines of
/// the chosen output mode for the shown found lines, and whether the search
/// selected any line (the exit status is 1 when it selected none).
pub open spec fn memory_output(cli: Cli, srcs: Seq<(Seq<char>, Seq<char>)>, r: Result<Option<(Seq<Seq<char>>, bool)>, Seq<char>>) -> bool {
    match crate::matcher::search_outcome(cli, srcs) {
        Err(m) => r == Err::<Option<(Seq<Seq<char>>, bool)>, Seq<char>>(m),
        Ok(None) => r == Ok::<Option<(Seq<Seq<char>>, bool)>, Seq<char>>(None),
        Ok(Some(hits)) => match shown_hits(cli, srcs, hits) {
            None => r == Ok::<Option<(Seq<Seq<char>>, bool)>, Seq<char>>(None),
            Some(sh) => match r {
                Ok(Some((v, any))) => mode_output(chosen_mode(cli), cli, srcs, sh, v) && any == (hits.len() > 0),
                _ => false,
            },
        },
    }
}

/// The view of a memory-mode outcome.
pub open spec fn lines_outcome_view(r: Result<Option<(Vec<String>, bool)>, String>) -> Result<Option<(Seq<Seq<char>>, bool)>, Seq<char>> {
    match r {
        Ok(Some((v, any))) => Ok(Some((str_views(v@), any))),
        Ok(None) => Ok(None),
        Err(m) => Err(m@),
    }
}

/// Whether the context numbers fit in `u32` (see [`context_fits`]).
fn context_fits_exec(sources: &[(String, String)], results: &[Hit], after: usize) -> (r: bool)
    ensures
        r == context_fits(source_views(sources@), hit_views(results@), after),
{
    let ghost srcs = source_views(sources@);
    let ghost res = hit_views(results@);
    let a = after as u32;
    let mut i: usize = 0;
    while i < sources.len()
        invariant
            i <= sources.len(),
            a == after as u32,
            srcs == source_views(sources@),
            res == hit_views(results@),
            forall|i2: int, k: int|
                0 <= i2 < i && 0 <= k < res.len() && (#[trigger] res[k]).0 == (#[trigger] srcs[i2]).0
                    ==> lines_of(srcs[i2].1).len() <= u32::MAX && res[k].1 + (after as u32) <= u32::MAX,
        decreases sources.len() - i,
    {
        let ls = split_lines(&to_chars(sources[i].1.as_str()));
        let mut k: usize = 0;
        while k < results.len()
            invariant
                k <= results.len(),
                i < sources.len(),
                a == after as u32,
                srcs == source_views(sources@),
                res == hit_views(results@),
                views(ls@) == lines_of(srcs[i as int].1),
                forall|i2: int, k2: int|
                    0 <= i2 < i && 0 <= k2 < res.len() && (#[trigger] res[k2]).0 == (#[trigger] srcs[i2]).0
                        ==> lines_of(srcs[i2].1).len() <= u32::MAX && res[k2].1 + (after as u32) <= u32::MAX,
                forall|k2: int|
                    0 <= k2 < k && (#[trigger] res[k2]).0 == srcs[i as int].0
                        ==> lines_of(srcs[i as int].1).len() <= u32::MAX && res[k2].1 + (after as u32) <= u32::MAX,
            decreases results.len() - k,
        {
            assert(res[k as int] == hit_view(results@[k as int]));
            if results[k].0 == sources[i].0 {
                if ls.len() > 4294967295 || results[k].1 > 4294967295 - a {
                    assert(!context_fits(srcs, res, after)) by {
                        assert(res[k as int].0 == srcs[i as int].0);
                    }
                    return false;
                }
            }
            k = k + 1;
        }
        i = i + 1;
    }
    true
}

/// Memory mode: searches the sources, adds context lines where they are
/// shown, and gives the lines of the chosen output mode together with
/// whether any line was selected.
pub fn run_memory(cli: &Cli, sources: &[(String, String)]) -> (r: Result<Option<(Vec<String>, bool)>, String>)
    requires
        line_counts_fit(source_views(sources@)),
    ensures
        memory_output(*cli, source_views(sources@), lines_outcome_view(r)),
{
    let results = match crate::matcher::try_search_from(cli, sources) {
        Err(e) => {
            return Err(e);
        },
        Ok(None) => {
            return Ok(None);
        },
        Ok(Some(v)) => v,
    };
    let before = match cli.before_context {
        Some(n) => n,
        None => or_zero_exec(cli.context),
    };
    let after = match cli.after_context {
        Some(n) => n,
        None => or_zero_exec(cli.context),
    };
    let any = results.len() > 0;
    let mode = choose_mode(cli);
    let lines_mode = match mode {
        OutputMode::Lines => true,
        _ => false,
    };
    let results = if lines_mode && (before > 0 || after > 0) {
        if !context_fits_exec(sources, &results, after) {
            return Ok(None);
        }
        expand_context(sources, &results, before, after)
    } else {
        results
    };
    let ctx = OutputContext { cli, sources, results: &results };
    let lines = execute_mode(&mode, &ctx);
    Ok(Some((lines, any)))
}

/// What streaming prints for one found line: nothing with `-q` or `-c`;
/// the source name with `-l`; else the line, numbered with `-n`, prefixed
/// with the source name when several files are named or with `-H`.
pub open spec fn stream_line(cli: Cli, hit: HitView) -> Option<Seq<char>> {
    if cli.quiet || (!cli.files_with_matches && cli.count) {
        None
    } else if cli.files_with_matches {
        Some(hit.0)
    } else {
        Some(format_line(cli.filenames.len() > 1 || cli.with_filename, cli.line_number, hit.0, hit.1, hit.2))
    }
}

/// The view of an optional string.
pub open spec fn opt_string_view(o: Option<String>) -> Option<Seq<char>> {
    match o {
        Some(s) => Some(s@),
        None => None,
    }
}

/// What streaming prints for one found line.
pub fn stream_step(cli: &Cli, hit: &Hit) -> (r: Option<String>)
    ensures
        opt_string_view(r) == stream_line(*cli, hit_view(*hit)),
{
    if cli.quiet {
        return None;
    }
    if cli.files_with_matches {
        return Some(hit.0.clone());
    }
    if cli.count {
        return None;
    }
    Some(format_line_exec(cli.filenames.len() > 1 || cli.with_filename, cli.line_number, hit.0.as_str(), hit.1, hit.2.as_str()))
}

/// After streaming `total` found lines: the total printed with `-c`; the
/// exit status is 1 when nothing was found.
pub fn stream_finish(cli: &Cli, total: usize) -> (r: (Option<String>, bool))
    ensures
        opt_string_view(r.0) == (if cli.count { Some(decimal(total as nat)) } else { None::<Seq<char>> }),
        r.1 == (total == 0),
{
    let line = if cli.count {
        let mut v: Vec<char> = Vec::new();
        push_decimal(&mut v, total as u64);
        Some(from_chars(&v))
    } else {
        None
    };
    (line, total == 0)
}

// ------------------------------------------------------------------
// Laws of the output modes
// ------------------------------------------------------------------

/// The names that the files-with-matches mode prints are the source names
/// of the found lines.
pub proof fn lemma_first_names_contains(results: Seq<HitView>, x: Seq<char>)
    ensures
        first_names(results).contains(x) <==> result_names(results).contains(x),
    decreases results.len(),
{
    if results.len() > 0 {
        let prev = results.drop_last();
        lemma_first_names_contains(prev, x);
        if result_names(prev).contains(x) {
            let k = choose|k: int| 0 <= k < prev.len() && (#[trigger] prev[k]).0 == x;
            assert(results[k] == prev[k]);
        }
        if result_names(results).contains(x) {
            let k = choose|k: int| 0 <= k < results.len() && (#[trigger] results[k]).0 == x;
            if k < results.len() - 1 {
                assert(prev[k] == results[k]);
            }
        }
        let fp = first_names(prev);
        if !fp.contains(results.last().0) {
            assert(fp.push(results.last().0)[fp.len() as int] == results.last().0);
            if fp.push(results.last().0).contains(x) && x != results.last().0 {
                let j = choose|j: int| 0 <= j < fp.push(results.last().0).len() && fp.push(results.last().0)[j] == x;
                assert(fp[j] == x);
            }
            if fp.contains(x) {
                let j = choose|j: int| 0 <= j < fp.len() && fp[j] == x;
                assert(fp.push(results.last().0)[j] == x);
            }
        }
    }
}

/// The names that the files-without-match mode prints are the source names
/// without found lines.
pub proof fn lemma_names_without_contains(srcs: Seq<(Seq<char>, Seq<char>)>, results: Seq<HitView>, x: Seq<char>)
    ensures
        names_without(srcs, results).contains(x) <==> (exists|i: int| 0 <= i < srcs.len() && (#[trigger] srcs[i]).0 == x)
            && !result_names(results).contains(x),
    decreases srcs.len(),
{
    if srcs.len() > 0 {
        let prev = srcs.drop_last();
        lemma_names_without_contains(prev, results, x);
        let np = names_without(prev, results);
        if exists|i: int| 0 <= i < prev.len() && (#[trigger] prev[i]).0 == x {
            let i = choose|i: int| 0 <= i < prev.len() && (#[trigger] prev[i]).0 == x;
            assert(srcs[i] == prev[i]);
        }
        if exists|i: int| 0 <= i < srcs.len() && (#[trigger] srcs[i]).0 == x {
            let i = choose|i: int| 0 <= i < srcs.len() && (#[trigger] srcs[i]).0 == x;
            if i < srcs.len() - 1 {
                assert(prev[i] == srcs[i]);
            }
        }
        if !result_names(results).contains(srcs.last().0) {
            let np2 = np.push(srcs.last().0);
            assert(np2[np.len() as int] == srcs.last().0);
            if np2.contains(x) && x != srcs.last().0 {
                let j = choose|j: int| 0 <= j < np2.len() && np2[j] == x;
                assert(np[j] == x);
            }
            if np.contains(x) {
                let j = choose|j: int| 0 <= j < np.len() && np[j] == x;
                assert(np2[j] == x);
            }
        }
    }
}

/// Every source name is printed by exactly one of the files-with-matches
/// and files-without-match modes.
pub proof fn lemma_file_modes_partition(srcs: Seq<(Seq<char>, Seq<char>)>, results: Seq<HitView>, i: int)
    requires
        0 <= i < srcs.len(),
    ensures
        first_names(results).contains(srcs[i].0) != names_without(srcs, results).contains(srcs[i].0),
{
    lemma_first_names_contains(results, srcs[i].0);
    lemma_names_without_contains(srcs, results, srcs[i].0);
}

/// A line within the first `kk` lines that lies in a context window is shown.
proof fn lemma_context_upto_has(src: Seq<char>, ls: Seq<Seq<char>>, kk: int, results: Seq<HitView>, before: usize, after: usize, m: u32)
    requires
        1 <= m <= kk <= u32::MAX,
        in_context(results, src, m, before, after, ls.len() as u32),
    ensures
        exists|j: int|
            0 <= j < context_upto(src, ls, kk, results, before, after).len() && (#[trigger] context_upto(src, ls, kk, results, before, after)[j]).0 == src
                && context_upto(src, ls, kk, results, before, after)[j].1 == m,
    decreases kk,
{
    let c = context_upto(src, ls, kk, results, before, after);
    let prev = context_upto(src, ls, kk - 1, results, before, after);
    if kk == m {
        assert((kk as u32) == m);
        assert(c == prev.push(c.last()));
        assert(c[c.len() - 1].0 == src && c[c.len() - 1].1 == m);
    } else {
        lemma_context_upto_has(src, ls, kk - 1, results, before, after, m);
        let j = choose|j: int| 0 <= j < prev.len() && (#[trigger] prev[j]).0 == src && prev[j].1 == m;
        if in_context(results, src, kk as u32, before, after, ls.len() as u32) {
            assert(c[j] == prev[j]);
        }
    }
}

/// Context never loses a found line: each found line of a source (with a
/// number within its text) is shown, with its number, by the context mode.
pub proof fn lemma_context_keeps_found(srcs: Seq<(Seq<char>, Seq<char>)>, results: Seq<HitView>, before: usize, after: usize, i: int, k: int)
    requires
        0 <= i < srcs.len(),
        0 <= k < results.len(),
        results[k].0 == srcs[i].0,
        1 <= results[k].1 <= lines_of(srcs[i].1).len(),
        context_fits(srcs, results, after),
    ensures
        exists|j: int|
            0 <= j < with_context(srcs, results, before, after).len() && (#[trigger] with_context(srcs, results, before, after)[j]).0 == results[k].0
                && with_context(srcs, results, before, after)[j].1 == results[k].1,
    decreases srcs.len(),
{
    let w = with_context(srcs, results, before, after);
    let prev = with_context(srcs.drop_last(), results, before, after);
    let last = srcs.last();
    let ls = lines_of(last.1);
    let cu = context_upto(last.0, ls, ls.len() as int, results, before, after);
    assert(w == prev + cu);
    if i == srcs.len() - 1 {
        let m = results[k].1;
        assert(ls.len() <= u32::MAX);
        assert(m + (after as u32) <= u32::MAX);
        assert(window_low(m, before) <= m);
        assert(m <= window_high(m, after, ls.len() as u32));
        assert(in_context(results, last.0, m, before, after, ls.len() as u32));
        lemma_context_upto_has(last.0, ls, ls.len() as int, results, before, after, m);
        let j = choose|j: int| 0 <= j < cu.len() && (#[trigger] cu[j]).0 == last.0 && cu[j].1 == m;
        assert(w[prev.len() + j] == cu[j]);
    } else {
        let sp = srcs.drop_last();
        assert(sp[i] == srcs[i]);
        assert(context_fits(sp, results, after)) by {
            assert forall|i2: int, k2: int|
                0 <= i2 < sp.len() && 0 <= k2 < results.len() && (#[trigger] results[k2]).0 == (#[trigger] sp[i2]).0
                implies lines_of(sp[i2].1).len() <= u32::MAX && results[k2].1 + (after as u32) <= u32::MAX by {
                assert(sp[i2] == srcs[i2]);
            }
        }
        lemma_context_keeps_found(sp, results, before, after, i, k);
        let j = choose|j: int| 0 <= j < prev.len() && (#[trigger] prev[j]).0 == results[k].0 && prev[j].1 == results[k].1;
        assert(w[j] == prev[j]);
    }
}

/// The search runs in memory whenever streaming could not give its output:
/// with `-v`, `--all`, `-l`, `-L` or any context asked. So a streamed search
/// prints found lines, a count or nothing, without inversion and without
/// context lines.
pub proof fn lemma_streaming_plan(cli: Cli)
    ensures
        cli.invert_match ==> needs_full(cli),
        cli.all ==> needs_full(cli),
        cli.files_with_matches ==> needs_full(cli),
        cli.files_without_match ==> needs_full(cli),
        or_zero(cli.context) > 0 || or_zero(cli.before_context) > 0 || or_zero(cli.after_context) > 0
            ==> needs_full(cli),
        !needs_full(cli) ==> (chosen_mode(cli) is Lines || chosen_mode(cli) is Count || chosen_mode(cli) is Quiet)
            && !cli.invert_match && before_lines(cli) == 0 && after_lines(cli) == 0,
{
}

/// What streaming prints for a found line, spelled out: nothing with `-q`,
/// or with `-c` (and not `-l`); the source name with `-l`; else the line's
/// text, after its number and a colon with `-n`, after the source name and
/// a colon when more than one file is named or with `-H`. A single named
/// file (or standard input) without `-H` gets no name.
pub proof fn lemma_stream_line_shape(cli: Cli, hit: HitView)
    ensures
        cli.quiet ==> stream_line(cli, hit) is None,
        !cli.quiet && !cli.files_with_matches && cli.count ==> stream_line(cli, hit) is None,
        !cli.quiet && cli.files_with_matches ==> stream_line(cli, hit) == Some(hit.0),
        ({
            let plain = !cli.quiet && !cli.files_with_matches && !cli.count;
            let named = cli.filenames.len() > 1 || cli.with_filename;
            &&& plain && !named && !cli.line_number ==> stream_line(cli, hit) == Some(hit.2)
            &&& plain && !named && cli.line_number ==> stream_line(cli, hit) == Some(
                decimal(hit.1 as nat) + seq![':'] + hit.2,
            )
            &&& plain && named && !cli.line_number ==> stream_line(cli, hit) == Some(hit.0 + seq![':'] + hit.2)
            &&& plain && named && cli.line_number ==> stream_line(cli, hit) == Some(
                hit.0 + seq![':'] + decimal(hit.1 as nat) + seq![':'] + hit.2,
            )
        }),
{
}

/// The count of a source's found lines is the number of found lines that
/// name it.
pub proof fn lemma_count_of_filter(results: Seq<HitView>, src: Seq<char>)
    ensures
        count_of(results, src) == results.filter(|h: HitView| h.0 == src).len(),
    decreases results.len(),
{
    reveal(Seq::filter);
    if results.len() > 0 {
        lemma_count_of_filter(results.drop_last(), src);
    }
}

/// Context lines join only the plain found-lines output: a count, file
/// names, the whole text and `-q` go by the found lines alone, and without
/// context asked the found lines are shown as they are.
pub proof fn lemma_context_only_for_lines(cli: Cli, srcs: Seq<(Seq<char>, Seq<char>)>, hits: Seq<HitView>)
    ensures
        cli.quiet || cli.files_with_matches || cli.files_without_match || cli.count || cli.all ==> shown_hits(
            cli,
            srcs,
            hits,
        ) == Some(hits),
        before_lines(cli) == 0 && after_lines(cli) == 0 ==> shown_hits(cli, srcs, hits) == Some(hits),
{
}

/// With `-q` memory mode prints nothing; what it reports is whether any
/// line was selected. With `-c` and one source it prints one line, the
/// number of found lines.
pub proof fn lemma_memory_quiet_and_count(
    cli: Cli,
    srcs: Seq<(Seq<char>, Seq<char>)>,
    v: Seq<Seq<char>>,
    any: bool,
)
    requires
        memory_output(cli, srcs, Ok(Some((v, any)))),
    ensures
        cli.quiet ==> v.len() == 0,
        any <==> (crate::matcher::search_outcome(cli, srcs) matches Ok(Some(h)) && h.len() > 0),
        !cli.quiet && !cli.files_with_matches && !cli.files_without_match && cli.count && srcs.len() == 1 ==> (
        crate::matcher::search_outcome(cli, srcs) matches Ok(Some(h)) && v == seq![decimal(h.len())]),
{
}

/// What the found-lines mode prints for found line `i`, spelled out: its
/// text, after its number and a colon with `-n`, after the source name and
/// a colon when there are several sources or with `-H`.
pub proof fn lemma_line_output_shape(cli: Cli, n_sources: nat, results: Seq<HitView>, i: int)
    requires
        0 <= i < results.len(),
    ensures
        ({
            let h = results[i];
            let out = line_output(cli, n_sources, results)[i];
            let named = n_sources > 1 || cli.with_filename;
            &&& line_output(cli, n_sources, results).len() == results.len()
            &&& !named && !cli.line_number ==> out == h.2
            &&& !named && cli.line_number ==> out == decimal(h.1 as nat) + seq![':'] + h.2
            &&& named && !cli.line_number ==> out == h.0 + seq![':'] + h.2
            &&& named && cli.line_number ==> out == h.0 + seq![':'] + decimal(h.1 as nat) + seq![':'] + h.2
        }),
{
}

} // verus!
