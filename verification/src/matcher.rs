//! Line selection and marking: fixed strings (optionally case-folded),
//! regular expressions, whole-word and whole-line matches, inverted
//! selection; the file filters of a search.
use vstd::prelude::*;

use crate::cli::Cli;
use crate::str_views;
use crate::text::{
    bytes_at_chars, chars_eq, contains, contains_exec, extend_chars, occurs_at, occurs_at_exec, folded_ok, folded_spans,
    from_chars, int_spans, lemma_spans_at_bytes_fit, lemma_char_at_byte, lemma_spans_from_fit,
    lines_of, lower_case, lower_chars, mark_folded, match_spans, match_spans_exec, render,
    render_exec, spans_at_bytes, spans_at_bytes_exec, spans_fit, split_lines, to_chars, utf8_len,
    views, wide_spans, folded_bytes, lemma_byte_spans_fit, lemma_unmark_plain, lemma_unmark_render,
    unmark,
};

verus! {

// ------------------------------------------------------------------
// Regular expressions
// ------------------------------------------------------------------

#[verifier::external_type_specification]
#[verifier::external_body]
pub struct ExRegex(regex::Regex);

/// A compiled regular expression, together with the pattern and the
/// case-insensitivity it was built from. Only [`build_regex`] makes one.
pub struct LineRegex {
    pattern: String,
    ignore_case: bool,
    re: regex::Regex,
}

impl LineRegex {
    /// The pattern the expression was built from.
    pub closed spec fn spec_pattern(&self) -> Seq<char> {
        self.pattern@
    }

    /// Whether the expression ignores letter case.
    pub closed spec fn spec_ignore_case(&self) -> bool {
        self.ignore_case
    }
}

/// What building a regular expression (`regex::RegexBuilder::build`) gives
/// for a pattern and case-insensitivity: `None` when it builds, else the
/// text of the error.
pub uninterp spec fn regex_build_error(pattern: Seq<char>, ignore_case: bool) -> Option<Seq<char>>;

/// What `Regex::is_match` gives: whether the expression matches somewhere
/// in the text.
pub uninterp spec fn regex_matches(pattern: Seq<char>, ignore_case: bool, hay: Seq<char>) -> bool;

/// What `Regex::find_iter` gives: the byte spans of the successive
/// non-overlapping matches in the text.
pub uninterp spec fn regex_find_spans(pattern: Seq<char>, ignore_case: bool, hay: Seq<char>) -> Seq<(int, int)>;

/// The error text of a build outcome, if it failed.
pub open spec fn build_error_of(r: Result<LineRegex, String>) -> Option<Seq<char>> {
    match r {
        Ok(_) => None,
        Err(m) => Some(m@),
    }
}

/// The pattern and case-insensitivity of a built expression.
pub open spec fn built_from(r: Result<LineRegex, String>) -> (Seq<char>, bool) {
    match r {
        Ok(x) => (x.spec_pattern(), x.spec_ignore_case()),
        Err(_) => (seq![], false),
    }
}

/// `regex::RegexBuilder::new(pattern).case_insensitive(ignore_case).build()`,
/// the error given as its display text.
#[verifier::external_body]
pub(crate) fn build_regex(pattern: &str, ignore_case: bool) -> (r: Result<LineRegex, String>)
    ensures
        build_error_of(r) == regex_build_error(pattern@, ignore_case),
        r is Ok ==> built_from(r) == (pattern@, ignore_case),
{
    match regex::RegexBuilder::new(pattern).case_insensitive(ignore_case).build() {
        Ok(re) => Ok(LineRegex { pattern: pattern.to_string(), ignore_case, re }),
        Err(e) => Err(e.to_string()),
    }
}

/// `Regex::is_match`: whether the expression matches somewhere in `hay`.
#[verifier::external_body]
pub(crate) fn regex_is_match(re: &LineRegex, hay: &str) -> (r: bool)
    ensures
        r == regex_matches(re.spec_pattern(), re.spec_ignore_case(), hay@),
{
    re.re.is_match(hay)
}

/// `Regex::find_iter`: the byte spans of the matches in `hay`. As the regex
/// documentation states, the matches come in order without overlapping,
/// their offsets fall on UTF-8 character boundaries, and there is one
/// exactly when `is_match` holds.
#[verifier::external_body]
pub(crate) fn regex_find_all(re: &LineRegex, hay: &str) -> (r: Vec<(usize, usize)>)
    ensures
        int_spans(r@) == regex_find_spans(re.spec_pattern(), re.spec_ignore_case(), hay@),
        spans_fit(int_spans(r@), 0, utf8_len(hay@)),
        bytes_at_chars(hay@, int_spans(r@)),
        r@.len() > 0 <==> regex_matches(re.spec_pattern(), re.spec_ignore_case(), hay@),
{
    re.re.find_iter(hay).map(|m| (m.start(), m.end())).collect()
}

/// The pattern compiled for the options: the target, as a group between
/// `\b` for whole words, and as a group between `^` and `$` for whole lines,
/// so that an alternation in the target stays inside the anchors.
pub open spec fn regex_pattern(cli: Cli) -> Seq<char> {
    let p = if cli.word_regexp {
        "\\b(?:"@ + cli.target@ + ")\\b"@
    } else {
        cli.target@
    };
    if cli.line_regexp {
        "^(?:"@ + p + ")$"@
    } else {
        p
    }
}

/// The regular expression that the options ask for, if any.
pub open spec fn cli_regex(cli: Cli) -> Option<(Seq<char>, bool)> {
    if cli.extended_regexp {
        Some((regex_pattern(cli), cli.ignore_case))
    } else {
        None
    }
}

/// The message when the regular expression does not build.
pub open spec fn regex_failure(cli: Cli) -> Option<Seq<char>> {
    if cli.extended_regexp {
        match regex_build_error(regex_pattern(cli), cli.ignore_case) {
            Some(m) => Some("无效正则: "@ + m),
            None => None,
        }
    } else {
        None
    }
}

/// The pattern and case-insensitivity of an optional expression.
pub open spec fn regex_view(re: Option<&LineRegex>) -> Option<(Seq<char>, bool)> {
    match re {
        Some(x) => Some((x.spec_pattern(), x.spec_ignore_case())),
        None => None,
    }
}

/// The outcome of compiling, as pattern and case-insensitivity or message.
pub open spec fn compiled_view(r: Result<Option<LineRegex>, String>) -> Result<
    Option<(Seq<char>, bool)>,
    Seq<char>,
> {
    match r {
        Ok(Some(x)) => Ok(Some((x.spec_pattern(), x.spec_ignore_case()))),
        Ok(None) => Ok(None),
        Err(m) => Err(m@),
    }
}

fn concat_chars(parts: &[&str]) -> (r: String)
    ensures
        r@ == concat_all(parts@),
{
    let mut v: Vec<char> = Vec::new();
    let mut i: usize = 0;
    while i < parts.len()
        invariant
            i <= parts.len(),
            v@ == concat_all(parts@.take(i as int)),
        decreases parts.len() - i,
    {
        assert(parts@.take(i + 1).drop_last() == parts@.take(i as int));
        extend_chars(&mut v, &to_chars(parts[i]));
        i = i + 1;
    }
    assert(parts@.take(parts.len() as int) == parts@);
    from_chars(&v)
}

/// The characters of the strings, one after the other.
pub open spec fn concat_all(parts: Seq<&str>) -> Seq<char>
    decreases parts.len(),
{
    if parts.len() == 0 {
        seq![]
    } else {
        concat_all(parts.drop_last()) + parts.last()@
    }
}

/// Compiles the regular expression of the options (only with `-E`).
pub fn compile_regex(cli: &Cli) -> (r: Result<Option<LineRegex>, String>)
    ensures
        compiled_view(r) == (match regex_failure(*cli) {
            Some(m) => Err(m),
            None => Ok(cli_regex(*cli)),
        }),
{
    if !cli.extended_regexp {
        return Ok(None);
    }
    let t = cli.target.as_str();
    let p1 = if cli.word_regexp {
        concat_chars(&[r"\b(?:", t, r")\b"])
    } else {
        concat_chars(&[t])
    };
    let p = if cli.line_regexp {
        concat_chars(&["^(?:", p1.as_str(), ")$"])
    } else {
        p1
    };
    assert(p@ == regex_pattern(*cli)) by {
        reveal_with_fuel(concat_all, 4);
    }
    match build_regex(p.as_str(), cli.ignore_case) {
        Ok(re) => Ok(Some(re)),
        Err(e) => {
            let m = concat_chars(&["无效正则: ", e.as_str()]);
            assert(m@ == "无效正则: "@ + e@) by {
                reveal_with_fuel(concat_all, 3);
            }
            Err(m)
        },
    }
}

// ------------------------------------------------------------------
// Selecting lines
// ------------------------------------------------------------------

/// What `char::is_alphanumeric` gives for a character (Unicode letters and
/// numbers).
pub uninterp spec fn char_alphanumeric(c: char) -> bool;

/// `char::is_alphanumeric`: for an ASCII character, whether it is a digit
/// or a letter; the Unicode tables it reads for the others are not restated.
#[verifier::external_body]
pub(crate) fn is_alphanumeric(c: char) -> (r: bool)
    ensures
        r == char_alphanumeric(c),
        (c as u32) < 128 ==> r == (48 <= (c as u32) <= 57 || 65 <= (c as u32) <= 90 || 97 <= (c as u32) <= 122),
{
    c.is_alphanumeric()
}

/// A character that belongs to a word: alphanumeric or `_`.
pub open spec fn is_word_char(c: char) -> bool {
    char_alphanumeric(c) || c == '_'
}

/// `s` has a word character at position `i`.
pub open spec fn word_at(s: Seq<char>, i: int) -> bool {
    0 <= i < s.len() && is_word_char(s[i])
}

/// Position `i` of `s` lies between a word character and a non-word
/// character (the ends of `s` count as non-word).
pub open spec fn word_boundary(s: Seq<char>, i: int) -> bool {
    word_at(s, i - 1) != word_at(s, i)
}

/// One of the non-overlapping occurrences of `t` in `s` starts and ends at
/// word boundaries.
pub open spec fn whole_word_match(s: Seq<char>, t: Seq<char>) -> bool {
    exists|k: int|
        0 <= k < match_spans(s, t).len() && word_boundary(s, #[trigger] match_spans(s, t)[k].0)
            && word_boundary(s, match_spans(s, t)[k].1)
}

/// The line matches the pattern: through the regular expression when there
/// is one, else as a fixed string, lower-case mapped first with `ignore_case`.
pub open spec fn line_matches_spec(
    line: Seq<char>,
    target: Seq<char>,
    ignore_case: bool,
    re: Option<(Seq<char>, bool)>,
) -> bool {
    match re {
        Some((p, c)) => regex_matches(p, c, line),
        None => if ignore_case {
            contains(lower_case(line), lower_case(target))
        } else {
            contains(line, target)
        },
    }
}

/// The line is selected (before any inversion): it matches, and without a
/// regular expression `-x` asks the whole line to equal the target and
/// `-w` asks an occurrence that is a whole word.
#[verifier::opaque]
pub open spec fn selected(line: Seq<char>, cli: Cli, re: Option<(Seq<char>, bool)>) -> bool {
    let ic = cli.ignore_case;
    let target = cli.target@;
    let m = line_matches_spec(line, target, ic, re);
    let m = if !cli.extended_regexp && cli.line_regexp {
        if ic {
            lower_case(line) == lower_case(target)
        } else {
            line == target
        }
    } else {
        m
    };
    if !cli.extended_regexp && cli.word_regexp && m {
        if ic {
            whole_word_match(lower_case(line), lower_case(target))
        } else {
            whole_word_match(line, target)
        }
    } else {
        m
    }
}

/// Whether the line matches the pattern.
pub fn line_matches(line: &[char], target: &[char], ignore_case: bool, regex: Option<&LineRegex>) -> (r:
    bool)
    ensures
        r == line_matches_spec(line@, target@, ignore_case, regex_view(regex)),
{
    match regex {
        Some(re) => {
            let s = from_chars(line);
            regex_is_match(re, s.as_str())
        },
        None => {
            if ignore_case {
                let l = lower_chars(line);
                let t = lower_chars(target);
                contains_exec(&l, &t)
            } else {
                contains_exec(line, target)
            }
        },
    }
}

/// Whether `s` has a word character at position `i`.
fn word_at_exec(s: &[char], i: usize) -> (r: bool)
    ensures
        r == word_at(s@, i as int),
{
    if i < s.len() {
        is_alphanumeric(s[i]) || s[i] == '_'
    } else {
        false
    }
}

/// Whether position `pos` of `s` lies between a word character and a
/// non-word character.
pub fn is_word_boundary(s: &[char], pos: usize) -> (r: bool)
    requires
        pos <= s.len(),
    ensures
        r == word_boundary(s@, pos as int),
{
    let prev = if pos == 0 {
        false
    } else {
        word_at_exec(s, pos - 1)
    };
    let next = word_at_exec(s, pos);
    prev != next
}

/// Whether an occurrence of `t` in `s` is a whole word.
fn whole_word_exec(s: &[char], t: &[char]) -> (r: bool)
    ensures
        r == whole_word_match(s@, t@),
{
    let sp = match_spans_exec(s, t);
    proof {
        lemma_spans_from_fit(s@, t@, 0);
        crate::text::lemma_spans_fit_bounds(int_spans(sp@), 0, s.len() as int);
    }
    let mut k: usize = 0;
    while k < sp.len()
        invariant
            k <= sp.len(),
            int_spans(sp@) == match_spans(s@, t@),
            forall|j: int|
                0 <= j < sp.len() ==> 0 <= #[trigger] int_spans(sp@)[j].0 <= int_spans(sp@)[j].1
                    <= s.len(),
            forall|j: int|
                0 <= j < k ==> !(word_boundary(s@, #[trigger] match_spans(s@, t@)[j].0)
                    && word_boundary(s@, match_spans(s@, t@)[j].1)),
        decreases sp.len() - k,
    {
        assert(int_spans(sp@)[k as int] == (sp@[k as int].0 as int, sp@[k as int].1 as int));
        let (a, b) = sp[k];
        if is_word_boundary(s, a) && is_word_boundary(s, b) {
            return true;
        }
        k = k + 1;
    }
    false
}

/// Whether the line is selected (before any inversion).
pub fn is_selected(line: &[char], cli: &Cli, regex: Option<&LineRegex>) -> (r: bool)
    requires
        regex_view(regex) == cli_regex(*cli),
    ensures
        r == selected(line@, *cli, cli_regex(*cli)),
{
    reveal(selected);
    let target = to_chars(cli.target.as_str());
    let ic = cli.ignore_case;
    let m = line_matches(line, &target, ic, regex);
    let m = if !cli.extended_regexp && cli.line_regexp {
        if ic {
            chars_eq(&lower_chars(line), &lower_chars(&target))
        } else {
            chars_eq(line, &target)
        }
    } else {
        m
    };
    if !cli.extended_regexp && cli.word_regexp && m {
        if ic {
            whole_word_exec(&lower_chars(line), &lower_chars(&target))
        } else {
            whole_word_exec(line, &target)
        }
    } else {
        m
    }
}

// ------------------------------------------------------------------
// Marking matches in a line
// ------------------------------------------------------------------

/// The line with its matches marked red: the spans of the regular
/// expression when there is one; else the occurrences of the target, found
/// in the lower-case mappings with `ignore_case` and marked at the same byte
/// offsets of the line. `None` where marking does not return normally:
/// when a lower-case match falls inside a character of the line (slicing
/// panics), or when an empty target is searched without folding (the search
/// for the next occurrence never moves on).
#[verifier::opaque]
pub open spec fn highlighted_line(
    line: Seq<char>,
    target: Seq<char>,
    ignore_case: bool,
    re: Option<(Seq<char>, bool)>,
) -> Option<Seq<char>> {
    match re {
        Some((p, c)) => Some(render(line, spans_at_bytes(line, regex_find_spans(p, c, line)))),
        None => if ignore_case {
            let hay = lower_case(line);
            let pat = lower_case(target);
            if folded_ok(line, hay, pat) {
                Some(render(line, folded_spans(line, hay, pat)))
            } else {
                None
            }
        } else if target.len() == 0 {
            None
        } else {
            Some(render(line, match_spans(line, target)))
        },
    }
}

/// Byte spans widened to 128 bits.
fn widen(v: &Vec<(usize, usize)>) -> (r: Vec<(u128, u128)>)
    ensures
        wide_spans(r@) == int_spans(v@),
{
    let mut r: Vec<(u128, u128)> = Vec::new();
    let mut i: usize = 0;
    while i < v.len()
        invariant
            i <= v.len(),
            r@.len() == i,
            forall|j: int| 0 <= j < i ==> #[trigger] wide_spans(r@)[j] == int_spans(v@)[j],
        decreases v.len() - i,
    {
        let (a, b) = v[i];
        let ghost old_r = r@;
        r.push((a as u128, b as u128));
        i = i + 1;
        assert forall|j: int| 0 <= j < i implies #[trigger] wide_spans(r@)[j] == int_spans(v@)[j] by {
            if j < i - 1 {
                assert(r@[j] == old_r[j]);
                assert(wide_spans(old_r)[j] == int_spans(v@)[j]);
            }
        }
    }
    assert(wide_spans(r@) =~= int_spans(v@));
    r
}

/// The line with its matches marked red, if marking returns normally.
fn highlight_line_core(line: &[char], target: &[char], ignore_case: bool, regex: Option<&LineRegex>) -> (r:
    Option<Vec<char>>)
    ensures
        r matches Some(v) ==> highlighted_line(line@, target@, ignore_case, regex_view(regex))
            == Some(v@),
        r is None ==> highlighted_line(line@, target@, ignore_case, regex_view(regex)) is None,
{
    reveal(highlighted_line);
    match regex {
        Some(re) => {
            let s = from_chars(line);
            let bsp = regex_find_all(re, s.as_str());
            let wide = widen(&bsp);
            match spans_at_bytes_exec(line, &wide) {
                Some(csp) => {
                    proof {
                        assert(line@.take(0) =~= Seq::<char>::empty());
                        lemma_char_at_byte(line@, 0);
                        lemma_spans_at_bytes_fit(line@, wide_spans(wide@), 0, utf8_len(line@), 0);
                    }
                    Some(render_exec(line, &csp))
                },
                None => None,
            }
        },
        None => {
            if ignore_case {
                let hay = lower_chars(line);
                let pat = lower_chars(target);
                mark_folded(line, &hay, &pat)
            } else if target.len() == 0 {
                None
            } else {
                let sp = match_spans_exec(line, target);
                proof {
                    lemma_spans_from_fit(line@, target@, 0);
                }
                Some(render_exec(line, &sp))
            }
        },
    }
}

/// Whether [`highlight_line`] returns normally for these arguments.
pub fn highlight_line_defined(line: &str, target: &str, ignore_case: bool, regex: Option<&LineRegex>) -> (r:
    bool)
    ensures
        r == highlighted_line(line@, target@, ignore_case, regex_view(regex)) is Some,
{
    highlight_line_core(&to_chars(line), &to_chars(target), ignore_case, regex).is_some()
}

/// Marks the matches in a line red (see [`highlighted_line`]).
pub fn highlight_line(line: &str, target: &str, ignore_case: bool, regex: Option<&LineRegex>) -> (r:
    String)
    requires
        highlighted_line(line@, target@, ignore_case, regex_view(regex)) is Some,
    ensures
        Some(r@) == highlighted_line(line@, target@, ignore_case, regex_view(regex)),
{
    match highlight_line_core(&to_chars(line), &to_chars(target), ignore_case, regex) {
        Some(v) => from_chars(&v),
        None => String::new(),
    }
}

/// [`highlight_line`] where it returns normally, else `None`.
pub fn try_highlight_line(line: &str, target: &str, ignore_case: bool, regex: Option<&LineRegex>) -> (r:
    Option<String>)
    ensures
        r matches Some(s) ==> highlighted_line(line@, target@, ignore_case, regex_view(regex))
            == Some(s@),
        r is None ==> highlighted_line(line@, target@, ignore_case, regex_view(regex)) is None,
{
    if highlight_line_defined(line, target, ignore_case, regex) {
        Some(highlight_line(line, target, ignore_case, regex))
    } else {
        None
    }
}

// ------------------------------------------------------------------
// Searching sources
// ------------------------------------------------------------------

/// A found line: source name, line number (from 1), shown text.
pub type Hit = (String, u32, String);

/// A found line as character sequences.
pub type HitView = (Seq<char>, u32, Seq<char>);

/// The views of found lines.
pub open spec fn hit_views(v: Seq<Hit>) -> Seq<HitView> {
    Seq::new(v.len(), |i: int| (v[i].0@, v[i].1, v[i].2@))
}

/// The view of a found line.
pub open spec fn hit_view(h: Hit) -> HitView {
    (h.0@, h.1, h.2@)
}

/// What becomes of line `line`, numbered `num`, of source `name`: `None`
/// when the search does not return normally on it, `Some(None)` when it is
/// not shown, else the shown line: a selected line with its matches marked,
/// or (with `-v`) an unselected line as it is.
pub open spec fn line_hit(name: Seq<char>, num: u32, line: Seq<char>, cli: Cli, re: Option<(Seq<char>, bool)>) -> Option<Option<HitView>> {
    let m = selected(line, cli, re);
    let shown = if cli.invert_match { !m } else { m };
    if !shown {
        Some(None)
    } else if m {
        match highlighted_line(line, cli.target@, cli.ignore_case, re) {
            Some(t) => Some(Some((name, num, t))),
            None => None,
        }
    } else {
        Some(Some((name, num, line)))
    }
}

/// The shown lines among the lines `ls` of source `name`, numbered from 1.
pub open spec fn hits_in(name: Seq<char>, ls: Seq<Seq<char>>, cli: Cli, re: Option<(Seq<char>, bool)>) -> Option<Seq<HitView>>
    decreases ls.len(),
{
    if ls.len() == 0 {
        Some(seq![])
    } else {
        match (hits_in(name, ls.drop_last(), cli, re), line_hit(name, ls.len() as u32, ls.last(), cli, re)) {
            (Some(p), Some(None)) => Some(p),
            (Some(p), Some(Some(h))) => Some(p.push(h)),
            _ => None,
        }
    }
}

/// The shown lines of all sources, source by source.
pub open spec fn search_hits(srcs: Seq<(Seq<char>, Seq<char>)>, cli: Cli, re: Option<(Seq<char>, bool)>) -> Option<Seq<HitView>>
    decreases srcs.len(),
{
    if srcs.len() == 0 {
        Some(seq![])
    } else {
        match (search_hits(srcs.drop_last(), cli, re), hits_in(srcs.last().0, lines_of(srcs.last().1), cli, re)) {
            (Some(a), Some(b)) => Some(a + b),
            _ => None,
        }
    }
}

/// Every source has at most `u32::MAX` lines, so that line numbers fit.
pub open spec fn line_counts_fit(srcs: Seq<(Seq<char>, Seq<char>)>) -> bool {
    forall|i: int| 0 <= i < srcs.len() ==> lines_of(#[trigger] srcs[i].1).len() <= u32::MAX
}

/// Whether every source has at most `u32::MAX` lines.
pub fn line_counts_ok(sources: &[(String, String)]) -> (r: bool)
    ensures
        r == line_counts_fit(source_views(sources@)),
{
    let ghost srcs = source_views(sources@);
    let mut i: usize = 0;
    while i < sources.len()
        invariant
            i <= sources.len(),
            srcs == source_views(sources@),
            forall|j: int| 0 <= j < i ==> lines_of(#[trigger] srcs[j].1).len() <= u32::MAX,
        decreases sources.len() - i,
    {
        let ls = split_lines(&to_chars(sources[i].1.as_str()));
        assert(srcs[i as int].1 == sources@[i as int].1@);
        if ls.len() > 4294967295 {
            return false;
        }
        i = i + 1;
    }
    true
}

/// Once one part gives no lines, neither does the whole.
proof fn lemma_hits_in_none(name: Seq<char>, ls: Seq<Seq<char>>, k: int, cli: Cli, re: Option<(Seq<char>, bool)>)
    requires
        0 <= k <= ls.len(),
        hits_in(name, ls.take(k), cli, re) is None,
    ensures
        hits_in(name, ls, cli, re) is None,
    decreases ls.len() - k,
{
    if k < ls.len() {
        assert(ls.take(k + 1).drop_last() == ls.take(k));
        lemma_hits_in_none(name, ls, k + 1, cli, re);
    } else {
        assert(ls.take(k) == ls);
    }
}

/// Once one source gives no lines, neither do all of them.
proof fn lemma_search_hits_none(srcs: Seq<(Seq<char>, Seq<char>)>, k: int, cli: Cli, re: Option<(Seq<char>, bool)>)
    requires
        0 <= k <= srcs.len(),
        search_hits(srcs.take(k), cli, re) is None,
    ensures
        search_hits(srcs, cli, re) is None,
    decreases srcs.len() - k,
{
    if k < srcs.len() {
        assert(srcs.take(k + 1).drop_last() == srcs.take(k));
        lemma_search_hits_none(srcs, k + 1, cli, re);
    } else {
        assert(srcs.take(k) == srcs);
    }
}

/// The shown lines of one source.
fn source_hits(name: &String, content: &[char], cli: &Cli, regex: Option<&LineRegex>) -> (r: Option<Vec<Hit>>)
    requires
        regex_view(regex) == cli_regex(*cli),
        lines_of(content@).len() <= u32::MAX,
    ensures
        r matches Some(v) ==> hits_in(name@, lines_of(content@), *cli, cli_regex(*cli)) == Some(hit_views(v@)),
        r is None ==> hits_in(name@, lines_of(content@), *cli, cli_regex(*cli)) is None,
{
    let ls = split_lines(content);
    let target = to_chars(cli.target.as_str());
    let ghost re = cli_regex(*cli);
    let ghost all = lines_of(content@);
    let mut out: Vec<Hit> = Vec::new();
    let mut i: usize = 0;
    assert(hit_views(out@) =~= Seq::<HitView>::empty());
    while i < ls.len()
        invariant
            i <= ls.len(),
            views(ls@) == all,
            all == lines_of(content@),
            all.len() <= u32::MAX,
            target@ == cli.target@,
            regex_view(regex) == re,
            re == cli_regex(*cli),
            hits_in(name@, all.take(i as int), *cli, re) == Some(hit_views(out@)),
        decreases ls.len() - i,
    {
        assert(all.take(i + 1).drop_last() == all.take(i as int));
        assert(all.take(i + 1).last() == ls@[i as int]@);
        assert(all.take(i + 1).len() == i + 1);
        let num: u32 = (i as u32) + 1;
        let m = is_selected(&ls[i], cli, regex);
        let shown = if cli.invert_match { !m } else { m };
        if shown {
            let text = if m {
                match highlight_line_core(&ls[i], &target, cli.ignore_case, regex) {
                    Some(t) => t,
                    None => {
                        proof {
                            lemma_hits_in_none(name@, all, i + 1, *cli, re);
                        }
                        return None;
                    },
                }
            } else {
                ls[i].clone()
            };
            let ghost before = out@;
            let h: Hit = (name.clone(), num, from_chars(&text));
            out.push(h);
            assert(hit_views(out@) =~= hit_views(before).push(hit_view(h)));
        }
        i = i + 1;
    }
    assert(all.take(ls.len() as int) == all);
    Some(out)
}

/// The (name, content) pairs of the sources, as character sequences.
pub open spec fn source_views(s: Seq<(String, String)>) -> Seq<(Seq<char>, Seq<char>)> {
    Seq::new(s.len(), |i: int| (s[i].0@, s[i].1@))
}

/// The shown lines of all sources, if the search returns normally.
fn search_core(cli: &Cli, sources: &[(String, String)], regex: Option<&LineRegex>) -> (r: Option<Vec<Hit>>)
    requires
        regex_view(regex) == cli_regex(*cli),
        line_counts_fit(source_views(sources@)),
    ensures
        r matches Some(v) ==> search_hits(source_views(sources@), *cli, cli_regex(*cli)) == Some(hit_views(v@)),
        r is None ==> search_hits(source_views(sources@), *cli, cli_regex(*cli)) is None,
{
    let ghost srcs = source_views(sources@);
    let ghost re = cli_regex(*cli);
    let mut out: Vec<Hit> = Vec::new();
    let mut i: usize = 0;
    assert(hit_views(out@) =~= Seq::<HitView>::empty());
    while i < sources.len()
        invariant
            i <= sources.len(),
            srcs == source_views(sources@),
            line_counts_fit(srcs),
            regex_view(regex) == re,
            re == cli_regex(*cli),
            search_hits(srcs.take(i as int), *cli, re) == Some(hit_views(out@)),
        decreases sources.len() - i,
    {
        assert(srcs.take(i + 1).drop_last() == srcs.take(i as int));
        assert(srcs.take(i + 1).last() == srcs[i as int]);
        assert(lines_of(srcs[i as int].1).len() <= u32::MAX);
        let content = to_chars(sources[i].1.as_str());
        match source_hits(&sources[i].0, &content, cli, regex) {
            None => {
                proof {
                    lemma_search_hits_none(srcs, i + 1, *cli, re);
                }
                return None;
            },
            Some(hs) => {
                let ghost before = hit_views(out@);
                let ghost added = hit_views(hs@);
                let mut j: usize = 0;
                while j < hs.len()
                    invariant
                        j <= hs.len(),
                        added == hit_views(hs@),
                        hit_views(out@) == before + added.take(j as int),
                    decreases hs.len() - j,
                {
                    let h: Hit = (hs[j].0.clone(), hs[j].1, hs[j].2.clone());
                    let ghost prev = out@;
                    out.push(h);
                    j = j + 1;
                    assert(hit_views(out@) =~= hit_views(prev).push(hit_view(h)));
                    assert(added.take(j as int) =~= added.take(j - 1).push(added[j - 1]));
                    assert(before + added.take(j as int) =~= (before + added.take(j - 1)).push(added[j - 1]));
                }
                assert(added.take(hs.len() as int) == added);
            },
        }
        i = i + 1;
    }
    assert(srcs.take(sources.len() as int) == srcs);
    Some(out)
}

/// The outcome of searching the sources: the regular expression's error
/// message, or the shown lines (`None` where the search does not return
/// normally).
pub open spec fn search_outcome(cli: Cli, srcs: Seq<(Seq<char>, Seq<char>)>) -> Result<Option<Seq<HitView>>, Seq<char>> {
    match regex_failure(cli) {
        Some(m) => Err(m),
        None => Ok(search_hits(srcs, cli, cli_regex(cli))),
    }
}

/// The view of a search outcome.
pub open spec fn outcome_view(r: Result<Option<Vec<Hit>>, String>) -> Result<Option<Seq<HitView>>, Seq<char>> {
    match r {
        Ok(Some(v)) => Ok(Some(hit_views(v@))),
        Ok(None) => Ok(None),
        Err(m) => Err(m@),
    }
}

/// Searches the sources, where the search returns normally; `Ok(None)`
/// where it would not (see [`line_hit`]).
pub fn try_search_from(cli: &Cli, sources: &[(String, String)]) -> (r: Result<Option<Vec<Hit>>, String>)
    requires
        line_counts_fit(source_views(sources@)),
    ensures
        outcome_view(r) == search_outcome(*cli, source_views(sources@)),
{
    match compile_regex(cli) {
        Err(e) => Err(e),
        Ok(re) => {
            let defined = match &re {
                Some(x) => search_core(cli, sources, Some(x)).is_some(),
                None => search_core(cli, sources, None).is_some(),
            };
            if defined {
                match search_from(cli, sources) {
                    Ok(v) => Ok(Some(v)),
                    Err(e) => Err(e),
                }
            } else {
                Ok(None)
            }
        },
    }
}

/// Searches the sources: for each source in order, for each line in order,
/// the selected lines (with `-v` the others) with their number and their
/// text, matches marked red. `Err` with the message when the regular
/// expression does not build.
pub fn search_from(cli: &Cli, sources: &[(String, String)]) -> (r: Result<Vec<Hit>, String>)
    requires
        line_counts_fit(source_views(sources@)),
        regex_failure(*cli) is None ==> search_hits(source_views(sources@), *cli, cli_regex(*cli)) is Some,
    ensures
        match r {
            Ok(v) => search_outcome(*cli, source_views(sources@)) == Ok::<_, Seq<char>>(Some(hit_views(v@))),
            Err(m) => search_outcome(*cli, source_views(sources@)) == Err::<Option<Seq<HitView>>, _>(m@),
        },
{
    match compile_regex(cli) {
        Err(e) => Err(e),
        Ok(re) => {
            let found = match &re {
                Some(x) => search_core(cli, sources, Some(x)),
                None => search_core(cli, sources, None),
            };
            match found {
                Some(v) => Ok(v),
                None => Ok(Vec::new()),
            }
        },
    }
}

/// The streamed form of the search: a selected line, numbered `num`, of
/// source `name`, with its matches marked; `None` for a line that is not
/// selected. (Inversion does not stream.)
pub open spec fn emitted(name: Seq<char>, num: u32, line: Seq<char>, cli: Cli) -> Option<Option<HitView>> {
    let re = cli_regex(cli);
    if selected(line, cli, re) {
        match highlighted_line(line, cli.target@, cli.ignore_case, re) {
            Some(t) => Some(Some((name, num, t))),
            None => None,
        }
    } else {
        Some(None)
    }
}

/// The view of an optional found line.
pub open spec fn opt_hit_view(o: Option<Hit>) -> Option<HitView> {
    match o {
        Some(h) => Some(hit_view(h)),
        None => None,
    }
}

/// Decides one streamed line: the found line to report when it is selected.
pub fn emit_if_match(source_name: &str, line: &str, line_num: u32, cli: &Cli, regex: Option<&LineRegex>) -> (r: Option<Hit>)
    requires
        regex_view(regex) == cli_regex(*cli),
        emitted(source_name@, line_num, line@, *cli) is Some,
    ensures
        Some(opt_hit_view(r)) == emitted(source_name@, line_num, line@, *cli),
{
    let l = to_chars(line);
    if is_selected(&l, cli, regex) {
        match highlight_line_core(&l, &to_chars(cli.target.as_str()), cli.ignore_case, regex) {
            Some(t) => Some((source_name.to_string(), line_num, from_chars(&t))),
            None => None,
        }
    } else {
        None
    }
}

/// [`emit_if_match`] where the search returns normally on the line, else `None`.
pub fn try_emit_if_match(source_name: &str, line: &str, line_num: u32, cli: &Cli, regex: Option<&LineRegex>) -> (r: Option<Option<Hit>>)
    requires
        regex_view(regex) == cli_regex(*cli),
    ensures
        r matches Some(o) ==> emitted(source_name@, line_num, line@, *cli) == Some(opt_hit_view(o)),
        r is None ==> emitted(source_name@, line_num, line@, *cli) is None,
{
    let l = to_chars(line);
    let defined = if is_selected(&l, cli, regex) {
        highlight_line_core(&l, &to_chars(cli.target.as_str()), cli.ignore_case, regex).is_some()
    } else {
        true
    };
    if defined {
        Some(emit_if_match(source_name, line, line_num, cli, regex))
    } else {
        None
    }
}

/// What streaming reports for the lines `ls` of source `name`, numbered
/// from 1: the selected lines in order, marked; `None` where the search
/// does not return normally on a line.
pub open spec fn stream_hits(name: Seq<char>, ls: Seq<Seq<char>>, cli: Cli) -> Option<Seq<HitView>>
    decreases ls.len(),
{
    if ls.len() == 0 {
        Some(seq![])
    } else {
        match (stream_hits(name, ls.drop_last(), cli), emitted(name, ls.len() as u32, ls.last(), cli)) {
            (Some(p), Some(None)) => Some(p),
            (Some(p), Some(Some(h))) => Some(p.push(h)),
            _ => None,
        }
    }
}

/// What streaming reports for all sources, source by source.
pub open spec fn stream_all(srcs: Seq<(Seq<char>, Seq<char>)>, cli: Cli) -> Option<Seq<HitView>>
    decreases srcs.len(),
{
    if srcs.len() == 0 {
        Some(seq![])
    } else {
        match (stream_all(srcs.drop_last(), cli), stream_hits(srcs.last().0, lines_of(srcs.last().1), cli)) {
            (Some(a), Some(b)) => Some(a + b),
            _ => None,
        }
    }
}

/// Streams one source: the found lines reported for its text, line by
/// line, in order; `None` where the search does not return normally on a
/// line. The number of lines selected is the length of the result.
pub fn stream_source(name: &str, content: &str, cli: &Cli, regex: Option<&LineRegex>) -> (r: Option<Vec<Hit>>)
    requires
        regex_view(regex) == cli_regex(*cli),
        lines_of(content@).len() <= u32::MAX,
    ensures
        r matches Some(v) ==> stream_hits(name@, lines_of(content@), *cli) == Some(hit_views(v@)),
        r is None ==> stream_hits(name@, lines_of(content@), *cli) is None,
{
    let ls = split_lines(&to_chars(content));
    let ghost all = lines_of(content@);
    let mut out: Vec<Hit> = Vec::new();
    let mut i: usize = 0;
    assert(hit_views(out@) =~= Seq::<HitView>::empty());
    while i < ls.len()
        invariant
            i <= ls.len(),
            views(ls@) == all,
            all == lines_of(content@),
            all.len() <= u32::MAX,
            regex_view(regex) == cli_regex(*cli),
            stream_hits(name@, all.take(i as int), *cli) == Some(hit_views(out@)),
        decreases ls.len() - i,
    {
        assert(all.take(i + 1).drop_last() == all.take(i as int));
        assert(all.take(i + 1).last() == ls@[i as int]@);
        assert(all.take(i + 1).len() == i + 1);
        let num: u32 = (i as u32) + 1;
        let line = from_chars(&ls[i]);
        match try_emit_if_match(name, line.as_str(), num, cli, regex) {
            None => {
                proof {
                    lemma_stream_hits_none(name@, all, i + 1, *cli);
                }
                return None;
            },
            Some(None) => {},
            Some(Some(h)) => {
                let ghost before = out@;
                out.push(h);
                assert(hit_views(out@) =~= hit_views(before).push(hit_view(h)));
            },
        }
        i = i + 1;
    }
    assert(all.take(ls.len() as int) == all);
    Some(out)
}

/// Once one line does not return normally, neither does the stream.
proof fn lemma_stream_hits_none(name: Seq<char>, ls: Seq<Seq<char>>, k: int, cli: Cli)
    requires
        0 <= k <= ls.len(),
        stream_hits(name, ls.take(k), cli) is None,
    ensures
        stream_hits(name, ls, cli) is None,
    decreases ls.len() - k,
{
    if k < ls.len() {
        assert(ls.take(k + 1).drop_last() == ls.take(k));
        lemma_stream_hits_none(name, ls, k + 1, cli);
    } else {
        assert(ls.take(k) == ls);
    }
}

/// Streaming a source reports exactly the lines the search in memory shows,
/// in the same order, when the selection is not inverted.
pub proof fn lemma_stream_source_agrees(name: Seq<char>, ls: Seq<Seq<char>>, cli: Cli)
    requires
        !cli.invert_match,
    ensures
        stream_hits(name, ls, cli) == hits_in(name, ls, cli, cli_regex(cli)),
    decreases ls.len(),
{
    if ls.len() > 0 {
        lemma_stream_source_agrees(name, ls.drop_last(), cli);
        lemma_stream_agrees(name, ls.len() as u32, ls.last(), cli);
    }
}

/// Streaming all sources reports exactly the lines the search in memory
/// shows, in the same order, when the selection is not inverted; the number
/// of lines streamed is the number of lines found.
pub proof fn lemma_stream_all_agrees(srcs: Seq<(Seq<char>, Seq<char>)>, cli: Cli)
    requires
        !cli.invert_match,
    ensures
        stream_all(srcs, cli) == search_hits(srcs, cli, cli_regex(cli)),
    decreases srcs.len(),
{
    if srcs.len() > 0 {
        lemma_stream_all_agrees(srcs.drop_last(), cli);
        lemma_stream_source_agrees(srcs.last().0, lines_of(srcs.last().1), cli);
    }
}

// ------------------------------------------------------------------
// Choosing files
// ------------------------------------------------------------------

#[verifier::external_type_specification]
#[verifier::external_body]
pub struct ExPattern(glob::Pattern);

/// A compiled file-name pattern together with its text. Only
/// [`compile_pattern`] makes one.
pub struct FilePattern {
    source: String,
    pat: glob::Pattern,
}

impl FilePattern {
    /// The text the pattern was compiled from.
    pub closed spec fn spec_source(&self) -> Seq<char> {
        self.source@
    }
}

/// What `glob::Pattern::new` decides of a text: whether it is a valid pattern.
pub uninterp spec fn glob_pattern_valid(pattern: Seq<char>) -> bool;

/// What `glob::Pattern::matches` gives: whether the path matches the pattern.
pub uninterp spec fn glob_match(pattern: Seq<char>, path: Seq<char>) -> bool;

/// The text of an optional compiled pattern.
pub open spec fn pattern_source(p: Option<FilePattern>) -> Option<Seq<char>> {
    match p {
        Some(x) => Some(x.spec_source()),
        None => None,
    }
}

/// `glob::Pattern::new`: the compiled pattern, `None` when the text is no
/// valid pattern.
#[verifier::external_body]
pub(crate) fn compile_pattern(pattern: &str) -> (r: Option<FilePattern>)
    ensures
        r is Some <==> glob_pattern_valid(pattern@),
        r is Some ==> pattern_source(r) == Some(pattern@),
{
    glob::Pattern::new(pattern).ok().map(|pat| FilePattern { source: pattern.to_string(), pat })
}

/// `glob::Pattern::matches`: whether the path matches the pattern.
#[verifier::external_body]
pub(crate) fn pattern_matches(p: &FilePattern, path: &str) -> (r: bool)
    ensures
        r == glob_match(p.spec_source(), path@),
{
    p.pat.matches(path)
}

/// A path separator.
pub open spec fn is_sep(c: char) -> bool {
    c == '/' || c == '\\'
}

/// `name` stands in `path` at `i` as a directory: at the start or after a
/// separator, and followed by a separator.
pub open spec fn dir_at(path: Seq<char>, name: Seq<char>, i: int) -> bool {
    &&& occurs_at(path, name, i)
    &&& (i == 0 || is_sep(path[i - 1]))
    &&& i + name.len() < path.len()
    &&& is_sep(path[i + name.len()])
}

/// The path lies inside a directory named `name`.
pub open spec fn in_dir_named(path: Seq<char>, name: Seq<char>) -> bool {
    exists|i: int| dir_at(path, name, i)
}

fn is_sep_exec(c: char) -> (r: bool)
    ensures
        r == is_sep(c),
{
    c == '/' || c == '\\'
}

/// Whether the path lies inside a directory named `name`.
pub fn in_dir_named_exec(path: &[char], name: &[char]) -> (r: bool)
    ensures
        r == in_dir_named(path@, name@),
{
    let mut i: usize = 0;
    while i < path.len()
        invariant
            i <= path.len(),
            forall|j: int| 0 <= j < i ==> !dir_at(path@, name@, j),
        decreases path.len() - i,
    {
        if (i == 0 || is_sep_exec(path[i - 1])) && occurs_at_exec(path, name, i) {
            if i + name.len() < path.len() && is_sep_exec(path[i + name.len()]) {
                assert(dir_at(path@, name@, i as int));
                return true;
            }
        }
        i = i + 1;
    }
    assert forall|j: int| !dir_at(path@, name@, j) by {
        if 0 <= j < i {
        }
    }
    false
}

/// The path passes the file filters: it matches the `--include` pattern,
/// does not match the `--exclude` pattern (a pattern that is not valid is
/// ignored), and lies inside no directory named by `--exclude-dir`.
pub open spec fn included(path: Seq<char>, cli: Cli) -> bool {
    &&& match cli.include_pattern {
        Some(inc) => !glob_pattern_valid(inc@) || glob_match(inc@, path),
        None => true,
    }
    &&& match cli.exclude {
        Some(exc) => !glob_pattern_valid(exc@) || !glob_match(exc@, path),
        None => true,
    }
    &&& match cli.exclude_dir {
        Some(exd) => !in_dir_named(path, exd@),
        None => true,
    }
}

/// Whether the path passes the file filters.
pub fn should_include(path: &str, cli: &Cli) -> (r: bool)
    ensures
        r == included(path@, *cli),
{
    match &cli.include_pattern {
        Some(inc) => {
            match compile_pattern(inc.as_str()) {
                Some(p) => {
                    if !pattern_matches(&p, path) {
                        return false;
                    }
                },
                None => {},
            }
        },
        None => {},
    }
    match &cli.exclude {
        Some(exc) => {
            match compile_pattern(exc.as_str()) {
                Some(p) => {
                    if pattern_matches(&p, path) {
                        return false;
                    }
                },
                None => {},
            }
        },
        None => {},
    }
    match &cli.exclude_dir {
        Some(exd) => {
            if in_dir_named_exec(&to_chars(path), &to_chars(exd.as_str())) {
                return false;
            }
        },
        None => {},
    }
    true
}

/// What a file argument stands for.
pub enum ArgKind {
    /// A file-name pattern, to expand.
    Pattern,
    /// A directory, to walk.
    Walk,
    /// A single file, to read.
    Single,
    /// A file that the filters leave out.
    Skip,
}

/// What a file argument stands for: a pattern when it holds `*`, `[` or
/// `?`; with `-r`, a directory to walk; else a file, when the filters let it
/// through.
pub open spec fn arg_kind(file: Seq<char>, cli: Cli, is_dir: bool) -> ArgKind {
    if crate::has_glob_char(file) {
        ArgKind::Pattern
    } else if cli.recursive && is_dir {
        ArgKind::Walk
    } else if included(file, cli) {
        ArgKind::Single
    } else {
        ArgKind::Skip
    }
}

/// What a file argument stands for; `is_dir` tells whether it names a directory.
pub fn classify_arg(file: &str, cli: &Cli, is_dir: bool) -> (r: ArgKind)
    ensures
        r == arg_kind(file@, *cli, is_dir),
{
    if crate::is_glob_path(file) {
        ArgKind::Pattern
    } else if cli.recursive && is_dir {
        ArgKind::Walk
    } else if should_include(file, cli) {
        ArgKind::Single
    } else {
        ArgKind::Skip
    }
}

/// The directory names that a walk never enters.
pub open spec fn ignored_dir(name: Seq<char>) -> bool {
    name == "target"@ || name == ".git"@ || name == ".svn"@ || name == ".hg"@ || name
        == "node_modules"@ || name == "__pycache__"@
}

/// A walk enters (or reports) an entry with this name: it is none of the
/// ignored directories and not the `--exclude-dir` name.
pub open spec fn entry_allowed(name: Seq<char>, cli: Cli) -> bool {
    !ignored_dir(name) && match cli.exclude_dir {
        Some(exd) => name != exd@,
        None => true,
    }
}

/// Whether a walk enters (or reports) an entry with this name.
pub fn dir_entry_allowed(name: &str, cli: &Cli) -> (r: bool)
    ensures
        r == entry_allowed(name@, *cli),
{
    let n = to_chars(name);
    let ignored = chars_eq(&n, &to_chars("target")) || chars_eq(&n, &to_chars(".git"))
        || chars_eq(&n, &to_chars(".svn")) || chars_eq(&n, &to_chars(".hg")) || chars_eq(
        &n,
        &to_chars("node_modules"),
    ) || chars_eq(&n, &to_chars("__pycache__"));
    if ignored {
        return false;
    }
    match &cli.exclude_dir {
        Some(exd) => !chars_eq(&n, &to_chars(exd.as_str())),
        None => true,
    }
}

/// Two characters are equal once ASCII upper-case letters are lowered.
pub open spec fn ascii_eq_ic(a: char, b: char) -> bool {
    let x = a as u32;
    let y = b as u32;
    let lx = if 0x41 <= x <= 0x5A { x + 0x20 } else { x as int };
    let ly = if 0x41 <= y <= 0x5A { y + 0x20 } else { y as int };
    lx == ly
}

/// Two texts are equal once ASCII upper-case letters are lowered
/// (`str::eq_ignore_ascii_case`).
pub open spec fn eq_ignore_ascii_case(a: Seq<char>, b: Seq<char>) -> bool {
    a.len() == b.len() && forall|i: int| 0 <= i < a.len() ==> ascii_eq_ic(#[trigger] a[i], b[i])
}

/// Whether `a` and `b` are equal once ASCII upper-case letters are lowered.
pub fn eq_ignore_ascii_case_exec(a: &str, b: &str) -> (r: bool)
    ensures
        r == eq_ignore_ascii_case(a@, b@),
{
    let x = to_chars(a);
    let y = to_chars(b);
    if x.len() != y.len() {
        return false;
    }
    let mut i: usize = 0;
    while i < x.len()
        invariant
            x@ == a@,
            y@ == b@,
            x.len() == y.len(),
            i <= x.len(),
            forall|j: int| 0 <= j < i ==> ascii_eq_ic(#[trigger] x@[j], y@[j]),
        decreases x.len() - i,
    {
        let u = x[i] as u32;
        let v = y[i] as u32;
        let lu: u32 = if 0x41 <= u && u <= 0x5A { u + 0x20 } else { u };
        let lv: u32 = if 0x41 <= v && v <= 0x5A { v + 0x20 } else { v };
        if lu != lv {
            assert(!ascii_eq_ic(x@[i as int], y@[i as int]));
            return false;
        }
        i = i + 1;
    }
    true
}

// ------------------------------------------------------------------
// Laws of line selection
// ------------------------------------------------------------------

/// The same options with inversion set to `invert`.
pub open spec fn with_invert(cli: Cli, invert: bool) -> Cli {
    Cli { invert_match: invert, ..cli }
}

/// The line is shown.
pub open spec fn is_shown(h: Option<Option<HitView>>) -> bool {
    h matches Some(Some(_))
}

/// Inverting the selection shows exactly the lines that are not shown
/// otherwise (where the search returns normally on the line).
#[verifier::rlimit(80)]
pub proof fn lemma_invert_complements(name: Seq<char>, num: u32, line: Seq<char>, cli: Cli, re: Option<(Seq<char>, bool)>)
    requires
        line_hit(name, num, line, with_invert(cli, false), re) is Some,
        line_hit(name, num, line, with_invert(cli, true), re) is Some,
    ensures
        is_shown(line_hit(name, num, line, with_invert(cli, false), re)) != is_shown(
            line_hit(name, num, line, with_invert(cli, true), re),
        ),
{
    let a = with_invert(cli, false);
    let b = with_invert(cli, true);
    lemma_selected_fields(line, a, b, re);
}

/// Selection reads only the pattern and the matching options.
proof fn lemma_selected_fields(line: Seq<char>, a: Cli, b: Cli, re: Option<(Seq<char>, bool)>)
    requires
        a.target == b.target,
        a.ignore_case == b.ignore_case,
        a.extended_regexp == b.extended_regexp,
        a.line_regexp == b.line_regexp,
        a.word_regexp == b.word_regexp,
    ensures
        selected(line, a, re) == selected(line, b, re),
{
    reveal(selected);
}

/// Streaming reports a line exactly as the search in memory shows it, when
/// the selection is not inverted.
pub proof fn lemma_stream_agrees(name: Seq<char>, num: u32, line: Seq<char>, cli: Cli)
    requires
        !cli.invert_match,
    ensures
        emitted(name, num, line, cli) == line_hit(name, num, line, cli, cli_regex(cli)),
{
}

/// Marking a line without a regular expression only inserts escape
/// sequences: taking them out gives back the line (when it holds no escape
/// characters of its own).
pub proof fn lemma_marked_line_removable(line: Seq<char>, target: Seq<char>, ignore_case: bool)
    requires
        !line.contains('\x1b'),
        highlighted_line(line, target, ignore_case, None) is Some,
    ensures
        unmark(highlighted_line(line, target, ignore_case, None)->0) == line,
{
    reveal(highlighted_line);
    if ignore_case {
        let hay = lower_case(line);
        let pat = lower_case(target);
        let sp = match_spans(hay, pat);
        lemma_spans_from_fit(hay, pat, 0);
        lemma_byte_spans_fit(hay, sp, 0, utf8_len(hay));
        assert(hay.take(0) =~= Seq::<char>::empty());
        assert(line.take(0) =~= Seq::<char>::empty());
        lemma_char_at_byte(line, 0);
        lemma_spans_at_bytes_fit(line, folded_bytes(hay, pat), 0, utf8_len(hay), 0);
        lemma_unmark_render(line, folded_spans(line, hay, pat));
    } else {
        lemma_spans_from_fit(line, target, 0);
        lemma_unmark_render(line, match_spans(line, target));
    }
}

/// Without a regular expression, the search shows the lines themselves:
/// each shown line names its source, its number lies within the text and
/// grows from one shown line to the next, and taking the marks out of its
/// text gives back the line with that number.
pub proof fn lemma_hits_show_lines(name: Seq<char>, ls: Seq<Seq<char>>, cli: Cli)
    requires
        hits_in(name, ls, cli, None) is Some,
        ls.len() <= u32::MAX,
        forall|i: int| 0 <= i < ls.len() ==> !(#[trigger] ls[i]).contains('\x1b'),
    ensures
        ({
            let hs = hits_in(name, ls, cli, None)->0;
            &&& forall|k: int|
                0 <= k < hs.len() ==> (#[trigger] hs[k]).0 == name && 1 <= hs[k].1 <= ls.len()
                    && unmark(hs[k].2) == ls[hs[k].1 - 1]
            &&& forall|k: int, j: int| 0 <= k < j < hs.len() ==> (#[trigger] hs[k]).1 < (#[trigger] hs[j]).1
        }),
    decreases ls.len(),
{
    if ls.len() > 0 {
        let prev = ls.drop_last();
        assert forall|i: int| 0 <= i < prev.len() implies !(#[trigger] prev[i]).contains('\x1b') by {
            assert(prev[i] == ls[i]);
        }
        lemma_hits_show_lines(name, prev, cli);
        let p = hits_in(name, prev, cli, None)->0;
        let hs = hits_in(name, ls, cli, None)->0;
        let n = ls.len() as u32;
        let l = ls.last();
        assert(!ls[ls.len() - 1].contains('\x1b'));
        match line_hit(name, n, l, cli, None) {
            Some(Some(h)) => {
                assert(hs == p.push(h));
                assert(h.0 == name && h.1 == n);
                let m = selected(l, cli, None);
                if m {
                    lemma_marked_line_removable(l, cli.target@, cli.ignore_case);
                } else {
                    lemma_unmark_plain(l, Seq::<char>::empty());
                    assert(l + Seq::<char>::empty() == l);
                    assert(unmark(Seq::<char>::empty()) == Seq::<char>::empty());
                }
                assert forall|k: int| 0 <= k < hs.len() implies (#[trigger] hs[k]).0 == name && 1 <= hs[k].1 <= ls.len()
                    && unmark(hs[k].2) == ls[hs[k].1 - 1] by {
                    if k < p.len() {
                        assert(hs[k] == p[k]);
                        assert(ls[hs[k].1 - 1] == prev[hs[k].1 - 1]);
                    }
                }
            },
            _ => {
                assert(hs == p);
                assert forall|k: int| 0 <= k < hs.len() implies (#[trigger] hs[k]).0 == name && 1 <= hs[k].1 <= ls.len()
                    && unmark(hs[k].2) == ls[hs[k].1 - 1] by {
                    assert(ls[hs[k].1 - 1] == prev[hs[k].1 - 1]);
                }
            },
        }
    }
}

/// Some found line names source `s` and has number `n`.
#[verifier::opaque]
pub open spec fn has_line(h: Seq<HitView>, s: Seq<char>, n: int) -> bool {
    exists|k: int| 0 <= k < h.len() && (#[trigger] h[k]).0 == s && h[k].1 == n
}

proof fn lemma_has_line_push(x: Seq<HitView>, h: HitView, s: Seq<char>, n: int)
    ensures
        has_line(x.push(h), s, n) <==> has_line(x, s, n) || (h.0 == s && h.1 == n),
{
    reveal(has_line);
    reveal(source_line_exists);
    let y = x.push(h);
    if has_line(x, s, n) {
        let k = choose|k: int| 0 <= k < x.len() && (#[trigger] x[k]).0 == s && x[k].1 == n;
        assert(y[k] == x[k]);
    }
    if h.0 == s && h.1 == n {
        assert(y[x.len() as int] == h);
    }
    if has_line(y, s, n) {
        let k = choose|k: int| 0 <= k < y.len() && (#[trigger] y[k]).0 == s && y[k].1 == n;
        if k < x.len() {
            assert(x[k] == y[k]);
        }
    }
}

proof fn lemma_has_line_concat(x: Seq<HitView>, y: Seq<HitView>, s: Seq<char>, n: int)
    ensures
        has_line(x + y, s, n) <==> has_line(x, s, n) || has_line(y, s, n),
{
    reveal(has_line);
    reveal(source_line_exists);
    let z = x + y;
    if has_line(x, s, n) {
        let k = choose|k: int| 0 <= k < x.len() && (#[trigger] x[k]).0 == s && x[k].1 == n;
        assert(z[k] == x[k]);
    }
    if has_line(y, s, n) {
        let k = choose|k: int| 0 <= k < y.len() && (#[trigger] y[k]).0 == s && y[k].1 == n;
        assert(z[x.len() + k] == y[k]);
    }
    if has_line(z, s, n) {
        let k = choose|k: int| 0 <= k < z.len() && (#[trigger] z[k]).0 == s && z[k].1 == n;
        if k < x.len() {
            assert(x[k] == z[k]);
        } else {
            assert(y[k - x.len()] == z[k]);
        }
    }
}

/// The found lines of one source name it, have numbers within its text,
/// and, when inverted, are its lines as they are.
proof fn lemma_hits_in_fields(name: Seq<char>, ls: Seq<Seq<char>>, c: Cli, re: Option<(Seq<char>, bool)>)
    requires
        hits_in(name, ls, c, re) is Some,
        ls.len() <= u32::MAX,
    ensures
        forall|k: int|
            0 <= k < (hits_in(name, ls, c, re)->0).len() ==> (#[trigger] (hits_in(name, ls, c, re)->0)[k]).0 == name
                && 1 <= (hits_in(name, ls, c, re)->0)[k].1 <= ls.len() && (c.invert_match ==> (hits_in(
                name,
                ls,
                c,
                re,
            )->0)[k].2 == ls[(hits_in(name, ls, c, re)->0)[k].1 - 1]),
    decreases ls.len(),
{
    if ls.len() > 0 {
        let prev = ls.drop_last();
        let n0 = ls.len() as u32;
        assert(hits_in(name, prev, c, re) is Some);
        lemma_hits_in_fields(name, prev, c, re);
        let p = hits_in(name, prev, c, re)->0;
        let a = hits_in(name, ls, c, re)->0;
        match line_hit(name, n0, ls.last(), c, re) {
            Some(Some(h)) => {
                assert(a == p.push(h));
                assert forall|k: int| 0 <= k < a.len() implies (#[trigger] a[k]).0 == name && 1 <= a[k].1 <= ls.len()
                    && (c.invert_match ==> a[k].2 == ls[a[k].1 - 1]) by {
                    if k < p.len() {
                        assert(a[k] == p[k]);
                        assert(prev[p[k].1 - 1] == ls[p[k].1 - 1]);
                    }
                }
            },
            _ => {
                assert(a == p);
                assert forall|k: int| 0 <= k < a.len() implies (#[trigger] a[k]).0 == name && 1 <= a[k].1 <= ls.len()
                    && (c.invert_match ==> a[k].2 == ls[a[k].1 - 1]) by {
                    assert(prev[p[k].1 - 1] == ls[p[k].1 - 1]);
                }
            },
        }
    }
}

/// Line `n` of one source is among its found lines exactly when the search
/// shows it (and the search returns normally on it).
proof fn lemma_hits_in_lines(name: Seq<char>, ls: Seq<Seq<char>>, c: Cli, re: Option<(Seq<char>, bool)>, n: int)
    requires
        hits_in(name, ls, c, re) is Some,
        ls.len() <= u32::MAX,
        1 <= n <= ls.len(),
    ensures
        line_hit(name, n as u32, ls[n - 1], c, re) is Some,
        has_line(hits_in(name, ls, c, re)->0, name, n) == is_shown(line_hit(name, n as u32, ls[n - 1], c, re)),
    decreases ls.len(),
{
    reveal(has_line);
    reveal(source_line_exists);
    let prev = ls.drop_last();
    let n0 = ls.len() as u32;
    assert(hits_in(name, prev, c, re) is Some);
    let p = hits_in(name, prev, c, re)->0;
    let a = hits_in(name, ls, c, re)->0;
    if n < ls.len() {
        lemma_hits_in_lines(name, prev, c, re, n);
        assert(prev[n - 1] == ls[n - 1]);
    } else {
        lemma_hits_in_fields(name, prev, c, re);
        assert(!has_line(p, name, n)) by {
            if has_line(p, name, n) {
                let k = choose|k: int| 0 <= k < p.len() && (#[trigger] p[k]).0 == name && p[k].1 == n;
                assert(p[k].1 <= prev.len());
            }
        }
    }
    match line_hit(name, n0, ls.last(), c, re) {
        Some(Some(h)) => {
            assert(a == p.push(h));
            lemma_has_line_push(p, h, name, n);
        },
        _ => {
            assert(a == p);
        },
    }
}

/// The lines of all sources that exist: a source named `s` with at least
/// `n` lines.
#[verifier::opaque]
pub open spec fn source_line_exists(srcs: Seq<(Seq<char>, Seq<char>)>, s: Seq<char>, n: int) -> bool {
    exists|i: int| 0 <= i < srcs.len() && (#[trigger] srcs[i]).0 == s && 1 <= n <= lines_of(srcs[i].1).len()
}

/// The sources have pairwise different names.
pub open spec fn distinct_names(srcs: Seq<(Seq<char>, Seq<char>)>) -> bool {
    forall|i: int, j: int| 0 <= i < j < srcs.len() ==> (#[trigger] srcs[i]).0 != (#[trigger] srcs[j]).0
}

/// The facts about the sources before the last one carry over.
proof fn lemma_prefix_fits(srcs: Seq<(Seq<char>, Seq<char>)>)
    requires
        srcs.len() > 0,
        line_counts_fit(srcs),
        distinct_names(srcs),
    ensures
        line_counts_fit(srcs.drop_last()),
        distinct_names(srcs.drop_last()),
        lines_of(srcs.last().1).len() <= u32::MAX,
        forall|i: int| 0 <= i < srcs.len() - 1 ==> (#[trigger] srcs[i]).0 != srcs.last().0,
{
    let prev = srcs.drop_last();
    assert forall|i: int| 0 <= i < prev.len() implies lines_of(#[trigger] prev[i].1).len() <= u32::MAX by {
        assert(prev[i] == srcs[i]);
    }
    assert forall|i: int, j: int| 0 <= i < j < prev.len() implies (#[trigger] prev[i]).0 != (#[trigger] prev[j]).0 by {
        assert(prev[i] == srcs[i] && prev[j] == srcs[j]);
    }
    assert(lines_of(srcs[srcs.len() - 1].1).len() <= u32::MAX);
    assert forall|i: int| 0 <= i < srcs.len() - 1 implies (#[trigger] srcs[i]).0 != srcs.last().0 by {
        assert(srcs[i].0 != srcs[srcs.len() - 1].0);
    }
}

/// A line of the sources is a line of the sources before the last or of
/// the last; a line of those before is not named like the last.
proof fn lemma_source_line_exists_last(srcs: Seq<(Seq<char>, Seq<char>)>, s: Seq<char>, n: int)
    requires
        srcs.len() > 0,
        distinct_names(srcs),
    ensures
        source_line_exists(srcs, s, n) <==> (source_line_exists(srcs.drop_last(), s, n) || (s == srcs.last().0 && 1
            <= n <= lines_of(srcs.last().1).len())),
        source_line_exists(srcs.drop_last(), s, n) ==> s != srcs.last().0,
{
    reveal(has_line);
    reveal(source_line_exists);
    let prev = srcs.drop_last();
    let last = srcs.last();
    if source_line_exists(srcs, s, n) {
        let i = choose|i: int| 0 <= i < srcs.len() && (#[trigger] srcs[i]).0 == s && 1 <= n <= lines_of(srcs[i].1).len();
        if i < prev.len() {
            assert(prev[i] == srcs[i]);
        }
    }
    if source_line_exists(prev, s, n) {
        let i = choose|i: int| 0 <= i < prev.len() && (#[trigger] prev[i]).0 == s && 1 <= n <= lines_of(prev[i].1).len();
        assert(srcs[i] == prev[i]);
        assert(srcs[i].0 != srcs[srcs.len() - 1].0);
    }
    if s == last.0 && 1 <= n <= lines_of(last.1).len() {
        assert(srcs[srcs.len() - 1] == last);
    }
}

/// A found line of one source names it and has a number within its text.
proof fn lemma_one_source_names(name: Seq<char>, ls: Seq<Seq<char>>, c: Cli, re: Option<(Seq<char>, bool)>, al: Seq<HitView>, s: Seq<char>, n: int)
    requires
        found_in_one(name, ls, c, re) == Some(al),
        ls.len() <= u32::MAX,
    ensures
        has_line(al, s, n) ==> s == name && 1 <= n <= ls.len(),
{
    reveal(found_in_one);
    reveal(has_line);
    reveal(source_line_exists);
    lemma_hits_in_fields(name, ls, c, re);
    assert(hits_in(name, ls, c, re)->0 == al);
    if has_line(al, s, n) {
        let k = choose|k: int| 0 <= k < al.len() && (#[trigger] al[k]).0 == s && al[k].1 == n;
        assert(al[k].0 == name);
    }
}

/// Line `n` of one source is shown by exactly one of the plain and the
/// inverted search.
#[verifier::spinoff_prover]
#[verifier::rlimit(100)]
proof fn lemma_one_source_partition(name: Seq<char>, ls: Seq<Seq<char>>, cli: Cli, al: Seq<HitView>, bl: Seq<HitView>, s: Seq<char>, n: int)
    requires
        found_in_one(name, ls, with_invert(cli, false), cli_regex(cli)) == Some(al),
        found_in_one(name, ls, with_invert(cli, true), cli_regex(cli)) == Some(bl),
        ls.len() <= u32::MAX,
    ensures
        (s == name && 1 <= n <= ls.len()) ==> has_line(al, s, n) != has_line(bl, s, n),
{
    reveal(found_in_one);
    if s == name && 1 <= n <= ls.len() {
        let re = cli_regex(cli);
        lemma_hits_in_lines(name, ls, with_invert(cli, false), re, n);
        lemma_hits_in_lines(name, ls, with_invert(cli, true), re, n);
        lemma_invert_complements(name, n as u32, ls[n - 1], cli, re);
    }
}

/// The found lines of the sources, kept folded in the proofs below.
#[verifier::opaque]
spec fn found_in(srcs: Seq<(Seq<char>, Seq<char>)>, c: Cli, re: Option<(Seq<char>, bool)>) -> Option<Seq<HitView>> {
    search_hits(srcs, c, re)
}

/// The found lines of one source, kept folded in the proofs below.
#[verifier::opaque]
spec fn found_in_one(name: Seq<char>, ls: Seq<Seq<char>>, c: Cli, re: Option<(Seq<char>, bool)>) -> Option<Seq<HitView>> {
    hits_in(name, ls, c, re)
}

/// No sources, no found lines.
proof fn lemma_found_none(srcs: Seq<(Seq<char>, Seq<char>)>, c: Cli, re: Option<(Seq<char>, bool)>, a: Seq<HitView>)
    requires
        srcs.len() == 0,
        found_in(srcs, c, re) == Some(a),
    ensures
        a.len() == 0,
{
    reveal(found_in);
}

/// The found lines of the sources are those of the sources before the
/// last followed by those of the last.
proof fn lemma_search_split(srcs: Seq<(Seq<char>, Seq<char>)>, c: Cli, re: Option<(Seq<char>, bool)>, a: Seq<HitView>) -> (r: (Seq<HitView>, Seq<HitView>))
    requires
        srcs.len() > 0,
        found_in(srcs, c, re) == Some(a),
    ensures
        found_in(srcs.drop_last(), c, re) == Some(r.0),
        found_in_one(srcs.last().0, lines_of(srcs.last().1), c, re) == Some(r.1),
        a == r.0 + r.1,
{
    reveal(found_in);
    reveal(found_in_one);
    let ap = search_hits(srcs.drop_last(), c, re)->0;
    let al = hits_in(srcs.last().0, lines_of(srcs.last().1), c, re)->0;
    (ap, al)
}

/// Line `n` of the source named `s` is shown by exactly one of the plain
/// and the inverted search, and a name and number of no line by neither.
#[verifier::spinoff_prover]
#[verifier::rlimit(100)]
proof fn lemma_partition_at(srcs: Seq<(Seq<char>, Seq<char>)>, cli: Cli, a: Seq<HitView>, b: Seq<HitView>, s: Seq<char>, n: int)
    requires
        line_counts_fit(srcs),
        distinct_names(srcs),
        found_in(srcs, with_invert(cli, false), cli_regex(cli)) == Some(a),
        found_in(srcs, with_invert(cli, true), cli_regex(cli)) == Some(b),
    ensures
        (has_line(a, s, n) || has_line(b, s, n)) <==> source_line_exists(srcs, s, n),
        !(has_line(a, s, n) && has_line(b, s, n)),
    decreases srcs.len(),
{
    let re = cli_regex(cli);
    let f = with_invert(cli, false);
    let t = with_invert(cli, true);
    assert(cli_regex(f) == re && cli_regex(t) == re);
    if srcs.len() == 0 {
        lemma_found_none(srcs, with_invert(cli, false), re, a);
        lemma_found_none(srcs, with_invert(cli, true), re, b);
        reveal(has_line);
        reveal(source_line_exists);
        assert(!source_line_exists(srcs, s, n));
    } else {
        let prev = srcs.drop_last();
        let last = srcs.last();
        let ls = lines_of(last.1);
        let (ap, al) = lemma_search_split(srcs, f, re, a);
        let (bp, bl) = lemma_search_split(srcs, t, re, b);
        lemma_prefix_fits(srcs);
        lemma_partition_at(prev, cli, ap, bp, s, n);
        lemma_has_line_concat(ap, al, s, n);
        lemma_has_line_concat(bp, bl, s, n);
        lemma_one_source_names(last.0, ls, f, re, al, s, n);
        lemma_one_source_names(last.0, ls, t, re, bl, s, n);
        let at_last = s == last.0 && 1 <= n <= ls.len();
        lemma_one_source_partition(last.0, ls, cli, al, bl, s, n);
        lemma_source_line_exists_last(srcs, s, n);
        let hap = has_line(ap, s, n);
        let hbp = has_line(bp, s, n);
        let hal = has_line(al, s, n);
        let hbl = has_line(bl, s, n);
        let pe = source_line_exists(prev, s, n);
        assert(has_line(a, s, n) == (hap || hal));
        assert(has_line(b, s, n) == (hbp || hbl));
        assert((hap || hbp) == pe);
        assert(!(hap && hbp));
        assert(source_line_exists(srcs, s, n) == (pe || at_last));
        assert(pe ==> !at_last);
        assert(hal ==> at_last);
        assert(hbl ==> at_last);
        assert(at_last ==> hal != hbl);
        if at_last {
            assert(!hap && !hbp);
        } else {
            assert(!hal && !hbl);
        }
    }
}

/// Each line the inverted search shows is a line of its source, as it is.
#[verifier::spinoff_prover]
proof fn lemma_inverted_texts(srcs: Seq<(Seq<char>, Seq<char>)>, cli: Cli, b: Seq<HitView>)
    requires
        line_counts_fit(srcs),
        search_hits(srcs, with_invert(cli, true), cli_regex(cli)) == Some(b),
    ensures
        forall|k: int|
            0 <= k < b.len() ==> exists|i: int|
                0 <= i < srcs.len() && (#[trigger] srcs[i]).0 == (#[trigger] b[k]).0 && 1 <= b[k].1
                    <= lines_of(srcs[i].1).len() && b[k].2 == lines_of(srcs[i].1)[b[k].1 - 1],
    decreases srcs.len(),
{
    let re = cli_regex(cli);
    let t = with_invert(cli, true);
    assert(cli_regex(t) == re);
    if srcs.len() > 0 {
        let prev = srcs.drop_last();
        let last = srcs.last();
        let ls = lines_of(last.1);
        let bp = search_hits(prev, t, re)->0;
        let bl = hits_in(last.0, ls, t, re)->0;
        assert(search_hits(prev, t, re) == Some(bp));
        assert(hits_in(last.0, ls, t, re) == Some(bl));
        assert(b == bp + bl);
        assert(line_counts_fit(prev)) by {
            assert forall|i: int| 0 <= i < prev.len() implies lines_of(#[trigger] prev[i].1).len() <= u32::MAX by {
                assert(prev[i] == srcs[i]);
            }
        }
        assert(lines_of(srcs[srcs.len() - 1].1).len() <= u32::MAX);
        lemma_inverted_texts(prev, cli, bp);
        lemma_hits_in_fields(last.0, ls, t, re);
        assert forall|k: int| 0 <= k < b.len() implies exists|i: int|
            0 <= i < srcs.len() && (#[trigger] srcs[i]).0 == (#[trigger] b[k]).0 && 1 <= b[k].1 <= lines_of(
                srcs[i].1,
            ).len() && b[k].2 == lines_of(srcs[i].1)[b[k].1 - 1] by {
            if k < bp.len() {
                assert(b[k] == bp[k]);
                let i = choose|i: int|
                    0 <= i < prev.len() && (#[trigger] prev[i]).0 == (#[trigger] bp[k]).0 && 1 <= bp[k].1
                        <= lines_of(prev[i].1).len() && bp[k].2 == lines_of(prev[i].1)[bp[k].1 - 1];
                assert(srcs[i] == prev[i]);
            } else {
                assert(b[k] == bl[k - bp.len()]);
                assert(srcs[srcs.len() - 1] == last);
            }
        }
    }
}

/// Inverting the selection partitions the lines of all sources: each line
/// of each source is shown by exactly one of the plain and the inverted
/// search, and no other line is shown; the inverted search shows each line
/// as it is. (Where both searches return normally, and the sources have
/// different names, so that a name and a number tell a line.)
#[verifier::spinoff_prover]
#[verifier::rlimit(100)]
pub proof fn lemma_invert_partitions_sources(srcs: Seq<(Seq<char>, Seq<char>)>, cli: Cli)
    requires
        line_counts_fit(srcs),
        distinct_names(srcs),
        search_hits(srcs, with_invert(cli, false), cli_regex(cli)) is Some,
        search_hits(srcs, with_invert(cli, true), cli_regex(cli)) is Some,
    ensures
        ({
            let a = search_hits(srcs, with_invert(cli, false), cli_regex(cli))->0;
            let b = search_hits(srcs, with_invert(cli, true), cli_regex(cli))->0;
            &&& forall|s: Seq<char>, n: int|
                #![trigger has_line(a, s, n)]
                #![trigger has_line(b, s, n)]
                (has_line(a, s, n) || has_line(b, s, n)) <==> source_line_exists(srcs, s, n)
            &&& forall|s: Seq<char>, n: int|
                #![trigger has_line(a, s, n)]
                #![trigger has_line(b, s, n)]
                !(has_line(a, s, n) && has_line(b, s, n))
            &&& forall|k: int|
                0 <= k < b.len() ==> exists|i: int|
                    0 <= i < srcs.len() && (#[trigger] srcs[i]).0 == (#[trigger] b[k]).0 && 1 <= b[k].1
                        <= lines_of(srcs[i].1).len() && b[k].2 == lines_of(srcs[i].1)[b[k].1 - 1]
        }),
{
    let a = search_hits(srcs, with_invert(cli, false), cli_regex(cli))->0;
    let b = search_hits(srcs, with_invert(cli, true), cli_regex(cli))->0;
    assert forall|s: Seq<char>, n: int|
        #![trigger has_line(a, s, n)]
        #![trigger has_line(b, s, n)]
        ((has_line(a, s, n) || has_line(b, s, n)) <==> source_line_exists(srcs, s, n)) && !(has_line(a, s, n)
            && has_line(b, s, n)) by {
        reveal(found_in);
        lemma_partition_at(srcs, cli, a, b, s, n);
    }
    lemma_inverted_texts(srcs, cli, b);
}

/// How a line is selected, where the search returns normally on it and the
/// selection is not inverted: with `-E` exactly when the regular expression
/// built from the options matches it; else as a fixed string, exactly when
/// it holds the target (`-i`: its lower-case mapping holds the target's),
/// or with `-x` exactly when it equals the target (`-i`: their lower-case
/// mappings are equal). With `-x` and `-w` together a shown line still
/// equals the target (`-i`: in lower case).
pub proof fn lemma_selection_rules(name: Seq<char>, num: u32, line: Seq<char>, cli: Cli)
    requires
        !cli.invert_match,
        line_hit(name, num, line, cli, cli_regex(cli)) is Some,
    ensures
        ({
            let shown = is_shown(line_hit(name, num, line, cli, cli_regex(cli)));
            let t = cli.target@;
            &&& cli.extended_regexp ==> (shown <==> regex_matches(regex_pattern(cli), cli.ignore_case, line))
            &&& !cli.extended_regexp && !cli.line_regexp && !cli.word_regexp && !cli.ignore_case ==> (shown
                <==> contains(line, t))
            &&& !cli.extended_regexp && !cli.line_regexp && !cli.word_regexp && cli.ignore_case ==> (shown
                <==> contains(lower_case(line), lower_case(t)))
            &&& !cli.extended_regexp && cli.line_regexp && !cli.word_regexp && !cli.ignore_case ==> (shown
                <==> line == t)
            &&& !cli.extended_regexp && cli.line_regexp && !cli.word_regexp && cli.ignore_case ==> (shown
                <==> lower_case(line) == lower_case(t))
            &&& !cli.extended_regexp && cli.line_regexp && !cli.ignore_case ==> (shown ==> line == t)
            &&& !cli.extended_regexp && cli.line_regexp && cli.ignore_case ==> (shown ==> lower_case(line)
                == lower_case(t))
            &&& shown ==> (line_hit(name, num, line, cli, cli_regex(cli))->0->0).0 == name && (line_hit(
                name,
                num,
                line,
                cli,
                cli_regex(cli),
            )->0->0).1 == num
        }),
{
    reveal(selected);
}

/// Which lines of one source the search finds (without `-v`, where it
/// returns normally): line `n` is found exactly when the rule of its mode
/// holds of it, as in [`lemma_selection_rules`]: with `-E` the regular
/// expression matches it; as a fixed string it holds the target (in lower
/// case with `-i`), or with `-x` it equals the target (in lower case with
/// `-i`).
pub proof fn lemma_found_lines(name: Seq<char>, ls: Seq<Seq<char>>, cli: Cli, n: int)
    requires
        !cli.invert_match,
        hits_in(name, ls, cli, cli_regex(cli)) is Some,
        ls.len() <= u32::MAX,
        1 <= n <= ls.len(),
    ensures
        ({
            let found = has_line(hits_in(name, ls, cli, cli_regex(cli))->0, name, n);
            let l = ls[n - 1];
            let t = cli.target@;
            &&& cli.extended_regexp ==> (found <==> regex_matches(regex_pattern(cli), cli.ignore_case, l))
            &&& !cli.extended_regexp && !cli.line_regexp && !cli.word_regexp && !cli.ignore_case ==> (found
                <==> contains(l, t))
            &&& !cli.extended_regexp && !cli.line_regexp && !cli.word_regexp && cli.ignore_case ==> (found
                <==> contains(lower_case(l), lower_case(t)))
            &&& !cli.extended_regexp && cli.line_regexp && !cli.word_regexp && !cli.ignore_case ==> (found
                <==> l == t)
            &&& !cli.extended_regexp && cli.line_regexp && !cli.word_regexp && cli.ignore_case ==> (found
                <==> lower_case(l) == lower_case(t))
        }),
{
    lemma_hits_in_lines(name, ls, cli, cli_regex(cli), n);
    lemma_selection_rules(name, n as u32, ls[n - 1], cli);
}

/// The file filters: a path that does not match a valid `--include`
/// pattern, or matches a valid `--exclude` pattern, or lies under a
/// directory named by `--exclude-dir` (at the start or after a separator)
/// is left out; with no filters every path is kept; a path whose name is
/// merely part of a longer directory or file name is not left out by
/// `--exclude-dir` for that reason alone.
pub proof fn lemma_file_filters(path: Seq<char>, cli: Cli, front: Seq<char>, rest: Seq<char>)
    ensures
        cli.include_pattern matches Some(p) && glob_pattern_valid(p@) && !glob_match(p@, path) ==> !included(
            path,
            cli,
        ),
        cli.exclude matches Some(p) && glob_pattern_valid(p@) && glob_match(p@, path) ==> !included(path, cli),
        cli.exclude_dir is Some && (front.len() == 0 || is_sep(front.last())) && path == front + (cli.exclude_dir->0)@
            + seq!['/'] + rest ==> !included(path, cli),
        cli.include_pattern is None && cli.exclude is None && cli.exclude_dir is None ==> included(path, cli),
        cli.include_pattern is None && cli.exclude is None && cli.exclude_dir is Some && !contains(
            path,
            (cli.exclude_dir->0)@,
        ) ==> included(path, cli),
{
    if cli.exclude_dir is Some {
        let d = cli.exclude_dir->0;
        if (front.len() == 0 || is_sep(front.last())) && path == front + d@ + seq!['/'] + rest {
            let i = front.len() as int;
            assert(path.subrange(i, i + d@.len()) == d@);
            assert(path[i + d@.len()] == '/');
            if i > 0 {
                assert(path[i - 1] == front.last());
            }
            assert(dir_at(path, d@, i));
        }
        if !contains(path, d@) {
            assert forall|i: int| !dir_at(path, d@, i) by {
                if dir_at(path, d@, i) {
                    assert(occurs_at(path, d@, i));
                }
            }
        }
    }
}

} // verus!
