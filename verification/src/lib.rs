//! A grep-like text search: command-line options, line selection, marking
//! of matches, context lines and output modes, with their contracts.
use vstd::prelude::*;

#[allow(non_snake_case)]
pub mod Controller;
pub mod cli;
pub mod encoding;
pub mod engine;
pub mod matcher;
pub mod search;
pub mod text;

use text::{chars_eq, to_chars};

verus! {

/// Where the text to search comes from.
pub enum InputSource {
    /// Standard input.
    Stdin,
    /// One named file.
    File(String),
    /// Several named files, in order.
    Files(Vec<String>),
}

/// The parsed command line of the search.
pub struct Config {
    /// Where the text to search comes from.
    pub filesource: InputSource,
    /// The option bits, see [`Controller`].
    pub controller: u8,
    /// The text to search for.
    pub target: String,
}

/// The character sequences of a list of strings.
pub open spec fn str_views(v: Seq<String>) -> Seq<Seq<char>> {
    Seq::new(v.len(), |i: int| v[i]@)
}

/// Pushing a string pushes its characters.
pub proof fn lemma_str_views_push(v: Seq<String>, x: String)
    ensures
        str_views(v.push(x)) == str_views(v).push(x@),
{
    assert(str_views(v.push(x)) =~= str_views(v).push(x@));
}

/// The option bit that argument `a` sets, or 0 when `a` is no option.
pub open spec fn flag_bit(a: Seq<char>) -> u8 {
    if a == "-u"@ || a == "--upper"@ {
        Controller::CHECK_UPPER
    } else if a == "-l"@ || a == "--line"@ {
        Controller::SHOW_LINE
    } else if a == "-a"@ || a == "--all"@ {
        Controller::SHOW_ALL
    } else {
        0
    }
}

/// The arguments after the program name.
pub open spec fn after_program(args: Seq<Seq<char>>) -> Seq<Seq<char>> {
    if args.len() == 0 {
        seq![]
    } else {
        args.skip(1)
    }
}

/// The option bits that the arguments set.
pub open spec fn flags_of(args: Seq<Seq<char>>) -> u8
    decreases args.len(),
{
    if args.len() == 0 {
        Controller::DEFAULT
    } else {
        flags_of(args.drop_last()) | flag_bit(args.last())
    }
}

/// The arguments that are no options, in order.
pub open spec fn operands(args: Seq<Seq<char>>) -> Seq<Seq<char>>
    decreases args.len(),
{
    if args.len() == 0 {
        seq![]
    } else if flag_bit(args.last()) == 0 {
        operands(args.drop_last()).push(args.last())
    } else {
        operands(args.drop_last())
    }
}

/// A path that holds `*`, `?` or `[` is a pattern for file names.
pub open spec fn has_glob_char(p: Seq<char>) -> bool {
    p.contains('*') || p.contains('?') || p.contains('[')
}

/// The paths among glob entries, in order: the entries that could be read.
pub open spec fn found_paths(entries: Seq<Option<String>>) -> Seq<Seq<char>>
    decreases entries.len(),
{
    if entries.len() == 0 {
        seq![]
    } else {
        match entries.last() {
            Some(p) => found_paths(entries.drop_last()).push(p@),
            None => found_paths(entries.drop_last()),
        }
    }
}

/// What `glob::glob` decides of a pattern alone: whether it accepts it.
pub uninterp spec fn glob_accepts(pattern: Seq<char>) -> bool;

/// `glob::glob`: the file names that match `pattern`, each read as a
/// (lossy) UTF-8 string, `None` for an entry that could not be read. Only
/// whether the pattern is accepted is stated; which files match depends on
/// what is on disk and is left unsaid.
#[verifier::external_body]
fn glob_entries(pattern: &str) -> (r: Result<Vec<Option<String>>, ()>)
    ensures
        r is Ok <==> glob_accepts(pattern@),
{
    match glob::glob(pattern) {
        Ok(paths) => Ok(paths.map(|e| e.ok().map(|p| p.to_string_lossy().into_owned())).collect()),
        Err(_) => Err(()),
    }
}

/// The option bit that argument `a` sets, or 0 when `a` is no option.
pub fn flag_value(a: &str) -> (b: u8)
    ensures
        b == flag_bit(a@),
{
    let c = to_chars(a);
    if chars_eq(&c, &to_chars("-u")) || chars_eq(&c, &to_chars("--upper")) {
        Controller::CHECK_UPPER
    } else if chars_eq(&c, &to_chars("-l")) || chars_eq(&c, &to_chars("--line")) {
        Controller::SHOW_LINE
    } else if chars_eq(&c, &to_chars("-a")) || chars_eq(&c, &to_chars("--all")) {
        Controller::SHOW_ALL
    } else {
        0
    }
}

/// Whether the path holds `*`, `?` or `[`.
pub fn is_glob_path(p: &str) -> (r: bool)
    ensures
        r == has_glob_char(p@),
{
    let c = to_chars(p);
    let mut i: usize = 0;
    while i < c.len()
        invariant
            i <= c.len(),
            c@ == p@,
            forall|j: int| 0 <= j < i ==> c@[j] != '*' && c@[j] != '?' && c@[j] != '[',
        decreases c.len() - i,
    {
        if c[i] == '*' || c[i] == '?' || c[i] == '[' {
            assert(c@[i as int] == c[i as int]);
            return true;
        }
        i = i + 1;
    }
    false
}

impl Config {
    /// The configuration for the paths that a file-name pattern gave
    /// (`entries`, `None` for an entry that could not be read).
    pub fn from_glob_entries(target: String, controller: u8, entries: Vec<Option<String>>) -> (r:
        Result<Config, &'static str>)
        ensures
            found_paths(entries@).len() == 0 ==> (r matches Err(e) && e@
                == "No files matched the glob pattern"@),
            found_paths(entries@).len() == 1 ==> (r matches Ok(c) && c.target == target
                && c.controller == controller && (c.filesource matches InputSource::File(f) && f@
                == found_paths(entries@)[0])),
            found_paths(entries@).len() > 1 ==> (r matches Ok(c) && c.target == target
                && c.controller == controller && (c.filesource matches InputSource::Files(fs)
                && str_views(fs@) == found_paths(entries@))),
    {
        let mut paths: Vec<String> = Vec::new();
        let mut i: usize = 0;
        let mut entries = entries;
        let ghost all = entries@;
        assert(str_views(paths@) =~= Seq::<Seq<char>>::empty());
        while i < entries.len()
            invariant
                entries@ == all,
                i <= entries.len(),
                str_views(paths@) == found_paths(all.take(i as int)),
            decreases entries.len() - i,
        {
            assert(all.take(i + 1).drop_last() == all.take(i as int));
            let e = entries[i].clone();
            match e {
                Some(p) => {
                    let ghost before = str_views(paths@);
                    paths.push(p);
                    assert(str_views(paths@) =~= before.push(p@));
                },
                None => {},
            }
            i = i + 1;
        }
        assert(all.take(entries.len() as int) == all);
        if paths.len() == 0 {
            Err("No files matched the glob pattern")
        } else if paths.len() == 1 {
            let p = paths.pop().unwrap();
            assert(p@ == found_paths(all)[0]);
            Ok(Config { filesource: InputSource::File(p), controller, target })
        } else {
            Ok(Config { filesource: InputSource::Files(paths), controller, target })
        }
    }

    /// Parses the command line `args` (the program name first): the options
    /// `-u`/`--upper`, `-l`/`--line`, `-a`/`--all` anywhere; then the target
    /// and at most one path, which may be a file-name pattern.
    pub fn new(args: &[String]) -> (r: Result<Config, &'static str>)
        ensures
            ({
                let opts = after_program(str_views(args@));
                let ops = operands(opts);
                let flags = flags_of(opts);
                &&& ops.len() == 0 ==> (r matches Err(e) && e@ == "No target specified"@)
                &&& ops.len() == 1 ==> (r matches Ok(c) && c.filesource is Stdin && c.controller
                    == flags && c.target@ == ops[0])
                &&& ops.len() == 2 && !has_glob_char(ops[1]) ==> (r matches Ok(c) && c.controller
                    == flags && c.target@ == ops[0] && (c.filesource matches InputSource::File(f)
                    && f@ == ops[1]))
                &&& ops.len() == 2 && has_glob_char(ops[1]) ==> {
                    &&& !glob_accepts(ops[1]) ==> (r matches Err(e) && e@
                        == "Invalid glob pattern"@)
                    &&& glob_accepts(ops[1]) ==> (r matches Err(e) ==> e@
                        == "No files matched the glob pattern"@)
                    &&& r matches Ok(c) ==> c.controller == flags && c.target@ == ops[0] && (
                    c.filesource is File || (c.filesource matches InputSource::Files(fs)
                        && fs.len() > 1))
                }
                &&& ops.len() > 2 ==> (r matches Err(e) && e@ == "Too many arguments"@)
            }),
    {
        let ghost opts = after_program(str_views(args@));
        let mut controller: u8 = Controller::DEFAULT;
        let mut ops: Vec<String> = Vec::new();
        let mut i: usize = 1;
        if args.len() == 0 {
            assert(opts =~= Seq::<Seq<char>>::empty());
            return Err("No target specified");
        }
        assert(opts.take(0) =~= Seq::<Seq<char>>::empty());
        assert(str_views(ops@) =~= Seq::<Seq<char>>::empty());
        while i < args.len()
            invariant
                1 <= i <= args.len(),
                opts == str_views(args@).skip(1),
                controller == flags_of(opts.take(i - 1)),
                str_views(ops@) == operands(opts.take(i - 1)),
            decreases args.len() - i,
        {
            assert(opts.take(i as int).drop_last() == opts.take(i - 1));
            assert(opts.take(i as int).last() == args@[i as int]@);
            let b = flag_value(args[i].as_str());
            if b == 0 {
                let ghost before = str_views(ops@);
                let a = args[i].clone();
                ops.push(a);
                assert(str_views(ops@) =~= before.push(args@[i as int]@));
            }
            controller = controller | b;
            i = i + 1;
        }
        assert(opts.take(args.len() - 1) == opts);
        if ops.len() == 0 {
            Err("No target specified")
        } else if ops.len() == 1 {
            let target = ops.pop().unwrap();
            assert(target@ == operands(opts)[0]);
            Ok(Config { filesource: InputSource::Stdin, controller, target })
        } else if ops.len() == 2 {
            let path = ops.pop().unwrap();
            let target = ops.pop().unwrap();
            assert(path@ == operands(opts)[1]);
            assert(target@ == operands(opts)[0]);
            if is_glob_path(path.as_str()) {
                match glob_entries(path.as_str()) {
                    Err(_) => Err("Invalid glob pattern"),
                    Ok(entries) => Config::from_glob_entries(target, controller, entries),
                }
            } else {
                Ok(Config { filesource: InputSource::File(path), controller, target })
            }
        } else {
            Err("Too many arguments")
        }
    }
}

/// The operands of joined argument lists are joined, and their option bits
/// combine.
pub proof fn lemma_args_concat(a: Seq<Seq<char>>, b: Seq<Seq<char>>)
    ensures
        operands(a + b) == operands(a) + operands(b),
        flags_of(a + b) == flags_of(a) | flags_of(b),
    decreases b.len(),
{
    if b.len() == 0 {
        assert(a + b == a);
        assert(operands(a) + operands(b) == operands(a));
        let x = flags_of(a);
        assert(x | 0u8 == x) by (bit_vector);
    } else {
        lemma_args_concat(a, b.drop_last());
        assert((a + b).drop_last() == a + b.drop_last());
        assert((a + b).last() == b.last());
        let x = flags_of(a);
        let y = flags_of(b.drop_last());
        let z = flag_bit(b.last());
        assert((x | y) | z == x | (y | z)) by (bit_vector);
        if flag_bit(b.last()) == 0 {
            assert(operands(a) + operands(b) == (operands(a) + operands(b.drop_last())).push(b.last()));
        }
    }
}

/// An option may stand anywhere among the arguments: putting it at any
/// place leaves the operands as they are and adds its bit.
pub proof fn lemma_option_anywhere(a: Seq<Seq<char>>, b: Seq<Seq<char>>, f: Seq<char>)
    requires
        flag_bit(f) != 0,
    ensures
        operands(a + seq![f] + b) == operands(a + b),
        flags_of(a + seq![f] + b) == flags_of(a + b) | flag_bit(f),
{
    lemma_args_concat(a + seq![f], b);
    lemma_args_concat(a, seq![f]);
    lemma_args_concat(a, b);
    let one = seq![f];
    assert(one.drop_last() =~= Seq::<Seq<char>>::empty());
    assert(one.last() == f);
    assert(operands(one) == Seq::<Seq<char>>::empty()) by {
        reveal_with_fuel(operands, 2);
    }
    assert(flags_of(one) == flags_of(Seq::<Seq<char>>::empty()) | flag_bit(f));
    let x = flags_of(a);
    let y = flags_of(b);
    let z = flag_bit(f);
    assert(flags_of(one) == 0u8 | z);
    assert((x | (0u8 | z)) | y == (x | y) | z) by (bit_vector);
}

} // verus!
