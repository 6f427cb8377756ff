//! The command line: argument parsing, the decisions of a run, and the
//! reports of a run over a directory.

use crate::decrypter::{format_from, get_wxid, spec_format_from, spec_get_wxid};
use crate::logging::LogLevel;
use crate::text::{chars_of, decimal, push_decimal, str_eq};
use vstd::prelude::*;

verus! {

/// What a run is asked to do.
#[derive(Debug)]
pub struct Args {
    /// The package file, or a directory to search for packages.
    pub path: String,
    /// The wxid given with `-w`, if any.
    pub wxid: Option<String>,
    pub log_level: LogLevel,
}

/// The result of parsing the command line.
#[derive(Debug)]
pub enum ParseArgs {
    /// Usage was asked for.
    Help,
    Run(Args),
}

/// A command line that was refused.
#[derive(Debug)]
pub enum ArgError {
    /// `-w` or `--wxid` ended the command line.
    MissingWxidValue,
    /// `--` ended the command line.
    MissingTrailingPath,
    /// More than one path was given.
    TooManyPaths,
    /// An option that the tool does not know.
    UnknownFlag(String),
    /// Both `--quiet` and `--verbose` were given.
    QuietVerboseConflict,
    /// No path was given.
    MissingPath,
}

/// The model of [`Args`].
pub struct ArgsView {
    pub path: Seq<char>,
    pub wxid: Option<Seq<char>>,
    pub log_level: LogLevel,
}

/// The model of [`ParseArgs`].
pub enum ParseView {
    Help,
    Run(ArgsView),
}

/// The model of [`ArgError`].
pub enum ArgErrorView {
    MissingWxidValue,
    MissingTrailingPath,
    TooManyPaths,
    UnknownFlag(Seq<char>),
    QuietVerboseConflict,
    MissingPath,
}

pub open spec fn opt_view(o: Option<String>) -> Option<Seq<char>> {
    match o {
        Some(s) => Some(s@),
        None => None,
    }
}

impl View for Args {
    type V = ArgsView;

    open spec fn view(&self) -> ArgsView {
        ArgsView { path: self.path@, wxid: opt_view(self.wxid), log_level: self.log_level }
    }
}

impl View for ParseArgs {
    type V = ParseView;

    open spec fn view(&self) -> ParseView {
        match self {
            ParseArgs::Help => ParseView::Help,
            ParseArgs::Run(a) => ParseView::Run(a@),
        }
    }
}

impl View for ArgError {
    type V = ArgErrorView;

    open spec fn view(&self) -> ArgErrorView {
        match self {
            ArgError::MissingWxidValue => ArgErrorView::MissingWxidValue,
            ArgError::MissingTrailingPath => ArgErrorView::MissingTrailingPath,
            ArgError::TooManyPaths => ArgErrorView::TooManyPaths,
            ArgError::UnknownFlag(a) => ArgErrorView::UnknownFlag(a@),
            ArgError::QuietVerboseConflict => ArgErrorView::QuietVerboseConflict,
            ArgError::MissingPath => ArgErrorView::MissingPath,
        }
    }
}

pub open spec fn parse_result_view(r: Result<ParseArgs, ArgError>) -> Result<ParseView, ArgErrorView> {
    match r {
        Ok(p) => Ok(p@),
        Err(e) => Err(e@),
    }
}

/// What has been read of the command line so far.
pub struct ParseState {
    pub path: Option<Seq<char>>,
    pub wxid: Option<Seq<char>>,
    pub quiet: bool,
    pub verbose: bool,
}

pub open spec fn initial_state() -> ParseState {
    ParseState { path: None, wxid: None, quiet: false, verbose: false }
}

/// The outcome once the whole command line has been read.
pub open spec fn spec_finish(st: ParseState) -> Result<ParseView, ArgErrorView> {
    if st.quiet && st.verbose {
        Err(ArgErrorView::QuietVerboseConflict)
    } else {
        match st.path {
            None => Err(ArgErrorView::MissingPath),
            Some(p) => Ok(
                ParseView::Run(
                    ArgsView {
                        path: p,
                        wxid: st.wxid,
                        log_level: if st.quiet {
                            LogLevel::Quiet
                        } else if st.verbose {
                            LogLevel::Verbose
                        } else {
                            LogLevel::Normal
                        },
                    },
                ),
            ),
        }
    }
}

/// `a` looks like an option.
pub open spec fn is_dash_arg(a: Seq<char>) -> bool {
    a.len() > 0 && a[0] == '-'
}

/// The outcome of reading the command line `args` from position `i` on, in
/// state `st`: arguments are read left to right; `-w`/`--wxid` takes the next
/// argument as the wxid, `-q`/`--quiet` and `-v`/`--verbose` set the level,
/// `-h`/`--help` asks for usage at once, `--` takes the next argument as the
/// path and must end the line, any other argument starting with `-` is
/// refused, and the first other argument is the path.
pub open spec fn spec_parse_from(args: Seq<Seq<char>>, i: int, st: ParseState) -> Result<
    ParseView,
    ArgErrorView,
>
    decreases args.len() - i,
{
    if i < 0 || i >= args.len() {
        spec_finish(st)
    } else {
        let a = args[i];
        if a == "-w"@ || a == "--wxid"@ {
            if i + 1 < args.len() {
                spec_parse_from(args, i + 2, ParseState { wxid: Some(args[i + 1]), ..st })
            } else {
                Err(ArgErrorView::MissingWxidValue)
            }
        } else if a == "-q"@ || a == "--quiet"@ {
            spec_parse_from(args, i + 1, ParseState { quiet: true, ..st })
        } else if a == "-v"@ || a == "--verbose"@ {
            spec_parse_from(args, i + 1, ParseState { verbose: true, ..st })
        } else if a == "-h"@ || a == "--help"@ {
            Ok(ParseView::Help)
        } else if a == "--"@ {
            if i + 1 >= args.len() {
                Err(ArgErrorView::MissingTrailingPath)
            } else if st.path is Some {
                Err(ArgErrorView::TooManyPaths)
            } else if i + 2 < args.len() {
                Err(ArgErrorView::TooManyPaths)
            } else {
                spec_finish(ParseState { path: Some(args[i + 1]), ..st })
            }
        } else if is_dash_arg(a) {
            Err(ArgErrorView::UnknownFlag(a))
        } else if st.path is None {
            spec_parse_from(args, i + 1, ParseState { path: Some(a), ..st })
        } else {
            Err(ArgErrorView::TooManyPaths)
        }
    }
}

/// What parsing the whole command line `args` gives.
pub open spec fn spec_parse_args(args: Seq<Seq<char>>) -> Result<ParseView, ArgErrorView> {
    spec_parse_from(args, 0, initial_state())
}

/// Parses the command-line arguments (without the program name).
pub fn parse_args_from(raw_args: Vec<String>) -> (r: Result<ParseArgs, ArgError>)
    ensures
        parse_result_view(r) == spec_parse_args(raw_args.deep_view()),
{
    let ghost args = raw_args.deep_view();
    let len = raw_args.len();
    let mut path: Option<String> = None;
    let mut wxid: Option<String> = None;
    let mut quiet = false;
    let mut verbose = false;
    let mut i: usize = 0;
    while i < len
        invariant
            len == raw_args@.len(),
            args == raw_args.deep_view(),
            i <= len,
            spec_parse_args(args) == spec_parse_from(
                args,
                i as int,
                ParseState { path: opt_view(path), wxid: opt_view(wxid), quiet, verbose },
            ),
        ensures
            spec_parse_args(args) == spec_finish(
                ParseState { path: opt_view(path), wxid: opt_view(wxid), quiet, verbose },
            ),
        decreases len - i,
    {
        let a = raw_args[i].as_str();
        assert(a@ == args[i as int]);
        if str_eq(a, "-w") || str_eq(a, "--wxid") {
            if i + 1 < len {
                let value = raw_args[i + 1].clone();
                assert(value@ == args[i + 1]);
                wxid = Some(value);
                i = i + 2;
            } else {
                return Err(ArgError::MissingWxidValue);
            }
        } else if str_eq(a, "-q") || str_eq(a, "--quiet") {
            quiet = true;
            i = i + 1;
        } else if str_eq(a, "-v") || str_eq(a, "--verbose") {
            verbose = true;
            i = i + 1;
        } else if str_eq(a, "-h") || str_eq(a, "--help") {
            return Ok(ParseArgs::Help);
        } else if str_eq(a, "--") {
            if i + 1 >= len {
                return Err(ArgError::MissingTrailingPath);
            }
            if path.is_some() {
                return Err(ArgError::TooManyPaths);
            }
            if i + 2 < len {
                return Err(ArgError::TooManyPaths);
            }
            let trailing = raw_args[i + 1].clone();
            assert(trailing@ == args[i + 1]);
            path = Some(trailing);
            i = len;
            break;
        } else if starts_with_dash(a) {
            return Err(ArgError::UnknownFlag(raw_args[i].clone()));
        } else if path.is_none() {
            path = Some(raw_args[i].clone());
            i = i + 1;
        } else {
            return Err(ArgError::TooManyPaths);
        }
    }
    if quiet && verbose {
        return Err(ArgError::QuietVerboseConflict);
    }
    let path = match path {
        Some(p) => p,
        None => return Err(ArgError::MissingPath),
    };
    let log_level = if quiet {
        LogLevel::Quiet
    } else if verbose {
        LogLevel::Verbose
    } else {
        LogLevel::Normal
    };
    Ok(ParseArgs::Run(Args { path, wxid, log_level }))
}

/// Whether `a` starts with `-`.
fn starts_with_dash(a: &str) -> (r: bool)
    ensures
        r == is_dash_arg(a@),
{
    let v = chars_of(a);
    v.len() > 0 && v[0] == '-'
}

/// `--help` first on the command line asks for usage, whatever follows.
pub proof fn help_first_wins(rest: Seq<Seq<char>>)
    ensures
        spec_parse_args(seq!["--help"@] + rest) == Ok::<ParseView, ArgErrorView>(ParseView::Help),
{
    reveal_strlit("-w");
    reveal_strlit("--wxid");
    reveal_strlit("-q");
    reveal_strlit("--quiet");
    reveal_strlit("-v");
    reveal_strlit("--verbose");
    reveal_strlit("-h");
    reveal_strlit("--help");
    let args = seq!["--help"@] + rest;
    assert(args[0] == "--help"@);
    assert("--help"@.len() == 6 && "--help"@[2] == 'h');
    assert("-w"@.len() == 2 && "-q"@.len() == 2 && "-v"@.len() == 2);
    assert("--wxid"@[2] == 'w' && "--quiet"@.len() == 7 && "--verbose"@.len() == 9);
    assert("--help"@ != "-w"@ && "--help"@ != "--wxid"@ && "--help"@ != "-q"@ && "--help"@
        != "--quiet"@ && "--help"@ != "-v"@ && "--help"@ != "--verbose"@);
}

/// A command line of one argument that is not an option runs on that path,
/// with no wxid, at the normal level.
pub proof fn single_path_runs(p: Seq<char>)
    requires
        !is_dash_arg(p),
    ensures
        spec_parse_args(seq![p]) == Ok::<ParseView, ArgErrorView>(
            ParseView::Run(ArgsView { path: p, wxid: None, log_level: LogLevel::Normal }),
        ),
{
    reveal_strlit("-w");
    reveal_strlit("--wxid");
    reveal_strlit("-q");
    reveal_strlit("--quiet");
    reveal_strlit("-v");
    reveal_strlit("--verbose");
    reveal_strlit("-h");
    reveal_strlit("--help");
    reveal_strlit("--");
    let args = seq![p];
    assert(args[0] == p);
    assert(p != "-w"@ && p != "--wxid"@ && p != "-q"@ && p != "--quiet"@ && p != "-v"@ && p
        != "--verbose"@ && p != "-h"@ && p != "--help"@ && p != "--"@);
    let st = ParseState { path: Some(p), ..initial_state() };
    assert(spec_parse_from(args, 0, initial_state()) == spec_parse_from(args, 1, st));
}

/// One element of a command line without `--` or `--help`: an option that
/// sets the level, a wxid option with its value, or the path.
pub enum ArgUnit {
    /// `-q`, `--quiet`, `-v` or `--verbose`.
    Level(Seq<char>),
    /// `-w` or `--wxid`, then the wxid.
    Wxid(Seq<char>, Seq<char>),
    /// An argument that does not start with `-`.
    Path(Seq<char>),
}

pub open spec fn unit_tokens(u: ArgUnit) -> Seq<Seq<char>> {
    match u {
        ArgUnit::Level(f) => seq![f],
        ArgUnit::Wxid(f, v) => seq![f, v],
        ArgUnit::Path(p) => seq![p],
    }
}

/// The command line made of `units`, in order.
pub open spec fn units_tokens(units: Seq<ArgUnit>) -> Seq<Seq<char>>
    decreases units.len(),
{
    if units.len() == 0 {
        Seq::empty()
    } else {
        unit_tokens(units[0]) + units_tokens(units.drop_first())
    }
}

pub open spec fn valid_unit(u: ArgUnit) -> bool {
    match u {
        ArgUnit::Level(f) => f == "-q"@ || f == "--quiet"@ || f == "-v"@ || f == "--verbose"@,
        ArgUnit::Wxid(f, _) => f == "-w"@ || f == "--wxid"@,
        ArgUnit::Path(p) => !is_dash_arg(p),
    }
}

pub open spec fn unit_step(u: ArgUnit, st: ParseState) -> Result<ParseState, ArgErrorView> {
    match u {
        ArgUnit::Level(f) => if f == "-q"@ || f == "--quiet"@ {
            Ok(ParseState { quiet: true, ..st })
        } else {
            Ok(ParseState { verbose: true, ..st })
        },
        ArgUnit::Wxid(_, v) => Ok(ParseState { wxid: Some(v), ..st }),
        ArgUnit::Path(p) => if st.path is None {
            Ok(ParseState { path: Some(p), ..st })
        } else {
            Err(ArgErrorView::TooManyPaths)
        },
    }
}

pub open spec fn run_units(units: Seq<ArgUnit>, st: ParseState) -> Result<ParseView, ArgErrorView>
    decreases units.len(),
{
    if units.len() == 0 {
        spec_finish(st)
    } else {
        match unit_step(units[0], st) {
            Err(e) => Err(e),
            Ok(s) => run_units(units.drop_first(), s),
        }
    }
}

proof fn lemma_parse_shift(a: Seq<Seq<char>>, b: Seq<Seq<char>>, j: int)
    requires
        0 <= j,
    ensures
        forall|st: ParseState|
            #[trigger] spec_parse_from(a + b, a.len() + j, st) == spec_parse_from(b, j, st),
    decreases b.len() + 1 - j,
{
    if j < b.len() {
        lemma_parse_shift(a, b, j + 1);
        if j + 2 <= b.len() + 1 {
            lemma_parse_shift(a, b, j + 2);
        }
        assert forall|st: ParseState|
            #[trigger] spec_parse_from(a + b, a.len() + j, st) == spec_parse_from(b, j, st) by {
            assert((a + b)[a.len() + j] == b[j]);
            assert((a + b).len() == a.len() + b.len());
            if j + 1 < b.len() {
                assert((a + b)[a.len() + j + 1] == b[j + 1]);
            }
            assert(spec_parse_from(a + b, a.len() + j + 1, ParseState { quiet: true, ..st })
                == spec_parse_from(b, j + 1, ParseState { quiet: true, ..st }));
            assert(spec_parse_from(a + b, a.len() + j + 1, ParseState { verbose: true, ..st })
                == spec_parse_from(b, j + 1, ParseState { verbose: true, ..st }));
            assert(spec_parse_from(a + b, a.len() + j + 1, ParseState { path: Some(b[j]), ..st })
                == spec_parse_from(b, j + 1, ParseState { path: Some(b[j]), ..st }));
            if j + 1 < b.len() {
                assert(spec_parse_from(
                    a + b,
                    a.len() + j + 2,
                    ParseState { wxid: Some(b[j + 1]), ..st },
                ) == spec_parse_from(b, j + 2, ParseState { wxid: Some(b[j + 1]), ..st }));
            }
        }
    }
}

proof fn lemma_parse_units(units: Seq<ArgUnit>, st: ParseState)
    requires
        forall|k: int| 0 <= k < units.len() ==> valid_unit(#[trigger] units[k]),
    ensures
        spec_parse_from(units_tokens(units), 0, st) == run_units(units, st),
    decreases units.len(),
{
    if units.len() == 0 {
        assert(units_tokens(units) =~= Seq::<Seq<char>>::empty());
    } else {
        let u = units[0];
        let rest = units.drop_first();
        let head = unit_tokens(u);
        let toks = units_tokens(units);
        assert(toks == head + units_tokens(rest));
        assert(valid_unit(u));
        reveal_strlit("-w");
        reveal_strlit("--wxid");
        reveal_strlit("-q");
        reveal_strlit("--quiet");
        reveal_strlit("-v");
        reveal_strlit("--verbose");
        reveal_strlit("-h");
        reveal_strlit("--help");
        reveal_strlit("--");
        assert("-q"@.len() == 2 && "-v"@.len() == 2 && "-w"@.len() == 2 && "-h"@.len() == 2
            && "--"@.len() == 2);
        assert("--quiet"@.len() == 7 && "--verbose"@.len() == 9 && "--wxid"@.len() == 6
            && "--help"@.len() == 6);
        lemma_parse_shift(head, units_tokens(rest), 0);
        let rt = units_tokens(rest);
        match u {
            ArgUnit::Level(f) => {
                assert(toks[0] == f);
                let s1 = if f == "-q"@ || f == "--quiet"@ {
                    ParseState { quiet: true, ..st }
                } else {
                    ParseState { verbose: true, ..st }
                };
                assert(unit_step(u, st) == Ok::<ParseState, ArgErrorView>(s1));
                assert("-q"@[1] == 'q' && "-v"@[1] == 'v' && "-w"@[1] == 'w');
                assert("--quiet"@[2] == 'q' && "--verbose"@[2] == 'v' && "--wxid"@[2] == 'w');
                assert(f != "-w"@ && f != "--wxid"@);
                assert(f == "-q"@ || f == "--quiet"@ || (f != "-q"@ && f != "--quiet"@));
                assert(spec_parse_from(head + rt, head.len() + 0int, s1) == spec_parse_from(rt, 0, s1));
                assert(spec_parse_from(toks, 0, st) == spec_parse_from(toks, 1, s1));
                lemma_parse_units(rest, s1);
            },
            ArgUnit::Wxid(f, v) => {
                assert(toks[0] == f);
                assert(toks[1] == v);
                let s1 = ParseState { wxid: Some(v), ..st };
                assert(spec_parse_from(head + rt, head.len() + 0int, s1) == spec_parse_from(rt, 0, s1));
                assert(spec_parse_from(toks, 0, st) == spec_parse_from(toks, 2, s1));
                lemma_parse_units(rest, s1);
            },
            ArgUnit::Path(p) => {
                assert(toks[0] == p);
                assert(p != "-w"@ && p != "--wxid"@ && p != "-q"@ && p != "--quiet"@ && p != "-v"@
                    && p != "--verbose"@ && p != "-h"@ && p != "--help"@ && p != "--"@);
                if st.path is None {
                    let s1 = ParseState { path: Some(p), ..st };
                    assert(spec_parse_from(head + rt, head.len() + 0int, s1) == spec_parse_from(
                        rt,
                        0,
                        s1,
                    ));
                    assert(spec_parse_from(toks, 0, st) == spec_parse_from(toks, 1, s1));
                    lemma_parse_units(rest, s1);
                }
            },
        }
    }
}

proof fn lemma_swap_units(pre: Seq<ArgUnit>, x: ArgUnit, y: ArgUnit, post: Seq<ArgUnit>, st: ParseState)
    requires
        !(x is Wxid && y is Wxid),
    ensures
        run_units(pre + seq![x, y] + post, st) == run_units(pre + seq![y, x] + post, st),
    decreases pre.len(),
{
    let l = pre + seq![x, y] + post;
    let r = pre + seq![y, x] + post;
    if pre.len() == 0 {
        assert(l[0] == x && r[0] == y);
        assert(l.drop_first()[0] == y && r.drop_first()[0] == x);
        assert(l.drop_first().drop_first() =~= post);
        assert(r.drop_first().drop_first() =~= post);
        reveal_with_fuel(run_units, 3);
    } else {
        assert(l[0] == pre[0] && r[0] == pre[0]);
        assert(l.drop_first() =~= pre.drop_first() + seq![x, y] + post);
        assert(r.drop_first() =~= pre.drop_first() + seq![y, x] + post);
        match unit_step(pre[0], st) {
            Ok(s) => {
                lemma_swap_units(pre.drop_first(), x, y, post, s);
            },
            Err(_) => {},
        }
    }
}

/// Swapping two neighbouring elements of a command line without `--` or
/// `--help` leaves the outcome unchanged, unless both are wxid options: a
/// wxid option stays with its value. Any reordering that keeps the wxid
/// options in their order is a series of such swaps.
pub proof fn swapping_arguments_keeps_outcome(
    pre: Seq<ArgUnit>,
    x: ArgUnit,
    y: ArgUnit,
    post: Seq<ArgUnit>,
)
    requires
        forall|k: int| 0 <= k < pre.len() ==> valid_unit(#[trigger] pre[k]),
        forall|k: int| 0 <= k < post.len() ==> valid_unit(#[trigger] post[k]),
        valid_unit(x),
        valid_unit(y),
        !(x is Wxid && y is Wxid),
    ensures
        spec_parse_args(units_tokens(pre + seq![x, y] + post)) == spec_parse_args(
            units_tokens(pre + seq![y, x] + post),
        ),
{
    let l = pre + seq![x, y] + post;
    let r = pre + seq![y, x] + post;
    assert forall|k: int| 0 <= k < l.len() implies valid_unit(#[trigger] l[k]) by {
        if k < pre.len() {
            assert(l[k] == pre[k]);
        } else if k >= pre.len() + 2 {
            assert(l[k] == post[k - pre.len() - 2]);
        }
    }
    assert forall|k: int| 0 <= k < r.len() implies valid_unit(#[trigger] r[k]) by {
        if k < pre.len() {
            assert(r[k] == pre[k]);
        } else if k >= pre.len() + 2 {
            assert(r[k] == post[k - pre.len() - 2]);
        }
    }
    lemma_parse_units(l, initial_state());
    lemma_parse_units(r, initial_state());
    lemma_swap_units(pre, x, y, post, initial_state());
}

/// No two units of `units` are wxid options.
pub open spec fn at_most_one_wxid(units: Seq<ArgUnit>) -> bool {
    forall|i: int, j: int|
        0 <= i < units.len() && 0 <= j < units.len() && i != j && #[trigger] units[i] is Wxid
            ==> !(#[trigger] units[j] is Wxid)
}

proof fn lemma_move_to_front(us: Seq<ArgUnit>, k: int, st: ParseState)
    requires
        0 <= k < us.len(),
        forall|j: int| 0 <= j < k ==> !(us[k] is Wxid && #[trigger] us[j] is Wxid),
    ensures
        run_units(us, st) == run_units(seq![us[k]] + us.remove(k), st),
    decreases k,
{
    if k == 0 {
        assert(seq![us[0]] + us.remove(0) =~= us);
    } else {
        let pre = us.take(k - 1);
        let x = us[k - 1];
        let y = us[k];
        let post = us.skip(k + 1);
        assert(us =~= pre + seq![x, y] + post);
        assert(!(x is Wxid && y is Wxid));
        lemma_swap_units(pre, x, y, post, st);
        let swapped = pre + seq![y, x] + post;
        assert(swapped[k - 1] == y);
        assert forall|j: int| 0 <= j < k - 1 implies !(swapped[k - 1] is Wxid
            && #[trigger] swapped[j] is Wxid) by {
            assert(swapped[j] == us[j]);
        }
        lemma_move_to_front(swapped, k - 1, st);
        assert(swapped.remove(k - 1) =~= us.remove(k));
    }
}

proof fn lemma_reorder_units(us: Seq<ArgUnit>, other: Seq<ArgUnit>, st: ParseState)
    requires
        at_most_one_wxid(us),
        other.to_multiset() == us.to_multiset(),
    ensures
        run_units(us, st) == run_units(other, st),
    decreases other.len(),
{
    broadcast use vstd::seq_lib::group_to_multiset_ensures;

    if other.len() == 0 {
        assert(us.len() == us.to_multiset().len());
        assert(other.len() == other.to_multiset().len());
        assert(us =~= other);
    } else {
        let u = other[0];
        assert(other.contains(u));
        assert(us.to_multiset().count(u) > 0);
        assert(us.contains(u));
        let k = choose|k: int| 0 <= k < us.len() && us[k] == u;
        assert forall|j: int| 0 <= j < k implies !(us[k] is Wxid && #[trigger] us[j] is Wxid) by {
            if us[k] is Wxid && us[j] is Wxid {
                assert(us[j] is Wxid && us[k] is Wxid && j != k);
            }
        }
        lemma_move_to_front(us, k, st);
        let rest = us.remove(k);
        let orest = other.drop_first();
        assert(other.remove(0) =~= orest);
        assert(orest.to_multiset() == other.to_multiset().remove(u));
        assert(rest.to_multiset() == us.to_multiset().remove(us[k]));
        assert forall|i: int, j: int|
            0 <= i < rest.len() && 0 <= j < rest.len() && i != j && #[trigger] rest[i] is Wxid
                implies !(#[trigger] rest[j] is Wxid) by {
            let ii = if i < k { i } else { i + 1 };
            let jj = if j < k { j } else { j + 1 };
            assert(rest[i] == us[ii]);
            assert(rest[j] == us[jj]);
        }
        let front = seq![u] + rest;
        assert(front[0] == u);
        assert(front.drop_first() =~= rest);
        assert(other[0] == u);
        match unit_step(u, st) {
            Ok(s) => {
                lemma_reorder_units(rest, orest, s);
            },
            Err(_) => {},
        }
    }
}

/// Reordering the units of a command line without `--` or `--help` leaves
/// the outcome unchanged when it holds at most one wxid option: only the
/// multiset of its units counts, each wxid option taken with its value.
pub proof fn reordering_arguments_keeps_outcome(units: Seq<ArgUnit>, reordered: Seq<ArgUnit>)
    requires
        forall|k: int| 0 <= k < units.len() ==> valid_unit(#[trigger] units[k]),
        at_most_one_wxid(units),
        reordered.to_multiset() == units.to_multiset(),
    ensures
        spec_parse_args(units_tokens(units)) == spec_parse_args(units_tokens(reordered)),
{
    broadcast use vstd::seq_lib::group_to_multiset_ensures;

    assert forall|k: int| 0 <= k < reordered.len() implies valid_unit(#[trigger] reordered[k]) by {
        let u = reordered[k];
        assert(reordered.contains(u));
        assert(units.to_multiset().count(u) > 0);
        assert(units.contains(u));
    }
    lemma_parse_units(units, initial_state());
    lemma_parse_units(reordered, initial_state());
    lemma_reorder_units(units, reordered, initial_state());
}

proof fn lemma_run_units_takes_arguments(us: Seq<ArgUnit>, st: ParseState)
    ensures
        forall|j: int|
            0 <= j < us.len() && #[trigger] us[j] is Path && st.path is Some ==> run_units(
                us,
                st,
            ) is Err,
        run_units(us, st) matches Ok(ParseView::Run(a)) ==> {
            &&& forall|j: int|
                0 <= j < us.len() && (forall|k: int| j < k < us.len() ==> !(#[trigger] us[k] is Wxid))
                    ==> (#[trigger] us[j] matches ArgUnit::Wxid(_, v) ==> a.wxid == Some(v))
            &&& (forall|j: int| 0 <= j < us.len() ==> !(#[trigger] us[j] is Wxid)) ==> a.wxid
                == st.wxid
            &&& forall|j: int|
                0 <= j < us.len() ==> (#[trigger] us[j] matches ArgUnit::Path(p) ==> a.path == p)
            &&& (forall|j: int| 0 <= j < us.len() ==> !(#[trigger] us[j] is Path)) ==> st.path
                == Some(a.path)
        },
    decreases us.len(),
{
    if us.len() > 0 {
        let u = us[0];
        let rest = us.drop_first();
        assert forall|j: int| 1 <= j < us.len() implies us[j] == rest[j - 1] by {}
        match unit_step(u, st) {
            Err(_) => {},
            Ok(s) => {
                lemma_run_units_takes_arguments(rest, s);
                assert(run_units(us, st) == run_units(rest, s));
                if st.path is Some {
                    assert forall|j: int|
                        0 <= j < us.len() && #[trigger] us[j] is Path implies run_units(us, st) is Err by {
                        if j > 0 {
                            assert(rest[j - 1] is Path);
                        }
                    }
                }
                match run_units(us, st) {
                    Ok(ParseView::Run(a)) => {
                        assert forall|j: int|
                            0 <= j < us.len() && (forall|k: int| j < k < us.len() ==> !(#[trigger] us[k] is Wxid))
                                implies (#[trigger] us[j] matches ArgUnit::Wxid(_, v) ==> a.wxid == Some(v)) by {
                            if j > 0 {
                                assert forall|k: int| j - 1 < k < rest.len() implies !(#[trigger] rest[k] is Wxid) by {
                                    assert(us[k + 1] == rest[k]);
                                }
                                assert(rest[j - 1] == us[j]);
                            } else {
                                assert forall|k: int| 0 <= k < rest.len() implies !(#[trigger] rest[k] is Wxid) by {
                                    assert(us[k + 1] == rest[k]);
                                }
                            }
                        }
                        if forall|j: int| 0 <= j < us.len() ==> !(#[trigger] us[j] is Wxid) {
                            assert forall|k: int| 0 <= k < rest.len() implies !(#[trigger] rest[k] is Wxid) by {
                                assert(us[k + 1] == rest[k]);
                            }
                            assert(!(us[0] is Wxid));
                        }
                        assert forall|j: int| 0 <= j < us.len() implies (#[trigger] us[j] matches ArgUnit::Path(
                            p,
                        ) ==> a.path == p) by {
                            if j > 0 {
                                assert(rest[j - 1] == us[j]);
                            } else if us[0] is Path {
                                assert(s.path is Some);
                                assert forall|k: int| 0 <= k < rest.len() implies !(#[trigger] rest[k] is Path) by {
                                    if rest[k] is Path {
                                        assert(run_units(rest, s) is Err);
                                    }
                                }
                            }
                        }
                        if forall|j: int| 0 <= j < us.len() ==> !(#[trigger] us[j] is Path) {
                            assert forall|k: int| 0 <= k < rest.len() implies !(#[trigger] rest[k] is Path) by {
                                assert(us[k + 1] == rest[k]);
                            }
                            assert(!(us[0] is Path));
                        }
                    },
                    _ => {},
                }
            },
        }
    }
}

/// A command line made of a path, wxid options and level options runs on
/// that path, with the value after the last `-w`/`--wxid` taken unchanged as
/// the wxid, or with no wxid when there is no such option.
pub proof fn parsed_run_takes_its_arguments(units: Seq<ArgUnit>)
    requires
        forall|k: int| 0 <= k < units.len() ==> valid_unit(#[trigger] units[k]),
    ensures
        spec_parse_args(units_tokens(units)) matches Ok(ParseView::Run(a)) ==> {
            &&& forall|j: int|
                0 <= j < units.len() && (forall|k: int|
                    j < k < units.len() ==> !(#[trigger] units[k] is Wxid)) ==> (
                #[trigger] units[j] matches ArgUnit::Wxid(_, v) ==> a.wxid == Some(v))
            &&& (forall|j: int| 0 <= j < units.len() ==> !(#[trigger] units[j] is Wxid)) ==> a.wxid
                is None
            &&& forall|j: int|
                0 <= j < units.len() ==> (#[trigger] units[j] matches ArgUnit::Path(p) ==> a.path
                    == p)
        },
{
    lemma_parse_units(units, initial_state());
    lemma_run_units_takes_arguments(units, initial_state());
}

/// `u` is `-q` or `--quiet`.
pub open spec fn is_quiet_unit(u: ArgUnit) -> bool {
    u matches ArgUnit::Level(f) && (f == "-q"@ || f == "--quiet"@)
}

/// `u` is a level option other than `-q`/`--quiet`: `-v` or `--verbose`.
pub open spec fn is_verbose_unit(u: ArgUnit) -> bool {
    u is Level && !is_quiet_unit(u)
}

/// How many units of `us` are paths.
pub open spec fn path_count(us: Seq<ArgUnit>) -> nat
    decreases us.len(),
{
    if us.len() == 0 {
        0
    } else {
        (if us[0] is Path {
            1nat
        } else {
            0nat
        }) + path_count(us.drop_first())
    }
}

/// Some unit of `us` is `-q`/`--quiet`.
pub open spec fn any_quiet(us: Seq<ArgUnit>) -> bool
    decreases us.len(),
{
    us.len() > 0 && (is_quiet_unit(us[0]) || any_quiet(us.drop_first()))
}

/// Some unit of `us` is `-v`/`--verbose`.
pub open spec fn any_verbose(us: Seq<ArgUnit>) -> bool
    decreases us.len(),
{
    us.len() > 0 && (is_verbose_unit(us[0]) || any_verbose(us.drop_first()))
}

proof fn lemma_run_units_outcome(us: Seq<ArgUnit>, st: ParseState)
    ensures
        ({
            let q = st.quiet || any_quiet(us);
            let v = st.verbose || any_verbose(us);
            let n = path_count(us) + if st.path is Some {
                1nat
            } else {
                0nat
            };
            &&& n >= 2 ==> run_units(us, st) == Err::<ParseView, ArgErrorView>(
                ArgErrorView::TooManyPaths,
            )
            &&& n == 0 ==> run_units(us, st) == Err::<ParseView, ArgErrorView>(
                if q && v {
                    ArgErrorView::QuietVerboseConflict
                } else {
                    ArgErrorView::MissingPath
                },
            )
            &&& n == 1 && q && v ==> run_units(us, st) == Err::<ParseView, ArgErrorView>(
                ArgErrorView::QuietVerboseConflict,
            )
            &&& n == 1 && !(q && v) ==> (run_units(us, st) matches Ok(ParseView::Run(a))
                && a.log_level == if q {
                LogLevel::Quiet
            } else if v {
                LogLevel::Verbose
            } else {
                LogLevel::Normal
            })
        }),
    decreases us.len(),
{
    if us.len() > 0 {
        let u = us[0];
        let rest = us.drop_first();
        match unit_step(u, st) {
            Err(_) => {},
            Ok(s) => {
                lemma_run_units_outcome(rest, s);
            },
        }
    }
}

/// The outcome of a command line made of paths, wxid options and level
/// options: more than one path is refused; without a path, the line is
/// refused as missing it (or as asking for both levels); with one path, it
/// runs at the level asked for, unless both `-q` and `-v` were given.
pub proof fn parse_outcome_by_arguments(units: Seq<ArgUnit>)
    requires
        forall|k: int| 0 <= k < units.len() ==> valid_unit(#[trigger] units[k]),
    ensures
        path_count(units) >= 2 ==> spec_parse_args(units_tokens(units)) == Err::<
            ParseView,
            ArgErrorView,
        >(ArgErrorView::TooManyPaths),
        path_count(units) == 0 ==> spec_parse_args(units_tokens(units)) == Err::<
            ParseView,
            ArgErrorView,
        >(
            if any_quiet(units) && any_verbose(units) {
                ArgErrorView::QuietVerboseConflict
            } else {
                ArgErrorView::MissingPath
            },
        ),
        path_count(units) == 1 && any_quiet(units) && any_verbose(units) ==> spec_parse_args(
            units_tokens(units),
        ) == Err::<ParseView, ArgErrorView>(ArgErrorView::QuietVerboseConflict),
        path_count(units) == 1 && !(any_quiet(units) && any_verbose(units)) ==> (spec_parse_args(
            units_tokens(units),
        ) matches Ok(ParseView::Run(a)) && a.log_level == if any_quiet(units) {
            LogLevel::Quiet
        } else if any_verbose(units) {
            LogLevel::Verbose
        } else {
            LogLevel::Normal
        }),
{
    lemma_parse_units(units, initial_state());
    lemma_run_units_outcome(units, initial_state());
}

/// A path followed by `-w`/`--wxid` and a value, or the option first, runs on
/// that path with exactly that value as the wxid, at the normal level.
pub proof fn path_and_wxid_run(p: Seq<char>, flag: Seq<char>, v: Seq<char>)
    requires
        !is_dash_arg(p),
        flag == "-w"@ || flag == "--wxid"@,
    ensures
        spec_parse_args(seq![p, flag, v]) == Ok::<ParseView, ArgErrorView>(
            ParseView::Run(ArgsView { path: p, wxid: Some(v), log_level: LogLevel::Normal }),
        ),
        spec_parse_args(seq![flag, v, p]) == Ok::<ParseView, ArgErrorView>(
            ParseView::Run(ArgsView { path: p, wxid: Some(v), log_level: LogLevel::Normal }),
        ),
{
    let a = seq![ArgUnit::Path(p), ArgUnit::Wxid(flag, v)];
    let b = seq![ArgUnit::Wxid(flag, v), ArgUnit::Path(p)];
    assert(units_tokens(a.drop_first().drop_first()) =~= Seq::<Seq<char>>::empty());
    assert(units_tokens(b.drop_first().drop_first()) =~= Seq::<Seq<char>>::empty());
    assert(units_tokens(a.drop_first()) =~= seq![flag, v]);
    assert(units_tokens(b.drop_first()) =~= seq![p]);
    assert(units_tokens(a) =~= seq![p, flag, v]);
    assert(units_tokens(b) =~= seq![flag, v, p]);
    assert(valid_unit(a[0]) && valid_unit(a[1]));
    assert(valid_unit(b[0]) && valid_unit(b[1]));
    lemma_parse_units(a, initial_state());
    lemma_parse_units(b, initial_state());
    assert(a.drop_first().drop_first().len() == 0);
    assert(b.drop_first().drop_first().len() == 0);
    reveal_with_fuel(run_units, 3);
}

/// The message shown for a refused command line.
pub open spec fn spec_arg_message(e: ArgErrorView) -> Seq<char> {
    match e {
        ArgErrorView::MissingWxidValue => "`-w/--wxid` 缺少参数"@,
        ArgErrorView::MissingTrailingPath => "`--` 后缺少 <path> 参数"@,
        ArgErrorView::TooManyPaths => "参数过多，仅支持一个 <path>"@,
        ArgErrorView::UnknownFlag(a) => "未知参数: "@ + a,
        ArgErrorView::QuietVerboseConflict => "`--quiet` 与 `--verbose` 不能同时使用"@,
        ArgErrorView::MissingPath => "缺少 <path> 参数"@,
    }
}

impl ArgError {
    /// The message shown for this error.
    pub fn message(&self) -> (m: String)
        ensures
            m@ == spec_arg_message(self@),
    {
        match self {
            ArgError::MissingWxidValue => String::from_str("`-w/--wxid` 缺少参数"),
            ArgError::MissingTrailingPath => String::from_str("`--` 后缺少 <path> 参数"),
            ArgError::TooManyPaths => String::from_str("参数过多，仅支持一个 <path>"),
            ArgError::UnknownFlag(a) => {
                let mut m = String::from_str("未知参数: ");
                m.append(a.as_str());
                m
            },
            ArgError::QuietVerboseConflict => String::from_str(
                "`--quiet` 与 `--verbose` 不能同时使用",
            ),
            ArgError::MissingPath => String::from_str("缺少 <path> 参数"),
        }
    }
}

/// How a run ended without error.
#[derive(Clone, Copy, Debug, PartialEq, Eq, Structural)]
pub enum Outcome {
    /// The packages were processed.
    Success,
    /// Usage was asked for and is to be shown.
    Usage,
}

/// What the path of a run turned out to be.
#[derive(Clone, Copy, Debug, PartialEq, Eq, Structural)]
pub enum PathKind {
    File,
    Dir,
    /// Missing, or neither a file nor a directory.
    Other,
}

/// The error for a path that is neither a file nor a directory.
pub open spec fn spec_unusable_path_message(path: Seq<char>) -> Seq<char> {
    "路径不存在或不可处理: "@ + path + "（仅支持文件或目录）"@
}

/// What a run ends with once its path has been inspected as `kind` and, for
/// a file or a directory, processed with result `processed`.
pub open spec fn spec_run_result(kind: PathKind, path: Seq<char>, processed: Result<(), String>) -> Result<
    Outcome,
    Seq<char>,
> {
    if kind == PathKind::Other {
        Err(spec_unusable_path_message(path))
    } else {
        match processed {
            Ok(_) => Ok(Outcome::Success),
            Err(e) => Err(e@),
        }
    }
}

pub open spec fn outcome_view(r: Result<Outcome, String>) -> Result<Outcome, Seq<char>> {
    match r {
        Ok(o) => Ok(o),
        Err(e) => Err(e@),
    }
}

/// Runs the tool on the command line `raw_args`: a refused command line
/// ends in its message, `--help` in [`Outcome::Usage`]; otherwise the path is
/// inspected with `inspect`, and a file or directory is handed with the
/// parsed arguments to `process`, which does the work.
pub fn run_with_args<I, P>(raw_args: Vec<String>, inspect: I, process: P) -> (r: Result<
    Outcome,
    String,
>) where I: Fn(&String) -> PathKind, P: FnOnce(Args, PathKind) -> Result<(), String>
    requires
        forall|p: &String| call_requires(inspect, (p,)),
        forall|a: Args, k: PathKind| call_requires(process, (a, k)),
    ensures
        match spec_parse_args(raw_args.deep_view()) {
            Err(e) => r matches Err(m) && m@ == spec_arg_message(e),
            Ok(ParseView::Help) => r == Ok::<Outcome, String>(Outcome::Usage),
            Ok(ParseView::Run(av)) => exists|a: Args, k: PathKind, processed: Result<(), String>|
                #![trigger call_ensures(inspect, (&a.path,), k), spec_run_result(k, av.path, processed)]
                {
                    &&& a@ == av
                    &&& call_ensures(inspect, (&a.path,), k)
                    &&& (k != PathKind::Other ==> call_ensures(process, (a, k), processed))
                    &&& outcome_view(r) == spec_run_result(k, av.path, processed)
                },
        },
{
    let ghost arg_seq = raw_args.deep_view();
    let parsed = match parse_args_from(raw_args) {
        Ok(p) => p,
        Err(e) => return Err(e.message()),
    };
    match parsed {
        ParseArgs::Help => Ok(Outcome::Usage),
        ParseArgs::Run(args) => {
            let ghost a = args;
            assert(spec_parse_args(arg_seq) == Ok::<ParseView, ArgErrorView>(ParseView::Run(a@)));
            let kind = inspect(&args.path);
            if kind == PathKind::Other {
                let mut m = String::from_str("路径不存在或不可处理: ");
                m.append(args.path.as_str());
                m.append("（仅支持文件或目录）");
                let ghost processed = Ok::<(), String>(());
                assert(outcome_view(Err(m)) == spec_run_result(kind, a@.path, processed));
                return Err(m);
            }
            let processed = process(args, kind);
            assert(outcome_view(
                match processed {
                    Ok(()) => Ok(Outcome::Success),
                    Err(e) => Err(e),
                },
            ) == spec_run_result(kind, a@.path, processed));
            match processed {
                Ok(()) => Ok(Outcome::Success),
                Err(e) => Err(e),
            }
        },
    }
}

/// First byte of an unencrypted package.
pub const WXAPKG_MAGIC: u8 = 0xBE;

/// A package whose first byte is `first_byte` must be decrypted before it is
/// unpacked.
pub fn needs_decrypt(first_byte: u8) -> (r: bool)
    ensures
        r == (first_byte != WXAPKG_MAGIC),
{
    first_byte != WXAPKG_MAGIC
}

/// The lower-case form of an ASCII letter; other characters are unchanged.
pub open spec fn ascii_lower(c: char) -> char {
    if 'A' <= c <= 'Z' {
        ((c as u32) + 32) as char
    } else {
        c
    }
}

/// The file name `name` has the extension `wxapkg`, in any ASCII case: it
/// ends in `.wxapkg` with at least one character before the dot.
pub open spec fn spec_is_wxapkg_name(name: Seq<char>) -> bool {
    let n = name.len();
    &&& n >= 8
    &&& name[n - 7] == '.'
    &&& ascii_lower(name[n - 6]) == 'w'
    &&& ascii_lower(name[n - 5]) == 'x'
    &&& ascii_lower(name[n - 4]) == 'a'
    &&& ascii_lower(name[n - 3]) == 'p'
    &&& ascii_lower(name[n - 2]) == 'k'
    &&& ascii_lower(name[n - 1]) == 'g'
}

/// A file name of at least one character followed by `.wxapkg`, in lower or
/// upper case, names a package; `.wxapkg` alone does not, and nor does any
/// name with `_decrypt` after it.
pub proof fn package_names(stem: Seq<char>, name: Seq<char>)
    requires
        stem.len() >= 1,
    ensures
        spec_is_wxapkg_name(stem + ".wxapkg"@),
        spec_is_wxapkg_name(stem + ".WXAPKG"@),
        !spec_is_wxapkg_name(".wxapkg"@),
        !spec_is_wxapkg_name(name + "_decrypt"@),
{
    reveal_strlit(".wxapkg");
    reveal_strlit(".WXAPKG");
    reveal_strlit("_decrypt");
    let a = stem + ".wxapkg"@;
    let b = stem + ".WXAPKG"@;
    let n: int = stem.len() as int;
    assert(a.len() == n + 7 && b.len() == n + 7);
    assert(a[n] == '.' && a[n + 1] == 'w' && a[n + 2] == 'x' && a[n + 3] == 'a' && a[n + 4] == 'p'
        && a[n + 5] == 'k' && a[n + 6] == 'g');
    assert(b[n] == '.' && b[n + 1] == 'W' && b[n + 2] == 'X' && b[n + 3] == 'A' && b[n + 4] == 'P'
        && b[n + 5] == 'K' && b[n + 6] == 'G');
    assert(ascii_lower('W') == 'w');
    assert(ascii_lower('X') == 'x');
    assert(ascii_lower('A') == 'a');
    assert(ascii_lower('P') == 'p');
    assert(ascii_lower('K') == 'k');
    assert(ascii_lower('G') == 'g');
    let c = name + "_decrypt"@;
    assert(c[c.len() - 1] == 't');
}

fn lower(c: char) -> (r: char)
    ensures
        r == ascii_lower(c),
{
    if 'A' <= c && c <= 'Z' {
        ((c as u8) + 32) as char
    } else {
        c
    }
}

/// Whether the file called `file_name` (one path component, as a directory
/// listing gives it) is a package: its extension, what follows its last dot
/// when something precedes that dot, is `wxapkg` in any ASCII case.
pub fn is_wxapkg_file(file_name: &str) -> (r: bool)
    ensures
        r == spec_is_wxapkg_name(file_name@),
{
    let v = chars_of(file_name);
    let n = v.len();
    n >= 8 && v[n - 7] == '.' && lower(v[n - 6]) == 'w' && lower(v[n - 5]) == 'x' && lower(
        v[n - 4],
    ) == 'a' && lower(v[n - 3]) == 'p' && lower(v[n - 2]) == 'k' && lower(v[n - 1]) == 'g'
}

/// `a` comes before `b` or equals it in lexicographic character order, the
/// order of `str::cmp` (UTF-8 byte order follows code point order).
pub open spec fn lex_le(a: Seq<char>, b: Seq<char>) -> bool
    decreases a.len(),
{
    if a.len() == 0 {
        true
    } else if b.len() == 0 {
        false
    } else if a[0] != b[0] {
        a[0] < b[0]
    } else {
        lex_le(a.drop_first(), b.drop_first())
    }
}

proof fn lemma_lex_transitive(a: Seq<char>, b: Seq<char>, c: Seq<char>)
    requires
        lex_le(a, b),
        lex_le(b, c),
    ensures
        lex_le(a, c),
    decreases a.len(),
{
    if a.len() > 0 && b.len() > 0 && c.len() > 0 && a[0] == b[0] && b[0] == c[0] {
        lemma_lex_transitive(a.drop_first(), b.drop_first(), c.drop_first());
    }
}

proof fn lemma_lex_total(a: Seq<char>, b: Seq<char>)
    ensures
        lex_le(a, b) || lex_le(b, a),
        lex_le(a, b) && lex_le(b, a) ==> a == b,
    decreases a.len(),
{
    if a.len() > 0 && b.len() > 0 && a[0] == b[0] {
        lemma_lex_total(a.drop_first(), b.drop_first());
        if lex_le(a, b) && lex_le(b, a) {
            assert(a =~= seq![a[0]] + a.drop_first());
            assert(b =~= seq![b[0]] + b.drop_first());
        }
    } else if a.len() == 0 && b.len() == 0 {
        assert(a =~= b);
    }
}

/// Whether `a` comes before `b` or equals it in character order.
pub fn str_le(a: &str, b: &str) -> (r: bool)
    ensures
        r == lex_le(a@, b@),
{
    let x = chars_of(a);
    let y = chars_of(b);
    let mut i: usize = 0;
    assert(x@.skip(0) =~= x@);
    assert(y@.skip(0) =~= y@);
    while i < x.len() && i < y.len() && x[i] == y[i]
        invariant
            x@ == a@,
            y@ == b@,
            i <= x@.len(),
            i <= y@.len(),
            lex_le(a@, b@) == lex_le(x@.skip(i as int), y@.skip(i as int)),
        decreases x@.len() - i,
    {
        assert(x@.skip(i as int).drop_first() =~= x@.skip(i + 1));
        assert(y@.skip(i as int).drop_first() =~= y@.skip(i + 1));
        i = i + 1;
    }
    if i == x.len() {
        true
    } else if i == y.len() {
        false
    } else {
        x[i] < y[i]
    }
}

/// `order` lists positions of `keys` so that their keys ascend in character
/// order, equal keys keeping their relative order.
pub open spec fn sorted_stably(keys: Seq<Seq<char>>, order: Seq<usize>) -> bool {
    &&& forall|j: int, l: int|
        0 <= j < l < order.len() ==> lex_le(
            keys[order[j] as int],
            keys[order[l] as int],
        )
    &&& forall|j: int, l: int|
        0 <= j < l < order.len() && #[trigger] keys[order[j] as int] == #[trigger] keys[order[l] as int]
            ==> order[j] < order[l]
}

/// `order` holds each position below `n` exactly once.
pub open spec fn is_permutation_of_range(order: Seq<usize>, n: nat) -> bool {
    &&& order.len() == n
    &&& forall|j: int| 0 <= j < order.len() ==> #[trigger] order[j] < n
    &&& forall|j: int, l: int| 0 <= j < l < order.len() ==> order[j] != order[l]
}

pub open spec fn string_views(v: Seq<String>) -> Seq<Seq<char>> {
    v.map_values(|s: String| s@)
}

/// The order in which items with the given sort keys are processed: by key
/// in character order, items with equal keys in the order they were given (the
/// stable order of `sort_by` with `str::cmp`).
pub fn sorted_order(keys: &Vec<String>) -> (order: Vec<usize>)
    ensures
        is_permutation_of_range(order@, keys@.len()),
        sorted_stably(string_views(keys@), order@),
{
    let ghost ks = string_views(keys@);
    let mut order: Vec<usize> = Vec::new();
    let n = keys.len();
    for i in 0..n
        invariant
            n == keys@.len(),
            ks == string_views(keys@),
            is_permutation_of_range(order@, i as nat),
            sorted_stably(ks, order@),
    {
        let key = keys[i].as_str();
        let mut p = order.len();
        while p > 0 && !str_le(keys[order[p - 1]].as_str(), key)
            invariant
                p <= order@.len() == i,
                n == keys@.len(),
                i < n,
                key@ == ks[i as int],
                ks == string_views(keys@),
                is_permutation_of_range(order@, i as nat),
                forall|l: int| p <= l < order@.len() ==> !lex_le(ks[order@[l] as int], ks[i as int]),
            decreases p,
        {
            p = p - 1;
        }
        proof {
            if p > 0 {
                assert(lex_le(ks[order@[p - 1] as int], ks[i as int]));
                assert forall|j: int| 0 <= j < p implies lex_le(ks[order@[j] as int], ks[i as int]) by {
                    if j < p - 1 {
                        lemma_lex_transitive(
                            ks[order@[j] as int],
                            ks[order@[p - 1] as int],
                            ks[i as int],
                        );
                    }
                }
            }
            assert forall|l: int| p <= l < order@.len() implies lex_le(ks[i as int], ks[order@[l] as int])
                && ks[i as int] != ks[order@[l] as int] by {
                lemma_lex_total(ks[i as int], ks[order@[l] as int]);
            }
        }
        let ghost old_order = order@;
        order.insert(p, i);
        proof {
            assert(order@ =~= old_order.insert(p as int, i));
        }
    }
    order
}

/// The error for an encrypted package whose wxid is unknown.
pub open spec fn spec_unknown_wxid_message(path: Seq<char>) -> Seq<char> {
    path
        + " 已加密，但无法识别 wxid。请用 -w <wxid> 指定，或保留原始 .../packages/{wxid}/{n}/__APP__.wxapkg 路径运行"@
}

/// The wxid for decrypting the package at `raw_from`: the one given on the
/// command line, else the one that the normalized path names.
pub fn resolve_wxid(raw_from: &str, wxid_arg: Option<String>) -> (r: Result<String, String>)
    ensures
        match wxid_arg {
            Some(w) => r matches Ok(x) && x@ == w@,
            None => match spec_get_wxid(spec_format_from(raw_from@)) {
                Some(w) => r matches Ok(x) && x@ == w,
                None => r matches Err(m) && m@ == spec_unknown_wxid_message(raw_from@),
            },
        },
{
    match wxid_arg {
        Some(w) => Ok(w),
        None => {
            let normalized = format_from(raw_from);
            match get_wxid(normalized.as_str()) {
                Some(w) => Ok(w),
                None => {
                    let mut m = String::from_str(raw_from);
                    m.append(
                        " 已加密，但无法识别 wxid。请用 -w <wxid> 指定，或保留原始 .../packages/{wxid}/{n}/__APP__.wxapkg 路径运行",
                    );
                    Err(m)
                },
            }
        },
    }
}

/// What the search of directory `dir` reports when it found `count`
/// packages: an error when there are none.
pub open spec fn spec_scan_report(dir: Seq<char>, count: nat) -> Result<Seq<char>, Seq<char>> {
    if count == 0 {
        Err("目录 "@ + dir + " 下未找到 .wxapkg 文件"@)
    } else {
        Ok("目录 "@ + dir + " 下找到 "@ + decimal(count) + " 个 .wxapkg 文件"@)
    }
}

pub open spec fn report_view(r: Result<String, String>) -> Result<Seq<char>, Seq<char>> {
    match r {
        Ok(s) => Ok(s@),
        Err(e) => Err(e@),
    }
}

/// The report on searching directory `dir` (as displayed) and finding
/// `count` packages.
pub fn scan_report(dir: &str, count: usize) -> (r: Result<String, String>)
    ensures
        report_view(r) == spec_scan_report(dir@, count as nat),
{
    let mut m = String::from_str("目录 ");
    m.append(dir);
    if count == 0 {
        m.append(" 下未找到 .wxapkg 文件");
        Err(m)
    } else {
        m.append(" 下找到 ");
        push_decimal(&mut m, count as u64);
        m.append(" 个 .wxapkg 文件");
        Ok(m)
    }
}

/// Failures listed one by one in a batch report.
pub const MAX_LISTED_FAILURES: usize = 5;

/// The report line of the failure at position `idx`.
pub open spec fn failure_line(idx: nat, path: Seq<char>, err: Seq<char>) -> Seq<char> {
    "\n"@ + decimal(idx + 1) + ". "@ + path + ": "@ + err
}

/// The report lines of the first `n` failures.
pub open spec fn failure_lines(failures: Seq<(String, String)>, n: nat) -> Seq<char>
    decreases n,
{
    if n == 0 {
        Seq::empty()
    } else {
        failure_lines(failures, (n - 1) as nat) + failure_line(
            (n - 1) as nat,
            failures[n - 1].0@,
            failures[n - 1].1@,
        )
    }
}

/// The report on a batch of `total` packages of which `failures` (path and
/// error of each) failed: a success message when none failed, else an error
/// counting both, listing the first five failures and the number of others.
pub open spec fn spec_batch_summary(total: nat, failures: Seq<(String, String)>) -> Result<
    Seq<char>,
    Seq<char>,
> {
    let f = failures.len();
    if f == 0 {
        Ok("批量处理完成: 成功 "@ + decimal(total) + "，失败 0"@)
    } else {
        let listed = if f > MAX_LISTED_FAILURES {
            MAX_LISTED_FAILURES as nat
        } else {
            f
        };
        let rest = if f > MAX_LISTED_FAILURES {
            "\n... 其余 "@ + decimal((f - MAX_LISTED_FAILURES) as nat)
                + " 个失败请开启 --verbose 逐个排查"@
        } else {
            Seq::empty()
        };
        Err(
            "批量处理完成: 成功 "@ + decimal((total - f) as nat) + "，失败 "@ + decimal(f)
                + failure_lines(failures, listed) + rest,
        )
    }
}

/// The report on a batch of `total` packages with the given failures.
pub fn summarize_batch(total: usize, failures: &Vec<(String, String)>) -> (r: Result<
    String,
    String,
>)
    requires
        failures@.len() <= total,
    ensures
        report_view(r) == spec_batch_summary(total as nat, failures@),
{
    let f = failures.len();
    let mut m = String::from_str("批量处理完成: 成功 ");
    if f == 0 {
        push_decimal(&mut m, total as u64);
        m.append("，失败 0");
        return Ok(m);
    }
    push_decimal(&mut m, (total - f) as u64);
    m.append("，失败 ");
    push_decimal(&mut m, f as u64);
    let listed = if f > MAX_LISTED_FAILURES {
        MAX_LISTED_FAILURES
    } else {
        f
    };
    let ghost head = m@;
    let mut idx: usize = 0;
    while idx < listed
        invariant
            listed <= f == failures@.len(),
            idx <= listed,
            listed <= MAX_LISTED_FAILURES,
            m@ == head + failure_lines(failures@, idx as nat),
        decreases listed - idx,
    {
        m.append("\n");
        push_decimal(&mut m, (idx + 1) as u64);
        m.append(". ");
        m.append(failures[idx].0.as_str());
        m.append(": ");
        m.append(failures[idx].1.as_str());
        idx = idx + 1;
    }
    let ghost listed_part = m@;
    if f > MAX_LISTED_FAILURES {
        m.append("\n... 其余 ");
        push_decimal(&mut m, (f - MAX_LISTED_FAILURES) as u64);
        m.append(" 个失败请开启 --verbose 逐个排查");
        assert(m@ =~= listed_part + ("\n... 其余 "@ + decimal((f - MAX_LISTED_FAILURES) as nat)
            + " 个失败请开启 --verbose 逐个排查"@));
    } else {
        assert(m@ =~= listed_part + Seq::<char>::empty());
    }
    Err(m)
}

/// A run on a file or a directory ends as its processing does: a processing
/// error is the run's error, unchanged, and a processing that succeeds is a
/// successful run. A path that is neither is refused, whatever processing
/// would have given.
pub proof fn run_outcome_follows_processing(
    kind: PathKind,
    path: Seq<char>,
    processed: Result<(), String>,
    other: Result<(), String>,
)
    ensures
        kind != PathKind::Other ==> (processed matches Err(e) ==> spec_run_result(
            kind,
            path,
            processed,
        ) == Err::<Outcome, Seq<char>>(e@)),
        kind != PathKind::Other ==> (processed is Ok ==> spec_run_result(kind, path, processed)
            == Ok::<Outcome, Seq<char>>(Outcome::Success)),
        kind == PathKind::Other ==> spec_run_result(kind, path, processed) is Err
            && spec_run_result(kind, path, processed) == spec_run_result(kind, path, other),
{
}

/// Finding packages in a directory is reported with the directory and the
/// count found; only finding none is an error.
pub proof fn scan_fails_only_when_none_found(dir: Seq<char>, count: nat)
    ensures
        spec_scan_report(dir, count) is Err <==> count == 0,
        spec_scan_report(dir, count) matches Ok(m) ==> m.subrange(3, 3int + dir.len()) == dir
            && m.subrange(8int + dir.len(), 8int + dir.len() + decimal(count).len()) == decimal(count),
        spec_scan_report(dir, count) matches Err(m) ==> m.subrange(3, 3int + dir.len()) == dir,
{
    reveal_strlit("目录 ");
    reveal_strlit(" 下找到 ");
    if count > 0 {
        let m = "目录 "@ + dir + " 下找到 "@ + decimal(count) + " 个 .wxapkg 文件"@;
        assert(m.subrange(3, 3int + dir.len()) =~= dir);
        assert(m.subrange(8int + dir.len(), 8int + dir.len() + decimal(count).len()) =~= decimal(count));
    } else {
        let m = "目录 "@ + dir + " 下未找到 .wxapkg 文件"@;
        assert(m.subrange(3, 3int + dir.len()) =~= dir);
    }
}

/// `part` occurs in `m`.
pub open spec fn holds_part(m: Seq<char>, part: Seq<char>) -> bool {
    exists|o: int| 0 <= o && o + part.len() <= m.len() && #[trigger] m.subrange(o, o + part.len()) == part
}

proof fn lemma_failure_line_in_lines(fs: Seq<(String, String)>, i: nat, n: nat)
    requires
        i < n <= fs.len(),
    ensures
        failure_lines(fs, i).len() + failure_line(i, fs[i as int].0@, fs[i as int].1@).len()
            <= failure_lines(fs, n).len(),
        failure_lines(fs, n).subrange(
            failure_lines(fs, i).len() as int,
            failure_lines(fs, i).len() as int + failure_line(i, fs[i as int].0@, fs[i as int].1@).len(),
        ) == failure_line(i, fs[i as int].0@, fs[i as int].1@),
    decreases n,
{
    let prev = failure_lines(fs, (n - 1) as nat);
    let line = failure_line(i, fs[i as int].0@, fs[i as int].1@);
    let start = failure_lines(fs, i).len() as int;
    if i == n - 1 {
        assert(failure_lines(fs, n).subrange(start, start + line.len()) =~= line);
    } else {
        lemma_failure_line_in_lines(fs, i, (n - 1) as nat);
        assert(failure_lines(fs, n).subrange(start, start + line.len()) =~= prev.subrange(
            start,
            start + line.len(),
        ));
    }
}

/// A batch succeeds only when nothing in it failed. A batch with failures is
/// an error that counts the packages done and failed and lists each of the
/// first five failures, with its path and error.
pub proof fn batch_with_failures_lists_them(total: nat, failures: Seq<(String, String)>)
    requires
        failures.len() <= total,
    ensures
        spec_batch_summary(total, failures) is Ok <==> failures.len() == 0,
        spec_batch_summary(total, failures) matches Ok(m) ==> m == "批量处理完成: 成功 "@ + decimal(
            total,
        ) + "，失败 "@ + decimal(failures.len()),
        spec_batch_summary(total, failures) matches Err(m) ==> {
            let head = "批量处理完成: 成功 "@ + decimal((total - failures.len()) as nat) + "，失败 "@
                + decimal(failures.len());
            &&& m.take(head.len() as int) == head
            &&& forall|i: nat|
                i < failures.len() && i < MAX_LISTED_FAILURES ==> holds_part(
                    m,
                    #[trigger] failure_line(i, failures[i as int].0@, failures[i as int].1@),
                )
        },
{
    let f = failures.len();
    if f == 0 {
        reveal_strlit("，失败 0");
        reveal_strlit("，失败 ");
        assert(decimal(0) =~= seq!['0']);
        assert("，失败 "@ + decimal(0) =~= "，失败 0"@);
        assert("批量处理完成: 成功 "@ + decimal(total) + "，失败 0"@ =~= "批量处理完成: 成功 "@
            + decimal(total) + ("，失败 "@ + decimal(0)));
    }
    if f > 0 {
        let head = "批量处理完成: 成功 "@ + decimal((total - f) as nat) + "，失败 "@ + decimal(f);
        let listed: nat = if f > MAX_LISTED_FAILURES {
            MAX_LISTED_FAILURES as nat
        } else {
            f
        };
        let rest = if f > MAX_LISTED_FAILURES {
            "\n... 其余 "@ + decimal((f - MAX_LISTED_FAILURES) as nat)
                + " 个失败请开启 --verbose 逐个排查"@
        } else {
            Seq::empty()
        };
        let lines = failure_lines(failures, listed);
        let m = head + lines + rest;
        assert(spec_batch_summary(total, failures) == Err::<Seq<char>, Seq<char>>(m));
        assert(m.take(head.len() as int) =~= head);
        assert forall|i: nat| i < f && i < MAX_LISTED_FAILURES implies holds_part(
            m,
            #[trigger] failure_line(i, failures[i as int].0@, failures[i as int].1@),
        ) by {
            let line = failure_line(i, failures[i as int].0@, failures[i as int].1@);
            lemma_failure_line_in_lines(failures, i, listed);
            let o: int = head.len() as int + failure_lines(failures, i).len();
            assert(lines.subrange(o - head.len(), o - head.len() + line.len()) == line);
            assert(m.subrange(o, o + line.len()) =~= lines.subrange(
                o - head.len(),
                o - head.len() + line.len(),
            ));
            assert(0 <= o && o + line.len() <= m.len());
            assert(m.subrange(o, o + line.len()) == line);
        }
    }
}

} // verus!
