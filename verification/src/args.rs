//! The command line.

use crate::ast::{grouped, texts, Query, QueryView};
use crate::json::push_text;
use crate::output::{format_named, Format};
use crate::text::{chars_of, same_text, string_between, string_of};
use vstd::prelude::*;

verus! {

/// What records are read from.
#[derive(Debug, PartialEq, Eq)]
pub enum Input {
    Stdin,
    File(String),
}

/// What an input holds.
#[verifier::ext_equal]
pub enum InputView {
    Stdin,
    File(Seq<char>),
}

impl View for Input {
    type V = InputView;

    open spec fn view(&self) -> InputView {
        match self {
            Input::Stdin => InputView::Stdin,
            Input::File(p) => InputView::File(p@),
        }
    }
}

/// What a list of inputs holds.
pub open spec fn inputs_view(inputs: Seq<Input>) -> Seq<InputView> {
    Seq::new(inputs.len(), |i: int| inputs[i]@)
}

/// What a command line asks for.
#[derive(Debug)]
pub struct Options {
    pub query: String,
    pub inputs: Vec<Input>,
    pub format: Format,
    /// The regular expression that plain-text lines are read with.
    pub pattern: Option<String>,
    pub follow: bool,
    pub quiet: bool,
}

/// What options hold.
#[verifier::ext_equal]
pub struct OptionsView {
    pub query: Seq<char>,
    pub inputs: Seq<InputView>,
    pub format: Format,
    pub pattern: Option<Seq<char>>,
    pub follow: bool,
    pub quiet: bool,
}

/// The view of an optional text.
pub open spec fn text_opt(t: Option<String>) -> Option<Seq<char>> {
    match t {
        Some(s) => Some(s@),
        None => None,
    }
}

impl View for Options {
    type V = OptionsView;

    open spec fn view(&self) -> OptionsView {
        OptionsView {
            query: self.query@,
            inputs: inputs_view(self.inputs@),
            format: self.format,
            pattern: text_opt(self.pattern),
            follow: self.follow,
            quiet: self.quiet,
        }
    }
}

/// What to do: show something and end, or run a query.
#[derive(Debug)]
pub enum Command {
    Help,
    Version,
    Run(Options),
}

/// What a command holds.
#[verifier::ext_equal]
pub enum CommandView {
    Help,
    Version,
    Run(OptionsView),
}

impl View for Command {
    type V = CommandView;

    open spec fn view(&self) -> CommandView {
        match self {
            Command::Help => CommandView::Help,
            Command::Version => CommandView::Version,
            Command::Run(o) => CommandView::Run(o@),
        }
    }
}

/// What is wrong with a command line.
#[derive(Debug, PartialEq, Eq)]
pub enum ArgsError {
    /// The format option stands last.
    FormatMissing(String),
    /// The pattern option stands last.
    PatternMissing(String),
    UnknownFormat(String),
    UnknownOption(String),
    NoQuery,
    FollowInputs,
    FollowStdin,
}

/// What an error holds.
#[verifier::ext_equal]
pub enum ArgsFault {
    FormatMissing(Seq<char>),
    PatternMissing(Seq<char>),
    UnknownFormat(Seq<char>),
    UnknownOption(Seq<char>),
    NoQuery,
    FollowInputs,
    FollowStdin,
}

impl View for ArgsError {
    type V = ArgsFault;

    open spec fn view(&self) -> ArgsFault {
        match self {
            ArgsError::FormatMissing(s) => ArgsFault::FormatMissing(s@),
            ArgsError::PatternMissing(s) => ArgsFault::PatternMissing(s@),
            ArgsError::UnknownFormat(s) => ArgsFault::UnknownFormat(s@),
            ArgsError::UnknownOption(s) => ArgsFault::UnknownOption(s@),
            ArgsError::NoQuery => ArgsFault::NoQuery,
            ArgsError::FollowInputs => ArgsFault::FollowInputs,
            ArgsError::FollowStdin => ArgsFault::FollowStdin,
        }
    }
}

/// The message of an error.
pub open spec fn fault_text(f: ArgsFault) -> Seq<char> {
    match f {
        ArgsFault::FormatMissing(arg) => arg + " needs a value: table, json, csv, or markdown"@,
        ArgsFault::PatternMissing(arg) => arg + " needs a value: a regular expression"@,
        ArgsFault::UnknownFormat(name) => "unknown format `"@ + name
            + "`; use table, json, csv, or markdown"@,
        ArgsFault::UnknownOption(arg) => "unknown option `"@ + arg + "`"@,
        ArgsFault::NoQuery => "no query given"@,
        ArgsFault::FollowInputs => "--follow takes exactly one file"@,
        ArgsFault::FollowStdin =>
            "--follow needs a file; standard input is already a stream"@,
    }
}

/// Whether the usage is shown below the message of an error.
pub open spec fn shows_usage(f: ArgsFault) -> bool {
    f is UnknownOption || f is NoQuery
}

impl ArgsError {
    /// The message.
    pub fn to_string(&self) -> (r: String)
        ensures
            r@ == fault_text(self@),
    {
        let mut out: Vec<char> = Vec::new();
        match self {
            ArgsError::FormatMissing(arg) => {
                push_text(&mut out, arg.as_str());
                push_text(&mut out, " needs a value: table, json, csv, or markdown");
            },
            ArgsError::PatternMissing(arg) => {
                push_text(&mut out, arg.as_str());
                push_text(&mut out, " needs a value: a regular expression");
            },
            ArgsError::UnknownFormat(name) => {
                push_text(&mut out, "unknown format `");
                push_text(&mut out, name.as_str());
                push_text(&mut out, "`; use table, json, csv, or markdown");
            },
            ArgsError::UnknownOption(arg) => {
                push_text(&mut out, "unknown option `");
                push_text(&mut out, arg.as_str());
                push_text(&mut out, "`");
            },
            ArgsError::NoQuery => push_text(&mut out, "no query given"),
            ArgsError::FollowInputs => push_text(&mut out, "--follow takes exactly one file"),
            ArgsError::FollowStdin => push_text(
                &mut out,
                "--follow needs a file; standard input is already a stream",
            ),
        }
        assert(out@ =~= fault_text(self@));
        string_of(&out)
    }

    /// Whether the usage is shown below the message.
    pub fn wants_usage(&self) -> (r: bool)
        ensures
            r == shows_usage(self@),
    {
        match self {
            ArgsError::UnknownOption(_) => true,
            ArgsError::NoQuery => true,
            _ => false,
        }
    }
}

/// What was read of a command line so far.
#[verifier::ext_equal]
pub struct Reading {
    pub query: Option<Seq<char>>,
    pub inputs: Seq<InputView>,
    pub format: Format,
    pub pattern: Option<Seq<char>>,
    pub follow: bool,
    pub quiet: bool,
    /// Whether everything from here on is an operand.
    pub operands: bool,
}

/// Before the first argument.
pub open spec fn unread() -> Reading {
    Reading {
        query: None,
        inputs: Seq::empty(),
        format: Format::Table,
        pattern: None,
        follow: false,
        quiet: false,
        operands: false,
    }
}

/// Whether a text starts with another.
pub open spec fn starts_with(s: Seq<char>, head: Seq<char>) -> bool {
    s.len() >= head.len() && s.subrange(0, head.len() as int) == head
}

/// What stands behind the first `n` characters.
pub open spec fn behind(s: Seq<char>, n: nat) -> Seq<char> {
    s.subrange(n as int, s.len() as int)
}

/// An operand read: the first is the query, the others are inputs.
pub open spec fn with_operand(r: Reading, arg: Seq<char>) -> Reading {
    if r.query is None {
        Reading { query: Some(arg), ..r }
    } else if arg == "-"@ {
        Reading { inputs: r.inputs.push(InputView::Stdin), ..r }
    } else {
        Reading { inputs: r.inputs.push(InputView::File(arg)), ..r }
    }
}

/// Whether an argument is an operand rather than an option.
pub open spec fn is_operand(r: Reading, arg: Seq<char>) -> bool {
    r.operands || !(arg.len() > 0 && arg[0] == '-') || arg == "-"@
}

/// The command line from the argument `i` on.
pub open spec fn read_from(
    args: Seq<Seq<char>>,
    i: int,
    r: Reading,
) -> Result<CommandView, ArgsFault>
    decreases args.len() - i,
{
    if !(0 <= i < args.len()) {
        settled(r)
    } else {
        let arg = args[i];
        if is_operand(r, arg) {
            read_from(args, i + 1, with_operand(r, arg))
        } else if arg == "--"@ {
            read_from(args, i + 1, Reading { operands: true, ..r })
        } else if arg == "-h"@ || arg == "--help"@ {
            Ok(CommandView::Help)
        } else if arg == "-V"@ || arg == "--version"@ {
            Ok(CommandView::Version)
        } else if arg == "-F"@ || arg == "--follow"@ {
            read_from(args, i + 1, Reading { follow: true, ..r })
        } else if arg == "-q"@ || arg == "--quiet"@ {
            read_from(args, i + 1, Reading { quiet: true, ..r })
        } else if arg == "-f"@ || arg == "--format"@ {
            if i + 1 >= args.len() {
                Err(ArgsFault::FormatMissing(arg))
            } else {
                match format_named(args[i + 1]) {
                    Some(format) => read_from(args, i + 2, Reading { format, ..r }),
                    None => Err(ArgsFault::UnknownFormat(args[i + 1])),
                }
            }
        } else if arg == "-p"@ || arg == "--pattern"@ {
            if i + 1 >= args.len() {
                Err(ArgsFault::PatternMissing(arg))
            } else {
                read_from(args, i + 2, Reading { pattern: Some(args[i + 1]), ..r })
            }
        } else if starts_with(arg, "--format="@) {
            match format_named(behind(arg, "--format="@.len())) {
                Some(format) => read_from(args, i + 1, Reading { format, ..r }),
                None => Err(ArgsFault::UnknownFormat(behind(arg, "--format="@.len()))),
            }
        } else if starts_with(arg, "--pattern="@) {
            read_from(
                args,
                i + 1,
                Reading { pattern: Some(behind(arg, "--pattern="@.len())), ..r },
            )
        } else {
            Err(ArgsFault::UnknownOption(arg))
        }
    }
}

/// What a command line comes to once all of it was read. Without a file the
/// standard input is read; following takes exactly one file.
pub open spec fn settled(r: Reading) -> Result<CommandView, ArgsFault> {
    match r.query {
        None => Err(ArgsFault::NoQuery),
        Some(query) => {
            let inputs = if r.inputs.len() == 0 {
                seq![InputView::Stdin]
            } else {
                r.inputs
            };
            if r.follow && inputs.len() != 1 {
                Err(ArgsFault::FollowInputs)
            } else if r.follow && inputs[0] is Stdin {
                Err(ArgsFault::FollowStdin)
            } else {
                Ok(
                    CommandView::Run(
                        OptionsView {
                            query,
                            inputs,
                            format: r.format,
                            pattern: r.pattern,
                            follow: r.follow,
                            quiet: r.quiet,
                        },
                    ),
                )
            }
        },
    }
}

fn is(a: &String, word: &str) -> (r: bool)
    ensures
        r == (a@ == word@),
{
    same_text(a.as_str(), word)
}

/// What stands behind `head`, where an argument starts with it.
fn rest_behind(arg: &String, head: &str) -> (r: Option<String>)
    ensures
        match r {
            Some(s) => starts_with(arg@, head@) && s@ == behind(arg@, head@.len()),
            None => !starts_with(arg@, head@),
        },
{
    let a = chars_of(arg.as_str());
    let h = chars_of(head);
    if a.len() < h.len() {
        return None;
    }
    let mut i: usize = 0;
    while i < h.len()
        invariant
            i <= h@.len() <= a@.len(),
            a@ == arg@,
            h@ == head@,
            forall|j: int| 0 <= j < i ==> a@[j] == h@[j],
        decreases h.len() - i,
    {
        if a[i] != h[i] {
            assert(arg@.subrange(0, head@.len() as int)[i as int] != head@[i as int]);
            return None;
        }
        i += 1;
    }
    assert(arg@.subrange(0, head@.len() as int) =~= head@);
    Some(string_between(&a, h.len(), a.len()))
}

fn operand(arg: &String, only: bool) -> (r: bool)
    ensures
        r == (only || !(arg@.len() > 0 && arg@[0] == '-') || arg@ == "-"@),
{
    let chars = chars_of(arg.as_str());
    only || chars.len() == 0 || chars[0] != '-' || is(arg, "-")
}

/// Reads a command line.
pub fn command_line(args: &[String]) -> (r: Result<Command, ArgsError>)
    ensures
        match r {
            Ok(c) => read_from(texts(args@), 0, unread()) == Ok::<CommandView, ArgsFault>(c@),
            Err(e) => read_from(texts(args@), 0, unread()) == Err::<CommandView, ArgsFault>(e@),
        },
{
    let mut query: Option<String> = None;
    let mut inputs: Vec<Input> = Vec::new();
    let mut format = Format::Table;
    let mut pattern: Option<String> = None;
    let mut follow = false;
    let mut quiet = false;
    let mut operands = false;
    let ghost all = texts(args@);
    let ghost goal = read_from(all, 0, unread());
    let mut i: usize = 0;
    assert(inputs_view(inputs@) =~= Seq::empty());
    while i < args.len()
        invariant
            i <= args@.len(),
            all == texts(args@),
            goal == read_from(all, 0, unread()),
            goal == read_from(
                all,
                i as int,
                Reading {
                    query: text_opt(query),
                    inputs: inputs_view(inputs@),
                    format,
                    pattern: text_opt(pattern),
                    follow,
                    quiet,
                    operands,
                },
            ),
        decreases args.len() - i,
    {
        let arg = &args[i];
        assert(arg@ == all[i as int]);
        if operand(arg, operands) {
            if query.is_none() {
                query = Some(arg.clone());
            } else {
                let one = if is(arg, "-") {
                    Input::Stdin
                } else {
                    Input::File(arg.clone())
                };
                let ghost before = inputs_view(inputs@);
                inputs.push(one);
                assert(inputs_view(inputs@) =~= before.push(one@));
            }
            i += 1;
        } else if is(arg, "--") {
            operands = true;
            i += 1;
        } else if is(arg, "-h") || is(arg, "--help") {
            return Ok(Command::Help);
        } else if is(arg, "-V") || is(arg, "--version") {
            return Ok(Command::Version);
        } else if is(arg, "-F") || is(arg, "--follow") {
            follow = true;
            i += 1;
        } else if is(arg, "-q") || is(arg, "--quiet") {
            quiet = true;
            i += 1;
        } else if is(arg, "-f") || is(arg, "--format") {
            if args.len() - i <= 1 {
                return Err(ArgsError::FormatMissing(arg.clone()));
            }
            assert(args@[i + 1]@ == all[i + 1]);
            match Format::parse(args[i + 1].as_str()) {
                Some(f) => {
                    format = f;
                },
                None => {
                    return Err(ArgsError::UnknownFormat(args[i + 1].clone()));
                },
            }
            i += 2;
        } else if is(arg, "-p") || is(arg, "--pattern") {
            if args.len() - i <= 1 {
                return Err(ArgsError::PatternMissing(arg.clone()));
            }
            assert(args@[i + 1]@ == all[i + 1]);
            pattern = Some(args[i + 1].clone());
            i += 2;
        } else {
            match rest_behind(arg, "--format=") {
                Some(name) => {
                    match Format::parse(name.as_str()) {
                        Some(f) => {
                            format = f;
                        },
                        None => {
                            return Err(ArgsError::UnknownFormat(name));
                        },
                    }
                    i += 1;
                },
                None => match rest_behind(arg, "--pattern=") {
                    Some(p) => {
                        pattern = Some(p);
                        i += 1;
                    },
                    None => {
                        return Err(ArgsError::UnknownOption(arg.clone()));
                    },
                },
            }
        }
    }
    settle(query, inputs, format, pattern, follow, quiet)
}

fn settle(
    query: Option<String>,
    inputs: Vec<Input>,
    format: Format,
    pattern: Option<String>,
    follow: bool,
    quiet: bool,
) -> (r: Result<Command, ArgsError>)
    ensures
        ({
            let s = settled(
                Reading {
                    query: text_opt(query),
                    inputs: inputs_view(inputs@),
                    format,
                    pattern: text_opt(pattern),
                    follow,
                    quiet,
                    operands: false,
                },
            );
            match r {
                Ok(c) => s == Ok::<CommandView, ArgsFault>(c@),
                Err(e) => s == Err::<CommandView, ArgsFault>(e@),
            }
        }),
{
    let query = match query {
        Some(q) => q,
        None => {
            return Err(ArgsError::NoQuery);
        },
    };
    let mut inputs = inputs;
    if inputs.len() == 0 {
        inputs.push(Input::Stdin);
        assert(inputs_view(inputs@) =~= seq![InputView::Stdin]);
    }
    assert(inputs_view(inputs@).len() == inputs@.len());
    if follow {
        if inputs.len() != 1 {
            return Err(ArgsError::FollowInputs);
        }
        assert(inputs_view(inputs@)[0] == inputs@[0]@);
        if let Input::Stdin = &inputs[0] {
            return Err(ArgsError::FollowStdin);
        }
    }
    Ok(Command::Run(Options { query, inputs, format, pattern, follow, quiet }))
}

/// The options of a command line; none where it asks for the help or the version.
pub fn parse_args(args: &[String]) -> (r: Result<Option<Options>, ArgsError>)
    ensures
        match r {
            Ok(Some(o)) => read_from(texts(args@), 0, unread()) == Ok::<CommandView, ArgsFault>(
                CommandView::Run(o@),
            ),
            Ok(None) => read_from(texts(args@), 0, unread()) == Ok::<CommandView, ArgsFault>(
                CommandView::Help,
            ) || read_from(texts(args@), 0, unread()) == Ok::<CommandView, ArgsFault>(
                CommandView::Version,
            ),
            Err(e) => read_from(texts(args@), 0, unread()) == Err::<CommandView, ArgsFault>(e@),
        },
{
    match command_line(args) {
        Ok(Command::Run(o)) => Ok(Some(o)),
        Ok(_) => Ok(None),
        Err(e) => Err(e),
    }
}

/// Why a query cannot be followed as its input grows.
pub open spec fn follow_fault(q: QueryView) -> Option<Seq<char>> {
    if q.order_by is Some {
        Some("--follow cannot be combined with `order by`: sorting needs the whole input"@)
    } else if grouped(q) {
        Some(
            "--follow cannot be combined with `group by`: no group is complete until the input ends"@,
        )
    } else {
        None
    }
}

/// Why a query cannot be followed as its input grows, if it cannot.
pub fn follow_conflict(query: &Query) -> (r: Option<&'static str>)
    ensures
        match r {
            Some(s) => follow_fault(query@) == Some(s@),
            None => follow_fault(query@) is None,
        },
{
    if query.order_by.is_some() {
        Some("--follow cannot be combined with `order by`: sorting needs the whole input")
    } else if query.is_grouped() {
        Some(
            "--follow cannot be combined with `group by`: no group is complete until the input ends",
        )
    } else {
        None
    }
}

/// A command that follows has exactly one input, and that is a file.
pub proof fn law_following_takes_one_file(args: Seq<Seq<char>>, i: int, r: Reading)
    ensures
        read_from(args, i, r) matches Ok(CommandView::Run(o)) ==> (o.follow ==> o.inputs.len() == 1
            && o.inputs[0] is File) && o.inputs.len() > 0,
    decreases args.len() - i,
{
    if 0 <= i < args.len() {
        let arg = args[i];
        law_following_takes_one_file(args, i + 1, with_operand(r, arg));
        law_following_takes_one_file(args, i + 1, Reading { operands: true, ..r });
        law_following_takes_one_file(args, i + 1, Reading { follow: true, ..r });
        law_following_takes_one_file(args, i + 1, Reading { quiet: true, ..r });
        if i + 1 < args.len() {
            if let Some(format) = format_named(args[i + 1]) {
                law_following_takes_one_file(args, i + 2, Reading { format, ..r });
            }
            law_following_takes_one_file(args, i + 2, Reading { pattern: Some(args[i + 1]), ..r });
        }
        let name = behind(arg, "--format="@.len());
        if let Some(format) = format_named(name) {
            law_following_takes_one_file(args, i + 1, Reading { format, ..r });
        }
        law_following_takes_one_file(
            args,
            i + 1,
            Reading { pattern: Some(behind(arg, "--pattern="@.len())), ..r },
        );
    }
}

} // verus!
