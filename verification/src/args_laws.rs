//! What holds of the command line: options may stand anywhere among the operands, the
//! last of a kind counts, and the first operand is the query.

use crate::args::{
    behind, read_from, settled, shows_usage, starts_with, unread, with_operand, ArgsFault,
    CommandView, InputView, OptionsView, Reading,
};
use crate::output::{format_named, Format};
use vstd::prelude::*;

verus! {

/// An argument, or two where an option takes its value from the next one.
pub enum Arg {
    Operand(Seq<char>),
    Follow(bool),
    Quiet(bool),
    Format(bool, Seq<char>),
    FormatIs(Seq<char>),
    Pattern(bool, Seq<char>),
    PatternIs(Seq<char>),
}

/// The words of an argument, an option by its short name or its long one.
pub open spec fn arg_words(a: Arg) -> Seq<Seq<char>> {
    match a {
        Arg::Operand(w) => seq![w],
        Arg::Follow(short) => seq![if short { "-F"@ } else { "--follow"@ }],
        Arg::Quiet(short) => seq![if short { "-q"@ } else { "--quiet"@ }],
        Arg::Format(short, name) => seq![if short { "-f"@ } else { "--format"@ }, name],
        Arg::FormatIs(name) => seq!["--format="@ + name],
        Arg::Pattern(short, p) => seq![if short { "-p"@ } else { "--pattern"@ }, p],
        Arg::PatternIs(p) => seq!["--pattern="@ + p],
    }
}

/// The words of the arguments from `i` on.
pub open spec fn args_words(args: Seq<Arg>, i: int) -> Seq<Seq<char>>
    decreases args.len() - i,
{
    if i < 0 || i >= args.len() {
        Seq::empty()
    } else {
        arg_words(args[i]) + args_words(args, i + 1)
    }
}

/// Whether an argument can stand before a double dash: an operand starts with a dash
/// only where it is one, and a format is known.
pub open spec fn arg_stands(a: Arg) -> bool {
    match a {
        Arg::Operand(w) => w.len() == 0 || w[0] != '-' || w == "-"@,
        Arg::Format(_, name) => format_named(name) is Some,
        Arg::FormatIs(name) => format_named(name) is Some,
        _ => true,
    }
}

/// What an input is called by: a dash is the standard input.
pub open spec fn input_of(w: Seq<char>) -> InputView {
    if w == "-"@ {
        InputView::Stdin
    } else {
        InputView::File(w)
    }
}

/// What has been read behind one more operand: the first is the query and the others
/// are inputs.
pub open spec fn operand_read(r: Reading, w: Seq<char>) -> Reading {
    match r.query {
        None => Reading { query: Some(w), ..r },
        Some(_) => Reading { inputs: r.inputs.push(input_of(w)), ..r },
    }
}

/// What has been read behind one more argument.
pub open spec fn arg_read(r: Reading, a: Arg) -> Reading {
    match a {
        Arg::Operand(w) => operand_read(r, w),
        Arg::Follow(_) => Reading { follow: true, ..r },
        Arg::Quiet(_) => Reading { quiet: true, ..r },
        Arg::Format(_, name) => Reading { format: format_named(name)->0, ..r },
        Arg::FormatIs(name) => Reading { format: format_named(name)->0, ..r },
        Arg::Pattern(_, p) => Reading { pattern: Some(p), ..r },
        Arg::PatternIs(p) => Reading { pattern: Some(p), ..r },
    }
}

/// What has been read behind the arguments from `i` on.
pub open spec fn args_read(r: Reading, args: Seq<Arg>, i: int) -> Reading
    decreases args.len() - i,
{
    if i < 0 || i >= args.len() {
        r
    } else {
        args_read(arg_read(r, args[i]), args, i + 1)
    }
}

/// What has been read behind the operands from `i` on.
pub open spec fn operands_read(r: Reading, words: Seq<Seq<char>>, i: int) -> Reading
    decreases words.len() - i,
{
    if i < 0 || i >= words.len() {
        r
    } else {
        operands_read(operand_read(r, words[i]), words, i + 1)
    }
}

/// What is to be done with what has been read: a query runs over its inputs, the
/// standard input where none is named, and following takes one file.
pub open spec fn outcome(r: Reading) -> Result<CommandView, ArgsFault> {
    let inputs = if r.inputs.len() == 0 {
        seq![InputView::Stdin]
    } else {
        r.inputs
    };
    if r.query is None {
        Err(ArgsFault::NoQuery)
    } else if r.follow && inputs.len() > 1 {
        Err(ArgsFault::FollowInputs)
    } else if r.follow && inputs[0] is Stdin {
        Err(ArgsFault::FollowStdin)
    } else {
        Ok(
            CommandView::Run(
                OptionsView {
                    query: r.query->0,
                    inputs,
                    format: r.format,
                    pattern: r.pattern,
                    follow: r.follow,
                    quiet: r.quiet,
                },
            ),
        )
    }
}

proof fn lemma_words()
    ensures
        "-"@.len() == 1 && "-"@[0] == '-',
        "--"@.len() == 2 && "--"@[0] == '-' && "--"@[1] == '-',
        "-h"@.len() == 2 && "-h"@[0] == '-' && "-h"@[1] == 'h',
        "-V"@.len() == 2 && "-V"@[0] == '-' && "-V"@[1] == 'V',
        "-F"@.len() == 2 && "-F"@[0] == '-' && "-F"@[1] == 'F',
        "-q"@.len() == 2 && "-q"@[0] == '-' && "-q"@[1] == 'q',
        "-f"@.len() == 2 && "-f"@[0] == '-' && "-f"@[1] == 'f',
        "-p"@.len() == 2 && "-p"@[0] == '-' && "-p"@[1] == 'p',
        "--help"@.len() == 6 && "--help"@[0] == '-' && "--help"@[1] == '-',
        "--version"@.len() == 9 && "--version"@[0] == '-' && "--version"@[2] == 'v',
        "--follow"@.len() == 8 && "--follow"@[0] == '-' && "--follow"@[3] == 'o' && "--follow"@[4]
            == 'l',
        "--quiet"@.len() == 7 && "--quiet"@[0] == '-' && "--quiet"@[1] == '-',
        "--format"@.len() == 8 && "--format"@[0] == '-' && "--format"@[3] == 'o' && "--format"@[4]
            == 'r',
        "--pattern"@.len() == 9 && "--pattern"@[0] == '-' && "--pattern"@[2] == 'p',
        "--format="@.len() == 9 && "--format="@[0] == '-' && "--format="@[2] == 'f'
            && "--format="@[8] == '=',
        "--pattern="@.len() == 10 && "--pattern="@[0] == '-' && "--pattern="@[2] == 'p'
            && "--pattern="@[9] == '=',
        "--format="@[1] == '-' && "--pattern="@[1] == '-',
        "--version"@[1] == '-' && "--follow"@[1] == '-' && "--format"@[1] == '-' && "--pattern"@[1]
            == '-',
        "--version"@[8] == 'n' && "--pattern"@[8] == 'n',
{
    reveal_strlit("-");
    reveal_strlit("--");
    reveal_strlit("-h");
    reveal_strlit("-V");
    reveal_strlit("-F");
    reveal_strlit("-q");
    reveal_strlit("-f");
    reveal_strlit("-p");
    reveal_strlit("--help");
    reveal_strlit("--version");
    reveal_strlit("--follow");
    reveal_strlit("--quiet");
    reveal_strlit("--format");
    reveal_strlit("--pattern");
    reveal_strlit("--format=");
    reveal_strlit("--pattern=");
}

/// An option with its value behind an equals sign is told from the others by its head.
proof fn lemma_headed(head: Seq<char>, rest: Seq<char>)
    ensures
        starts_with(head + rest, head),
        behind(head + rest, head.len()) == rest,
{
    let w = head + rest;
    assert(w.subrange(0, head.len() as int) =~= head);
    assert(w.subrange(head.len() as int, w.len() as int) =~= rest);
}

proof fn lemma_arg_reads(words: Seq<Seq<char>>, i: int, a: Arg, r: Reading)
    requires
        !r.operands,
        arg_stands(a),
        0 <= i,
        i + arg_words(a).len() <= words.len(),
        forall|k: int| 0 <= k < arg_words(a).len() ==> words[i + k] == #[trigger] arg_words(a)[k],
    ensures
        read_from(words, i, r) == read_from(words, i + arg_words(a).len(), arg_read(r, a)),
{
    lemma_words();
    let w = arg_words(a);
    assert(words[i + 0] == w[0]);
    match a {
        Arg::Operand(x) => {
            assert(w[0] == x);
            assert(with_operand(r, x) == operand_read(r, x));
        },
        Arg::Format(_, name) => {
            assert(words[i + 1] == w[1]);
        },
        Arg::Pattern(_, p) => {
            assert(words[i + 1] == w[1]);
        },
        Arg::FormatIs(name) => {
            let x = "--format="@ + name;
            lemma_headed("--format="@, name);
            lemma_no_other(x, "--format="@, name);
        },
        Arg::PatternIs(p) => {
            let x = "--pattern="@ + p;
            lemma_headed("--pattern="@, p);
            lemma_no_other(x, "--pattern="@, p);
        },
        _ => {},
    }
}

proof fn lemma_no_other(x: Seq<char>, head: Seq<char>, rest: Seq<char>)
    requires
        head == "--format="@ || head == "--pattern="@,
        x == head + rest,
    ensures
        x.len() > 0 && x[0] == '-',
        x != "-"@ && x != "--"@ && x != "-h"@ && x != "--help"@ && x != "-V"@ && x != "--version"@ && x
            != "-F"@ && x != "--follow"@ && x != "-q"@ && x != "--quiet"@ && x != "-f"@ && x
            != "--format"@ && x != "-p"@ && x != "--pattern"@,
        head == "--pattern="@ ==> !starts_with(x, "--format="@),
{
    lemma_words();
    assert(x[0] == head[0] && x[2] == head[2]);
    assert(x.len() >= 9);
    assert(x[8] == head[8]);
    if head == "--pattern="@ {
        assert(x.subrange(0, 9)[2] == 'p');
    }
}

proof fn lemma_args_read(words: Seq<Seq<char>>, p: int, args: Seq<Arg>, i: nat, r: Reading)
    requires
        !r.operands,
        i <= args.len(),
        forall|k: int| 0 <= k < args.len() ==> arg_stands(#[trigger] args[k]),
        0 <= p,
        p + args_words(args, i as int).len() <= words.len(),
        forall|k: int|
            0 <= k < args_words(args, i as int).len() ==> words[p + k] == #[trigger] args_words(
                args,
                i as int,
            )[k],
    ensures
        read_from(words, p, r) == read_from(
            words,
            p + args_words(args, i as int).len(),
            args_read(r, args, i as int),
        ),
        !args_read(r, args, i as int).operands,
    decreases args.len() - i,
{
    if i < args.len() {
        let a = args[i as int];
        let x = arg_words(a);
        let y = args_words(args, i as int + 1);
        let all = args_words(args, i as int);
        assert(all == x + y);
        assert forall|k: int| 0 <= k < x.len() implies words[p + k] == #[trigger] x[k] by {
            assert(all[k] == x[k]);
        }
        lemma_arg_reads(words, p, a, r);
        assert forall|k: int| 0 <= k < y.len() implies words[p + x.len() + k] == #[trigger] y[k] by {
            assert(all[x.len() + k] == y[k]);
        }
        lemma_args_read(words, p + x.len(), args, i + 1, arg_read(r, a));
    }
}

proof fn lemma_operands_read(
    words: Seq<Seq<char>>,
    p: int,
    rest: Seq<Seq<char>>,
    i: nat,
    r: Reading,
)
    requires
        r.operands,
        i <= rest.len(),
        0 <= p,
        p + rest.len() == words.len(),
        forall|k: int| 0 <= k < rest.len() ==> words[p + k] == #[trigger] rest[k],
    ensures
        read_from(words, p + i, r) == settled(operands_read(r, rest, i as int)),
    decreases rest.len() - i,
{
    if i < rest.len() {
        let w = rest[i as int];
        assert(words[p + i] == w);
        assert(with_operand(r, w) == operand_read(r, w));
        lemma_operands_read(words, p, rest, i + 1, operand_read(r, w));
    }
}

/// Options may stand in whatever order among the operands, by their short names or
/// their long ones: what is done goes by all of them together.
pub proof fn law_options_stand_anywhere(args: Seq<Arg>)
    requires
        forall|k: int| 0 <= k < args.len() ==> arg_stands(#[trigger] args[k]),
    ensures
        read_from(args_words(args, 0), 0, unread()) == outcome(args_read(unread(), args, 0)),
{
    lemma_args_read(args_words(args, 0), 0, args, 0, unread());
}

/// Behind a double dash everything is an operand, whatever it starts with.
pub proof fn law_a_double_dash_ends_the_options(args: Seq<Arg>, rest: Seq<Seq<char>>)
    requires
        forall|k: int| 0 <= k < args.len() ==> arg_stands(#[trigger] args[k]),
    ensures
        read_from(args_words(args, 0) + seq!["--"@] + rest, 0, unread()) == outcome(
            operands_read(args_read(unread(), args, 0), rest, 0),
        ),
{
    let x = args_words(args, 0);
    let words = x + seq!["--"@] + rest;
    let n = x.len() as int;
    assert forall|k: int| 0 <= k < x.len() implies words[0 + k] == #[trigger] x[k] by {}
    lemma_args_read(words, 0, args, 0, unread());
    let r = args_read(unread(), args, 0);
    assert(words[n] == "--"@);
    lemma_words();
    let open = Reading { operands: true, ..r };
    assert forall|k: int| 0 <= k < rest.len() implies words[n + 1 + k] == #[trigger] rest[k] by {}
    lemma_operands_read(words, n + 1, rest, 0, open);
    lemma_same_outcome(r, open, rest, 0);
}

proof fn lemma_same_outcome(a: Reading, b: Reading, rest: Seq<Seq<char>>, i: nat)
    requires
        i <= rest.len(),
        b == (Reading { operands: true, ..a }),
    ensures
        outcome(operands_read(a, rest, i as int)) == settled(operands_read(b, rest, i as int)),
    decreases rest.len() - i,
{
    if i < rest.len() {
        lemma_same_outcome(
            operand_read(a, rest[i as int]),
            operand_read(b, rest[i as int]),
            rest,
            i + 1,
        );
    }
}

/// Help and the version come before anything behind them; an option that is none, a
/// format that is none and a value that is not there are refused, each by its name.
pub proof fn law_options_are_known_or_refused(
    args: Seq<Arg>,
    word: Seq<char>,
    next: Seq<char>,
    rest: Seq<Seq<char>>,
)
    requires
        forall|k: int| 0 <= k < args.len() ==> arg_stands(#[trigger] args[k]),
    ensures
        ({
            let before = args_words(args, 0);
            let got = read_from(before + seq![word] + rest, 0, unread());
            let last = read_from(before + seq![word], 0, unread());
            let valued = read_from(before + seq![word, next] + rest, 0, unread());
            &&& word == "-h"@ || word == "--help"@ ==> got == Ok::<CommandView, ArgsFault>(
                CommandView::Help,
            )
            &&& word == "-V"@ || word == "--version"@ ==> got == Ok::<CommandView, ArgsFault>(
                CommandView::Version,
            )
            &&& word == "-f"@ || word == "--format"@ ==> last == Err::<CommandView, ArgsFault>(
                ArgsFault::FormatMissing(word),
            )
            &&& word == "-p"@ || word == "--pattern"@ ==> last == Err::<CommandView, ArgsFault>(
                ArgsFault::PatternMissing(word),
            )
            &&& (word == "-f"@ || word == "--format"@) && format_named(next) is None ==> valued
                == Err::<CommandView, ArgsFault>(ArgsFault::UnknownFormat(next))
            &&& word == "--format="@ + next && format_named(next) is None ==> got == Err::<
                CommandView,
                ArgsFault,
            >(ArgsFault::UnknownFormat(next))
            &&& word.len() > 1 && word[0] == '-' && word[1] != '-' && word != "-h"@ && word != "-V"@
                && word != "-F"@ && word != "-q"@ && word != "-f"@ && word != "-p"@ ==> got == Err::<
                CommandView,
                ArgsFault,
            >(ArgsFault::UnknownOption(word))
        }),
{
    lemma_words();
    let before = args_words(args, 0);
    let n = before.len() as int;
    let a = before + seq![word] + rest;
    let b = before + seq![word];
    let c = before + seq![word, next] + rest;
    assert forall|k: int| 0 <= k < n implies a[0 + k] == #[trigger] before[k] by {}
    assert forall|k: int| 0 <= k < n implies b[0 + k] == #[trigger] before[k] by {}
    assert forall|k: int| 0 <= k < n implies c[0 + k] == #[trigger] before[k] by {}
    lemma_args_read(a, 0, args, 0, unread());
    lemma_args_read(b, 0, args, 0, unread());
    lemma_args_read(c, 0, args, 0, unread());
    assert(a[n] == word && b[n] == word && c[n] == word && c[n + 1] == next);
    if word == "--format="@ + next {
        lemma_headed("--format="@, next);
        lemma_no_other(word, "--format="@, next);
    }
    if word.len() > 1 && word[0] == '-' && word[1] != '-' {
        if starts_with(word, "--format="@) {
            assert(word.subrange(0, 9)[1] == '-');
        }
        if starts_with(word, "--pattern="@) {
            assert(word.subrange(0, 10)[1] == '-');
        }
        assert(word != "-"@ && word != "--"@);
    }
}

/// The usage is shown where an option is unknown or the query is missing, and for no
/// other fault.
pub proof fn law_the_usage_is_shown_where_it_helps(f: ArgsFault)
    ensures
        shows_usage(f) <==> f is UnknownOption || f is NoQuery,
{
}

} // verus!
