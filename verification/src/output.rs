//! Output formats: aligned table, JSON Lines, CSV and Markdown.
//!
//! A writer is given each row, and is told once that there are no more; each time
//! it says what text goes out. The table is held back so that its columns can be
//! sized, or grows row by row where the input has no end to wait for.

use crate::ast::texts;
use crate::group::records_view;
use crate::json::{json_text, number_text, push_json, push_text, record_to_json};
use crate::lexer::spaces;
use crate::text::{back_space, chars_of, is_space, lower_chars, lower_text, same_text, string_of};
use crate::timeutil::is_word;
use crate::value::{field, Fields, Number, Record, Tree, Value};
use vstd::prelude::*;

verus! {

#[derive(Clone, Copy, Debug, PartialEq, Eq, Structural)]
pub enum Format {
    Table,
    Json,
    Csv,
    Markdown,
}

/// The format that a name calls, in any case.
pub open spec fn format_named(name: Seq<char>) -> Option<Format> {
    let n = lower_text(name);
    if n == "table"@ {
        Some(Format::Table)
    } else if n == "json"@ || n == "jsonl"@ || n == "ndjson"@ {
        Some(Format::Json)
    } else if n == "csv"@ {
        Some(Format::Csv)
    } else if n == "markdown"@ {
        Some(Format::Markdown)
    } else {
        None
    }
}

impl Format {
    pub fn parse(name: &str) -> (r: Option<Format>)
        ensures
            r == format_named(name@),
    {
        let n = lower_chars(&chars_of(name));
        if is_word(&n, "table") {
            Some(Format::Table)
        } else if is_word(&n, "json") || is_word(&n, "jsonl") || is_word(&n, "ndjson") {
            Some(Format::Json)
        } else if is_word(&n, "csv") {
            Some(Format::Csv)
        } else if is_word(&n, "markdown") {
            Some(Format::Markdown)
        } else {
            None
        }
    }
}

/// A number in a cell: one that is whole without a point.
pub open spec fn cell_number(n: Number) -> Seq<char> {
    let t = number_text(n);
    if t.len() >= 2 && t[t.len() - 2] == '.' && t[t.len() - 1] == '0' {
        t.subrange(0, t.len() - 2)
    } else {
        t
    }
}

/// A value in a cell of text. A string stands without quotes, and a missing value
/// leaves the cell empty.
pub open spec fn cell(v: Option<Tree>) -> Seq<char> {
    match v {
        None => Seq::empty(),
        Some(Tree::Str(s)) => s,
        Some(Tree::Number(n)) => cell_number(n),
        Some(t) => json_text(t),
    }
}

fn cell_chars(v: Option<&Value>) -> (r: Vec<char>)
    ensures
        r@ == cell(match v {
            Some(x) => Some(x@),
            None => None,
        }),
{
    let mut out: Vec<char> = Vec::new();
    match v {
        None => {},
        Some(Value::Str(s)) => push_text(&mut out, s.as_str()),
        Some(x) => {
            push_json(&mut out, x);
            assert(out@ =~= json_text(x@));
            if let Value::Number(_) = x {
                if out.len() >= 2 && out[out.len() - 2] == '.' && out[out.len() - 1] == '0' {
                    let n: usize = out.len() - 2;
                    let ghost t = out@;
                    out.truncate(n);
                    assert(out@ =~= t.subrange(0, t.len() - 2));
                }
            }
        },
    }
    assert(out@ =~= cell(match v {
        Some(x) => Some(x@),
        None => None,
    }));
    out
}

/// The text of a value in a cell.
pub fn cell_text(v: Option<&Value>) -> (r: String)
    ensures
        r@ == cell(match v {
            Some(x) => Some(x@),
            None => None,
        }),
{
    string_of(&cell_chars(v))
}

/// Whether a cell of CSV needs quotes.
pub open spec fn needs_quotes(s: Seq<char>) -> bool {
    exists|i: int|
        0 <= i < s.len() && ((#[trigger] s[i]) == ',' || s[i] == '"' || s[i] == '\n' || s[i]
            == '\r')
}

/// A text with its quotes doubled.
pub open spec fn doubled(s: Seq<char>) -> Seq<char>
    decreases s.len(),
{
    if s.len() == 0 {
        Seq::empty()
    } else {
        doubled(s.drop_last()) + (if s.last() == '"' {
            seq!['"', '"']
        } else {
            seq![s.last()]
        })
    }
}

/// A cell of CSV: in quotes where it holds a comma, a quote or a line break.
pub open spec fn csv_cell(s: Seq<char>) -> Seq<char> {
    if needs_quotes(s) {
        seq!['"'] + doubled(s) + seq!['"']
    } else {
        s
    }
}

fn quotes_needed(s: &[char]) -> (r: bool)
    ensures
        r == needs_quotes(s@),
{
    let mut i: usize = 0;
    while i < s.len()
        invariant
            i <= s@.len(),
            forall|j: int|
                0 <= j < i ==> (#[trigger] s@[j]) != ',' && s@[j] != '"' && s@[j] != '\n' && s@[j]
                    != '\r',
        decreases s.len() - i,
    {
        if s[i] == ',' || s[i] == '"' || s[i] == '\n' || s[i] == '\r' {
            return true;
        }
        i += 1;
    }
    false
}

fn push_csv(out: &mut Vec<char>, s: &[char])
    ensures
        final(out)@ == old(out)@ + csv_cell(s@),
{
    let quoted = quotes_needed(s);
    if quoted {
        out.push('"');
    }
    let ghost head = out@;
    let mut i: usize = 0;
    assert(s@.subrange(0, 0) =~= Seq::empty());
    assert(head + doubled(s@.subrange(0, 0)) =~= head);
    assert(head + s@.subrange(0, 0) =~= head);
    while i < s.len()
        invariant
            i <= s@.len(),
            quoted ==> out@ == head + doubled(s@.subrange(0, i as int)),
            !quoted ==> out@ == head + s@.subrange(0, i as int),
        decreases s.len() - i,
    {
        let ghost before = out@;
        if quoted && s[i] == '"' {
            out.push('"');
        }
        out.push(s[i]);
        i += 1;
        proof {
            let part = s@.subrange(0, i as int);
            assert(part.drop_last() =~= s@.subrange(0, i - 1));
            assert(part.last() == s@[i - 1]);
            if quoted {
                assert(out@ =~= head + doubled(part));
            } else {
                assert(out@ =~= head + part);
            }
        }
    }
    assert(s@.subrange(0, i as int) =~= s@);
    if quoted {
        out.push('"');
    }
    assert(out@ =~= old(out)@ + csv_cell(s@));
}

/// A cell of CSV.
pub fn csv_escape(s: &str) -> (r: String)
    ensures
        r@ == csv_cell(s@),
{
    let mut out: Vec<char> = Vec::new();
    push_csv(&mut out, &chars_of(s));
    assert(out@ =~= csv_cell(s@));
    string_of(&out)
}

/// A character of a table cell. Line breaks and tabs, which would break the
/// alignment, are shown escaped.
pub open spec fn shown_char(c: char) -> Seq<char> {
    if c == '\n' {
        seq!['\\', 'n']
    } else if c == '\r' {
        seq!['\\', 'r']
    } else if c == '\t' {
        seq!['\\', 't']
    } else {
        seq![c]
    }
}

/// A text as it is shown in a table.
pub open spec fn shown(s: Seq<char>) -> Seq<char>
    decreases s.len(),
{
    if s.len() == 0 {
        Seq::empty()
    } else {
        shown(s.drop_last()) + shown_char(s.last())
    }
}

fn sanitize(s: &[char]) -> (r: Vec<char>)
    ensures
        r@ == shown(s@),
{
    let mut out: Vec<char> = Vec::new();
    let mut i: usize = 0;
    assert(s@.subrange(0, 0) =~= Seq::empty());
    while i < s.len()
        invariant
            i <= s@.len(),
            out@ == shown(s@.subrange(0, i as int)),
        decreases s.len() - i,
    {
        let ghost before = out@;
        if s[i] == '\n' {
            out.push('\\');
            out.push('n');
        } else if s[i] == '\r' {
            out.push('\\');
            out.push('r');
        } else if s[i] == '\t' {
            out.push('\\');
            out.push('t');
        } else {
            out.push(s[i]);
        }
        i += 1;
        proof {
            let part = s@.subrange(0, i as int);
            assert(part.drop_last() =~= s@.subrange(0, i - 1));
            assert(out@ =~= before + shown_char(s@[i - 1]));
        }
    }
    assert(s@.subrange(0, i as int) =~= s@);
    out
}

/// How many characters wide a text is shown.
pub open spec fn width(s: Seq<char>) -> nat {
    shown(s).len()
}

fn display_width(s: &[char]) -> (r: usize)
    ensures
        r == width(s@),
{
    sanitize(s).len()
}

/// A text as it is shown in a column of some width.
pub open spec fn padded(s: Seq<char>, w: nat) -> Seq<char> {
    shown(s) + spaces(w - width(s))
}

fn push_repeated(out: &mut Vec<char>, c: char, n: usize)
    ensures
        final(out)@ == old(out)@ + Seq::new(n as nat, |i: int| c),
{
    let mut i: usize = 0;
    assert(out@ =~= old(out)@ + Seq::new(0, |i: int| c));
    while i < n
        invariant
            i <= n,
            out@ == old(out)@ + Seq::new(i as nat, |j: int| c),
        decreases n - i,
    {
        out.push(c);
        i += 1;
        assert(out@ =~= old(out)@ + Seq::new(i as nat, |j: int| c));
    }
}

fn push_padded(out: &mut Vec<char>, s: &[char], w: usize)
    ensures
        final(out)@ == old(out)@ + padded(s@, w as nat),
{
    let mut text = sanitize(s);
    let n: usize = text.len();
    out.append(&mut text);
    if n < w {
        push_repeated(out, ' ', w - n);
    }
    assert(out@ =~= old(out)@ + padded(s@, w as nat));
}

/// A character of a Markdown cell, given the one before it. Pipes and backslashes
/// are escaped, and a line break becomes `<br>`.
pub open spec fn marked_char(before: Seq<char>, c: char) -> Seq<char> {
    if c == '|' {
        seq!['\\', '|']
    } else if c == '\\' {
        seq!['\\', '\\']
    } else if c == '\n' {
        if before.len() > 0 && before.last() == '\r' {
            Seq::empty()
        } else {
            seq!['<', 'b', 'r', '>']
        }
    } else if c == '\r' {
        seq!['<', 'b', 'r', '>']
    } else {
        seq![c]
    }
}

/// A text as a Markdown cell.
pub open spec fn marked(s: Seq<char>) -> Seq<char>
    decreases s.len(),
{
    if s.len() == 0 {
        Seq::empty()
    } else {
        marked(s.drop_last()) + marked_char(s.drop_last(), s.last())
    }
}

#[verifier::rlimit(30)]
fn push_marked(out: &mut Vec<char>, s: &[char])
    ensures
        final(out)@ == old(out)@ + marked(s@),
{
    let mut i: usize = 0;
    assert(s@.subrange(0, 0) =~= Seq::empty());
    assert(out@ =~= old(out)@ + marked(s@.subrange(0, 0)));
    while i < s.len()
        invariant
            i <= s@.len(),
            out@ == old(out)@ + marked(s@.subrange(0, i as int)),
        decreases s.len() - i,
    {
        let ghost before = out@;
        if s[i] == '|' {
            out.push('\\');
            out.push('|');
        } else if s[i] == '\\' {
            out.push('\\');
            out.push('\\');
        } else if s[i] == '\r' || (s[i] == '\n' && !(i > 0 && s[i - 1] == '\r')) {
            out.push('<');
            out.push('b');
            out.push('r');
            out.push('>');
        } else if s[i] != '\n' {
            out.push(s[i]);
        }
        i += 1;
        proof {
            let part = s@.subrange(0, i as int);
            assert(part.drop_last() =~= s@.subrange(0, i - 1));
            assert(out@ =~= before + marked_char(s@.subrange(0, i - 1), s@[i - 1]));
            assert(out@ =~= old(out)@ + marked(part));
        }
    }
    assert(s@.subrange(0, i as int) =~= s@);
}

/// The first `n` parts, with a separator between each two.
pub open spec fn joined(parts: Seq<Seq<char>>, sep: Seq<char>, n: nat) -> Seq<char>
    decreases n,
{
    if n == 0 || n > parts.len() {
        Seq::empty()
    } else {
        joined(parts, sep, (n - 1) as nat) + (if n > 1 {
            sep
        } else {
            Seq::empty()
        }) + parts[n - 1]
    }
}

/// The cells of a row, by the columns.
pub open spec fn cells(cols: Seq<Seq<char>>, row: Fields) -> Seq<Seq<char>> {
    Seq::new(cols.len(), |i: int| cell(field(row, cols[i])))
}

/// A line of CSV.
pub open spec fn csv_line(parts: Seq<Seq<char>>) -> Seq<char> {
    joined(Seq::new(parts.len(), |i: int| csv_cell(parts[i])), seq![','], parts.len()) + seq!['\n']
}

/// A text without its trailing white space.
pub open spec fn trimmed_end(s: Seq<char>) -> Seq<char> {
    s.subrange(0, back_space(s, s.len() as int))
}

/// The cells of a table line, filled up to the widths of their columns.
pub open spec fn padded_cells(parts: Seq<Seq<char>>, widths: Seq<nat>) -> Seq<Seq<char>> {
    Seq::new(parts.len(), |i: int| padded(parts[i], widths[i]))
}

/// A line of a table.
pub open spec fn table_line(parts: Seq<Seq<char>>, widths: Seq<nat>) -> Seq<char> {
    trimmed_end(joined(padded_cells(parts, widths), seq![' ', ' '], parts.len())) + seq!['\n']
}

/// The line below the head of a table.
pub open spec fn table_rule(widths: Seq<nat>) -> Seq<char> {
    joined(
        Seq::new(widths.len(), |i: int| Seq::new(widths[i], |j: int| '-')),
        seq![' ', ' '],
        widths.len(),
    ) + seq!['\n']
}

/// A line of a Markdown table.
pub open spec fn markdown_line(parts: Seq<Seq<char>>) -> Seq<char> {
    "| "@ + joined(Seq::new(parts.len(), |i: int| marked(parts[i])), " | "@, parts.len()) + " |\n"@
}

/// The line below the head of a Markdown table.
pub open spec fn markdown_rule(n: nat) -> Seq<char> {
    "| "@ + joined(Seq::new(n, |i: int| "---"@), " | "@, n) + " |\n"@
}

/// The cell of a row under the column `i`.
fn cell_at(row: &Record, col: &str) -> (r: Vec<char>)
    ensures
        r@ == cell(field(row@, col@)),
{
    cell_chars(row.get(col))
}

/// The cells of a row.
fn cells_of(cols: &Vec<String>, row: &Record) -> (r: Vec<Vec<char>>)
    ensures
        chars_view(r@) == cells(texts(cols@), row@),
{
    let mut out: Vec<Vec<char>> = Vec::new();
    let mut i: usize = 0;
    while i < cols.len()
        invariant
            i <= cols@.len(),
            out@.len() == i,
            forall|j: int| 0 <= j < i ==> (#[trigger] out@[j])@ == cells(texts(cols@), row@)[j],
        decreases cols.len() - i,
    {
        out.push(cell_at(row, cols[i].as_str()));
        i += 1;
    }
    assert(chars_view(out@) =~= cells(texts(cols@), row@));
    out
}

/// The characters of each of a row of texts.
pub open spec fn chars_view(v: Seq<Vec<char>>) -> Seq<Seq<char>> {
    Seq::new(v.len(), |i: int| v[i]@)
}

/// The heads of the columns.
fn heads_of(cols: &Vec<String>) -> (r: Vec<Vec<char>>)
    ensures
        chars_view(r@) == texts(cols@),
{
    let mut out: Vec<Vec<char>> = Vec::new();
    let mut i: usize = 0;
    while i < cols.len()
        invariant
            i <= cols@.len(),
            out@.len() == i,
            forall|j: int| 0 <= j < i ==> (#[trigger] out@[j])@ == cols@[j]@,
        decreases cols.len() - i,
    {
        out.push(chars_of(cols[i].as_str()));
        i += 1;
    }
    assert(chars_view(out@) =~= texts(cols@));
    out
}

fn push_csv_line(out: &mut Vec<char>, parts: &Vec<Vec<char>>)
    ensures
        final(out)@ == old(out)@ + csv_line(chars_view(parts@)),
{
    let ghost all = Seq::new(parts@.len(), |i: int| csv_cell(chars_view(parts@)[i]));
    let mut i: usize = 0;
    assert(out@ =~= old(out)@ + joined(all, seq![','], 0));
    while i < parts.len()
        invariant
            i <= parts@.len(),
            all == Seq::new(parts@.len(), |i: int| csv_cell(chars_view(parts@)[i])),
            out@ == old(out)@ + joined(all, seq![','], i as nat),
        decreases parts.len() - i,
    {
        if i > 0 {
            out.push(',');
        }
        push_csv(out, &parts[i]);
        i += 1;
        assert(out@ =~= old(out)@ + joined(all, seq![','], i as nat));
    }
    out.push('\n');
    assert(out@ =~= old(out)@ + csv_line(chars_view(parts@)));
}

/// Widths as numbers.
pub open spec fn widths_view(widths: Seq<usize>) -> Seq<nat> {
    Seq::new(widths.len(), |i: int| widths[i] as nat)
}

fn push_table_line(out: &mut Vec<char>, parts: &Vec<Vec<char>>, widths: &Vec<usize>)
    requires
        parts@.len() == widths@.len(),
    ensures
        final(out)@ == old(out)@ + table_line(chars_view(parts@), widths_view(widths@)),
{
    let ghost all = padded_cells(chars_view(parts@), widths_view(widths@));
    let mut line: Vec<char> = Vec::new();
    let mut i: usize = 0;
    while i < parts.len()
        invariant
            i <= parts@.len() == widths@.len(),
            all == padded_cells(chars_view(parts@), widths_view(widths@)),
            line@ == joined(all, seq![' ', ' '], i as nat),
        decreases parts.len() - i,
    {
        let ghost before = line@;
        if i > 0 {
            line.push(' ');
            line.push(' ');
        }
        push_padded(&mut line, &parts[i], widths[i]);
        i += 1;
        assert(line@ =~= joined(all, seq![' ', ' '], i as nat));
    }
    let ghost whole = line@;
    let mut n: usize = line.len();
    while n > 0 && is_space(line[n - 1])
        invariant
            n <= line@.len(),
            line@ == whole,
            back_space(whole, whole.len() as int) == back_space(whole, n as int),
        decreases n,
    {
        n -= 1;
    }
    line.truncate(n);
    assert(line@ =~= trimmed_end(whole));
    out.append(&mut line);
    out.push('\n');
    assert(out@ =~= old(out)@ + table_line(chars_view(parts@), widths_view(widths@)));
}

fn push_table_rule(out: &mut Vec<char>, widths: &Vec<usize>)
    ensures
        final(out)@ == old(out)@ + table_rule(widths_view(widths@)),
{
    let ghost ws = widths_view(widths@);
    let ghost all = Seq::new(ws.len(), |i: int| Seq::new(ws[i], |j: int| '-'));
    let mut i: usize = 0;
    assert(out@ =~= old(out)@ + joined(all, seq![' ', ' '], 0));
    while i < widths.len()
        invariant
            i <= widths@.len(),
            ws == widths_view(widths@),
            all == Seq::new(ws.len(), |i: int| Seq::new(ws[i], |j: int| '-')),
            out@ == old(out)@ + joined(all, seq![' ', ' '], i as nat),
        decreases widths.len() - i,
    {
        if i > 0 {
            out.push(' ');
            out.push(' ');
        }
        push_repeated(out, '-', widths[i]);
        i += 1;
        assert(out@ =~= old(out)@ + joined(all, seq![' ', ' '], i as nat));
    }
    out.push('\n');
    assert(out@ =~= old(out)@ + table_rule(ws));
}

fn push_markdown_line(out: &mut Vec<char>, parts: &Vec<Vec<char>>)
    ensures
        final(out)@ == old(out)@ + markdown_line(chars_view(parts@)),
{
    let ghost all = Seq::new(parts@.len(), |i: int| marked(chars_view(parts@)[i]));
    push_text(out, "| ");
    let ghost head = out@;
    let mut i: usize = 0;
    assert(out@ =~= head + joined(all, " | "@, 0));
    while i < parts.len()
        invariant
            i <= parts@.len(),
            all == Seq::new(parts@.len(), |i: int| marked(chars_view(parts@)[i])),
            out@ == head + joined(all, " | "@, i as nat),
        decreases parts.len() - i,
    {
        if i > 0 {
            push_text(out, " | ");
        }
        push_marked(out, &parts[i]);
        i += 1;
        assert(out@ =~= head + joined(all, " | "@, i as nat));
    }
    push_text(out, " |\n");
    assert(out@ =~= old(out)@ + markdown_line(chars_view(parts@)));
}

fn push_markdown_rule(out: &mut Vec<char>, n: usize)
    ensures
        final(out)@ == old(out)@ + markdown_rule(n as nat),
{
    let ghost all = Seq::new(n as nat, |i: int| "---"@);
    push_text(out, "| ");
    let ghost head = out@;
    let mut i: usize = 0;
    assert(out@ =~= head + joined(all, " | "@, 0));
    while i < n
        invariant
            i <= n,
            all == Seq::new(n as nat, |i: int| "---"@),
            out@ == head + joined(all, " | "@, i as nat),
        decreases n - i,
    {
        if i > 0 {
            push_text(out, " | ");
        }
        push_text(out, "---");
        i += 1;
        assert(out@ =~= head + joined(all, " | "@, i as nat));
    }
    push_text(out, " |\n");
    assert(out@ =~= old(out)@ + markdown_rule(n as nat));
}

/// Whether a name is among the columns.
pub open spec fn has_column(cols: Seq<Seq<char>>, name: Seq<char>) -> bool {
    exists|i: int| 0 <= i < cols.len() && #[trigger] cols[i] == name
}

/// Columns with the names of the first `n` fields of a row behind them, as far as
/// they are new.
pub open spec fn with_names(cols: Seq<Seq<char>>, row: Fields, n: nat) -> Seq<Seq<char>>
    decreases n,
{
    if n == 0 || n > row.len() {
        cols
    } else {
        let before = with_names(cols, row, (n - 1) as nat);
        if has_column(before, row[n - 1].0) {
            before
        } else {
            before.push(row[n - 1].0)
        }
    }
}

/// The names of the fields of the first `n` rows, each once, in the order in
/// which they are first seen.
pub open spec fn discovered(rows: Seq<Fields>, n: nat) -> Seq<Seq<char>>
    decreases n,
{
    if n == 0 || n > rows.len() {
        Seq::empty()
    } else {
        with_names(discovered(rows, (n - 1) as nat), rows[n - 1], rows[n - 1].len())
    }
}

/// The columns of a table: those that were asked for, or else all that occur.
pub open spec fn columns_of(columns: Option<Seq<Seq<char>>>, rows: Seq<Fields>) -> Seq<Seq<char>> {
    match columns {
        Some(cols) => cols,
        None => discovered(rows, rows.len()),
    }
}

/// The greater of two numbers.
pub open spec fn greater(a: nat, b: nat) -> nat {
    if a < b {
        b
    } else {
        a
    }
}

/// How wide a column has to be for its head and the first `n` rows.
pub open spec fn widest(col: Seq<char>, rows: Seq<Fields>, n: nat) -> nat
    decreases n,
{
    if n == 0 || n > rows.len() {
        width(col)
    } else {
        greater(widest(col, rows, (n - 1) as nat), width(cell(field(rows[n - 1], col))))
    }
}

/// How wide the columns of a table have to be.
pub open spec fn all_widths(cols: Seq<Seq<char>>, rows: Seq<Fields>) -> Seq<nat> {
    Seq::new(cols.len(), |i: int| widest(cols[i], rows, rows.len()))
}

/// The lines of the first `n` rows of a table.
pub open spec fn table_lines(
    cols: Seq<Seq<char>>,
    widths: Seq<nat>,
    rows: Seq<Fields>,
    n: nat,
) -> Seq<char>
    decreases n,
{
    if n == 0 || n > rows.len() {
        Seq::empty()
    } else {
        table_lines(cols, widths, rows, (n - 1) as nat) + table_line(
            cells(cols, rows[n - 1]),
            widths,
        )
    }
}

/// The lines of the first `n` rows of CSV.
pub open spec fn csv_lines(cols: Seq<Seq<char>>, rows: Seq<Fields>, n: nat) -> Seq<char>
    decreases n,
{
    if n == 0 || n > rows.len() {
        Seq::empty()
    } else {
        csv_lines(cols, rows, (n - 1) as nat) + csv_line(cells(cols, rows[n - 1]))
    }
}

/// The lines of the first `n` rows of a Markdown table.
pub open spec fn markdown_lines(cols: Seq<Seq<char>>, rows: Seq<Fields>, n: nat) -> Seq<char>
    decreases n,
{
    if n == 0 || n > rows.len() {
        Seq::empty()
    } else {
        markdown_lines(cols, rows, (n - 1) as nat) + markdown_line(cells(cols, rows[n - 1]))
    }
}

/// The head of a table and the line below it.
pub open spec fn table_head(cols: Seq<Seq<char>>, widths: Seq<nat>) -> Seq<char> {
    table_line(cols, widths) + table_rule(widths)
}

/// A whole table. Without a column there is none.
pub open spec fn table_text(cols: Seq<Seq<char>>, rows: Seq<Fields>) -> Seq<char> {
    if cols.len() == 0 {
        Seq::empty()
    } else {
        table_head(cols, all_widths(cols, rows)) + table_lines(
            cols,
            all_widths(cols, rows),
            rows,
            rows.len(),
        )
    }
}

/// All rows as CSV, below a head where there is a column.
pub open spec fn csv_text(cols: Seq<Seq<char>>, rows: Seq<Fields>) -> Seq<char> {
    (if cols.len() == 0 {
        Seq::empty()
    } else {
        csv_line(cols)
    }) + csv_lines(cols, rows, rows.len())
}

/// A whole Markdown table. Without a column there is none.
pub open spec fn markdown_text(cols: Seq<Seq<char>>, rows: Seq<Fields>) -> Seq<char> {
    if cols.len() == 0 {
        Seq::empty()
    } else {
        markdown_line(cols) + markdown_rule(cols.len()) + markdown_lines(cols, rows, rows.len())
    }
}

/// A row of JSON Lines.
pub open spec fn json_line(row: Fields) -> Seq<char> {
    json_text(Tree::Object(row)) + seq!['\n']
}

/// What a writer holds.
#[verifier::ext_equal]
pub struct WriterView {
    pub format: Format,
    /// The columns that were asked for, if any were.
    pub columns: Option<Seq<Seq<char>>>,
    /// Whether a table grows row by row.
    pub incremental: bool,
    /// The rows held back.
    pub rows: Seq<Fields>,
    /// The columns of a growing table so far, and their widths.
    pub live: Seq<Seq<char>>,
    pub widths: Seq<nat>,
    pub header: bool,
}

/// The columns of a growing table behind one more row.
pub open spec fn grown_columns(w: WriterView, row: Fields) -> Seq<Seq<char>> {
    match w.columns {
        Some(_) => w.live,
        None => with_names(w.live, row, row.len()),
    }
}

/// The widths of a growing table behind one more row.
pub open spec fn grown_widths(w: WriterView, row: Fields) -> Seq<nat> {
    let cols = grown_columns(w, row);
    Seq::new(
        cols.len(),
        |i: int|
            greater(
                if i < w.widths.len() {
                    w.widths[i]
                } else {
                    width(cols[i])
                },
                width(cell(field(row, cols[i]))),
            ),
    )
}

/// A writer behind one more row, and what goes out with it. A growing table
/// repeats its head whenever a column is new or wider.
pub open spec fn written(w: WriterView, row: Fields) -> (WriterView, Seq<char>) {
    match w.format {
        Format::Json => (w, json_line(row)),
        Format::Csv => match w.columns {
            Some(cols) => (
                WriterView { header: true, ..w },
                (if w.header {
                    Seq::empty()
                } else {
                    csv_line(cols)
                }) + csv_line(cells(cols, row)),
            ),
            None => (WriterView { rows: w.rows.push(row), ..w }, Seq::empty()),
        },
        Format::Markdown => (WriterView { rows: w.rows.push(row), ..w }, Seq::empty()),
        Format::Table => if !w.incremental {
            (WriterView { rows: w.rows.push(row), ..w }, Seq::empty())
        } else {
            let cols = grown_columns(w, row);
            let widths = grown_widths(w, row);
            (
                WriterView { live: cols, widths, header: true, ..w },
                (if !w.header || widths != w.widths {
                    table_head(cols, widths)
                } else {
                    Seq::empty()
                }) + table_line(cells(cols, row), widths),
            )
        },
    }
}

/// What goes out when there are no more rows.
pub open spec fn ended(w: WriterView) -> Seq<char> {
    let cols = columns_of(w.columns, w.rows);
    match w.format {
        Format::Json => Seq::empty(),
        Format::Csv => if w.columns is Some {
            Seq::empty()
        } else {
            csv_text(cols, w.rows)
        },
        Format::Markdown => markdown_text(cols, w.rows),
        Format::Table => if w.incremental {
            Seq::empty()
        } else {
            table_text(cols, w.rows)
        },
    }
}

/// The view of optional columns.
pub open spec fn columns_opt(columns: Option<Vec<String>>) -> Option<Seq<Seq<char>>> {
    match columns {
        Some(cols) => Some(texts(cols@)),
        None => None,
    }
}

/// The widths of the heads of columns.
pub open spec fn head_widths(cols: Seq<Seq<char>>) -> Seq<nat> {
    Seq::new(cols.len(), |i: int| width(cols[i]))
}

/// A writer before the first row.
pub open spec fn opened(
    format: Format,
    columns: Option<Seq<Seq<char>>>,
    incremental: bool,
) -> WriterView {
    let live = match columns {
        Some(cols) => cols,
        None => Seq::empty(),
    };
    WriterView {
        format,
        columns,
        incremental,
        rows: Seq::empty(),
        live,
        widths: head_widths(live),
        header: false,
    }
}

/// Turns rows into text.
pub struct Writer {
    format: Format,
    columns: Option<Vec<String>>,
    incremental: bool,
    rows: Vec<Record>,
    live: Vec<String>,
    widths: Vec<usize>,
    header: bool,
}

impl View for Writer {
    type V = WriterView;

    closed spec fn view(&self) -> WriterView {
        WriterView {
            format: self.format,
            columns: columns_opt(self.columns),
            incremental: self.incremental,
            rows: records_view(self.rows@),
            live: texts(self.live@),
            widths: widths_view(self.widths@),
            header: self.header,
        }
    }
}

fn column_known(cols: &Vec<String>, name: &str) -> (r: bool)
    ensures
        r == has_column(texts(cols@), name@),
{
    let mut i: usize = 0;
    while i < cols.len()
        invariant
            i <= cols@.len(),
            forall|j: int| 0 <= j < i ==> #[trigger] texts(cols@)[j] != name@,
        decreases cols.len() - i,
    {
        if same_text(cols[i].as_str(), name) {
            assert(texts(cols@)[i as int] == name@);
            return true;
        }
        i += 1;
    }
    false
}

fn add_names(cols: &mut Vec<String>, row: &Record)
    ensures
        texts(final(cols)@) == with_names(texts(old(cols)@), row@, row@.len()),
        final(cols)@.len() >= old(cols)@.len(),
        forall|i: int| 0 <= i < old(cols)@.len() ==> final(cols)@[i] == old(cols)@[i],
{
    let mut i: usize = 0;
    while i < row.entries.len()
        invariant
            i <= row.entries@.len(),
            texts(cols@) == with_names(texts(old(cols)@), row@, i as nat),
            cols@.len() >= old(cols)@.len(),
            forall|i: int| 0 <= i < old(cols)@.len() ==> cols@[i] == old(cols)@[i],
        decreases row.entries.len() - i,
    {
        assert(row@[i as int].0 == row.entries@[i as int].0@);
        if !column_known(cols, row.entries[i].0.as_str()) {
            let ghost before = texts(cols@);
            cols.push(row.entries[i].0.clone());
            assert(texts(cols@) =~= before.push(row@[i as int].0));
        }
        i += 1;
    }
}

/// The names of the fields of rows, in the order in which they are first seen.
fn discover_columns(rows: &Vec<Record>) -> (r: Vec<String>)
    ensures
        texts(r@) == discovered(records_view(rows@), rows@.len()),
{
    let mut cols: Vec<String> = Vec::new();
    let mut i: usize = 0;
    assert(texts(cols@) =~= Seq::empty());
    while i < rows.len()
        invariant
            i <= rows@.len(),
            texts(cols@) == discovered(records_view(rows@), i as nat),
        decreases rows.len() - i,
    {
        add_names(&mut cols, &rows[i]);
        i += 1;
    }
    cols
}

fn width_of(col: &str, rows: &Vec<Record>) -> (r: usize)
    ensures
        r == widest(col@, records_view(rows@), rows@.len()),
{
    let mut w: usize = display_width(&chars_of(col));
    let mut i: usize = 0;
    while i < rows.len()
        invariant
            i <= rows@.len(),
            w == widest(col@, records_view(rows@), i as nat),
        decreases rows.len() - i,
    {
        let one: usize = display_width(&cell_at(&rows[i], col));
        if w < one {
            w = one;
        }
        i += 1;
    }
    w
}

fn widths_of(cols: &Vec<String>, rows: &Vec<Record>) -> (r: Vec<usize>)
    ensures
        widths_view(r@) == all_widths(texts(cols@), records_view(rows@)),
{
    let mut out: Vec<usize> = Vec::new();
    let mut i: usize = 0;
    while i < cols.len()
        invariant
            i <= cols@.len(),
            out@.len() == i,
            forall|j: int|
                0 <= j < i ==> (#[trigger] out@[j]) as nat == all_widths(
                    texts(cols@),
                    records_view(rows@),
                )[j],
        decreases cols.len() - i,
    {
        out.push(width_of(cols[i].as_str(), rows));
        i += 1;
    }
    assert(widths_view(out@) =~= all_widths(texts(cols@), records_view(rows@)));
    out
}

fn push_table_head(out: &mut Vec<char>, cols: &Vec<String>, widths: &Vec<usize>)
    requires
        cols@.len() == widths@.len(),
    ensures
        final(out)@ == old(out)@ + table_head(texts(cols@), widths_view(widths@)),
{
    let heads = heads_of(cols);
    assert(heads@.len() == chars_view(heads@).len());
    push_table_line(out, &heads, widths);
    push_table_rule(out, widths);
    assert(out@ =~= old(out)@ + table_head(texts(cols@), widths_view(widths@)));
}

fn push_table(out: &mut Vec<char>, cols: &Vec<String>, rows: &Vec<Record>)
    ensures
        final(out)@ == old(out)@ + table_text(texts(cols@), records_view(rows@)),
{
    let ghost names = texts(cols@);
    let ghost all = records_view(rows@);
    if cols.len() == 0 {
        assert(out@ =~= old(out)@ + table_text(names, all));
        return;
    }
    let widths = widths_of(cols, rows);
    assert(widths@.len() == widths_view(widths@).len());
    push_table_head(out, cols, &widths);
    let ghost head = out@;
    let ghost ws = widths_view(widths@);
    let mut i: usize = 0;
    assert(out@ =~= head + table_lines(names, ws, all, 0));
    while i < rows.len()
        invariant
            i <= rows@.len(),
            names == texts(cols@),
            all == records_view(rows@),
            ws == widths_view(widths@),
            cols@.len() == widths@.len(),
            out@ == head + table_lines(names, ws, all, i as nat),
        decreases rows.len() - i,
    {
        let parts = cells_of(cols, &rows[i]);
        assert(parts@.len() == chars_view(parts@).len());
        push_table_line(out, &parts, &widths);
        i += 1;
        assert(out@ =~= head + table_lines(names, ws, all, i as nat));
    }
    assert(out@ =~= old(out)@ + table_text(names, all));
}

fn push_csv_text(out: &mut Vec<char>, cols: &Vec<String>, rows: &Vec<Record>)
    ensures
        final(out)@ == old(out)@ + csv_text(texts(cols@), records_view(rows@)),
{
    let ghost names = texts(cols@);
    let ghost all = records_view(rows@);
    if cols.len() > 0 {
        push_csv_line(out, &heads_of(cols));
    }
    let ghost head = out@;
    let mut i: usize = 0;
    assert(out@ =~= head + csv_lines(names, all, 0));
    while i < rows.len()
        invariant
            i <= rows@.len(),
            names == texts(cols@),
            all == records_view(rows@),
            out@ == head + csv_lines(names, all, i as nat),
        decreases rows.len() - i,
    {
        push_csv_line(out, &cells_of(cols, &rows[i]));
        i += 1;
        assert(out@ =~= head + csv_lines(names, all, i as nat));
    }
    assert(out@ =~= old(out)@ + csv_text(names, all));
}

fn push_markdown(out: &mut Vec<char>, cols: &Vec<String>, rows: &Vec<Record>)
    ensures
        final(out)@ == old(out)@ + markdown_text(texts(cols@), records_view(rows@)),
{
    let ghost names = texts(cols@);
    let ghost all = records_view(rows@);
    if cols.len() == 0 {
        assert(out@ =~= old(out)@ + markdown_text(names, all));
        return;
    }
    push_markdown_line(out, &heads_of(cols));
    push_markdown_rule(out, cols.len());
    let ghost head = out@;
    let mut i: usize = 0;
    assert(out@ =~= head + markdown_lines(names, all, 0));
    while i < rows.len()
        invariant
            i <= rows@.len(),
            names == texts(cols@),
            all == records_view(rows@),
            out@ == head + markdown_lines(names, all, i as nat),
        decreases rows.len() - i,
    {
        push_markdown_line(out, &cells_of(cols, &rows[i]));
        i += 1;
        assert(out@ =~= head + markdown_lines(names, all, i as nat));
    }
    assert(out@ =~= old(out)@ + markdown_text(names, all));
}

fn copy_columns(columns: &Option<Vec<String>>) -> (r: Vec<String>)
    ensures
        texts(r@) == (match columns_opt(*columns) {
            Some(cols) => cols,
            None => Seq::empty(),
        }),
{
    let mut out: Vec<String> = Vec::new();
    match columns {
        Some(cols) => {
            let mut i: usize = 0;
            while i < cols.len()
                invariant
                    i <= cols@.len(),
                    out@.len() == i,
                    forall|j: int| 0 <= j < i ==> (#[trigger] out@[j])@ == cols@[j]@,
                decreases cols.len() - i,
            {
                out.push(cols[i].clone());
                i += 1;
            }
            assert(texts(out@) =~= texts(cols@));
        },
        None => {
            assert(texts(out@) =~= Seq::empty());
        },
    }
    out
}

/// A writer for a format. The columns are those that the query names; without
/// them they are found in the rows. An incremental table is not held back.
pub fn writer(format: Format, columns: Option<Vec<String>>, incremental: bool) -> (r: Writer)
    ensures
        r.wf(),
        r@ == opened(format, columns_opt(columns), incremental),
{
    let live = copy_columns(&columns);
    let mut widths: Vec<usize> = Vec::new();
    let mut i: usize = 0;
    while i < live.len()
        invariant
            i <= live@.len(),
            widths@.len() == i,
            forall|j: int|
                0 <= j < i ==> (#[trigger] widths@[j]) as nat == head_widths(texts(live@))[j],
        decreases live.len() - i,
    {
        widths.push(display_width(&chars_of(live[i].as_str())));
        i += 1;
    }
    let r = Writer { format, columns, incremental, rows: Vec::new(), live, widths, header: false };
    assert(r@.widths =~= head_widths(texts(live@)));
    assert(r@.rows =~= Seq::empty());
    r
}

impl Writer {
    /// Every column of a growing table has a width.
    pub closed spec fn wf(&self) -> bool {
        self.live@.len() == self.widths@.len()
    }

    fn hold(&mut self, row: &Record)
        ensures
            final(self)@ == (WriterView { rows: old(self)@.rows.push(row@), ..old(self)@ }),
            final(self).wf() == old(self).wf(),
    {
        let ghost before = self@.rows;
        self.rows.push(row.copy());
        assert(self@.rows =~= before.push(row@));
    }

    /// Makes room for a row in a growing table. True where the table changed.
    fn grow(&mut self, row: &Record) -> (r: bool)
        requires
            old(self).wf(),
        ensures
            final(self).wf(),
            final(self)@ == (WriterView {
                live: grown_columns(old(self)@, row@),
                widths: grown_widths(old(self)@, row@),
                ..old(self)@
            }),
            r == (grown_widths(old(self)@, row@) != old(self)@.widths),
    {
        if self.columns.is_none() {
            add_names(&mut self.live, row);
        }
        let ghost cols = texts(self.live@);
        let ghost goal = grown_widths(old(self)@, row@);
        let ghost had = old(self).widths@;
        let mut changed = self.live.len() > self.widths.len();
        let mut i: usize = 0;
        while i < self.live.len()
            invariant
                i <= self.live@.len(),
                cols == texts(self.live@),
                cols == grown_columns(old(self)@, row@),
                goal == grown_widths(old(self)@, row@),
                had == old(self).widths@,
                had.len() <= self.live@.len(),
                self.format == old(self).format,
                self.columns == old(self).columns,
                self.incremental == old(self).incremental,
                self.rows == old(self).rows,
                self.header == old(self).header,
                self.widths@.len() == (if i < had.len() {
                    had.len()
                } else {
                    i as nat
                }),
                forall|j: int| 0 <= j < i ==> (#[trigger] self.widths@[j]) as nat == goal[j],
                forall|j: int| i <= j < had.len() ==> #[trigger] self.widths@[j] == had[j],
                changed == (had.len() < cols.len() || exists|j: int|
                    0 <= j < i && j < had.len() && #[trigger] goal[j] != had[j] as nat),
            decreases self.live.len() - i,
        {
            if i >= self.widths.len() {
                self.widths.push(display_width(&chars_of(self.live[i].as_str())));
            }
            let base: usize = self.widths[i];
            let one: usize = display_width(&cell_at(row, self.live[i].as_str()));
            if base < one {
                self.widths.set(i, one);
                changed = true;
            }
            assert(self.widths@[i as int] as nat == goal[i as int]);
            i += 1;
        }
        proof {
            assert(self@.widths =~= goal);
            if goal == old(self)@.widths {
                assert(!changed) by {
                    if exists|j: int| 0 <= j < i && j < had.len() && #[trigger] goal[j] != had[j] as nat {
                        let j = choose|j: int|
                            0 <= j < i && j < had.len() && #[trigger] goal[j] != had[j] as nat;
                        assert(old(self)@.widths[j] == had[j] as nat);
                    }
                }
            } else if !changed {
                assert(goal =~= old(self)@.widths) by {
                    assert forall|j: int| 0 <= j < goal.len() implies #[trigger] goal[j] == old(
                        self,
                    )@.widths[j] by {}
                }
            }
        }
        changed
    }

    /// Takes one row, and gives back the text that goes out with it.
    pub fn write(&mut self, row: &Record) -> (r: String)
        requires
            old(self).wf(),
        ensures
            final(self).wf(),
            final(self)@ == written(old(self)@, row@).0,
            r@ == written(old(self)@, row@).1,
    {
        let mut out: Vec<char> = Vec::new();
        match self.format {
            Format::Json => {
                push_text(&mut out, record_to_json(row).as_str());
                out.push('\n');
            },
            Format::Csv => {
                match &self.columns {
                    Some(cols) => {
                        if !self.header {
                            push_csv_line(&mut out, &heads_of(cols));
                        }
                        push_csv_line(&mut out, &cells_of(cols, row));
                        self.header = true;
                    },
                    None => self.hold(row),
                }
            },
            Format::Markdown => self.hold(row),
            Format::Table => {
                if !self.incremental {
                    self.hold(row);
                } else {
                    let changed = self.grow(row);
                    if !self.header || changed {
                        push_table_head(&mut out, &self.live, &self.widths);
                    }
                    self.header = true;
                    let parts = cells_of(&self.live, row);
                    assert(parts@.len() == chars_view(parts@).len());
                    push_table_line(&mut out, &parts, &self.widths);
                }
            },
        }
        assert(out@ =~= written(old(self)@, row@).1);
        string_of(&out)
    }

    /// Says that there are no more rows, and gives back the text that goes out
    /// in the end. The rows held back are given up.
    pub fn finish(&mut self) -> (r: String)
        requires
            old(self).wf(),
        ensures
            final(self).wf(),
            final(self)@ == (WriterView { rows: Seq::empty(), ..old(self)@ }),
            r@ == ended(old(self)@),
    {
        let mut out: Vec<char> = Vec::new();
        let mut rows: Vec<Record> = Vec::new();
        std::mem::swap(&mut rows, &mut self.rows);
        assert(self@.rows =~= Seq::empty());
        match self.format {
            Format::Json => {},
            Format::Csv => {
                if self.columns.is_none() {
                    push_csv_text(&mut out, &discover_columns(&rows), &rows);
                }
            },
            Format::Markdown => match &self.columns {
                Some(cols) => push_markdown(&mut out, cols, &rows),
                None => push_markdown(&mut out, &discover_columns(&rows), &rows),
            },
            Format::Table => {
                if !self.incremental {
                    match &self.columns {
                        Some(cols) => push_table(&mut out, cols, &rows),
                        None => push_table(&mut out, &discover_columns(&rows), &rows),
                    }
                }
            },
        }
        assert(out@ =~= ended(old(self)@));
        string_of(&out)
    }
}

} // verus!
