//! What holds of what is written: a file of CSV reads back row by row, the cells of a
//! table stand in their columns, and a writer puts out row by row what it would put
//! out at once.

use crate::decimal::{lemma_nat_text_reads, nat_text};
use crate::json::{json_text, number_text};
use crate::output::{
    all_widths, cell, cells, columns_of, csv_cell, csv_line, csv_lines, csv_text, ended,
    format_named, grown_columns, grown_widths, joined, json_line, markdown_line, markdown_lines,
    markdown_rule, markdown_text, marked, opened, padded, padded_cells, shown, table_line,
    table_lines, table_rule, table_text, trimmed_end, widest, width, written, Format, WriterView,
};
use crate::output_laws::{csv_read, law_a_csv_cell_reads_back};
use crate::pattern_text_laws::{lemma_written_both, written_at};
use crate::text::{back_space, digit, lower_text, space};
use crate::value::{field, Fields, Number, Tree};
use vstd::prelude::*;

verus! {

/// An output goes by its name, in whatever capitals.
pub proof fn law_outputs_go_by_their_names(name: Seq<char>)
    ensures
        ({
            let n = lower_text(name);
            let f = format_named(name);
            &&& n == "table"@ <==> f == Some(Format::Table)
            &&& n == "json"@ || n == "jsonl"@ || n == "ndjson"@ <==> f == Some(Format::Json)
            &&& n == "csv"@ <==> f == Some(Format::Csv)
            &&& n == "markdown"@ <==> f == Some(Format::Markdown)
        }),
{
    reveal_strlit("table");
    reveal_strlit("json");
    reveal_strlit("jsonl");
    reveal_strlit("ndjson");
    reveal_strlit("csv");
    reveal_strlit("markdown");
    assert("table"@.len() == 5 && "table"@[0] == 't');
    assert("json"@.len() == 4);
    assert("jsonl"@.len() == 5 && "jsonl"@[0] == 'j');
    assert("ndjson"@.len() == 6);
    assert("csv"@.len() == 3);
    assert("markdown"@.len() == 8);
}

/// A whole number with a point and a zero behind it.
pub open spec fn pointed_zero(t: Seq<char>) -> Seq<char> {
    t + seq!['.', '0']
}

/// A cell shows a string without quotes, a whole number without a point, nothing for
/// what is missing, and anything else as JSON has it.
pub proof fn law_cells_show_their_values(s: Seq<char>, b: bool, u: u64, x: Number, t: Seq<char>)
    ensures
        cell(None) == Seq::<char>::empty(),
        cell(Some(Tree::Str(s))) == s,
        cell(Some(Tree::Bool(b))) == json_text(Tree::Bool(b)),
        cell(Some(Tree::Null)) == json_text(Tree::Null),
        cell(Some(Tree::Number(Number::PosInt(u)))) == nat_text(u as nat),
        number_text(x) == pointed_zero(t) ==> cell(Some(Tree::Number(x))) == t,
        (forall|v: Seq<char>| number_text(x) != #[trigger] pointed_zero(v)) ==> cell(
            Some(Tree::Number(x)),
        ) == number_text(x),
{
    let d = nat_text(u as nat);
    lemma_nat_text_reads(u as nat);
    if d.len() >= 2 {
        assert(digit(d[d.len() - 2]));
    }
    if number_text(x) == pointed_zero(t) {
        assert(number_text(x).subrange(0, number_text(x).len() - 2) =~= t);
    }
    let n = number_text(x);
    if n.len() >= 2 && n[n.len() - 2] == '.' && n[n.len() - 1] == '0' {
        assert(n =~= pointed_zero(n.subrange(0, n.len() - 2)));
    }
}

/// A row of parts with something between each two holds each part behind the parts
/// before it.
proof fn lemma_joined_parts(
    s: Seq<char>,
    p: int,
    parts: Seq<Seq<char>>,
    sep: Seq<char>,
    k: nat,
    n: nat,
)
    requires
        k < n <= parts.len(),
        written_at(s, p, joined(parts, sep, n)),
    ensures
        ({
            let at = p + joined(parts, sep, k).len() + if k > 0 {
                sep.len()
            } else {
                0
            };
            &&& written_at(s, at, parts[k as int])
            &&& at + parts[k as int].len() == p + joined(parts, sep, k + 1).len()
            &&& k > 0 ==> written_at(s, p + joined(parts, sep, k).len(), sep)
            &&& at + parts[k as int].len() <= p + joined(parts, sep, n).len()
        }),
    decreases n - k,
{
    let before = joined(parts, sep, (n - 1) as nat);
    let gap = if n > 1 {
        sep
    } else {
        Seq::empty()
    };
    lemma_written_both(s, p, before + gap, parts[n - 1]);
    lemma_written_both(s, p, before, gap);
    if k + 1 < n {
        lemma_joined_parts(s, p, parts, sep, k, (n - 1) as nat);
    }
}

/// How a row of CSV is read from `i` on, behind the cells before: its cells, and where
/// the next row starts.
pub open spec fn csv_row(s: Seq<char>, i: int, before: Seq<Seq<char>>) -> Option<
    (Seq<Seq<char>>, int),
>
    decreases s.len() - i,
{
    match csv_read(s, i) {
        None => None,
        Some((c, e)) => if !(0 <= i <= e < s.len()) {
            None
        } else if s[e] == ',' {
            csv_row(s, e + 1, before.push(c))
        } else if s[e] == '\n' {
            Some((before.push(c), e + 1))
        } else {
            None
        },
    }
}

/// How a file of CSV is read from `i` on, behind the rows before.
pub open spec fn csv_file(s: Seq<char>, i: int, before: Seq<Seq<Seq<char>>>) -> Option<
    Seq<Seq<Seq<char>>>,
>
    decreases s.len() - i,
{
    if i >= s.len() {
        Some(before)
    } else {
        match csv_row(s, i, Seq::empty()) {
            None => None,
            Some((row, e)) => if i < e <= s.len() {
                csv_file(s, e, before.push(row))
            } else {
                None
            },
        }
    }
}

proof fn lemma_csv_row(s: Seq<char>, p: int, parts: Seq<Seq<char>>, k: nat)
    requires
        k < parts.len(),
        written_at(s, p, csv_line(parts)),
    ensures
        ({
            let all = Seq::new(parts.len(), |i: int| csv_cell(parts[i]));
            let at = p + joined(all, seq![','], k).len() + if k > 0 {
                1
            } else {
                0int
            };
            csv_row(s, at, parts.take(k as int)) == Some((parts, p + csv_line(parts).len()))
        }),
    decreases parts.len() - k,
{
    let all = Seq::new(parts.len(), |i: int| csv_cell(parts[i]));
    let sep = seq![','];
    let n = parts.len();
    let line = joined(all, sep, n);
    lemma_written_both(s, p, line, seq!['\n']);
    lemma_joined_parts(s, p, all, sep, k, n);
    let at = p + joined(all, sep, k).len() + if k > 0 {
        1
    } else {
        0int
    };
    let c = parts[k as int];
    let w = csv_cell(c);
    assert(all[k as int] == w);
    let e = at + w.len();
    let before = s.take(at);
    let rest = s.skip(e);
    assert(s =~= before + w + rest);
    if k + 1 < n {
        lemma_joined_parts(s, p, all, sep, k + 1, n);
        assert(s[e + 0] == sep[0]);
    } else {
        assert(s[p + line.len() + 0] == seq!['\n'][0]);
    }
    assert(rest[0] == s[e]);
    law_a_csv_cell_reads_back(before, c, rest);
    assert(csv_read(s, at) == Some((c, e)));
    assert(parts.take(k as int).push(c) =~= parts.take(k as int + 1));
    if k + 1 < n {
        lemma_csv_row(s, p, parts, k + 1);
    } else {
        assert(parts.take(n as int) =~= parts);
    }
}

proof fn lemma_csv_lines(
    s: Seq<char>,
    p: int,
    cols: Seq<Seq<char>>,
    rows: Seq<Fields>,
    n: nat,
    before: Seq<Seq<Seq<char>>>,
)
    requires
        cols.len() > 0,
        n <= rows.len(),
        written_at(s, p, csv_lines(cols, rows, n)),
    ensures
        csv_file(s, p, before) == csv_file(
            s,
            p + csv_lines(cols, rows, n).len(),
            before + Seq::new(n, |r: int| cells(cols, rows[r])),
        ),
    decreases n,
{
    if n == 0 {
        assert(before + Seq::new(n, |r: int| cells(cols, rows[r])) =~= before);
    } else {
        let m = (n - 1) as nat;
        let row = cells(cols, rows[m as int]);
        lemma_written_both(s, p, csv_lines(cols, rows, m), csv_line(row));
        lemma_csv_lines(s, p, cols, rows, m, before);
        let at = p + csv_lines(cols, rows, m).len();
        lemma_csv_row(s, at, row, 0);
        assert(row.take(0) =~= Seq::<Seq<char>>::empty());
        let got = before + Seq::new(m, |r: int| cells(cols, rows[r]));
        assert(got.push(row) =~= before + Seq::new(n, |r: int| cells(cols, rows[r])));
        assert(csv_line(row).len() > 0);
    }
}

/// A file of CSV reads back as the columns and then, row by row, the cells of each.
pub proof fn law_a_csv_file_reads_back(cols: Seq<Seq<char>>, rows: Seq<Fields>)
    requires
        cols.len() > 0,
    ensures
        csv_file(csv_text(cols, rows), 0, Seq::empty()) == Some(
            seq![cols] + Seq::new(rows.len(), |r: int| cells(cols, rows[r])),
        ),
{
    let s = csv_text(cols, rows);
    assert(written_at(s, 0, s));
    lemma_written_both(s, 0, csv_line(cols), csv_lines(cols, rows, rows.len()));
    lemma_csv_row(s, 0, cols, 0);
    assert(cols.take(0) =~= Seq::<Seq<char>>::empty());
    let none = Seq::<Seq<Seq<char>>>::empty();
    assert(none.push(cols) =~= seq![cols]);
    lemma_csv_lines(s, csv_line(cols).len() as int, cols, rows, rows.len(), seq![cols]);
}

/// What a table shows of a text: line breaks and tabs as escapes, anything else as it
/// is.
pub proof fn law_tables_show_breaks_as_escapes(a: Seq<char>, b: Seq<char>, c: char)
    ensures
        shown(a + b) == shown(a) + shown(b),
        shown(seq![c]) == (if c == '\n' {
            seq!['\\', 'n']
        } else if c == '\r' {
            seq!['\\', 'r']
        } else if c == '\t' {
            seq!['\\', 't']
        } else {
            seq![c]
        }),
    decreases b.len(),
{
    assert(seq![c].drop_last() =~= Seq::<char>::empty());
    assert(shown(Seq::<char>::empty()) =~= Seq::<char>::empty());
    reveal_with_fuel(shown, 2);
    assert(seq![c].last() == c);
    if b.len() == 0 {
        assert(a + b =~= a);
        assert(shown(a) + shown(b) =~= shown(a));
    } else {
        law_tables_show_breaks_as_escapes(a, b.drop_last(), c);
        assert((a + b).drop_last() =~= a + b.drop_last());
        assert((a + b).last() == b.last());
        assert(shown(a + b) =~= shown(a) + shown(b));
    }
}

/// Where a column of a table starts: behind the columns before, two spaces each apart.
pub open spec fn column_start(widths: Seq<nat>, c: nat) -> nat
    decreases c,
{
    if c == 0 {
        0
    } else {
        column_start(widths, (c - 1) as nat) + widths[c - 1] + 2
    }
}

proof fn lemma_column_start(parts: Seq<Seq<char>>, widths: Seq<nat>, c: nat)
    requires
        c <= parts.len(),
        parts.len() == widths.len(),
        forall|i: int| 0 <= i < parts.len() ==> parts[i].len() == #[trigger] widths[i],
    ensures
        column_start(widths, c) == joined(parts, seq![' ', ' '], c).len() + if c > 0 {
            2
        } else {
            0int
        },
    decreases c,
{
    if c > 0 {
        lemma_column_start(parts, widths, (c - 1) as nat);
        assert(parts[c - 1].len() == widths[c - 1]);
    }
}

proof fn lemma_back(s: Seq<char>, i: int)
    requires
        0 <= i <= s.len(),
    ensures
        0 <= back_space(s, i) <= i,
        back_space(s, i) > 0 ==> !space(s[back_space(s, i) - 1]),
        forall|j: int| back_space(s, i) <= j < i ==> space(#[trigger] s[j]),
    decreases i,
{
    if 0 < i && space(s[i - 1]) {
        lemma_back(s, i - 1);
    }
}

/// Each cell of a table stands in its column from the start of that on, as it is shown,
/// with spaces up to the width of the column and two more before the next. A line ends
/// at the last character that is not white space.
pub proof fn law_table_cells_stand_in_their_columns(
    parts: Seq<Seq<char>>,
    widths: Seq<nat>,
    c: nat,
    k: nat,
)
    requires
        parts.len() == widths.len(),
        c < parts.len(),
        k < widths[c as int],
        forall|i: int| 0 <= i < parts.len() ==> width(parts[i]) <= #[trigger] widths[i],
    ensures
        ({
            let line = table_line(parts, widths);
            let j = column_start(widths, c) + k;
            let x = if k < shown(parts[c as int]).len() {
                shown(parts[c as int])[k as int]
            } else {
                ' '
            };
            &&& line.len() > 0 && line.last() == '\n'
            &&& line.len() > 1 ==> !space(line[line.len() - 2])
            &&& j < line.len() - 1 ==> line[j as int] == x
            &&& j >= line.len() - 1 ==> space(x)
            &&& c > 0 && column_start(widths, c) < line.len() ==> line[column_start(widths, c) - 1]
                == ' ' && line[column_start(widths, c) - 2] == ' '
        }),
{
    let all = padded_cells(parts, widths);
    let sep = seq![' ', ' '];
    let u = joined(all, sep, parts.len());
    assert forall|i: int| 0 <= i < all.len() implies all[i].len() == #[trigger] widths[i] by {
        assert(all[i] == padded(parts[i], widths[i]));
    }
    lemma_column_start(all, widths, c);
    assert(written_at(u, 0, u));
    lemma_joined_parts(u, 0, all, sep, c, parts.len());
    let cell = all[c as int];
    let start = column_start(widths, c) as int;
    assert(u[start + k] == cell[k as int]);
    lemma_back(u, u.len() as int);
    let line = table_line(parts, widths);
    assert(line.drop_last() =~= trimmed_end(u));
    if c > 0 {
        assert(u[start - 2 + 0] == sep[0] && u[start - 2 + 1] == sep[1]);
    }
}

/// A column of a table is as wide as the widest that stands in it, its head counting
/// too.
pub proof fn law_columns_are_as_wide_as_their_widest(
    cols: Seq<Seq<char>>,
    rows: Seq<Fields>,
    c: int,
)
    requires
        0 <= c < cols.len(),
    ensures
        ({
            let w = all_widths(cols, rows)[c];
            &&& all_widths(cols, rows).len() == cols.len()
            &&& width(cols[c]) <= w
            &&& forall|r: int|
                0 <= r < rows.len() ==> width(cell(field(#[trigger] rows[r], cols[c]))) <= w
            &&& w == width(cols[c]) || exists|r: int|
                0 <= r < rows.len() && width(cell(field(#[trigger] rows[r], cols[c]))) == w
        }),
{
    lemma_widest(cols[c], rows, rows.len());
}

proof fn lemma_widest(col: Seq<char>, rows: Seq<Fields>, n: nat)
    requires
        n <= rows.len(),
    ensures
        width(col) <= widest(col, rows, n),
        forall|i: int|
            0 <= i < n ==> width(cell(field(#[trigger] rows[i], col))) <= widest(col, rows, n),
        widest(col, rows, n) == width(col) || exists|i: int|
            0 <= i < n && width(cell(field(#[trigger] rows[i], col))) == widest(col, rows, n),
    decreases n,
{
    if n > 0 {
        lemma_widest(col, rows, (n - 1) as nat);
        assert(rows[n - 1] == rows[n - 1]);
    }
}

proof fn lemma_same_lines(
    cols: Seq<Seq<char>>,
    widths: Seq<nat>,
    a: Seq<Fields>,
    b: Seq<Fields>,
    n: nat,
)
    requires
        n <= a.len(),
        n <= b.len(),
        forall|i: int| 0 <= i < n ==> #[trigger] a[i] == b[i],
    ensures
        table_lines(cols, widths, a, n) == table_lines(cols, widths, b, n),
        csv_lines(cols, a, n) == csv_lines(cols, b, n),
        markdown_lines(cols, a, n) == markdown_lines(cols, b, n),
    decreases n,
{
    if n > 0 {
        assert(a[n - 1] == b[n - 1]);
        lemma_same_lines(cols, widths, a, b, (n - 1) as nat);
    }
}

/// One more row is one more line behind the others, in a table as long as it fits the
/// columns. Without rows there is just the head.
pub proof fn law_each_row_is_a_line(cols: Seq<Seq<char>>, rows: Seq<Fields>, row: Fields)
    requires
        cols.len() > 0,
    ensures
        ({
            let more = rows.push(row);
            let none = Seq::<Fields>::empty();
            &&& csv_text(cols, more) == csv_text(cols, rows) + csv_line(cells(cols, row))
            &&& csv_text(cols, none) == csv_line(cols)
            &&& markdown_text(cols, more) == markdown_text(cols, rows) + markdown_line(
                cells(cols, row),
            )
            &&& markdown_text(cols, none) == markdown_line(cols) + markdown_rule(cols.len())
            &&& all_widths(cols, more) == all_widths(cols, rows) ==> table_text(cols, more)
                == table_text(cols, rows) + table_line(cells(cols, row), all_widths(cols, rows))
            &&& table_text(cols, none) == table_line(cols, all_widths(cols, none)) + table_rule(
                all_widths(cols, none),
            )
        }),
{
    let more = rows.push(row);
    let none = Seq::<Fields>::empty();
    let w = all_widths(cols, rows);
    lemma_same_lines(cols, w, rows, more, rows.len());
    assert(more[rows.len() as int] == row);
    assert(csv_text(cols, more) =~= csv_text(cols, rows) + csv_line(cells(cols, row)));
    assert(csv_text(cols, none) =~= csv_line(cols));
    assert(markdown_text(cols, more) =~= markdown_text(cols, rows) + markdown_line(
        cells(cols, row),
    ));
    assert(markdown_text(cols, none) =~= markdown_line(cols) + markdown_rule(cols.len()));
    if all_widths(cols, more) == w {
        assert(table_text(cols, more) =~= table_text(cols, rows) + table_line(cells(cols, row), w));
    }
    assert(table_text(cols, none) =~= table_line(cols, all_widths(cols, none)) + table_rule(
        all_widths(cols, none),
    ));
}

/// The rule under the head of a table fills each column with dashes.
pub proof fn law_a_rule_fills_the_columns(widths: Seq<nat>, c: nat, k: nat)
    requires
        c < widths.len(),
        k < widths[c as int],
    ensures
        table_rule(widths)[(column_start(widths, c) + k) as int] == '-',
        c > 0 ==> table_rule(widths)[column_start(widths, c) - 1] == ' ' && table_rule(
            widths,
        )[column_start(widths, c) - 2] == ' ',
        table_rule(widths).last() == '\n',
        table_rule(widths).len() == column_start(widths, widths.len()) - 1,
{
    let all = Seq::new(widths.len(), |i: int| Seq::new(widths[i], |j: int| '-'));
    let sep = seq![' ', ' '];
    let n = widths.len();
    let u = joined(all, sep, n);
    let s = table_rule(widths);
    assert(written_at(s, 0, s));
    lemma_written_both(s, 0, u, seq!['\n']);
    lemma_column_start(all, widths, c);
    lemma_column_start(all, widths, n);
    lemma_joined_parts(s, 0, all, sep, c, n);
    let start = column_start(widths, c) as int;
    assert(s[start + k] == all[c as int][k as int]);
    if c > 0 {
        assert(s[start - 2 + 0] == sep[0] && s[start - 2 + 1] == sep[1]);
    }
}

/// A row of Markdown opens and closes with a bar, and a further cell stands between
/// bars of its own; the rule has three dashes for each column.
pub proof fn law_markdown_cells_stand_between_bars(parts: Seq<Seq<char>>, x: Seq<char>, n: nat)
    requires
        n > 0,
    ensures
        markdown_line(seq![x]) == seq!['|', ' '] + marked(x) + seq![' ', '|', '\n'],
        parts.len() > 0 ==> markdown_line(parts.push(x)) == markdown_line(parts).drop_last() + seq![
            ' ',
        ] + marked(x) + seq![' ', '|', '\n'],
        markdown_rule(1) == seq!['|', ' ', '-', '-', '-', ' ', '|', '\n'],
        markdown_rule(n + 1) == markdown_rule(n).drop_last() + seq![
            ' ',
            '-',
            '-',
            '-',
            ' ',
            '|',
            '\n',
        ],
{
    reveal_strlit("| ");
    reveal_strlit(" | ");
    reveal_strlit(" |\n");
    reveal_strlit("---");
    reveal_with_fuel(joined, 2);
    let one = seq![x];
    let a = Seq::new(one.len(), |i: int| marked(one[i]));
    assert(joined(a, " | "@, 1) =~= marked(x));
    assert(markdown_line(one) =~= seq!['|', ' '] + marked(x) + seq![' ', '|', '\n']);
    let more = parts.push(x);
    let b = Seq::new(parts.len(), |i: int| marked(parts[i]));
    let c = Seq::new(more.len(), |i: int| marked(more[i]));
    if parts.len() > 0 {
        lemma_joined_same(b, c, " | "@, parts.len());
        assert(c[parts.len() as int] == marked(x));
        assert(markdown_line(more) =~= markdown_line(parts).drop_last() + seq![' '] + marked(x)
            + seq![' ', '|', '\n']);
    }
    let d = Seq::new(1nat, |i: int| "---"@);
    assert(joined(d, " | "@, 1) =~= "---"@);
    assert(markdown_rule(1) =~= seq!['|', ' ', '-', '-', '-', ' ', '|', '\n']);
    let e = Seq::new(n, |i: int| "---"@);
    let f = Seq::new(n + 1, |i: int| "---"@);
    lemma_joined_same(e, f, " | "@, n);
    assert(markdown_rule(n + 1) =~= markdown_rule(n).drop_last() + seq![
        ' ',
        '-',
        '-',
        '-',
        ' ',
        '|',
        '\n',
    ]);
}

proof fn lemma_joined_same(a: Seq<Seq<char>>, b: Seq<Seq<char>>, sep: Seq<char>, n: nat)
    requires
        n <= a.len(),
        n <= b.len(),
        forall|i: int| 0 <= i < n ==> #[trigger] a[i] == b[i],
    ensures
        joined(a, sep, n) == joined(b, sep, n),
    decreases n,
{
    if n > 0 {
        assert(a[n - 1] == b[n - 1]);
        lemma_joined_same(a, b, sep, (n - 1) as nat);
    }
}

/// In a cell of Markdown bars and backslashes are escaped, and a line break of whatever
/// kind is one mark; anything else stands as it is.
pub proof fn law_markdown_escapes_its_own_signs(s: Seq<char>, c: char)
    requires
        s.len() > 0 ==> s.last() != '\r',
    ensures
        c == '|' || c == '\\' ==> marked(s.push(c)) == marked(s) + seq!['\\', c],
        c == '\n' || c == '\r' ==> marked(s.push(c)) == marked(s) + seq!['<', 'b', 'r', '>'],
        marked(s.push('\r').push('\n')) == marked(s) + seq!['<', 'b', 'r', '>'],
        c != '|' && c != '\\' && c != '\n' && c != '\r' ==> marked(s.push(c)) == marked(s) + seq![c],
        c != '\n' ==> marked(s.push('\r').push(c)) == marked(s.push('\r')) + marked(seq![c]),
{
    let r = s.push('\r');
    assert(s.push(c).drop_last() =~= s);
    assert(r.drop_last() =~= s);
    assert(r.push('\n').drop_last() =~= r);
    assert(r.push(c).drop_last() =~= r);
    assert(seq![c].drop_last() =~= Seq::<char>::empty());
    assert(marked(Seq::<char>::empty()) =~= Seq::<char>::empty());
    assert(seq![c].last() == c);
    assert(marked(r) =~= marked(s) + seq!['<', 'b', 'r', '>']);
    assert(marked(r.push('\n')) =~= marked(s) + seq!['<', 'b', 'r', '>']);
    if c != '\n' {
        assert(marked(r.push(c)) =~= marked(r) + marked(seq![c]));
    }
}

/// What a writer has become, and what it has put out, behind the first rows.
pub open spec fn run_through(w: WriterView, rows: Seq<Fields>, n: nat) -> (WriterView, Seq<char>)
    decreases n,
{
    if n == 0 || n > rows.len() {
        (w, Seq::empty())
    } else {
        let (before, text) = run_through(w, rows, (n - 1) as nat);
        let (now, line) = written(before, rows[n - 1]);
        (now, text + line)
    }
}

/// The JSON lines of the first rows.
pub open spec fn json_lines(rows: Seq<Fields>, n: nat) -> Seq<char>
    decreases n,
{
    if n == 0 || n > rows.len() {
        Seq::empty()
    } else {
        json_lines(rows, (n - 1) as nat) + json_line(rows[n - 1])
    }
}

/// All that a writer puts out, row by row and at the end, is the file of its rows: of
/// JSON a line for each row as it comes, and of CSV, Markdown and a table that does not
/// grow the whole with its head.
pub proof fn law_a_writer_writes_the_file_of_its_rows(w: WriterView, rows: Seq<Fields>)
    requires
        w.rows.len() == 0,
        !w.header,
        !w.incremental,
    ensures
        ({
            let (last, text) = run_through(w, rows, rows.len());
            let all = text + ended(last);
            let cols = columns_of(w.columns, rows);
            match w.format {
                Format::Json => all == json_lines(rows, rows.len()),
                Format::Csv => rows.len() > 0 && cols.len() > 0 ==> all == csv_text(cols, rows),
                Format::Markdown => all == markdown_text(cols, rows),
                Format::Table => all == table_text(cols, rows),
            }
        }),
{
    lemma_run_through(w, rows, rows.len());
    assert(rows.take(rows.len() as int) =~= rows);
    let (last, text) = run_through(w, rows, rows.len());
    let cols = columns_of(w.columns, rows);
    match w.format {
        Format::Json => {
            assert(text + ended(last) =~= json_lines(rows, rows.len()));
        },
        Format::Csv => {
            if rows.len() > 0 && cols.len() > 0 {
                assert(text + ended(last) =~= csv_text(cols, rows));
            }
        },
        Format::Markdown => {
            assert(text + ended(last) =~= markdown_text(cols, rows));
        },
        Format::Table => {
            assert(text + ended(last) =~= table_text(cols, rows));
        },
    }
}

proof fn lemma_run_through(w: WriterView, rows: Seq<Fields>, n: nat)
    requires
        n <= rows.len(),
        w.rows.len() == 0,
        !w.header,
        !w.incremental,
    ensures
        ({
            let (last, text) = run_through(w, rows, n);
            &&& last.format == w.format && last.columns == w.columns
            &&& last.incremental == w.incremental
            &&& w.format == Format::Json ==> text == json_lines(rows, n)
            &&& w.format == Format::Csv && w.columns is Some ==> last.header == (n > 0) && text == (
            if n == 0 {
                Seq::empty()
            } else {
                csv_line(w.columns->0) + csv_lines(w.columns->0, rows, n)
            })
            &&& (w.format == Format::Csv && w.columns is None) || w.format == Format::Markdown
                || w.format == Format::Table ==> text.len() == 0 && last.rows == rows.take(n as int)
        }),
    decreases n,
{
    if n > 0 {
        lemma_run_through(w, rows, (n - 1) as nat);
        assert(rows.take(n - 1).push(rows[n - 1]) =~= rows.take(n as int));
        let (before, text) = run_through(w, rows, (n - 1) as nat);
        let (last, now) = run_through(w, rows, n);
        if w.format == Format::Csv && w.columns is Some {
            let cols = w.columns->0;
            let line = csv_line(cells(cols, rows[n - 1]));
            assert(csv_lines(cols, rows, n) == csv_lines(cols, rows, (n - 1) as nat) + line);
            if n == 1 {
                assert(csv_lines(cols, rows, 0) =~= Seq::<char>::empty());
                assert(written(before, rows[n - 1]).1 =~= csv_line(cols) + line);
            } else {
                assert(written(before, rows[n - 1]).1 =~= line);
            }
            assert(now =~= csv_line(cols) + csv_lines(cols, rows, n));
        }
    } else {
        assert(w.rows =~= rows.take(0));
    }
}

/// A table that grows keeps each column at least as wide as it was and as its new cell,
/// and no wider than the wider of the two.
pub proof fn law_a_growing_table_widens_as_it_must(w: WriterView, row: Fields, c: int)
    requires
        w.widths.len() == w.live.len(),
        0 <= c < grown_columns(w, row).len(),
    ensures
        ({
            let cols = grown_columns(w, row);
            let before = if c < w.widths.len() {
                w.widths[c]
            } else {
                width(cols[c])
            };
            let now = grown_widths(w, row)[c];
            let new = width(cell(field(row, cols[c])));
            &&& grown_widths(w, row).len() == cols.len()
            &&& now >= before && now >= new
            &&& now == before || now == new
        }),
{
}

/// A table that grows puts out a line for each row, and its head before it where there
/// has been none yet or the columns have changed.
pub proof fn law_a_growing_table_repeats_its_head(w: WriterView, row: Fields)
    requires
        w.format == Format::Table,
        w.incremental,
    ensures
        ({
            let cols = grown_columns(w, row);
            let widths = grown_widths(w, row);
            let line = table_line(cells(cols, row), widths);
            let (next, text) = written(w, row);
            &&& next.live == cols && next.widths == widths && next.header
            &&& w.header && widths == w.widths ==> text == line
            &&& !w.header || widths != w.widths ==> text == table_line(cols, widths) + table_rule(
                widths,
            ) + line
            &&& ended(next) == Seq::<char>::empty()
        }),
{
    let line = table_line(cells(grown_columns(w, row), row), grown_widths(w, row));
    assert(Seq::<char>::empty() + line =~= line);
}

/// A writer before its first row holds none, has put out no head, and goes by the
/// columns that were asked for, each as wide as its name.
pub proof fn law_a_new_writer_holds_nothing(
    format: Format,
    columns: Option<Seq<Seq<char>>>,
    incremental: bool,
    c: int,
)
    ensures
        ({
            let w = opened(format, columns, incremental);
            &&& w.format == format && w.columns == columns && w.incremental == incremental
            &&& w.rows.len() == 0 && !w.header
            &&& columns is None ==> w.live.len() == 0 && w.widths.len() == 0
            &&& columns matches Some(cols) ==> w.live == cols && w.widths.len() == cols.len() && (0
                <= c < cols.len() ==> w.widths[c] == width(cols[c]))
        }),
{
}

} // verus!
