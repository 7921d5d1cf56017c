//! What holds of everything that is written: that a cell of CSV reads back, that
//! columns line up, and that a row stays one line.

use crate::json::{json_text, law_json_stays_on_one_line};
use crate::output::{
    all_widths, cell, cells, csv_cell, discovered, doubled, has_column, joined, json_line,
    markdown_line, marked, marked_char, needs_quotes, padded_cells, shown, shown_char, table_line,
    trimmed_end, widest, width, with_names,
};
use crate::text::{back_space, space};
use crate::value::{field, Fields, Tree};
use vstd::prelude::*;

verus! {

/// What stands between quotes from `i` on, behind `text`, two quotes taken for
/// one, and where the closing quote ends.
pub open spec fn csv_quoted(s: Seq<char>, i: int, text: Seq<char>) -> Option<(Seq<char>, int)>
    decreases s.len() - i,
{
    if !(0 <= i < s.len()) {
        None
    } else if s[i] == '"' {
        if i + 1 < s.len() && s[i + 1] == '"' {
            csv_quoted(s, i + 2, text.push('"'))
        } else {
            Some((text, i + 1))
        }
    } else {
        csv_quoted(s, i + 1, text.push(s[i]))
    }
}

/// Where a cell without quotes ends.
pub open spec fn csv_plain_end(s: Seq<char>, i: int) -> int
    decreases s.len() - i,
{
    if 0 <= i < s.len() && s[i] != ',' && s[i] != '\n' && s[i] != '\r' {
        csv_plain_end(s, i + 1)
    } else {
        i
    }
}

/// How a cell of CSV is read: the text of the one at `i`, and where it ends.
pub open spec fn csv_read(s: Seq<char>, i: int) -> Option<(Seq<char>, int)> {
    if 0 <= i < s.len() && s[i] == '"' {
        csv_quoted(s, i + 1, Seq::empty())
    } else {
        Some((s.subrange(i, csv_plain_end(s, i)), csv_plain_end(s, i)))
    }
}

proof fn lemma_doubled_adds(a: Seq<char>, b: Seq<char>)
    ensures
        doubled(a + b) == doubled(a) + doubled(b),
    decreases b.len(),
{
    if b.len() == 0 {
        assert(a + b =~= a);
        assert(doubled(a) + doubled(b) =~= doubled(a));
    } else {
        lemma_doubled_adds(a, b.drop_last());
        assert((a + b).drop_last() =~= a + b.drop_last());
        assert((a + b).last() == b.last());
        assert(doubled(a + b) =~= doubled(a) + doubled(b));
    }
}

proof fn lemma_quoted_reads(s: Seq<char>, start: int, c: Seq<char>, k: int)
    requires
        0 <= k <= c.len(),
        0 <= start,
        start + doubled(c).len() < s.len(),
        s.subrange(start, start + doubled(c).len()) == doubled(c),
        s[start + doubled(c).len()] == '"',
        start + doubled(c).len() + 1 < s.len() ==> s[start + doubled(c).len() + 1] != '"',
    ensures
        csv_quoted(s, start + doubled(c.subrange(0, k)).len(), c.subrange(0, k)) == Some(
            (c, start + doubled(c).len() + 1),
        ),
    decreases c.len() - k,
{
    let part = c.subrange(0, k);
    let at = start + doubled(part).len();
    if k == c.len() {
        assert(part =~= c);
    } else {
        let next = c.subrange(0, k + 1);
        let rest = c.subrange(k + 1, c.len() as int);
        assert(next.drop_last() =~= part);
        assert(next.last() == c[k]);
        assert(c =~= next + rest);
        lemma_doubled_adds(next, rest);
        let d = doubled(c);
        assert forall|j: int| 0 <= j < doubled(next).len() implies s[start + j] == #[trigger] doubled(
            next,
        )[j] by {
            assert(d[j] == doubled(next)[j]);
            assert(s.subrange(start, start + d.len())[j] == s[start + j]);
        }
        assert(s[at] == doubled(next)[doubled(part).len() as int]);
        if c[k] == '"' {
            assert(s[at + 1] == doubled(next)[doubled(part).len() as int + 1]);
        }
        assert(part.push(c[k]) =~= next);
        lemma_quoted_reads(s, start, c, k + 1);
    }
}

proof fn lemma_plain_end(s: Seq<char>, i: int, to: int)
    requires
        0 <= i <= to <= s.len(),
        forall|j: int|
            i <= j < to ==> (#[trigger] s[j]) != ',' && s[j] != '\n' && s[j] != '\r',
        to < s.len() ==> s[to] == ',' || s[to] == '\n' || s[to] == '\r',
    ensures
        csv_plain_end(s, i) == to,
    decreases to - i,
{
    if i < to {
        lemma_plain_end(s, i + 1, to);
    }
}

/// A cell of CSV, wherever it stands in a file, reads back as what was written
/// in it, whatever that holds.
pub proof fn law_a_csv_cell_reads_back(before: Seq<char>, c: Seq<char>, rest: Seq<char>)
    requires
        rest.len() > 0 ==> rest[0] == ',' || rest[0] == '\n' || rest[0] == '\r',
    ensures
        csv_read(before + csv_cell(c) + rest, before.len() as int) == Some(
            (c, (before.len() + csv_cell(c).len()) as int),
        ),
{
    let s = before + csv_cell(c) + rest;
    let i = before.len() as int;
    if needs_quotes(c) {
        assert(s[i] == '"');
        assert(s.subrange(i + 1, i + 1 + doubled(c).len()) =~= doubled(c));
        assert(s[i + 1 + doubled(c).len()] == '"');
        assert(c.subrange(0, 0) =~= Seq::empty());
        lemma_quoted_reads(s, i + 1, c, 0);
    } else {
        let to = i + c.len();
        assert forall|j: int| i <= j < to implies (#[trigger] s[j]) != ',' && s[j] != '\n' && s[j]
            != '\r' && s[j] != '"' by {
            assert(s[j] == c[j - i]);
        }
        lemma_plain_end(s, i, to);
        assert(s.subrange(i, to) =~= c);
        if c.len() > 0 {
            assert(s[i] != '"');
        } else if rest.len() > 0 {
            assert(s[i] == rest[0]);
        }
    }
}

proof fn lemma_widest(col: Seq<char>, rows: Seq<Fields>, n: nat)
    requires
        n <= rows.len(),
    ensures
        width(col) <= widest(col, rows, n),
        forall|i: int|
            0 <= i < n ==> width(cell(field(#[trigger] rows[i], col))) <= widest(col, rows, n),
    decreases n,
{
    if n > 0 {
        lemma_widest(col, rows, (n - 1) as nat);
    }
}

/// In a table every cell of a column, and its head, takes exactly the width of
/// the column, so that the columns line up.
pub proof fn law_columns_line_up(cols: Seq<Seq<char>>, rows: Seq<Fields>, r: int, c: int)
    requires
        0 <= r < rows.len(),
        0 <= c < cols.len(),
    ensures
        padded_cells(cols, all_widths(cols, rows))[c].len() == all_widths(cols, rows)[c],
        padded_cells(cells(cols, rows[r]), all_widths(cols, rows))[c].len() == all_widths(
            cols,
            rows,
        )[c],
{
    lemma_widest(cols[c], rows, rows.len());
}

/// Whether a text holds no line break.
pub open spec fn unbroken(s: Seq<char>) -> bool {
    forall|i: int| 0 <= i < s.len() ==> (#[trigger] s[i]) != '\n' && s[i] != '\r'
}

proof fn lemma_shown(s: Seq<char>)
    ensures
        unbroken(shown(s)),
        forall|i: int| 0 <= i < shown(s).len() ==> (#[trigger] shown(s)[i]) != '\t',
    decreases s.len(),
{
    if s.len() > 0 {
        lemma_shown(s.drop_last());
        let c = s.last();
        assert(unbroken(shown_char(c)));
    }
}

proof fn lemma_joined(parts: Seq<Seq<char>>, sep: Seq<char>, n: nat)
    requires
        n <= parts.len(),
        unbroken(sep),
        forall|i: int| 0 <= i < n ==> unbroken(#[trigger] parts[i]),
    ensures
        unbroken(joined(parts, sep, n)),
    decreases n,
{
    if n > 0 {
        lemma_joined(parts, sep, (n - 1) as nat);
        assert(unbroken(parts[n - 1]));
    }
}

proof fn lemma_back_space(s: Seq<char>, i: int)
    requires
        0 <= i <= s.len(),
    ensures
        0 <= back_space(s, i) <= i,
    decreases i,
{
    if i > 0 && space(s[i - 1]) {
        lemma_back_space(s, i - 1);
    }
}

/// A row of a table is one line: a line break within a value is shown escaped.
pub proof fn law_a_table_row_is_one_line(parts: Seq<Seq<char>>, widths: Seq<nat>)
    requires
        parts.len() == widths.len(),
    ensures
        table_line(parts, widths).len() > 0,
        table_line(parts, widths).last() == '\n',
        unbroken(table_line(parts, widths).drop_last()),
{
    let all = padded_cells(parts, widths);
    assert forall|i: int| 0 <= i < all.len() implies unbroken(#[trigger] all[i]) by {
        lemma_shown(parts[i]);
    }
    lemma_joined(all, seq![' ', ' '], parts.len());
    let whole = joined(all, seq![' ', ' '], parts.len());
    lemma_back_space(whole, whole.len() as int);
    assert(table_line(parts, widths).drop_last() =~= trimmed_end(whole));
}

/// Whether the character behind the first `n` is escaped by a backslash that is
/// not escaped itself.
pub open spec fn behind_escape(s: Seq<char>, n: nat) -> bool
    decreases n,
{
    0 < n <= s.len() && s[n - 1] == '\\' && !behind_escape(s, (n - 1) as nat)
}

proof fn lemma_escape_prefix(a: Seq<char>, b: Seq<char>, n: nat)
    requires
        n <= a.len(),
    ensures
        behind_escape(a + b, n) == behind_escape(a, n),
    decreases n,
{
    if n > 0 {
        lemma_escape_prefix(a, b, (n - 1) as nat);
    }
}

proof fn lemma_marked(s: Seq<char>)
    ensures
        unbroken(marked(s)),
        !behind_escape(marked(s), marked(s).len()),
        forall|i: int|
            0 <= i < marked(s).len() && (#[trigger] marked(s)[i]) == '|' ==> behind_escape(
                marked(s),
                i as nat,
            ),
    decreases s.len(),
{
    if s.len() > 0 {
        lemma_marked(s.drop_last());
        let m = marked(s.drop_last());
        let u = marked_char(s.drop_last(), s.last());
        assert(unbroken(u));
        let n = m.len();
        lemma_escape_prefix(m, u, n);
        assert(!behind_escape(m + u, n));
        assert forall|i: int| 0 <= i < (m + u).len() && (#[trigger] (m + u)[i])
            == '|' implies behind_escape(m + u, i as nat) by {
            if i < n {
                assert(m[i] == '|');
                lemma_escape_prefix(m, u, i as nat);
            } else {
                assert((m + u)[i] == u[i - n]);
                assert(i == n + 1);
                assert((m + u)[n as int] == u[0]);
            }
        }
        assert(!behind_escape(m + u, (m + u).len())) by {
            if u.len() == 2 {
                assert((m + u)[n as int] == u[0]);
                assert((m + u)[n as int + 1] == u[1]);
                assert(behind_escape(m + u, n + 1));
            } else if u.len() > 0 {
                assert((m + u)[(m + u).len() - 1] == u[u.len() - 1]);
            } else {
                assert(m + u =~= m);
            }
        }
    }
}

/// A value stays in its Markdown cell: it holds no line break, and every pipe in
/// it is escaped.
pub proof fn law_a_markdown_cell_stays_one_cell(s: Seq<char>)
    ensures
        unbroken(marked(s)),
        forall|i: int|
            0 <= i < marked(s).len() && (#[trigger] marked(s)[i]) == '|' ==> behind_escape(
                marked(s),
                i as nat,
            ),
{
    lemma_marked(s);
}

/// A row of a Markdown table is one line.
pub proof fn law_a_markdown_row_is_one_line(parts: Seq<Seq<char>>)
    ensures
        markdown_line(parts).len() > 0,
        markdown_line(parts).last() == '\n',
        unbroken(markdown_line(parts).drop_last()),
{
    reveal_strlit("| ");
    reveal_strlit(" | ");
    reveal_strlit(" |\n");
    let all = Seq::new(parts.len(), |i: int| marked(parts[i]));
    assert forall|i: int| 0 <= i < all.len() implies unbroken(#[trigger] all[i]) by {
        lemma_marked(parts[i]);
    }
    lemma_joined(all, " | "@, parts.len());
}

/// A row of JSON Lines is one line.
pub proof fn law_a_json_row_is_one_line(row: Fields)
    ensures
        json_line(row).len() > 0,
        json_line(row).last() == '\n',
        unbroken(json_line(row).drop_last()),
{
    law_json_stays_on_one_line(Tree::Object(row));
    let t = json_text(Tree::Object(row));
    assert(json_line(row).drop_last() =~= t);
    assert forall|i: int| 0 <= i < t.len() implies (#[trigger] t[i]) != '\n' && t[i] != '\r' by {
        assert(' ' <= t[i]);
    }
}

/// Whether no column stands twice.
pub open spec fn distinct_columns(cols: Seq<Seq<char>>) -> bool {
    forall|i: int, j: int| 0 <= i < j < cols.len() ==> #[trigger] cols[i] != #[trigger] cols[j]
}

proof fn lemma_with_names(cols: Seq<Seq<char>>, row: Fields, n: nat, name: Seq<char>)
    requires
        n <= row.len(),
        distinct_columns(cols),
    ensures
        distinct_columns(with_names(cols, row, n)),
        has_column(with_names(cols, row, n), name) == (has_column(cols, name) || exists|i: int|
            0 <= i < n && (#[trigger] row[i]).0 == name),
        with_names(cols, row, n).len() >= cols.len(),
        forall|i: int| 0 <= i < cols.len() ==> with_names(cols, row, n)[i] == #[trigger] cols[i],
    decreases n,
{
    if n > 0 {
        let m = (n - 1) as nat;
        lemma_with_names(cols, row, m, name);
        let before = with_names(cols, row, m);
        let now = with_names(cols, row, n);
        let new = row[m as int].0;
        if !has_column(before, new) {
            assert(now[before.len() as int] == new);
            if has_column(before, name) {
                let i = choose|i: int| 0 <= i < before.len() && #[trigger] before[i] == name;
                assert(now[i] == name);
            }
            if has_column(now, name) && new != name {
                let i = choose|i: int| 0 <= i < now.len() && #[trigger] now[i] == name;
                assert(before[i] == name);
            }
        }
        if new == name {
            assert(row[m as int].0 == name);
        }
    }
}

proof fn lemma_discovered(rows: Seq<Fields>, n: nat, name: Seq<char>)
    requires
        n <= rows.len(),
    ensures
        distinct_columns(discovered(rows, n)),
        has_column(discovered(rows, n), name) == exists|r: int, i: int|
            0 <= r < n && 0 <= i < rows[r].len() && (#[trigger] rows[r][i]).0 == name,
    decreases n,
{
    if n > 0 {
        let m = (n - 1) as nat;
        lemma_discovered(rows, m, name);
        lemma_with_names(discovered(rows, m), rows[m as int], rows[m as int].len(), name);
        if exists|i: int| 0 <= i < rows[m as int].len() && (#[trigger] rows[m as int][i]).0 == name {
            let i = choose|i: int|
                0 <= i < rows[m as int].len() && (#[trigger] rows[m as int][i]).0 == name;
            assert(0 <= m < n && rows[m as int][i].0 == name);
        }
    }
}

/// Where a query names no columns, they are the fields of all rows: each has its
/// column, and just one.
pub proof fn law_columns_cover_every_field(rows: Seq<Fields>, name: Seq<char>)
    ensures
        distinct_columns(discovered(rows, rows.len())),
        has_column(discovered(rows, rows.len()), name) == exists|r: int, i: int|
            0 <= r < rows.len() && 0 <= i < rows[r].len() && (#[trigger] rows[r][i]).0 == name,
{
    lemma_discovered(rows, rows.len(), name);
}

/// Further rows leave the columns found so far in their places.
pub proof fn law_columns_stand_in_the_order_first_seen(rows: Seq<Fields>, n: nat, i: int)
    requires
        n < rows.len(),
        0 <= i < discovered(rows, n).len(),
    ensures
        i < discovered(rows, n + 1).len(),
        discovered(rows, n + 1)[i] == discovered(rows, n)[i],
{
    lemma_discovered(rows, n, Seq::empty());
    lemma_with_names(
        discovered(rows, n),
        rows[n as int],
        rows[n as int].len(),
        Seq::empty(),
    );
}

} // verus!
