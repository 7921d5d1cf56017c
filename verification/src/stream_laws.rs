//! What holds of input as it comes in: bytes are cut into lines at line feeds, each
//! line is one record or none, and a file that is followed is read where it grows.

use crate::args::follow_fault;
use crate::ast::{grouped, QueryView};
use crate::decimal::nat_text;
use crate::engine::{accepted, finished, EngineView};
use crate::eval::Env;
use crate::output::{ended, written, WriterView};
use crate::pattern::PatternView;
use crate::record::{line_fields, pattern_fields};
use crate::render_laws::run_through;
use crate::stream::{
    fed, feed_from, handled_bytes, last_text, line_content, line_record, next_action, observed,
    rows_written, skip_notice, unfinished, whole_lines, Action,
};
use crate::value::Fields;
use vstd::prelude::*;
use vstd::utf8::{decode_utf8, valid_utf8};

verus! {

proof fn lemma_feed_run(s: Seq<u8>, i: int, e: int)
    requires
        0 <= i <= e <= s.len(),
        forall|j: int| i <= j < e ==> #[trigger] s[j] != 10,
        e == s.len() || s[e] == 10,
    ensures
        feed_from(s, i) == e,
    decreases e - i,
{
    if i < e {
        lemma_feed_run(s, i + 1, e);
    }
}

/// A line ends at its line feed, and a carriage return before that is no part of it.
/// What no line feed ends is no line yet.
pub proof fn law_lines_end_at_their_feeds(line: Seq<u8>, rest: Seq<u8>)
    requires
        forall|i: int| 0 <= i < line.len() ==> #[trigger] line[i] != 10,
    ensures
        ({
            let feed = seq![10u8];
            let content = if line.len() > 0 && line.last() == 13 {
                line.drop_last()
            } else {
                line
            };
            &&& whole_lines(line + feed + rest) == seq![content] + whole_lines(rest)
            &&& unfinished(line + feed + rest) == unfinished(rest)
            &&& whole_lines(line) == Seq::<Seq<u8>>::empty()
            &&& unfinished(line) == line
            &&& line_content(line + feed) == content
            &&& line_content(line) == line
        }),
{
    let feed = seq![10u8];
    let s = line + feed + rest;
    let n = line.len() as int;
    assert forall|j: int| 0 <= j < n implies #[trigger] s[j] != 10 by {
        assert(s[j] == line[j]);
    }
    assert(s[n] == 10);
    lemma_feed_run(s, 0, n);
    lemma_feed_run(line, 0, n);
    assert(s.subrange(0, n) =~= line);
    assert(s.subrange(n + 1, s.len() as int) =~= rest);
    assert((line + feed).drop_last() =~= line);
    assert((line + feed).last() == 10);
    if n > 0 {
        assert(line[n - 1] != 10);
    }
}

/// A line is read by the pattern where there is one, and otherwise by what it looks
/// like.
pub proof fn law_a_pattern_reads_every_line(p: PatternView, line: Seq<char>)
    ensures
        line_record(Some(p), line) == pattern_fields(p, line),
        line_fields(line) is None ==> line_record(None, line) is None,
        line_fields(line) matches Some((fields, _)) ==> line_record(None, line) == Some(fields),
{
}

/// A record that the query turns into a row puts out what the writer makes of that
/// row, and a record that gives no row puts out nothing; neither counts as skipped.
pub proof fn law_records_become_rows(
    q: QueryView,
    engine: EngineView,
    writer: WriterView,
    skipped: u64,
    pattern: Option<PatternView>,
    raw: Seq<u8>,
    fields: Fields,
    env: Env,
)
    requires
        valid_utf8(raw),
        line_record(pattern, decode_utf8(raw)) == Some(fields),
    ensures
        ({
            let after = handled_bytes(q, engine, writer, skipped, pattern, raw, env);
            let (next, row) = accepted(q, engine, fields, env);
            &&& after.engine == next
            &&& after.skipped == skipped
            &&& row is None ==> after.writer == writer && after.text == Seq::<char>::empty()
            &&& row is Some ==> (after.writer, after.text) == written(writer, row->0)
        }),
{
}

proof fn lemma_rows_written(w: WriterView, rows: Seq<Fields>, n: nat)
    ensures
        rows_written(w, rows, n) == run_through(w, rows, n),
    decreases n,
{
    if n > 0 && n <= rows.len() {
        lemma_rows_written(w, rows, (n - 1) as nat);
    }
}

/// At the end of the input the rows that were held back go out, and what the writer
/// held back behind them.
pub proof fn law_the_last_rows_go_out_at_the_end(
    q: QueryView,
    engine: EngineView,
    writer: WriterView,
    env: Env,
)
    ensures
        ({
            let rows = finished(q, engine, env);
            let (end, text) = run_through(writer, rows, rows.len());
            last_text(q, engine, writer, env) == text + ended(end)
        }),
{
    let rows = finished(q, engine, env);
    lemma_rows_written(writer, rows, rows.len());
}

/// The notice of skipped lines tells how many there were, and is left out where there
/// were none or quiet was asked for.
pub proof fn law_the_notice_counts_the_skipped_lines(skipped: u64)
    ensures
        skip_notice(skipped, true) is None,
        skip_notice(0, false) is None,
        skip_notice(1, false) == Some("skipped "@ + nat_text(1) + " malformed line"@),
        skipped > 1 ==> skip_notice(skipped, false) == Some(
            "skipped "@ + nat_text(skipped as nat) + " malformed lines"@,
        ),
{
}

/// A file that is followed is read where it has grown, left alone where it has not,
/// opened anew where it is shorter than what was read of it, and waited for where it
/// is gone.
pub proof fn law_a_followed_file_is_read_where_it_grows(len: u64, offset: u64)
    ensures
        next_action(None, offset) == Action::Wait,
        len > offset ==> next_action(Some(len), offset) == Action::Read,
        len == offset ==> next_action(Some(len), offset) == Action::Idle,
        len < offset ==> next_action(Some(len), offset) == Action::Reopen,
{
}

/// A query that sorts or groups cannot follow a file, and any other can.
pub proof fn law_what_needs_the_whole_input_cannot_follow(q: QueryView)
    ensures
        follow_fault(q) is Some <==> q.order_by is Some || grouped(q),
{
}

/// A file that has shrunk is read from its start, and what was unfinished of it is
/// dropped. Otherwise reading goes on where it stopped.
pub proof fn law_a_rotated_file_is_read_from_its_start(offset: u64, pending: Seq<u8>, len: u64)
    ensures
        len < offset ==> observed(offset, pending, Some(len)) == (0u64, Seq::<u8>::empty()),
        len >= offset ==> observed(offset, pending, Some(len)) == (offset, pending),
        observed(offset, pending, None) == (offset, pending),
{
}

/// Pieces of a file read one after the other come to the same as both at once, and the
/// lines of both are those of the whole.
pub proof fn law_pieces_add_up(offset: u64, pending: Seq<u8>, a: Seq<u8>, b: Seq<u8>)
    requires
        offset + a.len() <= u64::MAX,
    ensures
        fed(fed(offset, pending, a).0 as u64, fed(offset, pending, a).1, b) == fed(
            offset,
            pending,
            a + b,
        ),
        fed(offset, pending, Seq::empty()) == (offset as int, pending),
        fed(offset, Seq::empty(), a) == (offset + a.len(), a),
{
    assert((pending + a) + b =~= pending + (a + b));
    assert(pending + Seq::<u8>::empty() =~= pending);
    assert(Seq::<u8>::empty() + a =~= a);
}

} // verus!
