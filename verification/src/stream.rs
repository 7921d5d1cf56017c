//! From bytes to output: lines cut from what is read, records made of them, rows
//! written.

use crate::ast::QueryView;
use crate::decimal::{nat_text, push_nat};
use crate::engine::{accepted, done, finished, Engine, EngineView};
use crate::eval::Env;
use crate::group::{count_one, counted, records_view};
use crate::json::push_text;
use crate::output::{ended, written, Writer, WriterView};
use crate::pattern::{Pattern, PatternView};
use crate::record::{line_fields, parse_line, parse_with_pattern, pattern_fields};
use crate::text::{
    chars_of, lemma_back_space, lemma_skip_space, skip_space, skip_spaces, string_of, trimmed,
};
use crate::value::{Fields, Record};
use vstd::prelude::*;
use vstd::utf8::{decode_utf8, valid_utf8};

verus! {

/// `String::from_utf8`: the text that bytes encode, where they are UTF-8, and
/// nothing where they are not.
#[verifier::external_body]
fn read_utf8(bytes: Vec<u8>) -> (r: Option<String>)
    ensures
        match r {
            Some(s) => valid_utf8(bytes@) && s@ == decode_utf8(bytes@),
            None => !valid_utf8(bytes@),
        },
{
    String::from_utf8(bytes).ok()
}

/// A line without its end: without a line feed, and without a carriage return
/// right before that.
pub open spec fn line_content(s: Seq<u8>) -> Seq<u8> {
    if s.len() > 0 && s.last() == 10 {
        without_return(s.drop_last())
    } else {
        s
    }
}

/// A line without a carriage return at its end.
pub open spec fn without_return(s: Seq<u8>) -> Seq<u8> {
    if s.len() > 0 && s.last() == 13 {
        s.drop_last()
    } else {
        s
    }
}

/// Takes the end off a line.
pub fn strip_line_end(buf: &mut Vec<u8>)
    ensures
        final(buf)@ == line_content(old(buf)@),
{
    if buf.len() > 0 && buf[buf.len() - 1] == 10 {
        buf.pop();
        strip_return(buf);
    }
}

fn strip_return(buf: &mut Vec<u8>)
    ensures
        final(buf)@ == without_return(old(buf)@),
{
    if buf.len() > 0 && buf[buf.len() - 1] == 13 {
        buf.pop();
    }
}

/// What a line holds: by a pattern where there is one, otherwise as JSON or
/// logfmt.
pub open spec fn line_record(pattern: Option<PatternView>, line: Seq<char>) -> Option<Fields> {
    match pattern {
        Some(p) => pattern_fields(p, line),
        None => match line_fields(line) {
            Some((fields, _)) => Some(fields),
            None => None,
        },
    }
}

/// Whether a line holds nothing but white space.
pub open spec fn blank(line: Seq<char>) -> bool {
    trimmed(line).len() == 0
}

/// What a line makes of a run, and the text that goes out with it.
#[verifier::ext_equal]
pub struct Progress {
    pub engine: EngineView,
    pub writer: WriterView,
    pub skipped: u64,
    pub text: Seq<char>,
}

/// A run behind one more record, where the line was one. Any other is counted,
/// unless it is blank.
pub open spec fn handled(
    q: QueryView,
    engine: EngineView,
    writer: WriterView,
    skipped: u64,
    record: Option<Fields>,
    empty: bool,
    env: Env,
) -> Progress {
    match record {
        Some(fields) => {
            let (next, row) = accepted(q, engine, fields, env);
            match row {
                Some(r) => Progress {
                    engine: next,
                    writer: written(writer, r).0,
                    skipped,
                    text: written(writer, r).1,
                },
                None => Progress { engine: next, writer, skipped, text: Seq::empty() },
            }
        },
        None => Progress {
            engine,
            writer,
            skipped: if empty {
                skipped
            } else {
                counted(skipped)
            },
            text: Seq::empty(),
        },
    }
}

/// The view of an optional pattern.
pub open spec fn pattern_opt(p: Option<Pattern>) -> Option<PatternView> {
    match p {
        Some(x) => Some(x@),
        None => None,
    }
}

fn is_blank(line: &str) -> (r: bool)
    ensures
        r == blank(line@),
{
    let chars = chars_of(line);
    proof {
        lemma_trimmed(line@);
    }
    skip_spaces(&chars, 0) == chars.len()
}

proof fn lemma_trimmed(s: Seq<char>)
    ensures
        blank(s) == (skip_space(s, 0) >= s.len()),
{
    let from = skip_space(s, 0);
    lemma_skip_space(s, 0);
    if from < s.len() {
        lemma_back_space(s, from, s.len() as int);
    }
}

fn read_record(line: &str, pattern: &Option<Pattern>) -> (r: Option<Record>)
    ensures
        match r {
            Some(record) => line_record(pattern_opt(*pattern), line@) == Some(record@),
            None => line_record(pattern_opt(*pattern), line@) is None,
        },
{
    match pattern {
        Some(p) => parse_with_pattern(line, p),
        None => match parse_line(line) {
            Some((record, _)) => Some(record),
            None => None,
        },
    }
}

/// Processes one line. Gives the text that goes out, and whether the engine wants
/// more.
pub fn handle_line<'q>(
    line: &str,
    pattern: &Option<Pattern>,
    engine: &mut Engine<'q>,
    writer: &mut Writer,
    skipped: &mut u64,
    env: Env,
) -> (r: (String, bool))
    requires
        old(engine).wf(),
        old(writer).wf(),
    ensures
        final(engine).wf(),
        final(writer).wf(),
        final(engine).query() == old(engine).query(),
        ({
            let p = handled(
                old(engine).query(),
                old(engine)@,
                old(writer)@,
                *old(skipped),
                line_record(pattern_opt(*pattern), line@),
                blank(line@),
                env,
            );
            &&& final(engine)@ == p.engine
            &&& final(writer)@ == p.writer
            &&& *final(skipped) == p.skipped
            &&& r.0@ == p.text
            &&& r.1 == !done(old(engine).query(), p.engine)
        }),
{
    let mut text = String::new();
    assert(text@ =~= Seq::<char>::empty());
    match read_record(line, pattern) {
        Some(record) => {
            if let Some(row) = engine.accept(&record, env) {
                text = writer.write(&row);
            }
        },
        None => {
            if !is_blank(line) {
                *skipped = count_one(*skipped);
            }
        },
    }
    let more = !engine.is_done();
    (text, more)
}

/// A run behind one more line of bytes. One that is no UTF-8 is counted.
pub open spec fn handled_bytes(
    q: QueryView,
    engine: EngineView,
    writer: WriterView,
    skipped: u64,
    pattern: Option<PatternView>,
    raw: Seq<u8>,
    env: Env,
) -> Progress {
    if valid_utf8(raw) {
        let line = decode_utf8(raw);
        handled(q, engine, writer, skipped, line_record(pattern, line), blank(line), env)
    } else {
        Progress { engine, writer, skipped: counted(skipped), text: Seq::empty() }
    }
}

/// A malformed line changes nothing but the count of such lines, and a blank one
/// nothing at all: neither ends a run.
pub proof fn law_malformed_lines_are_only_counted(
    q: QueryView,
    engine: EngineView,
    writer: WriterView,
    skipped: u64,
    pattern: Option<PatternView>,
    raw: Seq<u8>,
    env: Env,
)
    requires
        !valid_utf8(raw) || line_record(pattern, decode_utf8(raw)) is None,
    ensures
        handled_bytes(q, engine, writer, skipped, pattern, raw, env) == (Progress {
            engine,
            writer,
            skipped: if valid_utf8(raw) && blank(decode_utf8(raw)) {
                skipped
            } else {
                counted(skipped)
            },
            text: Seq::empty(),
        }),
{
}

/// Processes one line of bytes, its end taken off. Gives the text that goes out,
/// and whether the engine wants more.
pub fn handle_bytes<'q>(
    raw: Vec<u8>,
    pattern: &Option<Pattern>,
    engine: &mut Engine<'q>,
    writer: &mut Writer,
    skipped: &mut u64,
    env: Env,
) -> (r: (String, bool))
    requires
        old(engine).wf(),
        old(writer).wf(),
    ensures
        final(engine).wf(),
        final(writer).wf(),
        final(engine).query() == old(engine).query(),
        ({
            let p = handled_bytes(
                old(engine).query(),
                old(engine)@,
                old(writer)@,
                *old(skipped),
                pattern_opt(*pattern),
                raw@,
                env,
            );
            &&& final(engine)@ == p.engine
            &&& final(writer)@ == p.writer
            &&& *final(skipped) == p.skipped
            &&& r.0@ == p.text
            &&& r.1 == !done(old(engine).query(), p.engine)
        }),
{
    match read_utf8(raw) {
        Some(line) => handle_line(line.as_str(), pattern, engine, writer, skipped, env),
        None => {
            *skipped = count_one(*skipped);
            let text = String::new();
            assert(text@ =~= Seq::<char>::empty());
            (text, !engine.is_done())
        },
    }
}

/// A writer behind the first `n` of some rows, and the text that goes out with
/// them.
pub open spec fn rows_written(w: WriterView, rows: Seq<Fields>, n: nat) -> (WriterView, Seq<char>)
    decreases n,
{
    if n == 0 || n > rows.len() {
        (w, Seq::empty())
    } else {
        let (before, text) = rows_written(w, rows, (n - 1) as nat);
        (written(before, rows[n - 1]).0, text + written(before, rows[n - 1]).1)
    }
}

/// The text that goes out when the input has ended.
pub open spec fn last_text(
    q: QueryView,
    engine: EngineView,
    writer: WriterView,
    env: Env,
) -> Seq<char> {
    let rows = finished(q, engine, env);
    let (end, text) = rows_written(writer, rows, rows.len());
    text + ended(end)
}

/// Writes what the engine held back, and ends the output.
pub fn conclude<'q>(engine: &mut Engine<'q>, writer: &mut Writer, env: Env) -> (r: String)
    requires
        old(engine).wf(),
        old(writer).wf(),
    ensures
        final(engine).wf(),
        final(writer).wf(),
        final(engine).query() == old(engine).query(),
        final(engine)@ == (EngineView {
            buffer: Seq::empty(),
            groups: Seq::empty(),
            ..old(engine)@
        }),
        ({
            let rows = finished(old(engine).query(), old(engine)@, env);
            final(writer)@ == (WriterView {
                rows: Seq::empty(),
                ..rows_written(old(writer)@, rows, rows.len()).0
            })
        }),
        r@ == last_text(old(engine).query(), old(engine)@, old(writer)@, env),
{
    let rows = engine.finish(env);
    let ghost all = records_view(rows@);
    let mut out: Vec<char> = Vec::new();
    let mut i: usize = 0;
    while i < rows.len()
        invariant
            writer.wf(),
            i <= rows@.len(),
            all == records_view(rows@),
            writer@ == rows_written(old(writer)@, all, i as nat).0,
            out@ == rows_written(old(writer)@, all, i as nat).1,
        decreases rows.len() - i,
    {
        let text = writer.write(&rows[i]);
        push_text(&mut out, text.as_str());
        i += 1;
    }
    assert(all.len() == rows@.len());
    let text = writer.finish();
    push_text(&mut out, text.as_str());
    string_of(&out)
}

/// What is reported of lines that were skipped.
pub open spec fn skip_notice(skipped: u64, quiet: bool) -> Option<Seq<char>> {
    if skipped == 0 || quiet {
        None
    } else {
        Some(
            "skipped "@ + nat_text(skipped as nat) + (if skipped == 1 {
                " malformed line"@
            } else {
                " malformed lines"@
            }),
        )
    }
}

/// What is reported of lines that were skipped, if anything is.
pub fn skip_message(skipped: u64, quiet: bool) -> (r: Option<String>)
    ensures
        match r {
            Some(s) => skip_notice(skipped, quiet) == Some(s@),
            None => skip_notice(skipped, quiet) is None,
        },
{
    if skipped == 0 || quiet {
        return None;
    }
    let mut out: Vec<char> = Vec::new();
    push_text(&mut out, "skipped ");
    push_nat(&mut out, skipped);
    if skipped == 1 {
        push_text(&mut out, " malformed line");
    } else {
        push_text(&mut out, " malformed lines");
    }
    assert(Some(out@) == skip_notice(skipped, quiet)) by {
        assert(out@ =~= skip_notice(skipped, quiet)->0);
    }
    Some(string_of(&out))
}

/// Where the first line feed stands from `i` on, or the end.
pub open spec fn feed_from(s: Seq<u8>, i: int) -> int
    decreases s.len() - i,
{
    if 0 <= i < s.len() && s[i] != 10 {
        feed_from(s, i + 1)
    } else {
        i
    }
}

/// The whole lines of some bytes, without their ends.
pub open spec fn whole_lines(s: Seq<u8>) -> Seq<Seq<u8>>
    decreases s.len(),
{
    let at = feed_from(s, 0);
    if 0 <= at < s.len() {
        seq![without_return(s.subrange(0, at))] + whole_lines(s.subrange(at + 1, s.len() as int))
    } else {
        Seq::empty()
    }
}

/// What stands behind the last whole line.
pub open spec fn unfinished(s: Seq<u8>) -> Seq<u8>
    decreases s.len(),
{
    let at = feed_from(s, 0);
    if 0 <= at < s.len() {
        unfinished(s.subrange(at + 1, s.len() as int))
    } else {
        s
    }
}

/// What to do next about a file that may grow.
#[derive(Clone, Copy, Debug, PartialEq, Eq, Structural)]
pub enum Action {
    /// The file is not there: wait and look again.
    Wait,
    /// The file is shorter than what was read of it: open it anew, and read it
    /// from its start.
    Reopen,
    /// Nothing was added: wait, and look whether the path leads to another file.
    Idle,
    /// Read on from the offset.
    Read,
}

/// What to do about a file of some length, of which some bytes were read.
pub open spec fn next_action(len: Option<u64>, offset: u64) -> Action {
    match len {
        None => Action::Wait,
        Some(n) => if n < offset {
            Action::Reopen
        } else if n == offset {
            Action::Idle
        } else {
            Action::Read
        },
    }
}

/// How far a growing file was read, and the line that its producer has not
/// finished yet.
pub struct Tail {
    pub offset: u64,
    pub pending: Vec<u8>,
}

/// How far a file has been read and what is unfinished of it, behind a look at its
/// length.
pub open spec fn observed(offset: u64, pending: Seq<u8>, len: Option<u64>) -> (u64, Seq<u8>) {
    if next_action(len, offset) == Action::Reopen {
        (0, Seq::empty())
    } else {
        (offset, pending)
    }
}

/// How far a file has been read and what is unfinished of it, behind a piece of it.
pub open spec fn fed(offset: u64, pending: Seq<u8>, chunk: Seq<u8>) -> (int, Seq<u8>) {
    (offset + chunk.len(), pending + chunk)
}

impl Tail {
    pub fn new(offset: u64) -> (r: Tail)
        ensures
            r.offset == offset,
            r.pending@ == Seq::<u8>::empty(),
    {
        Tail { offset, pending: Vec::new() }
    }

    /// Looks at the length of the open file. One that shrank was rotated, and is
    /// read from its start.
    pub fn observe(&mut self, len: Option<u64>) -> (r: Action)
        ensures
            r == next_action(len, old(self).offset),
            (final(self).offset, final(self).pending@) == observed(
                old(self).offset,
                old(self).pending@,
                len,
            ),
            final(self).offset == (if r == Action::Reopen {
                0
            } else {
                old(self).offset
            }),
            final(self).pending@ == (if r == Action::Reopen {
                Seq::empty()
            } else {
                old(self).pending@
            }),
    {
        match len {
            None => Action::Wait,
            Some(n) => if n < self.offset {
                self.offset = 0;
                self.pending.clear();
                Action::Reopen
            } else if n == self.offset {
                Action::Idle
            } else {
                Action::Read
            },
        }
    }

    /// Looks at the length of the file that the path leads to by now. True where
    /// it is another one, which is read from its start.
    pub fn observe_path(&mut self, len: Option<u64>) -> (r: bool)
        ensures
            r == (next_action(len, old(self).offset) == Action::Reopen),
            (final(self).offset, final(self).pending@) == observed(
                old(self).offset,
                old(self).pending@,
                len,
            ),
            final(self).offset == (if r {
                0
            } else {
                old(self).offset
            }),
            final(self).pending@ == (if r {
                Seq::empty()
            } else {
                old(self).pending@
            }),
    {
        match self.observe(len) {
            Action::Reopen => true,
            _ => false,
        }
    }

    /// Takes what was read.
    pub fn feed(&mut self, chunk: &[u8])
        requires
            old(self).offset + chunk@.len() <= u64::MAX,
        ensures
            (final(self).offset as int, final(self).pending@) == fed(
                old(self).offset,
                old(self).pending@,
                chunk@,
            ),
            final(self).offset == old(self).offset + chunk@.len(),
            final(self).pending@ == old(self).pending@ + chunk@,
    {
        self.offset = self.offset + chunk.len() as u64;
        let mut i: usize = 0;
        assert(self.pending@ =~= old(self).pending@ + chunk@.subrange(0, 0));
        while i < chunk.len()
            invariant
                i <= chunk@.len(),
                self.offset == old(self).offset + chunk@.len(),
                self.pending@ == old(self).pending@ + chunk@.subrange(0, i as int),
            decreases chunk.len() - i,
        {
            self.pending.push(chunk[i]);
            i += 1;
            assert(self.pending@ =~= old(self).pending@ + chunk@.subrange(0, i as int));
        }
        assert(chunk@.subrange(0, i as int) =~= chunk@);
    }

    /// Takes the whole lines, without their ends, and keeps what stands behind
    /// them.
    pub fn take_lines(&mut self) -> (r: Vec<Vec<u8>>)
        ensures
            bytes_view(r@) == whole_lines(old(self).pending@),
            final(self).pending@ == unfinished(old(self).pending@),
            final(self).offset == old(self).offset,
    {
        let ghost all = self.pending@;
        let mut lines: Vec<Vec<u8>> = Vec::new();
        let mut line: Vec<u8> = Vec::new();
        let mut start: usize = 0;
        let mut i: usize = 0;
        assert(all.subrange(0, all.len() as int) =~= all);
        assert(bytes_view(lines@) + whole_lines(all) =~= whole_lines(all));
        while i < self.pending.len()
            invariant
                start <= i <= self.pending@.len(),
                self.pending@ == all,
                self.offset == old(self).offset,
                line@ == all.subrange(start as int, i as int),
                whole_lines(all) == bytes_view(lines@) + whole_lines(
                    all.subrange(start as int, all.len() as int),
                ),
                unfinished(all) == unfinished(all.subrange(start as int, all.len() as int)),
                forall|j: int| start <= j < i ==> all[j] != 10,
            decreases self.pending.len() - i,
        {
            let b: u8 = self.pending[i];
            if b == 10 {
                let ghost rest = all.subrange(start as int, all.len() as int);
                let ghost at = i - start;
                let ghost had = bytes_view(lines@);
                proof {
                    lemma_feed(rest, 0, at);
                    assert(rest.subrange(0, at) =~= line@);
                    assert(rest.subrange(at + 1, rest.len() as int) =~= all.subrange(
                        i + 1,
                        all.len() as int,
                    ));
                }
                strip_return(&mut line);
                let ghost content = line@;
                lines.push(line);
                line = Vec::new();
                i += 1;
                start = i;
                proof {
                    assert(bytes_view(lines@) =~= had.push(content));
                    assert(had + (seq![content] + whole_lines(
                        all.subrange(i as int, all.len() as int),
                    )) =~= bytes_view(lines@) + whole_lines(
                        all.subrange(i as int, all.len() as int),
                    ));
                    assert(line@ =~= all.subrange(start as int, i as int));
                }
            } else {
                line.push(b);
                i += 1;
                assert(line@ =~= all.subrange(start as int, i as int));
            }
        }
        proof {
            let rest = all.subrange(start as int, all.len() as int);
            lemma_no_feed(rest, 0);
            assert(bytes_view(lines@) + whole_lines(rest) =~= bytes_view(lines@));
        }
        self.pending = line;
        lines
    }
}

/// What a list of byte lines holds.
pub open spec fn bytes_view(v: Seq<Vec<u8>>) -> Seq<Seq<u8>> {
    Seq::new(v.len(), |i: int| v[i]@)
}

proof fn lemma_feed(s: Seq<u8>, i: int, at: int)
    requires
        0 <= i <= at < s.len(),
        s[at] == 10,
        forall|j: int| i <= j < at ==> s[j] != 10,
    ensures
        feed_from(s, i) == at,
    decreases at - i,
{
    if i < at {
        lemma_feed(s, i + 1, at);
    }
}

proof fn lemma_no_feed(s: Seq<u8>, i: int)
    requires
        0 <= i <= s.len(),
        forall|j: int| i <= j < s.len() ==> s[j] != 10,
    ensures
        feed_from(s, i) == s.len(),
    decreases s.len() - i,
{
    if i < s.len() {
        lemma_no_feed(s, i + 1);
    }
}

proof fn lemma_feed_found(s: Seq<u8>, i: int)
    requires
        0 <= i <= s.len(),
    ensures
        i <= feed_from(s, i) <= s.len(),
        feed_from(s, i) < s.len() ==> s[feed_from(s, i)] == 10,
        forall|j: int| i <= j < feed_from(s, i) ==> s[j] != 10,
    decreases s.len() - i,
{
    if i < s.len() && s[i] != 10 {
        lemma_feed_found(s, i + 1);
    }
}

/// The lines of a file do not depend on the pieces in which it was read: what one
/// piece leaves unfinished, the next goes on with.
pub proof fn law_lines_do_not_depend_on_the_pieces(a: Seq<u8>, b: Seq<u8>)
    ensures
        whole_lines(a + b) == whole_lines(a) + whole_lines(unfinished(a) + b),
        unfinished(a + b) == unfinished(unfinished(a) + b),
    decreases a.len(),
{
    lemma_feed_found(a, 0);
    let at = feed_from(a, 0);
    if at < a.len() {
        let rest = a.subrange(at + 1, a.len() as int);
        lemma_feed(a + b, 0, at);
        assert((a + b).subrange(0, at) =~= a.subrange(0, at));
        assert((a + b).subrange(at + 1, (a + b).len() as int) =~= rest + b);
        law_lines_do_not_depend_on_the_pieces(rest, b);
        assert(whole_lines(a + b) =~= whole_lines(a) + whole_lines(unfinished(a) + b));
    } else {
        assert(whole_lines(a) + whole_lines(unfinished(a) + b) =~= whole_lines(a + b));
    }
}

/// No line holds a line feed, and neither does what is unfinished.
pub proof fn law_lines_hold_no_line_feed(s: Seq<u8>)
    ensures
        forall|i: int, j: int|
            0 <= i < whole_lines(s).len() && 0 <= j < whole_lines(s)[i].len() ==> #[trigger]
            whole_lines(s)[i][j] != 10,
        forall|j: int| 0 <= j < unfinished(s).len() ==> #[trigger] unfinished(s)[j] != 10,
    decreases s.len(),
{
    lemma_feed_found(s, 0);
    let at = feed_from(s, 0);
    if at < s.len() {
        let rest = s.subrange(at + 1, s.len() as int);
        law_lines_hold_no_line_feed(rest);
        assert(unfinished(s) == unfinished(rest));
        assert forall|i: int, j: int|
            0 <= i < whole_lines(s).len() && 0 <= j < whole_lines(s)[i].len() implies #[trigger]
            whole_lines(s)[i][j] != 10 by {
            if i > 0 {
                assert(whole_lines(s)[i] == whole_lines(rest)[i - 1]);
            }
        }
    } else {
        assert(unfinished(s) == s);
        assert forall|j: int| 0 <= j < s.len() implies #[trigger] s[j] != 10 by {}
    }
}

} // verus!
