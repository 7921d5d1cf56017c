//! The syntax of patterns: from the text of a pattern to its parts.
//!
//! Each rule is a function from the text and a position to the part that stands
//! there, the position behind it, and the names of the groups so far; or to the
//! fault that is found there.

use crate::decimal::{digits_end, digits_value, nat_text, push_nat, push_part, skip_digits};
use crate::json::push_text;
use crate::lexer::{char_at, spaces, Fault};
use crate::pattern::{
    lemma_leaf_views, lemma_nodes_view, names_view, nodes_view, ClassItem, Node, NodeView, Pattern,
    PatternView,
};
use crate::text::{
    alphanumeric, chars_between, chars_of, digit, hex_digit, is_digit, is_hex_digit, same_chars,
    string_of,
};
use vstd::prelude::*;

verus! {

/// The names of groups; `None` for a group without one.
pub type Names = Seq<Option<Seq<char>>>;

/// What stands at a position, where it ends, and the names of groups so far; or
/// the fault found there.
pub type Read = Result<(NodeView, int, Names), Fault>;

/// The fault of a position outside the text, which no rule comes to.
pub open spec fn lost() -> Fault {
    Fault { message: Seq::empty(), col: 0 }
}

/// The class that an escape names.
pub open spec fn escaped_class(c: char) -> Option<ClassItem> {
    if c == 'd' {
        Some(ClassItem::Digit(true))
    } else if c == 'D' {
        Some(ClassItem::Digit(false))
    } else if c == 'w' {
        Some(ClassItem::Word(true))
    } else if c == 'W' {
        Some(ClassItem::Word(false))
    } else if c == 's' {
        Some(ClassItem::Space(true))
    } else if c == 'S' {
        Some(ClassItem::Space(false))
    } else {
        None
    }
}

/// The class that an escape names.
pub fn class_escape(c: char) -> (r: Option<ClassItem>)
    ensures
        r == escaped_class(c),
{
    match c {
        'd' => Some(ClassItem::Digit(true)),
        'D' => Some(ClassItem::Digit(false)),
        'w' => Some(ClassItem::Word(true)),
        'W' => Some(ClassItem::Word(false)),
        's' => Some(ClassItem::Space(true)),
        'S' => Some(ClassItem::Space(false)),
        _ => None,
    }
}

/// The character that an escape stands for.
pub open spec fn escaped_char(c: char) -> Option<char> {
    if c == 'n' {
        Some('\n')
    } else if c == 't' {
        Some('\t')
    } else if c == 'r' {
        Some('\r')
    } else if c == '0' {
        Some('\0')
    } else if !alphanumeric(c) {
        Some(c)
    } else {
        None
    }
}

/// The character that an escape stands for.
pub fn simple_escape(c: char) -> (r: Option<char>)
    ensures
        r == escaped_char(c),
{
    match c {
        'n' => Some('\n'),
        't' => Some('\t'),
        'r' => Some('\r'),
        '0' => Some('\0'),
        _ => if !c.is_alphanumeric() {
            Some(c)
        } else {
            None
        },
    }
}

/// The value of a digit of base sixteen.
pub open spec fn hex_value(c: char) -> int {
    if digit(c) {
        c as int - '0' as int
    } else if 'a' <= c && c <= 'f' {
        c as int - 'a' as int + 10
    } else {
        c as int - 'A' as int + 10
    }
}

/// The part that an escape is, its backslash standing at column `col`.
pub open spec fn escape_at(s: Seq<char>, p: int, col: int) -> Result<(NodeView, int), Fault> {
    if p >= s.len() {
        Err(Fault { message: "pattern ends with a backslash"@, col })
    } else if escaped_class(s[p]) is Some {
        Ok((NodeView::Class { items: seq![escaped_class(s[p])->0], negated: false }, p + 1))
    } else if s[p] == 'x' {
        if p + 2 < s.len() && hex_digit(s[p + 1]) && hex_digit(s[p + 2]) {
            Ok(
                (
                    NodeView::Char((hex_value(s[p + 1]) * 16 + hex_value(s[p + 2])) as u8 as char),
                    p + 3,
                ),
            )
        } else {
            Err(Fault { message: "`\\x` needs two hex digits"@, col })
        }
    } else {
        match escaped_char(s[p]) {
            Some(c) => Ok((NodeView::Char(c), p + 1)),
            None => Err(Fault { message: "unknown escape `\\"@ + seq![s[p]] + "`"@, col }),
        }
    }
}

/// The entries of a character class from `p` on, behind those before, up to the
/// bracket that closes it.
pub open spec fn class_from(
    s: Seq<char>,
    p: int,
    items: Seq<ClassItem>,
    negated: bool,
    open: int,
) -> Result<
    (NodeView, int),
    Fault,
>
    decreases s.len() - p,
{
    if p < 0 || p >= s.len() {
        Err(Fault { message: "unclosed character class, expected `]`"@, col: open })
    } else if s[p] == ']' {
        if items.len() == 0 {
            Err(Fault { message: "empty character class"@, col: open })
        } else {
            Ok((NodeView::Class { items, negated }, p + 1))
        }
    } else if s[p] == '\\' {
        if p + 1 >= s.len() {
            Err(Fault { message: "unfinished escape in character class"@, col: p + 1 })
        } else {
            match escaped_class(s[p + 1]) {
                Some(item) => class_from(s, p + 2, items.push(item), negated, open),
                None => match escaped_char(s[p + 1]) {
                    Some(c) => class_from(s, p + 2, items.push(ClassItem::Char(c)), negated, open),
                    None => Err(
                        Fault {
                            message: "unknown escape `\\"@ + seq![s[p + 1]] + "` in class"@,
                            col: p + 1,
                        },
                    ),
                },
            }
        }
    } else if char_at(s, p + 1, '-') && p + 2 < s.len() && s[p + 2] != ']' {
        match range_end(s, p + 2) {
            Err(f) => Err(f),
            Ok((high, q)) => if s[p] > high {
                Err(
                    Fault {
                        message: "range `"@ + seq![s[p], '-', high] + "` runs backwards"@,
                        col: p + 1,
                    },
                )
            } else if p < q <= s.len() {
                class_from(s, q, items.push(ClassItem::Range(s[p], high)), negated, open)
            } else {
                Err(lost())
            },
        }
    } else {
        class_from(s, p + 1, items.push(ClassItem::Char(s[p])), negated, open)
    }
}

/// The character that ends a range, and where it ends.
pub open spec fn range_end(s: Seq<char>, p: int) -> Result<(char, int), Fault> {
    if s[p] == '\\' {
        if p + 1 >= s.len() {
            Err(Fault { message: "unfinished escape in character class"@, col: p + 1 })
        } else {
            match escaped_char(s[p + 1]) {
                Some(c) => Ok((c, p + 2)),
                None => Err(
                    Fault { message: "`\\"@ + seq![s[p + 1]] + "` cannot end a range"@, col: p + 1 },
                ),
            }
        }
    } else {
        Ok((s[p], p + 1))
    }
}

/// A character class, behind its opening bracket at column `open`. A closing
/// bracket that comes first stands for itself.
pub open spec fn class_at(s: Seq<char>, p: int, open: int) -> Result<(NodeView, int), Fault> {
    let negated = char_at(s, p, '^');
    let q = if negated { p + 1 } else { p };
    if char_at(s, q, ']') {
        class_from(s, q + 1, seq![ClassItem::Char(']')], negated, open)
    } else {
        class_from(s, q, Seq::empty(), negated, open)
    }
}

/// A count of a repetition, and where it ends.
pub open spec fn count_at(s: Seq<char>, p: int, col: int) -> Result<(u32, int), Fault> {
    let e = digits_end(s, p);
    if e == p {
        Err(Fault { message: "expected a number in the repeat count"@, col: p + 1 })
    } else if digits_value(s.subrange(p, e)) > u32::MAX {
        Err(Fault { message: "repeat count is too large"@, col })
    } else {
        Ok((digits_value(s.subrange(p, e)) as u32, e))
    }
}

/// The least and the greatest count between braces, the opening one standing at
/// `p`, and where they end.
pub open spec fn counts_at(s: Seq<char>, p: int) -> Result<(u32, Option<u32>, int), Fault> {
    let col = p + 1;
    match count_at(s, p + 1, col) {
        Err(f) => Err(f),
        Ok((min, e)) => {
            let upper = if !char_at(s, e, ',') {
                Ok((Some(min), e))
            } else if char_at(s, e + 1, '}') {
                Ok((None::<u32>, e + 1))
            } else {
                match count_at(s, e + 1, col) {
                    Err(f) => Err(f),
                    Ok((m, q)) => Ok((Some(m), q)),
                }
            };
            match upper {
                Err(f) => Err(f),
                Ok((max, q)) => if !char_at(s, q, '}') {
                    Err(
                        Fault {
                            message: "expected `}` to close the repeat count"@,
                            col: if q < s.len() { q + 2 } else { q + 1 },
                        },
                    )
                } else if max matches Some(m) && m < min {
                    Err(
                        Fault {
                            message: "repeat count is empty: the maximum is below the minimum"@,
                            col,
                        },
                    )
                } else {
                    Ok((min, max, q + 1))
                },
            }
        },
    }
}

/// The counts of a repetition that is written at `p`, if one is. A brace that no
/// digit follows is none.
pub open spec fn repeat_at(s: Seq<char>, p: int) -> Result<Option<(u32, Option<u32>, int)>, Fault> {
    if char_at(s, p, '*') {
        Ok(Some((0, None, p + 1)))
    } else if char_at(s, p, '+') {
        Ok(Some((1, None, p + 1)))
    } else if char_at(s, p, '?') {
        Ok(Some((0, Some(1u32), p + 1)))
    } else if char_at(s, p, '{') && p + 1 < s.len() && digit(s[p + 1]) {
        match counts_at(s, p) {
            Err(f) => Err(f),
            Ok(x) => Ok(Some(x)),
        }
    } else {
        Ok(None)
    }
}

/// A part with the repetition that is written behind it at `p`.
pub open spec fn quantified(
    s: Seq<char>,
    p: int,
    atom: NodeView,
) -> Result<(NodeView, int), Fault> {
    match repeat_at(s, p) {
        Err(f) => Err(f),
        Ok(None) => Ok((atom, p)),
        Ok(Some((min, max, q))) => if atom is Start || atom is End {
            Err(Fault { message: "an anchor cannot be repeated"@, col: p + 1 })
        } else {
            let lazy = char_at(s, q, '?');
            Ok(
                (
                    NodeView::Repeat { node: Box::new(atom), min, max, greedy: !lazy },
                    if lazy { q + 1 } else { q },
                ),
            )
        },
    }
}

/// Where a character stands, from `i` on.
pub open spec fn place_of(s: Seq<char>, i: int, c: char) -> int
    decreases s.len() - i,
{
    if 0 <= i < s.len() && s[i] != c {
        place_of(s, i + 1, c)
    } else {
        i
    }
}

/// Whether a name is made of letters, digits, `_` and `.`.
pub open spec fn nameable(s: Seq<char>) -> bool {
    forall|i: int| 0 <= i < s.len() ==> alphanumeric(#[trigger] s[i]) || s[i] == '_' || s[i] == '.'
}

/// Whether a name is given already.
pub open spec fn name_taken(names: Names, name: Seq<char>) -> bool {
    exists|i: int| 0 <= i < names.len() && #[trigger] names[i] == Some(name)
}

/// The name of a group, whose opening mark stands at `p`, and where it ends.
pub open spec fn name_at(s: Seq<char>, p: int, names: Names) -> Result<(Seq<char>, int), Fault> {
    let close = if s[p] == '<' { '>' } else { '\'' };
    let e = place_of(s, p + 1, close);
    let name = s.subrange(p + 1, e);
    if e >= s.len() {
        Err(
            Fault {
                message: "unclosed capture name, expected `"@ + seq![close] + "`"@,
                col: p + 2,
            },
        )
    } else if name.len() == 0 {
        Err(Fault { message: "capture name is empty"@, col: p + 2 })
    } else if !nameable(name) {
        Err(
            Fault {
                message: "capture name `"@ + name
                    + "` may only contain letters, digits, `_` and `.`"@,
                col: p + 2,
            },
        )
    } else if name_taken(names, name) {
        Err(Fault { message: "duplicate capture name `"@ + name + "`"@, col: p + 2 })
    } else {
        Ok((name, e + 1))
    }
}

/// The head of a group behind its opening bracket: its index where it captures,
/// where it ends, and the names of groups with that of this one.
pub open spec fn head_at(
    s: Seq<char>,
    p: int,
    names: Names,
) -> Result<(Option<usize>, int, Names), Fault> {
    let index = Some(names.len() as usize);
    if !char_at(s, p, '?') {
        Ok((index, p, names.push(None)))
    } else if char_at(s, p + 1, ':') {
        Ok((None, p + 2, names))
    } else if char_at(s, p + 1, '<') || char_at(s, p + 1, '\'') {
        match name_at(s, p + 1, names) {
            Err(f) => Err(f),
            Ok((name, q)) => Ok((index, q, names.push(Some(name)))),
        }
    } else if char_at(s, p + 1, 'P') {
        if char_at(s, p + 2, '<') {
            match name_at(s, p + 2, names) {
                Err(f) => Err(f),
                Ok((name, q)) => Ok((index, q, names.push(Some(name)))),
            }
        } else {
            Err(Fault { message: "expected `<name>` after `(?P`"@, col: p + 3 })
        }
    } else {
        Err(
            Fault {
                message: "unsupported group flag; use `(?<name>…)` or `(?:…)`"@,
                col: p + 2,
            },
        )
    }
}

/// Alternatives.
pub open spec fn alt_at(s: Seq<char>, p: int, names: Names) -> Read
    decreases s.len() - p, 3int,
{
    match parts_from(s, p, names, Seq::empty()) {
        Err(f) => Err(f),
        Ok((n, q, names1)) => if p <= q <= s.len() {
            alts_from(s, q, names1, seq![n])
        } else {
            Err(lost())
        },
    }
}

/// The rest of alternatives behind those before.
pub open spec fn alts_from(s: Seq<char>, p: int, names: Names, alts: Seq<NodeView>) -> Read
    decreases s.len() - p, 2int,
{
    if char_at(s, p, '|') {
        match parts_from(s, p + 1, names, Seq::empty()) {
            Err(f) => Err(f),
            Ok((n, q, names1)) => if p < q <= s.len() {
                alts_from(s, q, names1, alts.push(n))
            } else {
                Err(lost())
            },
        }
    } else {
        Ok((if alts.len() == 1 { alts[0] } else { NodeView::Alt(alts) }, p, names))
    }
}

/// A row of parts as one part.
pub open spec fn row_of(parts: Seq<NodeView>) -> NodeView {
    if parts.len() == 0 {
        NodeView::Empty
    } else if parts.len() == 1 {
        parts[0]
    } else {
        NodeView::Concat(parts)
    }
}

/// A row of parts from `p` on, behind those before, up to a bar, a closing
/// bracket or the end.
pub open spec fn parts_from(s: Seq<char>, p: int, names: Names, parts: Seq<NodeView>) -> Read
    decreases s.len() - p, 1int,
{
    if p < 0 || p >= s.len() || s[p] == '|' || s[p] == ')' {
        Ok((row_of(parts), p, names))
    } else {
        match atom_at(s, p, names) {
            Err(f) => Err(f),
            Ok((atom, q, names1)) => match quantified(s, q, atom) {
                Err(f) => Err(f),
                Ok((n, r)) => if p < r <= s.len() {
                    parts_from(s, r, names1, parts.push(n))
                } else {
                    Err(lost())
                },
            },
        }
    }
}

/// The names unchanged beside a reading.
pub open spec fn beside(r: Result<(NodeView, int), Fault>, names: Names) -> Read {
    match r {
        Ok((n, q)) => Ok((n, q, names)),
        Err(f) => Err(f),
    }
}

/// One part: a group, a class, an anchor, an escape or a character.
pub open spec fn atom_at(s: Seq<char>, p: int, names: Names) -> Read
    decreases s.len() - p, 0int,
{
    if !(0 <= p < s.len()) {
        Err(lost())
    } else if s[p] == '(' {
        group_at(s, p + 1, names, p + 1)
    } else if s[p] == '[' {
        beside(class_at(s, p + 1, p + 1), names)
    } else if s[p] == '.' {
        Ok((NodeView::Any, p + 1, names))
    } else if s[p] == '^' {
        Ok((NodeView::Start, p + 1, names))
    } else if s[p] == '$' {
        Ok((NodeView::End, p + 1, names))
    } else if s[p] == '\\' {
        beside(escape_at(s, p + 1, p + 1), names)
    } else if s[p] == '*' || s[p] == '+' || s[p] == '?' {
        Err(Fault { message: "nothing for `"@ + seq![s[p]] + "` to repeat"@, col: p + 1 })
    } else {
        Ok((NodeView::Char(s[p]), p + 1, names))
    }
}

/// A group behind its opening bracket at column `open`.
pub open spec fn group_at(s: Seq<char>, p: int, names: Names, open: int) -> Read
    decreases s.len() - p, 4int,
{
    match head_at(s, p, names) {
        Err(f) => Err(f),
        Ok((index, q, names1)) => if !(p <= q <= s.len()) {
            Err(lost())
        } else {
            match alt_at(s, q, names1) {
                Err(f) => Err(f),
                Ok((inner, r, names2)) => if char_at(s, r, ')') {
                    Ok((NodeView::Group { index, node: Box::new(inner) }, r + 1, names2))
                } else {
                    Err(Fault { message: "unclosed group, expected `)`"@, col: open })
                },
            }
        },
    }
}

/// The pattern that a text writes. One without a named capture is refused.
pub open spec fn pattern_in(s: Seq<char>) -> Result<PatternView, Fault> {
    match alt_at(s, 0, Seq::empty()) {
        Err(f) => Err(f),
        Ok((root, p, names)) => if p < s.len() {
            Err(Fault { message: "unmatched `)`"@, col: p + 1 })
        } else if forall|i: int| 0 <= i < names.len() ==> (#[trigger] names[i]) is None {
            Err(
                Fault {
                    message:
                        "pattern has no named capture groups; write `(?<name>…)` for each field you want to extract"@,
                    col: 1,
                },
            )
        } else {
            Ok(PatternView { root, names })
        },
    }
}

/// A pattern that could not be read, with what is needed to point into it.
#[derive(Debug, PartialEq)]
pub struct PatternError {
    pub message: String,
    /// The column that the error refers to, from 1.
    pub col: usize,
    pub pattern: String,
}

/// An error with the pattern below it and a caret under the column.
pub open spec fn pattern_diagram(fault: Fault, pattern: Seq<char>) -> Seq<char> {
    "pattern error at column "@ + nat_text(fault.col as nat) + ": "@ + fault.message + "\n  "@ + pattern
        + "\n  "@ + spaces(fault.col - 1) + "^"@
}

impl PatternError {
    /// What went wrong, and where.
    pub open spec fn fault(self) -> Fault {
        Fault { message: self.message@, col: self.col as int }
    }

    /// The error with the pattern below it and a caret under the column.
    pub fn to_string(&self) -> (r: String)
        ensures
            r@ == pattern_diagram(self.fault(), self.pattern@),
    {
        let mut out: Vec<char> = Vec::new();
        push_text(&mut out, "pattern error at column ");
        push_nat(&mut out, self.col as u64);
        push_text(&mut out, ": ");
        push_text(&mut out, self.message.as_str());
        push_text(&mut out, "\n  ");
        push_text(&mut out, self.pattern.as_str());
        push_text(&mut out, "\n  ");
        let ghost head = out@;
        let mut n: usize = 1;
        while n < self.col
            invariant
                n >= 1,
                n <= self.col || n == 1,
                out@ =~= head + spaces(n - 1),
            decreases self.col - n,
        {
            out.push(' ');
            n += 1;
        }
        assert(spaces(n - 1) =~= spaces(self.col - 1));
        push_text(&mut out, "^");
        assert(out@ =~= pattern_diagram(self.fault(), self.pattern@));
        string_of(&out)
    }
}

/// A position in the text of a pattern, and the names of groups so far.
struct Parser<'a> {
    src: &'a str,
    chars: Vec<char>,
    pos: usize,
    names: Vec<Option<String>>,
}

/// Whether a part was read as the rules say, with the names of groups.
spec fn part_read(p: &Parser, start: int, r: Result<Node, PatternError>, want: Read) -> bool {
    match r {
        Ok(n) => want == Ok::<(NodeView, int, Names), Fault>(
            (n@, p.pos as int, names_view(p.names@)),
        ) && start <= p.pos,
        Err(e) => want == Err::<(NodeView, int, Names), Fault>(e.fault()) && e.pattern@ == p.src@,
    }
}

/// Whether a part was read as the rules say.
spec fn leaf_read(
    p: &Parser,
    start: int,
    r: Result<Node, PatternError>,
    want: Result<(NodeView, int), Fault>,
) -> bool {
    match r {
        Ok(n) => want == Ok::<(NodeView, int), Fault>((n@, p.pos as int)) && start <= p.pos,
        Err(e) => want == Err::<(NodeView, int), Fault>(e.fault()) && e.pattern@ == p.src@,
    }
}

fn about_char(head: &str, c: char, tail: &str) -> (r: String)
    ensures
        r@ == head@ + seq![c] + tail@,
{
    let mut out: Vec<char> = Vec::new();
    push_text(&mut out, head);
    out.push(c);
    push_text(&mut out, tail);
    assert(out@ =~= head@ + seq![c] + tail@);
    string_of(&out)
}

fn about_part(head: &str, part: &[char], tail: &str) -> (r: String)
    ensures
        r@ == head@ + part@ + tail@,
{
    let mut out: Vec<char> = Vec::new();
    push_text(&mut out, head);
    push_part(&mut out, part, 0, part.len());
    push_text(&mut out, tail);
    assert(part@.subrange(0, part@.len() as int) =~= part@);
    assert(out@ =~= head@ + part@ + tail@);
    string_of(&out)
}

fn hex_digit_value(c: char) -> (r: u8)
    requires
        hex_digit(c),
    ensures
        r == hex_value(c),
        r < 16,
{
    if is_digit(c) {
        c as u8 - '0' as u8
    } else if 'a' <= c && c <= 'f' {
        c as u8 - 'a' as u8 + 10
    } else {
        c as u8 - 'A' as u8 + 10
    }
}

impl<'a> Parser<'a> {
    spec fn wf(&self) -> bool {
        self.chars@ == self.src@ && self.pos <= self.chars@.len() && self.chars@.len() + 4 < usize::MAX
    }

    spec fn moved(&self, other: &Parser<'a>) -> bool {
        self.src == other.src && self.chars == other.chars && self.wf()
    }

    /// Moved, with the same names.
    spec fn stepped(&self, other: &Parser<'a>) -> bool {
        self.moved(other) && self.names == other.names
    }

    spec fn left(&self) -> int {
        self.chars@.len() - self.pos
    }

    fn err(&self, message: String, col: usize) -> (r: PatternError)
        ensures
            r.fault() == (Fault { message: message@, col: col as int }),
            r.pattern@ == self.src@,
    {
        PatternError { message, col, pattern: self.src.to_string() }
    }

    fn fail(&self, message: &str, col: usize) -> (r: PatternError)
        ensures
            r.fault() == (Fault { message: message@, col: col as int }),
            r.pattern@ == self.src@,
    {
        self.err(message.to_string(), col)
    }

    /// Whether a character comes next.
    fn at(&self, c: char) -> (r: bool)
        requires
            self.wf(),
        ensures
            r == char_at(self.chars@, self.pos as int, c),
    {
        self.pos < self.chars.len() && self.chars[self.pos] == c
    }

    /// Whether a character stands `offset` places on.
    fn at_offset(&self, offset: usize, c: char) -> (r: bool)
        requires
            self.wf(),
        ensures
            r == char_at(self.chars@, self.pos + offset, c),
    {
        offset < self.chars.len() - self.pos && self.chars[self.pos + offset] == c
    }

    /// The part that an escape is, behind its backslash.
    fn parse_escape(&mut self, col: usize) -> (r: Result<Node, PatternError>)
        requires
            old(self).wf(),
        ensures
            final(self).stepped(old(self)),
            leaf_read(
                final(self),
                old(self).pos as int,
                r,
                escape_at(old(self).chars@, old(self).pos as int, col as int),
            ),
    {
        if self.pos >= self.chars.len() {
            return Err(self.fail("pattern ends with a backslash", col));
        }
        let c = self.chars[self.pos];
        match class_escape(c) {
            Some(item) => {
                self.pos += 1;
                let mut items: Vec<ClassItem> = Vec::new();
                items.push(item);
                assert(items@ =~= seq![item]);
                return Ok(Node::Class { items, negated: false });
            },
            None => {},
        }
        if c == 'x' {
            if self.pos + 2 < self.chars.len() && is_hex_digit(self.chars[self.pos + 1])
                && is_hex_digit(self.chars[self.pos + 2]) {
                let high: u8 = hex_digit_value(self.chars[self.pos + 1]);
                let low: u8 = hex_digit_value(self.chars[self.pos + 2]);
                self.pos += 3;
                return Ok(Node::Char((high * 16 + low) as char));
            }
            return Err(self.fail("`\\x` needs two hex digits", col));
        }
        match simple_escape(c) {
            Some(x) => {
                self.pos += 1;
                proof {
                    lemma_leaf_views(x);
                }
                Ok(Node::Char(x))
            },
            None => Err(self.err(about_char("unknown escape `\\", c, "`"), col)),
        }
    }

    /// The character that ends a range.
    fn parse_range_end(&mut self) -> (r: Result<char, PatternError>)
        requires
            old(self).wf(),
            old(self).pos < old(self).chars@.len(),
        ensures
            final(self).stepped(old(self)),
            match r {
                Ok(c) => range_end(old(self).chars@, old(self).pos as int) == Ok::<
                    (char, int),
                    Fault,
                >((c, final(self).pos as int)) && old(self).pos < final(self).pos,
                Err(e) => range_end(old(self).chars@, old(self).pos as int) == Err::<
                    (char, int),
                    Fault,
                >(e.fault()) && e.pattern@ == old(self).src@,
            },
    {
        let col: usize = self.pos + 1;
        let c = self.chars[self.pos];
        if c != '\\' {
            self.pos += 1;
            return Ok(c);
        }
        if self.pos + 1 >= self.chars.len() {
            return Err(self.fail("unfinished escape in character class", col));
        }
        let x = self.chars[self.pos + 1];
        match simple_escape(x) {
            Some(y) => {
                self.pos += 2;
                Ok(y)
            },
            None => Err(self.err(about_char("`\\", x, "` cannot end a range"), col)),
        }
    }

    /// A character class, behind its opening bracket.
    fn parse_class(&mut self, open: usize) -> (r: Result<Node, PatternError>)
        requires
            old(self).wf(),
        ensures
            final(self).stepped(old(self)),
            leaf_read(
                final(self),
                old(self).pos as int,
                r,
                class_at(old(self).chars@, old(self).pos as int, open as int),
            ),
    {
        let ghost s = self.chars@;
        let ghost goal = class_at(s, self.pos as int, open as int);
        let negated = self.at('^');
        if negated {
            self.pos += 1;
        }
        let mut items: Vec<ClassItem> = Vec::new();
        if self.at(']') {
            self.pos += 1;
            items.push(ClassItem::Char(']'));
            assert(items@ =~= seq![ClassItem::Char(']')]);
        } else {
            assert(items@ =~= Seq::<ClassItem>::empty());
        }
        loop
            invariant
                self.stepped(old(self)),
                s == self.chars@,
                old(self).pos <= self.pos,
                goal == class_at(s, old(self).pos as int, open as int),
                goal == class_from(s, self.pos as int, items@, negated, open as int),
            decreases self.left(),
        {
            if self.pos >= self.chars.len() {
                return Err(self.fail("unclosed character class, expected `]`", open));
            }
            let col: usize = self.pos + 1;
            let c = self.chars[self.pos];
            if c == ']' {
                if items.len() == 0 {
                    return Err(self.fail("empty character class", open));
                }
                self.pos += 1;
                return Ok(Node::Class { items, negated });
            }
            if c == '\\' {
                if self.pos + 1 >= self.chars.len() {
                    return Err(self.fail("unfinished escape in character class", col));
                }
                let x = self.chars[self.pos + 1];
                match class_escape(x) {
                    Some(item) => {
                        items.push(item);
                    },
                    None => match simple_escape(x) {
                        Some(y) => {
                            items.push(ClassItem::Char(y));
                        },
                        None => {
                            return Err(
                                self.err(about_char("unknown escape `\\", x, "` in class"), col),
                            );
                        },
                    },
                }
                self.pos += 2;
            } else if self.at_offset(1, '-') && self.pos + 2 < self.chars.len() && self.chars[self.pos
                + 2] != ']' {
                self.pos += 2;
                let high = match self.parse_range_end() {
                    Ok(x) => x,
                    Err(e) => {
                        return Err(e);
                    },
                };
                if c > high {
                    let mut out: Vec<char> = Vec::new();
                    push_text(&mut out, "range `");
                    out.push(c);
                    out.push('-');
                    out.push(high);
                    push_text(&mut out, "` runs backwards");
                    assert(out@ =~= "range `"@ + seq![c, '-', high] + "` runs backwards"@);
                    return Err(self.err(string_of(&out), col));
                }
                items.push(ClassItem::Range(c, high));
            } else {
                items.push(ClassItem::Char(c));
                self.pos += 1;
            }
        }
    }

    /// A count of a repetition.
    fn parse_count(&mut self, col: usize) -> (r: Result<u32, PatternError>)
        requires
            old(self).wf(),
        ensures
            final(self).stepped(old(self)),
            match r {
                Ok(n) => count_at(old(self).chars@, old(self).pos as int, col as int) == Ok::<
                    (u32, int),
                    Fault,
                >((n, final(self).pos as int)) && old(self).pos <= final(self).pos,
                Err(e) => count_at(old(self).chars@, old(self).pos as int, col as int) == Err::<
                    (u32, int),
                    Fault,
                >(e.fault()) && e.pattern@ == old(self).src@,
            },
    {
        let start: usize = self.pos;
        let e: usize = skip_digits(&self.chars, start);
        if e == start {
            return Err(self.fail("expected a number in the repeat count", start + 1));
        }
        let mut n: u32 = 0;
        let mut i: usize = start;
        assert(self.chars@.subrange(start as int, start as int) =~= Seq::<char>::empty());
        while i < e
            invariant
                self.stepped(old(self)),
                start == old(self).pos,
                start <= i <= e <= self.chars@.len(),
                start < e,
                e == digits_end(self.chars@, start as int),
                forall|j: int| start <= j < e ==> digit(self.chars@[j]),
                n == digits_value(self.chars@.subrange(start as int, i as int)),
            decreases e - i,
        {
            let d: u32 = self.chars[i] as u32 - '0' as u32;
            proof {
                assert(self.chars@.subrange(start as int, i + 1).drop_last()
                    =~= self.chars@.subrange(start as int, i as int));
                lemma_more_digits(self.chars@, start as int, i + 1, e as int);
            }
            let wide: u64 = n as u64 * 10 + d as u64;
            if wide > u32::MAX as u64 {
                return Err(self.fail("repeat count is too large", col));
            }
            n = wide as u32;
            i += 1;
        }
        self.pos = e;
        Ok(n)
    }

    /// The counts between braces, of which the opening one comes next.
    fn parse_counts(&mut self) -> (r: Result<(u32, Option<u32>), PatternError>)
        requires
            old(self).wf(),
            old(self).pos < old(self).chars@.len(),
        ensures
            final(self).stepped(old(self)),
            match r {
                Ok((min, max)) => counts_at(old(self).chars@, old(self).pos as int) == Ok::<
                    (u32, Option<u32>, int),
                    Fault,
                >((min, max, final(self).pos as int)) && old(self).pos <= final(self).pos,
                Err(e) => counts_at(old(self).chars@, old(self).pos as int) == Err::<
                    (u32, Option<u32>, int),
                    Fault,
                >(e.fault()) && e.pattern@ == old(self).src@,
            },
    {
        let col: usize = self.pos + 1;
        self.pos += 1;
        let min: u32 = match self.parse_count(col) {
            Ok(n) => n,
            Err(e) => {
                return Err(e);
            },
        };
        let max: Option<u32> = if !self.at(',') {
            Some(min)
        } else {
            self.pos += 1;
            if self.at('}') {
                None
            } else {
                match self.parse_count(col) {
                    Ok(n) => Some(n),
                    Err(e) => {
                        return Err(e);
                    },
                }
            }
        };
        if !self.at('}') {
            let at: usize = if self.pos < self.chars.len() {
                self.pos + 2
            } else {
                self.pos + 1
            };
            return Err(self.fail("expected `}` to close the repeat count", at));
        }
        self.pos += 1;
        match max {
            Some(m) => {
                if m < min {
                    return Err(
                        self.fail(
                            "repeat count is empty: the maximum is below the minimum",
                            col,
                        ),
                    );
                }
            },
            None => {},
        }
        Ok((min, max))
    }

    /// A part with the repetition that is written behind it.
    fn parse_quantifier(&mut self, atom: Node) -> (r: Result<Node, PatternError>)
        requires
            old(self).wf(),
        ensures
            final(self).stepped(old(self)),
            leaf_read(
                final(self),
                old(self).pos as int,
                r,
                quantified(old(self).chars@, old(self).pos as int, atom@),
            ),
    {
        let col: usize = self.pos + 1;
        let (min, max): (u32, Option<u32>) = if self.at('*') {
            self.pos += 1;
            (0, None)
        } else if self.at('+') {
            self.pos += 1;
            (1, None)
        } else if self.at('?') {
            self.pos += 1;
            (0, Some(1))
        } else if self.at('{') && self.pos + 1 < self.chars.len() && is_digit(
            self.chars[self.pos + 1],
        ) {
            match self.parse_counts() {
                Ok(x) => x,
                Err(e) => {
                    return Err(e);
                },
            }
        } else {
            return Ok(atom);
        };
        match &atom {
            Node::Start => {
                return Err(self.fail("an anchor cannot be repeated", col));
            },
            Node::End => {
                return Err(self.fail("an anchor cannot be repeated", col));
            },
            _ => {},
        }
        let lazy = self.at('?');
        if lazy {
            self.pos += 1;
        }
        Ok(Node::Repeat { node: Box::new(atom), min, max, greedy: !lazy })
    }

    /// Whether a name is given already.
    fn is_taken(&self, name: &[char]) -> (r: bool)
        ensures
            r == name_taken(names_view(self.names@), name@),
    {
        let mut i: usize = 0;
        let ghost all = names_view(self.names@);
        while i < self.names.len()
            invariant
                i <= self.names@.len(),
                all == names_view(self.names@),
                forall|j: int| 0 <= j < i ==> #[trigger] all[j] != Some(name@),
            decreases self.names.len() - i,
        {
            match &self.names[i] {
                Some(n) => {
                    if same_chars(&chars_of(n.as_str()), name) {
                        assert(all[i as int] == Some(name@));
                        return true;
                    }
                },
                None => {},
            }
            i += 1;
        }
        false
    }

    /// The name of a group, of which the opening mark comes next.
    fn parse_group_name(&mut self) -> (r: Result<String, PatternError>)
        requires
            old(self).wf(),
            old(self).pos < old(self).chars@.len(),
        ensures
            final(self).stepped(old(self)),
            match r {
                Ok(name) => name_at(
                    old(self).chars@,
                    old(self).pos as int,
                    names_view(old(self).names@),
                ) == Ok::<(Seq<char>, int), Fault>((name@, final(self).pos as int))
                    && old(self).pos < final(self).pos,
                Err(e) => name_at(
                    old(self).chars@,
                    old(self).pos as int,
                    names_view(old(self).names@),
                ) == Err::<(Seq<char>, int), Fault>(e.fault()) && e.pattern@ == old(self).src@,
            },
    {
        let close = if self.chars[self.pos] == '<' {
            '>'
        } else {
            '\''
        };
        let start: usize = self.pos + 1;
        let col: usize = self.pos + 2;
        let mut e: usize = start;
        while e < self.chars.len() && self.chars[e] != close
            invariant
                start <= e <= self.chars@.len(),
                place_of(self.chars@, start as int, close) == place_of(
                    self.chars@,
                    e as int,
                    close,
                ),
            decreases self.chars.len() - e,
        {
            e += 1;
        }
        if e >= self.chars.len() {
            return Err(
                self.err(about_char("unclosed capture name, expected `", close, "`"), col),
            );
        }
        let name = chars_between(&self.chars, start, e);
        if name.len() == 0 {
            return Err(self.fail("capture name is empty", col));
        }
        let mut i: usize = 0;
        let mut good = true;
        while i < name.len()
            invariant
                i <= name@.len(),
                good == forall|j: int|
                    0 <= j < i ==> alphanumeric(#[trigger] name@[j]) || name@[j] == '_' || name@[j]
                        == '.',
            decreases name.len() - i,
        {
            let c = name[i];
            let one = c.is_alphanumeric() || c == '_' || c == '.';
            assert(one == (alphanumeric(name@[i as int]) || name@[i as int] == '_' || name@[i as int]
                == '.'));
            good = good && one;
            i += 1;
        }
        if !good {
            return Err(
                self.err(
                    about_part(
                        "capture name `",
                        &name,
                        "` may only contain letters, digits, `_` and `.`",
                    ),
                    col,
                ),
            );
        }
        if self.is_taken(&name) {
            return Err(self.err(about_part("duplicate capture name `", &name, "`"), col));
        }
        self.pos = e + 1;
        Ok(string_of(&name))
    }

    fn add_name(&mut self, name: Option<String>) -> (r: Option<usize>)
        requires
            old(self).wf(),
        ensures
            final(self).moved(old(self)),
            final(self).pos == old(self).pos,
            names_view(final(self).names@) == names_view(old(self).names@).push(
                match name {
                    Some(n) => Some(n@),
                    None => None,
                },
            ),
            r == Some(old(self).names@.len() as usize),
    {
        let index: usize = self.names.len();
        self.names.push(name);
        assert(names_view(self.names@) =~= names_view(old(self).names@).push(
            match name {
                Some(n) => Some(n@),
                None => None,
            },
        ));
        Some(index)
    }

    /// The head of a group behind its opening bracket: its index.
    fn parse_head(&mut self) -> (r: Result<Option<usize>, PatternError>)
        requires
            old(self).wf(),
        ensures
            final(self).moved(old(self)),
            match r {
                Ok(index) => head_at(
                    old(self).chars@,
                    old(self).pos as int,
                    names_view(old(self).names@),
                ) == Ok::<(Option<usize>, int, Names), Fault>(
                    (index, final(self).pos as int, names_view(final(self).names@)),
                ) && old(self).pos <= final(self).pos,
                Err(e) => head_at(
                    old(self).chars@,
                    old(self).pos as int,
                    names_view(old(self).names@),
                ) == Err::<(Option<usize>, int, Names), Fault>(e.fault()) && e.pattern@
                    == old(self).src@,
            },
    {
        if !self.at('?') {
            return Ok(self.add_name(None));
        }
        if self.at_offset(1, ':') {
            self.pos += 2;
            return Ok(None);
        }
        if self.at_offset(1, '<') || self.at_offset(1, '\'') {
            self.pos += 1;
            return match self.parse_group_name() {
                Ok(name) => Ok(self.add_name(Some(name))),
                Err(e) => Err(e),
            };
        }
        if self.at_offset(1, 'P') {
            if !self.at_offset(2, '<') {
                return Err(self.fail("expected `<name>` after `(?P`", self.pos + 3));
            }
            self.pos += 2;
            return match self.parse_group_name() {
                Ok(name) => Ok(self.add_name(Some(name))),
                Err(e) => Err(e),
            };
        }
        Err(
            self.fail("unsupported group flag; use `(?<name>…)` or `(?:…)`", self.pos + 2),
        )
    }

    /// Alternatives.
    fn parse_alt(&mut self) -> (r: Result<Node, PatternError>)
        requires
            old(self).wf(),
        ensures
            final(self).moved(old(self)),
            part_read(
                final(self),
                old(self).pos as int,
                r,
                alt_at(old(self).chars@, old(self).pos as int, names_view(old(self).names@)),
            ),
        decreases old(self).left(), 3int,
    {
        let ghost s = self.chars@;
        let ghost names0 = names_view(self.names@);
        let ghost goal = alt_at(s, self.pos as int, names0);
        let first = match self.parse_concat() {
            Ok(n) => n,
            Err(e) => {
                return Err(e);
            },
        };
        if !self.at('|') {
            assert(seq![first@][0] == first@);
            return Ok(first);
        }
        let mut alts: Vec<Node> = Vec::new();
        alts.push(first);
        assert(nodes_view(alts@) =~= seq![first@]);
        while self.at('|')
            invariant
                self.moved(old(self)),
                s == self.chars@,
                old(self).pos <= self.pos,
                names0 == names_view(old(self).names@),
                goal == alt_at(s, old(self).pos as int, names0),
                goal == alts_from(s, self.pos as int, names_view(self.names@), nodes_view(alts@)),
                alts@.len() >= 2 || (alts@.len() == 1 && char_at(s, self.pos as int, '|')),
            decreases self.left(),
        {
            self.pos += 1;
            let n = match self.parse_concat() {
                Ok(n) => n,
                Err(e) => {
                    return Err(e);
                },
            };
            let ghost before = nodes_view(alts@);
            alts.push(n);
            assert(nodes_view(alts@) =~= before.push(n@));
        }
        proof {
            lemma_nodes_view(alts);
        }
        Ok(Node::Alt(alts))
    }

    /// A row of parts, up to a bar, a closing bracket or the end.
    fn parse_concat(&mut self) -> (r: Result<Node, PatternError>)
        requires
            old(self).wf(),
        ensures
            final(self).moved(old(self)),
            part_read(
                final(self),
                old(self).pos as int,
                r,
                parts_from(
                    old(self).chars@,
                    old(self).pos as int,
                    names_view(old(self).names@),
                    Seq::empty(),
                ),
            ),
        decreases old(self).left(), 1int,
    {
        let ghost s = self.chars@;
        let ghost names0 = names_view(self.names@);
        let ghost goal = parts_from(s, self.pos as int, names0, Seq::empty());
        let mut parts: Vec<Node> = Vec::new();
        assert(nodes_view(parts@) =~= Seq::<NodeView>::empty());
        while self.pos < self.chars.len() && self.chars[self.pos] != '|' && self.chars[self.pos] != ')'
            invariant
                self.moved(old(self)),
                s == self.chars@,
                old(self).pos <= self.pos,
                names0 == names_view(old(self).names@),
                goal == parts_from(s, old(self).pos as int, names0, Seq::empty()),
                goal == parts_from(
                    s,
                    self.pos as int,
                    names_view(self.names@),
                    nodes_view(parts@),
                ),
            decreases self.left(),
        {
            let atom = match self.parse_atom() {
                Ok(n) => n,
                Err(e) => {
                    return Err(e);
                },
            };
            let n = match self.parse_quantifier(atom) {
                Ok(n) => n,
                Err(e) => {
                    return Err(e);
                },
            };
            let ghost before = nodes_view(parts@);
            parts.push(n);
            assert(nodes_view(parts@) =~= before.push(n@));
        }
        if parts.len() == 0 {
            return Ok(Node::Empty);
        }
        if parts.len() == 1 {
            let ghost row = nodes_view(parts@);
            let only = parts.pop();
            return match only {
                Some(n) => {
                    assert(row[0] == n@);
                    Ok(n)
                },
                None => Ok(Node::Empty),
            };
        }
        proof {
            lemma_nodes_view(parts);
        }
        Ok(Node::Concat(parts))
    }

    /// One part: a group, a class, an anchor, an escape or a character.
    fn parse_atom(&mut self) -> (r: Result<Node, PatternError>)
        requires
            old(self).wf(),
            old(self).pos < old(self).chars@.len(),
        ensures
            final(self).moved(old(self)),
            part_read(
                final(self),
                old(self).pos + 1,
                r,
                atom_at(old(self).chars@, old(self).pos as int, names_view(old(self).names@)),
            ),
        decreases old(self).left(), 0int,
    {
        let col: usize = self.pos + 1;
        let c = self.chars[self.pos];
        self.pos += 1;
        proof {
            lemma_leaf_views(c);
        }
        if c == '(' {
            self.parse_group(col)
        } else if c == '[' {
            self.parse_class(col)
        } else if c == '.' {
            Ok(Node::Any)
        } else if c == '^' {
            Ok(Node::Start)
        } else if c == '$' {
            Ok(Node::End)
        } else if c == '\\' {
            self.parse_escape(col)
        } else if c == '*' || c == '+' || c == '?' {
            Err(self.err(about_char("nothing for `", c, "` to repeat"), col))
        } else {
            Ok(Node::Char(c))
        }
    }

    /// A group behind its opening bracket.
    fn parse_group(&mut self, open: usize) -> (r: Result<Node, PatternError>)
        requires
            old(self).wf(),
        ensures
            final(self).moved(old(self)),
            part_read(
                final(self),
                old(self).pos as int,
                r,
                group_at(
                    old(self).chars@,
                    old(self).pos as int,
                    names_view(old(self).names@),
                    open as int,
                ),
            ),
        decreases old(self).left(), 4int,
    {
        let index = match self.parse_head() {
            Ok(x) => x,
            Err(e) => {
                return Err(e);
            },
        };
        let inner = match self.parse_alt() {
            Ok(n) => n,
            Err(e) => {
                return Err(e);
            },
        };
        if !self.at(')') {
            return Err(self.fail("unclosed group, expected `)`", open));
        }
        self.pos += 1;
        Ok(Node::Group { index, node: Box::new(inner) })
    }

    /// Whether a group has a name.
    fn has_name(&self) -> (r: bool)
        ensures
            r == !(forall|i: int|
                0 <= i < names_view(self.names@).len() ==> (#[trigger] names_view(
                    self.names@,
                )[i]) is None),
    {
        let mut i: usize = 0;
        let ghost all = names_view(self.names@);
        while i < self.names.len()
            invariant
                i <= self.names@.len(),
                all == names_view(self.names@),
                forall|j: int| 0 <= j < i ==> (#[trigger] all[j]) is None,
            decreases self.names.len() - i,
        {
            if self.names[i].is_some() {
                assert(all[i as int] is Some);
                return true;
            }
            i += 1;
        }
        false
    }
}

proof fn lemma_more_digits(s: Seq<char>, from: int, i: int, to: int)
    requires
        0 <= from <= i <= to <= s.len(),
    ensures
        digits_value(s.subrange(from, i)) <= digits_value(s.subrange(from, to)),
    decreases to - i,
{
    if i < to {
        lemma_more_digits(s, from, i, to - 1);
        assert(s.subrange(from, to).drop_last() =~= s.subrange(from, to - 1));
    }
}

impl Pattern {
    /// Compiles a pattern, or says where it went wrong.
    pub fn compile(src: &str) -> (r: Result<Pattern, PatternError>)
        requires
            src@.len() + 4 < usize::MAX,
        ensures
            match r {
                Ok(p) => pattern_in(src@) == Ok::<PatternView, Fault>(p@),
                Err(e) => pattern_in(src@) == Err::<PatternView, Fault>(e.fault()) && e.pattern@
                    == src@,
            },
    {
        let names: Vec<Option<String>> = Vec::new();
        assert(names_view(names@) =~= Seq::<Option<Seq<char>>>::empty());
        let mut p = Parser { src, chars: chars_of(src), pos: 0, names };
        let root = match p.parse_alt() {
            Ok(n) => n,
            Err(e) => {
                return Err(e);
            },
        };
        if p.pos < p.chars.len() {
            return Err(p.fail("unmatched `)`", p.pos + 1));
        }
        if !p.has_name() {
            return Err(
                p.fail(
                    "pattern has no named capture groups; write `(?<name>…)` for each field you want to extract",
                    1,
                ),
            );
        }
        Ok(Pattern::from_parts(root, p.names))
    }
}

/// Whether no name is given twice.
pub open spec fn distinct_captures(names: Names) -> bool {
    forall|i: int, j: int|
        0 <= i < j < names.len() && (#[trigger] names[i]) is Some ==> names[i] != #[trigger] names[j]
}

/// Whether every name that is given can be one, and none is given twice.
pub open spec fn well_named(names: Names) -> bool {
    &&& distinct_captures(names)
    &&& forall|i: int|
        0 <= i < names.len() ==> ((#[trigger] names[i]) matches Some(name) ==> name.len() > 0
            && nameable(name))
}

/// Whether a fault points into a text or right behind it.
spec fn points_into(s: Seq<char>, f: Fault) -> bool {
    1 <= f.col <= s.len() + 1
}

/// Whether a reading ends in the text, at `from` or behind, with proper names,
/// or fails at a place of it.
spec fn lands(s: Seq<char>, from: int, r: Read) -> bool {
    match r {
        Ok((n, q, names)) => from <= q <= s.len() && well_named(names),
        Err(f) => points_into(s, f),
    }
}

/// The same for a reading without names.
spec fn leaf_lands(s: Seq<char>, from: int, r: Result<(NodeView, int), Fault>) -> bool {
    match r {
        Ok((n, q)) => from <= q <= s.len(),
        Err(f) => points_into(s, f),
    }
}

pub proof fn lemma_digits(s: Seq<char>, i: int)
    requires
        0 <= i <= s.len(),
    ensures
        i <= digits_end(s, i) <= s.len(),
    decreases s.len() - i,
{
    if i < s.len() && digit(s[i]) {
        lemma_digits(s, i + 1);
    }
}

/// A character is a Unicode scalar value.
proof fn lemma_char(c: char)
    ensures
        0 <= c as int <= 0xd7ff || 0xe000 <= c as int <= 0x10ffff,
{
}

proof fn lemma_class(s: Seq<char>, p: int, items: Seq<ClassItem>, negated: bool, open: int)
    requires
        0 <= p <= s.len(),
        1 <= open <= s.len(),
    ensures
        leaf_lands(s, p, class_from(s, p, items, negated, open)),
    decreases s.len() - p,
{
    if p < s.len() && s[p] != ']' {
        if s[p] == '\\' {
            if p + 1 < s.len() {
                match escaped_class(s[p + 1]) {
                    Some(item) => {
                        lemma_class(s, p + 2, items.push(item), negated, open);
                    },
                    None => match escaped_char(s[p + 1]) {
                        Some(c) => {
                            lemma_char(c);
                            lemma_class(s, p + 2, items.push(ClassItem::Char(c)), negated, open);
                        },
                        None => {},
                    },
                }
            }
        } else if char_at(s, p + 1, '-') && p + 2 < s.len() && s[p + 2] != ']' {
            match range_end(s, p + 2) {
                Ok((high, q)) => {
                    if !(s[p] > high) {
                        lemma_char(s[p]);
                        lemma_char(high);
                        lemma_class(
                            s,
                            q,
                            items.push(ClassItem::Range(s[p], high)),
                            negated,
                            open,
                        );
                    }
                },
                Err(_) => {},
            }
        } else {
            lemma_char(s[p]);
            lemma_class(s, p + 1, items.push(ClassItem::Char(s[p])), negated, open);
        }
    }
}

proof fn lemma_quantified(s: Seq<char>, p: int, atom: NodeView)
    requires
        0 <= p <= s.len(),
    ensures
        leaf_lands(s, p, quantified(s, p, atom)),
{
    if p + 1 < s.len() {
        lemma_digits(s, p + 1);
        let e = digits_end(s, p + 1);
        if e < s.len() {
            lemma_digits(s, e + 1);
        }
    }
}

proof fn lemma_place(s: Seq<char>, i: int, c: char)
    requires
        0 <= i <= s.len(),
    ensures
        i <= place_of(s, i, c) <= s.len(),
    decreases s.len() - i,
{
    if i < s.len() && s[i] != c {
        lemma_place(s, i + 1, c);
    }
}

proof fn lemma_head(s: Seq<char>, p: int, names: Names)
    requires
        0 <= p <= s.len(),
        well_named(names),
    ensures
        match head_at(s, p, names) {
            Ok((index, q, names1)) => p <= q <= s.len() && well_named(names1),
            Err(f) => points_into(s, f),
        },
{
    if p + 1 < s.len() {
        let close1 = if s[p + 1] == '<' { '>' } else { '\'' };
        lemma_place(s, p + 2, close1);
    }
    if p + 2 < s.len() {
        let close2 = if s[p + 2] == '<' { '>' } else { '\'' };
        lemma_place(s, p + 3, close2);
    }
}

proof fn lemma_alt(s: Seq<char>, p: int, names: Names)
    requires
        0 <= p <= s.len(),
        well_named(names),
    ensures
        lands(s, p, alt_at(s, p, names)),
    decreases s.len() - p, 3int,
{
    lemma_parts(s, p, names, Seq::empty());
    match parts_from(s, p, names, Seq::empty()) {
        Ok((n, q, names1)) => {
            lemma_alts(s, q, names1, seq![n]);
        },
        Err(_) => {},
    }
}

proof fn lemma_alts(s: Seq<char>, p: int, names: Names, alts: Seq<NodeView>)
    requires
        0 <= p <= s.len(),
        well_named(names),
    ensures
        lands(s, p, alts_from(s, p, names, alts)),
    decreases s.len() - p, 2int,
{
    if char_at(s, p, '|') {
        lemma_parts(s, p + 1, names, Seq::empty());
        match parts_from(s, p + 1, names, Seq::empty()) {
            Ok((n, q, names1)) => {
                lemma_alts(s, q, names1, alts.push(n));
            },
            Err(_) => {},
        }
    }
}

proof fn lemma_parts(s: Seq<char>, p: int, names: Names, parts: Seq<NodeView>)
    requires
        0 <= p <= s.len(),
        well_named(names),
    ensures
        lands(s, p, parts_from(s, p, names, parts)),
    decreases s.len() - p, 1int,
{
    if p < s.len() && s[p] != '|' && s[p] != ')' {
        lemma_atom(s, p, names);
        match atom_at(s, p, names) {
            Ok((atom, q, names1)) => {
                lemma_quantified(s, q, atom);
                match quantified(s, q, atom) {
                    Ok((n, r)) => {
                        lemma_parts(s, r, names1, parts.push(n));
                    },
                    Err(_) => {},
                }
            },
            Err(_) => {},
        }
    }
}

proof fn lemma_atom(s: Seq<char>, p: int, names: Names)
    requires
        0 <= p < s.len(),
        well_named(names),
    ensures
        lands(s, p + 1, atom_at(s, p, names)),
    decreases s.len() - p, 0int,
{
    if s[p] == '(' {
        lemma_group(s, p + 1, names, p + 1);
    } else if s[p] == '[' {
        let negated = char_at(s, p + 1, '^');
        let q = if negated { p + 2 } else { p + 1 };
        if char_at(s, q, ']') {
            lemma_class(s, q + 1, seq![ClassItem::Char(']')], negated, p + 1);
        } else {
            lemma_class(s, q, Seq::empty(), negated, p + 1);
        }
    }
}

proof fn lemma_group(s: Seq<char>, p: int, names: Names, open: int)
    requires
        0 <= p <= s.len(),
        1 <= open <= s.len(),
        well_named(names),
    ensures
        lands(s, p, group_at(s, p, names, open)),
    decreases s.len() - p, 4int,
{
    lemma_head(s, p, names);
    match head_at(s, p, names) {
        Ok((index, q, names1)) => {
            lemma_alt(s, q, names1);
        },
        Err(_) => {},
    }
}

/// Every capture name of a pattern is a row of letters, digits, `_` and `.`, and
/// no two captures have the same name.
pub proof fn law_captures_are_well_named(s: Seq<char>)
    ensures
        pattern_in(s) matches Ok(p) ==> well_named(p.names),
{
    lemma_alt(s, 0, Seq::empty());
}

/// An error of a pattern points into the pattern or right behind it.
pub proof fn law_pattern_errors_point_into_the_pattern(s: Seq<char>)
    ensures
        pattern_in(s) matches Err(f) ==> 1 <= f.col <= s.len() + 1,
{
    lemma_alt(s, 0, Seq::empty());
}

} // verus!
