//! What holds of the signs of a pattern: what classes hold, what escapes stand for, how
//! often counts repeat and how groups are named.

use crate::decimal::{lemma_nat_text_reads, nat_text};
use crate::lexer::{spaces, Fault};
use crate::pattern::{class_has, item_has, ClassItem, NodeView};
use crate::pattern_syntax::{
    class_at, class_from, escape_at, head_at, name_taken, pattern_diagram, place_of, range_end,
    repeat_at, Names,
};
use crate::pattern_text_laws::{lemma_written_both, written_at};
use crate::text::{alphanumeric, digit};
use crate::token_laws::lemma_digits_at;
use vstd::prelude::*;

verus! {

/// A class holds what one of its items holds, and a negated one anything else.
pub proof fn law_classes_hold_their_items(items: Seq<ClassItem>, item: ClassItem, c: char)
    ensures
        !class_has(Seq::empty(), false, c),
        class_has(items, true, c) == !class_has(items, false, c),
        class_has(items.push(item), false, c) == (class_has(items, false, c) || item_has(item, c)),
{
    let more = items.push(item);
    assert(more[items.len() as int] == item);
    if class_has(items, false, c) {
        let i = choose|i: int| 0 <= i < items.len() && item_has(#[trigger] items[i], c);
        assert(item_has(more[i], c));
    }
    if class_has(more, false, c) && !item_has(item, c) {
        let i = choose|i: int| 0 <= i < more.len() && item_has(#[trigger] more[i], c);
        assert(more[i] == items[i]);
    }
}

/// What the items of a class hold: a character itself, a range the characters from one
/// to another, both of them too, and a class by a letter its own or, of the other
/// case, all but those.
pub proof fn law_items_hold_what_they_name(c: char, a: char, b: char)
    ensures
        item_has(ClassItem::Char(a), c) == (c == a),
        item_has(ClassItem::Range(a, b), c) == (a as int <= c as int && c as int <= b as int),
        item_has(ClassItem::Digit(true), c) == ('0' <= c && c <= '9'),
        item_has(ClassItem::Digit(false), c) == !('0' <= c && c <= '9'),
        item_has(ClassItem::Word(false), c) == !item_has(ClassItem::Word(true), c),
        item_has(ClassItem::Space(false), c) == !item_has(ClassItem::Space(true), c),
        c <= '\x7f' ==> item_has(ClassItem::Word(true), c) == (('a' <= c && c <= 'z') || ('A' <= c
            && c <= 'Z') || ('0' <= c && c <= '9') || c == '_'),
        c <= '\x7f' ==> item_has(ClassItem::Space(true), c) == (c == ' ' || c == '\t' || c == '\n' || c
            == '\r' || c == '\u{b}' || c == '\u{c}'),
{
}

/// What an escape outside a class stands for: a class by its letter, a control
/// character by its own, a character by its two figures, and any sign for itself; a
/// letter or digit that names nothing is refused.
pub proof fn law_escapes_stand_for_what_they_name(s: Seq<char>, p: int, col: int)
    requires
        0 <= p < s.len(),
    ensures
        ({
            let c = s[p];
            let got = escape_at(s, p, col);
            let class = |item: ClassItem| Ok::<(NodeView, int), Fault>(
                (NodeView::Class { items: seq![item], negated: false }, p + 1),
            );
            let one = |x: char| Ok::<(NodeView, int), Fault>((NodeView::Char(x), p + 1));
            &&& c == 'd' ==> got == class(ClassItem::Digit(true))
            &&& c == 'D' ==> got == class(ClassItem::Digit(false))
            &&& c == 'w' ==> got == class(ClassItem::Word(true))
            &&& c == 'W' ==> got == class(ClassItem::Word(false))
            &&& c == 's' ==> got == class(ClassItem::Space(true))
            &&& c == 'S' ==> got == class(ClassItem::Space(false))
            &&& c == 'n' ==> got == one('\n')
            &&& c == 't' ==> got == one('\t')
            &&& c == 'r' ==> got == one('\r')
            &&& c == '0' ==> got == one('\0')
            &&& !alphanumeric(c) ==> got == one(c)
            &&& alphanumeric(c) && c != 'd' && c != 'D' && c != 'w' && c != 'W' && c != 's' && c != 'S' && c
                != 'n' && c != 't' && c != 'r' && c != '0' && c != 'x' ==> got is Err
        }),
{
}

/// The value of a figure of base sixteen, in capitals or not.
pub open spec fn sixteen(c: char) -> Option<int> {
    if '0' <= c && c <= '9' {
        Some(c as int - '0' as int)
    } else if 'a' <= c && c <= 'f' {
        Some(c as int - 'a' as int + 10)
    } else if 'A' <= c && c <= 'F' {
        Some(c as int - 'A' as int + 10)
    } else {
        None
    }
}

/// Two figures behind `\x` are the character of that number.
pub proof fn law_two_figures_name_a_character(s: Seq<char>, p: int, col: int)
    requires
        0 <= p,
        p + 2 < s.len(),
        s[p] == 'x',
    ensures
        (match (sixteen(s[p + 1]), sixteen(s[p + 2])) {
            (Some(a), Some(b)) => escape_at(s, p, col) matches Ok((NodeView::Char(c), e)) && c as int
                == a * 16 + b && e == p + 3,
            _ => escape_at(s, p, col) is Err,
        }),
{
}

/// The item that an escape in a class names.
pub open spec fn named_item(c: char) -> Option<ClassItem> {
    if c == 'd' {
        Some(ClassItem::Digit(true))
    } else if c == 'D' {
        Some(ClassItem::Digit(false))
    } else if c == 'w' {
        Some(ClassItem::Word(true))
    } else if c == 'W' {
        Some(ClassItem::Word(false))
    } else if c == 's' {
        Some(ClassItem::Space(true))
    } else if c == 'S' {
        Some(ClassItem::Space(false))
    } else if c == 'n' {
        Some(ClassItem::Char('\n'))
    } else if c == 't' {
        Some(ClassItem::Char('\t'))
    } else if c == 'r' {
        Some(ClassItem::Char('\r'))
    } else if c == '0' {
        Some(ClassItem::Char('\0'))
    } else if !alphanumeric(c) {
        Some(ClassItem::Char(c))
    } else {
        None
    }
}

/// The item that the text of a class writes at a place, and where it ends: an escape is
/// what it names, a dash between two characters makes a range of them, and any other
/// character is itself, a dash before the end of the class too.
pub open spec fn item_written(s: Seq<char>, p: int, item: ClassItem, e: int) -> bool {
    if s[p] == '\\' {
        p + 1 < s.len() && named_item(s[p + 1]) == Some(item) && e == p + 2
    } else if p + 2 < s.len() && s[p + 1] == '-' && s[p + 2] != ']' {
        if s[p + 2] == '\\' {
            p + 3 < s.len() && !alphanumeric(s[p + 3]) && s[p] <= s[p + 3] && item
                == ClassItem::Range(s[p], s[p + 3]) && e == p + 4
        } else {
            s[p] <= s[p + 2] && item == ClassItem::Range(s[p], s[p + 2]) && e == p + 3
        }
    } else {
        item == ClassItem::Char(s[p]) && e == p + 1
    }
}

/// A class is read item by item, each added behind those before.
pub proof fn law_classes_read_item_by_item(
    s: Seq<char>,
    p: int,
    items: Seq<ClassItem>,
    item: ClassItem,
    e: int,
    negated: bool,
    open: int,
)
    requires
        0 <= p < s.len(),
        s[p] != ']',
        item_written(s, p, item, e),
    ensures
        class_from(s, p, items, negated, open) == class_from(s, e, items.push(item), negated, open),
{
    if s[p] != '\\' && p + 2 < s.len() && s[p + 1] == '-' && s[p + 2] != ']' {
        assert(range_end(s, p + 2) == Ok::<(char, int), Fault>(
            (if s[p + 2] == '\\' { s[p + 3] } else { s[p + 2] }, e),
        ));
    }
}

/// An escape in a class that names nothing is refused, and so is a range that runs
/// backwards.
pub proof fn law_classes_refuse_what_names_nothing(
    s: Seq<char>,
    p: int,
    items: Seq<ClassItem>,
    negated: bool,
    open: int,
)
    requires
        0 <= p < s.len(),
    ensures
        s[p] == '\\' && (p + 1 >= s.len() || named_item(s[p + 1]) is None) ==> class_from(
            s,
            p,
            items,
            negated,
            open,
        ) is Err,
        s[p] != '\\' && s[p] != ']' && p + 2 < s.len() && s[p + 1] == '-' && s[p + 2] != ']' && s[p
            + 2] != '\\' && s[p] > s[p + 2] ==> class_from(s, p, items, negated, open) is Err,
{
}

/// Below an error stand the pattern and a caret under the column that it points at.
pub proof fn law_the_caret_stands_under_its_place(
    fault: Fault,
    pattern: Seq<char>,
    line: Seq<char>,
)
    requires
        fault.col >= 1,
        line.len() == fault.col,
        line.last() == '^',
        forall|i: int| 0 <= i < line.len() - 1 ==> #[trigger] line[i] == ' ',
    ensures
        pattern_diagram(fault, pattern) == "pattern error at column "@ + nat_text(fault.col as nat)
            + ": "@ + fault.message + seq!['\n', ' ', ' '] + pattern + seq!['\n', ' ', ' '] + line,
{
    reveal_strlit("\n  ");
    reveal_strlit("^");
    assert(spaces(fault.col - 1) + "^"@ =~= line);
    assert("\n  "@ =~= seq!['\n', ' ', ' ']);
    let head = "pattern error at column "@ + nat_text(fault.col as nat) + ": "@ + fault.message
        + "\n  "@ + pattern + "\n  "@;
    assert(pattern_diagram(fault, pattern) =~= head + (spaces(fault.col - 1) + "^"@));
}

/// A class starts behind its bracket, or behind a caret that negates it; a closing
/// bracket that comes first stands for itself.
pub proof fn law_a_caret_negates_a_class(s: Seq<char>, p: int, open: int, first: ClassItem)
    requires
        0 <= p,
        p + 1 < s.len(),
        first == ClassItem::Char(']'),
    ensures
        s[p] != '^' && s[p] != ']' ==> class_at(s, p, open) == class_from(
            s,
            p,
            Seq::empty(),
            false,
            open,
        ),
        s[p] == '^' && s[p + 1] != ']' ==> class_at(s, p, open) == class_from(
            s,
            p + 1,
            Seq::empty(),
            true,
            open,
        ),
        s[p] == ']' ==> class_at(s, p, open) == class_from(s, p + 1, seq![first], false, open),
        s[p] == '^' && s[p + 1] == ']' ==> class_at(s, p, open) == class_from(
            s,
            p + 2,
            seq![first],
            true,
            open,
        ),
{
}

/// A count alone between braces asks for just that many, and one with a comma behind it
/// for that many or more; counts that leave nothing are refused, and a brace without a
/// count is no repetition.
pub proof fn law_counts_between_braces(s: Seq<char>, p: int, n: u32, m: u32)
    requires
        0 <= p,
    ensures
        written_at(s, p, seq!['{'] + (nat_text(n as nat) + seq!['}'])) ==> repeat_at(s, p) == Ok::<
            Option<(u32, Option<u32>, int)>,
            Fault,
        >(Some((n, Some(n), p + nat_text(n as nat).len() + 2))),
        written_at(
            s,
            p,
            seq!['{'] + (nat_text(n as nat) + (seq![','] + (nat_text(m as nat) + seq!['}']))),
        ) && m < n ==> repeat_at(s, p) is Err,
        p + 1 < s.len() && s[p] == '{' && !digit(s[p + 1]) ==> repeat_at(s, p) == Ok::<
            Option<(u32, Option<u32>, int)>,
            Fault,
        >(None),
{
    let a = nat_text(n as nat);
    let b = nat_text(m as nat);
    let (open, comma, close) = (seq!['{'], seq![','], seq!['}']);
    lemma_nat_text_reads(n as nat);
    lemma_nat_text_reads(m as nat);
    assert(digit(a[0]) && digit(b[0]));
    assert(!digit('}') && !digit(','));
    let q = p + 1 + a.len();
    if written_at(s, p, open + (a + close)) {
        lemma_written_both(s, p, open, a + close);
        lemma_written_both(s, p + 1, a, close);
        assert(s[p + 0] == open[0] && s[p + 1 + 0] == a[0] && s[q + 0] == close[0]);
        lemma_digits_at(s, p + 1, a);
    }
    if written_at(s, p, open + (a + (comma + (b + close)))) {
        lemma_written_both(s, p, open, a + (comma + (b + close)));
        lemma_written_both(s, p + 1, a, comma + (b + close));
        lemma_written_both(s, q, comma, b + close);
        lemma_written_both(s, q + 1, b, close);
        let r = q + 1 + b.len();
        assert(s[p + 0] == open[0] && s[p + 1 + 0] == a[0] && s[q + 0] == comma[0]);
        assert(s[q + 1 + 0] == b[0] && s[r + 0] == close[0]);
        lemma_digits_at(s, p + 1, a);
        lemma_digits_at(s, q + 1, b);
    }
}

proof fn lemma_place(s: Seq<char>, i: int, e: int, c: char)
    requires
        0 <= i <= e < s.len(),
        forall|j: int| i <= j < e ==> #[trigger] s[j] != c,
        s[e] == c,
    ensures
        place_of(s, i, c) == e,
    decreases e - i,
{
    if i < e {
        lemma_place(s, i + 1, e, c);
    }
}

/// The marks that a group can be named between, with what stands before them.
pub open spec fn name_marks(before: Seq<char>, close: char) -> bool {
    ||| before == seq!['?', '<'] && close == '>'
    ||| before == seq!['?', 'P', '<'] && close == '>'
    ||| before == seq!['?', '\''] && close == '\''
}

/// A group is named in three ways that mean the same; a name of other signs than
/// letters, digits, `_` and `.`, one that is empty, and one that is given already are
/// refused.
pub proof fn law_groups_are_named_in_three_ways(
    s: Seq<char>,
    p: int,
    names: Names,
    before: Seq<char>,
    name: Seq<char>,
    close: char,
)
    requires
        0 <= p,
        name_marks(before, close),
        names.len() < usize::MAX,
        written_at(s, p, before + (name + seq![close])),
        forall|i: int| 0 <= i < name.len() ==> #[trigger] name[i] != close,
    ensures
        ({
            let known = name.len() > 0 && (forall|i: int|
                0 <= i < name.len() ==> alphanumeric(#[trigger] name[i]) || name[i] == '_' || name[i]
                    == '.') && (forall|i: int|
                0 <= i < names.len() ==> #[trigger] names[i] != Some(name));
            if known {
                head_at(s, p, names) == Ok::<(Option<usize>, int, Names), Fault>(
                    (
                        Some(names.len() as usize),
                        p + before.len() + name.len() + 1,
                        names.push(Some(name)),
                    ),
                )
            } else {
                head_at(s, p, names) is Err
            }
        }),
{
    let n = p + before.len();
    let e = n + name.len();
    lemma_written_both(s, p, before, name + seq![close]);
    lemma_written_both(s, n, name, seq![close]);
    assert(s[e + 0] == seq![close][0]);
    assert(s[p + 0] == before[0] && s[p + 1] == before[1]);
    if before.len() == 3 {
        assert(s[p + 2] == before[2]);
    }
    assert forall|j: int| n <= j < e implies #[trigger] s[j] != close by {
        assert(s[n + (j - n)] == name[j - n]);
    }
    lemma_place(s, n, e, close);
    assert(s.subrange(n, e) =~= name);
    if name_taken(names, name) {
        let i = choose|i: int| 0 <= i < names.len() && #[trigger] names[i] == Some(name);
        assert(names[i] == Some(name));
    }
}

/// A group without a head captures under no name, and one with `?:` does not capture.
pub proof fn law_groups_capture_unless_told_not_to(s: Seq<char>, p: int, names: Names)
    requires
        0 <= p,
        p + 1 < s.len(),
        names.len() < usize::MAX,
    ensures
        s[p] != '?' ==> head_at(s, p, names) == Ok::<(Option<usize>, int, Names), Fault>(
            (Some(names.len() as usize), p, names.push(None)),
        ),
        s[p] == '?' && s[p + 1] == ':' ==> head_at(s, p, names) == Ok::<
            (Option<usize>, int, Names),
            Fault,
        >((None, p + 2, names)),
        s[p] == '?' && s[p + 1] != ':' && s[p + 1] != '<' && s[p + 1] != '\'' && s[p + 1] != 'P'
            ==> head_at(s, p, names) is Err,
{
}

} // verus!
