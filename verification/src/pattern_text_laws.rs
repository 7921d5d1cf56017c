//! What holds of how patterns are written: every pattern has a text that reads as
//! that pattern.

use crate::decimal::{digits_end, digits_value, lemma_nat_text_reads, nat_text};
use crate::lexer::Fault;
use crate::pattern::{ClassItem, NodeView, PatternView};
use crate::pattern_syntax::{
    alt_at, alts_from, atom_at, class_at, class_from, escape_at, escaped_char, escaped_class,
    group_at, head_at, name_at, name_taken, nameable, parts_from, pattern_in, place_of, quantified,
    repeat_at, row_of, Names,
};
use crate::text::{alphanumeric, digit};
use vstd::prelude::*;

verus! {

/// The characters that stand for something else than themselves in a pattern.
pub open spec fn special(c: char) -> bool {
    c == '(' || c == ')' || c == '[' || c == '.' || c == '^' || c == '$' || c == '\\' || c == '*'
        || c == '+' || c == '?' || c == '|' || c == '{'
}

/// A character as a pattern writes it.
pub open spec fn char_text(c: char) -> Seq<char> {
    if special(c) {
        seq!['\\', c]
    } else {
        seq![c]
    }
}

/// An entry of a class as a pattern writes it.
pub open spec fn item_text(item: ClassItem) -> Seq<char> {
    match item {
        ClassItem::Char(c) => if alphanumeric(c) {
            seq![c]
        } else {
            seq!['\\', c]
        },
        ClassItem::Range(a, b) => seq![a, '-', b],
        ClassItem::Digit(want) => seq!['\\', if want { 'd' } else { 'D' }],
        ClassItem::Word(want) => seq!['\\', if want { 'w' } else { 'W' }],
        ClassItem::Space(want) => seq!['\\', if want { 's' } else { 'S' }],
    }
}

/// Whether an entry is one that is written like that: a range goes from a letter or
/// digit to one that is not before it.
pub open spec fn item_stands(item: ClassItem) -> bool {
    item matches ClassItem::Range(a, b) ==> alphanumeric(a) && alphanumeric(b) && !(a > b)
}

/// The entries of a class from `i` on.
pub open spec fn items_text(items: Seq<ClassItem>, i: int) -> Seq<char>
    decreases items.len() - i,
{
    if i < 0 || i >= items.len() {
        Seq::empty()
    } else {
        item_text(items[i]) + items_text(items, i + 1)
    }
}

/// The counts of a repetition as a pattern writes them.
pub open spec fn counts_text(min: u32, max: Option<u32>) -> Seq<char> {
    if min == 0 && max is None {
        seq!['*']
    } else if min == 1 && max is None {
        seq!['+']
    } else if min == 0 && max == Some(1u32) {
        seq!['?']
    } else {
        seq!['{'] + nat_text(min as nat) + (seq![','] + (match max {
            Some(m) => nat_text(m as nat),
            None => Seq::empty(),
        }) + seq!['}'])
    }
}

/// Whether a part takes a place in a row by itself and can be repeated.
pub open spec fn is_atom(n: NodeView) -> bool {
    n is Char || n is Any || n is Class || n is Group
}

/// Whether a part takes a place in a row.
pub open spec fn is_piece(n: NodeView) -> bool {
    is_atom(n) || n is Start || n is End || n is Repeat
}

/// How many groups that capture are in a row of parts, from `i` on.
pub open spec fn row_groups(parts: Seq<NodeView>, i: int) -> nat
    decreases parts, parts.len() - i,
{
    if i < 0 || i >= parts.len() {
        0
    } else {
        groups_in(parts[i]) + row_groups(parts, i + 1)
    }
}

/// How many groups that capture are in a part.
pub open spec fn groups_in(n: NodeView) -> nat
    decreases n, 0int,
{
    match n {
        NodeView::Concat(parts) => row_groups(parts, 0),
        NodeView::Alt(alts) => row_groups(alts, 0),
        NodeView::Repeat { node, min, max, greedy } => groups_in(*node),
        NodeView::Group { index, node } => groups_in(*node) + (if index is Some {
            1nat
        } else {
            0
        }),
        _ => 0,
    }
}

/// Whether the pieces of a row, from `i` on, are as a reading gives them.
pub open spec fn pieces_stand(parts: Seq<NodeView>, i: int, k: nat, names: Names) -> bool
    decreases parts, parts.len() - i,
{
    if i < 0 || i >= parts.len() {
        true
    } else {
        is_piece(parts[i]) && stands_in(parts[i], k, names) && pieces_stand(
            parts,
            i + 1,
            k + groups_in(parts[i]),
            names,
        )
    }
}

/// Whether the alternatives from `i` on are as a reading gives them.
pub open spec fn alts_stand(alts: Seq<NodeView>, i: int, k: nat, names: Names) -> bool
    decreases alts, alts.len() - i,
{
    if i < 0 || i >= alts.len() {
        true
    } else {
        !(alts[i] is Alt) && stands_in(alts[i], k, names) && alts_stand(
            alts,
            i + 1,
            k + groups_in(alts[i]),
            names,
        )
    }
}

/// Whether a part is as a reading gives it: groups are numbered from `k` on in the
/// order in which they open, what is repeated takes one place, and rows and
/// alternatives are of two at least.
pub open spec fn stands_in(n: NodeView, k: nat, names: Names) -> bool
    decreases n, 0int,
{
    match n {
        NodeView::Class { items, negated } => items.len() > 0 && forall|i: int|
            0 <= i < items.len() ==> item_stands(#[trigger] items[i]),
        NodeView::Concat(parts) => parts.len() > 1 && pieces_stand(parts, 0, k, names),
        NodeView::Alt(alts) => alts.len() > 1 && alts_stand(alts, 0, k, names),
        NodeView::Repeat { node, min, max, greedy } => is_atom(*node) && stands_in(*node, k, names)
            && (max matches Some(m) ==> min <= m),
        NodeView::Group { index, node } => match index {
            Some(i) => i == k && k < names.len() && stands_in(*node, k + 1, names),
            None => stands_in(*node, k, names),
        },
        _ => true,
    }
}

/// The pieces of a row from `i` on, as a pattern writes them.
pub open spec fn row_text(parts: Seq<NodeView>, i: int, names: Names) -> Seq<char>
    decreases parts, parts.len() - i,
{
    if i < 0 || i >= parts.len() {
        Seq::empty()
    } else {
        part_text(parts[i], names) + row_text(parts, i + 1, names)
    }
}

/// The alternatives from `i` on, a bar before each.
pub open spec fn bars_text(alts: Seq<NodeView>, i: int, names: Names) -> Seq<char>
    decreases alts, alts.len() - i,
{
    if i < 0 || i >= alts.len() {
        Seq::empty()
    } else {
        seq!['|'] + part_text(alts[i], names) + bars_text(alts, i + 1, names)
    }
}

/// The head of a group as a pattern writes it.
pub open spec fn head_text(index: Option<usize>, names: Names) -> Seq<char> {
    match index {
        None => seq!['(', '?', ':'],
        Some(i) => match names[i as int] {
            Some(name) => seq!['(', '?', '<'] + name + seq!['>'],
            None => seq!['('],
        },
    }
}

/// A part as a pattern writes it.
pub open spec fn part_text(n: NodeView, names: Names) -> Seq<char>
    decreases n, 0int,
{
    match n {
        NodeView::Empty => Seq::empty(),
        NodeView::Char(c) => char_text(c),
        NodeView::Any => seq!['.'],
        NodeView::Start => seq!['^'],
        NodeView::End => seq!['$'],
        NodeView::Class { items, negated } => seq!['['] + (if negated {
            seq!['^']
        } else {
            Seq::empty()
        }) + items_text(items, 0) + seq![']'],
        NodeView::Concat(parts) => row_text(parts, 0, names),
        NodeView::Alt(alts) => if alts.len() == 0 {
            Seq::empty()
        } else {
            part_text(alts[0], names) + bars_text(alts, 1, names)
        },
        NodeView::Repeat { node, min, max, greedy } => part_text(*node, names) + counts_text(
            min,
            max,
        ) + (if greedy {
            Seq::empty()
        } else {
            seq!['?']
        }),
        NodeView::Group { index, node } => head_text(index, names) + part_text(*node, names)
            + seq![')'],
    }
}

/// Whether a text is written in another at a place.
pub open spec fn written_at(s: Seq<char>, p: int, w: Seq<char>) -> bool {
    &&& 0 <= p
    &&& p + w.len() <= s.len()
    &&& forall|i: int| 0 <= i < w.len() ==> s[p + i] == #[trigger] w[i]
}

pub proof fn lemma_written_both(s: Seq<char>, p: int, a: Seq<char>, b: Seq<char>)
    ensures
        written_at(s, p, a + b) <==> written_at(s, p, a) && written_at(s, p + a.len(), b),
{
    let w = a + b;
    if written_at(s, p, w) {
        assert forall|i: int| 0 <= i < a.len() implies s[p + i] == #[trigger] a[i] by {
            assert(w[i] == a[i]);
        }
        assert forall|i: int| 0 <= i < b.len() implies s[p + a.len() + i] == #[trigger] b[i] by {
            assert(w[a.len() + i] == b[i]);
        }
    }
    if written_at(s, p, a) && written_at(s, p + a.len(), b) {
        assert forall|i: int| 0 <= i < w.len() implies s[p + i] == #[trigger] w[i] by {
            if i < a.len() {
                assert(w[i] == a[i]);
            } else {
                assert(w[i] == b[i - a.len()]);
            }
        }
    }
}

/// Whether no quantifier stands at a place.
pub open spec fn quiet(s: Seq<char>, p: int) -> bool {
    p >= s.len() || (s[p] != '*' && s[p] != '+' && s[p] != '?' && s[p] != '{')
}

/// Whether a row of pieces ends at a place.
pub open spec fn row_ends(s: Seq<char>, p: int) -> bool {
    p >= s.len() || s[p] == '|' || s[p] == ')'
}

/// Whether a pattern or a group ends at a place.
pub open spec fn whole_ends(s: Seq<char>, p: int) -> bool {
    p >= s.len() || s[p] == ')'
}

/// Whether names can be those of groups.
pub open spec fn names_stand(names: Names) -> bool {
    &&& names.len() <= usize::MAX
    &&& forall|i: int|
        0 <= i < names.len() ==> ((#[trigger] names[i]) matches Some(name) ==> name.len() > 0
            && nameable(name))
    &&& forall|i: int, j: int|
        0 <= i < j < names.len() && (#[trigger] names[i]) is Some ==> names[i] != #[trigger] names[j]
}

proof fn lemma_item_chars(c: char)
    ensures
        !alphanumeric(c) ==> escaped_class(c) is None && escaped_char(c) == Some(c),
        alphanumeric(c) ==> c != '\\' && c != ']' && c != '-' && c != '^',
        special(c) ==> !alphanumeric(c) && c != 'x',
{
}

proof fn lemma_class_reads(
    s: Seq<char>,
    p: int,
    items: Seq<ClassItem>,
    i: nat,
    negated: bool,
    open: int,
)
    requires
        0 <= p,
        i <= items.len(),
        items.len() > 0,
        forall|j: int| 0 <= j < items.len() ==> item_stands(#[trigger] items[j]),
        written_at(s, p, items_text(items, i as int) + seq![']']),
    ensures
        class_from(s, p, items.take(i as int), negated, open) == Ok::<(NodeView, int), Fault>(
            (NodeView::Class { items, negated }, p + items_text(items, i as int).len() + 1),
        ),
    decreases items.len() - i,
{
    lemma_written_both(s, p, items_text(items, i as int), seq![']']);
    if i == items.len() {
        assert(seq![']'][0] == ']');
        assert(items.take(i as int) =~= items);
    } else {
        let item = items[i as int];
        let w = item_text(item);
        let rest = items_text(items, i as int + 1);
        lemma_written_both(s, p, w, rest);
        assert(items_text(items, i as int) + seq![']'] =~= w + (rest + seq![']']));
        lemma_written_both(s, p, w, rest + seq![']']);
        assert(items.take(i as int).push(item) =~= items.take(i as int + 1));
        lemma_class_reads(s, p + w.len(), items, i + 1, negated, open);
        assert(item_stands(item));
        assert(s[p + 0] == w[0]);
        let q = p + w.len();
        lemma_entry_starts(s, q, items, i + 1);
        match item {
            ClassItem::Char(c) => {
                lemma_item_chars(c);
                if !alphanumeric(c) {
                    assert(s[p + 1] == w[1]);
                }
            },
            ClassItem::Range(a, b) => {
                lemma_item_chars(a);
                lemma_item_chars(b);
                assert(s[p + 1] == w[1] && s[p + 2] == w[2]);
            },
            _ => {
                assert(s[p + 1] == w[1]);
            },
        }
    }
}

/// An entry of a class, or its end, does not start like a range.
proof fn lemma_entry_starts(s: Seq<char>, p: int, items: Seq<ClassItem>, i: nat)
    requires
        i <= items.len(),
        forall|j: int| 0 <= j < items.len() ==> item_stands(#[trigger] items[j]),
        written_at(s, p, items_text(items, i as int) + seq![']']),
    ensures
        0 <= p < s.len(),
        s[p] != '-',
        s[p] != '^',
        i < items.len() ==> s[p] != ']',
{
    let w = items_text(items, i as int) + seq![']'];
    assert(w.len() > 0);
    assert(s[p + 0] == w[0]);
    if i < items.len() {
        let item = items[i as int];
        assert(item_stands(item));
        assert(w[0] == item_text(item)[0]);
        match item {
            ClassItem::Char(c) => lemma_item_chars(c),
            ClassItem::Range(a, b) => lemma_item_chars(a),
            _ => {},
        }
    } else {
        assert(w =~= seq![']']);
    }
}

proof fn lemma_digits_read(s: Seq<char>, p: int, n: nat)
    requires
        written_at(s, p, nat_text(n)),
        p + nat_text(n).len() >= s.len() || !digit(s[p + nat_text(n).len()]),
    ensures
        digits_end(s, p) == p + nat_text(n).len(),
        s.subrange(p, p + nat_text(n).len()) == nat_text(n),
        digits_value(nat_text(n)) == n,
        nat_text(n).len() > 0,
        digit(s[p]),
{
    lemma_nat_text_reads(n);
    let w = nat_text(n);
    assert(s.subrange(p, p + w.len()) =~= w);
    assert forall|i: int| p <= i < p + w.len() implies digit(#[trigger] s[i]) by {
        assert(s[p + (i - p)] == w[i - p]);
    }
    lemma_digits_run(s, p, p + w.len());
}

proof fn lemma_digits_run(s: Seq<char>, i: int, e: int)
    requires
        0 <= i <= e <= s.len(),
        forall|j: int| i <= j < e ==> digit(#[trigger] s[j]),
        e >= s.len() || !digit(s[e]),
    ensures
        digits_end(s, i) == e,
    decreases e - i,
{
    if i < e {
        lemma_digits_run(s, i + 1, e);
    }
}

proof fn lemma_counts_read(s: Seq<char>, p: int, min: u32, max: Option<u32>)
    requires
        written_at(s, p, counts_text(min, max)),
        max matches Some(m) ==> min <= m,
    ensures
        repeat_at(s, p) == Ok::<Option<(u32, Option<u32>, int)>, Fault>(
            Some((min, max, p + counts_text(min, max).len())),
        ),
        counts_text(min, max).len() > 0,
{
    let w = counts_text(min, max);
    assert(w.len() > 0);
    assert(s[p + 0] == w[0]);
    if !(min == 0 && max is None) && !(min == 1 && max is None) && !(min == 0 && max == Some(1u32)) {
        let a = nat_text(min as nat);
        let b = match max {
            Some(m) => nat_text(m as nat),
            None => Seq::<char>::empty(),
        };
        let tail = seq![','] + b + seq!['}'];
        lemma_written_both(s, p, seq!['{'] + a, tail);
        lemma_written_both(s, p, seq!['{'], a);
        let e = p + 1 + a.len();
        assert(tail.len() == b.len() + 2);
        assert(tail[0] == ',');
        assert(s[e + 0] == tail[0]);
        lemma_digits_read(s, p + 1, min as nat);
        lemma_written_both(s, e, seq![','] + b, seq!['}']);
        lemma_written_both(s, e, seq![','], b);
        assert(seq!['}'][0] == '}');
        assert(s[e + 1 + b.len() + 0] == '}');
        match max {
            Some(m) => {
                lemma_nat_text_reads(m as nat);
                lemma_digits_read(s, e + 1, m as nat);
            },
            None => {},
        }
    }
}

proof fn lemma_place_read(s: Seq<char>, i: int, e: int, c: char)
    requires
        0 <= i <= e < s.len(),
        s[e] == c,
        forall|j: int| i <= j < e ==> #[trigger] s[j] != c,
    ensures
        place_of(s, i, c) == e,
    decreases e - i,
{
    if i < e {
        lemma_place_read(s, i + 1, e, c);
    }
}

/// The head of a group reads as it was written.
proof fn lemma_head_reads(s: Seq<char>, p: int, index: Option<usize>, k: nat, names: Names)
    requires
        names_stand(names),
        k <= names.len(),
        index matches Some(i) ==> i == k && k < names.len(),
        written_at(s, p, head_text(index, names)),
        p + head_text(index, names).len() < s.len(),
        s[p + head_text(index, names).len()] != '?',
    ensures
        s[p] == '(',
        head_at(s, p + 1, names.take(k as int)) == Ok::<(Option<usize>, int, Names), Fault>(
            (
                index,
                p + head_text(index, names).len(),
                names.take(k + (if index is Some { 1int } else { 0int })),
            ),
        ),
{
    let w = head_text(index, names);
    assert(s[p + 0] == w[0]);
    match index {
        None => {
            assert(s[p + 1] == w[1] && s[p + 2] == w[2]);
        },
        Some(i) => {
            assert(names.take(k as int).push(names[k as int]) =~= names.take(k as int + 1));
            match names[i as int] {
                Some(name) => {
                    assert(s[p + 1] == w[1] && s[p + 2] == w[2]);
                    let from = p + 3;
                    let e = from + name.len();
                    lemma_written_both(s, p, seq!['(', '?', '<'] + name, seq!['>']);
                    lemma_written_both(s, p, seq!['(', '?', '<'], name);
                    assert(seq!['>'][0] == '>');
                    assert(s[e + 0] == '>');
                    assert(nameable(name));
                    assert forall|j: int| from <= j < e implies #[trigger] s[j] != '>' by {
                        assert(s[from + (j - from)] == name[j - from]);
                        lemma_item_chars(name[j - from]);
                    }
                    lemma_place_read(s, from, e, '>');
                    assert(s.subrange(from, e) =~= name);
                    assert(!name_taken(names.take(k as int), name)) by {
                        if name_taken(names.take(k as int), name) {
                            let j = choose|j: int|
                                0 <= j < k && #[trigger] names.take(k as int)[j] == Some(name);
                            assert(names[j] == Some(name));
                            assert(names[j] != names[k as int]);
                        }
                    }
                    assert(name_at(s, p + 2, names.take(k as int)) == Ok::<(Seq<char>, int), Fault>(
                        (name, e + 1),
                    ));
                },
                None => {},
            }
        },
    }
}

/// What a part that takes a place starts with.
proof fn lemma_piece_starts(n: NodeView, names: Names)
    requires
        is_piece(n),
        n matches NodeView::Repeat { node, min, max, greedy } ==> is_atom(*node),
    ensures
        part_text(n, names).len() > 0,
        ({
            let c = part_text(n, names)[0];
            c != '*' && c != '+' && c != '?' && c != '{' && c != '|' && c != ')'
        }),
    decreases n,
{
    match n {
        NodeView::Repeat { node, min, max, greedy } => {
            lemma_piece_starts(*node, names);
            assert(part_text(n, names)[0] == part_text(*node, names)[0]);
        },
        NodeView::Group { index, node } => {
            assert(part_text(n, names)[0] == head_text(index, names)[0]);
        },
        NodeView::Class { items, negated } => {
            assert(part_text(n, names)[0] == '[');
        },
        _ => {},
    }
}

/// Where the text of a part, or what follows it, starts.
proof fn lemma_part_starts(s: Seq<char>, p: int, n: NodeView, k: nat, names: Names)
    requires
        stands_in(n, k, names),
        written_at(s, p, part_text(n, names)),
        whole_ends(s, p + part_text(n, names).len()),
    ensures
        p >= s.len() || s[p] != '?',
{
    let w = part_text(n, names);
    match n {
        NodeView::Concat(parts) => {
            assert(pieces_stand(parts, 0, k, names));
            assert(is_piece(parts[0]) && stands_in(parts[0], k, names));
            lemma_piece_starts(parts[0], names);
            assert(w == row_text(parts, 0, names));
            assert(w[0] == part_text(parts[0], names)[0]);
            assert(s[p + 0] == w[0]);
        },
        NodeView::Alt(alts) => {
            let a = part_text(alts[0], names);
            assert(alts_stand(alts, 0, k, names));
            assert(!(alts[0] is Alt) && stands_in(alts[0], k, names));
            lemma_written_both(s, p, a, bars_text(alts, 1, names));
            if a.len() == 0 {
                assert(w =~= bars_text(alts, 1, names));
                assert(w[0] == '|');
                assert(s[p + 0] == w[0]);
            } else {
                lemma_first_of(alts[0], k, names);
                assert(w[0] == a[0]);
                assert(s[p + 0] == w[0]);
            }
        },
        NodeView::Empty => {},
        _ => {
            lemma_piece_starts(n, names);
            assert(s[p + 0] == w[0]);
        },
    }
}

/// What the text of an alternative starts with.
proof fn lemma_first_of(n: NodeView, k: nat, names: Names)
    requires
        !(n is Alt),
        stands_in(n, k, names),
        part_text(n, names).len() > 0,
    ensures
        part_text(n, names)[0] != '?',
{
    match n {
        NodeView::Concat(parts) => {
            assert(pieces_stand(parts, 0, k, names));
            assert(is_piece(parts[0]) && stands_in(parts[0], k, names));
            lemma_piece_starts(parts[0], names);
            assert(part_text(n, names) == row_text(parts, 0, names));
        },
        NodeView::Empty => {},
        _ => {
            lemma_piece_starts(n, names);
        },
    }
}

proof fn lemma_leaf_reads(s: Seq<char>, p: int, n: NodeView, names: Names)
    requires
        n is Char || n is Any || n is Start || n is End,
        written_at(s, p, part_text(n, names)),
    ensures
        forall|known: Names| #[trigger]
            atom_at(s, p, known) == Ok::<(NodeView, int, Names), Fault>(
                (n, p + part_text(n, names).len(), known),
            ),
{
    let w = part_text(n, names);
    assert(s[p + 0] == w[0]);
    match n {
        NodeView::Char(c) => {
            lemma_item_chars(c);
            if special(c) {
                assert(s[p + 1] == w[1]);
                assert(escape_at(s, p + 1, p + 1) == Ok::<(NodeView, int), Fault>(
                    (NodeView::Char(c), p + 2),
                ));
            }
        },
        _ => {},
    }
}

proof fn lemma_whole_class_reads(
    s: Seq<char>,
    p: int,
    items: Seq<ClassItem>,
    negated: bool,
    names: Names,
)
    requires
        items.len() > 0,
        forall|j: int| 0 <= j < items.len() ==> item_stands(#[trigger] items[j]),
        written_at(s, p, part_text(NodeView::Class { items, negated }, names)),
    ensures
        s[p] == '[',
        p < s.len(),
        class_at(s, p + 1, p + 1) == Ok::<(NodeView, int), Fault>(
            (
                NodeView::Class { items, negated },
                p + part_text(NodeView::Class { items, negated }, names).len(),
            ),
        ),
{
    let w = part_text(NodeView::Class { items, negated }, names);
    let body = items_text(items, 0) + seq![']'];
    let sign = if negated {
        seq!['^']
    } else {
        Seq::<char>::empty()
    };
    assert(w =~= (seq!['['] + sign) + body);
    lemma_written_both(s, p, seq!['['] + sign, body);
    assert(w[0] == '[');
    assert(s[p + 0] == w[0]);
    let q = p + 1 + sign.len();
    lemma_entry_starts(s, q, items, 0);
    lemma_class_reads(s, q, items, 0, negated, p + 1);
    assert(items.take(0) =~= Seq::<ClassItem>::empty());
    if negated {
        assert((seq!['['] + sign)[1] == '^');
        assert(s[p + 1] == '^');
    }
}

#[verifier::rlimit(40)]
proof fn lemma_atom_reads(s: Seq<char>, p: int, n: NodeView, k: nat, names: Names)
    requires
        names_stand(names),
        k + groups_in(n) <= names.len(),
        is_atom(n) || n is Start || n is End,
        stands_in(n, k, names),
        written_at(s, p, part_text(n, names)),
    ensures
        atom_at(s, p, names.take(k as int)) == Ok::<(NodeView, int, Names), Fault>(
            (n, p + part_text(n, names).len(), names.take((k + groups_in(n)) as int)),
        ),
    decreases n, 0int, 0int,
{
    match n {
        NodeView::Class { items, negated } => {
            lemma_whole_class_reads(s, p, items, negated, names);
        },
        NodeView::Group { index, node } => {
            let head = head_text(index, names);
            let inner = part_text(*node, names);
            lemma_written_both(s, p, head + inner, seq![')']);
            lemma_written_both(s, p, head, inner);
            let q = p + head.len();
            let r = q + inner.len();
            assert(seq![')'][0] == ')');
            assert(s[r + 0] == ')');
            let k1: nat = if index is Some {
                k + 1
            } else {
                k
            };
            assert(stands_in(*node, k1, names));
            assert(k1 + groups_in(*node) == k + groups_in(n));
            lemma_part_starts(s, q, *node, k1, names);
            lemma_head_reads(s, p, index, k, names);
            lemma_alt_reads(s, q, *node, k1, names);
            assert(group_at(s, p + 1, names.take(k as int), p + 1) == Ok::<
                (NodeView, int, Names),
                Fault,
            >((n, r + 1, names.take((k + groups_in(n)) as int))));
        },
        _ => {
            lemma_leaf_reads(s, p, n, names);
        },
    }
}

proof fn lemma_piece_reads(s: Seq<char>, p: int, n: NodeView, k: nat, names: Names)
    requires
        names_stand(names),
        k + groups_in(n) <= names.len(),
        is_piece(n),
        stands_in(n, k, names),
        written_at(s, p, part_text(n, names)),
        quiet(s, p + part_text(n, names).len()),
    ensures
        match atom_at(s, p, names.take(k as int)) {
            Ok((atom, q, names1)) => quantified(s, q, atom) == Ok::<(NodeView, int), Fault>(
                (n, p + part_text(n, names).len()),
            ) && names1 == names.take((k + groups_in(n)) as int),
            Err(_) => false,
        },
    decreases n, 1int, 0int,
{
    let w = part_text(n, names);
    match n {
        NodeView::Repeat { node, min, max, greedy } => {
            let atom = part_text(*node, names);
            let counts = counts_text(min, max);
            let lazy = if greedy {
                Seq::<char>::empty()
            } else {
                seq!['?']
            };
            lemma_written_both(s, p, atom + counts, lazy);
            lemma_written_both(s, p, atom, counts);
            lemma_atom_reads(s, p, *node, k, names);
            lemma_counts_read(s, p + atom.len(), min, max);
            if !greedy {
                assert(lazy[0] == '?');
                assert(s[p + atom.len() + counts.len() + 0] == '?');
            }
        },
        _ => {
            lemma_atom_reads(s, p, n, k, names);
        },
    }
}

#[verifier::rlimit(30)]
proof fn lemma_row_reads(
    s: Seq<char>,
    p: int,
    parts: Seq<NodeView>,
    i: nat,
    k: nat,
    names: Names,
)
    requires
        names_stand(names),
        i <= parts.len(),
        k + row_groups(parts, i as int) <= names.len(),
        pieces_stand(parts, i as int, k, names),
        written_at(s, p, row_text(parts, i as int, names)),
        row_ends(s, p + row_text(parts, i as int, names).len()),
    ensures
        parts_from(s, p, names.take(k as int), parts.take(i as int)) == Ok::<
            (NodeView, int, Names),
            Fault,
        >(
            (
                row_of(parts),
                p + row_text(parts, i as int, names).len(),
                names.take((k + row_groups(parts, i as int)) as int),
            ),
        ),
    decreases parts, parts.len() - i, 0int,
{
    let w = row_text(parts, i as int, names);
    if i == parts.len() {
        assert(parts.take(i as int) =~= parts);
    } else {
        let n = parts[i as int];
        assert(stands_in(n, k, names));
        let a = part_text(n, names);
        let b = row_text(parts, i as int + 1, names);
        lemma_written_both(s, p, a, b);
        lemma_piece_starts(n, names);
        assert(s[p + 0] == a[0]);
        let q = p + a.len();
        let k1 = k + groups_in(n);
        if i + 1 < parts.len() {
            let m = parts[i as int + 1];
            assert(pieces_stand(parts, i as int + 1, k1, names));
            assert(is_piece(m) && stands_in(m, k1, names));
            lemma_piece_starts(m, names);
            assert(b[0] == part_text(m, names)[0]);
            assert(s[q + 0] == b[0]);
        } else {
            assert(b =~= Seq::<char>::empty());
        }
        lemma_piece_reads(s, p, n, k, names);
        assert(parts.take(i as int).push(n) =~= parts.take(i as int + 1));
        lemma_row_reads(s, q, parts, i + 1, k1, names);
    }
}

/// One alternative reads as it was written.
#[verifier::rlimit(30)]
proof fn lemma_single_reads(s: Seq<char>, p: int, n: NodeView, k: nat, names: Names)
    requires
        names_stand(names),
        k + groups_in(n) <= names.len(),
        !(n is Alt),
        stands_in(n, k, names),
        written_at(s, p, part_text(n, names)),
        row_ends(s, p + part_text(n, names).len()),
    ensures
        parts_from(s, p, names.take(k as int), Seq::empty()) == Ok::<(NodeView, int, Names), Fault>(
            (n, p + part_text(n, names).len(), names.take((k + groups_in(n)) as int)),
        ),
    decreases n, 2int, 0int,
{
    let w = part_text(n, names);
    match n {
        NodeView::Empty => {},
        NodeView::Concat(parts) => {
            assert(parts.take(0) =~= Seq::<NodeView>::empty());
            lemma_row_reads(s, p, parts, 0, k, names);
        },
        _ => {
            lemma_piece_starts(n, names);
            assert(s[p + 0] == w[0]);
            lemma_piece_reads(s, p, n, k, names);
            let none = Seq::<NodeView>::empty();
            assert(none.push(n) =~= seq![n]);
            let q = p + w.len();
            assert(parts_from(s, q, names.take((k + groups_in(n)) as int), none.push(n)) == Ok::<
                (NodeView, int, Names),
                Fault,
            >((n, q, names.take((k + groups_in(n)) as int))));
        },
    }
}

#[verifier::rlimit(30)]
proof fn lemma_bars_read(s: Seq<char>, p: int, alts: Seq<NodeView>, i: nat, k: nat, names: Names)
    requires
        names_stand(names),
        1 <= i <= alts.len(),
        alts.len() > 1,
        k + row_groups(alts, i as int) <= names.len(),
        alts_stand(alts, i as int, k, names),
        written_at(s, p, bars_text(alts, i as int, names)),
        whole_ends(s, p + bars_text(alts, i as int, names).len()),
    ensures
        alts_from(s, p, names.take(k as int), alts.take(i as int)) == Ok::<
            (NodeView, int, Names),
            Fault,
        >(
            (
                NodeView::Alt(alts),
                p + bars_text(alts, i as int, names).len(),
                names.take((k + row_groups(alts, i as int)) as int),
            ),
        ),
    decreases alts, alts.len() - i, 0int,
{
    if i == alts.len() {
        assert(alts.take(i as int) =~= alts);
    } else {
        let n = alts[i as int];
        assert(stands_in(n, k, names));
        let a = part_text(n, names);
        let b = bars_text(alts, i as int + 1, names);
        lemma_written_both(s, p, seq!['|'] + a, b);
        lemma_written_both(s, p, seq!['|'], a);
        assert(seq!['|'][0] == '|');
        assert(s[p + 0] == '|');
        let q = p + 1 + a.len();
        lemma_bars_start(s, q, alts, i + 1, names);
        lemma_single_reads(s, p + 1, n, k, names);
        assert(alts.take(i as int).push(n) =~= alts.take(i as int + 1));
        lemma_bars_read(s, q, alts, i + 1, k + groups_in(n), names);
    }
}

/// Behind an alternative stands a bar, or its end.
proof fn lemma_bars_start(s: Seq<char>, p: int, alts: Seq<NodeView>, i: nat, names: Names)
    requires
        i <= alts.len(),
        written_at(s, p, bars_text(alts, i as int, names)),
        whole_ends(s, p + bars_text(alts, i as int, names).len()),
    ensures
        row_ends(s, p),
{
    let w = bars_text(alts, i as int, names);
    if i < alts.len() {
        assert(w[0] == '|');
        assert(s[p + 0] == w[0]);
    } else {
        assert(w =~= Seq::<char>::empty());
    }
}

#[verifier::rlimit(30)]
proof fn lemma_alt_reads(s: Seq<char>, p: int, n: NodeView, k: nat, names: Names)
    requires
        names_stand(names),
        k + groups_in(n) <= names.len(),
        stands_in(n, k, names),
        written_at(s, p, part_text(n, names)),
        whole_ends(s, p + part_text(n, names).len()),
    ensures
        alt_at(s, p, names.take(k as int)) == Ok::<(NodeView, int, Names), Fault>(
            (n, p + part_text(n, names).len(), names.take((k + groups_in(n)) as int)),
        ),
    decreases n, 3int, 0int,
{
    match n {
        NodeView::Alt(alts) => {
            let a = part_text(alts[0], names);
            let b = bars_text(alts, 1, names);
            lemma_written_both(s, p, a, b);
            let q = p + a.len();
            lemma_bars_start(s, q, alts, 1, names);
            assert(groups_in(n) == row_groups(alts, 0));
            assert(row_groups(alts, 0) == groups_in(alts[0]) + row_groups(alts, 1));
            assert(alts_stand(alts, 0, k, names));
            assert(!(alts[0] is Alt) && stands_in(alts[0], k, names));
            lemma_single_reads(s, p, alts[0], k, names);
            assert(alts.take(1) =~= seq![alts[0]]);
            lemma_bars_read(s, q, alts, 1, k + groups_in(alts[0]), names);
        },
        _ => {
            lemma_single_reads(s, p, n, k, names);
        },
    }
}

/// A pattern reads as what it was written for: characters, classes, anchors, groups
/// named and unnamed, alternatives, and repetitions of every count, greedy and lazy.
pub proof fn law_a_pattern_reads_back(root: NodeView, names: Names)
    requires
        names_stand(names),
        stands_in(root, 0, names),
        groups_in(root) == names.len(),
        exists|i: int| 0 <= i < names.len() && (#[trigger] names[i]) is Some,
    ensures
        pattern_in(part_text(root, names)) == Ok::<PatternView, Fault>(PatternView { root, names }),
{
    let s = part_text(root, names);
    lemma_alt_reads(s, 0, root, 0, names);
    assert(names.take(0) =~= Seq::<Option<Seq<char>>>::empty());
    assert(names.take(names.len() as int) =~= names);
}

} // verus!
