//! What holds of every match: a pattern matches what its parts describe, the first
//! such place is found, and what is captured lies in the text.

use crate::pattern::{
    captured, captures_of, class_has, first_match, given_names, inside, lemma_again,
    lemma_rounds_step, lemma_stack_push, lemma_stack_shrinks, marked, max_left, min_left, no_marks,
    opened_before, rounds, run, run_alts, run_node, run_repeat, stack_weight, weight, weights,
    Frame, Marks, NodeView, PatternView,
};
use crate::pattern_syntax::{law_captures_are_well_named, nameable, pattern_in, well_named};
use vstd::prelude::*;

verus! {

/// Whether a part describes the text from `i` to `j`.
pub open spec fn spans(n: NodeView, text: Seq<char>, i: int, j: int) -> bool
    decreases n, 0nat, 0nat, 0nat,
{
    let here = 0 <= i < text.len() && j == i + 1;
    match n {
        NodeView::Empty => 0 <= i == j <= text.len(),
        NodeView::Start => 0 == i == j,
        NodeView::End => i == j == text.len(),
        NodeView::Char(c) => here && text[i] == c,
        NodeView::Any => here && text[i] != '\n',
        NodeView::Class { items, negated } => here && class_has(items, negated, text[i]),
        NodeView::Concat(parts) => row_spans(parts, 0, text, i, j),
        NodeView::Alt(alts) => exists|a: int|
            0 <= a < alts.len() && spans(#[trigger] alts[a], text, i, j),
        NodeView::Group { index, node } => spans(*node, text, i, j),
        NodeView::Repeat { node, min, max, greedy } => exists|c: nat|
            #[trigger] within(min, max, c) && times(*node, c, text, i, j),
    }
}

/// Whether the parts of a row from place `p` on, one behind the other, describe
/// the text from `i` to `j`.
pub open spec fn row_spans(parts: Seq<NodeView>, p: nat, text: Seq<char>, i: int, j: int) -> bool
    decreases parts, parts.len() - p, 0nat, 0nat,
{
    if p >= parts.len() {
        0 <= i == j <= text.len()
    } else {
        exists|m: int| #[trigger]
            place(m) && spans(parts[p as int], text, i, m) && row_spans(parts, p + 1, text, m, j)
    }
}

/// Whether `c` rounds of a part, one behind the other, describe the text from
/// `i` to `j`.
pub open spec fn times(n: NodeView, c: nat, text: Seq<char>, i: int, j: int) -> bool
    decreases n, 1nat, c, 0nat,
{
    if c == 0 {
        0 <= i == j <= text.len()
    } else {
        exists|m: int| #[trigger]
            place(m) && spans(n, text, i, m) && times(n, (c - 1) as nat, text, m, j)
    }
}

/// A place between two characters of a text.
pub open spec fn place(m: int) -> bool {
    true
}

/// Whether a repetition allows a number of rounds.
pub open spec fn within(min: u32, max: Option<u32>, c: nat) -> bool {
    min <= c && (max matches Some(m) ==> c <= m)
}

/// Whether there is a way through all the frames from a place of a text on.
pub open spec fn through(k: Seq<Frame>, text: Seq<char>, pos: int) -> bool {
    run(k, text, pos, Seq::empty()) is Some
}

proof fn lemma_spans_inside(n: NodeView, text: Seq<char>, i: int, j: int)
    requires
        spans(n, text, i, j),
    ensures
        0 <= i <= j <= text.len(),
    decreases n, 0nat, 0nat,
{
    match n {
        NodeView::Concat(parts) => {
            lemma_row_inside(parts, 0, text, i, j);
        },
        NodeView::Alt(alts) => {
            let a = choose|a: int| 0 <= a < alts.len() && spans(#[trigger] alts[a], text, i, j);
            lemma_spans_inside(alts[a], text, i, j);
        },
        NodeView::Group { index, node } => {
            lemma_spans_inside(*node, text, i, j);
        },
        NodeView::Repeat { node, min, max, greedy } => {
            let c = choose|c: nat| #[trigger] within(min, max, c) && times(*node, c, text, i, j);
            lemma_times_inside(*node, c, text, i, j);
        },
        _ => {},
    }
}

proof fn lemma_row_inside(parts: Seq<NodeView>, p: nat, text: Seq<char>, i: int, j: int)
    requires
        row_spans(parts, p, text, i, j),
    ensures
        0 <= i <= j <= text.len(),
    decreases parts, parts.len() - p, 0nat,
{
    if p < parts.len() {
        let m = choose|m: int| #[trigger]
            place(m) && spans(parts[p as int], text, i, m) && row_spans(parts, p + 1, text, m, j);
        lemma_spans_inside(parts[p as int], text, i, m);
        lemma_row_inside(parts, p + 1, text, m, j);
    }
}

proof fn lemma_times_inside(n: NodeView, c: nat, text: Seq<char>, i: int, j: int)
    requires
        times(n, c, text, i, j),
    ensures
        0 <= i <= j <= text.len(),
    decreases n, 1nat, c,
{
    if c > 0 {
        let m = choose|m: int| #[trigger]
            place(m) && spans(n, text, i, m) && times(n, (c - 1) as nat, text, m, j);
        lemma_spans_inside(n, text, i, m);
        lemma_times_inside(n, (c - 1) as nat, text, m, j);
    }
}

/// Whether there is a way through does not depend on the captures so far.
pub proof fn lemma_run_marks(k: Seq<Frame>, text: Seq<char>, pos: int, a: Marks, b: Marks)
    requires
        0 <= pos <= text.len(),
    ensures
        run(k, text, pos, a) is Some == run(k, text, pos, b) is Some,
    decreases stack_weight(k, text.len(), pos), 2int,
{
    if k.len() > 0 {
        let rest = k.drop_last();
        match k.last() {
            Frame::Node(n) => {
                lemma_node_marks(n, rest, text, pos, a, b);
            },
            Frame::Rest(parts, i) => if 0 <= i < parts.len() {
                let next = rest.push(Frame::Rest(parts, i + 1));
                lemma_stack_push(rest, Frame::Rest(parts, i + 1), text.len(), pos);
                lemma_stack_push(next, Frame::Node(parts[i]), text.len(), pos);
                lemma_run_marks(next.push(Frame::Node(parts[i])), text, pos, a, b);
            } else {
                lemma_run_marks(rest, text, pos, a, b);
            },
            Frame::Close(index, start) => {
                lemma_run_marks(
                    rest,
                    text,
                    pos,
                    marked(a, index, start, pos),
                    marked(b, index, start, pos),
                );
            },
            Frame::Again { node, min, max, greedy, start } => if 0 <= start <= text.len() && (pos
                > start || (pos == start && min > 0)) {
                lemma_again(node, min, (text.len() - start) as nat, (text.len() - pos) as nat);
                lemma_repeat_marks(
                    node,
                    min_left(min),
                    max_left(max),
                    greedy,
                    rest,
                    text,
                    pos,
                    a,
                    b,
                );
            },
        }
    }
}

proof fn lemma_node_marks(n: NodeView, k: Seq<Frame>, text: Seq<char>, pos: int, a: Marks, b: Marks)
    requires
        0 <= pos <= text.len(),
    ensures
        run_node(n, k, text, pos, a) is Some == run_node(n, k, text, pos, b) is Some,
    decreases weight(n, (text.len() - pos) as nat) + stack_weight(k, text.len(), pos), 1int,
{
    match n {
        NodeView::Empty | NodeView::Start | NodeView::End => {
            lemma_run_marks(k, text, pos, a, b);
        },
        NodeView::Char(_) | NodeView::Any | NodeView::Class { .. } => {
            if pos < text.len() {
                lemma_stack_shrinks(k, text.len(), pos, pos + 1);
                lemma_run_marks(k, text, pos + 1, a, b);
            }
        },
        NodeView::Concat(parts) => {
            lemma_stack_push(k, Frame::Rest(parts, 0), text.len(), pos);
            lemma_run_marks(k.push(Frame::Rest(parts, 0)), text, pos, a, b);
        },
        NodeView::Alt(alts) => {
            lemma_alts_marks(alts, 0, k, text, pos, a, b);
        },
        NodeView::Group { index, node } => {
            lemma_stack_push(k, Frame::Close(index, pos), text.len(), pos);
            lemma_node_marks(*node, k.push(Frame::Close(index, pos)), text, pos, a, b);
        },
        NodeView::Repeat { node, min, max, greedy } => {
            lemma_repeat_marks(*node, min, max, greedy, k, text, pos, a, b);
        },
    }
}

proof fn lemma_alts_marks(
    alts: Seq<NodeView>,
    i: nat,
    k: Seq<Frame>,
    text: Seq<char>,
    pos: int,
    a: Marks,
    b: Marks,
)
    requires
        0 <= pos <= text.len(),
    ensures
        run_alts(alts, i, k, text, pos, a) is Some == run_alts(alts, i, k, text, pos, b) is Some,
    decreases
            1 + weights(alts, i, (text.len() - pos) as nat) + stack_weight(k, text.len(), pos),
            0int,
{
    if i < alts.len() {
        lemma_node_marks(alts[i as int], k, text, pos, a, b);
        lemma_alts_marks(alts, i + 1, k, text, pos, a, b);
    }
}

proof fn lemma_repeat_marks(
    node: NodeView,
    min: u32,
    max: Option<u32>,
    greedy: bool,
    k: Seq<Frame>,
    text: Seq<char>,
    pos: int,
    a: Marks,
    b: Marks,
)
    requires
        0 <= pos <= text.len(),
    ensures
        run_repeat(node, min, max, greedy, k, text, pos, a) is Some == run_repeat(
            node,
            min,
            max,
            greedy,
            k,
            text,
            pos,
            b,
        ) is Some,
    decreases
            rounds(weight(node, (text.len() - pos) as nat), ((text.len() - pos) + min) as nat)
                + stack_weight(k, text.len(), pos),
            0int,
{
    let rem = (text.len() - pos) as nat;
    let again = Frame::Again { node, min, max, greedy, start: pos };
    lemma_rounds_step(weight(node, rem), rem + min as nat);
    lemma_stack_push(k, again, text.len(), pos);
    lemma_run_marks(k, text, pos, a, b);
    lemma_node_marks(node, k.push(again), text, pos, a, b);
}

/// A part leads through exactly where the text that it describes does.
proof fn lemma_node(n: NodeView, k: Seq<Frame>, text: Seq<char>, pos: int, marks: Marks)
    requires
        0 <= pos <= text.len(),
    ensures
        run_node(n, k, text, pos, marks) is Some <==> exists|e: int| #[trigger]
            spans(n, text, pos, e) && through(k, text, e),
    decreases n, 0nat, 0nat, 0nat,
{
    match n {
        NodeView::Empty | NodeView::Start | NodeView::End => {
            lemma_run_marks(k, text, pos, marks, Seq::empty());
            assert(forall|e: int| #[trigger] spans(n, text, pos, e) ==> e == pos);
            assert(run_node(n, k, text, pos, marks) is Some == (spans(n, text, pos, pos) && through(
                k,
                text,
                pos,
            )));
        },
        NodeView::Char(_) | NodeView::Any | NodeView::Class { .. } => {
            if pos < text.len() {
                lemma_run_marks(k, text, pos + 1, marks, Seq::empty());
                assert(run_node(n, k, text, pos, marks) is Some == (spans(n, text, pos, pos + 1)
                    && through(k, text, pos + 1)));
            }
        },
        NodeView::Concat(parts) => {
            lemma_row(parts, 0, k, text, pos, marks);
            if run_node(n, k, text, pos, marks) is Some {
                let e = choose|e: int| #[trigger]
                    row_spans(parts, 0, text, pos, e) && through(k, text, e);
                assert(spans(n, text, pos, e));
            }
            assert forall|e: int| #[trigger] spans(n, text, pos, e) implies row_spans(
                parts,
                0,
                text,
                pos,
                e,
            ) by {}
        },
        NodeView::Alt(alts) => {
            lemma_alts(alts, 0, k, text, pos, marks);
            if run_node(n, k, text, pos, marks) is Some {
                let (a, e) = choose|a: int, e: int|
                    0 <= a < alts.len() && #[trigger] spans(alts[a], text, pos, e) && through(
                        k,
                        text,
                        e,
                    );
                assert(spans(n, text, pos, e));
            }
            if exists|e: int| #[trigger] spans(n, text, pos, e) && through(k, text, e) {
                let e = choose|e: int| #[trigger] spans(n, text, pos, e) && through(k, text, e);
                let a = choose|a: int| 0 <= a < alts.len() && spans(#[trigger] alts[a], text, pos, e);
                assert(spans(alts[a], text, pos, e));
            }
        },
        NodeView::Group { index, node } => {
            let close = Frame::Close(index, pos);
            let f = k.push(close);
            assert(f.drop_last() =~= k);
            lemma_node(*node, f, text, pos, marks);
            assert forall|e: int| #[trigger] spans(*node, text, pos, e) implies through(f, text, e)
                == through(k, text, e) by {
                lemma_spans_inside(*node, text, pos, e);
                lemma_run_marks(
                    k,
                    text,
                    e,
                    marked(Seq::empty(), index, pos, e),
                    Seq::empty(),
                );
            }
            if run_node(n, k, text, pos, marks) is Some {
                let e = choose|e: int| #[trigger]
                    spans(*node, text, pos, e) && through(f, text, e);
                assert(spans(n, text, pos, e));
            }
            assert forall|e: int| #[trigger] spans(n, text, pos, e) implies spans(
                *node,
                text,
                pos,
                e,
            ) by {}
        },
        NodeView::Repeat { node, min, max, greedy } => {
            lemma_repeat(*node, min, max, greedy, k, text, pos, marks);
            if run_node(n, k, text, pos, marks) is Some {
                let (c, e) = choose|c: nat, e: int|
                    within(min, max, c) && #[trigger] times(*node, c, text, pos, e) && through(
                        k,
                        text,
                        e,
                    );
                assert(spans(n, text, pos, e));
            }
            if exists|e: int| #[trigger] spans(n, text, pos, e) && through(k, text, e) {
                let e = choose|e: int| #[trigger] spans(n, text, pos, e) && through(k, text, e);
                let c = choose|c: nat| #[trigger]
                    within(min, max, c) && times(*node, c, text, pos, e);
                assert(times(*node, c, text, pos, e));
            }
        },
    }
}

proof fn lemma_row(
    parts: Seq<NodeView>,
    p: nat,
    k: Seq<Frame>,
    text: Seq<char>,
    pos: int,
    marks: Marks,
)
    requires
        0 <= pos <= text.len(),
    ensures
        run(k.push(Frame::Rest(parts, p as int)), text, pos, marks) is Some <==> exists|e: int|
            #[trigger] row_spans(parts, p, text, pos, e) && through(k, text, e),
    decreases parts, parts.len() - p, 0nat, 0nat,
{
    let f = k.push(Frame::Rest(parts, p as int));
    assert(f.drop_last() =~= k);
    if p < parts.len() {
        let next = k.push(Frame::Rest(parts, p as int + 1));
        let g = next.push(Frame::Node(parts[p as int]));
        assert(g.drop_last() =~= next);
        assert(run(f, text, pos, marks) == run(g, text, pos, marks));
        assert(run(g, text, pos, marks) == run_node(parts[p as int], next, text, pos, marks));
        lemma_node(parts[p as int], next, text, pos, marks);
        assert forall|m: int| #[trigger] spans(parts[p as int], text, pos, m) implies through(
            next,
            text,
            m,
        ) == exists|e: int| #[trigger] row_spans(parts, p + 1, text, m, e) && through(k, text, e) by {
            lemma_spans_inside(parts[p as int], text, pos, m);
            lemma_row(parts, p + 1, k, text, m, Seq::empty());
        }
        if run(f, text, pos, marks) is Some {
            let m = choose|m: int| #[trigger]
                spans(parts[p as int], text, pos, m) && through(next, text, m);
            let e = choose|e: int| #[trigger]
                row_spans(parts, p + 1, text, m, e) && through(k, text, e);
            assert(place(m));
            assert(row_spans(parts, p, text, pos, e));
        }
        if exists|e: int| #[trigger] row_spans(parts, p, text, pos, e) && through(k, text, e) {
            let e = choose|e: int| #[trigger]
                row_spans(parts, p, text, pos, e) && through(k, text, e);
            let m = choose|m: int| #[trigger]
                place(m) && spans(parts[p as int], text, pos, m) && row_spans(
                    parts,
                    p + 1,
                    text,
                    m,
                    e,
                );
            assert(spans(parts[p as int], text, pos, m));
            assert(row_spans(parts, p + 1, text, m, e));
            assert(through(next, text, m));
        }
    } else {
        lemma_run_marks(k, text, pos, marks, Seq::empty());
        assert(row_spans(parts, p, text, pos, pos));
    }
}

proof fn lemma_alts(
    alts: Seq<NodeView>,
    i: nat,
    k: Seq<Frame>,
    text: Seq<char>,
    pos: int,
    marks: Marks,
)
    requires
        0 <= pos <= text.len(),
    ensures
        run_alts(alts, i, k, text, pos, marks) is Some <==> exists|a: int, e: int|
            i <= a < alts.len() && #[trigger] spans(alts[a], text, pos, e) && through(k, text, e),
    decreases alts, alts.len() - i, 0nat, 0nat,
{
    if i < alts.len() {
        lemma_node(alts[i as int], k, text, pos, marks);
        lemma_alts(alts, i + 1, k, text, pos, marks);
    }
}

proof fn lemma_repeat(
    node: NodeView,
    min: u32,
    max: Option<u32>,
    greedy: bool,
    k: Seq<Frame>,
    text: Seq<char>,
    pos: int,
    marks: Marks,
)
    requires
        0 <= pos <= text.len(),
    ensures
        run_repeat(node, min, max, greedy, k, text, pos, marks) is Some <==> exists|c: nat, e: int|
            within(min, max, c) && #[trigger] times(node, c, text, pos, e) && through(k, text, e),
    decreases node, 1nat, (2 * ((text.len() - pos) + min) + 1) as nat, 0nat,
{
    if run_repeat(node, min, max, greedy, k, text, pos, marks) is Some {
        lemma_repeat_found(node, min, max, greedy, k, text, pos, marks);
    }
    if exists|c: nat, e: int|
        within(min, max, c) && #[trigger] times(node, c, text, pos, e) && through(k, text, e) {
        let (c, e) = choose|c: nat, e: int|
            within(min, max, c) && #[trigger] times(node, c, text, pos, e) && through(k, text, e);
        lemma_repeat_leads(node, min, max, greedy, k, text, pos, marks, c, e);
    }
}

/// What a repetition leads through is a number of rounds that it allows.
proof fn lemma_repeat_found(
    node: NodeView,
    min: u32,
    max: Option<u32>,
    greedy: bool,
    k: Seq<Frame>,
    text: Seq<char>,
    pos: int,
    marks: Marks,
)
    requires
        0 <= pos <= text.len(),
        run_repeat(node, min, max, greedy, k, text, pos, marks) is Some,
    ensures
        exists|c: nat, e: int|
            within(min, max, c) && #[trigger] times(node, c, text, pos, e) && through(k, text, e),
    decreases node, 1nat, (2 * ((text.len() - pos) + min)) as nat, 0nat,
{
    let again = Frame::Again { node, min, max, greedy, start: pos };
    let f = k.push(again);
    assert(f.drop_last() =~= k);
    lemma_run_marks(k, text, pos, marks, Seq::empty());
    if min == 0 && through(k, text, pos) {
        assert(times(node, 0, text, pos, pos));
    } else {
        lemma_node(node, f, text, pos, marks);
        let m = choose|m: int| #[trigger] spans(node, text, pos, m) && through(f, text, m);
        lemma_spans_inside(node, text, pos, m);
        lemma_repeat(node, min_left(min), max_left(max), greedy, k, text, m, Seq::empty());
        let (c, e) = choose|c: nat, e: int|
            within(min_left(min), max_left(max), c) && #[trigger] times(node, c, text, m, e)
                && through(k, text, e);
        assert(place(m));
        assert(times(node, c + 1, text, pos, e));
    }
}

/// Any number of rounds that a repetition allows leads through it. A round that
/// takes nothing, beyond those that are due, can be left out.
proof fn lemma_repeat_leads(
    node: NodeView,
    min: u32,
    max: Option<u32>,
    greedy: bool,
    k: Seq<Frame>,
    text: Seq<char>,
    pos: int,
    marks: Marks,
    c: nat,
    e: int,
)
    requires
        0 <= pos <= text.len(),
        within(min, max, c),
        times(node, c, text, pos, e),
        through(k, text, e),
    ensures
        run_repeat(node, min, max, greedy, k, text, pos, marks) is Some,
    decreases node, 1nat, (2 * ((text.len() - pos) + min)) as nat, c,
{
    lemma_run_marks(k, text, pos, marks, Seq::empty());
    if c > 0 {
        let again = Frame::Again { node, min, max, greedy, start: pos };
        let f = k.push(again);
        assert(f.drop_last() =~= k);
        let m = choose|m: int| #[trigger]
            place(m) && spans(node, text, pos, m) && times(node, (c - 1) as nat, text, m, e);
        lemma_spans_inside(node, text, pos, m);
        if m == pos && min == 0 {
            lemma_repeat_leads(node, min, max, greedy, k, text, pos, marks, (c - 1) as nat, e);
        } else {
            lemma_repeat(node, min_left(min), max_left(max), greedy, k, text, m, Seq::empty());
            assert(times(node, (c - 1) as nat, text, m, e));
            assert(through(f, text, m));
            lemma_node(node, f, text, pos, marks);
        }
    }
}

/// A pattern matches a text exactly where it describes some part of it, and the
/// match starts at the first place where it does.
pub proof fn law_a_pattern_matches_what_it_describes(
    root: NodeView,
    groups: nat,
    text: Seq<char>,
    start: int,
)
    requires
        0 <= start,
    ensures
        first_match(root, groups, text, start) is Some <==> exists|i: int, j: int|
            start <= i && #[trigger] spans(root, text, i, j),
        first_match(root, groups, text, start) is Some ==> exists|i: int, j: int|
            start <= i && #[trigger] spans(root, text, i, j) && first_match(
                root,
                groups,
                text,
                start,
            ) == run_node(root, Seq::empty(), text, i, no_marks(groups)) && (forall|h: int, g: int|
                start <= h < i ==> !#[trigger] spans(root, text, h, g)),
    decreases text.len() - start + 1,
{
    if start <= text.len() {
        lemma_node(root, Seq::empty(), text, start, no_marks(groups));
        assert forall|e: int| #[trigger] spans(root, text, start, e) implies through(
            Seq::empty(),
            text,
            e,
        ) by {
            lemma_spans_inside(root, text, start, e);
        }
        if run_node(root, Seq::empty(), text, start, no_marks(groups)) is None {
            law_a_pattern_matches_what_it_describes(root, groups, text, start + 1);
            if first_match(root, groups, text, start) is Some {
                let (i, j) = choose|i: int, j: int|
                    start + 1 <= i && #[trigger] spans(root, text, i, j) && first_match(
                        root,
                        groups,
                        text,
                        start + 1,
                    ) == run_node(root, Seq::empty(), text, i, no_marks(groups)) && (forall|
                        h: int,
                        g: int,
                    |
                        start + 1 <= h < i ==> !#[trigger] spans(root, text, h, g));
                assert(spans(root, text, i, j));
                assert forall|h: int, g: int| start <= h < i implies !#[trigger] spans(
                    root,
                    text,
                    h,
                    g,
                ) by {}
            }
            if exists|i: int, j: int| start <= i && #[trigger] spans(root, text, i, j) {
                let (i, j) = choose|i: int, j: int| start <= i && #[trigger] spans(root, text, i, j);
                assert(i != start);
                assert(spans(root, text, i, j));
            }
        }
    } else {
        assert forall|i: int, j: int| start <= i implies !#[trigger] spans(root, text, i, j) by {
            if spans(root, text, i, j) {
                lemma_spans_inside(root, text, i, j);
            }
        }
    }
}

/// Whether captures are parts of a text, one for each of a number of groups, or
/// there are none.
spec fn kept_inside(r: Option<Marks>, groups: nat, len: nat) -> bool {
    r matches Some(m) ==> m.len() == groups && inside(m, len)
}

proof fn lemma_opened(k: Seq<Frame>, f: Frame, pos: int)
    requires
        opened_before(k, pos),
        f matches Frame::Close(_, start) ==> 0 <= start <= pos,
    ensures
        opened_before(k.push(f), pos),
{
}

proof fn lemma_run_inside(k: Seq<Frame>, text: Seq<char>, pos: int, marks: Marks)
    requires
        0 <= pos <= text.len(),
        opened_before(k, pos),
        inside(marks, text.len()),
    ensures
        kept_inside(run(k, text, pos, marks), marks.len(), text.len()),
    decreases stack_weight(k, text.len(), pos), 2int,
{
    if k.len() > 0 {
        let rest = k.drop_last();
        assert(opened_before(rest, pos));
        assert(k[k.len() - 1] == k.last());
        match k.last() {
            Frame::Node(n) => {
                lemma_node_inside(n, rest, text, pos, marks);
            },
            Frame::Rest(parts, i) => if 0 <= i < parts.len() {
                let next = rest.push(Frame::Rest(parts, i + 1));
                lemma_stack_push(rest, Frame::Rest(parts, i + 1), text.len(), pos);
                lemma_stack_push(next, Frame::Node(parts[i]), text.len(), pos);
                lemma_opened(rest, Frame::Rest(parts, i + 1), pos);
                lemma_opened(next, Frame::Node(parts[i]), pos);
                lemma_run_inside(next.push(Frame::Node(parts[i])), text, pos, marks);
            } else {
                lemma_run_inside(rest, text, pos, marks);
            },
            Frame::Close(index, start) => {
                lemma_run_inside(rest, text, pos, marked(marks, index, start, pos));
            },
            Frame::Again { node, min, max, greedy, start } => if 0 <= start <= text.len() && (pos
                > start || (pos == start && min > 0)) {
                lemma_again(node, min, (text.len() - start) as nat, (text.len() - pos) as nat);
                lemma_repeat_inside(
                    node,
                    min_left(min),
                    max_left(max),
                    greedy,
                    rest,
                    text,
                    pos,
                    marks,
                );
            },
        }
    }
}

proof fn lemma_node_inside(n: NodeView, k: Seq<Frame>, text: Seq<char>, pos: int, marks: Marks)
    requires
        0 <= pos <= text.len(),
        opened_before(k, pos),
        inside(marks, text.len()),
    ensures
        kept_inside(run_node(n, k, text, pos, marks), marks.len(), text.len()),
    decreases weight(n, (text.len() - pos) as nat) + stack_weight(k, text.len(), pos), 1int,
{
    match n {
        NodeView::Empty | NodeView::Start | NodeView::End => {
            lemma_run_inside(k, text, pos, marks);
        },
        NodeView::Char(_) | NodeView::Any | NodeView::Class { .. } => {
            if pos < text.len() {
                lemma_stack_shrinks(k, text.len(), pos, pos + 1);
                assert(opened_before(k, pos + 1));
                lemma_run_inside(k, text, pos + 1, marks);
            }
        },
        NodeView::Concat(parts) => {
            lemma_stack_push(k, Frame::Rest(parts, 0), text.len(), pos);
            lemma_opened(k, Frame::Rest(parts, 0), pos);
            lemma_run_inside(k.push(Frame::Rest(parts, 0)), text, pos, marks);
        },
        NodeView::Alt(alts) => {
            lemma_alts_inside(alts, 0, k, text, pos, marks);
        },
        NodeView::Group { index, node } => {
            lemma_stack_push(k, Frame::Close(index, pos), text.len(), pos);
            lemma_opened(k, Frame::Close(index, pos), pos);
            lemma_node_inside(*node, k.push(Frame::Close(index, pos)), text, pos, marks);
        },
        NodeView::Repeat { node, min, max, greedy } => {
            lemma_repeat_inside(*node, min, max, greedy, k, text, pos, marks);
        },
    }
}

proof fn lemma_alts_inside(
    alts: Seq<NodeView>,
    i: nat,
    k: Seq<Frame>,
    text: Seq<char>,
    pos: int,
    marks: Marks,
)
    requires
        0 <= pos <= text.len(),
        opened_before(k, pos),
        inside(marks, text.len()),
    ensures
        kept_inside(run_alts(alts, i, k, text, pos, marks), marks.len(), text.len()),
    decreases
            1 + weights(alts, i, (text.len() - pos) as nat) + stack_weight(k, text.len(), pos),
            0int,
{
    if i < alts.len() {
        lemma_node_inside(alts[i as int], k, text, pos, marks);
        lemma_alts_inside(alts, i + 1, k, text, pos, marks);
    }
}

proof fn lemma_repeat_inside(
    node: NodeView,
    min: u32,
    max: Option<u32>,
    greedy: bool,
    k: Seq<Frame>,
    text: Seq<char>,
    pos: int,
    marks: Marks,
)
    requires
        0 <= pos <= text.len(),
        opened_before(k, pos),
        inside(marks, text.len()),
    ensures
        kept_inside(
            run_repeat(node, min, max, greedy, k, text, pos, marks),
            marks.len(),
            text.len(),
        ),
    decreases
            rounds(weight(node, (text.len() - pos) as nat), ((text.len() - pos) + min) as nat)
                + stack_weight(k, text.len(), pos),
            0int,
{
    let rem = (text.len() - pos) as nat;
    let again = Frame::Again { node, min, max, greedy, start: pos };
    lemma_rounds_step(weight(node, rem), rem + min as nat);
    lemma_stack_push(k, again, text.len(), pos);
    lemma_opened(k, again, pos);
    lemma_run_inside(k, text, pos, marks);
    lemma_node_inside(node, k.push(again), text, pos, marks);
}

/// A match marks, for each group that took part in it, a part of the text.
pub proof fn law_matches_lie_in_the_text(
    root: NodeView,
    groups: nat,
    text: Seq<char>,
    start: int,
)
    ensures
        first_match(root, groups, text, start) matches Some(marks) ==> marks.len() == groups
            && inside(marks, text.len()),
    decreases text.len() - start + 1,
{
    if 0 <= start <= text.len() {
        lemma_node_inside(root, Seq::empty(), text, start, no_marks(groups));
        law_matches_lie_in_the_text(root, groups, text, start + 1);
    }
}

/// Whether a text is a part of another, in one piece.
pub open spec fn part_of(part: Seq<char>, text: Seq<char>) -> bool {
    exists|i: int, j: int| 0 <= i <= j <= text.len() && part == #[trigger] text.subrange(i, j)
}

/// Whether texts stand in a row of texts at these places, one behind the other.
pub open spec fn picked(at: Seq<int>, some: Seq<Seq<char>>, all: Seq<Seq<char>>) -> bool {
    &&& at.len() == some.len()
    &&& forall|i: int|
        0 <= i < at.len() ==> 0 <= #[trigger] at[i] < all.len() && some[i] == all[at[i]]
    &&& forall|i: int, j: int| 0 <= i < j < at.len() ==> at[i] < at[j]
}

/// The names of captures.
pub open spec fn names_of(pairs: Seq<(Seq<char>, Seq<char>)>) -> Seq<Seq<char>> {
    Seq::new(pairs.len(), |i: int| pairs[i].0)
}

proof fn lemma_captured(
    names: Seq<Option<Seq<char>>>,
    marks: Marks,
    text: Seq<char>,
    n: nat,
) -> (at: Seq<int>)
    requires
        n <= names.len(),
        marks.len() == names.len(),
        inside(marks, text.len()),
    ensures
        picked(at, names_of(captured(names, marks, text, n)), given_names(names, n)),
        forall|i: int|
            0 <= i < captured(names, marks, text, n).len() ==> part_of(
                (#[trigger] captured(names, marks, text, n)[i]).1,
                text,
            ),
    decreases n,
{
    if n == 0 {
        Seq::empty()
    } else {
        let m = (n - 1) as nat;
        let before = lemma_captured(names, marks, text, m);
        let pairs = captured(names, marks, text, m);
        match (names[m as int], marks[m as int]) {
            (Some(name), Some((s, e))) => {
                let at = before.push(given_names(names, m).len() as int);
                let part = text.subrange(s, e);
                assert(part_of(part, text));
                assert(names_of(pairs.push((name, part))) =~= names_of(pairs).push(name));
                assert(captured(names, marks, text, n) == pairs.push((name, part)));
                assert(given_names(names, n) == given_names(names, m).push(name));
                at
            },
            _ => before,
        }
    }
}

/// The captures of a match come in the order in which their names stand in the
/// pattern, none of them twice, and each is a part of the text in one piece.
pub proof fn law_captures_come_in_order(p: PatternView, text: Seq<char>)
    requires
        well_named(p.names),
    ensures
        captures_of(p, text) matches Some(pairs) ==> {
            &&& exists|at: Seq<int>| #[trigger]
                picked(at, names_of(pairs), given_names(p.names, p.names.len()))
            &&& names_of(pairs).no_duplicates()
            &&& forall|i: int| 0 <= i < pairs.len() ==> part_of((#[trigger] pairs[i]).1, text)
        },
{
    let n = p.names.len();
    match first_match(p.root, n, text, 0) {
        Some(marks) => {
            law_matches_lie_in_the_text(p.root, n, text, 0);
            let at = lemma_captured(p.names, marks, text, n);
            let names = names_of(captured(p.names, marks, text, n));
            let all = given_names(p.names, n);
            let places = lemma_given(p.names, n);
            assert forall|i: int, j: int| 0 <= i < j < names.len() implies names[i] != names[j] by {
                assert(at[i] < at[j]);
                assert(all[at[i]] != all[at[j]]);
            }
        },
        None => {},
    }
}

/// Where the names that are given stand.
proof fn lemma_given(names: Seq<Option<Seq<char>>>, n: nat) -> (at: Seq<int>)
    requires
        n <= names.len(),
        well_named(names),
    ensures
        at.len() == given_names(names, n).len(),
        forall|i: int|
            0 <= i < at.len() ==> 0 <= #[trigger] at[i] < n && names[at[i]] == Some(
                given_names(names, n)[i],
            ),
        forall|i: int, j: int| 0 <= i < j < at.len() ==> at[i] < at[j],
        given_names(names, n).no_duplicates(),
        forall|i: int| 0 <= i < n && (#[trigger] names[i]) is Some ==> at.len() > 0,
    decreases n,
{
    if n == 0 {
        Seq::empty()
    } else {
        let m = (n - 1) as nat;
        let before = lemma_given(names, m);
        match names[m as int] {
            Some(name) => {
                let at = before.push(m as int);
                let now = given_names(names, n);
                assert(now == given_names(names, m).push(name));
                assert forall|i: int, j: int|
                    0 <= i < now.len() && 0 <= j < now.len() && i != j implies now[i] != now[j] by {
                    assert(names[at[i]] == Some(now[i]));
                    assert(names[at[j]] == Some(now[j]));
                }
                at
            },
            None => before,
        }
    }
}

/// A pattern that is accepted has a named capture; its capture names are distinct,
/// not empty, and made of letters, digits, `_` and `.` alone.
pub proof fn law_capture_names_are_proper(s: Seq<char>)
    ensures
        pattern_in(s) matches Ok(p) ==> {
            let names = given_names(p.names, p.names.len());
            &&& names.len() > 0
            &&& names.no_duplicates()
            &&& forall|i: int|
                0 <= i < names.len() ==> (#[trigger] names[i]).len() > 0 && nameable(names[i])
        },
{
    law_captures_are_well_named(s);
    match pattern_in(s) {
        Ok(p) => {
            let at = lemma_given(p.names, p.names.len());
            let names = given_names(p.names, p.names.len());
            let i = choose|i: int| 0 <= i < p.names.len() && (#[trigger] p.names[i]) is Some;
            assert(p.names[i] is Some);
            assert forall|i: int| 0 <= i < names.len() implies (#[trigger] names[i]).len() > 0
                && nameable(names[i]) by {
                assert(p.names[at[i]] == Some(names[i]));
            }
        },
        Err(_) => {},
    }
}

} // verus!
