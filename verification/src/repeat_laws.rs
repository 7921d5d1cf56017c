//! What holds of repetitions, groups and alternatives in a pattern: which of the
//! ways through a text is taken, and what is captured on it.

use crate::pattern::{
    class_has, max_left, min_left, run, run_alts, run_node, run_repeat, Frame, Marks, NodeView,
};
use crate::pattern_laws::lemma_run_marks;
use crate::pattern_syntax::quantified;
use vstd::prelude::*;

verus! {

/// Whether a part takes one character.
pub open spec fn takes_one(n: NodeView) -> bool {
    n is Char || n is Any || n is Class
}

/// Whether a part of one character takes this one.
pub open spec fn takes(n: NodeView, c: char) -> bool {
    match n {
        NodeView::Char(d) => c == d,
        NodeView::Any => c != '\n',
        NodeView::Class { items, negated } => class_has(items, negated, c),
        _ => false,
    }
}

/// Whether a repetition of a part of one character can go on for this many
/// characters: as many as its counts allow, each of which the part takes.
pub open spec fn can_take(
    node: NodeView,
    min: u32,
    max: Option<u32>,
    text: Seq<char>,
    pos: int,
    count: int,
) -> bool {
    &&& min <= count
    &&& max matches Some(m) ==> count <= m
    &&& pos + count <= text.len()
    &&& forall|i: int| pos <= i < pos + count ==> takes(node, #[trigger] text[i])
}

/// One round of a repetition of a part of one character.
proof fn lemma_round(
    node: NodeView,
    min: u32,
    max: Option<u32>,
    greedy: bool,
    k: Seq<Frame>,
    text: Seq<char>,
    pos: int,
    marks: Marks,
)
    requires
        takes_one(node),
        0 <= pos <= text.len(),
    ensures
        ({
            let leave = if min == 0 {
                run(k, text, pos, marks)
            } else {
                None
            };
            let stay = if max != Some(0u32) && pos < text.len() && takes(node, text[pos]) {
                run_repeat(node, min_left(min), max_left(max), greedy, k, text, pos + 1, marks)
            } else {
                None
            };
            run_repeat(node, min, max, greedy, k, text, pos, marks) == (if greedy {
                if stay is Some {
                    stay
                } else {
                    leave
                }
            } else if leave is Some {
                leave
            } else {
                stay
            })
        }),
{
    let again = Frame::Again { node, min, max, greedy, start: pos };
    let rest = k.push(again);
    assert(rest.drop_last() =~= k);
    assert(rest.last() == again);
    if pos < text.len() && takes(node, text[pos]) {
        assert(run_node(node, rest, text, pos, marks) == run(rest, text, pos + 1, marks));
        assert(run(rest, text, pos + 1, marks) == run_repeat(
            node,
            min_left(min),
            max_left(max),
            greedy,
            k,
            text,
            pos + 1,
            marks,
        ));
    } else {
        assert(run_node(node, rest, text, pos, marks) is None);
    }
}

proof fn lemma_can_take(
    node: NodeView,
    min: u32,
    max: Option<u32>,
    text: Seq<char>,
    pos: int,
    count: int,
)
    requires
        0 <= pos <= text.len(),
        count > 0,
    ensures
        can_take(node, min, max, text, pos, count) <==> max != Some(0u32) && pos < text.len()
            && takes(node, text[pos]) && can_take(
            node,
            min_left(min),
            max_left(max),
            text,
            pos + 1,
            count - 1,
        ),
{
    if can_take(node, min, max, text, pos, count) {
        assert(takes(node, text[pos]));
    }
}

/// Whether no way leads on from any place where a repetition can end.
pub open spec fn leads_nowhere(
    node: NodeView,
    min: u32,
    max: Option<u32>,
    k: Seq<Frame>,
    text: Seq<char>,
    pos: int,
    marks: Marks,
) -> bool {
    forall|c: int|
        0 <= c && #[trigger] can_take(node, min, max, text, pos, c) ==> run(
            k,
            text,
            pos + c,
            marks,
        ) is None
}

/// A repetition from which no way leads on does not match.
pub proof fn law_a_repetition_needs_a_way_on(
    node: NodeView,
    min: u32,
    max: Option<u32>,
    greedy: bool,
    k: Seq<Frame>,
    text: Seq<char>,
    pos: int,
    marks: Marks,
)
    requires
        takes_one(node),
        0 <= pos <= text.len(),
        leads_nowhere(node, min, max, k, text, pos, marks),
    ensures
        run_repeat(node, min, max, greedy, k, text, pos, marks) is None,
    decreases text.len() - pos,
{
    lemma_round(node, min, max, greedy, k, text, pos, marks);
    if min == 0 {
        assert(can_take(node, min, max, text, pos, 0));
    }
    if max != Some(0u32) && pos < text.len() && takes(node, text[pos]) {
        assert forall|c: int|
            0 <= c && #[trigger] can_take(
                node,
                min_left(min),
                max_left(max),
                text,
                pos + 1,
                c,
            ) implies run(k, text, pos + 1 + c, marks) is None by {
            lemma_can_take(node, min, max, text, pos, c + 1);
            assert(can_take(node, min, max, text, pos, c + 1));
        }
        law_a_repetition_needs_a_way_on(
            node,
            min_left(min),
            max_left(max),
            greedy,
            k,
            text,
            pos + 1,
            marks,
        );
    }
}

/// Of the places where it can end and from which a way leads on, a lazy repetition
/// of a part of one character ends at the nearest.
pub proof fn law_a_lazy_repetition_ends_at_the_nearest_place(
    node: NodeView,
    min: u32,
    max: Option<u32>,
    k: Seq<Frame>,
    text: Seq<char>,
    pos: int,
    marks: Marks,
    count: int,
)
    requires
        takes_one(node),
        0 <= pos <= text.len(),
        0 <= count,
        can_take(node, min, max, text, pos, count),
        run(k, text, pos + count, marks) is Some,
        forall|c: int|
            0 <= c < count && #[trigger] can_take(node, min, max, text, pos, c) ==> run(
                k,
                text,
                pos + c,
                marks,
            ) is None,
    ensures
        run_repeat(node, min, max, false, k, text, pos, marks) == run(k, text, pos + count, marks),
    decreases count,
{
    lemma_round(node, min, max, false, k, text, pos, marks);
    if count > 0 {
        lemma_can_take(node, min, max, text, pos, count);
        if min == 0 {
            assert(can_take(node, min, max, text, pos, 0));
        }
        assert forall|c: int|
            0 <= c < count - 1 && #[trigger] can_take(
                node,
                min_left(min),
                max_left(max),
                text,
                pos + 1,
                c,
            ) implies run(k, text, pos + 1 + c, marks) is None by {
            lemma_can_take(node, min, max, text, pos, c + 1);
            assert(can_take(node, min, max, text, pos, c + 1));
        }
        law_a_lazy_repetition_ends_at_the_nearest_place(
            node,
            min_left(min),
            max_left(max),
            k,
            text,
            pos + 1,
            marks,
            count - 1,
        );
    }
}

/// Of those places, a greedy repetition ends at the farthest.
pub proof fn law_a_greedy_repetition_ends_at_the_farthest_place(
    node: NodeView,
    min: u32,
    max: Option<u32>,
    k: Seq<Frame>,
    text: Seq<char>,
    pos: int,
    marks: Marks,
    count: int,
)
    requires
        takes_one(node),
        0 <= pos <= text.len(),
        0 <= count,
        can_take(node, min, max, text, pos, count),
        run(k, text, pos + count, marks) is Some,
        forall|c: int|
            count < c && #[trigger] can_take(node, min, max, text, pos, c) ==> run(
                k,
                text,
                pos + c,
                marks,
            ) is None,
    ensures
        run_repeat(node, min, max, true, k, text, pos, marks) == run(k, text, pos + count, marks),
    decreases count,
{
    lemma_round(node, min, max, true, k, text, pos, marks);
    if count > 0 {
        lemma_can_take(node, min, max, text, pos, count);
        assert forall|c: int|
            count - 1 < c && #[trigger] can_take(
                node,
                min_left(min),
                max_left(max),
                text,
                pos + 1,
                c,
            ) implies run(k, text, pos + 1 + c, marks) is None by {
            lemma_can_take(node, min, max, text, pos, c + 1);
            assert(can_take(node, min, max, text, pos, c + 1));
        }
        law_a_greedy_repetition_ends_at_the_farthest_place(
            node,
            min_left(min),
            max_left(max),
            k,
            text,
            pos + 1,
            marks,
            count - 1,
        );
    } else if max != Some(0u32) && pos < text.len() && takes(node, text[pos]) {
        assert forall|c: int|
            0 <= c && #[trigger] can_take(
                node,
                min_left(min),
                max_left(max),
                text,
                pos + 1,
                c,
            ) implies run(k, text, pos + 1 + c, marks) is None by {
            lemma_can_take(node, min, max, text, pos, c + 1);
            assert(can_take(node, min, max, text, pos, c + 1));
        }
        law_a_repetition_needs_a_way_on(
            node,
            min_left(min),
            max_left(max),
            true,
            k,
            text,
            pos + 1,
            marks,
        );
    }
}

/// Whether a count is the one that a repetition settles on: it can take that many,
/// a way leads on from there, and from no nearer place where it is lazy, and no
/// farther one where it is greedy.
pub open spec fn settles_on(
    node: NodeView,
    min: u32,
    max: Option<u32>,
    greedy: bool,
    k: Seq<Frame>,
    text: Seq<char>,
    pos: int,
    marks: Marks,
    count: int,
) -> bool {
    &&& 0 <= count
    &&& can_take(node, min, max, text, pos, count)
    &&& run(k, text, pos + count, marks) is Some
    &&& forall|c: int|
        0 <= c && (if greedy { count < c } else { c < count }) && #[trigger] can_take(
            node,
            min,
            max,
            text,
            pos,
            c,
        ) ==> run(k, text, pos + c, marks) is None
}

/// A group around a repetition of a part of one character captures the shortest
/// text that leads to a match where the repetition is lazy, and the longest where it
/// is greedy; the match goes on behind it.
pub proof fn law_a_group_captures_what_its_repetition_takes(
    index: usize,
    node: NodeView,
    min: u32,
    max: Option<u32>,
    greedy: bool,
    k: Seq<Frame>,
    text: Seq<char>,
    pos: int,
    marks: Marks,
    count: int,
)
    requires
        takes_one(node),
        0 <= pos <= text.len(),
        index < marks.len(),
        settles_on(node, min, max, greedy, k, text, pos, marks, count),
    ensures
        run_node(
            NodeView::Group {
                index: Some(index),
                node: Box::new(NodeView::Repeat { node: Box::new(node), min, max, greedy }),
            },
            k,
            text,
            pos,
            marks,
        ) == run(k, text, pos + count, marks.update(index as int, Some((pos, pos + count)))),
{
    let frame = Frame::Close(Some(index), pos);
    let rest = k.push(frame);
    assert(rest.drop_last() =~= k);
    assert(rest.last() == frame);
    assert forall|c: int|
        0 <= c && #[trigger] can_take(node, min, max, text, pos, c) implies run(
        rest,
        text,
        pos + c,
        marks,
    ) == run(k, text, pos + c, marks.update(index as int, Some((pos, pos + c)))) && (run(
        rest,
        text,
        pos + c,
        marks,
    ) is Some == run(k, text, pos + c, marks) is Some) by {
        lemma_run_marks(
            k,
            text,
            pos + c,
            marks,
            marks.update(index as int, Some((pos, pos + c))),
        );
    }
    let repeat = NodeView::Repeat { node: Box::new(node), min, max, greedy };
    assert(run_node(repeat, rest, text, pos, marks) == run_repeat(
        node,
        min,
        max,
        greedy,
        rest,
        text,
        pos,
        marks,
    ));
    if greedy {
        law_a_greedy_repetition_ends_at_the_farthest_place(
            node,
            min,
            max,
            rest,
            text,
            pos,
            marks,
            count,
        );
    } else {
        law_a_lazy_repetition_ends_at_the_nearest_place(
            node,
            min,
            max,
            rest,
            text,
            pos,
            marks,
            count,
        );
    }
}

/// Of alternatives the first from which a way leads on is taken; where there is
/// none, they do not match.
pub proof fn law_the_first_alternative_that_leads_on_is_taken(
    alts: Seq<NodeView>,
    k: Seq<Frame>,
    text: Seq<char>,
    pos: int,
    marks: Marks,
    i: int,
)
    requires
        0 <= pos <= text.len(),
        0 <= i <= alts.len(),
        forall|j: int|
            0 <= j < i ==> run_node(#[trigger] alts[j], k, text, pos, marks) is None,
        i < alts.len() ==> run_node(alts[i], k, text, pos, marks) is Some,
    ensures
        run_node(NodeView::Alt(alts), k, text, pos, marks) == (if i < alts.len() {
            run_node(alts[i], k, text, pos, marks)
        } else {
            None
        }),
{
    lemma_alternatives(alts, 0, k, text, pos, marks, i);
}

proof fn lemma_alternatives(
    alts: Seq<NodeView>,
    from: nat,
    k: Seq<Frame>,
    text: Seq<char>,
    pos: int,
    marks: Marks,
    i: int,
)
    requires
        0 <= pos <= text.len(),
        from <= i <= alts.len(),
        forall|j: int|
            from <= j < i ==> run_node(#[trigger] alts[j], k, text, pos, marks) is None,
        i < alts.len() ==> run_node(alts[i], k, text, pos, marks) is Some,
    ensures
        run_alts(alts, from, k, text, pos, marks) == (if i < alts.len() {
            run_node(alts[i], k, text, pos, marks)
        } else {
            None
        }),
    decreases i - from,
{
    if from < i {
        assert(run_node(alts[from as int], k, text, pos, marks) is None);
        lemma_alternatives(alts, from + 1, k, text, pos, marks, i);
    }
}

/// A repetition is lazy exactly where a `?` stands behind its quantifier, whichever
/// quantifier that is, and that `?` belongs to it.
pub proof fn law_a_question_mark_makes_a_repetition_lazy(s: Seq<char>, p: int, atom: NodeView)
    requires
        0 <= p < s.len(),
    ensures
        match quantified(s, p, atom) {
            Ok((n, e)) => {
                &&& e == p ==> n == atom
                &&& e > p ==> (n matches NodeView::Repeat { node, min, max, greedy } && *node == atom
                    && (!greedy <==> e >= p + 2 && s[e - 1] == '?') && (greedy ==> !(e < s.len()
                    && s[e] == '?')))
                &&& e >= p
            },
            Err(_) => true,
        },
        s[p] == '*' && !(atom is Start) && !(atom is End) ==> (quantified(s, p, atom) matches Ok(
            (NodeView::Repeat { node, min, max, greedy }, e),
        ) && min == 0 && max is None && (e == p + 1 || e == p + 2)),
        s[p] == '+' && !(atom is Start) && !(atom is End) ==> (quantified(s, p, atom) matches Ok(
            (NodeView::Repeat { node, min, max, greedy }, e),
        ) && min == 1 && max is None && (e == p + 1 || e == p + 2)),
        s[p] == '?' && !(atom is Start) && !(atom is End) ==> (quantified(s, p, atom) matches Ok(
            (NodeView::Repeat { node, min, max, greedy }, e),
        ) && min == 0 && max == Some(1u32) && (e == p + 1 || e == p + 2)),
        s[p] != '*' && s[p] != '+' && s[p] != '?' && s[p] != '{' ==> quantified(s, p, atom) == Ok::<
            (NodeView, int),
            crate::lexer::Fault,
        >((atom, p)),
{
    if s[p] == '{' && p + 1 < s.len() {
        crate::pattern_syntax::lemma_digits(s, p + 1);
        let e = crate::decimal::digits_end(s, p + 1);
        if e < s.len() {
            crate::pattern_syntax::lemma_digits(s, e + 1);
        }
    }
}

} // verus!
