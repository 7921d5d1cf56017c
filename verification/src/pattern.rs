//! A small backtracking regular-expression engine with named captures, for logs
//! of plain text.
//!
//! ```text
//! (?<name>...) (?P<name>...)  named capture group
//! (?:...)                     group, no capture
//! (...)                       group, numbered capture
//! |                           alternation
//! .                           any character except newline
//! [a-z0-9_] [^ ]              character class, ranges and negation
//! \d \D \w \W \s \S           digit, word and space classes and complements
//! * + ? {m} {m,} {m,n}        greedy repetition
//! *? +? ?? {m,n}?             lazy repetition
//! ^ $                         start and end of the line
//! \. \\ \n \t \r \x41         escapes
//! ```
//!
//! A match is searched by trying the alternatives in order, the longer
//! repetition before the shorter one unless the repetition is lazy. The first
//! way through the whole pattern gives the captures.

pub use crate::pattern_syntax::PatternError;
use crate::text::{alphanumeric, chars_of, digit, is_digit, is_space, space, string_between};
use vstd::prelude::*;

verus! {

/// An entry of a character class. The flag of a class of digits, word characters
/// or spaces is false for its complement.
#[derive(Clone, Copy, Debug, PartialEq, Eq, Structural)]
pub enum ClassItem {
    Char(char),
    Range(char, char),
    Digit(bool),
    Word(bool),
    Space(bool),
}

/// A part of a compiled pattern.
#[derive(Debug, PartialEq)]
pub enum Node {
    /// Matches the empty string.
    Empty,
    Char(char),
    /// Any character except a newline.
    Any,
    Class { items: Vec<ClassItem>, negated: bool },
    Concat(Vec<Node>),
    Alt(Vec<Node>),
    Repeat { node: Box<Node>, min: u32, max: Option<u32>, greedy: bool },
    /// A group, which captures where it has an index.
    Group { index: Option<usize>, node: Box<Node> },
    Start,
    End,
}

/// What a part of a pattern is.
pub enum NodeView {
    Empty,
    Char(char),
    Any,
    Class { items: Seq<ClassItem>, negated: bool },
    Concat(Seq<NodeView>),
    Alt(Seq<NodeView>),
    Repeat { node: Box<NodeView>, min: u32, max: Option<u32>, greedy: bool },
    Group { index: Option<usize>, node: Box<NodeView> },
    Start,
    End,
}

/// What a part of a pattern is, its lists taken as sequences.
pub open spec fn node_view(n: Node) -> NodeView
    decreases n,
{
    match n {
        Node::Empty => NodeView::Empty,
        Node::Char(c) => NodeView::Char(c),
        Node::Any => NodeView::Any,
        Node::Class { items, negated } => NodeView::Class { items: items@, negated },
        Node::Concat(parts) => NodeView::Concat(
            Seq::new(
                parts@.len(),
                |i: int|
                    if 0 <= i < parts@.len() {
                        node_view(parts@[i])
                    } else {
                        NodeView::Empty
                    },
            ),
        ),
        Node::Alt(alts) => NodeView::Alt(
            Seq::new(
                alts@.len(),
                |i: int|
                    if 0 <= i < alts@.len() {
                        node_view(alts@[i])
                    } else {
                        NodeView::Empty
                    },
            ),
        ),
        Node::Repeat { node, min, max, greedy } => NodeView::Repeat {
            node: Box::new(node_view(*node)),
            min,
            max,
            greedy,
        },
        Node::Group { index, node } => NodeView::Group { index, node: Box::new(node_view(*node)) },
        Node::Start => NodeView::Start,
        Node::End => NodeView::End,
    }
}

impl View for Node {
    type V = NodeView;

    open spec fn view(&self) -> NodeView {
        node_view(*self)
    }
}

/// What a row of parts is.
pub open spec fn nodes_view(nodes: Seq<Node>) -> Seq<NodeView> {
    Seq::new(nodes.len(), |i: int| node_view(nodes[i]))
}

pub proof fn lemma_nodes_view(nodes: Vec<Node>)
    ensures
        Node::Concat(nodes)@ == NodeView::Concat(nodes_view(nodes@)),
        Node::Alt(nodes)@ == NodeView::Alt(nodes_view(nodes@)),
{
    assert(Node::Concat(nodes)@->Concat_0 =~= nodes_view(nodes@));
    assert(Node::Alt(nodes)@->Alt_0 =~= nodes_view(nodes@));
}

pub proof fn lemma_leaf_views(c: char)
    ensures
        Node::Char(c)@ == NodeView::Char(c),
        Node::Any@ == NodeView::Any,
        Node::Start@ == NodeView::Start,
        Node::End@ == NodeView::End,
        Node::Empty@ == NodeView::Empty,
{
}

/// Whether a character is in an entry of a class.
pub open spec fn item_has(item: ClassItem, c: char) -> bool {
    match item {
        ClassItem::Char(x) => x == c,
        ClassItem::Range(a, b) => a <= c && c <= b,
        ClassItem::Digit(want) => digit(c) == want,
        ClassItem::Word(want) => (alphanumeric(c) || c == '_') == want,
        ClassItem::Space(want) => space(c) == want,
    }
}

/// Whether a character is in a class.
pub open spec fn class_has(items: Seq<ClassItem>, negated: bool, c: char) -> bool {
    (exists|i: int| 0 <= i < items.len() && item_has(#[trigger] items[i], c)) != negated
}

/// Whether a character is in a class.
pub fn class_matches(items: &Vec<ClassItem>, negated: bool, c: char) -> (r: bool)
    ensures
        r == class_has(items@, negated, c),
{
    let mut i: usize = 0;
    while i < items.len()
        invariant
            i <= items@.len(),
            forall|j: int| 0 <= j < i ==> !item_has(#[trigger] items@[j], c),
        decreases items.len() - i,
    {
        let hit = match items[i] {
            ClassItem::Char(x) => x == c,
            ClassItem::Range(a, b) => a <= c && c <= b,
            ClassItem::Digit(want) => is_digit(c) == want,
            ClassItem::Word(want) => (c.is_alphanumeric() || c == '_') == want,
            ClassItem::Space(want) => is_space(c) == want,
        };
        if hit {
            assert(item_has(items@[i as int], c));
            return !negated;
        }
        i += 1;
    }
    negated
}

/// What is still to be matched, in the order from last to first.
pub enum Frame {
    /// A part.
    Node(NodeView),
    /// The parts of a row from a place on.
    Rest(Seq<NodeView>, int),
    /// The end of a group that started at a place.
    Close(Option<usize>, int),
    /// The rest of a repetition, one round of which started at a place.
    Again { node: NodeView, min: u32, max: Option<u32>, greedy: bool, start: int },
}

/// The captures so far, by group.
pub type Marks = Seq<Option<(int, int)>>;

/// What of a minimum is left after one round.
pub open spec fn min_left(min: u32) -> u32 {
    if min == 0 {
        0
    } else {
        (min - 1) as u32
    }
}

/// What of a maximum is left after one round.
pub open spec fn max_left(max: Option<u32>) -> Option<u32> {
    match max {
        Some(m) => Some(min_left(m)),
        None => None,
    }
}

/// How many steps a part takes at most, with `rem` characters left.
pub open spec fn weight(n: NodeView, rem: nat) -> nat
    decreases n, 0nat,
{
    match n {
        NodeView::Concat(parts) => 2 + weights(parts, 0, rem),
        NodeView::Alt(alts) => 2 + weights(alts, 0, rem),
        NodeView::Group { index, node } => 3 + weight(*node, rem),
        NodeView::Repeat { node, min, max, greedy } => 1 + rounds(weight(*node, rem), rem + min as nat),
        _ => 1,
    }
}

/// How many steps the parts of a row from place `i` on take at most.
pub open spec fn weights(parts: Seq<NodeView>, i: nat, rem: nat) -> nat
    decreases parts, parts.len() - i,
{
    if i >= parts.len() {
        0
    } else {
        2 + weight(parts[i as int], rem) + weights(parts, i + 1, rem)
    }
}

/// How many steps a repetition takes at most that has `left` rounds before the
/// last.
pub open spec fn rounds(body: nat, left: nat) -> nat {
    (left + 1) * (body + 3)
}

/// How many steps a frame takes at most, at a place of a text.
pub open spec fn frame_weight(f: Frame, len: nat, pos: int) -> nat {
    let rem = (len - pos) as nat;
    match f {
        Frame::Node(n) => weight(n, rem),
        Frame::Rest(parts, i) => if i < 0 {
            1
        } else {
            1 + weights(parts, i as nat, rem)
        },
        Frame::Close(index, start) => 1,
        Frame::Again { node, min, max, greedy, start } => if 0 <= start <= len {
            2 + ((len - start) + min) as nat * (weight(node, (len - start) as nat) + 3)
        } else {
            1
        },
    }
}

/// How many steps frames take at most, at a place of a text.
pub open spec fn stack_weight(k: Seq<Frame>, len: nat, pos: int) -> nat
    decreases k.len(),
{
    if k.len() == 0 {
        0
    } else {
        frame_weight(k.last(), len, pos) + stack_weight(k.drop_last(), len, pos)
    }
}

pub proof fn lemma_weight_shrinks(n: NodeView, a: nat, b: nat)
    requires
        a <= b,
    ensures
        weight(n, a) <= weight(n, b),
    decreases n, 0nat,
{
    match n {
        NodeView::Concat(parts) => {
            lemma_weights_shrink(parts, 0, a, b);
        },
        NodeView::Alt(alts) => {
            lemma_weights_shrink(alts, 0, a, b);
        },
        NodeView::Group { index, node } => {
            lemma_weight_shrinks(*node, a, b);
        },
        NodeView::Repeat { node, min, max, greedy } => {
            lemma_weight_shrinks(*node, a, b);
            lemma_rounds_shrink(weight(*node, a), weight(*node, b), a + min as nat, b + min as nat);
        },
        _ => {},
    }
}

pub proof fn lemma_weights_shrink(parts: Seq<NodeView>, i: nat, a: nat, b: nat)
    requires
        a <= b,
    ensures
        weights(parts, i, a) <= weights(parts, i, b),
    decreases parts, parts.len() - i,
{
    if i < parts.len() {
        lemma_weight_shrinks(parts[i as int], a, b);
        lemma_weights_shrink(parts, i + 1, a, b);
    }
}

pub proof fn lemma_rounds_shrink(x: nat, y: nat, m: nat, n: nat)
    by (nonlinear_arith)
    requires
        x <= y,
        m <= n,
    ensures
        (m + 1) * (x + 3) <= (n + 1) * (y + 3),
{
}

pub proof fn lemma_stack_shrinks(k: Seq<Frame>, len: nat, p: int, q: int)
    requires
        0 <= p <= q <= len,
    ensures
        stack_weight(k, len, q) <= stack_weight(k, len, p),
    decreases k.len(),
{
    if k.len() > 0 {
        lemma_stack_shrinks(k.drop_last(), len, p, q);
        match k.last() {
            Frame::Node(n) => {
                lemma_weight_shrinks(n, (len - q) as nat, (len - p) as nat);
            },
            Frame::Rest(parts, i) => {
                if i >= 0 {
                    lemma_weights_shrink(parts, i as nat, (len - q) as nat, (len - p) as nat);
                }
            },
            _ => {},
        }
    }
}

/// The weight of one frame more.
pub proof fn lemma_stack_push(k: Seq<Frame>, f: Frame, len: nat, pos: int)
    ensures
        stack_weight(k.push(f), len, pos) == frame_weight(f, len, pos) + stack_weight(k, len, pos),
{
    assert(k.push(f).drop_last() =~= k);
}

/// One round less is a round's steps less.
pub proof fn lemma_rounds_step(body: nat, left: nat)
    by (nonlinear_arith)
    ensures
        (left + 1) * (body + 3) == left * (body + 3) + body + 3,
        left * (body + 3) >= 0,
{
}

/// What is left of a repetition behind a round is less than before it.
pub proof fn lemma_again(node: NodeView, min: u32, start_rem: nat, rem: nat)
    requires
        rem < start_rem || (rem == start_rem && min > 0),
    ensures
        rounds(weight(node, rem), rem + min_left(min) as nat) <= (start_rem + min as nat) * (weight(
            node,
            start_rem,
        ) + 3),
{
    lemma_weight_shrinks(node, rem, start_rem);
    let left = (rem + min_left(min)) as nat;
    let most = (start_rem + min - 1) as nat;
    lemma_rounds_shrink(weight(node, rem), weight(node, start_rem), left, most);
}

/// The captures with those of a group set.
pub open spec fn marked(marks: Marks, index: Option<usize>, start: int, end: int) -> Marks {
    match index {
        Some(i) => if i < marks.len() {
            marks.update(i as int, Some((start, end)))
        } else {
            marks
        },
        None => marks,
    }
}

/// The captures of the first way through all the frames from a place of a text
/// on, where there is one.
pub open spec fn run(k: Seq<Frame>, text: Seq<char>, pos: int, marks: Marks) -> Option<Marks>
    decreases stack_weight(k, text.len(), pos), 2int,
        when 0 <= pos <= text.len()
{
    if k.len() == 0 {
        Some(marks)
    } else {
        let rest = k.drop_last();
        match k.last() {
            Frame::Node(n) => run_node(n, rest, text, pos, marks),
            Frame::Rest(parts, i) => if 0 <= i < parts.len() {
                proof {
                    lemma_stack_push(rest, Frame::Rest(parts, i + 1), text.len(), pos);
                    lemma_stack_push(
                        rest.push(Frame::Rest(parts, i + 1)),
                        Frame::Node(parts[i]),
                        text.len(),
                        pos,
                    );
                }
                run(
                    rest.push(Frame::Rest(parts, i + 1)).push(Frame::Node(parts[i])),
                    text,
                    pos,
                    marks,
                )
            } else {
                run(rest, text, pos, marks)
            },
            Frame::Close(index, start) => run(
                rest,
                text,
                pos,
                marked(marks, index, start, pos),
            ),
            Frame::Again { node, min, max, greedy, start } => if 0 <= start <= text.len() && (pos
                > start || (pos == start && min > 0)) {
                proof {
                    lemma_again(
                        node,
                        min,
                        (text.len() - start) as nat,
                        (text.len() - pos) as nat,
                    );
                }
                run_repeat(node, min_left(min), max_left(max), greedy, rest, text, pos, marks)
            } else {
                None
            },
        }
    }
}

/// The same, from a part and then the frames on.
pub open spec fn run_node(
    n: NodeView,
    k: Seq<Frame>,
    text: Seq<char>,
    pos: int,
    marks: Marks,
) -> Option<Marks>
    decreases weight(n, (text.len() - pos) as nat) + stack_weight(k, text.len(), pos), 1int,
        when 0 <= pos <= text.len()
{
    let here = pos < text.len();
    proof {
        if here {
            lemma_stack_shrinks(k, text.len(), pos, pos + 1);
        }
    }
    match n {
        NodeView::Empty => run(k, text, pos, marks),
        NodeView::Start => if pos == 0 {
            run(k, text, pos, marks)
        } else {
            None
        },
        NodeView::End => if pos == text.len() {
            run(k, text, pos, marks)
        } else {
            None
        },
        NodeView::Char(c) => if here && text[pos] == c {
            run(k, text, pos + 1, marks)
        } else {
            None
        },
        NodeView::Any => if here && text[pos] != '\n' {
            run(k, text, pos + 1, marks)
        } else {
            None
        },
        NodeView::Class { items, negated } => if here && class_has(items, negated, text[pos]) {
            run(k, text, pos + 1, marks)
        } else {
            None
        },
        NodeView::Concat(parts) => {
            proof {
                lemma_stack_push(k, Frame::Rest(parts, 0), text.len(), pos);
            }
            run(k.push(Frame::Rest(parts, 0)), text, pos, marks)
        },
        NodeView::Alt(alts) => run_alts(alts, 0, k, text, pos, marks),
        NodeView::Group { index, node } => {
            proof {
                lemma_stack_push(k, Frame::Close(index, pos), text.len(), pos);
            }
            run_node(*node, k.push(Frame::Close(index, pos)), text, pos, marks)
        },
        NodeView::Repeat { node, min, max, greedy } => run_repeat(
            *node,
            min,
            max,
            greedy,
            k,
            text,
            pos,
            marks,
        ),
    }
}

/// The same, from the first alternative on that leads through.
pub open spec fn run_alts(
    alts: Seq<NodeView>,
    i: nat,
    k: Seq<Frame>,
    text: Seq<char>,
    pos: int,
    marks: Marks,
) -> Option<Marks>
    decreases
            1 + weights(alts, i, (text.len() - pos) as nat) + stack_weight(k, text.len(), pos),
            0int,
        when 0 <= pos <= text.len()
{
    if i >= alts.len() {
        None
    } else {
        match run_node(alts[i as int], k, text, pos, marks) {
            Some(m) => Some(m),
            None => run_alts(alts, i + 1, k, text, pos, marks),
        }
    }
}

/// The same, from a repetition on: one more round where the maximum allows it,
/// or the end of the repetition where the minimum is met; the latter first where
/// it is lazy.
pub open spec fn run_repeat(
    node: NodeView,
    min: u32,
    max: Option<u32>,
    greedy: bool,
    k: Seq<Frame>,
    text: Seq<char>,
    pos: int,
    marks: Marks,
) -> Option<Marks>
    decreases
            rounds(weight(node, (text.len() - pos) as nat), ((text.len() - pos) + min) as nat)
                + stack_weight(k, text.len(), pos),
            0int,
        when 0 <= pos <= text.len()
{
    let rem = (text.len() - pos) as nat;
    let again = Frame::Again { node, min, max, greedy, start: pos };
    proof {
        lemma_rounds_step(weight(node, rem), rem + min as nat);
        lemma_stack_push(k, again, text.len(), pos);
    }
    let leave = if min == 0 {
        run(k, text, pos, marks)
    } else {
        None
    };
    let stay = if max != Some(0u32) {
        run_node(node, k.push(again), text, pos, marks)
    } else {
        None
    };
    if greedy {
        if stay is Some {
            stay
        } else {
            leave
        }
    } else if leave is Some {
        leave
    } else {
        stay
    }
}

/// What is still to be matched, as a list from first to last.
enum Cont<'a> {
    Done,
    Node(&'a Node, &'a Cont<'a>),
    Rest(&'a Vec<Node>, usize, &'a Cont<'a>),
    Close(Option<usize>, usize, &'a Cont<'a>),
    Again {
        node: &'a Node,
        min: u32,
        max: Option<u32>,
        greedy: bool,
        start: usize,
        next: &'a Cont<'a>,
    },
}

/// The frames of a list.
spec fn frames(k: Cont) -> Seq<Frame>
    decreases k,
{
    match k {
        Cont::Done => Seq::empty(),
        Cont::Node(n, next) => frames(*next).push(Frame::Node(n@)),
        Cont::Rest(parts, i, next) => frames(*next).push(Frame::Rest(nodes_view(parts@), i as int)),
        Cont::Close(index, start, next) => frames(*next).push(Frame::Close(index, start as int)),
        Cont::Again { node, min, max, greedy, start, next } => frames(*next).push(
            Frame::Again { node: node@, min, max, greedy, start: start as int },
        ),
    }
}

/// The captures of a list, viewed.
pub open spec fn marks_view(marks: Seq<Option<(usize, usize)>>) -> Marks {
    Seq::new(
        marks.len(),
        |i: int|
            match marks[i] {
                Some((s, e)) => Some((s as int, e as int)),
                None => None,
            },
    )
}

/// The view of captures, where there are any.
pub open spec fn marks_opt(marks: Option<Vec<Option<(usize, usize)>>>) -> Option<Marks> {
    match marks {
        Some(m) => Some(marks_view(m@)),
        None => None,
    }
}

fn copy_marks(marks: &Vec<Option<(usize, usize)>>) -> (r: Vec<Option<(usize, usize)>>)
    ensures
        r@ == marks@,
{
    let mut out: Vec<Option<(usize, usize)>> = Vec::new();
    let mut i: usize = 0;
    while i < marks.len()
        invariant
            i <= marks@.len(),
            out@ == marks@.take(i as int),
        decreases marks.len() - i,
    {
        out.push(marks[i]);
        i += 1;
        assert(out@ =~= marks@.take(i as int));
    }
    assert(marks@.take(i as int) =~= marks@);
    out
}

/// Whether groups that are open started before a place.
pub open spec fn opened_before(k: Seq<Frame>, pos: int) -> bool {
    forall|i: int|
        0 <= i < k.len() ==> ((#[trigger] k[i]) matches Frame::Close(_, start) ==> 0 <= start <= pos)
}

/// Whether captures are parts of a text.
pub open spec fn inside(marks: Marks, len: nat) -> bool {
    forall|i: int|
        0 <= i < marks.len() ==> ((#[trigger] marks[i]) matches Some((s, e)) ==> 0 <= s <= e <= len)
}

/// Whether a match gives captures for every group, each a part of the text.
spec fn match_inside(r: Option<Vec<Option<(usize, usize)>>>, count: nat, len: nat) -> bool {
    r matches Some(m) ==> m@.len() == count && inside(marks_view(m@), len)
}

/// Matches the rest of a pattern from a place on.
fn match_rest(
    k: &Cont,
    text: &[char],
    pos: usize,
    marks: &Vec<Option<(usize, usize)>>,
) -> (r: Option<Vec<Option<(usize, usize)>>>)
    requires
        pos <= text@.len(),
        opened_before(frames(*k), pos as int),
        inside(marks_view(marks@), text@.len()),
    ensures
        match_inside(r, marks@.len(), text@.len()),
        marks_opt(r) == run(frames(*k), text@, pos as int, marks_view(marks@)),
    decreases stack_weight(frames(*k), text@.len(), pos as int), 2int,
{
    match k {
        Cont::Done => Some(copy_marks(marks)),
        Cont::Node(n, next) => {
            assert(frames(*k).drop_last() =~= frames(**next));
            match_node(n, next, text, pos, marks)
        },
        Cont::Rest(parts, i, next) => {
            assert(frames(*k).drop_last() =~= frames(**next));
            if *i < parts.len() {
                let after = Cont::Rest(parts, *i + 1, next);
                proof {
                    let f = frames(**next);
                    let all = nodes_view(parts@);
                    let at = *i as int;
                    lemma_stack_push(f, Frame::Rest(all, at + 1), text@.len(), pos as int);
                    lemma_stack_push(
                        f.push(Frame::Rest(all, at + 1)),
                        Frame::Node(all[at]),
                        text@.len(),
                        pos as int,
                    );
                    let now = f.push(Frame::Rest(all, at + 1)).push(Frame::Node(all[at]));
                    assert(now.drop_last() =~= f.push(Frame::Rest(all, at + 1)));
                    assert(now.last() == Frame::Node(all[at]));
                    let m = marks_view(marks@);
                    assert(run(frames(*k), text@, pos as int, m) == run(now, text@, pos as int, m));
                    assert(run(now, text@, pos as int, m) == run_node(
                        all[at],
                        f.push(Frame::Rest(all, at + 1)),
                        text@,
                        pos as int,
                        m,
                    ));
                }
                match_node(&parts[*i], &after, text, pos, marks)
            } else {
                match_rest(next, text, pos, marks)
            }
        },
        Cont::Close(index, start, next) => {
            assert(frames(*k).drop_last() =~= frames(**next));
            let mut now = copy_marks(marks);
            match index {
                Some(i) => {
                    if *i < now.len() {
                        now.set(*i, Some((*start, pos)));
                    }
                },
                None => {},
            }
            assert(marks_view(now@) =~= marked(
                marks_view(marks@),
                *index,
                *start as int,
                pos as int,
            ));
            match_rest(next, text, pos, &now)
        },
        Cont::Again { node, min, max, greedy, start, next } => {
            assert(frames(*k).drop_last() =~= frames(**next));
            if *start <= text.len() && (pos > *start || (pos == *start && *min > 0)) {
                proof {
                    lemma_again(
                        node@,
                        *min,
                        (text@.len() - *start) as nat,
                        (text@.len() - pos) as nat,
                    );
                }
                let min_now: u32 = if *min == 0 {
                    0
                } else {
                    *min - 1
                };
                let max_now: Option<u32> = match max {
                    Some(m) => if *m == 0 {
                        Some(0)
                    } else {
                        Some(*m - 1)
                    },
                    None => None,
                };
                match_repeat(node, min_now, max_now, *greedy, next, text, pos, marks)
            } else {
                None
            }
        },
    }
}

/// Matches a part at a place, and then the rest.
fn match_node(
    n: &Node,
    k: &Cont,
    text: &[char],
    pos: usize,
    marks: &Vec<Option<(usize, usize)>>,
) -> (r: Option<Vec<Option<(usize, usize)>>>)
    requires
        pos <= text@.len(),
        opened_before(frames(*k), pos as int),
        inside(marks_view(marks@), text@.len()),
    ensures
        match_inside(r, marks@.len(), text@.len()),
        marks_opt(r) == run_node(n@, frames(*k), text@, pos as int, marks_view(marks@)),
    decreases
            weight(n@, (text@.len() - pos) as nat) + stack_weight(
                frames(*k),
                text@.len(),
                pos as int,
            ),
            1int,
{
    let here = pos < text.len();
    proof {
        if here {
            lemma_stack_shrinks(frames(*k), text@.len(), pos as int, pos + 1);
        }
    }
    match n {
        Node::Empty => match_rest(k, text, pos, marks),
        Node::Start => if pos == 0 {
            match_rest(k, text, pos, marks)
        } else {
            None
        },
        Node::End => if pos == text.len() {
            match_rest(k, text, pos, marks)
        } else {
            None
        },
        Node::Char(c) => if here && text[pos] == *c {
            match_rest(k, text, pos + 1, marks)
        } else {
            None
        },
        Node::Any => if here && text[pos] != '\n' {
            match_rest(k, text, pos + 1, marks)
        } else {
            None
        },
        Node::Class { items, negated } => if here && class_matches(items, *negated, text[pos]) {
            match_rest(k, text, pos + 1, marks)
        } else {
            None
        },
        Node::Concat(parts) => {
            let after = Cont::Rest(parts, 0, k);
            proof {
                lemma_nodes_view(*parts);
                lemma_stack_push(
                    frames(*k),
                    Frame::Rest(nodes_view(parts@), 0),
                    text@.len(),
                    pos as int,
                );
            }
            match_rest(&after, text, pos, marks)
        },
        Node::Alt(alts) => {
            proof {
                lemma_nodes_view(*alts);
            }
            match_alts(alts, 0, k, text, pos, marks)
        },
        Node::Group { index, node } => {
            let after = Cont::Close(*index, pos, k);
            proof {
                lemma_stack_push(
                    frames(*k),
                    Frame::Close(*index, pos as int),
                    text@.len(),
                    pos as int,
                );
            }
            match_node(node, &after, text, pos, marks)
        },
        Node::Repeat { node, min, max, greedy } => match_repeat(
            node,
            *min,
            *max,
            *greedy,
            k,
            text,
            pos,
            marks,
        ),
    }
}

/// Matches the first alternative from `i` on that leads through.
fn match_alts(
    alts: &Vec<Node>,
    i: usize,
    k: &Cont,
    text: &[char],
    pos: usize,
    marks: &Vec<Option<(usize, usize)>>,
) -> (r: Option<Vec<Option<(usize, usize)>>>)
    requires
        pos <= text@.len(),
        opened_before(frames(*k), pos as int),
        inside(marks_view(marks@), text@.len()),
        i <= alts@.len(),
    ensures
        match_inside(r, marks@.len(), text@.len()),
        marks_opt(r) == run_alts(
            nodes_view(alts@),
            i as nat,
            frames(*k),
            text@,
            pos as int,
            marks_view(marks@),
        ),
    decreases
            1 + weights(nodes_view(alts@), i as nat, (text@.len() - pos) as nat) + stack_weight(
                frames(*k),
                text@.len(),
                pos as int,
            ),
            0int,
{
    if i >= alts.len() {
        return None;
    }
    match match_node(&alts[i], k, text, pos, marks) {
        Some(m) => Some(m),
        None => match_alts(alts, i + 1, k, text, pos, marks),
    }
}

/// Matches one more round of a repetition, or what follows it.
fn match_repeat(
    node: &Node,
    min: u32,
    max: Option<u32>,
    greedy: bool,
    k: &Cont,
    text: &[char],
    pos: usize,
    marks: &Vec<Option<(usize, usize)>>,
) -> (r: Option<Vec<Option<(usize, usize)>>>)
    requires
        pos <= text@.len(),
        opened_before(frames(*k), pos as int),
        inside(marks_view(marks@), text@.len()),
    ensures
        match_inside(r, marks@.len(), text@.len()),
        marks_opt(r) == run_repeat(
            node@,
            min,
            max,
            greedy,
            frames(*k),
            text@,
            pos as int,
            marks_view(marks@),
        ),
    decreases
            rounds(
                weight(node@, (text@.len() - pos) as nat),
                ((text@.len() - pos) + min) as nat,
            ) + stack_weight(frames(*k), text@.len(), pos as int),
            0int,
{
    let again = Cont::Again { node, min, max, greedy, start: pos, next: k };
    proof {
        let rem = (text@.len() - pos) as nat;
        lemma_rounds_step(weight(node@, rem), rem + min as nat);
        lemma_stack_push(
            frames(*k),
            Frame::Again { node: node@, min, max, greedy, start: pos as int },
            text@.len(),
            pos as int,
        );
    }
    if !greedy && min == 0 {
        match match_rest(k, text, pos, marks) {
            Some(m) => {
                return Some(m);
            },
            None => {},
        }
    }
    let more = match max {
        Some(m) => m > 0,
        None => true,
    };
    if more {
        match match_node(node, &again, text, pos, marks) {
            Some(m) => {
                return Some(m);
            },
            None => {},
        }
    }
    if greedy && min == 0 {
        match_rest(k, text, pos, marks)
    } else {
        None
    }
}

/// No captures for a number of groups.
pub open spec fn no_marks(n: nat) -> Marks {
    Seq::new(n, |i: int| None)
}

/// The captures of the first match of a pattern that starts at `start` or behind.
pub open spec fn first_match(
    root: NodeView,
    groups: nat,
    text: Seq<char>,
    start: int,
) -> Option<Marks>
    decreases text.len() - start + 1,
{
    if !(0 <= start <= text.len()) {
        None
    } else {
        match run_node(root, Seq::empty(), text, start, no_marks(groups)) {
            Some(m) => Some(m),
            None => first_match(root, groups, text, start + 1),
        }
    }
}

/// The named captures among the first `n` groups, by name, in the order of the
/// groups. A group that took no part in the match is left out.
pub open spec fn captured(
    names: Seq<Option<Seq<char>>>,
    marks: Marks,
    text: Seq<char>,
    n: nat,
) -> Seq<
    (Seq<char>, Seq<char>),
>
    decreases n,
{
    if n == 0 || n > names.len() {
        Seq::empty()
    } else {
        let before = captured(names, marks, text, (n - 1) as nat);
        match (names[n - 1], marks[n - 1]) {
            (Some(name), Some((s, e))) => before.push((name, text.subrange(s, e))),
            _ => before,
        }
    }
}

/// Whether every alternative of a part begins with the start of the line.
pub open spec fn anchored(n: NodeView) -> bool
    decreases n, 0nat,
{
    match n {
        NodeView::Start => true,
        NodeView::Concat(parts) => parts.len() > 0 && anchored(parts[0]),
        NodeView::Group { index, node } => anchored(*node),
        NodeView::Alt(alts) => all_anchored(alts, 0),
        _ => false,
    }
}

/// Whether every part of a row from place `i` on begins with the start of the
/// line.
pub open spec fn all_anchored(alts: Seq<NodeView>, i: nat) -> bool
    decreases alts, alts.len() - i,
{
    i >= alts.len() || (anchored(alts[i as int]) && all_anchored(alts, i + 1))
}

/// What begins with the start of the line does not match behind it.
proof fn lemma_anchored(n: NodeView, k: Seq<Frame>, text: Seq<char>, pos: int, marks: Marks)
    requires
        anchored(n),
        0 < pos <= text.len(),
    ensures
        run_node(n, k, text, pos, marks) is None,
    decreases n, 0nat,
{
    match n {
        NodeView::Concat(parts) => {
            let f = k.push(Frame::Rest(parts, 0));
            assert(f.drop_last() =~= k);
            let g = k.push(Frame::Rest(parts, 1)).push(Frame::Node(parts[0]));
            assert(g.drop_last() =~= k.push(Frame::Rest(parts, 1)));
            lemma_anchored(parts[0], k.push(Frame::Rest(parts, 1)), text, pos, marks);
            assert(run(f, text, pos, marks) == run(g, text, pos, marks));
            assert(run(g, text, pos, marks) == run_node(
                parts[0],
                k.push(Frame::Rest(parts, 1)),
                text,
                pos,
                marks,
            ));
        },
        NodeView::Group { index, node } => {
            lemma_anchored(*node, k.push(Frame::Close(index, pos)), text, pos, marks);
        },
        NodeView::Alt(alts) => {
            lemma_all_anchored(alts, 0, k, text, pos, marks);
        },
        _ => {},
    }
}

proof fn lemma_all_anchored(
    alts: Seq<NodeView>,
    i: nat,
    k: Seq<Frame>,
    text: Seq<char>,
    pos: int,
    marks: Marks,
)
    requires
        all_anchored(alts, i),
        0 < pos <= text.len(),
    ensures
        run_alts(alts, i, k, text, pos, marks) is None,
    decreases alts, alts.len() - i,
{
    if i < alts.len() {
        lemma_anchored(alts[i as int], k, text, pos, marks);
        lemma_all_anchored(alts, i + 1, k, text, pos, marks);
    }
}

/// A pattern whose alternatives all begin with the start of the line matches at
/// the start of a text or nowhere.
pub proof fn law_anchored_matches_at_the_start(
    root: NodeView,
    groups: nat,
    text: Seq<char>,
    start: int,
)
    requires
        anchored(root),
        start > 0,
    ensures
        first_match(root, groups, text, start) is None,
    decreases text.len() - start + 1,
{
    if start <= text.len() {
        lemma_anchored(root, Seq::empty(), text, start, no_marks(groups));
        law_anchored_matches_at_the_start(root, groups, text, start + 1);
    }
}

fn every_anchored(alts: &Vec<Node>) -> (r: bool)
    ensures
        r == all_anchored(nodes_view(alts@), 0),
    decreases alts, 0nat,
{
    let mut i: usize = alts.len();
    let mut all = true;
    while i > 0
        invariant
            i <= alts@.len(),
            all == all_anchored(nodes_view(alts@), i as nat),
        decreases i,
    {
        i -= 1;
        assert(decreases_to!(alts => alts@[i as int]));
        all = starts_anchored(&alts[i]) && all;
    }
    all
}

/// Whether every alternative of a part begins with the start of the line.
pub fn starts_anchored(node: &Node) -> (r: bool)
    ensures
        r == anchored(node@),
    decreases node, 0nat,
{
    match node {
        Node::Start => true,
        Node::Concat(parts) => {
            proof {
                lemma_nodes_view(*parts);
            }
            if parts.len() == 0 {
                false
            } else {
                assert(decreases_to!(parts => parts@[0]));
                starts_anchored(&parts[0])
            }
        },
        Node::Group { index, node: inner } => starts_anchored(inner),
        Node::Alt(alts) => {
            proof {
                lemma_nodes_view(*alts);
            }
            every_anchored(alts)
        },
        _ => false,
    }
}

/// A compiled pattern.
#[derive(Debug)]
pub struct Pattern {
    root: Node,
    /// The name of each group that has one.
    names: Vec<Option<String>>,
}

/// What a compiled pattern is.
pub struct PatternView {
    pub root: NodeView,
    pub names: Seq<Option<Seq<char>>>,
}

/// Names, viewed.
pub open spec fn names_view(names: Seq<Option<String>>) -> Seq<Option<Seq<char>>> {
    Seq::new(
        names.len(),
        |i: int|
            match names[i] {
                Some(n) => Some(n@),
                None => None,
            },
    )
}

impl View for Pattern {
    type V = PatternView;

    closed spec fn view(&self) -> PatternView {
        PatternView { root: self.root@, names: names_view(self.names@) }
    }
}

/// The names that are given, in the order of the groups.
pub open spec fn given_names(names: Seq<Option<Seq<char>>>, n: nat) -> Seq<Seq<char>>
    decreases n,
{
    if n == 0 || n > names.len() {
        Seq::empty()
    } else {
        let before = given_names(names, (n - 1) as nat);
        match names[n - 1] {
            Some(name) => before.push(name),
            None => before,
        }
    }
}

/// What captures hold, by name.
pub open spec fn pairs_view(pairs: Seq<(String, String)>) -> Seq<(Seq<char>, Seq<char>)> {
    Seq::new(pairs.len(), |i: int| (pairs[i].0@, pairs[i].1@))
}

/// The named captures of the first match of a pattern in a text.
pub open spec fn captures_of(
    p: PatternView,
    text: Seq<char>,
) -> Option<Seq<(Seq<char>, Seq<char>)>> {
    match first_match(p.root, p.names.len(), text, 0) {
        Some(marks) => Some(captured(p.names, marks, text, p.names.len())),
        None => None,
    }
}

impl Pattern {
    pub(crate) fn from_parts(root: Node, names: Vec<Option<String>>) -> (r: Pattern)
        ensures
            r@ == (PatternView { root: root@, names: names_view(names@) }),
    {
        Pattern { root, names }
    }

    /// The names of the captures, in the order in which they stand in the
    /// pattern.
    pub fn capture_names(&self) -> (r: Vec<&str>)
        ensures
            Seq::new(r@.len(), |i: int| r@[i]@) == given_names(self@.names, self@.names.len()),
    {
        let mut out: Vec<&str> = Vec::new();
        let mut i: usize = 0;
        let ghost all = names_view(self.names@);
        while i < self.names.len()
            invariant
                i <= self.names@.len(),
                all == names_view(self.names@),
                Seq::new(out@.len(), |j: int| out@[j]@) =~= given_names(all, i as nat),
            decreases self.names.len() - i,
        {
            match &self.names[i] {
                Some(name) => {
                    out.push(name.as_str());
                },
                None => {},
            }
            i += 1;
        }
        out
    }

    /// The named captures of the first match in a text. A group that took no
    /// part in the match is left out, so that it can be told from one that
    /// matched nothing.
    pub fn captures(&self, text: &str) -> (r: Option<Vec<(String, String)>>)
        ensures
            match r {
                Some(pairs) => captures_of(self@, text@) == Some(pairs_view(pairs@)),
                None => captures_of(self@, text@) is None,
            },
    {
        let chars = chars_of(text);
        let mut empty: Vec<Option<(usize, usize)>> = Vec::new();
        let mut g: usize = 0;
        while g < self.names.len()
            invariant
                g <= self.names@.len(),
                empty@.len() == g,
                forall|i: int| 0 <= i < g ==> empty@[i] is None,
            decreases self.names.len() - g,
        {
            empty.push(None);
            g += 1;
        }
        let ghost groups = self.names@.len();
        assert(marks_view(empty@) =~= no_marks(groups));
        let n: usize = chars.len();
        let mut start: usize = 0;
        loop
            invariant
                start <= n == chars@.len(),
                chars@ == text@,
                groups == self.names@.len() == empty@.len(),
                marks_view(empty@) == no_marks(groups),
                first_match(self.root@, groups, text@, 0) == first_match(
                    self.root@,
                    groups,
                    text@,
                    start as int,
                ),
            decreases n - start,
        {
            let done = Cont::Done;
            assert(frames(done) =~= Seq::<Frame>::empty());
            match match_node(&self.root, &done, &chars, start, &empty) {
                Some(marks) => {
                    return Some(self.collect(&chars, &marks));
                },
                None => {},
            }
            if start == n {
                assert(first_match(self.root@, groups, text@, n + 1) is None);
                return None;
            }
            if starts_anchored(&self.root) {
                proof {
                    law_anchored_matches_at_the_start(self.root@, groups, text@, start + 1);
                }
                return None;
            }
            start += 1;
        }
    }

    /// The named captures of a match.
    fn collect(&self, chars: &Vec<char>, marks: &Vec<Option<(usize, usize)>>) -> (r: Vec<(String, String)>)
        requires
            marks@.len() == self.names@.len(),
            inside(marks_view(marks@), chars@.len()),
        ensures
            pairs_view(r@) == captured(
                names_view(self.names@),
                marks_view(marks@),
                chars@,
                self.names@.len(),
            ),
    {
        let mut out: Vec<(String, String)> = Vec::new();
        let mut i: usize = 0;
        let ghost all = names_view(self.names@);
        let ghost m = marks_view(marks@);
        while i < self.names.len()
            invariant
                i <= self.names@.len(),
                all == names_view(self.names@),
                m == marks_view(marks@),
                marks@.len() == self.names@.len(),
                inside(m, chars@.len()),
                pairs_view(out@) =~= captured(all, m, chars@, i as nat),
            decreases self.names.len() - i,
        {
            match (&self.names[i], marks[i]) {
                (Some(name), Some((s, e))) => {
                    assert(m[i as int] == Some((s as int, e as int)));
                    let part = string_between(chars, s, e);
                    let ghost before = pairs_view(out@);
                    out.push((name.clone(), part));
                    assert(pairs_view(out@) =~= before.push((name@, part@)));
                },
                _ => {},
            }
            i += 1;
        }
        out
    }
}

} // verus!
