//! Matching of `like`: `%` stands for any run of characters, and everything else
//! for itself.

use crate::text::chars_of;
use vstd::prelude::*;

verus! {

/// Whether a backslash at `i` of a pattern takes the special meaning from the
/// character behind it.
pub open spec fn escapes(p: Seq<char>, i: int) -> bool {
    0 <= i && i + 1 < p.len() && p[i] == '\\' && (p[i + 1] == '%' || p[i + 1] == '\\')
}

/// Whether a text matches a pattern from `j` on at `i` or at some place behind.
pub open spec fn like_behind(s: Seq<char>, i: int, p: Seq<char>, j: int) -> bool
    decreases p.len() - j, s.len() - i, 1int,
{
    like_from(s, i, p, j) || (i < s.len() && like_behind(s, i + 1, p, j))
}

/// Whether a text from `i` on matches a pattern from `j` on.
pub open spec fn like_from(s: Seq<char>, i: int, p: Seq<char>, j: int) -> bool
    decreases p.len() - j, s.len() - i, 0int,
{
    if j < 0 || j >= p.len() {
        i == s.len()
    } else if escapes(p, j) {
        i < s.len() && s[i] == p[j + 1] && like_from(s, i + 1, p, j + 2)
    } else if p[j] == '%' {
        like_behind(s, i, p, j + 1)
    } else {
        i < s.len() && s[i] == p[j] && like_from(s, i + 1, p, j + 1)
    }
}

/// Whether a text matches a pattern.
pub open spec fn like(s: Seq<char>, p: Seq<char>) -> bool {
    like_from(s, 0, p, 0)
}

/// A part of a pattern: characters that stand for themselves, or a wildcard.
#[derive(Debug, PartialEq)]
pub enum Seg {
    Lit(Vec<char>),
    Any,
}

/// What a part of a pattern is.
pub enum Part {
    Lit(Seq<char>),
    Any,
}

impl View for Seg {
    type V = Part;

    open spec fn view(&self) -> Part {
        match self {
            Seg::Lit(lit) => Part::Lit(lit@),
            Seg::Any => Part::Any,
        }
    }
}

/// The parts of a row, viewed.
pub open spec fn parts(segs: Seq<Seg>) -> Seq<Part> {
    Seq::new(segs.len(), |i: int| segs[i]@)
}

/// Whether a text holds another at a place.
pub open spec fn holds_at(s: Seq<char>, i: int, lit: Seq<char>) -> bool {
    0 <= i && i + lit.len() <= s.len() && s.subrange(i, i + lit.len()) == lit
}

/// Whether a text matches the parts from `j` on at `i` or at some place behind.
pub open spec fn parts_behind(s: Seq<char>, i: int, q: Seq<Part>, j: int) -> bool
    decreases q.len() - j, s.len() - i, 1int,
{
    parts_match(s, i, q, j) || (i < s.len() && parts_behind(s, i + 1, q, j))
}

/// Whether a text from `i` on matches the parts from `j` on.
pub open spec fn parts_match(s: Seq<char>, i: int, q: Seq<Part>, j: int) -> bool
    decreases q.len() - j, s.len() - i, 0int,
{
    if j < 0 || j >= q.len() {
        i == s.len()
    } else {
        match q[j] {
            Part::Lit(lit) => holds_at(s, i, lit) && parts_match(s, i + lit.len(), q, j + 1),
            Part::Any => parts_behind(s, i, q, j + 1),
        }
    }
}

/// The parts of a pattern from `j` on, behind the parts before and characters
/// that have been read.
pub open spec fn split_from(p: Seq<char>, j: int, before: Seq<Part>, lit: Seq<char>) -> Seq<Part>
    decreases p.len() - j,
{
    let flushed = if lit.len() > 0 {
        before.push(Part::Lit(lit))
    } else {
        before
    };
    if j < 0 || j >= p.len() {
        flushed
    } else if escapes(p, j) {
        split_from(p, j + 2, before, lit.push(p[j + 1]))
    } else if p[j] == '%' {
        split_from(
            p,
            j + 1,
            if flushed.len() > 0 && flushed.last() is Any {
                flushed
            } else {
                flushed.push(Part::Any)
            },
            Seq::empty(),
        )
    } else {
        split_from(p, j + 1, before, lit.push(p[j]))
    }
}

/// The parts of a pattern, runs of wildcards taken as one.
pub fn split_pattern(pattern: &[char]) -> (r: Vec<Seg>)
    ensures
        parts(r@) == split_from(pattern@, 0, Seq::empty(), Seq::empty()),
{
    let mut out: Vec<Seg> = Vec::new();
    let mut lit: Vec<char> = Vec::new();
    let mut j: usize = 0;
    let ghost goal = split_from(pattern@, 0, Seq::empty(), Seq::empty());
    assert(parts(out@) =~= Seq::<Part>::empty());
    assert(lit@ =~= Seq::<char>::empty());
    while j < pattern.len()
        invariant
            j <= pattern@.len(),
            goal == split_from(pattern@, 0, Seq::empty(), Seq::empty()),
            goal == split_from(pattern@, j as int, parts(out@), lit@),
        decreases pattern.len() - j,
    {
        let c = pattern[j];
        let escaped = c == '\\' && j + 1 < pattern.len() && (pattern[j + 1] == '%' || pattern[j + 1]
            == '\\');
        assert(escaped == escapes(pattern@, j as int));
        if escaped {
            lit.push(pattern[j + 1]);
            j += 2;
        } else if c == '%' {
            let ghost before = parts(out@);
            if lit.len() > 0 {
                let ghost was = lit@;
                out.push(Seg::Lit(lit));
                lit = Vec::new();
                assert(parts(out@) =~= before.push(Part::Lit(was)));
            }
            let ghost flushed = parts(out@);
            let n: usize = out.len();
            let after_any = n > 0 && match &out[n - 1] {
                Seg::Any => true,
                Seg::Lit(_) => false,
            };
            if !after_any {
                out.push(Seg::Any);
                assert(parts(out@) =~= flushed.push(Part::Any));
            }
            assert(lit@ =~= Seq::<char>::empty());
            j += 1;
        } else {
            lit.push(c);
            j += 1;
        }
    }
    if lit.len() > 0 {
        let ghost before = parts(out@);
        let ghost was = lit@;
        out.push(Seg::Lit(lit));
        assert(parts(out@) =~= before.push(Part::Lit(was)));
    }
    out
}

/// A row of parts such as a pattern gives: no two of a kind stand side by side,
/// and no literal is empty.
pub open spec fn alternating(q: Seq<Part>) -> bool {
    &&& forall|i: int, j: int|
        0 <= i && j == i + 1 && j < q.len() ==> ((#[trigger] q[i]) is Any) != ((#[trigger] q[j]) is Any)
    &&& forall|i: int|
        0 <= i < q.len() ==> ((#[trigger] q[i]) matches Part::Lit(lit) ==> lit.len() > 0)
}

proof fn lemma_split_alternates(p: Seq<char>, j: int, before: Seq<Part>, lit: Seq<char>)
    requires
        alternating(before),
        before.len() == 0 || before.last() is Any,
    ensures
        alternating(split_from(p, j, before, lit)),
    decreases p.len() - j,
{
    let flushed = if lit.len() > 0 {
        before.push(Part::Lit(lit))
    } else {
        before
    };
    if j < 0 || j >= p.len() {
    } else if escapes(p, j) {
        lemma_split_alternates(p, j + 2, before, lit.push(p[j + 1]));
    } else if p[j] == '%' {
        let next = if flushed.len() > 0 && flushed.last() is Any {
            flushed
        } else {
            flushed.push(Part::Any)
        };
        lemma_split_alternates(p, j + 1, next, Seq::empty());
    } else {
        lemma_split_alternates(p, j + 1, before, lit.push(p[j]));
    }
}

/// The row that a pattern gives only grows at its end.
proof fn lemma_split_extends(p: Seq<char>, j: int, before: Seq<Part>, lit: Seq<char>)
    requires
        before.len() == 0 || before.last() is Any,
    ensures
        split_from(p, j, before, lit).len() >= before.len(),
        split_from(p, j, before, lit).take(before.len() as int) == before,
    decreases p.len() - j,
{
    let flushed = if lit.len() > 0 {
        before.push(Part::Lit(lit))
    } else {
        before
    };
    let r = split_from(p, j, before, lit);
    if j < 0 || j >= p.len() {
        assert(r.take(before.len() as int) =~= before);
    } else if escapes(p, j) {
        lemma_split_extends(p, j + 2, before, lit.push(p[j + 1]));
    } else if p[j] == '%' {
        let next = if flushed.len() > 0 && flushed.last() is Any {
            flushed
        } else {
            flushed.push(Part::Any)
        };
        lemma_split_extends(p, j + 1, next, Seq::empty());
        assert(r.take(before.len() as int) =~= r.take(next.len() as int).take(before.len() as int));
        assert(next.take(before.len() as int) =~= before);
    } else {
        lemma_split_extends(p, j + 1, before, lit.push(p[j]));
    }
}

/// The first `k` characters of a literal match where the literal does.
proof fn lemma_lit_split(s: Seq<char>, i: int, lit: Seq<char>, c: char)
    ensures
        holds_at(s, i, lit.push(c)) == (holds_at(s, i, lit) && i + lit.len() < s.len() && s[i
            + lit.len()] == c),
{
    let n = lit.len();
    if holds_at(s, i, lit.push(c)) {
        let sub = s.subrange(i, i + n + 1);
        assert(sub == lit.push(c));
        assert(s.subrange(i, i + n as int) =~= sub.take(n as int));
        assert(lit.push(c).take(n as int) =~= lit);
        assert(sub[n as int] == s[i + n]);
    }
    if holds_at(s, i, lit) && i + n < s.len() && s[i + n] == c {
        assert(s.subrange(i, i + n + 1) =~= s.subrange(i, i + n).push(c));
    }
}

/// A wildcard before a place behind adds nothing.
proof fn lemma_behind_wildcard(s: Seq<char>, i: int, p: Seq<char>, j: int)
    requires
        0 <= j < p.len(),
        p[j] == '%',
        !escapes(p, j),
    ensures
        like_behind(s, i, p, j) == like_behind(s, i, p, j + 1),
    decreases s.len() - i,
{
    assert(like_from(s, i, p, j) == like_behind(s, i, p, j + 1));
    if i < s.len() {
        lemma_behind_wildcard(s, i + 1, p, j);
    }
}

/// Where rows and patterns match at the same places, so they do at some place
/// behind.
proof fn lemma_behind_agree(s: Seq<char>, i: int, r: Seq<Part>, n: int, p: Seq<char>, j: int)
    requires
        forall|k: int| i <= k ==> #[trigger] parts_match(s, k, r, n) == like_from(s, k, p, j),
    ensures
        parts_behind(s, i, r, n) == like_behind(s, i, p, j),
    decreases s.len() - i,
{
    assert(parts_match(s, i, r, n) == like_from(s, i, p, j));
    if i < s.len() {
        lemma_behind_agree(s, i + 1, r, n, p, j);
    }
}

proof fn lemma_empty_holds(s: Seq<char>, i: int)
    ensures
        holds_at(s, i, Seq::empty()) == (0 <= i <= s.len()),
{
    if 0 <= i <= s.len() {
        assert(s.subrange(i, i) =~= Seq::<char>::empty());
    }
}

/// What a pattern matches from `j` on behind a literal is what its parts match
/// from that literal on.
proof fn lemma_split_matches(
    s: Seq<char>,
    i: int,
    p: Seq<char>,
    j: int,
    before: Seq<Part>,
    lit: Seq<char>,
)
    requires
        before.len() == 0 || before.last() is Any,
        before.len() == 0 || lit.len() > 0,
        0 <= i <= s.len(),
        0 <= j,
    ensures
        parts_match(s, i, split_from(p, j, before, lit), before.len() as int) == (holds_at(s, i, lit)
            && like_from(s, i + lit.len(), p, j)),
    decreases p.len() - j, 0int,
{
    let r = split_from(p, j, before, lit);
    let n = before.len() as int;
    let flushed = if lit.len() > 0 {
        before.push(Part::Lit(lit))
    } else {
        before
    };
    lemma_empty_holds(s, i);
    assert(lit.len() == 0 ==> lit =~= Seq::<char>::empty());
    if j >= p.len() {
        if lit.len() > 0 {
            assert(r[n] == Part::Lit(lit));
            assert(parts_match(s, i + lit.len(), r, n + 1) == (i + lit.len() == s.len()));
        } else {
            assert(parts_match(s, i, r, n) == (i == s.len()));
        }
        assert(like_from(s, i + lit.len(), p, j) == (i + lit.len() == s.len()));
    } else if escapes(p, j) {
        let more = lit.push(p[j + 1]);
        lemma_split_matches(s, i, p, j + 2, before, more);
        lemma_lit_split(s, i, lit, p[j + 1]);
        assert(r == split_from(p, j + 2, before, more));
        let at = i + lit.len();
        assert(like_from(s, at, p, j) == (at < s.len() && s[at] == p[j + 1] && like_from(
            s,
            at + 1,
            p,
            j + 2,
        )));
    } else if p[j] == '%' {
        let next = flushed.push(Part::Any);
        assert(flushed.len() == 0 || flushed.last() is Lit);
        lemma_split_extends(p, j + 1, next, Seq::empty());
        assert forall|k: int| 0 <= k < next.len() implies r[k] == next[k] by {
            assert(r.take(next.len() as int)[k] == r[k]);
        }
        if holds_at(s, i, lit) {
            lemma_split_behind(s, i + lit.len(), p, j + 1, next);
        }
        assert(r[next.len() - 1] is Any);
        let at = i + lit.len();
        assert(parts_match(s, at, r, next.len() - 1) == parts_behind(s, at, r, next.len() as int));
        assert(like_from(s, at, p, j) == like_behind(s, at, p, j + 1));
        if lit.len() > 0 {
            assert(r[n] == Part::Lit(lit));
            assert(next.len() == n + 2);
        } else {
            assert(next.len() == n + 1);
        }
    } else {
        let more = lit.push(p[j]);
        lemma_split_matches(s, i, p, j + 1, before, more);
        lemma_lit_split(s, i, lit, p[j]);
        assert(r == split_from(p, j + 1, before, more));
        let at = i + lit.len();
        assert(like_from(s, at, p, j) == (at < s.len() && s[at] == p[j] && like_from(
            s,
            at + 1,
            p,
            j + 1,
        )));
    }
}

/// Behind a wildcard, a pattern matches at some place behind where its parts do.
proof fn lemma_split_behind(s: Seq<char>, i: int, p: Seq<char>, j: int, before: Seq<Part>)
    requires
        before.len() > 0 && before.last() is Any,
        0 <= i <= s.len(),
        0 <= j,
    ensures
        parts_behind(s, i, split_from(p, j, before, Seq::empty()), before.len() as int)
            == like_behind(s, i, p, j),
    decreases p.len() - j, 1int,
{
    let none = Seq::<char>::empty();
    let r = split_from(p, j, before, none);
    let n = before.len() as int;
    if j < p.len() && !escapes(p, j) && p[j] == '%' {
        lemma_split_behind(s, i, p, j + 1, before);
        lemma_behind_wildcard(s, i, p, j);
    } else {
        assert forall|k: int| i <= k implies #[trigger] parts_match(s, k, r, n) == like_from(
            s,
            k,
            p,
            j,
        ) by {
            if j < p.len() {
                let c = if escapes(p, j) { p[j + 1] } else { p[j] };
                let e = if escapes(p, j) { j + 2 } else { j + 1 };
                assert(r == split_from(p, e, before, none.push(c)));
                if k <= s.len() {
                    lemma_split_matches(s, k, p, e, before, none.push(c));
                    lemma_lit_split(s, k, none, c);
                    lemma_empty_holds(s, k);
                } else {
                    lemma_split_extends(p, e, before, none.push(c));
                    lemma_out_of_text(s, k, p, e, before, none.push(c));
                }
            }
        }
        lemma_behind_agree(s, i, r, n, p, j);
    }
}

/// Beyond the end of a text no literal matches.
proof fn lemma_out_of_text(
    s: Seq<char>,
    k: int,
    p: Seq<char>,
    j: int,
    before: Seq<Part>,
    lit: Seq<char>,
)
    requires
        k > s.len(),
        lit.len() > 0,
        before.len() == 0 || before.last() is Any,
    ensures
        !parts_match(s, k, split_from(p, j, before, lit), before.len() as int),
    decreases p.len() - j,
{
    let r = split_from(p, j, before, lit);
    let n = before.len() as int;
    if j < 0 || j >= p.len() {
        assert(r[n] == Part::Lit(lit));
    } else if escapes(p, j) {
        lemma_out_of_text(s, k, p, j + 2, before, lit.push(p[j + 1]));
    } else if p[j] == '%' {
        let next = before.push(Part::Lit(lit)).push(Part::Any);
        lemma_split_extends(p, j + 1, next, Seq::empty());
        assert(r.take(next.len() as int)[n] == r[n]);
        assert(r[n] == Part::Lit(lit));
    } else {
        lemma_out_of_text(s, k, p, j + 1, before, lit.push(p[j]));
    }
}

/// A text matches a pattern where it matches the parts of the pattern.
proof fn lemma_like_by_parts(s: Seq<char>, p: Seq<char>)
    ensures
        like(s, p) == parts_match(s, 0, split_from(p, 0, Seq::empty(), Seq::empty()), 0),
        alternating(split_from(p, 0, Seq::empty(), Seq::empty())),
{
    lemma_split_matches(s, 0, p, 0, Seq::empty(), Seq::empty());
    lemma_split_alternates(p, 0, Seq::empty(), Seq::empty());
    lemma_empty_holds(s, 0);
}

/// Whether the literals of the parts from `a` up to `hi` stand one behind the
/// other in a text from `pos` up to `end`.
spec fn in_order(s: Seq<char>, pos: int, end: int, q: Seq<Part>, a: int, hi: int) -> bool
    decreases hi - a, 1int, 0int,
{
    if a < 0 || a >= hi || hi > q.len() {
        pos <= end
    } else {
        match q[a] {
            Part::Any => in_order(s, pos, end, q, a + 1, hi),
            Part::Lit(lit) => found(s, pos, end, q, a, hi, lit),
        }
    }
}

/// Whether a literal stands at `pos` or behind, and the rest behind it.
spec fn found(
    s: Seq<char>,
    pos: int,
    end: int,
    q: Seq<Part>,
    a: int,
    hi: int,
    lit: Seq<char>,
) -> bool
    decreases hi - a, 0int, end - pos,
{
    if a < 0 || a >= hi || pos + lit.len() > end || pos >= end {
        false
    } else {
        (holds_at(s, pos, lit) && in_order(s, pos + lit.len(), end, q, a + 1, hi)) || found(
            s,
            pos + 1,
            end,
            q,
            a,
            hi,
            lit,
        )
    }
}

proof fn lemma_in_order_early(s: Seq<char>, pos: int, end: int, q: Seq<Part>, a: int, hi: int)
    requires
        in_order(s, pos + 1, end, q, a, hi),
        alternating(q),
        0 <= pos,
    ensures
        in_order(s, pos, end, q, a, hi),
    decreases hi - a,
{
    if !(a < 0 || a >= hi || hi > q.len()) {
        match q[a] {
            Part::Any => {
                lemma_in_order_early(s, pos, end, q, a + 1, hi);
            },
            Part::Lit(lit) => {
                assert(found(s, pos + 1, end, q, a, hi, lit));
                assert(found(s, pos, end, q, a, hi, lit));
            },
        }
    }
}

proof fn lemma_in_order_earlier(
    s: Seq<char>,
    pos: int,
    later: int,
    end: int,
    q: Seq<Part>,
    a: int,
    hi: int,
)
    requires
        in_order(s, later, end, q, a, hi),
        alternating(q),
        0 <= pos <= later,
    ensures
        in_order(s, pos, end, q, a, hi),
    decreases later - pos,
{
    if pos < later {
        lemma_in_order_early(s, later - 1, end, q, a, hi);
        lemma_in_order_earlier(s, pos, later - 1, end, q, a, hi);
    }
}

/// The earliest place of a literal is as good as any.
proof fn lemma_earliest(
    s: Seq<char>,
    pos: int,
    at: int,
    end: int,
    q: Seq<Part>,
    a: int,
    hi: int,
    lit: Seq<char>,
)
    requires
        alternating(q),
        0 <= pos <= at,
        0 <= a < hi <= q.len(),
        q[a] == Part::Lit(lit),
        at + lit.len() <= end,
        holds_at(s, at, lit),
        forall|k: int| pos <= k < at ==> !holds_at(s, k, lit),
    ensures
        found(s, pos, end, q, a, hi, lit) == in_order(s, at + lit.len(), end, q, a + 1, hi),
    decreases at - pos,
{
    if pos < at {
        lemma_earliest(s, pos + 1, at, end, q, a, hi, lit);
    } else {
        lemma_later_found(s, pos + 1, at, end, q, a, hi, lit);
    }
}

proof fn lemma_later_found(
    s: Seq<char>,
    pos: int,
    at: int,
    end: int,
    q: Seq<Part>,
    a: int,
    hi: int,
    lit: Seq<char>,
)
    requires
        alternating(q),
        0 <= at < pos,
        0 <= a < hi <= q.len(),
    ensures
        found(s, pos, end, q, a, hi, lit) ==> in_order(s, at + lit.len(), end, q, a + 1, hi),
    decreases end - pos,
{
    if pos + lit.len() <= end && pos < end {
        if in_order(s, pos + lit.len(), end, q, a + 1, hi) {
            lemma_in_order_earlier(s, at + lit.len(), pos + lit.len(), end, q, a + 1, hi);
        }
        lemma_later_found(s, pos + 1, at, end, q, a, hi, lit);
    }
}

proof fn lemma_never_found(
    s: Seq<char>,
    pos: int,
    end: int,
    q: Seq<Part>,
    a: int,
    hi: int,
    lit: Seq<char>,
)
    requires
        forall|k: int| pos <= k && k + lit.len() <= end ==> !holds_at(s, k, lit),
    ensures
        !found(s, pos, end, q, a, hi, lit),
    decreases end - pos,
{
    if pos + lit.len() <= end && pos < end {
        lemma_never_found(s, pos + 1, end, q, a, hi, lit);
    }
}

/// What follows the middle of a pattern: nothing, or a literal at the very end.
spec fn tail_fits(s: Seq<char>, q: Seq<Part>, hi: int, end: int) -> bool {
    ||| hi == q.len() && end == s.len()
    ||| hi == q.len() - 1 && (q[hi] matches Part::Lit(lit) && end + lit.len() == s.len() && holds_at(
        s,
        end,
        lit,
    ))
}

/// From a wildcard on, a text matches where the literals stand in order before
/// the end.
proof fn lemma_middle(s: Seq<char>, pos: int, q: Seq<Part>, a: int, hi: int, end: int)
    requires
        alternating(q),
        0 <= a < hi <= q.len(),
        q[a] is Any,
        q[hi - 1] is Any,
        tail_fits(s, q, hi, end),
        0 <= pos <= s.len(),
    ensures
        parts_match(s, pos, q, a) == in_order(s, pos, end, q, a, hi),
    decreases hi - a, 0int, 0int,
{
    assert(parts_match(s, pos, q, a) == parts_behind(s, pos, q, a + 1));
    assert(in_order(s, pos, end, q, a, hi) == in_order(s, pos, end, q, a + 1, hi));
    if a + 1 == hi {
        lemma_last(s, pos, q, hi, end);
    } else {
        assert(q[a + 1] is Lit);
        let lit = q[a + 1]->Lit_0;
        assert(a + 2 < hi);
        assert(q[a + 2] is Any);
        lemma_middle_behind(s, pos, q, a + 1, hi, end, lit);
    }
}

proof fn lemma_last(s: Seq<char>, pos: int, q: Seq<Part>, hi: int, end: int)
    requires
        0 < hi <= q.len(),
        tail_fits(s, q, hi, end),
        0 <= pos <= s.len(),
    ensures
        parts_behind(s, pos, q, hi) == (pos <= end),
    decreases s.len() - pos,
{
    if hi == q.len() {
        assert(parts_match(s, pos, q, hi) == (pos == s.len()));
    } else {
        let lit = q[hi]->Lit_0;
        assert(parts_match(s, pos + lit.len(), q, hi + 1) == (pos + lit.len() == s.len()));
        assert(parts_match(s, pos, q, hi) == (holds_at(s, pos, lit) && pos + lit.len() == s.len()));
    }
    if pos < s.len() {
        lemma_last(s, pos + 1, q, hi, end);
    }
}

proof fn lemma_middle_behind(
    s: Seq<char>,
    pos: int,
    q: Seq<Part>,
    a: int,
    hi: int,
    end: int,
    lit: Seq<char>,
)
    requires
        alternating(q),
        0 < a,
        a + 1 < hi <= q.len(),
        q[a] == Part::Lit(lit),
        q[a + 1] is Any,
        q[hi - 1] is Any,
        tail_fits(s, q, hi, end),
        0 <= pos <= s.len(),
    ensures
        parts_behind(s, pos, q, a) == found(s, pos, end, q, a, hi, lit),
    decreases hi - a, 1int, s.len() - pos,
{
    assert(lit.len() > 0);
    assert(parts_match(s, pos, q, a) == (holds_at(s, pos, lit) && parts_match(
        s,
        pos + lit.len(),
        q,
        a + 1,
    )));
    if holds_at(s, pos, lit) {
        lemma_middle(s, pos + lit.len(), q, a + 1, hi, end);
        if pos + lit.len() > end {
            lemma_past_end(s, pos + lit.len(), q, a + 1, hi, end);
        }
    }
    if pos < s.len() {
        lemma_middle_behind(s, pos + 1, q, a, hi, end, lit);
        if pos + lit.len() > end || pos >= end {
            lemma_none_past_end(s, pos + 1, end, q, a, hi, lit);
        }
    }
}

proof fn lemma_past_end(s: Seq<char>, pos: int, q: Seq<Part>, a: int, hi: int, end: int)
    requires
        alternating(q),
        pos > end,
    ensures
        !in_order(s, pos, end, q, a, hi),
    decreases hi - a,
{
    if !(a < 0 || a >= hi || hi > q.len()) {
        match q[a] {
            Part::Any => {
                lemma_past_end(s, pos, q, a + 1, hi, end);
            },
            Part::Lit(lit) => {
                assert(!found(s, pos, end, q, a, hi, lit));
            },
        }
    }
}

proof fn lemma_none_past_end(
    s: Seq<char>,
    pos: int,
    end: int,
    q: Seq<Part>,
    a: int,
    hi: int,
    lit: Seq<char>,
)
    requires
        pos + lit.len() > end || pos >= end,
    ensures
        !found(s, pos, end, q, a, hi, lit),
{
}

/// The first place from `from` on, before `end`, at which a text holds another.
/// Nothing is held everywhere, and so found at once.
pub fn find_from(text: &[char], end: usize, from: usize, needle: &[char]) -> (r: Option<usize>)
    requires
        end <= text@.len(),
    ensures
        needle@.len() == 0 ==> r == Some(from),
        needle@.len() > 0 ==> match r {
            Some(at) => from <= at && at + needle@.len() <= end && holds_at(
                text@,
                at as int,
                needle@,
            ) && forall|k: int| from <= k < at ==> !holds_at(text@, k, needle@),
            None => forall|k: int|
                from <= k && k + needle@.len() <= end ==> !holds_at(text@, k, needle@),
        },
{
    if needle.len() == 0 {
        return Some(from);
    }
    if end < needle.len() {
        return None;
    }
    let last: usize = end - needle.len();
    let mut i: usize = from;
    while i <= last
        invariant
            from <= i,
            end <= text@.len(),
            last + needle@.len() == end,
            needle@.len() > 0,
            forall|k: int| from <= k < i ==> !holds_at(text@, k, needle@),
        decreases last + 1 - i,
    {
        if stands_at(text, i, needle) {
            return Some(i);
        }
        i += 1;
    }
    None
}

/// Whether a text holds another at a place.
pub fn stands_at(text: &[char], i: usize, needle: &[char]) -> (r: bool)
    ensures
        r == holds_at(text@, i as int, needle@),
{
    if i > text.len() || text.len() - i < needle.len() {
        return false;
    }
    let mut k: usize = 0;
    let n: usize = text.len();
    while k < needle.len()
        invariant
            k <= needle@.len(),
            n == text@.len(),
            i + needle@.len() <= n,
            forall|j: int| 0 <= j < k ==> text@[i + j] == needle@[j],
        decreases needle.len() - k,
    {
        if text[i + k] != needle[k] {
            assert(text@.subrange(i as int, i + needle@.len())[k as int] == text@[i + k]);
            return false;
        }
        k += 1;
    }
    assert(text@.subrange(i as int, i + needle@.len()) =~= needle@);
    true
}

/// Matches the parts of a pattern: the leading literal at the start, the
/// trailing one at the end, and each of the others at its first place behind
/// the one before.
pub fn match_segments(text: &[char], segs: &[Seg]) -> (r: bool)
    requires
        alternating(parts(segs@)),
    ensures
        r == parts_match(text@, 0, parts(segs@), 0),
{
    let n: usize = segs.len();
    let ghost q = parts(segs@);
    let ghost s = text@;
    if n == 0 {
        return text.len() == 0;
    }
    let mut lo: usize = 0;
    let mut start: usize = 0;
    match &segs[0] {
        Seg::Lit(lit) => {
            assert(q[0] == Part::Lit(lit@));
            if !stands_at(text, 0, lit) {
                return false;
            }
            start = lit.len();
            lo = 1;
        },
        Seg::Any => {},
    }
    assert(parts_match(s, 0, q, 0) == parts_match(s, start as int, q, lo as int));
    if lo == n {
        return start == text.len();
    }
    assert(q[lo as int] is Any);
    let mut hi: usize = n;
    let mut end: usize = text.len();
    match &segs[n - 1] {
        Seg::Lit(lit) => {
            assert(q[n - 1] == Part::Lit(lit@));
            if text.len() < lit.len() || text.len() - lit.len() < start || !stands_at(
                text,
                text.len() - lit.len(),
                lit,
            ) {
                proof {
                    lemma_no_tail(s, start as int, q, lo as int, lit@);
                }
                return false;
            }
            end = text.len() - lit.len();
            hi = n - 1;
        },
        Seg::Any => {},
    }
    assert(q[hi - 1] is Any);
    proof {
        lemma_middle(s, start as int, q, lo as int, hi as int, end as int);
    }
    let mut pos: usize = start;
    let mut j: usize = lo;
    while j < hi
        invariant
            lo <= j <= hi <= n,
            n == segs@.len(),
            q == parts(segs@),
            s == text@,
            alternating(q),
            pos <= end <= text@.len(),
            parts_match(s, 0, q, 0) == in_order(s, pos as int, end as int, q, j as int, hi as int),
        decreases hi - j,
    {
        match &segs[j] {
            Seg::Any => {
                assert(q[j as int] is Any);
            },
            Seg::Lit(lit) => {
                assert(q[j as int] == Part::Lit(lit@));
                assert(lit@.len() > 0);
                match find_from(text, end, pos, lit) {
                    Some(at) => {
                        proof {
                            lemma_earliest(
                                s,
                                pos as int,
                                at as int,
                                end as int,
                                q,
                                j as int,
                                hi as int,
                                lit@,
                            );
                        }
                        pos = at + lit.len();
                    },
                    None => {
                        proof {
                            lemma_never_found(
                                s,
                                pos as int,
                                end as int,
                                q,
                                j as int,
                                hi as int,
                                lit@,
                            );
                        }
                        return false;
                    },
                }
            },
        }
        j += 1;
    }
    true
}

/// A trailing literal that does not end the text, or that starts before `pos`,
/// keeps it from matching.
proof fn lemma_no_tail(s: Seq<char>, pos: int, q: Seq<Part>, a: int, lit: Seq<char>)
    requires
        0 <= a < q.len() - 1,
        q[q.len() - 1] == Part::Lit(lit),
        0 <= pos,
        s.len() - lit.len() < pos || !holds_at(s, s.len() - lit.len(), lit),
    ensures
        !parts_match(s, pos, q, a),
    decreases q.len() - a, 0int,
{
    match q[a] {
        Part::Lit(l) => {
            if holds_at(s, pos, l) {
                lemma_no_tail_next(s, pos + l.len(), q, a + 1, lit);
            }
        },
        Part::Any => {
            lemma_no_tail_behind(s, pos, q, a + 1, lit);
        },
    }
}

proof fn lemma_no_tail_next(s: Seq<char>, pos: int, q: Seq<Part>, a: int, lit: Seq<char>)
    requires
        0 < a < q.len(),
        q[q.len() - 1] == Part::Lit(lit),
        0 <= pos,
        s.len() - lit.len() < pos || !holds_at(s, s.len() - lit.len(), lit),
    ensures
        !parts_match(s, pos, q, a),
    decreases q.len() - a, 1int,
{
    if a < q.len() - 1 {
        lemma_no_tail(s, pos, q, a, lit);
    } else {
        assert(parts_match(s, pos + lit.len(), q, a + 1) == (pos + lit.len() == s.len()));
    }
}

proof fn lemma_no_tail_behind(s: Seq<char>, pos: int, q: Seq<Part>, a: int, lit: Seq<char>)
    requires
        0 < a < q.len(),
        q[q.len() - 1] == Part::Lit(lit),
        0 <= pos,
        s.len() - lit.len() < pos || !holds_at(s, s.len() - lit.len(), lit),
    ensures
        !parts_behind(s, pos, q, a),
    decreases q.len() - a, 2int, s.len() - pos,
{
    lemma_no_tail_next(s, pos, q, a, lit);
    if pos < s.len() {
        lemma_no_tail_behind(s, pos + 1, q, a, lit);
    }
}

/// Whether a text matches a pattern of `like`.
pub fn like_match(text: &str, pattern: &str) -> (r: bool)
    ensures
        r == like(text@, pattern@),
{
    let chars = chars_of(text);
    let segs = split_pattern(&chars_of(pattern));
    proof {
        lemma_like_by_parts(text@, pattern@);
    }
    match_segments(&chars, &segs)
}

/// Whether a text has no character that is special in a pattern.
pub open spec fn ordinary(w: Seq<char>) -> bool {
    forall|i: int| 0 <= i < w.len() ==> #[trigger] w[i] != '%' && w[i] != '\\'
}

/// Ordinary characters of a pattern match themselves.
proof fn lemma_ordinary_run(s: Seq<char>, i: int, p: Seq<char>, j: int, w: Seq<char>)
    requires
        0 <= i <= s.len(),
        0 <= j,
        j + w.len() <= p.len(),
        p.subrange(j, j + w.len()) == w,
        ordinary(w),
    ensures
        like_from(s, i, p, j) == (holds_at(s, i, w) && like_from(s, i + w.len(), p, j + w.len())),
    decreases w.len(),
{
    if w.len() == 0 {
        lemma_empty_holds(s, i);
        assert(w =~= Seq::<char>::empty());
    } else {
        let v = w.drop_last();
        let n = v.len() as int;
        assert(p.subrange(j, j + n) =~= p.subrange(j, j + w.len()).take(n));
        assert(w.take(n) =~= v);
        assert forall|k: int| 0 <= k < v.len() implies #[trigger] v[k] != '%' && v[k] != '\\' by {
            assert(v[k] == w[k]);
        }
        lemma_ordinary_run(s, i, p, j, v);
        assert(p[j + n] == p.subrange(j, j + w.len())[n]);
        assert(w[n] == w.last());
        lemma_lit_split(s, i, v, w.last());
        assert(v.push(w.last()) =~= w);
        if holds_at(s, i, v) {
            assert(like_from(s, i + n, p, j + n) == (i + n < s.len() && s[i + n] == p[j + n]
                && like_from(s, i + n + 1, p, j + n + 1)));
        }
    }
}

/// Without a wildcard, to match is to be equal.
pub proof fn law_like_without_wildcard_is_equality(s: Seq<char>, p: Seq<char>)
    requires
        ordinary(p),
    ensures
        like(s, p) == (s == p),
{
    assert(p.subrange(0, p.len() as int) =~= p);
    lemma_ordinary_run(s, 0, p, 0, p);
    if like(s, p) {
        assert(s.subrange(0, p.len() as int) =~= s);
    }
    if s == p {
        assert(s.subrange(0, p.len() as int) =~= p);
    }
}

/// A text as a pattern that stands for it: a backslash goes before each percent
/// sign and each backslash.
pub open spec fn literal_pattern(t: Seq<char>) -> Seq<char>
    decreases t.len(),
{
    if t.len() == 0 {
        Seq::empty()
    } else if t[0] == '%' || t[0] == '\\' {
        seq!['\\', t[0]] + literal_pattern(t.skip(1))
    } else {
        seq![t[0]] + literal_pattern(t.skip(1))
    }
}

/// With its percent signs and backslashes escaped, a pattern stands for itself
/// alone.
pub proof fn law_an_escaped_pattern_is_equality(s: Seq<char>, t: Seq<char>)
    ensures
        like(s, literal_pattern(t)) == (s == t),
{
    let p = literal_pattern(t);
    assert(p.subrange(0, p.len() as int) =~= p);
    lemma_literal(s, 0, p, 0, t);
    assert(s.subrange(0, s.len() as int) =~= s);
}

proof fn lemma_literal(s: Seq<char>, i: int, p: Seq<char>, j: int, t: Seq<char>)
    requires
        0 <= i <= s.len(),
        0 <= j <= p.len(),
        p.subrange(j, p.len() as int) == literal_pattern(t),
    ensures
        like_from(s, i, p, j) == (s.subrange(i, s.len() as int) == t),
    decreases t.len(),
{
    let rest = s.subrange(i, s.len() as int);
    let part = p.subrange(j, p.len() as int);
    if t.len() == 0 {
        assert(p.len() == j + part.len());
        if i == s.len() {
            assert(rest =~= t);
        }
    } else {
        let step: int = if t[0] == '%' || t[0] == '\\' {
            2
        } else {
            1
        };
        let left = literal_pattern(t.skip(1));
        assert(part.skip(step) =~= left);
        assert(p.subrange(j + step, p.len() as int) =~= part.skip(step));
        assert(p[j] == part[0]);
        if step == 2 {
            assert(p[j + 1] == part[1]);
            assert(escapes(p, j));
        } else {
            assert(!escapes(p, j));
        }
        if i < s.len() {
            lemma_literal(s, i + 1, p, j + step, t.skip(1));
            assert(s.subrange(i + 1, s.len() as int) =~= rest.skip(1));
            if rest == t {
                assert(rest[0] == s[i]);
            }
            if s[i] == t[0] && rest.skip(1) == t.skip(1) {
                assert(rest =~= seq![s[i]] + rest.skip(1));
                assert(t =~= seq![t[0]] + t.skip(1));
            }
        }
    }
}

/// A wildcard alone matches everything.
pub proof fn law_wildcard_matches_everything(s: Seq<char>)
    ensures
        like(s, seq!['%']),
{
    lemma_end_behind(s, 0, seq!['%']);
    assert(like_from(s, 0, seq!['%'], 0) == like_behind(s, 0, seq!['%'], 1));
}

proof fn lemma_end_behind(s: Seq<char>, i: int, p: Seq<char>)
    requires
        0 <= i <= s.len(),
    ensures
        like_behind(s, i, p, p.len() as int),
    decreases s.len() - i,
{
    assert(like_from(s, i, p, p.len() as int) == (i == s.len()));
    if i < s.len() {
        lemma_end_behind(s, i + 1, p);
    }
}

proof fn lemma_behind_holds(s: Seq<char>, i: int, p: Seq<char>, w: Seq<char>)
    requires
        0 <= i <= s.len(),
        p == seq!['%'] + w + seq!['%'],
        ordinary(w),
    ensures
        like_behind(s, i, p, 1) == exists|k: int| i <= k && #[trigger] holds_at(s, k, w),
    decreases s.len() - i,
{
    let n = w.len() as int;
    assert(p.subrange(1, 1 + n) =~= w);
    lemma_ordinary_run(s, i, p, 1, w);
    let e = 1 + n;
    if holds_at(s, i, w) {
        assert(!escapes(p, e) && p[e] == '%');
        assert(like_from(s, i + w.len(), p, e) == like_behind(s, i + w.len(), p, e + 1));
        lemma_end_behind(s, i + w.len(), p);
    }
    if i < s.len() {
        lemma_behind_holds(s, i + 1, p, w);
    }
    if exists|k: int| i <= k && #[trigger] holds_at(s, k, w) {
        let k = choose|k: int| i <= k && #[trigger] holds_at(s, k, w);
        if k > i {
            assert(i + 1 <= k && holds_at(s, k, w));
        }
    }
}

/// Between two wildcards, to match is to occur.
pub proof fn law_like_between_wildcards_is_substring(s: Seq<char>, w: Seq<char>)
    requires
        ordinary(w),
    ensures
        like(s, seq!['%'] + w + seq!['%']) == exists|k: int| 0 <= k && #[trigger] holds_at(s, k, w),
{
    let p = seq!['%'] + w + seq!['%'];
    lemma_behind_holds(s, 0, p, w);
    assert(!escapes(p, 0) && p[0] == '%');
    assert(like_from(s, 0, p, 0) == like_behind(s, 0, p, 1));
}

} // verus!
