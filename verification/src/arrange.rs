//! The order of rows: a stable sort on one value of each.
//!
//! Not every pair of values can be compared, and a pair that cannot ties. Where
//! the values of all rows are comparable with one another, the rows end up in
//! order; where they are not, they end up in some order that this sort picks.

use crate::big::{order_of, Order};
use crate::eval::{order_values, tree_order, turned};
use crate::value::{tree_opt, Fields, Record, Tree, Value};
use vstd::prelude::*;

verus! {

/// A row and the value that it is sorted on.
pub type Keyed = (Option<Value>, Record);

/// What a row and its sort value hold.
pub type KeyedView = (Option<Tree>, Fields);

/// What a keyed row holds.
pub open spec fn keyed(k: Keyed) -> KeyedView {
    (tree_opt(k.0), k.1@)
}

/// What a list of keyed rows holds.
pub open spec fn keyed_rows(rows: Seq<Keyed>) -> Seq<KeyedView> {
    Seq::new(rows.len(), |i: int| keyed(rows[i]))
}

/// How two sort values stand to one another. A missing one comes last in both
/// directions, and values that cannot be compared tie.
pub open spec fn key_order(a: Option<Tree>, b: Option<Tree>, descending: bool) -> Order {
    match (a, b) {
        (None, None) => Order::Equal,
        (None, Some(_)) => Order::Greater,
        (Some(_), None) => Order::Less,
        (Some(x), Some(y)) => match tree_order(x, y) {
            None => Order::Equal,
            Some(o) => if descending {
                turned(o)
            } else {
                o
            },
        },
    }
}

/// Whether a row has to come before another.
pub open spec fn precedes(a: KeyedView, b: KeyedView, descending: bool) -> bool {
    key_order(a.0, b.0, descending) == Order::Less
}

/// Rows with one more, put behind all that it does not have to come before.
pub open spec fn inserted(rows: Seq<KeyedView>, x: KeyedView, descending: bool) -> Seq<KeyedView>
    decreases rows.len(),
{
    if rows.len() > 0 && precedes(x, rows.last(), descending) {
        inserted(rows.drop_last(), x, descending).push(rows.last())
    } else {
        rows.push(x)
    }
}

/// The first `n` rows, put in one by one.
pub open spec fn piled(rows: Seq<KeyedView>, n: nat, descending: bool) -> Seq<KeyedView>
    decreases n,
{
    if n == 0 || n > rows.len() {
        Seq::empty()
    } else {
        inserted(piled(rows, (n - 1) as nat, descending), rows[n - 1], descending)
    }
}

/// Two sorted lists as one, those of the first before those of the second where
/// they tie.
pub open spec fn merged(a: Seq<KeyedView>, b: Seq<KeyedView>, descending: bool) -> Seq<KeyedView>
    decreases a.len() + b.len(),
{
    if a.len() == 0 {
        b
    } else if b.len() == 0 {
        a
    } else if precedes(b.last(), a.last(), descending) {
        merged(a.drop_last(), b, descending).push(a.last())
    } else {
        merged(a, b.drop_last(), descending).push(b.last())
    }
}

/// How many rows are put in one by one; more are sorted in halves.
pub const SHORT: usize = 20;

/// The rows in order.
pub open spec fn arranged(rows: Seq<KeyedView>, descending: bool) -> Seq<KeyedView>
    decreases rows.len(),
{
    if rows.len() <= SHORT {
        piled(rows, rows.len(), descending)
    } else {
        let mid = rows.len() as int / 2;
        merged(
            arranged(rows.subrange(0, mid), descending),
            arranged(rows.subrange(mid, rows.len() as int), descending),
            descending,
        )
    }
}

/// How two sort values stand to one another.
fn order_sort_keys(a: &Option<Value>, b: &Option<Value>, descending: bool) -> (r: Order)
    ensures
        r == key_order(tree_opt(*a), tree_opt(*b), descending),
{
    match (a, b) {
        (None, None) => Order::Equal,
        (None, Some(_)) => Order::Greater,
        (Some(_), None) => Order::Less,
        (Some(x), Some(y)) => match order_values(x, y) {
            None => Order::Equal,
            Some(Order::Equal) => Order::Equal,
            Some(Order::Less) => if descending {
                Order::Greater
            } else {
                Order::Less
            },
            Some(Order::Greater) => if descending {
                Order::Less
            } else {
                Order::Greater
            },
        },
    }
}

fn comes_before(a: &Keyed, b: &Keyed, descending: bool) -> (r: bool)
    ensures
        r == precedes(keyed(*a), keyed(*b), descending),
{
    match order_sort_keys(&a.0, &b.0, descending) {
        Order::Less => true,
        _ => false,
    }
}

/// Inserting goes past the rows that have to come behind.
#[verifier::rlimit(30)]
proof fn lemma_inserted(rows: Seq<KeyedView>, x: KeyedView, descending: bool, at: int)
    requires
        0 <= at <= rows.len(),
        at > 0 ==> !precedes(x, rows[at - 1], descending),
        forall|i: int| at <= i < rows.len() ==> precedes(x, #[trigger] rows[i], descending),
    ensures
        inserted(rows, x, descending) == rows.insert(at, x),
    decreases rows.len(),
{
    if at < rows.len() {
        let rest = rows.drop_last();
        assert(rows.last() == rows[rows.len() - 1]);
        assert forall|i: int| at <= i < rest.len() implies precedes(
            x,
            #[trigger] rest[i],
            descending,
        ) by {
            assert(rest[i] == rows[i]);
        }
        lemma_inserted(rest, x, descending, at);
        assert(rest.insert(at, x).push(rows.last()) =~= rows.insert(at, x));
    } else {
        assert(rows.push(x) =~= rows.insert(at, x));
    }
}

fn insert_row(rows: &mut Vec<Keyed>, x: Keyed, descending: bool)
    ensures
        keyed_rows(final(rows)@) == inserted(keyed_rows(old(rows)@), keyed(x), descending),
{
    let mut at: usize = rows.len();
    while at > 0 && comes_before(&x, &rows[at - 1], descending)
        invariant
            at <= rows@.len(),
            forall|i: int|
                at <= i < rows@.len() ==> precedes(
                    keyed(x),
                    #[trigger] keyed_rows(rows@)[i],
                    descending,
                ),
        decreases at,
    {
        at -= 1;
    }
    let ghost before = keyed_rows(rows@);
    proof {
        lemma_inserted(before, keyed(x), descending, at as int);
    }
    rows.insert(at, x);
    assert(keyed_rows(rows@) =~= before.insert(at as int, keyed(x)));
}

fn pile(rows: Vec<Keyed>, descending: bool) -> (r: Vec<Keyed>)
    ensures
        keyed_rows(r@) == piled(keyed_rows(rows@), rows@.len(), descending),
{
    let mut from = rows;
    let mut out: Vec<Keyed> = Vec::new();
    let ghost all = keyed_rows(rows@);
    let ghost mut n: nat = 0;
    assert(keyed_rows(out@) =~= Seq::empty());
    assert(all.subrange(0, all.len() as int) =~= all);
    while from.len() > 0
        invariant
            n + from@.len() == all.len(),
            keyed_rows(from@) == all.subrange(n as int, all.len() as int),
            keyed_rows(out@) == piled(all, n, descending),
        decreases from.len(),
    {
        let ghost had = keyed_rows(from@);
        let ghost was = from@;
        let x = from.remove(0);
        insert_row(&mut out, x, descending);
        proof {
            assert(keyed(x) == had[0]);
            n = n + 1;
            assert forall|i: int| 0 <= i < from@.len() implies #[trigger] keyed_rows(from@)[i]
                == had[i + 1] by {
                assert(from@[i] == was[i + 1]);
            }
            assert(keyed_rows(from@) =~= all.subrange(n as int, all.len() as int));
        }
    }
    out
}

fn reversed(rows: Vec<Keyed>) -> (r: Vec<Keyed>)
    ensures
        r@ == rows@.reverse(),
{
    let mut from = rows;
    let mut out: Vec<Keyed> = Vec::new();
    while from.len() > 0
        invariant
            from@ + out@.reverse() == rows@,
        decreases from.len(),
    {
        let ghost was = from@;
        let ghost had = out@;
        match from.pop() {
            Some(x) => {
                out.push(x);
                assert(was == from@.push(x));
                assert(out@.reverse() =~= seq![x] + had.reverse());
                assert(from@ + out@.reverse() =~= was + had.reverse());
            },
            None => {},
        }
    }
    assert(from@ + out@.reverse() =~= out@.reverse());
    assert(out@ =~= out@.reverse().reverse());
    out
}

/// Two sorted lists as one. The greatest are taken first, and come out last.
#[verifier::rlimit(30)]
fn merge(a: Vec<Keyed>, b: Vec<Keyed>, descending: bool) -> (r: Vec<Keyed>)
    ensures
        keyed_rows(r@) == merged(keyed_rows(a@), keyed_rows(b@), descending),
{
    let mut a = a;
    let mut b = b;
    let mut out: Vec<Keyed> = Vec::new();
    let ghost goal = merged(keyed_rows(a@), keyed_rows(b@), descending);
    assert(goal =~= goal + keyed_rows(out@.reverse()));
    while a.len() > 0 || b.len() > 0
        invariant
            goal == merged(keyed_rows(a@), keyed_rows(b@), descending) + keyed_rows(
                out@.reverse(),
            ),
        decreases a.len() + b.len(),
    {
        let ghost left = keyed_rows(a@);
        let ghost right = keyed_rows(b@);
        let ghost had = out@;
        let from_a = b.len() == 0 || (a.len() > 0 && comes_before(
            &b[b.len() - 1],
            &a[a.len() - 1],
            descending,
        ));
        let taken = if from_a {
            a.pop()
        } else {
            b.pop()
        };
        match taken {
            Some(x) => {
                out.push(x);
                proof {
                    assert(out@.reverse() =~= seq![x] + had.reverse());
                    assert(keyed_rows(out@.reverse()) =~= seq![keyed(x)] + keyed_rows(
                        had.reverse(),
                    ));
                    if from_a {
                        assert(keyed_rows(a@) =~= left.drop_last());
                        assert(left.last() == keyed(x));
                        if right.len() == 0 {
                            assert(merged(left, right, descending) == left);
                            assert(merged(left.drop_last(), right, descending) =~= left.drop_last());
                        }
                    } else {
                        assert(keyed_rows(b@) =~= right.drop_last());
                        assert(right.last() == keyed(x));
                        if left.len() == 0 {
                            assert(merged(left, right.drop_last(), descending)
                                =~= right.drop_last());
                        }
                    }
                    assert(merged(left, right, descending) =~= merged(
                        keyed_rows(a@),
                        keyed_rows(b@),
                        descending,
                    ).push(keyed(x)));
                    assert(goal =~= merged(keyed_rows(a@), keyed_rows(b@), descending)
                        + keyed_rows(out@.reverse()));
                }
            },
            None => {},
        }
    }
    let r = reversed(out);
    assert(merged(keyed_rows(a@), keyed_rows(b@), descending) =~= Seq::empty());
    assert(goal =~= keyed_rows(r@));
    r
}

/// Puts rows in order.
pub fn arrange(rows: Vec<Keyed>, descending: bool) -> (r: Vec<Keyed>)
    ensures
        keyed_rows(r@) == arranged(keyed_rows(rows@), descending),
    decreases rows@.len(),
{
    if rows.len() <= SHORT {
        return pile(rows, descending);
    }
    let ghost all = keyed_rows(rows@);
    let mut first = rows;
    let mid: usize = first.len() / 2;
    let second = first.split_off(mid);
    assert(keyed_rows(first@) =~= all.subrange(0, mid as int));
    assert(keyed_rows(second@) =~= all.subrange(mid as int, all.len() as int));
    let a = arrange(first, descending);
    let b = arrange(second, descending);
    merge(a, b, descending)
}

proof fn lemma_inserted_rows(rows: Seq<KeyedView>, x: KeyedView, descending: bool)
    ensures
        inserted(rows, x, descending).to_multiset() == rows.to_multiset().insert(x),
    decreases rows.len(),
{
    broadcast use vstd::seq_lib::group_to_multiset_ensures;

    if rows.len() > 0 && precedes(x, rows.last(), descending) {
        lemma_inserted_rows(rows.drop_last(), x, descending);
        assert(rows =~= rows.drop_last().push(rows.last()));
        assert(inserted(rows, x, descending).to_multiset() =~= rows.to_multiset().insert(x));
    }
}

proof fn lemma_piled_rows(rows: Seq<KeyedView>, n: nat, descending: bool)
    requires
        n <= rows.len(),
    ensures
        piled(rows, n, descending).to_multiset() == rows.subrange(0, n as int).to_multiset(),
    decreases n,
{
    broadcast use vstd::seq_lib::group_to_multiset_ensures;

    if n > 0 {
        let m = (n - 1) as nat;
        lemma_piled_rows(rows, m, descending);
        lemma_inserted_rows(piled(rows, m, descending), rows[m as int], descending);
        assert(rows.subrange(0, n as int) =~= rows.subrange(0, m as int).push(rows[m as int]));
    } else {
        assert(rows.subrange(0, 0) =~= Seq::empty());
    }
}

proof fn lemma_merged_rows(a: Seq<KeyedView>, b: Seq<KeyedView>, descending: bool)
    ensures
        merged(a, b, descending).to_multiset() == a.to_multiset().add(b.to_multiset()),
    decreases a.len() + b.len(),
{
    broadcast use vstd::seq_lib::group_to_multiset_ensures;

    if a.len() == 0 {
        assert(a =~= Seq::empty());
        assert(merged(a, b, descending).to_multiset() =~= a.to_multiset().add(b.to_multiset()));
    } else if b.len() == 0 {
        assert(b =~= Seq::empty());
        assert(merged(a, b, descending).to_multiset() =~= a.to_multiset().add(b.to_multiset()));
    } else if precedes(b.last(), a.last(), descending) {
        lemma_merged_rows(a.drop_last(), b, descending);
        assert(a =~= a.drop_last().push(a.last()));
        assert(merged(a, b, descending).to_multiset() =~= a.to_multiset().add(b.to_multiset()));
    } else {
        lemma_merged_rows(a, b.drop_last(), descending);
        assert(b =~= b.drop_last().push(b.last()));
        assert(merged(a, b, descending).to_multiset() =~= a.to_multiset().add(b.to_multiset()));
    }
}

/// Sorting keeps every row, and adds none.
pub proof fn law_arranging_keeps_every_row(rows: Seq<KeyedView>, descending: bool)
    ensures
        arranged(rows, descending).to_multiset() == rows.to_multiset(),
        arranged(rows, descending).len() == rows.len(),
    decreases rows.len(),
{
    broadcast use vstd::seq_lib::group_to_multiset_ensures;

    if rows.len() <= SHORT {
        lemma_piled_rows(rows, rows.len(), descending);
        assert(rows.subrange(0, rows.len() as int) =~= rows);
    } else {
        let mid = rows.len() as int / 2;
        let a = rows.subrange(0, mid);
        let b = rows.subrange(mid, rows.len() as int);
        law_arranging_keeps_every_row(a, descending);
        law_arranging_keeps_every_row(b, descending);
        lemma_merged_rows(arranged(a, descending), arranged(b, descending), descending);
        assert(rows =~= a + b);
        vstd::seq_lib::lemma_multiset_commutative(a, b);
    }
    arranged(rows, descending).to_multiset_ensures();
    rows.to_multiset_ensures();
}

/// Whether rows that lack their sort value stand behind all others.
pub open spec fn missing_last(rows: Seq<KeyedView>) -> bool {
    forall|i: int, j: int|
        0 <= i < j < rows.len() && (#[trigger] rows[i]).0 is None ==> (#[trigger] rows[j]).0 is None
}

proof fn lemma_inserted_missing(rows: Seq<KeyedView>, x: KeyedView, descending: bool)
    requires
        missing_last(rows),
    ensures
        missing_last(inserted(rows, x, descending)),
        inserted(rows, x, descending).len() == rows.len() + 1,
        rows.len() > 0 && rows.last().0 is None ==> inserted(rows, x, descending).last().0 is None,
        x.0 is None ==> inserted(rows, x, descending).last().0 is None,
    decreases rows.len(),
{
    if rows.len() > 0 && precedes(x, rows.last(), descending) {
        let rest = rows.drop_last();
        lemma_inserted_missing(rest, x, descending);
        if rest.len() > 0 && rest.last().0 is None {
            assert(rows[rows.len() - 2].0 is None);
            assert(rows[rows.len() - 1].0 is None);
        }
        let now = inserted(rest, x, descending);
        lemma_somes(rest, x, descending);
        assert forall|i: int, j: int|
            0 <= i < j < now.push(rows.last()).len() && (#[trigger] now.push(
                rows.last(),
            )[i]).0 is None implies (#[trigger] now.push(rows.last())[j]).0 is None by {
            if j == now.len() {
                assert(now[i].0 is None);
                assert(now.last() == now[now.len() - 1]);
            }
        }
    } else {
        let now = rows.push(x);
        assert forall|i: int, j: int|
            0 <= i < j < now.len() && (#[trigger] now[i]).0 is None implies (
        #[trigger] now[j]).0 is None by {
            if j == rows.len() {
                assert(rows[i].0 is None);
                assert(rows.last().0 is None) by {
                    if i < rows.len() - 1 {
                        assert(rows[rows.len() - 1].0 is None);
                    }
                }
            }
        }
    }
}

/// Where some row lacks its value behind an insertion, the one put in lacks it or
/// one that was there.
proof fn lemma_somes(rows: Seq<KeyedView>, x: KeyedView, descending: bool)
    ensures
        x.0 is Some && (forall|i: int| 0 <= i < rows.len() ==> (#[trigger] rows[i]).0 is Some)
            ==> forall|i: int|
            0 <= i < inserted(rows, x, descending).len() ==> (#[trigger] inserted(
                rows,
                x,
                descending,
            )[i]).0 is Some,
    decreases rows.len(),
{
    if rows.len() > 0 && precedes(x, rows.last(), descending) {
        let rest = rows.drop_last();
        lemma_somes(rest, x, descending);
        if forall|i: int| 0 <= i < rows.len() ==> (#[trigger] rows[i]).0 is Some {
            assert forall|i: int| 0 <= i < rest.len() implies (#[trigger] rest[i]).0 is Some by {
                assert(rest[i] == rows[i]);
            }
            assert(rows[rows.len() - 1].0 is Some);
        }
    }
}

proof fn lemma_piled_missing(rows: Seq<KeyedView>, n: nat, descending: bool)
    requires
        n <= rows.len(),
    ensures
        missing_last(piled(rows, n, descending)),
    decreases n,
{
    if n > 0 {
        lemma_piled_missing(rows, (n - 1) as nat, descending);
        lemma_inserted_missing(piled(rows, (n - 1) as nat, descending), rows[n - 1], descending);
    }
}

/// Whether no row lacks its sort value.
spec fn all_there(rows: Seq<KeyedView>) -> bool {
    forall|i: int| 0 <= i < rows.len() ==> (#[trigger] rows[i]).0 is Some
}

proof fn lemma_all_there(rows: Seq<KeyedView>)
    requires
        missing_last(rows),
        rows.len() > 0 ==> rows.last().0 is Some,
    ensures
        all_there(rows),
{
    assert forall|i: int| 0 <= i < rows.len() implies (#[trigger] rows[i]).0 is Some by {
        if rows[i].0 is None && i < rows.len() - 1 {
            assert(rows[rows.len() - 1].0 is None);
        }
    }
}

proof fn lemma_merged_missing(a: Seq<KeyedView>, b: Seq<KeyedView>, descending: bool)
    requires
        missing_last(a),
        missing_last(b),
    ensures
        missing_last(merged(a, b, descending)),
        all_there(a) && all_there(b) ==> all_there(merged(a, b, descending)),
    decreases a.len() + b.len(),
{
    if a.len() > 0 && b.len() > 0 {
        let from_a = precedes(b.last(), a.last(), descending);
        let x = if from_a {
            a.last()
        } else {
            b.last()
        };
        let (c, d) = if from_a {
            (a.drop_last(), b)
        } else {
            (a, b.drop_last())
        };
        assert(missing_last(c)) by {
            assert forall|i: int, j: int|
                0 <= i < j < c.len() && (#[trigger] c[i]).0 is None implies (
            #[trigger] c[j]).0 is None by {
                assert(a[i].0 is None);
                assert(a[j].0 is None);
            }
        }
        assert(missing_last(d)) by {
            assert forall|i: int, j: int|
                0 <= i < j < d.len() && (#[trigger] d[i]).0 is None implies (
            #[trigger] d[j]).0 is None by {
                assert(b[i].0 is None);
                assert(b[j].0 is None);
            }
        }
        lemma_merged_missing(c, d, descending);
        let rest = merged(c, d, descending);
        let now = rest.push(x);
        if x.0 is Some {
            assert(a.last().0 is Some && b.last().0 is Some);
            lemma_all_there(a);
            lemma_all_there(b);
            assert(all_there(c)) by {
                assert forall|i: int| 0 <= i < c.len() implies (#[trigger] c[i]).0 is Some by {
                    assert(a[i].0 is Some);
                }
            }
            assert(all_there(d)) by {
                assert forall|i: int| 0 <= i < d.len() implies (#[trigger] d[i]).0 is Some by {
                    assert(b[i].0 is Some);
                }
            }
            assert(all_there(rest));
            assert(all_there(now));
        } else {
            assert(!all_there(a) || !all_there(b)) by {
                assert(from_a ==> a[a.len() - 1].0 is None);
                assert(!from_a ==> b[b.len() - 1].0 is None);
            }
            assert forall|i: int, j: int|
                0 <= i < j < now.len() && (#[trigger] now[i]).0 is None implies (
            #[trigger] now[j]).0 is None by {
                if j < rest.len() {
                    assert(rest[i].0 is None);
                }
            }
        }
    }
}

/// Rows that lack their sort value come last, whichever way the others are
/// sorted.
pub proof fn law_missing_rows_come_last(rows: Seq<KeyedView>, descending: bool)
    ensures
        missing_last(arranged(rows, descending)),
    decreases rows.len(),
{
    if rows.len() <= SHORT {
        lemma_piled_missing(rows, rows.len(), descending);
    } else {
        let mid = rows.len() as int / 2;
        let a = rows.subrange(0, mid);
        let b = rows.subrange(mid, rows.len() as int);
        law_missing_rows_come_last(a, descending);
        law_missing_rows_come_last(b, descending);
        lemma_merged_missing(arranged(a, descending), arranged(b, descending), descending);
    }
}

/// Whether sort values stand to one another as their ranks do: of such values any
/// two can be compared, and the comparisons agree with one another.
pub open spec fn ranked(keys: Set<Option<Tree>>, rank: spec_fn(Option<Tree>) -> int, descending: bool) -> bool {
    forall|a: Option<Tree>, b: Option<Tree>|
        keys.contains(a) && keys.contains(b) ==> #[trigger] key_order(a, b, descending) == order_of(
            rank(a),
            rank(b),
        )
}

/// Whether the sort values of rows are all among these.
pub open spec fn keyed_by(rows: Seq<KeyedView>, keys: Set<Option<Tree>>) -> bool {
    forall|i: int| 0 <= i < rows.len() ==> keys.contains((#[trigger] rows[i]).0)
}

/// Whether rows stand in the order of their ranks.
pub open spec fn in_order(rows: Seq<KeyedView>, rank: spec_fn(Option<Tree>) -> int) -> bool {
    forall|i: int, j: int|
        0 <= i < j < rows.len() ==> rank((#[trigger] rows[i]).0) <= rank((#[trigger] rows[j]).0)
}

/// The rows of one rank, in their order.
pub open spec fn of_rank(rows: Seq<KeyedView>, rank: spec_fn(Option<Tree>) -> int, r: int) -> Seq<KeyedView>
    decreases rows.len(),
{
    if rows.len() == 0 {
        Seq::empty()
    } else {
        let before = of_rank(rows.drop_last(), rank, r);
        if rank(rows.last().0) == r {
            before.push(rows.last())
        } else {
            before
        }
    }
}

proof fn lemma_none_of_rank(rows: Seq<KeyedView>, rank: spec_fn(Option<Tree>) -> int, r: int)
    requires
        forall|i: int| 0 <= i < rows.len() ==> rank((#[trigger] rows[i]).0) != r,
    ensures
        of_rank(rows, rank, r) == Seq::<KeyedView>::empty(),
    decreases rows.len(),
{
    if rows.len() > 0 {
        let rest = rows.drop_last();
        assert forall|i: int| 0 <= i < rest.len() implies rank((#[trigger] rest[i]).0) != r by {
            assert(rest[i] == rows[i]);
        }
        lemma_none_of_rank(rest, rank, r);
        assert(rank(rows[rows.len() - 1].0) != r);
    }
}

proof fn lemma_of_rank_adds(a: Seq<KeyedView>, b: Seq<KeyedView>, rank: spec_fn(Option<Tree>) -> int, r: int)
    ensures
        of_rank(a + b, rank, r) == of_rank(a, rank, r) + of_rank(b, rank, r),
    decreases b.len(),
{
    if b.len() == 0 {
        assert(a + b =~= a);
        assert(of_rank(a, rank, r) + of_rank(b, rank, r) =~= of_rank(a, rank, r));
    } else {
        lemma_of_rank_adds(a, b.drop_last(), rank, r);
        assert((a + b).drop_last() =~= a + b.drop_last());
        assert((a + b).last() == b.last());
        assert(of_rank(a + b, rank, r) =~= of_rank(a, rank, r) + of_rank(b, rank, r));
    }
}

/// Whether rows are sorted, and the rows of each rank are those of `from`.
spec fn well_arranged(
    rows: Seq<KeyedView>,
    from: Seq<KeyedView>,
    keys: Set<Option<Tree>>,
    rank: spec_fn(Option<Tree>) -> int,
) -> bool {
    &&& keyed_by(rows, keys)
    &&& in_order(rows, rank)
    &&& forall|r: int| #[trigger] of_rank(rows, rank, r) == of_rank(from, rank, r)
}

proof fn lemma_inserted_order(
    rows: Seq<KeyedView>,
    x: KeyedView,
    keys: Set<Option<Tree>>,
    rank: spec_fn(Option<Tree>) -> int,
    descending: bool,
)
    requires
        ranked(keys, rank, descending),
        keyed_by(rows, keys),
        keys.contains(x.0),
        in_order(rows, rank),
    ensures
        well_arranged(inserted(rows, x, descending), rows.push(x), keys, rank),
        forall|i: int|
            0 <= i < inserted(rows, x, descending).len() ==> rank(
                (#[trigger] inserted(rows, x, descending)[i]).0,
            ) <= (if rows.len() > 0 && rank(rows.last().0) > rank(x.0) {
                rank(rows.last().0)
            } else {
                rank(x.0)
            }),
    decreases rows.len(),
{
    let now = inserted(rows, x, descending);
    if rows.len() > 0 {
        assert(rows.last() == rows[rows.len() - 1]);
        assert(keys.contains(rows.last().0));
        assert(key_order(x.0, rows.last().0, descending) == order_of(
            rank(x.0),
            rank(rows.last().0),
        ));
    }
    if rows.len() > 0 && precedes(x, rows.last(), descending) {
        let rest = rows.drop_last();
        assert forall|i: int| 0 <= i < rest.len() implies keys.contains((#[trigger] rest[i]).0) by {
            assert(rest[i] == rows[i]);
        }
        assert(in_order(rest, rank)) by {
            assert forall|i: int, j: int| 0 <= i < j < rest.len() implies rank(
                (#[trigger] rest[i]).0,
            ) <= rank((#[trigger] rest[j]).0) by {
                assert(rest[i] == rows[i] && rest[j] == rows[j]);
            }
        }
        lemma_inserted_order(rest, x, keys, rank, descending);
        let part = inserted(rest, x, descending);
        assert(now == part.push(rows.last()));
        if rest.len() > 0 {
            assert(rest.last() == rows[rows.len() - 2]);
            assert(rank(rest.last().0) <= rank(rows.last().0));
        }
        assert(in_order(now, rank)) by {
            assert forall|i: int, j: int| 0 <= i < j < now.len() implies rank((#[trigger] now[i]).0)
                <= rank((#[trigger] now[j]).0) by {
                assert(now[i] == part[i]);
                if j < part.len() {
                    assert(now[j] == part[j]);
                }
            }
        }
        assert(keyed_by(now, keys)) by {
            assert forall|i: int| 0 <= i < now.len() implies keys.contains((#[trigger] now[i]).0) by {
                if i < part.len() {
                    assert(now[i] == part[i]);
                }
            }
        }
        assert forall|r: int| #[trigger] of_rank(now, rank, r) == of_rank(rows.push(x), rank, r) by {
            assert(now.drop_last() =~= part);
            assert(rows.push(x).drop_last() =~= rows);
            assert(rest.push(x).drop_last() =~= rest);
            assert(of_rank(part, rank, r) == of_rank(rest.push(x), rank, r));
            assert(rest.push(x).last() == x);
            assert(rows.push(x).last() == x);
            assert(now.last() == rows.last());
            let base = of_rank(rest, rank, r);
            assert(of_rank(rest.push(x), rank, r) == (if rank(x.0) == r {
                base.push(x)
            } else {
                base
            }));
            assert(of_rank(rows, rank, r) == (if rank(rows.last().0) == r {
                base.push(rows.last())
            } else {
                base
            }));
            assert(of_rank(rows.push(x), rank, r) == (if rank(x.0) == r {
                of_rank(rows, rank, r).push(x)
            } else {
                of_rank(rows, rank, r)
            }));
        }
    } else {
        assert(in_order(now, rank)) by {
            assert forall|i: int, j: int| 0 <= i < j < now.len() implies rank((#[trigger] now[i]).0)
                <= rank((#[trigger] now[j]).0) by {
                assert(now[i] == rows[i]);
                if j < rows.len() {
                    assert(now[j] == rows[j]);
                } else {
                    assert(rank(rows[i].0) <= rank(rows[rows.len() - 1].0));
                }
            }
        }
        assert(keyed_by(now, keys)) by {
            assert forall|i: int| 0 <= i < now.len() implies keys.contains((#[trigger] now[i]).0) by {
                if i < rows.len() {
                    assert(now[i] == rows[i]);
                }
            }
        }
    }
}

proof fn lemma_piled_order(
    rows: Seq<KeyedView>,
    n: nat,
    keys: Set<Option<Tree>>,
    rank: spec_fn(Option<Tree>) -> int,
    descending: bool,
)
    requires
        ranked(keys, rank, descending),
        keyed_by(rows, keys),
        n <= rows.len(),
    ensures
        well_arranged(piled(rows, n, descending), rows.subrange(0, n as int), keys, rank),
    decreases n,
{
    if n > 0 {
        let m = (n - 1) as nat;
        lemma_piled_order(rows, m, keys, rank, descending);
        let before = piled(rows, m, descending);
        let x = rows[m as int];
        lemma_inserted_order(before, x, keys, rank, descending);
        let part = rows.subrange(0, n as int);
        assert(part.drop_last() =~= rows.subrange(0, m as int));
        assert(part.last() == x);
        assert(before.push(x).drop_last() =~= before);
        assert forall|r: int| #[trigger]
            of_rank(piled(rows, n, descending), rank, r) == of_rank(part, rank, r) by {
            assert(of_rank(piled(rows, n, descending), rank, r) == of_rank(
                before.push(x),
                rank,
                r,
            ));
            assert(of_rank(before, rank, r) == of_rank(rows.subrange(0, m as int), rank, r));
            assert(before.push(x).last() == x);
        }
    } else {
        assert(rows.subrange(0, 0) =~= Seq::empty());
    }
}

proof fn lemma_merged_order(
    a: Seq<KeyedView>,
    b: Seq<KeyedView>,
    keys: Set<Option<Tree>>,
    rank: spec_fn(Option<Tree>) -> int,
    descending: bool,
)
    requires
        ranked(keys, rank, descending),
        keyed_by(a, keys),
        keyed_by(b, keys),
        in_order(a, rank),
        in_order(b, rank),
    ensures
        well_arranged(merged(a, b, descending), a + b, keys, rank),
        forall|i: int|
            0 <= i < merged(a, b, descending).len() ==> (a.len() > 0 && rank(
                (#[trigger] merged(a, b, descending)[i]).0,
            ) <= rank(a.last().0)) || (b.len() > 0 && rank(merged(a, b, descending)[i].0) <= rank(
                b.last().0,
            )),
    decreases a.len() + b.len(), 1nat,
{
    let now = merged(a, b, descending);
    if a.len() == 0 {
        assert(a + b =~= b);
        assert forall|i: int| 0 <= i < b.len() implies rank((#[trigger] b[i]).0) <= rank(
            b.last().0,
        ) by {
            assert(b.last() == b[b.len() - 1]);
        }
    } else if b.len() == 0 {
        assert(a + b =~= a);
        assert forall|i: int| 0 <= i < a.len() implies rank((#[trigger] a[i]).0) <= rank(
            a.last().0,
        ) by {
            assert(a.last() == a[a.len() - 1]);
        }
    } else {
        assert(a.last() == a[a.len() - 1]);
        assert(b.last() == b[b.len() - 1]);
        assert(key_order(b.last().0, a.last().0, descending) == order_of(
            rank(b.last().0),
            rank(a.last().0),
        ));
        if precedes(b.last(), a.last(), descending) {
            assert(a.drop_last().push(a.last()) =~= a);
            lemma_merged_step(a.drop_last(), a.last(), b, true, keys, rank, descending);
        } else {
            assert(b.drop_last().push(b.last()) =~= b);
            lemma_merged_step(b.drop_last(), b.last(), a, false, keys, rank, descending);
        }
    }
}

/// One step of a merge, from the first list or from the second: `x` stands last
/// in its list behind `rest`, and in the whole.
proof fn lemma_merged_step(
    rest: Seq<KeyedView>,
    x: KeyedView,
    other: Seq<KeyedView>,
    from_first: bool,
    keys: Set<Option<Tree>>,
    rank: spec_fn(Option<Tree>) -> int,
    descending: bool,
)
    requires
        ranked(keys, rank, descending),
        keyed_by(rest.push(x), keys),
        keyed_by(other, keys),
        in_order(rest.push(x), rank),
        in_order(other, rank),
        other.len() > 0,
        from_first ==> rank(other.last().0) < rank(x.0),
        !from_first ==> rank(other.last().0) <= rank(x.0),
    ensures
        from_first ==> well_arranged(
            merged(rest, other, descending).push(x),
            rest.push(x) + other,
            keys,
            rank,
        ),
        !from_first ==> well_arranged(
            merged(other, rest, descending).push(x),
            other + rest.push(x),
            keys,
            rank,
        ),
        from_first ==> forall|i: int|
            0 <= i < merged(rest, other, descending).push(x).len() ==> rank(
                (#[trigger] merged(rest, other, descending).push(x)[i]).0,
            ) <= rank(x.0),
        !from_first ==> forall|i: int|
            0 <= i < merged(other, rest, descending).push(x).len() ==> rank(
                (#[trigger] merged(other, rest, descending).push(x)[i]).0,
            ) <= rank(x.0),
    decreases rest.len() + other.len(), 2nat,
{
    let mine = rest.push(x);
    assert forall|i: int| 0 <= i < rest.len() implies keys.contains((#[trigger] rest[i]).0) && rank(
        rest[i].0,
    ) <= rank(x.0) by {
        assert(rest[i] == mine[i]);
        assert(mine[rest.len() as int] == x);
    }
    assert(in_order(rest, rank)) by {
        assert forall|i: int, j: int| 0 <= i < j < rest.len() implies rank((#[trigger] rest[i]).0)
            <= rank((#[trigger] rest[j]).0) by {
            assert(rest[i] == mine[i] && rest[j] == mine[j]);
        }
    }
    assert(keys.contains(mine[rest.len() as int].0));
    let (a, b) = if from_first {
        (rest, other)
    } else {
        (other, rest)
    };
    lemma_merged_order(a, b, keys, rank, descending);
    let part = merged(a, b, descending);
    let now = part.push(x);
    let from = if from_first {
        rest.push(x) + other
    } else {
        other + rest.push(x)
    };
    if rest.len() > 0 {
        assert(rest.last() == rest[rest.len() - 1]);
    }
    assert forall|i: int| 0 <= i < part.len() implies rank((#[trigger] part[i]).0) <= rank(x.0) by {}
    assert(in_order(now, rank)) by {
        assert forall|i: int, j: int| 0 <= i < j < now.len() implies rank((#[trigger] now[i]).0)
            <= rank((#[trigger] now[j]).0) by {
            assert(now[i] == part[i]);
            if j < part.len() {
                assert(now[j] == part[j]);
            }
        }
    }
    assert(keyed_by(now, keys)) by {
        assert forall|i: int| 0 <= i < now.len() implies keys.contains((#[trigger] now[i]).0) by {
            if i < part.len() {
                assert(now[i] == part[i]);
            }
        }
    }
    assert forall|r: int| #[trigger] of_rank(now, rank, r) == of_rank(from, rank, r) by {
        lemma_of_rank_adds(a, b, rank, r);
        assert(of_rank(part, rank, r) == of_rank(a + b, rank, r));
        assert(now.drop_last() =~= part);
        assert(now.last() == x);
        assert(mine.drop_last() =~= rest);
        assert(mine.last() == x);
        if from_first {
            lemma_of_rank_adds(mine, other, rank, r);
            if rank(x.0) == r {
                assert forall|i: int| 0 <= i < other.len() implies rank((#[trigger] other[i]).0) != r by {
                    assert(other.last() == other[other.len() - 1]);
                }
                lemma_none_of_rank(other, rank, r);
            }
        } else {
            lemma_of_rank_adds(other, mine, rank, r);
        }
        assert(of_rank(now, rank, r) =~= of_rank(from, rank, r));
    }
}

/// Where the sort values of all rows can be compared and the comparisons agree
/// with one another, the rows end up in order, and rows that tie keep the order
/// they came in.
pub proof fn law_rows_end_up_in_order(
    rows: Seq<KeyedView>,
    keys: Set<Option<Tree>>,
    rank: spec_fn(Option<Tree>) -> int,
    descending: bool,
)
    requires
        ranked(keys, rank, descending),
        keyed_by(rows, keys),
    ensures
        in_order(arranged(rows, descending), rank),
        forall|r: int| #[trigger]
            of_rank(arranged(rows, descending), rank, r) == of_rank(rows, rank, r),
{
    lemma_arranged(rows, keys, rank, descending);
}

proof fn lemma_arranged(
    rows: Seq<KeyedView>,
    keys: Set<Option<Tree>>,
    rank: spec_fn(Option<Tree>) -> int,
    descending: bool,
)
    requires
        ranked(keys, rank, descending),
        keyed_by(rows, keys),
    ensures
        well_arranged(arranged(rows, descending), rows, keys, rank),
    decreases rows.len(),
{
    if rows.len() <= SHORT {
        lemma_piled_order(rows, rows.len(), keys, rank, descending);
        assert(rows.subrange(0, rows.len() as int) =~= rows);
    } else {
        let mid = rows.len() as int / 2;
        let a = rows.subrange(0, mid);
        let b = rows.subrange(mid, rows.len() as int);
        assert forall|i: int| 0 <= i < a.len() implies keys.contains((#[trigger] a[i]).0) by {
            assert(a[i] == rows[i]);
        }
        assert forall|i: int| 0 <= i < b.len() implies keys.contains((#[trigger] b[i]).0) by {
            assert(b[i] == rows[mid + i]);
        }
        lemma_arranged(a, keys, rank, descending);
        lemma_arranged(b, keys, rank, descending);
        let x = arranged(a, descending);
        let y = arranged(b, descending);
        lemma_merged_order(x, y, keys, rank, descending);
        assert(rows =~= a + b);
        assert forall|r: int| #[trigger]
            of_rank(arranged(rows, descending), rank, r) == of_rank(rows, rank, r) by {
            assert(of_rank(arranged(rows, descending), rank, r) == of_rank(x + y, rank, r));
            lemma_of_rank_adds(x, y, rank, r);
            lemma_of_rank_adds(a, b, rank, r);
            assert(of_rank(x, rank, r) == of_rank(a, rank, r));
            assert(of_rank(y, rank, r) == of_rank(b, rank, r));
        }
    }
}

/// The amount of a number.
pub open spec fn amount_of(key: Option<Tree>) -> int {
    match key {
        Some(Tree::Number(n)) => n.num().amount(),
        _ => 0,
    }
}

/// More than the amount of any number that rows are sorted on, either way.
spec fn beyond(rows: Seq<KeyedView>) -> int
    decreases rows.len(),
{
    if rows.len() == 0 {
        1
    } else {
        let a = amount_of(rows.last().0);
        beyond(rows.drop_last()) + (if a < 0 {
            -a
        } else {
            a
        })
    }
}

proof fn lemma_beyond(rows: Seq<KeyedView>)
    ensures
        beyond(rows) >= 1,
        forall|i: int|
            0 <= i < rows.len() ==> -beyond(rows) < amount_of((#[trigger] rows[i]).0) < beyond(rows),
    decreases rows.len(),
{
    if rows.len() > 0 {
        let rest = rows.drop_last();
        lemma_beyond(rest);
        assert forall|i: int| 0 <= i < rows.len() implies -beyond(rows) < amount_of(
            (#[trigger] rows[i]).0,
        ) < beyond(rows) by {
            if i < rest.len() {
                assert(rest[i] == rows[i]);
            } else {
                assert(rows[i] == rows.last());
            }
        }
    }
}

/// Rows whose sort values are numbers end up in the order of the numbers, rising
/// or falling, with those that lack one behind them.
pub proof fn law_numbers_end_up_in_order(rows: Seq<KeyedView>, descending: bool)
    requires
        forall|i: int|
            0 <= i < rows.len() ==> ((#[trigger] rows[i]).0 matches Some(t) ==> t is Number),
    ensures
        arranged(rows, descending).len() == rows.len(),
        forall|i: int, j: int|
            0 <= i < j < rows.len() && (#[trigger] arranged(rows, descending)[j]).0 is Some ==> {
                let a = amount_of((#[trigger] arranged(rows, descending)[i]).0);
                let b = amount_of(arranged(rows, descending)[j].0);
                &&& arranged(rows, descending)[i].0 is Some
                &&& if descending {
                    a >= b
                } else {
                    a <= b
                }
            },
{
    lemma_beyond(rows);
    let top = beyond(rows);
    let keys = Set::new(
        |k: Option<Tree>|
            (k matches Some(t) ==> t is Number) && -top < amount_of(k) < top,
    );
    let rank = |k: Option<Tree>|
        if k is None {
            top
        } else if descending {
            -amount_of(k)
        } else {
            amount_of(k)
        };
    assert forall|a: Option<Tree>, b: Option<Tree>|
        keys.contains(a) && keys.contains(b) implies #[trigger] key_order(a, b, descending)
        == order_of(rank(a), rank(b)) by {}
    law_rows_end_up_in_order(rows, keys, rank, descending);
    law_arranging_keeps_every_row(rows, descending);
    law_missing_rows_come_last(rows, descending);
}

} // verus!
