//! What holds of the rows that a query gives: what is kept of them, how they are
//! limited, and what they are sorted on.

use crate::arrange::KeyedView;
use crate::ast::{grouped, ExprView, QueryView, SelectionView};
use crate::engine::{group_result, group_results, passes, projected, with_labels};
use crate::engine_laws::{
    groups_made, keyed_rows_of, law_a_stream_gives_the_first_rows,
    law_groups_are_made_of_what_passes, law_order_comes_before_limit, output, passing, rows_of,
};
use crate::eval::{holds, Env};
use crate::group::{aggregates_of, plan_of, PlanView};
use crate::value::{field, field_from, law_read_gives_back_write, Fields, Tree};
use vstd::prelude::*;

verus! {

/// A record passes where the condition of the query holds of it, and any does where
/// there is none.
pub proof fn law_records_pass_where_the_condition_holds(
    q: QueryView,
    e: ExprView,
    record: Fields,
    env: Env,
)
    ensures
        q.filter == Some(e) ==> passes(q, record, env) == holds(e, record, env),
        q.filter is None ==> passes(q, record, env),
        projected(SelectionView::All, record, env) == record,
{
}

proof fn lemma_passing_alike(a: QueryView, b: QueryView, seen: Seq<(Fields, Env)>, n: nat)
    requires
        a.filter == b.filter,
    ensures
        passing(a, seen, n) == passing(b, seen, n),
    decreases n,
{
    if n > 0 && n <= seen.len() {
        lemma_passing_alike(a, b, seen, (n - 1) as nat);
    }
}

/// A limit keeps the first rows of those that would come without it, and all of them
/// where they are no more.
pub proof fn law_a_limit_keeps_the_first_rows(
    q: QueryView,
    seen: Seq<(Fields, Env)>,
    env: Env,
    n: usize,
)
    requires
        q.limit == Some(n),
    ensures
        ({
            let all = output(QueryView { limit: None, ..q }, seen, env);
            output(q, seen, env) == (if n < all.len() {
                all.take(n as int)
            } else {
                all
            })
        }),
{
    let u = QueryView { limit: None, ..q };
    lemma_passing_alike(q, u, seen, seen.len());
    let kept = passing(q, seen, seen.len());
    assert(grouped(q) == grouped(u));
    if grouped(q) {
        law_groups_are_made_of_what_passes(q, seen, env);
        law_groups_are_made_of_what_passes(u, seen, env);
        assert(plan_of(q) == plan_of(u));
        assert(aggregates_of(q) == aggregates_of(u));
        assert(groups_made(q, seen) == groups_made(u, seen));
    } else if q.order_by is Some {
        law_order_comes_before_limit(q, seen, env);
        law_order_comes_before_limit(u, seen, env);
        assert(keyed_rows_of(q, kept) =~= keyed_rows_of(u, kept));
    } else {
        law_a_stream_gives_the_first_rows(q, seen, env);
        law_a_stream_gives_the_first_rows(u, seen, env);
        assert(rows_of(q, kept) =~= rows_of(u, kept));
    }
    let all = output(u, seen, env);
    if n < all.len() {
        assert(all.subrange(0, n as int) =~= all.take(n as int));
    }
}

/// Whether the condition on groups holds of a folded row.
pub open spec fn group_kept(plan: PlanView, row: Fields, env: Env) -> bool {
    match plan.having {
        Some(e) => holds(e, row, env),
        None => true,
    }
}

/// The groups that stay are those of which the condition on groups holds, in their
/// order, and each gives its row.
pub proof fn law_having_keeps_the_groups_it_holds_of(plan: PlanView, rows: Seq<Fields>, env: Env)
    ensures
        group_results(plan, rows, rows.len(), env) == rows.filter(
            |r: Fields| group_kept(plan, r, env),
        ).map_values(|r: Fields| group_result(plan, r, env)),
{
    lemma_kept(plan, rows, rows.len(), env);
    assert(rows.take(rows.len() as int) =~= rows);
}

proof fn lemma_kept(plan: PlanView, rows: Seq<Fields>, n: nat, env: Env)
    requires
        n <= rows.len(),
    ensures
        group_results(plan, rows, n, env) == rows.take(n as int).filter(
            |r: Fields| group_kept(plan, r, env),
        ).map_values(|r: Fields| group_result(plan, r, env)),
    decreases n,
{
    let pred = |r: Fields| group_kept(plan, r, env);
    let make = |r: Fields| group_result(plan, r, env);
    let part = rows.take(n as int);
    reveal(Seq::filter);
    if n == 0 {
        assert(part.filter(pred).map_values(make) =~= Seq::<KeyedView>::empty());
    } else {
        let before = rows.take(n - 1);
        lemma_kept(plan, rows, (n - 1) as nat, env);
        assert(part.drop_last() =~= before);
        assert(part.last() == rows[n - 1]);
        let row = rows[n - 1];
        if pred(row) {
            assert(part.filter(pred) == before.filter(pred).push(row));
            assert(before.filter(pred).push(row).map_values(make) =~= before.filter(
                pred,
            ).map_values(make).push(make(row)));
        } else {
            assert(part.filter(pred) == before.filter(pred));
        }
    }
}

proof fn lemma_field_pushed(
    fields: Fields,
    key: Seq<char>,
    x: (Seq<char>, Tree),
    i: nat,
)
    requires
        i <= fields.len(),
    ensures
        field_from(fields.push(x), key, i as int) == (match field_from(fields, key, i as int) {
            Some(j) => Some(j),
            None => if x.0 == key {
                Some(fields.len() as int)
            } else {
                None
            },
        }),
        field_from(fields, key, i as int) matches Some(j) ==> 0 <= j < fields.len(),
    decreases fields.len() - i,
{
    let more = fields.push(x);
    if i < fields.len() {
        assert(more[i as int] == fields[i as int]);
        lemma_field_pushed(fields, key, x, i + 1);
    } else {
        assert(more[i as int] == x);
        assert(field_from(more, key, i as int + 1) is None);
    }
}

proof fn lemma_labels(row: Fields, out: Fields, n: nat, name: Seq<char>)
    requires
        n <= out.len(),
    ensures
        field(with_labels(row, out, n), name) == (if field(row, name) is Some {
            field(row, name)
        } else {
            field(out.take(n as int), name)
        }),
    decreases n,
{
    if n > 0 {
        lemma_labels(row, out, (n - 1) as nat, name);
        let x = out[n - 1];
        let before = with_labels(row, out, (n - 1) as nat);
        lemma_labels(row, out, (n - 1) as nat, x.0);
        let part = out.take(n - 1);
        assert(out.take(n as int) =~= part.push(x));
        lemma_field_pushed(part, name, x, 0);
        lemma_field_pushed(part, x.0, x, 0);
        law_read_gives_back_write(before, x.0, x.1, name);
    } else {
        assert(out.take(0).len() == 0);
    }
}

/// The rows of groups can be sorted on what a group folds to and, by its label, on what
/// was selected; of one name the first counts.
pub proof fn law_groups_are_sorted_on_fields_or_labels(row: Fields, out: Fields, name: Seq<char>)
    ensures
        field(with_labels(row, out, out.len()), name) == (if field(row, name) is Some {
            field(row, name)
        } else {
            field(out, name)
        }),
{
    lemma_labels(row, out, out.len(), name);
    assert(out.take(out.len() as int) =~= out);
}

} // verus!
