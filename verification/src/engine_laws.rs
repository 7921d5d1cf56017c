//! What holds of every run of a query: which rows go out, how many, and in which
//! order.

use crate::arrange::{arranged, law_arranging_keeps_every_row, KeyedView};
use crate::ast::{grouped, QueryView, SelectItemView};
use crate::engine::{
    accepted, bare, capped, done, finished, group_results, ordered, passes, projected,
    projected_items, sort_value, started, streams, EngineView,
};
use crate::eval::{value_of, Env};
use crate::group::{aggregates_of, covered, fresh_states, group_rows, plan_of, GroupView};
use crate::group_laws::{folded, law_without_keys_there_is_one_group, states_over};
use crate::value::{field, law_read_gives_back_write, Fields};
use vstd::prelude::*;

verus! {

/// An engine behind the first `n` of a row of records.
pub open spec fn after(q: QueryView, seen: Seq<(Fields, Env)>, n: nat) -> EngineView
    decreases n,
{
    if n == 0 || n > seen.len() {
        started(q)
    } else {
        accepted(q, after(q, seen, (n - 1) as nat), seen[n - 1].0, seen[n - 1].1).0
    }
}

/// The rows that went out with the first `n` of a row of records.
pub open spec fn sent(q: QueryView, seen: Seq<(Fields, Env)>, n: nat) -> Seq<Fields>
    decreases n,
{
    if n == 0 || n > seen.len() {
        Seq::empty()
    } else {
        let before = sent(q, seen, (n - 1) as nat);
        match accepted(q, after(q, seen, (n - 1) as nat), seen[n - 1].0, seen[n - 1].1).1 {
            Some(row) => before.push(row),
            None => before,
        }
    }
}

/// All rows of a run: those that went out as records arrived, then the others.
pub open spec fn output(q: QueryView, seen: Seq<(Fields, Env)>, env: Env) -> Seq<Fields> {
    sent(q, seen, seen.len()) + finished(q, after(q, seen, seen.len()), env)
}

/// Those of the first `n` records that pass the filter.
pub open spec fn passing(q: QueryView, seen: Seq<(Fields, Env)>, n: nat) -> Seq<(Fields, Env)>
    decreases n,
{
    if n == 0 || n > seen.len() {
        Seq::empty()
    } else {
        let before = passing(q, seen, (n - 1) as nat);
        if passes(q, seen[n - 1].0, seen[n - 1].1) {
            before.push(seen[n - 1])
        } else {
            before
        }
    }
}

/// The rows of records.
pub open spec fn rows_of(q: QueryView, records: Seq<(Fields, Env)>) -> Seq<Fields> {
    Seq::new(records.len(), |i: int| projected(q.select, records[i].0, records[i].1))
}

/// The rows of records, each with the value it is sorted on.
pub open spec fn keyed_rows_of(q: QueryView, records: Seq<(Fields, Env)>) -> Seq<KeyedView> {
    Seq::new(
        records.len(),
        |i: int|
            (
                sort_value(q.order_by, records[i].0, records[i].1),
                projected(q.select, records[i].0, records[i].1),
            ),
    )
}

proof fn lemma_streamed(q: QueryView, seen: Seq<(Fields, Env)>, n: nat)
    requires
        streams(q),
        n <= seen.len(),
    ensures
        sent(q, seen, n) == capped(q.limit, rows_of(q, passing(q, seen, n))),
        match q.limit {
            Some(limit) => after(q, seen, n).remaining == Some(
                (limit - sent(q, seen, n).len()) as usize,
            ) && sent(q, seen, n).len() <= limit,
            None => after(q, seen, n).remaining is None,
        },
    decreases n,
{
    if n > 0 {
        let m = (n - 1) as nat;
        lemma_streamed(q, seen, m);
        let r = seen[m as int];
        let before = rows_of(q, passing(q, seen, m));
        if passes(q, r.0, r.1) {
            assert(rows_of(q, passing(q, seen, n)) =~= before.push(projected(q.select, r.0, r.1)));
        }
        assert(sent(q, seen, n) =~= capped(q.limit, rows_of(q, passing(q, seen, n))));
    } else {
        assert(rows_of(q, passing(q, seen, 0)) =~= Seq::empty());
        assert(sent(q, seen, 0) =~= capped(q.limit, rows_of(q, passing(q, seen, 0))));
    }
}

/// Without `order by` and `group by` the output is the rows of the records that
/// pass the filter, in their order, as many as the limit allows, and each goes
/// out as its record arrives.
pub proof fn law_a_stream_gives_the_first_rows(q: QueryView, seen: Seq<(Fields, Env)>, env: Env)
    requires
        streams(q),
    ensures
        sent(q, seen, seen.len()) == capped(q.limit, rows_of(q, passing(q, seen, seen.len()))),
        output(q, seen, env) == sent(q, seen, seen.len()),
{
    lemma_streamed(q, seen, seen.len());
    assert(output(q, seen, env) =~= sent(q, seen, seen.len()));
}

/// An engine that says it is done has sent as many rows as the limit allows, and
/// nothing changes it any more.
pub proof fn law_a_done_engine_needs_no_more_input(
    q: QueryView,
    seen: Seq<(Fields, Env)>,
    record: Fields,
    env: Env,
)
    requires
        done(q, after(q, seen, seen.len())),
    ensures
        q.limit == Some(sent(q, seen, seen.len()).len() as usize),
        accepted(q, after(q, seen, seen.len()), record, env) == (
            after(q, seen, seen.len()),
            None::<Fields>,
        ),
{
    lemma_streamed(q, seen, seen.len());
}

/// Without `order by` and `group by` an engine is done as soon as it has sent as
/// many rows as the limit allows: what comes behind need not be read.
pub proof fn law_a_stream_stops_at_its_limit(q: QueryView, seen: Seq<(Fields, Env)>)
    requires
        streams(q),
    ensures
        done(q, after(q, seen, seen.len())) <==> (q.limit matches Some(n) && sent(
            q,
            seen,
            seen.len(),
        ).len() == n),
{
    lemma_streamed(q, seen, seen.len());
}

proof fn lemma_held(q: QueryView, seen: Seq<(Fields, Env)>, n: nat)
    requires
        !streams(q),
        n <= seen.len(),
    ensures
        sent(q, seen, n) == Seq::<Fields>::empty(),
        grouped(q) ==> after(q, seen, n).groups == folded(
            q.group_by,
            aggregates_of(q),
            passing(q, seen, n),
            passing(q, seen, n).len(),
        ),
        !grouped(q) ==> after(q, seen, n).buffer == keyed_rows_of(q, passing(q, seen, n)),
    decreases n,
{
    if n > 0 {
        let m = (n - 1) as nat;
        lemma_held(q, seen, m);
        let r = seen[m as int];
        let before = passing(q, seen, m);
        if passes(q, r.0, r.1) {
            assert(passing(q, seen, n) == before.push(r));
            if grouped(q) {
                lemma_folded_prefix(q, before, before.push(r), before.len());
            } else {
                assert(keyed_rows_of(q, before.push(r)) =~= keyed_rows_of(q, before).push(
                    (sort_value(q.order_by, r.0, r.1), projected(q.select, r.0, r.1)),
                ));
            }
        }
    } else {
        assert(keyed_rows_of(q, passing(q, seen, 0)) =~= Seq::empty());
    }
}

/// What records make of groups does not depend on those behind them.
proof fn lemma_folded_prefix(q: QueryView, a: Seq<(Fields, Env)>, b: Seq<(Fields, Env)>, n: nat)
    requires
        n <= a.len() <= b.len(),
        forall|i: int| 0 <= i < n ==> a[i] == b[i],
    ensures
        folded(q.group_by, aggregates_of(q), a, n) == folded(q.group_by, aggregates_of(q), b, n),
    decreases n,
{
    if n > 0 {
        lemma_folded_prefix(q, a, b, (n - 1) as nat);
    }
}

/// With `order by` and without grouping, the output is the rows of all records
/// that pass the filter, sorted, and then as many of them as the limit allows.
pub proof fn law_order_comes_before_limit(q: QueryView, seen: Seq<(Fields, Env)>, env: Env)
    requires
        !grouped(q),
        q.order_by is Some,
    ensures
        output(q, seen, env) == capped(
            q.limit,
            bare(
                arranged(
                    keyed_rows_of(q, passing(q, seen, seen.len())),
                    q.order_by->0.descending,
                ),
            ),
        ),
{
    lemma_held(q, seen, seen.len());
    assert(output(q, seen, env) =~= finished(q, after(q, seen, seen.len()), env));
}

/// The groups that a query makes of the records that pass its filter.
pub open spec fn groups_made(q: QueryView, seen: Seq<(Fields, Env)>) -> Seq<GroupView> {
    let rows = passing(q, seen, seen.len());
    covered(
        q.group_by,
        aggregates_of(q),
        folded(q.group_by, aggregates_of(q), rows, rows.len()),
    )
}

/// A grouped query filters records first, folds those that pass, and then sorts
/// and limits the rows that `having` keeps.
pub proof fn law_groups_are_made_of_what_passes(q: QueryView, seen: Seq<(Fields, Env)>, env: Env)
    requires
        grouped(q),
    ensures
        output(q, seen, env) == capped(
            q.limit,
            bare(
                ordered(
                    q.order_by,
                    group_results(
                        plan_of(q),
                        group_rows(q.group_by, aggregates_of(q), groups_made(q, seen)),
                        groups_made(q, seen).len(),
                        env,
                    ),
                ),
            ),
        ),
{
    lemma_held(q, seen, seen.len());
    assert(output(q, seen, env) =~= finished(q, after(q, seen, seen.len()), env));
}

/// A query that mentions an aggregate without `group by` folds the whole input,
/// as far as it passes the filter, to a single row.
pub proof fn law_without_group_by_there_is_one_row(q: QueryView, seen: Seq<(Fields, Env)>, env: Env)
    requires
        grouped(q),
        q.group_by.len() == 0,
    ensures
        groups_made(q, seen) == seq![
            GroupView {
                keys: Seq::empty(),
                states: states_over(aggregates_of(q), passing(q, seen, seen.len())),
            },
        ],
        q.having is None && q.limit is None ==> output(q, seen, env).len() == 1,
{
    let rows = passing(q, seen, seen.len());
    assert(q.group_by =~= Seq::empty());
    law_without_keys_there_is_one_group(aggregates_of(q), rows);
    if rows.len() == 0 {
        assert(states_over(aggregates_of(q), rows) =~= fresh_states(aggregates_of(q)));
    }
    law_groups_are_made_of_what_passes(q, seen, env);
    if q.having is None && q.limit is None {
        let made = group_rows(q.group_by, aggregates_of(q), groups_made(q, seen));
        let results = group_results(plan_of(q), made, 1, env);
        assert(plan_of(q).having is None);
        reveal_with_fuel(group_results, 2);
        assert(results.len() == 1);
        if let Some(o) = q.order_by {
            law_arranging_keeps_every_row(results, o.descending);
        }
    }
}

/// No query gives more rows than its limit.
pub proof fn law_the_limit_caps_the_output(q: QueryView, seen: Seq<(Fields, Env)>, env: Env)
    ensures
        q.limit matches Some(n) ==> output(q, seen, env).len() <= n,
{
    if streams(q) {
        law_a_stream_gives_the_first_rows(q, seen, env);
    } else {
        lemma_held(q, seen, seen.len());
    }
}

/// Whether no label stands twice in a select list.
pub open spec fn distinct_labels(items: Seq<SelectItemView>) -> bool {
    forall|i: int, j: int|
        0 <= i < j < items.len() ==> (#[trigger] items[i]).label != (#[trigger] items[j]).label
}

proof fn lemma_projected(items: Seq<SelectItemView>, n: nat, record: Fields, env: Env, i: int)
    requires
        n <= items.len(),
        0 <= i < items.len(),
        distinct_labels(items),
    ensures
        field(projected_items(items, n, record, env), items[i].label) == (if i < n {
            value_of(items[i].value, record, env)
        } else {
            None
        }),
    decreases n,
{
    if n > 0 {
        let m = (n - 1) as nat;
        lemma_projected(items, m, record, env, i);
        if m != i {
            assert(items[m as int].label != items[i].label);
        }
        if let Some(v) = value_of(items[m as int].value, record, env) {
            law_read_gives_back_write(
                projected_items(items, m, record, env),
                items[m as int].label,
                v,
                items[i].label,
            );
        }
    }
}

/// A row has under each label what was selected under it, and lacks what the
/// record does not have.
pub proof fn law_a_row_holds_what_was_selected(
    items: Seq<SelectItemView>,
    record: Fields,
    env: Env,
    i: int,
)
    requires
        0 <= i < items.len(),
        distinct_labels(items),
    ensures
        field(projected_items(items, items.len(), record, env), items[i].label) == value_of(
            items[i].value,
            record,
            env,
        ),
{
    lemma_projected(items, items.len(), record, env, i);
}

/// Where the names of a row stand in a select list.
spec fn places(items: Seq<SelectItemView>, n: nat, record: Fields, env: Env) -> Seq<int>
    decreases n,
{
    if n == 0 || n > items.len() {
        Seq::empty()
    } else {
        let before = places(items, (n - 1) as nat, record, env);
        if value_of(items[n - 1].value, record, env) is Some {
            before.push(n - 1)
        } else {
            before
        }
    }
}

proof fn lemma_places(items: Seq<SelectItemView>, n: nat, record: Fields, env: Env)
    requires
        n <= items.len(),
        distinct_labels(items),
    ensures
        places(items, n, record, env).len() == projected_items(items, n, record, env).len(),
        forall|k: int|
            0 <= k < places(items, n, record, env).len() ==> 0 <= #[trigger] places(
                items,
                n,
                record,
                env,
            )[k] < n && projected_items(items, n, record, env)[k].0 == items[places(
                items,
                n,
                record,
                env,
            )[k]].label,
        forall|k: int, l: int|
            0 <= k < l < places(items, n, record, env).len() ==> #[trigger] places(
                items,
                n,
                record,
                env,
            )[k] < #[trigger] places(items, n, record, env)[l],
    decreases n,
{
    if n > 0 {
        let m = (n - 1) as nat;
        lemma_places(items, m, record, env);
        lemma_projected(items, m, record, env, m as int);
    }
}

/// The fields of a row stand in the order in which they were selected.
pub proof fn law_a_row_keeps_the_order_of_the_select_list(
    items: Seq<SelectItemView>,
    record: Fields,
    env: Env,
    i: int,
    j: int,
    k: int,
    l: int,
)
    requires
        distinct_labels(items),
        0 <= i < items.len(),
        0 <= j < items.len(),
        0 <= k < projected_items(items, items.len(), record, env).len(),
        0 <= l < projected_items(items, items.len(), record, env).len(),
        projected_items(items, items.len(), record, env)[k].0 == items[i].label,
        projected_items(items, items.len(), record, env)[l].0 == items[j].label,
    ensures
        k < l <==> i < j,
{
    lemma_places(items, items.len(), record, env);
    let p = places(items, items.len(), record, env);
    assert(items[p[k]].label == items[i].label);
    assert(items[p[l]].label == items[j].label);
    assert(p[k] == i) by {
        if p[k] < i {
            assert(items[p[k]].label != items[i].label);
        } else if i < p[k] {
            assert(items[i].label != items[p[k]].label);
        }
    }
    assert(p[l] == j) by {
        if p[l] < j {
            assert(items[p[l]].label != items[j].label);
        } else if j < p[l] {
            assert(items[j].label != items[p[l]].label);
        }
    }
    if k < l {
        assert(p[k] < p[l]);
    } else if l < k {
        assert(p[l] < p[k]);
    }
}

} // verus!
