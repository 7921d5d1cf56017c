//! What holds of every value that a query meets: read from sound records, it is
//! sound. No name stands twice in a record, or in any object within it, from the
//! log line to the row that goes out.

use crate::arrange::{arranged, law_arranging_keeps_every_row, KeyedView};
use crate::ast::{
    grouped, Agg, Func, OrderByView, QueryView, SelectItemView, SelectionView, ValueExprView,
};
use crate::engine::{
    accepted, bare, finished, group_results, held, ordered, projected, projected_items, EngineView,
};
use crate::engine_laws::{after, output, sent};
use crate::eval::{applied, arg, call_value, first_present, value_of, values_of, Env};
use crate::group::{
    advanced, aggregates_of, covered, folded_in, fresh_states, group_from, group_row, group_rows,
    key_fields, keys_on, outcome, outcome_fields, plan_of, AggSpecView, GroupView, PlanView,
    StateView,
};
use crate::record::{follow, found_at};
use crate::value::{
    field, law_fields_of_a_sound_record_are_sound, law_write_keeps_a_record_sound, sound,
    sound_fields, sound_opt, Fields, Number, Tree,
};
use vstd::prelude::*;

verus! {

proof fn lemma_follow_sound(t: Tree, path: Seq<Seq<char>>, i: int)
    requires
        sound(t),
    ensures
        sound_opt(follow(t, path, i)),
    decreases path.len() - i,
{
    if 0 <= i < path.len() {
        match t {
            Tree::Object(fields) => {
                law_fields_of_a_sound_record_are_sound(fields, path[i]);
                match field(fields, path[i]) {
                    Some(x) => lemma_follow_sound(x, path, i + 1),
                    None => {},
                }
            },
            Tree::Array(items) => {
                match crate::record::index_in(path[i]) {
                    Some(n) => {
                        if n < items.len() {
                            lemma_follow_sound(items[n as int], path, i + 1);
                        }
                    },
                    None => {},
                }
            },
            _ => {},
        }
    }
}

/// What a path finds in a sound record is sound.
pub proof fn law_paths_find_sound_values(record: Fields, path: Seq<Seq<char>>)
    requires
        sound_fields(record),
    ensures
        sound_opt(found_at(record, path)),
{
    if path.len() > 0 {
        law_fields_of_a_sound_record_are_sound(record, path[0]);
        match field(record, path[0]) {
            Some(x) => lemma_follow_sound(x, path, 1),
            None => {},
        }
    }
}

/// Whether each value, where it is there, is sound.
pub open spec fn sound_values(values: Seq<Option<Tree>>) -> bool {
    forall|i: int| 0 <= i < values.len() ==> sound_opt(#[trigger] values[i])
}

proof fn lemma_first_sound(args: Seq<Option<Tree>>, i: int)
    requires
        sound_values(args),
        0 <= i,
    ensures
        sound_opt(first_present(args, i)),
    decreases args.len() - i,
{
    if i < args.len() {
        lemma_first_sound(args, i + 1);
        assert(sound_opt(args[i]));
    }
}

/// What a function makes of its arguments is a number, a text or a boolean.
proof fn lemma_applied_sound(func: Func, first: Tree, args: Seq<Option<Tree>>, env: Env)
    ensures
        sound_opt(applied(func, first, args, env)),
{
    match applied(func, first, args, env) {
        Some(t) => {
            assert(t is Null || t is Bool || t is Str || (t matches Tree::Number(Number::Float(x))
                && x.finite()));
        },
        None => {},
    }
}

proof fn lemma_call_sound(func: Func, args: Seq<Option<Tree>>, env: Env)
    requires
        sound_values(args),
    ensures
        sound_opt(call_value(func, args, env)),
{
    match func {
        Func::Now => {},
        Func::Coalesce => lemma_first_sound(args, 0),
        Func::Concat => {},
        _ => {
            match arg(args, 0) {
                Some(first) => lemma_applied_sound(func, first, args, env),
                None => {},
            }
        },
    }
}

proof fn lemma_values_sound(args: Seq<ValueExprView>, n: nat, record: Fields, env: Env)
    requires
        sound_fields(record),
        n <= args.len(),
    ensures
        sound_values(values_of(args, n, record, env)),
    decreases args, n,
{
    if n > 0 {
        lemma_values_sound(args, (n - 1) as nat, record, env);
        law_expressions_give_sound_values(args[n - 1], record, env);
    }
}

/// What an expression gives on a sound record is sound.
pub proof fn law_expressions_give_sound_values(e: ValueExprView, record: Fields, env: Env)
    requires
        sound_fields(record),
    ensures
        sound_opt(value_of(e, record, env)),
    decreases e, 0nat,
{
    match e {
        ValueExprView::Field(path) => {
            law_paths_find_sound_values(record, path.segments);
        },
        ValueExprView::Call { func, args } => {
            lemma_values_sound(args, args.len(), record, env);
            lemma_call_sound(func, values_of(args, args.len(), record, env), env);
        },
        ValueExprView::Agg { agg, arg } => {
            law_fields_of_a_sound_record_are_sound(record, crate::ast::expr_text(e));
        },
        _ => {},
    }
}

proof fn lemma_projected_sound(items: Seq<SelectItemView>, n: nat, record: Fields, env: Env)
    requires
        sound_fields(record),
    ensures
        sound_fields(projected_items(items, n, record, env)),
    decreases n,
{
    if 0 < n <= items.len() {
        lemma_projected_sound(items, (n - 1) as nat, record, env);
        law_expressions_give_sound_values(items[n - 1].value, record, env);
        match value_of(items[n - 1].value, record, env) {
            Some(v) => {
                law_write_keeps_a_record_sound(
                    projected_items(items, (n - 1) as nat, record, env),
                    items[n - 1].label,
                    v,
                );
            },
            None => {},
        }
    }
}

/// The row that a selection makes of a sound record is sound.
pub proof fn law_selected_rows_are_sound(select: SelectionView, record: Fields, env: Env)
    requires
        sound_fields(record),
    ensures
        sound_fields(projected(select, record, env)),
{
    match select {
        SelectionView::Items(items) => {
            lemma_projected_sound(items, items.len(), record, env);
        },
        SelectionView::All => {},
    }
}

/// Whether the value that a state keeps is sound.
pub open spec fn sound_state(state: StateView) -> bool {
    match state {
        StateView::Extreme(v) => sound_opt(v),
        StateView::Pick(v) => sound_opt(v),
        _ => true,
    }
}

/// Whether a group is sound: its keys are, and what its states keep.
pub open spec fn sound_group(group: GroupView) -> bool {
    &&& sound_values(group.keys)
    &&& forall|i: int| 0 <= i < group.states.len() ==> sound_state(#[trigger] group.states[i])
}

/// Whether each group is sound and has a value for each key and a state for each
/// aggregate.
pub open spec fn sound_groups(
    groups: Seq<GroupView>,
    keys: Seq<SelectItemView>,
    specs: Seq<AggSpecView>,
) -> bool {
    forall|g: int|
        0 <= g < groups.len() ==> sound_group(#[trigger] groups[g]) && groups[g].keys.len()
            == keys.len() && groups[g].states.len() == specs.len()
}

proof fn lemma_advanced_sound(
    states: Seq<StateView>,
    specs: Seq<AggSpecView>,
    record: Fields,
    env: Env,
)
    requires
        sound_fields(record),
        states.len() == specs.len(),
        forall|i: int| 0 <= i < states.len() ==> sound_state(#[trigger] states[i]),
    ensures
        forall|i: int|
            0 <= i < specs.len() ==> sound_state(
                #[trigger] advanced(states, specs, record, env)[i],
            ),
{
    assert forall|i: int| 0 <= i < specs.len() implies sound_state(
        #[trigger] advanced(states, specs, record, env)[i],
    ) by {
        assert(sound_state(states[i]));
        match specs[i].arg {
            Some(a) => law_expressions_give_sound_values(a, record, env),
            None => {},
        }
    }
}

proof fn lemma_found_group(groups: Seq<GroupView>, ident: Seq<char>, i: int)
    requires
        0 <= i,
    ensures
        group_from(groups, ident, i) matches Some(k) ==> i <= k < groups.len(),
    decreases groups.len() - i,
{
    if i < groups.len() {
        lemma_found_group(groups, ident, i + 1);
    }
}

/// Folding in a sound record keeps the groups sound.
pub proof fn law_folding_keeps_groups_sound(
    groups: Seq<GroupView>,
    keys: Seq<SelectItemView>,
    specs: Seq<AggSpecView>,
    record: Fields,
    env: Env,
)
    requires
        sound_groups(groups, keys, specs),
        sound_fields(record),
    ensures
        sound_groups(folded_in(groups, keys, specs, record, env), keys, specs),
{
    let found = keys_on(keys, record, env);
    let ident = crate::group::identity(found, found.len());
    lemma_found_group(groups, ident, 0);
    match group_from(groups, ident, 0) {
        Some(i) => {
            lemma_advanced_sound(groups[i].states, specs, record, env);
        },
        None => {
            assert forall|i: int| 0 <= i < found.len() implies sound_opt(#[trigger] found[i]) by {
                law_expressions_give_sound_values(keys[i].value, record, env);
            }
            lemma_advanced_sound(fresh_states(specs), specs, record, env);
        },
    }
}

proof fn lemma_keys_sound(keys: Seq<SelectItemView>, values: Seq<Option<Tree>>, n: nat)
    requires
        sound_values(values),
        n <= keys.len(),
        keys.len() == values.len(),
    ensures
        sound_fields(key_fields(keys, values, n)),
    decreases n,
{
    if n > 0 {
        let before = key_fields(keys, values, (n - 1) as nat);
        let text = crate::ast::expr_text(keys[n - 1].value);
        lemma_keys_sound(keys, values, (n - 1) as nat);
        assert(sound_opt(values[n - 1]));
        match values[n - 1] {
            Some(v) => {
                law_write_keeps_a_record_sound(before, text, v);
                law_write_keeps_a_record_sound(
                    crate::value::with_field(before, text, v),
                    keys[n - 1].label,
                    v,
                );
            },
            None => {},
        }
    }
}

proof fn lemma_outcomes_sound(
    before: Fields,
    specs: Seq<AggSpecView>,
    states: Seq<StateView>,
    n: nat,
)
    requires
        sound_fields(before),
        states.len() == specs.len(),
        n <= specs.len(),
        forall|i: int| 0 <= i < states.len() ==> sound_state(#[trigger] states[i]),
    ensures
        sound_fields(outcome_fields(before, specs, states, n)),
    decreases n,
{
    if n > 0 {
        lemma_outcomes_sound(before, specs, states, (n - 1) as nat);
        assert(sound_state(states[n - 1]));
        match outcome(states[n - 1], specs[n - 1].agg) {
            Some(v) => {
                law_write_keeps_a_record_sound(
                    outcome_fields(before, specs, states, (n - 1) as nat),
                    specs[n - 1].key,
                    v,
                );
            },
            None => {},
        }
    }
}

/// The row of a sound group is sound.
pub proof fn law_grouped_rows_are_sound(
    keys: Seq<SelectItemView>,
    specs: Seq<AggSpecView>,
    group: GroupView,
)
    requires
        sound_group(group),
        group.keys.len() == keys.len(),
        group.states.len() == specs.len(),
    ensures
        sound_fields(group_row(keys, specs, group)),
{
    lemma_keys_sound(keys, group.keys, keys.len());
    lemma_outcomes_sound(
        key_fields(keys, group.keys, keys.len()),
        specs,
        group.states,
        specs.len(),
    );
}

/// Whether each row is sound.
pub open spec fn sound_rows(rows: Seq<Fields>) -> bool {
    forall|i: int| 0 <= i < rows.len() ==> sound_fields(#[trigger] rows[i])
}

/// Whether each row that is kept for sorting is sound.
pub open spec fn sound_keyed(rows: Seq<KeyedView>) -> bool {
    forall|i: int| 0 <= i < rows.len() ==> sound_fields((#[trigger] rows[i]).1)
}

/// Whether what an engine holds is sound.
pub open spec fn sound_engine(q: QueryView, s: EngineView) -> bool {
    sound_keyed(s.buffer) && sound_groups(s.groups, q.group_by, aggregates_of(q))
}

/// An engine keeps what it holds sound as it takes in a sound record, and the row
/// that it sends is sound.
pub proof fn law_engines_stay_sound(q: QueryView, s: EngineView, record: Fields, env: Env)
    requires
        sound_engine(q, s),
        sound_fields(record),
    ensures
        sound_engine(q, accepted(q, s, record, env).0),
        accepted(q, s, record, env).1 matches Some(row) ==> sound_fields(row),
{
    law_selected_rows_are_sound(q.select, record, env);
    law_folding_keeps_groups_sound(s.groups, q.group_by, aggregates_of(q), record, env);
}

proof fn lemma_results_sound(plan: PlanView, rows: Seq<Fields>, n: nat, env: Env)
    requires
        sound_rows(rows),
    ensures
        sound_keyed(group_results(plan, rows, n, env)),
    decreases n,
{
    if 0 < n <= rows.len() {
        lemma_results_sound(plan, rows, (n - 1) as nat, env);
        assert(sound_fields(rows[n - 1]));
        law_selected_rows_are_sound(plan.select, rows[n - 1], env);
    }
}

proof fn lemma_ordered_sound(order: Option<OrderByView>, rows: Seq<KeyedView>)
    requires
        sound_keyed(rows),
    ensures
        sound_keyed(ordered(order, rows)),
{
    match order {
        Some(o) => {
            let now = arranged(rows, o.descending);
            law_arranging_keeps_every_row(rows, o.descending);
            assert forall|i: int| 0 <= i < now.len() implies sound_fields(
                (#[trigger] now[i]).1,
            ) by {
                vstd::seq_lib::to_multiset_contains(now, now[i]);
                vstd::seq_lib::to_multiset_contains(rows, now[i]);
                let k = choose|k: int| 0 <= k < rows.len() && rows[k] == now[i];
                assert(sound_fields(rows[k].1));
            }
        },
        None => {},
    }
}

/// The rows that an engine gives in the end are sound where what it holds is.
pub proof fn law_last_rows_are_sound(q: QueryView, s: EngineView, env: Env)
    requires
        sound_engine(q, s),
    ensures
        sound_rows(finished(q, s, env)),
{
    if grouped(q) {
        let specs = aggregates_of(q);
        let groups = covered(q.group_by, specs, s.groups);
        let rows = group_rows(q.group_by, specs, groups);
        assert forall|i: int| 0 <= i < rows.len() implies sound_fields(#[trigger] rows[i]) by {
            law_grouped_rows_are_sound(q.group_by, specs, groups[i]);
        }
        lemma_results_sound(plan_of(q), rows, groups.len(), env);
    }
    lemma_ordered_sound(q.order_by, held(q, s, env));
    let all = bare(ordered(q.order_by, held(q, s, env)));
    assert forall|i: int| 0 <= i < all.len() implies sound_fields(#[trigger] all[i]) by {
        assert(sound_fields(ordered(q.order_by, held(q, s, env))[i].1));
    }
}

proof fn lemma_after_sound(q: QueryView, seen: Seq<(Fields, Env)>, n: nat)
    requires
        n <= seen.len(),
        forall|i: int| 0 <= i < seen.len() ==> sound_fields((#[trigger] seen[i]).0),
    ensures
        sound_engine(q, after(q, seen, n)),
        sound_rows(sent(q, seen, n)),
    decreases n,
{
    if n > 0 {
        lemma_after_sound(q, seen, (n - 1) as nat);
        assert(sound_fields(seen[n - 1].0));
        law_engines_stay_sound(
            q,
            after(q, seen, (n - 1) as nat),
            seen[n - 1].0,
            seen[n - 1].1,
        );
    }
}

/// Every row that a query gives on sound records is sound: no name stands twice in
/// it, nor in any object within it.
pub proof fn law_every_row_is_sound(q: QueryView, seen: Seq<(Fields, Env)>, env: Env)
    requires
        forall|i: int| 0 <= i < seen.len() ==> sound_fields((#[trigger] seen[i]).0),
    ensures
        sound_rows(output(q, seen, env)),
{
    lemma_after_sound(q, seen, seen.len());
    law_last_rows_are_sound(q, after(q, seen, seen.len()), env);
}

} // verus!
