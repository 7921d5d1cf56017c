//! What holds of every grouping: which records share a group, in which order the
//! groups stand, what their aggregates have seen, and what their rows say.

use crate::ast::{
    aggregate_in, expr_text, same_expr, Agg, ExprView, QueryView, SelectItemView, SelectionView,
    ValueExprView,
};
use crate::big::Order;
use crate::eval::{number_of, tree_order, value_of, values_of, Env};
use crate::group::{
    advanced, aggregates_of, column, folded_in, fresh, fresh_states, group_from, group_row,
    group_rows, identity, key_fields, key_from, key_mark, keys_on, listed, narrowed, outcome,
    outcome_fields, pushed, rewritten, rewritten_args, select_aggregates, taken, with_args,
    with_condition, with_value, AggSpecView, GroupView, StateView,
};
use crate::json::{json_text, law_json_stays_on_one_line, law_quotes_mark_strings};
use crate::json_laws::law_values_are_told_apart;
use crate::num::{ratio, sum, whole_int, Num};
use crate::parser::{all_grounded, grounded};
use crate::record::{follow, found_at};
use crate::sound_laws::law_expressions_give_sound_values;
use crate::value::{
    field, law_read_gives_back_write, sound_fields, sound_opt, with_field, Fields, Number, Tree,
};
use vstd::prelude::*;

verus! {

/// A key as far as groups are told apart by it: missing, or its JSON text.
pub open spec fn key_text(key: Option<Tree>) -> Option<Seq<char>> {
    match key {
        None => None,
        Some(t) => Some(json_text(t)),
    }
}

proof fn lemma_mark_ends(a: Seq<char>, x: Option<Tree>, b: Seq<char>, y: Option<Tree>)
    requires
        a + key_mark(x) == b + key_mark(y),
    ensures
        key_mark(x).len() >= key_mark(y).len(),
{
    let s = a + key_mark(x);
    if key_mark(x).len() < key_mark(y).len() {
        match y {
            Some(t) => {
                law_json_stays_on_one_line(t);
                let at = a.len() - b.len() - 1;
                assert(s.len() == b.len() + key_mark(y).len());
                assert(key_mark(x).len() >= 2);
                assert(key_mark(y).len() == json_text(t).len() + 2);
                assert(s[a.len() as int] == key_mark(x)[0]);
                assert((b + key_mark(y))[a.len() as int] == json_text(t)[at]);
                assert(' ' <= json_text(t)[at]);
            },
            None => {},
        }
    }
}

proof fn lemma_mark(a: Seq<char>, x: Option<Tree>, b: Seq<char>, y: Option<Tree>)
    requires
        a + key_mark(x) == b + key_mark(y),
    ensures
        a == b,
        key_text(x) == key_text(y),
{
    lemma_mark_ends(a, x, b, y);
    lemma_mark_ends(b, y, a, x);
    let s = a + key_mark(x);
    let m = key_mark(x).len();
    assert(a =~= s.subrange(0, s.len() - m));
    assert(b =~= (b + key_mark(y)).subrange(0, s.len() - m));
    assert(key_mark(x) =~= s.subrange(s.len() - m, s.len() as int));
    assert(key_mark(y) =~= (b + key_mark(y)).subrange(s.len() - m, s.len() as int));
    match (x, y) {
        (Some(t), Some(u)) => {
            assert(json_text(t) =~= key_mark(x).subrange(1, m - 1));
            assert(json_text(u) =~= key_mark(y).subrange(1, m - 1));
        },
        (Some(_), None) => {
            assert(key_mark(x)[0] != key_mark(y)[0]);
        },
        (None, Some(_)) => {
            assert(key_mark(x)[0] != key_mark(y)[0]);
        },
        _ => {},
    }
}

proof fn lemma_identity(a: Seq<Option<Tree>>, b: Seq<Option<Tree>>, n: nat)
    requires
        a.len() == b.len(),
        n <= a.len(),
    ensures
        identity(a, n) == identity(b, n) <==> forall|i: int|
            0 <= i < n ==> key_text(#[trigger] a[i]) == key_text(b[i]),
    decreases n,
{
    if n > 0 {
        let m = (n - 1) as nat;
        lemma_identity(a, b, m);
        if identity(a, n) == identity(b, n) {
            lemma_mark(identity(a, m), a[m as int], identity(b, m), b[m as int]);
        }
        if forall|i: int| 0 <= i < n ==> key_text(#[trigger] a[i]) == key_text(b[i]) {
            assert(key_text(a[m as int]) == key_text(b[m as int]));
            assert(key_mark(a[m as int]) == key_mark(b[m as int]));
        }
    }
}

/// Records share a group where each of their keys reads the same, and only there.
pub proof fn law_groups_are_told_apart_by_their_keys(a: Seq<Option<Tree>>, b: Seq<Option<Tree>>)
    requires
        a.len() == b.len(),
    ensures
        identity(a, a.len()) == identity(b, b.len()) <==> forall|i: int|
            0 <= i < a.len() ==> key_text(#[trigger] a[i]) == key_text(b[i]),
{
    lemma_identity(a, b, a.len());
}

/// Records share a group exactly where their keys are the same values, or are
/// missing alike: different keys never share one.
pub proof fn law_equal_keys_share_a_group(a: Seq<Option<Tree>>, b: Seq<Option<Tree>>)
    requires
        a.len() == b.len(),
        forall|i: int| 0 <= i < a.len() ==> sound_opt(#[trigger] a[i]),
        forall|i: int| 0 <= i < b.len() ==> sound_opt(#[trigger] b[i]),
    ensures
        identity(a, a.len()) == identity(b, b.len()) <==> a == b,
{
    law_groups_are_told_apart_by_their_keys(a, b);
    if identity(a, a.len()) == identity(b, b.len()) {
        assert forall|i: int| 0 <= i < a.len() implies #[trigger] a[i] == b[i] by {
            assert(key_text(a[i]) == key_text(b[i]));
            assert(sound_opt(a[i]) && sound_opt(b[i]));
            match (a[i], b[i]) {
                (Some(x), Some(y)) => {
                    law_values_are_told_apart(x, y);
                },
                _ => {},
            }
        }
        assert(a =~= b);
    }
}

/// A missing key, one that is null, a string and any other value never read the
/// same.
pub proof fn law_kinds_of_keys_read_differently(s: Seq<char>, t: Tree)
    requires
        !(t is Str),
    ensures
        key_text(None) != key_text(Some(t)),
        key_text(None) != key_text(Some(Tree::Str(s))),
        key_text(Some(Tree::Str(s))) != key_text(Some(t)),
{
    law_quotes_mark_strings(t);
    law_quotes_mark_strings(Tree::Str(s));
}

/// The groups behind the first `n` of a row of records.
pub open spec fn folded(
    keys: Seq<SelectItemView>,
    specs: Seq<AggSpecView>,
    seen: Seq<(Fields, Env)>,
    n: nat,
) -> Seq<GroupView>
    decreases n,
{
    if n == 0 || n > seen.len() {
        Seq::empty()
    } else {
        folded_in(
            folded(keys, specs, seen, (n - 1) as nat),
            keys,
            specs,
            seen[n - 1].0,
            seen[n - 1].1,
        )
    }
}

/// What tells the group of a record from others.
pub open spec fn record_identity(keys: Seq<SelectItemView>, r: (Fields, Env)) -> Seq<char> {
    identity(keys_on(keys, r.0, r.1), keys.len())
}

/// What tells a group from others.
pub open spec fn group_identity(g: GroupView) -> Seq<char> {
    identity(g.keys, g.keys.len())
}

/// The keys of the first `n` records, those that read the same once, in the order
/// in which they are first seen.
pub open spec fn first_keys(
    keys: Seq<SelectItemView>,
    seen: Seq<(Fields, Env)>,
    n: nat,
) -> Seq<Seq<Option<Tree>>>
    decreases n,
{
    if n == 0 || n > seen.len() {
        Seq::empty()
    } else {
        let before = first_keys(keys, seen, (n - 1) as nat);
        if exists|i: int|
            0 <= i < before.len() && identity(#[trigger] before[i], before[i].len())
                == record_identity(keys, seen[n - 1]) {
            before
        } else {
            before.push(keys_on(keys, seen[n - 1].0, seen[n - 1].1))
        }
    }
}

/// Those of the first `n` records that have this identity, in their order.
pub open spec fn members(
    keys: Seq<SelectItemView>,
    seen: Seq<(Fields, Env)>,
    n: nat,
    ident: Seq<char>,
) -> Seq<(Fields, Env)>
    decreases n,
{
    if n == 0 || n > seen.len() {
        Seq::empty()
    } else {
        let before = members(keys, seen, (n - 1) as nat, ident);
        if record_identity(keys, seen[n - 1]) == ident {
            before.push(seen[n - 1])
        } else {
            before
        }
    }
}

/// The states of a group that saw these records.
pub open spec fn states_over(specs: Seq<AggSpecView>, rows: Seq<(Fields, Env)>) -> Seq<StateView>
    decreases rows.len(),
{
    if rows.len() == 0 {
        fresh_states(specs)
    } else {
        advanced(states_over(specs, rows.drop_last()), specs, rows.last().0, rows.last().1)
    }
}

proof fn lemma_group_from(groups: Seq<GroupView>, ident: Seq<char>, from: int)
    requires
        0 <= from,
    ensures
        match group_from(groups, ident, from) {
            Some(k) => from <= k < groups.len() && group_identity(groups[k]) == ident,
            None => forall|j: int|
                from <= j < groups.len() ==> group_identity(#[trigger] groups[j]) != ident,
        },
    decreases groups.len() - from,
{
    if from < groups.len() && group_identity(groups[from]) != ident {
        lemma_group_from(groups, ident, from + 1);
    }
}

/// Whether the groups have the keys first seen, in their order.
spec fn keys_right(
    keys: Seq<SelectItemView>,
    seen: Seq<(Fields, Env)>,
    n: nat,
    groups: Seq<GroupView>,
) -> bool {
    &&& groups.len() == first_keys(keys, seen, n).len()
    &&& forall|i: int|
        0 <= i < groups.len() ==> (#[trigger] groups[i]).keys == first_keys(keys, seen, n)[i]
            && groups[i].keys.len() == keys.len()
}

/// Whether no two groups have the same identity.
spec fn apart(groups: Seq<GroupView>) -> bool {
    forall|i: int, j: int|
        0 <= i < j < groups.len() ==> group_identity(#[trigger] groups[i]) != group_identity(
            #[trigger] groups[j],
        )
}

/// Whether each group has seen the records of its identity.
spec fn states_right(
    keys: Seq<SelectItemView>,
    specs: Seq<AggSpecView>,
    seen: Seq<(Fields, Env)>,
    n: nat,
    groups: Seq<GroupView>,
) -> bool {
    forall|i: int|
        0 <= i < groups.len() ==> (#[trigger] groups[i]).states == states_over(
            specs,
            members(keys, seen, n, group_identity(groups[i])),
        )
}

/// Whether every record has a group.
spec fn none_lost(
    keys: Seq<SelectItemView>,
    seen: Seq<(Fields, Env)>,
    n: nat,
    groups: Seq<GroupView>,
) -> bool {
    forall|x: Seq<char>|
        (#[trigger] members(keys, seen, n, x)).len() > 0 ==> group_from(groups, x, 0) is Some
}

proof fn lemma_keys_step(
    keys: Seq<SelectItemView>,
    specs: Seq<AggSpecView>,
    seen: Seq<(Fields, Env)>,
    n: nat,
    before: Seq<GroupView>,
)
    requires
        0 < n <= seen.len(),
        keys_right(keys, seen, (n - 1) as nat, before),
        apart(before),
    ensures
        keys_right(keys, seen, n, folded_in(before, keys, specs, seen[n - 1].0, seen[n - 1].1)),
        apart(folded_in(before, keys, specs, seen[n - 1].0, seen[n - 1].1)),
{
    let m = (n - 1) as nat;
    let r = seen[m as int];
    let id = record_identity(keys, r);
    let firsts = first_keys(keys, seen, m);
    lemma_group_from(before, id, 0);
    match group_from(before, id, 0) {
        Some(k) => {
            assert(identity(firsts[k], firsts[k].len()) == id);
            let now = folded_in(before, keys, specs, r.0, r.1);
            assert forall|i: int| 0 <= i < now.len() implies (#[trigger] now[i]).keys
                == before[i].keys by {}
        },
        None => {
            assert forall|i: int| 0 <= i < firsts.len() implies identity(
                #[trigger] firsts[i],
                firsts[i].len(),
            ) != id by {
                assert(group_identity(before[i]) != id);
            }
        },
    }
}

proof fn lemma_states_step(
    keys: Seq<SelectItemView>,
    specs: Seq<AggSpecView>,
    seen: Seq<(Fields, Env)>,
    n: nat,
    before: Seq<GroupView>,
)
    requires
        0 < n <= seen.len(),
        states_right(keys, specs, seen, (n - 1) as nat, before),
        none_lost(keys, seen, (n - 1) as nat, before),
        apart(before),
    ensures
        states_right(
            keys,
            specs,
            seen,
            n,
            folded_in(before, keys, specs, seen[n - 1].0, seen[n - 1].1),
        ),
{
    let m = (n - 1) as nat;
    let r = seen[m as int];
    let id = record_identity(keys, r);
    let now = folded_in(before, keys, specs, r.0, r.1);
    lemma_group_from(before, id, 0);
    let old_members = members(keys, seen, m, id);
    assert(members(keys, seen, n, id) == old_members.push(r));
    assert(old_members.push(r).drop_last() =~= old_members);
    assert(states_over(specs, old_members.push(r)) == advanced(
        states_over(specs, old_members),
        specs,
        r.0,
        r.1,
    ));
    match group_from(before, id, 0) {
        Some(k) => {
            assert forall|i: int| 0 <= i < now.len() implies (#[trigger] now[i]).states
                == states_over(specs, members(keys, seen, n, group_identity(now[i]))) by {
                assert(now[i].keys == before[i].keys);
                assert(before[i].states == states_over(
                    specs,
                    members(keys, seen, m, group_identity(before[i])),
                ));
                if i != k {
                    assert(group_identity(before[i]) != group_identity(before[k]));
                }
            }
        },
        None => {
            assert(old_members.len() == 0);
            assert forall|i: int| 0 <= i < now.len() implies (#[trigger] now[i]).states
                == states_over(specs, members(keys, seen, n, group_identity(now[i]))) by {
                if i < before.len() {
                    assert(now[i] == before[i]);
                    assert(group_identity(before[i]) != id);
                } else {
                    assert(group_identity(now[i]) == id);
                }
            }
        },
    }
}

proof fn lemma_none_lost_step(
    keys: Seq<SelectItemView>,
    specs: Seq<AggSpecView>,
    seen: Seq<(Fields, Env)>,
    n: nat,
    before: Seq<GroupView>,
)
    requires
        0 < n <= seen.len(),
        none_lost(keys, seen, (n - 1) as nat, before),
    ensures
        none_lost(keys, seen, n, folded_in(before, keys, specs, seen[n - 1].0, seen[n - 1].1)),
{
    let m = (n - 1) as nat;
    let r = seen[m as int];
    let id = record_identity(keys, r);
    let now = folded_in(before, keys, specs, r.0, r.1);
    lemma_group_from(before, id, 0);
    assert forall|x: Seq<char>| (#[trigger] members(keys, seen, n, x)).len() > 0 implies group_from(
        now,
        x,
        0,
    ) is Some by {
        lemma_group_from(now, x, 0);
        lemma_group_from(before, x, 0);
        if x != id {
            assert(members(keys, seen, m, x).len() > 0);
            let k = group_from(before, x, 0)->0;
            assert(group_identity(now[k]) == x);
        } else {
            match group_from(before, id, 0) {
                Some(k) => {
                    assert(group_identity(now[k]) == id);
                },
                None => {
                    assert(group_identity(now[before.len() as int]) == id);
                },
            }
        }
    }
}

proof fn lemma_folded(
    keys: Seq<SelectItemView>,
    specs: Seq<AggSpecView>,
    seen: Seq<(Fields, Env)>,
    n: nat,
)
    requires
        n <= seen.len(),
    ensures
        keys_right(keys, seen, n, folded(keys, specs, seen, n)),
        apart(folded(keys, specs, seen, n)),
        states_right(keys, specs, seen, n, folded(keys, specs, seen, n)),
        none_lost(keys, seen, n, folded(keys, specs, seen, n)),
    decreases n,
{
    if n > 0 {
        lemma_folded(keys, specs, seen, (n - 1) as nat);
        let before = folded(keys, specs, seen, (n - 1) as nat);
        lemma_keys_step(keys, specs, seen, n, before);
        lemma_states_step(keys, specs, seen, n, before);
        lemma_none_lost_step(keys, specs, seen, n, before);
    }
}

/// The groups are those of the keys, each once, in the order in which they are
/// first seen.
pub proof fn law_groups_stand_in_the_order_first_seen(
    keys: Seq<SelectItemView>,
    specs: Seq<AggSpecView>,
    seen: Seq<(Fields, Env)>,
)
    ensures
        folded(keys, specs, seen, seen.len()).len() == first_keys(keys, seen, seen.len()).len(),
        forall|i: int|
            0 <= i < folded(keys, specs, seen, seen.len()).len() ==> (#[trigger] folded(
                keys,
                specs,
                seen,
                seen.len(),
            )[i]).keys == first_keys(keys, seen, seen.len())[i],
        forall|i: int, j: int|
            0 <= i < j < folded(keys, specs, seen, seen.len()).len() ==> group_identity(
                #[trigger] folded(keys, specs, seen, seen.len())[i],
            ) != group_identity(#[trigger] folded(keys, specs, seen, seen.len())[j]),
{
    lemma_folded(keys, specs, seen, seen.len());
}

/// The aggregates of a group have seen the records that have its keys, all of
/// them and no others, in their order.
pub proof fn law_a_group_folds_the_records_of_its_keys(
    keys: Seq<SelectItemView>,
    specs: Seq<AggSpecView>,
    seen: Seq<(Fields, Env)>,
    i: int,
)
    requires
        0 <= i < folded(keys, specs, seen, seen.len()).len(),
    ensures
        folded(keys, specs, seen, seen.len())[i].states == states_over(
            specs,
            members(
                keys,
                seen,
                seen.len(),
                group_identity(folded(keys, specs, seen, seen.len())[i]),
            ),
        ),
{
    lemma_folded(keys, specs, seen, seen.len());
}

/// Without keys there is one group, of all the records, unless there is none.
pub proof fn law_without_keys_there_is_one_group(specs: Seq<AggSpecView>, seen: Seq<(Fields, Env)>)
    ensures
        seen.len() == 0 ==> folded(Seq::empty(), specs, seen, seen.len()).len() == 0,
        seen.len() > 0 ==> folded(Seq::empty(), specs, seen, seen.len()) == seq![
            GroupView { keys: Seq::empty(), states: states_over(specs, seen) },
        ],
{
    let none = Seq::<SelectItemView>::empty();
    lemma_one_group(specs, seen, seen.len());
    if seen.len() > 0 {
        let groups = folded(none, specs, seen, seen.len());
        law_a_group_folds_the_records_of_its_keys(none, specs, seen, 0);
        lemma_all_members(seen, seen.len(), group_identity(groups[0]));
        assert(seen.take(seen.len() as int) =~= seen);
        assert(groups =~= seq![GroupView { keys: groups[0].keys, states: groups[0].states }]);
    }
}

proof fn lemma_one_group(specs: Seq<AggSpecView>, seen: Seq<(Fields, Env)>, n: nat)
    requires
        n <= seen.len(),
    ensures
        folded(Seq::empty(), specs, seen, n).len() == (if n == 0 { 0nat } else { 1nat }),
        n > 0 ==> folded(Seq::empty(), specs, seen, n)[0].keys == Seq::<Option<Tree>>::empty(),
    decreases n,
{
    if n > 0 {
        let none = Seq::<SelectItemView>::empty();
        let before = folded(none, specs, seen, (n - 1) as nat);
        lemma_one_group(specs, seen, (n - 1) as nat);
        assert(keys_on(none, seen[n - 1].0, seen[n - 1].1) =~= Seq::<Option<Tree>>::empty());
        assert(n > 1 ==> group_from(before, identity(Seq::empty(), 0), 0) == Some(0int));
    }
}

proof fn lemma_all_members(seen: Seq<(Fields, Env)>, n: nat, ident: Seq<char>)
    requires
        n <= seen.len(),
        ident == identity(Seq::empty(), 0),
    ensures
        members(Seq::empty(), seen, n, ident) == seen.take(n as int),
    decreases n,
{
    if n > 0 {
        lemma_all_members(seen, (n - 1) as nat, ident);
        let none = Seq::<SelectItemView>::empty();
        assert(keys_on(none, seen[n - 1].0, seen[n - 1].1) =~= Seq::<Option<Tree>>::empty());
        assert(seen.take(n as int) =~= seen.take(n - 1).push(seen[n - 1]));
    } else {
        assert(seen.take(0) =~= Seq::empty());
    }
}

/// The values that an aggregate takes of a row of records.
pub open spec fn values_taken(one: AggSpecView, rows: Seq<(Fields, Env)>) -> Seq<Option<Tree>> {
    Seq::new(rows.len(), |i: int| taken(one, rows[i].0, rows[i].1))
}

/// The state of an aggregate that saw these values.
pub open spec fn state_after(agg: Agg, values: Seq<Option<Tree>>) -> StateView
    decreases values.len(),
{
    if values.len() == 0 {
        fresh(agg)
    } else {
        pushed(state_after(agg, values.drop_last()), agg, values.last())
    }
}

/// What an aggregate gives of these values.
pub open spec fn aggregate_of(agg: Agg, values: Seq<Option<Tree>>) -> Option<Tree> {
    outcome(state_after(agg, values), agg)
}

/// Every aggregate of a group goes over the values of its own argument.
pub proof fn law_aggregates_take_their_own_values(
    specs: Seq<AggSpecView>,
    rows: Seq<(Fields, Env)>,
    j: int,
)
    requires
        0 <= j < specs.len(),
    ensures
        states_over(specs, rows).len() == specs.len(),
        states_over(specs, rows)[j] == state_after(specs[j].agg, values_taken(specs[j], rows)),
    decreases rows.len(),
{
    if rows.len() > 0 {
        law_aggregates_take_their_own_values(specs, rows.drop_last(), j);
        assert(values_taken(specs[j], rows).drop_last() =~= values_taken(
            specs[j],
            rows.drop_last(),
        ));
    }
}

/// A record that lacks the value of an aggregate leaves its state, and what it
/// gives, as they are.
pub proof fn law_a_missing_value_changes_no_aggregate(
    state: StateView,
    agg: Agg,
    values: Seq<Option<Tree>>,
)
    ensures
        pushed(state, agg, None) == state,
        aggregate_of(agg, values.push(None)) == aggregate_of(agg, values),
{
    assert(values.push(None).drop_last() =~= values);
}

/// How many of the values are there.
pub open spec fn present(values: Seq<Option<Tree>>) -> nat
    decreases values.len(),
{
    if values.len() == 0 {
        0
    } else {
        present(values.drop_last()) + (if values.last() is Some {
            1nat
        } else {
            0
        })
    }
}

proof fn lemma_count(values: Seq<Option<Tree>>)
    requires
        values.len() <= u64::MAX,
    ensures
        present(values) <= values.len(),
        state_after(Agg::Count, values) == StateView::Count(present(values) as u64),
    decreases values.len(),
{
    if values.len() > 0 {
        lemma_count(values.drop_last());
    }
}

/// `count` gives the number of records that have its argument.
pub proof fn law_count_counts_what_is_there(values: Seq<Option<Tree>>)
    requires
        values.len() <= u64::MAX,
    ensures
        present(values) <= values.len(),
        aggregate_of(Agg::Count, values) == Some(
            Tree::Number(Number::PosInt(present(values) as u64)),
        ),
{
    lemma_count(values);
}

/// `count(*)` gives the number of records.
pub proof fn law_count_of_everything_counts_records(one: AggSpecView, rows: Seq<(Fields, Env)>)
    requires
        one.arg is None,
        rows.len() <= u64::MAX,
    ensures
        aggregate_of(Agg::Count, values_taken(one, rows)) == Some(
            Tree::Number(Number::PosInt(rows.len() as u64)),
        ),
{
    let values = values_taken(one, rows);
    lemma_all_present(values);
    lemma_count(values);
}

proof fn lemma_all_present(values: Seq<Option<Tree>>)
    requires
        forall|i: int| 0 <= i < values.len() ==> (#[trigger] values[i]) is Some,
    ensures
        present(values) == values.len(),
    decreases values.len(),
{
    if values.len() > 0 {
        lemma_all_present(values.drop_last());
    }
}

/// The texts by which values are told apart.
pub open spec fn distinct_texts(values: Seq<Option<Tree>>) -> Set<Seq<char>>
    decreases values.len(),
{
    if values.len() == 0 {
        Set::empty()
    } else {
        match values.last() {
            Some(v) => distinct_texts(values.drop_last()).insert(json_text(v)),
            None => distinct_texts(values.drop_last()),
        }
    }
}

proof fn lemma_distinct(values: Seq<Option<Tree>>)
    ensures
        state_after(Agg::CountDistinct, values) == StateView::Distinct(distinct_texts(values)),
    decreases values.len(),
{
    if values.len() > 0 {
        lemma_distinct(values.drop_last());
    }
}

/// `count_distinct` gives the number of values that read differently, and a
/// value is among them where some record has it.
pub proof fn law_count_distinct_counts_values(values: Seq<Option<Tree>>)
    ensures
        aggregate_of(Agg::CountDistinct, values) == Some(
            Tree::Number(Number::PosInt(distinct_texts(values).len() as u64)),
        ),
        forall|t: Seq<char>| #[trigger]
            distinct_texts(values).contains(t) <==> exists|i: int|
                0 <= i < values.len() && key_text(#[trigger] values[i]) == Some(t),
{
    lemma_distinct(values);
    lemma_distinct_texts(values);
}

proof fn lemma_distinct_texts(values: Seq<Option<Tree>>)
    ensures
        forall|t: Seq<char>| #[trigger]
            distinct_texts(values).contains(t) <==> exists|i: int|
                0 <= i < values.len() && key_text(#[trigger] values[i]) == Some(t),
    decreases values.len(),
{
    if values.len() > 0 {
        let rest = values.drop_last();
        lemma_distinct_texts(rest);
        assert forall|t: Seq<char>| #[trigger]
            distinct_texts(values).contains(t) implies exists|i: int|
            0 <= i < values.len() && key_text(#[trigger] values[i]) == Some(t) by {
            if distinct_texts(rest).contains(t) {
                let i = choose|i: int|
                    0 <= i < rest.len() && key_text(#[trigger] rest[i]) == Some(t);
                assert(key_text(values[i]) == Some(t));
            } else {
                assert(key_text(values[values.len() - 1]) == Some(t));
            }
        }
        assert forall|t: Seq<char>|
            (exists|i: int|
                0 <= i < values.len() && key_text(#[trigger] values[i]) == Some(
                    t,
                )) implies #[trigger] distinct_texts(values).contains(t) by {
            let i = choose|i: int| 0 <= i < values.len() && key_text(#[trigger] values[i]) == Some(t);
            if i < rest.len() {
                assert(key_text(rest[i]) == Some(t));
                assert(distinct_texts(rest).contains(t));
            } else {
                assert(values[i] == values.last());
            }
        }
    }
}

/// A total of nothing numeric is missing rather than zero.
pub proof fn law_a_total_of_nothing_is_missing(agg: Agg, values: Seq<Option<Tree>>)
    requires
        agg == Agg::Sum || agg == Agg::Avg,
        forall|i: int|
            0 <= i < values.len() ==> ((#[trigger] values[i]) matches Some(v) ==> number_of(v) is None),
    ensures
        aggregate_of(agg, values) is None,
{
    lemma_nothing_numeric(agg, values);
}

proof fn lemma_nothing_numeric(agg: Agg, values: Seq<Option<Tree>>)
    requires
        agg == Agg::Sum || agg == Agg::Avg,
        forall|i: int|
            0 <= i < values.len() ==> ((#[trigger] values[i]) matches Some(v) ==> number_of(v) is None),
    ensures
        state_after(agg, values) == fresh(agg),
    decreases values.len(),
{
    if values.len() > 0 {
        let rest = values.drop_last();
        assert forall|i: int| 0 <= i < rest.len() implies ((#[trigger] rest[i]) matches Some(v)
            ==> number_of(v) is None) by {
            assert(rest[i] == values[i]);
        }
        lemma_nothing_numeric(agg, rest);
        assert(values[values.len() - 1] == values.last());
    }
}

/// Those of the values that read as numbers, as numbers.
pub open spec fn numbers_among(values: Seq<Option<Tree>>) -> Seq<Num>
    decreases values.len(),
{
    if values.len() == 0 {
        Seq::empty()
    } else {
        let before = numbers_among(values.drop_last());
        match values.last() {
            Some(v) => match number_of(v) {
                Some(x) => before.push(x),
                None => before,
            },
            None => before,
        }
    }
}

/// Numbers added up, from the first on.
pub open spec fn total(numbers: Seq<Num>) -> Num
    decreases numbers.len(),
{
    if numbers.len() == 0 {
        whole_int(0)
    } else {
        sum(total(numbers.drop_last()), numbers.last())
    }
}

/// `sum` adds up the values that read as numbers, and `avg` divides that by how
/// many they are: a record that lacks the value counts for neither.
pub proof fn law_totals_go_over_the_numbers(values: Seq<Option<Tree>>)
    requires
        0 < numbers_among(values).len() <= u64::MAX,
    ensures
        aggregate_of(Agg::Sum, values) == Some(narrowed(total(numbers_among(values)))),
        aggregate_of(Agg::Avg, values) == Some(
            narrowed(
                ratio(total(numbers_among(values)), whole_int(numbers_among(values).len() as int)),
            ),
        ),
{
    lemma_total(Agg::Sum, values);
    lemma_total(Agg::Avg, values);
}

proof fn lemma_total(agg: Agg, values: Seq<Option<Tree>>)
    requires
        agg == Agg::Sum || agg == Agg::Avg,
        numbers_among(values).len() <= u64::MAX,
    ensures
        state_after(agg, values) == (StateView::Total {
            sum: total(numbers_among(values)),
            n: numbers_among(values).len() as u64,
        }),
    decreases values.len(),
{
    if values.len() > 0 {
        let before = numbers_among(values.drop_last());
        lemma_total(agg, values.drop_last());
        match values.last() {
            Some(v) => match number_of(v) {
                Some(x) => {
                    assert(before.push(x).drop_last() =~= before);
                },
                None => {},
            },
            None => {},
        }
    }
}

/// The first of the values that is there.
pub open spec fn first_there(values: Seq<Option<Tree>>) -> Option<Tree>
    decreases values.len(),
{
    if values.len() == 0 {
        None
    } else if values[0] is Some {
        values[0]
    } else {
        first_there(values.skip(1))
    }
}

/// The last of the values that is there.
pub open spec fn last_there(values: Seq<Option<Tree>>) -> Option<Tree>
    decreases values.len(),
{
    if values.len() == 0 {
        None
    } else if values.last() is Some {
        values.last()
    } else {
        last_there(values.drop_last())
    }
}

proof fn lemma_first_there(values: Seq<Option<Tree>>)
    requires
        values.len() > 0,
    ensures
        first_there(values) == (if first_there(values.drop_last()) is Some {
            first_there(values.drop_last())
        } else {
            values.last()
        }),
    decreases values.len(),
{
    if values.len() > 1 && values[0] is None {
        lemma_first_there(values.skip(1));
        assert(values.skip(1).drop_last() =~= values.drop_last().skip(1));
    } else if values.len() == 1 {
        reveal_with_fuel(first_there, 2);
    }
}

proof fn lemma_first(values: Seq<Option<Tree>>)
    ensures
        state_after(Agg::First, values) == StateView::Pick(first_there(values)),
    decreases values.len(),
{
    if values.len() > 0 {
        lemma_first(values.drop_last());
        lemma_first_there(values);
    }
}

proof fn lemma_last(values: Seq<Option<Tree>>)
    ensures
        state_after(Agg::Last, values) == StateView::Pick(last_there(values)),
    decreases values.len(),
{
    if values.len() > 0 {
        lemma_last(values.drop_last());
    }
}

/// `first` and `last` give the first and the last value that is there.
pub proof fn law_first_and_last_pick_the_ends(values: Seq<Option<Tree>>)
    ensures
        aggregate_of(Agg::First, values) == first_there(values),
        aggregate_of(Agg::Last, values) == last_there(values),
{
    lemma_first(values);
    lemma_last(values);
}

/// Whether `a` is no greater than `b` where the least is sought, and no less
/// where the greatest is.
pub open spec fn no_further(agg: Agg, a: Tree, b: Tree) -> bool {
    if agg == Agg::Min {
        tree_order(b, a) != Some(Order::Less)
    } else {
        tree_order(b, a) != Some(Order::Greater)
    }
}

proof fn lemma_extreme(agg: Agg, values: Seq<Option<Tree>>)
    requires
        agg == Agg::Min || agg == Agg::Max,
        forall|i: int|
            0 <= i < values.len() ==> ((#[trigger] values[i]) matches Some(v) ==> v is Number),
    ensures
        match state_after(agg, values) {
            StateView::Extreme(None) => forall|i: int|
                0 <= i < values.len() ==> (#[trigger] values[i]) is None,
            StateView::Extreme(Some(h)) => h is Number && (exists|i: int|
                0 <= i < values.len() && (#[trigger] values[i]) == Some(h)) && forall|i: int|
                0 <= i < values.len() ==> ((#[trigger] values[i]) matches Some(v) ==> no_further(
                    agg,
                    h,
                    v,
                )),
            _ => false,
        },
    decreases values.len(),
{
    if values.len() > 0 {
        let rest = values.drop_last();
        assert forall|i: int| 0 <= i < rest.len() implies ((#[trigger] rest[i]) matches Some(v)
            ==> v is Number) by {
            assert(rest[i] == values[i]);
        }
        lemma_extreme(agg, rest);
        let n = values.len() - 1;
        assert(values[n] == values.last());
        match state_after(agg, rest) {
            StateView::Extreme(Some(h)) => {
                let i = choose|i: int| 0 <= i < rest.len() && (#[trigger] rest[i]) == Some(h);
                assert(values[i] == Some(h));
                assert forall|i: int| 0 <= i < rest.len() implies ((#[trigger] values[i]) matches Some(
                    v,
                ) ==> no_further(agg, h, v)) by {
                    assert(rest[i] == values[i]);
                }
            },
            _ => {
                assert forall|i: int| 0 <= i < rest.len() implies (#[trigger] values[i]) is None by {
                    assert(rest[i] == values[i]);
                }
            },
        }
    }
}

/// Of numbers, `min` gives one that none is below, and `max` one that none is
/// above; they are missing only where no number is there.
pub proof fn law_min_and_max_span_the_numbers(agg: Agg, values: Seq<Option<Tree>>)
    requires
        agg == Agg::Min || agg == Agg::Max,
        forall|i: int|
            0 <= i < values.len() ==> ((#[trigger] values[i]) matches Some(v) ==> v is Number),
    ensures
        match aggregate_of(agg, values) {
            None => forall|i: int| 0 <= i < values.len() ==> (#[trigger] values[i]) is None,
            Some(h) => (exists|i: int| 0 <= i < values.len() && (#[trigger] values[i]) == Some(h))
                && forall|i: int|
                0 <= i < values.len() ==> ((#[trigger] values[i]) matches Some(v) ==> no_further(
                    agg,
                    h,
                    v,
                )),
        },
{
    lemma_extreme(agg, values);
}

/// Whether no aggregate is listed twice.
pub open spec fn listed_once(specs: Seq<AggSpecView>) -> bool {
    forall|i: int, j: int|
        0 <= i < j < specs.len() ==> (#[trigger] specs[i]).key != (#[trigger] specs[j]).key
}

/// Whether an aggregate written this way stands in one of the first `n` values.
pub open spec fn args_name(args: Seq<ValueExprView>, n: nat, key: Seq<char>) -> bool
    decreases args, n,
{
    if n == 0 || n > args.len() {
        false
    } else {
        args_name(args, (n - 1) as nat, key) || value_names(args[n - 1], key)
    }
}

/// Whether an aggregate written this way stands in a value.
pub open spec fn value_names(v: ValueExprView, key: Seq<char>) -> bool
    decreases v, 0nat,
{
    match v {
        ValueExprView::Field(_) => false,
        ValueExprView::Lit(_) => false,
        ValueExprView::Call { func, args } => args_name(args, args.len(), key),
        ValueExprView::Arith { op, left, right } => value_names(*left, key) || value_names(
            *right,
            key,
        ),
        ValueExprView::Agg { agg, arg } => expr_text(v) == key,
    }
}

/// Whether an aggregate written this way stands in a condition.
pub open spec fn condition_names(e: ExprView, key: Seq<char>) -> bool
    decreases e,
{
    match e {
        ExprView::Or(a, b) => condition_names(*a, key) || condition_names(*b, key),
        ExprView::And(a, b) => condition_names(*a, key) || condition_names(*b, key),
        ExprView::Not(a) => condition_names(*a, key),
        ExprView::Compare { op, left, right } => value_names(left, key) || value_names(right, key),
        ExprView::Like { left, pattern, negated } => value_names(left, key) || value_names(
            pattern,
            key,
        ),
        ExprView::Truthy(v) => value_names(v, key),
    }
}

/// Whether an aggregate written this way stands in `select`, `having` or
/// `order by`.
pub open spec fn query_names(q: QueryView, key: Seq<char>) -> bool {
    ||| (q.select matches SelectionView::Items(items) && exists|i: int|
        0 <= i < items.len() && value_names((#[trigger] items[i]).value, key))
    ||| (q.having matches Some(e) && condition_names(e, key))
    ||| (q.order_by matches Some(o) && value_names(o.value, key))
}

proof fn lemma_with_args(args: Seq<ValueExprView>, n: nat, before: Seq<AggSpecView>, key: Seq<char>)
    requires
        listed_once(before),
    ensures
        listed_once(with_args(args, n, before)),
        listed(with_args(args, n, before), key) == (listed(before, key) || args_name(args, n, key)),
    decreases args, n,
{
    if 0 < n <= args.len() {
        lemma_with_args(args, (n - 1) as nat, before, key);
        lemma_with_value(args[n - 1], with_args(args, (n - 1) as nat, before), key);
    }
}

proof fn lemma_with_value(v: ValueExprView, before: Seq<AggSpecView>, key: Seq<char>)
    requires
        listed_once(before),
    ensures
        listed_once(with_value(v, before)),
        listed(with_value(v, before), key) == (listed(before, key) || value_names(v, key)),
    decreases v, 0nat,
{
    match v {
        ValueExprView::Call { func, args } => {
            lemma_with_args(args, args.len(), before, key);
        },
        ValueExprView::Arith { op, left, right } => {
            lemma_with_value(*left, before, key);
            lemma_with_value(*right, with_value(*left, before), key);
        },
        ValueExprView::Agg { agg, arg } => {
            if !listed(before, expr_text(v)) {
                let now = with_value(v, before);
                assert(now[before.len() as int].key == expr_text(v));
                assert forall|i: int| 0 <= i < before.len() implies now[i] == #[trigger] before[i] by {}
                if listed(before, key) {
                    let i = choose|i: int| 0 <= i < before.len() && (#[trigger] before[i]).key == key;
                    assert(now[i].key == key);
                }
                if listed(now, key) {
                    let i = choose|i: int| 0 <= i < now.len() && (#[trigger] now[i]).key == key;
                    if i < before.len() {
                        assert(before[i].key == key);
                    }
                }
            }
        },
        _ => {},
    }
}

proof fn lemma_with_condition(e: ExprView, before: Seq<AggSpecView>, key: Seq<char>)
    requires
        listed_once(before),
    ensures
        listed_once(with_condition(e, before)),
        listed(with_condition(e, before), key) == (listed(before, key) || condition_names(e, key)),
    decreases e,
{
    match e {
        ExprView::Or(a, b) => {
            lemma_with_condition(*a, before, key);
            lemma_with_condition(*b, with_condition(*a, before), key);
        },
        ExprView::And(a, b) => {
            lemma_with_condition(*a, before, key);
            lemma_with_condition(*b, with_condition(*a, before), key);
        },
        ExprView::Not(a) => {
            lemma_with_condition(*a, before, key);
        },
        ExprView::Compare { op, left, right } => {
            lemma_with_value(left, before, key);
            lemma_with_value(right, with_value(left, before), key);
        },
        ExprView::Like { left, pattern, negated } => {
            lemma_with_value(left, before, key);
            lemma_with_value(pattern, with_value(left, before), key);
        },
        ExprView::Truthy(v) => {
            lemma_with_value(v, before, key);
        },
    }
}

proof fn lemma_select_aggregates(items: Seq<SelectItemView>, n: nat, key: Seq<char>)
    requires
        n <= items.len(),
    ensures
        listed_once(select_aggregates(items, n)),
        listed(select_aggregates(items, n), key) == exists|i: int|
            0 <= i < n && value_names((#[trigger] items[i]).value, key),
    decreases n,
{
    if n > 0 {
        let m = (n - 1) as nat;
        lemma_select_aggregates(items, m, key);
        lemma_with_value(items[m as int].value, select_aggregates(items, m), key);
        if value_names(items[m as int].value, key) {
            assert(0 <= m < n && value_names(items[m as int].value, key));
        }
    }
}

/// Each aggregate that a query mentions is listed, whether in `select`, `having`
/// or `order by`, and each once, however often it is mentioned.
pub proof fn law_aggregates_are_listed_once(q: QueryView, key: Seq<char>)
    ensures
        listed_once(aggregates_of(q)),
        listed(aggregates_of(q), key) == query_names(q, key),
{
    let selected = match q.select {
        SelectionView::All => Seq::empty(),
        SelectionView::Items(items) => select_aggregates(items, items.len()),
    };
    if let SelectionView::Items(items) = q.select {
        lemma_select_aggregates(items, items.len(), key);
    }
    let tested = match q.having {
        Some(e) => with_condition(e, selected),
        None => selected,
    };
    if let Some(e) = q.having {
        lemma_with_condition(e, selected, key);
    }
    if let Some(o) = q.order_by {
        lemma_with_value(o.value, tested, key);
    }
}

/// Whether the text of a key names no other column of a group's row.
pub open spec fn stands_alone(keys: Seq<SelectItemView>, specs: Seq<AggSpecView>, i: int) -> bool {
    &&& forall|j: int|
        0 <= j < keys.len() && j != i ==> expr_text((#[trigger] keys[j]).value) != expr_text(
            keys[i].value,
        ) && keys[j].label != expr_text(keys[i].value)
    &&& !listed(specs, expr_text(keys[i].value))
}

proof fn lemma_key_field(
    keys: Seq<SelectItemView>,
    specs: Seq<AggSpecView>,
    values: Seq<Option<Tree>>,
    i: int,
    n: nat,
)
    requires
        0 <= i < keys.len() == values.len(),
        n <= keys.len(),
        stands_alone(keys, specs, i),
    ensures
        field(key_fields(keys, values, n), expr_text(keys[i].value)) == (if i < n {
            values[i]
        } else {
            None
        }),
    decreases n,
{
    if n > 0 {
        let m = (n - 1) as nat;
        lemma_key_field(keys, specs, values, i, m);
        let before = key_fields(keys, values, m);
        let text = expr_text(keys[m as int].value);
        let label = keys[m as int].label;
        let mine = expr_text(keys[i].value);
        if let Some(v) = values[m as int] {
            law_read_gives_back_write(before, text, v, mine);
            law_read_gives_back_write(with_field(before, text, v), label, v, mine);
        }
    }
}

proof fn lemma_outcome_field(
    before: Fields,
    specs: Seq<AggSpecView>,
    states: Seq<StateView>,
    name: Seq<char>,
    n: nat,
)
    requires
        n <= specs.len(),
        !listed(specs, name),
    ensures
        field(outcome_fields(before, specs, states, n), name) == field(before, name),
    decreases n,
{
    if n > 0 {
        let m = (n - 1) as nat;
        lemma_outcome_field(before, specs, states, name, m);
        assert(specs[m as int].key != name);
        if let Some(v) = outcome(states[m as int], specs[m as int].agg) {
            law_read_gives_back_write(
                outcome_fields(before, specs, states, m),
                specs[m as int].key,
                v,
                name,
            );
        }
    }
}

/// The row of a group carries each key under the text of its expression, and
/// lacks it where it is missing.
pub proof fn law_a_row_carries_its_keys(
    keys: Seq<SelectItemView>,
    specs: Seq<AggSpecView>,
    group: GroupView,
    i: int,
)
    requires
        0 <= i < keys.len() == group.keys.len(),
        stands_alone(keys, specs, i),
    ensures
        field(group_row(keys, specs, group), expr_text(keys[i].value)) == group.keys[i],
{
    lemma_key_field(keys, specs, group.keys, i, keys.len());
    lemma_outcome_field(
        key_fields(keys, group.keys, keys.len()),
        specs,
        group.states,
        expr_text(keys[i].value),
        specs.len(),
    );
}

proof fn lemma_own_outcome(
    before: Fields,
    specs: Seq<AggSpecView>,
    states: Seq<StateView>,
    j: int,
    n: nat,
)
    requires
        0 <= j < specs.len(),
        n <= specs.len(),
        listed_once(specs),
    ensures
        field(outcome_fields(before, specs, states, n), specs[j].key) == (if j < n && outcome(
            states[j],
            specs[j].agg,
        ) is Some {
            outcome(states[j], specs[j].agg)
        } else {
            field(before, specs[j].key)
        }),
    decreases n,
{
    if n > 0 {
        let m = (n - 1) as nat;
        lemma_own_outcome(before, specs, states, j, m);
        if m != j {
            assert(specs[m as int].key != specs[j].key);
        }
        if let Some(v) = outcome(states[m as int], specs[m as int].agg) {
            law_read_gives_back_write(
                outcome_fields(before, specs, states, m),
                specs[m as int].key,
                v,
                specs[j].key,
            );
        }
    }
}

/// The row of a group carries each aggregate under the text of its expression;
/// one that gives nothing leaves what the keys have there.
pub proof fn law_a_row_carries_its_aggregates(
    keys: Seq<SelectItemView>,
    specs: Seq<AggSpecView>,
    group: GroupView,
    j: int,
)
    requires
        0 <= j < specs.len(),
        listed_once(specs),
    ensures
        field(group_row(keys, specs, group), specs[j].key) == (match outcome(
            group.states[j],
            specs[j].agg,
        ) {
            Some(v) => Some(v),
            None => field(key_fields(keys, group.keys, keys.len()), specs[j].key),
        }),
{
    lemma_own_outcome(
        key_fields(keys, group.keys, keys.len()),
        specs,
        group.states,
        j,
        specs.len(),
    );
}

/// Whether the first `n` values mention keys only as the keys are written, down
/// to the sign of a zero.
pub open spec fn args_mention_exactly(
    args: Seq<ValueExprView>,
    n: nat,
    keys: Seq<SelectItemView>,
) -> bool
    decreases args, n,
{
    if n == 0 || n > args.len() {
        true
    } else {
        args_mention_exactly(args, (n - 1) as nat, keys) && mentions_exactly(args[n - 1], keys)
    }
}

/// Whether a value mentions keys only as the keys are written, down to the sign
/// of a zero.
pub open spec fn mentions_exactly(v: ValueExprView, keys: Seq<SelectItemView>) -> bool
    decreases v, 0nat,
{
    match key_from(v, keys, 0) {
        Some(i) => keys[i].value == v,
        None => match v {
            ValueExprView::Call { func, args } => args_mention_exactly(args, args.len(), keys),
            ValueExprView::Arith { op, left, right } => mentions_exactly(*left, keys)
                && mentions_exactly(*right, keys),
            _ => true,
        },
    }
}

/// Whether a row has under the text of every key what the key is on a record.
pub open spec fn carries_keys_of(
    row: Fields,
    keys: Seq<SelectItemView>,
    record: Fields,
    env: Env,
) -> bool {
    forall|i: int|
        0 <= i < keys.len() ==> field(row, expr_text((#[trigger] keys[i]).value)) == value_of(
            keys[i].value,
            record,
            env,
        )
}

proof fn lemma_key_from(v: ValueExprView, keys: Seq<SelectItemView>, from: int)
    requires
        0 <= from,
    ensures
        match key_from(v, keys, from) {
            Some(i) => from <= i < keys.len(),
            None => forall|j: int| from <= j < keys.len() ==> !same_expr((#[trigger] keys[j]).value, v),
        },
    decreases keys.len() - from,
{
    if from < keys.len() && !same_expr(keys[from].value, v) {
        lemma_key_from(v, keys, from + 1);
    }
}

proof fn lemma_rewritten_args(args: Seq<ValueExprView>, n: nat, keys: Seq<SelectItemView>)
    requires
        n <= args.len(),
    ensures
        rewritten_args(args, n, keys).len() == n,
        forall|i: int| 0 <= i < n ==> #[trigger] rewritten_args(args, n, keys)[i] == rewritten(args[i], keys),
    decreases n,
{
    if n > 0 {
        lemma_rewritten_args(args, (n - 1) as nat, keys);
    }
}

proof fn lemma_args_read_the_row(
    args: Seq<ValueExprView>,
    n: nat,
    keys: Seq<SelectItemView>,
    record: Fields,
    row: Fields,
    env: Env,
)
    requires
        n <= args.len(),
        all_grounded(args, n, keys),
        args_mention_exactly(args, n, keys),
        !crate::ast::any_aggregate(args, n),
        carries_keys_of(row, keys, record, env),
    ensures
        values_of(rewritten_args(args, args.len(), keys), n, row, env) == values_of(
            args,
            n,
            record,
            env,
        ),
    decreases args, n,
{
    if n > 0 {
        lemma_rewritten_args(args, args.len(), keys);
        lemma_args_read_the_row(args, (n - 1) as nat, keys, record, row, env);
        law_a_rewritten_value_reads_the_row(args[n - 1], keys, record, row, env);
        assert(rewritten_args(args, args.len(), keys)[n - 1] == rewritten(args[n - 1], keys));
    }
}

/// A value built from keys is, once rewritten, on the row of a group what it is
/// on a record of the group: it can be computed once per group.
pub proof fn law_a_rewritten_value_reads_the_row(
    v: ValueExprView,
    keys: Seq<SelectItemView>,
    record: Fields,
    row: Fields,
    env: Env,
)
    requires
        grounded(v, keys),
        !aggregate_in(v),
        mentions_exactly(v, keys),
        carries_keys_of(row, keys, record, env),
    ensures
        value_of(rewritten(v, keys), row, env) == value_of(v, record, env),
    decreases v, 0nat,
{
    lemma_key_from(v, keys, 0);
    match key_from(v, keys, 0) {
        Some(i) => {
            let name = expr_text(keys[i].value);
            assert(rewritten(v, keys) == column(name));
            assert(found_at(row, seq![name]) == field(row, name)) by {
                if let Some(x) = field(row, name) {
                    assert(follow(x, seq![name], 1) == Some(x));
                }
            }
        },
        None => match v {
            ValueExprView::Call { func, args } => {
                lemma_args_read_the_row(args, args.len(), keys, record, row, env);
                lemma_rewritten_args(args, args.len(), keys);
            },
            ValueExprView::Arith { op, left, right } => {
                law_a_rewritten_value_reads_the_row(*left, keys, record, row, env);
                law_a_rewritten_value_reads_the_row(*right, keys, record, row, env);
            },
            _ => {},
        },
    }
}

/// What a select list computes from the keys of a group, it computes as on the
/// record that opened the group.
pub proof fn law_a_selected_value_is_determined_by_the_keys(
    v: ValueExprView,
    keys: Seq<SelectItemView>,
    specs: Seq<AggSpecView>,
    group: GroupView,
    record: Fields,
    env: Env,
)
    requires
        grounded(v, keys),
        !aggregate_in(v),
        mentions_exactly(v, keys),
        forall|i: int| 0 <= i < keys.len() ==> #[trigger] stands_alone(keys, specs, i),
        group.keys == keys_on(keys, record, env),
    ensures
        value_of(rewritten(v, keys), group_row(keys, specs, group), env) == value_of(
            v,
            record,
            env,
        ),
{
    let row = group_row(keys, specs, group);
    assert forall|i: int| 0 <= i < keys.len() implies field(
        row,
        expr_text((#[trigger] keys[i]).value),
    ) == value_of(keys[i].value, record, env) by {
        assert(stands_alone(keys, specs, i));
        law_a_row_carries_its_keys(keys, specs, group, i);
    }
    law_a_rewritten_value_reads_the_row(v, keys, record, row, env);
}

proof fn lemma_keys_on_sound(keys: Seq<SelectItemView>, record: Fields, env: Env)
    requires
        sound_fields(record),
    ensures
        forall|i: int| 0 <= i < keys.len() ==> sound_opt(#[trigger] keys_on(keys, record, env)[i]),
{
    assert forall|i: int| 0 <= i < keys.len() implies sound_opt(
        #[trigger] keys_on(keys, record, env)[i],
    ) by {
        law_expressions_give_sound_values(keys[i].value, record, env);
    }
}

/// Whether keys are those of one of the first `n` records.
pub open spec fn key_of_some(
    keys: Seq<SelectItemView>,
    seen: Seq<(Fields, Env)>,
    n: nat,
    key: Seq<Option<Tree>>,
) -> bool {
    exists|r: int| 0 <= r < n && keys_on(keys, (#[trigger] seen[r]).0, seen[r].1) == key
}

proof fn lemma_first_keys(keys: Seq<SelectItemView>, seen: Seq<(Fields, Env)>, n: nat)
    requires
        n <= seen.len(),
        forall|r: int| 0 <= r < seen.len() ==> sound_fields((#[trigger] seen[r]).0),
    ensures
        forall|key: Seq<Option<Tree>>|
            first_keys(keys, seen, n).contains(key) <==> #[trigger] key_of_some(keys, seen, n, key),
        first_keys(keys, seen, n).no_duplicates(),
    decreases n,
{
    if n > 0 {
        let m = (n - 1) as nat;
        let before = first_keys(keys, seen, m);
        let now = first_keys(keys, seen, n);
        let key = keys_on(keys, seen[m as int].0, seen[m as int].1);
        lemma_first_keys(keys, seen, m);
        assert(sound_fields(seen[m as int].0));
        lemma_keys_on_sound(keys, seen[m as int].0, seen[m as int].1);
        assert forall|i: int| 0 <= i < before.len() implies (identity(
            #[trigger] before[i],
            before[i].len(),
        ) == record_identity(keys, seen[m as int]) <==> before[i] == key) by {
            assert(before.contains(before[i]));
            assert(key_of_some(keys, seen, m, before[i]));
            let r = choose|r: int|
                0 <= r < m && keys_on(keys, (#[trigger] seen[r]).0, seen[r].1) == before[i];
            assert(sound_fields(seen[r].0));
            lemma_keys_on_sound(keys, seen[r].0, seen[r].1);
            law_equal_keys_share_a_group(before[i], key);
        }
        assert(now == before || now == before.push(key));
        assert(now.contains(key)) by {
            if now == before {
                let i = choose|i: int|
                    0 <= i < before.len() && identity(#[trigger] before[i], before[i].len())
                        == record_identity(keys, seen[m as int]);
                assert(before[i] == key);
            } else {
                assert(now[before.len() as int] == key);
            }
        }
        assert forall|x: Seq<Option<Tree>>|
            now.contains(x) == #[trigger] key_of_some(keys, seen, n, x) by {
            if key_of_some(keys, seen, n, x) {
                let r = choose|r: int|
                    0 <= r < n && keys_on(keys, (#[trigger] seen[r]).0, seen[r].1) == x;
                if r < m {
                    assert(key_of_some(keys, seen, m, x));
                    let i = choose|i: int| 0 <= i < before.len() && before[i] == x;
                    assert(now[i] == x);
                }
            }
            if now.contains(x) {
                let i = choose|i: int| 0 <= i < now.len() && now[i] == x;
                if i < before.len() {
                    assert(before.contains(x));
                    assert(key_of_some(keys, seen, m, x));
                    let r = choose|r: int|
                        0 <= r < m && keys_on(keys, (#[trigger] seen[r]).0, seen[r].1) == x;
                    assert(0 <= r < n && keys_on(keys, seen[r].0, seen[r].1) == x);
                } else {
                    assert(keys_on(keys, seen[m as int].0, seen[m as int].1) == x);
                }
            }
        }
        if now != before {
            assert(!before.contains(key)) by {
                if before.contains(key) {
                    let i = choose|i: int| 0 <= i < before.len() && before[i] == key;
                    assert(before[i] == key);
                }
            }
        }
    }
}

/// The rows of a grouping: there is one for each of the keys that the records
/// have, and none for any other, in the order in which the keys are first seen.
/// Each carries the keys and, over the records that have them, the aggregates.
pub proof fn law_there_is_one_row_per_key(
    keys: Seq<SelectItemView>,
    specs: Seq<AggSpecView>,
    seen: Seq<(Fields, Env)>,
)
    requires
        forall|r: int| 0 <= r < seen.len() ==> sound_fields((#[trigger] seen[r]).0),
    ensures
        first_keys(keys, seen, seen.len()).no_duplicates(),
        forall|key: Seq<Option<Tree>>|
            first_keys(keys, seen, seen.len()).contains(key) <==> #[trigger] key_of_some(
                keys,
                seen,
                seen.len(),
                key,
            ),
        group_rows(keys, specs, folded(keys, specs, seen, seen.len())) == Seq::new(
            first_keys(keys, seen, seen.len()).len(),
            |i: int|
                {
                    let own = first_keys(keys, seen, seen.len())[i];
                    let rows = members(keys, seen, seen.len(), identity(own, own.len()));
                    group_row(
                        keys,
                        specs,
                        GroupView { keys: own, states: states_over(specs, rows) },
                    )
                },
        ),
{
    let groups = folded(keys, specs, seen, seen.len());
    let all = first_keys(keys, seen, seen.len());
    lemma_first_keys(keys, seen, seen.len());
    law_groups_stand_in_the_order_first_seen(keys, specs, seen);
    assert forall|i: int| 0 <= i < groups.len() implies #[trigger] groups[i] == (GroupView {
        keys: all[i],
        states: states_over(
            specs,
            members(keys, seen, seen.len(), identity(all[i], all[i].len())),
        ),
    }) by {
        law_a_group_folds_the_records_of_its_keys(keys, specs, seen, i);
    }
}

/// `count(*)` of a row is the number of records that have the keys of the row.
pub proof fn law_a_row_counts_the_records_of_its_keys(
    keys: Seq<SelectItemView>,
    specs: Seq<AggSpecView>,
    seen: Seq<(Fields, Env)>,
    i: int,
    j: int,
)
    requires
        listed_once(specs),
        0 <= j < specs.len(),
        specs[j].agg == Agg::Count,
        specs[j].arg is None,
        0 <= i < first_keys(keys, seen, seen.len()).len(),
        seen.len() <= u64::MAX,
    ensures
        field(
            group_rows(keys, specs, folded(keys, specs, seen, seen.len()))[i],
            specs[j].key,
        ) == Some(
            Tree::Number(
                Number::PosInt(
                    members(
                        keys,
                        seen,
                        seen.len(),
                        identity(
                            first_keys(keys, seen, seen.len())[i],
                            first_keys(keys, seen, seen.len())[i].len(),
                        ),
                    ).len() as u64,
                ),
            ),
        ),
{
    let group = folded(keys, specs, seen, seen.len())[i];
    let rows = members(keys, seen, seen.len(), group_identity(group));
    law_groups_stand_in_the_order_first_seen(keys, specs, seen);
    law_a_group_folds_the_records_of_its_keys(keys, specs, seen, i);
    lemma_members_few(keys, seen, seen.len(), group_identity(group));
    law_aggregates_take_their_own_values(specs, rows, j);
    law_count_of_everything_counts_records(specs[j], rows);
    law_a_row_carries_its_aggregates(keys, specs, group, j);
}

proof fn lemma_members_few(
    keys: Seq<SelectItemView>,
    seen: Seq<(Fields, Env)>,
    n: nat,
    ident: Seq<char>,
)
    ensures
        members(keys, seen, n, ident).len() <= n,
    decreases n,
{
    if 0 < n <= seen.len() {
        lemma_members_few(keys, seen, (n - 1) as nat, ident);
    }
}

/// Whether no two keys have the same identity.
spec fn keys_apart(rows: Seq<Seq<Option<Tree>>>) -> bool {
    forall|i: int, j: int|
        0 <= i < j < rows.len() ==> identity(#[trigger] rows[i], rows[i].len()) != identity(
            #[trigger] rows[j],
            rows[j].len(),
        )
}

/// Whether one of the keys has an identity.
spec fn known(rows: Seq<Seq<Option<Tree>>>, ident: Seq<char>) -> bool {
    exists|i: int| 0 <= i < rows.len() && identity(#[trigger] rows[i], rows[i].len()) == ident
}

proof fn lemma_keys_known(keys: Seq<SelectItemView>, seen: Seq<(Fields, Env)>, n: nat)
    requires
        n <= seen.len(),
    ensures
        keys_apart(first_keys(keys, seen, n)),
        forall|x: Seq<char>|
            (#[trigger] members(keys, seen, n, x)).len() > 0 ==> known(
                first_keys(keys, seen, n),
                x,
            ),
    decreases n,
{
    if n > 0 {
        let m = (n - 1) as nat;
        let before = first_keys(keys, seen, m);
        let now = first_keys(keys, seen, n);
        let ident = record_identity(keys, seen[m as int]);
        lemma_keys_known(keys, seen, m);
        if now != before {
            let own = keys_on(keys, seen[m as int].0, seen[m as int].1);
            assert(now == before.push(own));
            assert(now[before.len() as int] == own);
        }
        assert forall|x: Seq<char>| (#[trigger] members(keys, seen, n, x)).len() > 0 implies known(
            now,
            x,
        ) by {
            if x == ident {
                if now == before {
                    assert(known(before, ident));
                } else {
                    assert(identity(now[before.len() as int], now[before.len() as int].len()) == x);
                }
            } else {
                assert(members(keys, seen, m, x).len() > 0);
                let i = choose|i: int|
                    0 <= i < before.len() && identity(#[trigger] before[i], before[i].len()) == x;
                assert(now[i] == before[i]);
            }
        }
    }
}

/// How many of the first `n` records have one of these keys, counted key by key.
pub open spec fn tally(
    keys: Seq<SelectItemView>,
    seen: Seq<(Fields, Env)>,
    n: nat,
    rows: Seq<Seq<Option<Tree>>>,
) -> nat
    decreases rows.len(),
{
    if rows.len() == 0 {
        0
    } else {
        tally(keys, seen, n, rows.drop_last()) + members(
            keys,
            seen,
            n,
            identity(rows.last(), rows.last().len()),
        ).len()
    }
}

proof fn lemma_tally_step(
    keys: Seq<SelectItemView>,
    seen: Seq<(Fields, Env)>,
    n: nat,
    rows: Seq<Seq<Option<Tree>>>,
)
    requires
        0 < n <= seen.len(),
        keys_apart(rows),
    ensures
        tally(keys, seen, n, rows) == tally(keys, seen, (n - 1) as nat, rows) + (if known(
            rows,
            record_identity(keys, seen[n - 1]),
        ) {
            1nat
        } else {
            0nat
        }),
    decreases rows.len(),
{
    if rows.len() > 0 {
        let ident = record_identity(keys, seen[n - 1]);
        let rest = rows.drop_last();
        let own = identity(rows.last(), rows.last().len());
        assert(rows.last() == rows[rows.len() - 1]);
        assert forall|i: int, j: int| 0 <= i < j < rest.len() implies identity(
            #[trigger] rest[i],
            rest[i].len(),
        ) != identity(#[trigger] rest[j], rest[j].len()) by {
            assert(rest[i] == rows[i] && rest[j] == rows[j]);
        }
        lemma_tally_step(keys, seen, n, rest);
        if known(rest, ident) {
            let i = choose|i: int|
                0 <= i < rest.len() && identity(#[trigger] rest[i], rest[i].len()) == ident;
            assert(rows[i] == rest[i]);
            assert(own != ident);
            assert(known(rows, ident));
        } else if own == ident {
            assert(identity(rows[rows.len() - 1], rows[rows.len() - 1].len()) == ident);
            assert(known(rows, ident));
        } else if known(rows, ident) {
            let i = choose|i: int|
                0 <= i < rows.len() && identity(#[trigger] rows[i], rows[i].len()) == ident;
            assert(i < rest.len());
            assert(rest[i] == rows[i]);
        }
    }
}

proof fn lemma_tally(keys: Seq<SelectItemView>, seen: Seq<(Fields, Env)>, n: nat)
    requires
        n <= seen.len(),
    ensures
        tally(keys, seen, n, first_keys(keys, seen, n)) == n,
    decreases n,
{
    if n > 0 {
        let m = (n - 1) as nat;
        let before = first_keys(keys, seen, m);
        let now = first_keys(keys, seen, n);
        let ident = record_identity(keys, seen[m as int]);
        lemma_tally(keys, seen, m);
        lemma_keys_known(keys, seen, m);
        lemma_keys_known(keys, seen, n);
        lemma_tally_step(keys, seen, n, now);
        if now == before {
            assert(known(before, ident));
        } else {
            let own = keys_on(keys, seen[m as int].0, seen[m as int].1);
            assert(now == before.push(own));
            assert(now.drop_last() =~= before);
            assert(now.last() == own);
            assert(!known(before, ident));
            assert(members(keys, seen, m, ident).len() == 0);
            assert(now[before.len() as int] == own);
            assert(known(now, ident));
        }
    }
}

/// Every record is in one group and no other: what `count(*)` counts, row by row,
/// adds up to the number of records.
pub proof fn law_counts_add_up(keys: Seq<SelectItemView>, seen: Seq<(Fields, Env)>)
    ensures
        tally(keys, seen, seen.len(), first_keys(keys, seen, seen.len())) == seen.len(),
{
    lemma_tally(keys, seen, seen.len());
}

} // verus!
