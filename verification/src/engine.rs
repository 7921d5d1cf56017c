//! Query execution: filter, project, group, order, limit.
//!
//! There are three modes. Without `order by` and `group by` the engine streams:
//! each record is filtered and projected as it arrives, and once `limit` rows are
//! out the engine says that it is done. With `order by` rows are held until the
//! end. A grouped query holds one accumulator per group and aggregate.

use crate::arrange::{arrange, arranged, keyed, keyed_rows, Keyed, KeyedView};
use crate::ast::{
    grouped, items_view, texts, OrderBy, OrderByView, Query, QueryView, SelectItemView, Selection,
    SelectionView,
};
use crate::eval::{eval, eval_value, holds, value_of, Env};
use crate::group::{
    aggregates_of, covered, folded_in, group_rows, plan_of, records_view, GroupView, Grouper, Plan,
    PlanView,
};
use crate::value::{field, tree_opt, with_field, Fields, Record, Tree, Value};
use vstd::prelude::*;

verus! {

/// One row of the output.
pub type Row = Record;

/// The row that the first `n` entries of a select list make of a record. A
/// missing value is left out.
pub open spec fn projected_items(
    items: Seq<SelectItemView>,
    n: nat,
    record: Fields,
    env: Env,
) -> Fields
    decreases n,
{
    if n == 0 || n > items.len() {
        Fields::empty()
    } else {
        let before = projected_items(items, (n - 1) as nat, record, env);
        match value_of(items[n - 1].value, record, env) {
            Some(v) => with_field(before, items[n - 1].label, v),
            None => before,
        }
    }
}

/// The row that a selection makes of a record.
pub open spec fn projected(select: SelectionView, record: Fields, env: Env) -> Fields {
    match select {
        SelectionView::All => record,
        SelectionView::Items(items) => projected_items(items, items.len(), record, env),
    }
}

/// Builds the row of a record.
fn project(select: &Selection, record: &Record, env: Env) -> (r: Row)
    ensures
        r@ == projected(select@, record@, env),
{
    match select {
        Selection::All => record.copy(),
        Selection::Items(items) => {
            let mut out = Record::new();
            let mut i: usize = 0;
            while i < items.len()
                invariant
                    i <= items@.len(),
                    out@ == projected_items(items_view(items@), i as nat, record@, env),
                decreases items.len() - i,
            {
                if let Some(v) = eval_value(&items[i].value, record, env) {
                    out.insert(items[i].label.clone(), v);
                }
                i += 1;
            }
            out
        },
    }
}

/// Whether each row goes out as its record arrives.
pub open spec fn streams(q: QueryView) -> bool {
    !grouped(q) && q.order_by is None
}

/// Whether a record passes the filter of a query.
pub open spec fn passes(q: QueryView, record: Fields, env: Env) -> bool {
    match q.filter {
        Some(e) => holds(e, record, env),
        None => true,
    }
}

/// What an engine holds: how many rows may still go out, where that is limited,
/// the rows held for sorting, and the groups.
#[verifier::ext_equal]
pub struct EngineView {
    pub remaining: Option<usize>,
    pub buffer: Seq<KeyedView>,
    pub groups: Seq<GroupView>,
}

/// The engine before the first record.
pub open spec fn started(q: QueryView) -> EngineView {
    EngineView { remaining: q.limit, buffer: Seq::empty(), groups: Seq::empty() }
}

/// Whether no further input can change the output.
pub open spec fn done(q: QueryView, s: EngineView) -> bool {
    streams(q) && s.remaining == Some(0usize)
}

/// The value that a row is sorted on.
pub open spec fn sort_value(order: Option<OrderByView>, record: Fields, env: Env) -> Option<Tree> {
    match order {
        Some(o) => value_of(o.value, record, env),
        None => None,
    }
}

/// The engine behind one more record, and the row that goes out at once.
pub open spec fn accepted(
    q: QueryView,
    s: EngineView,
    record: Fields,
    env: Env,
) -> (EngineView, Option<Fields>) {
    if done(q, s) || !passes(q, record, env) {
        (s, None)
    } else if grouped(q) {
        let groups = folded_in(s.groups, q.group_by, aggregates_of(q), record, env);
        (EngineView { groups, ..s }, None)
    } else if q.order_by is Some {
        let row = (sort_value(q.order_by, record, env), projected(q.select, record, env));
        (EngineView { buffer: s.buffer.push(row), ..s }, None)
    } else {
        let remaining = match s.remaining {
            Some(n) => Some((n - 1) as usize),
            None => None,
        };
        (EngineView { remaining, ..s }, Some(projected(q.select, record, env)))
    }
}

/// A folded row with the first `n` of its selected values, as far as it has no
/// field of that name. This is what `order by` sees, so that it can sort on a
/// column by its label.
pub open spec fn with_labels(row: Fields, out: Fields, n: nat) -> Fields
    decreases n,
{
    if n == 0 || n > out.len() {
        row
    } else {
        let before = with_labels(row, out, (n - 1) as nat);
        if field(before, out[n - 1].0) is Some {
            before
        } else {
            with_field(before, out[n - 1].0, out[n - 1].1)
        }
    }
}

/// What becomes of the folded row of a group.
pub open spec fn group_result(plan: PlanView, row: Fields, env: Env) -> KeyedView {
    let out = projected(plan.select, row, env);
    (sort_value(plan.order_by, with_labels(row, out, out.len()), env), out)
}

/// What becomes of the first `n` folded rows: those that `having` keeps.
pub open spec fn group_results(
    plan: PlanView,
    rows: Seq<Fields>,
    n: nat,
    env: Env,
) -> Seq<KeyedView>
    decreases n,
{
    if n == 0 || n > rows.len() {
        Seq::empty()
    } else {
        let before = group_results(plan, rows, (n - 1) as nat, env);
        let kept = match plan.having {
            Some(e) => holds(e, rows[n - 1], env),
            None => true,
        };
        if kept {
            before.push(group_result(plan, rows[n - 1], env))
        } else {
            before
        }
    }
}

/// Rows in the order that was asked for.
pub open spec fn ordered(order: Option<OrderByView>, rows: Seq<KeyedView>) -> Seq<KeyedView> {
    match order {
        Some(o) => arranged(rows, o.descending),
        None => rows,
    }
}

/// Rows without their sort values.
pub open spec fn bare(rows: Seq<KeyedView>) -> Seq<Fields> {
    Seq::new(rows.len(), |i: int| rows[i].1)
}

/// The first rows, as many as a limit allows.
pub open spec fn capped(limit: Option<usize>, rows: Seq<Fields>) -> Seq<Fields> {
    match limit {
        Some(n) => if n < rows.len() {
            rows.subrange(0, n as int)
        } else {
            rows
        },
        None => rows,
    }
}

/// The rows held at the end, not yet in order.
pub open spec fn held(q: QueryView, s: EngineView, env: Env) -> Seq<KeyedView> {
    if grouped(q) {
        let groups = covered(q.group_by, aggregates_of(q), s.groups);
        group_results(
            plan_of(q),
            group_rows(q.group_by, aggregates_of(q), groups),
            groups.len(),
            env,
        )
    } else {
        s.buffer
    }
}

/// The rows that go out at the end.
pub open spec fn finished(q: QueryView, s: EngineView, env: Env) -> Seq<Fields> {
    if streams(q) {
        Seq::empty()
    } else {
        capped(q.limit, bare(ordered(q.order_by, held(q, s, env))))
    }
}

fn sort_key(order: &Option<OrderBy>, record: &Record, env: Env) -> (r: Option<Value>)
    ensures
        tree_opt(r) == sort_value(crate::ast::order_opt(*order), record@, env),
{
    match order {
        Some(o) => eval_value(&o.value, record, env),
        None => None,
    }
}

fn label(row: &Record, out: &Record) -> (r: Record)
    ensures
        r@ == with_labels(row@, out@, out@.len()),
{
    let mut all = row.copy();
    let mut i: usize = 0;
    while i < out.entries.len()
        invariant
            i <= out.entries@.len(),
            all@ == with_labels(row@, out@, i as nat),
        decreases out.entries.len() - i,
    {
        assert(out@[i as int] == (out.entries@[i as int].0@, out.entries@[i as int].1@));
        let missing = match all.get(out.entries[i].0.as_str()) {
            Some(_) => false,
            None => true,
        };
        if missing {
            all.insert(out.entries[i].0.clone(), out.entries[i].1.copy());
        }
        i += 1;
    }
    all
}

fn select_groups(plan: &Plan, rows: &Vec<Record>, env: Env) -> (r: Vec<Keyed>)
    ensures
        keyed_rows(r@) == group_results(plan@, records_view(rows@), rows@.len(), env),
{
    let mut out: Vec<Keyed> = Vec::new();
    let mut i: usize = 0;
    assert(keyed_rows(out@) =~= Seq::empty());
    while i < rows.len()
        invariant
            i <= rows@.len(),
            keyed_rows(out@) == group_results(plan@, records_view(rows@), i as nat, env),
        decreases rows.len() - i,
    {
        let row = &rows[i];
        assert(row@ == records_view(rows@)[i as int]);
        let kept = match &plan.having {
            Some(e) => eval(e, row, env),
            None => true,
        };
        if kept {
            let picked = project(&plan.select, row, env);
            let key = match &plan.order_by {
                Some(_) => sort_key(&plan.order_by, &label(row, &picked), env),
                None => None,
            };
            let one: Keyed = (key, picked);
            let ghost before = keyed_rows(out@);
            out.push(one);
            assert(keyed_rows(out@) =~= before.push(keyed(one)));
        }
        i += 1;
    }
    out
}

/// The rows without their sort values, at most as many as the limit allows.
fn cap(rows: Vec<Keyed>, limit: Option<usize>) -> (r: Vec<Row>)
    ensures
        records_view(r@) == capped(limit, bare(keyed_rows(rows@))),
{
    let n: usize = match limit {
        Some(n) => if n < rows.len() {
            n
        } else {
            rows.len()
        },
        None => rows.len(),
    };
    let mut out: Vec<Row> = Vec::new();
    let mut from = rows;
    from.truncate(n);
    let ghost kept = from@;
    assert(kept =~= rows@.subrange(0, n as int));
    while from.len() > 0
        invariant
            records_view(out@) == bare(keyed_rows(kept)).subrange(
                from@.len() as int,
                kept.len() as int,
            ).reverse(),
            from@.len() <= kept.len(),
            from@ == kept.subrange(0, from@.len() as int),
        decreases from.len(),
    {
        let ghost was = from@;
        let ghost had = records_view(out@);
        match from.pop() {
            Some((_, row)) => {
                out.push(row);
                assert(row@ == bare(keyed_rows(kept))[was.len() - 1]);
                assert(records_view(out@) =~= had.push(row@));
                assert(records_view(out@) =~= bare(keyed_rows(kept)).subrange(
                    from@.len() as int,
                    kept.len() as int,
                ).reverse());
            },
            None => {},
        }
    }
    let mut rows_out: Vec<Row> = Vec::new();
    let ghost all = out@;
    while out.len() > 0
        invariant
            rows_out@ == all.subrange(out@.len() as int, all.len() as int).reverse(),
            out@.len() <= all.len(),
            out@ == all.subrange(0, out@.len() as int),
        decreases out.len(),
    {
        let ghost had = rows_out@;
        match out.pop() {
            Some(row) => {
                rows_out.push(row);
                assert(rows_out@ =~= all.subrange(out@.len() as int, all.len() as int).reverse());
            },
            None => {},
        }
    }
    assert(records_view(rows_out@) =~= capped(limit, bare(keyed_rows(rows@)))) by {
        assert(bare(keyed_rows(kept)) =~= bare(keyed_rows(rows@)).subrange(0, n as int));
        assert(rows_out@ =~= all.reverse());
        assert(records_view(all) == bare(keyed_rows(kept)).subrange(0, kept.len() as int).reverse());
        assert forall|i: int| 0 <= i < n implies #[trigger] records_view(rows_out@)[i] == bare(
            keyed_rows(kept),
        )[i] by {
            assert(rows_out@[i] == all[n - 1 - i]);
            assert(records_view(all)[n - 1 - i] == all[n - 1 - i]@);
        }
    }
    rows_out
}

/// Runs one query.
pub struct Engine<'q> {
    query: &'q Query,
    plan: Plan,
    grouper: Grouper<'q>,
    /// Rows held for sorting.
    buffer: Vec<Keyed>,
    /// How many rows may still go out as records arrive.
    remaining: Option<usize>,
    grouping: bool,
}

impl<'q> View for Engine<'q> {
    type V = EngineView;

    closed spec fn view(&self) -> EngineView {
        EngineView {
            remaining: self.remaining,
            buffer: keyed_rows(self.buffer@),
            groups: self.grouper@,
        }
    }
}

impl<'q> Engine<'q> {
    /// The query that is run.
    pub closed spec fn query(&self) -> QueryView {
        self.query@
    }

    /// The parts belong to the query.
    pub closed spec fn wf(&self) -> bool {
        &&& self.plan@ == plan_of(self.query@)
        &&& self.grouper.wf()
        &&& self.grouper.keys() == self.query@.group_by
        &&& self.grouper.aggregates() == aggregates_of(self.query@)
        &&& self.grouping == grouped(self.query@)
    }

    pub fn new(query: &'q Query) -> (r: Self)
        ensures
            r.wf(),
            r.query() == query@,
            r@ == started(query@),
    {
        let r = Engine {
            query,
            plan: Plan::new(query),
            grouper: Grouper::new(query),
            buffer: Vec::new(),
            remaining: query.limit,
            grouping: query.is_grouped(),
        };
        assert(r@ =~= started(query@));
        r
    }

    /// The columns, where the query names them. Those of `select *` depend on
    /// the data.
    pub fn columns(&self) -> (r: Option<Vec<String>>)
        ensures
            match self.query().select {
                SelectionView::All => r is None,
                SelectionView::Items(items) => r matches Some(labels) && texts(labels@) == Seq::new(
                    items.len(),
                    |i: int| items[i].label,
                ),
            },
    {
        match &self.query.select {
            Selection::All => None,
            Selection::Items(items) => {
                let mut out: Vec<String> = Vec::new();
                let mut i: usize = 0;
                while i < items.len()
                    invariant
                        i <= items@.len(),
                        out@.len() == i,
                        forall|j: int|
                            0 <= j < i ==> (#[trigger] out@[j])@ == items_view(items@)[j].label,
                    decreases items.len() - i,
                {
                    out.push(items[i].label.clone());
                    i += 1;
                }
                assert(texts(out@) =~= Seq::new(
                    items_view(items@).len(),
                    |i: int| items_view(items@)[i].label,
                ));
                Some(out)
            },
        }
    }

    /// Whether no further input can change the output.
    pub fn is_done(&self) -> (r: bool)
        requires
            self.wf(),
        ensures
            r == done(self.query(), self@),
    {
        !self.grouping && self.query.order_by.is_none() && (match self.remaining {
            Some(n) => n == 0,
            None => false,
        })
    }

    /// Offers one record. A row that it gives back goes out at once.
    pub fn accept(&mut self, record: &Record, env: Env) -> (r: Option<Row>)
        requires
            old(self).wf(),
        ensures
            final(self).wf(),
            final(self).query() == old(self).query(),
            final(self)@ == accepted(old(self).query(), old(self)@, record@, env).0,
            match r {
                Some(row) => accepted(old(self).query(), old(self)@, record@, env).1 == Some(row@),
                None => accepted(old(self).query(), old(self)@, record@, env).1 is None,
            },
    {
        if self.is_done() {
            return None;
        }
        let passed = match &self.query.filter {
            Some(e) => eval(e, record, env),
            None => true,
        };
        if !passed {
            return None;
        }
        if self.grouping {
            self.grouper.accept(record, env);
            return None;
        }
        let row = project(&self.query.select, record, env);
        if self.query.order_by.is_some() {
            let one: Keyed = (sort_key(&self.query.order_by, record, env), row);
            let ghost before = keyed_rows(self.buffer@);
            self.buffer.push(one);
            assert(keyed_rows(self.buffer@) =~= before.push(keyed(one)));
            return None;
        }
        self.remaining = match self.remaining {
            Some(n) => Some(n - 1),
            None => None,
        };
        Some(row)
    }

    /// Gives out the rows that were held, in order and as many as the limit
    /// allows. There are none where rows went out as their records arrived.
    pub fn finish(&mut self, env: Env) -> (r: Vec<Row>)
        requires
            old(self).wf(),
        ensures
            final(self).wf(),
            final(self).query() == old(self).query(),
            records_view(r@) == finished(old(self).query(), old(self)@, env),
            final(self)@ == (EngineView {
                remaining: old(self)@.remaining,
                buffer: Seq::empty(),
                groups: Seq::empty(),
            }),
    {
        let mut rows: Vec<Keyed> = Vec::new();
        std::mem::swap(&mut rows, &mut self.buffer);
        let mut grouper = Grouper::new(self.query);
        std::mem::swap(&mut grouper, &mut self.grouper);
        assert(keyed_rows(self.buffer@) =~= Seq::empty());
        if self.grouping {
            grouper.cover();
            let folded = grouper.finish();
            rows = select_groups(&self.plan, &folded, env);
        } else if self.query.order_by.is_none() {
            let none: Vec<Row> = Vec::new();
            assert(records_view(none@) =~= Seq::empty());
            return none;
        }
        let sorted = match &self.query.order_by {
            Some(o) => arrange(rows, o.descending),
            None => rows,
        };
        cap(sorted, self.query.limit)
    }
}

} // verus!
