//! What holds of the aggregates over whole columns of values.

use crate::ast::Agg;
use crate::eval::number_tree;
use crate::group::narrowed;
use crate::group_laws::{
    aggregate_of, distinct_texts, key_text, law_count_distinct_counts_values,
    law_totals_go_over_the_numbers, numbers_among, total,
};
use crate::json::json_text;
use crate::json_laws::law_values_are_told_apart;
use crate::num::{lemma_sum_exact, lemma_whole_parts, ratio, rest_part, whole_int, HIDDEN, Num};
use crate::value::{sound, Number, Tree};
use vstd::prelude::*;

verus! {

/// A whole number that an aggregate gives is one, as long as it is exact, and any other
/// stays a number with a part behind the point.
pub proof fn law_whole_totals_are_whole_numbers(n: int, x: Num)
    requires
        -(2 * HIDDEN) < n < 2 * HIDDEN,
    ensures
        narrowed(whole_int(n)) == Tree::Number(Number::of_int(n as i64)),
        x.finite() && rest_part(x) > 0 ==> narrowed(x) == Tree::Number(Number::Float(x)),
        !x.finite() ==> narrowed(x) == Tree::Null,
{
    lemma_whole_parts(n);
}

/// Whole numbers as the values of a column.
pub open spec fn whole_values(numbers: Seq<int>) -> Seq<Option<Tree>> {
    Seq::new(numbers.len(), |i: int| Some(number_tree(whole_int(numbers[i]))))
}

/// Whole numbers added up.
pub open spec fn whole_sum(numbers: Seq<int>) -> int
    decreases numbers.len(),
{
    if numbers.len() == 0 {
        0
    } else {
        whole_sum(numbers.drop_last()) + numbers.last()
    }
}

/// Whether whole numbers, and what they come to from the first on, are small enough to
/// be exact.
pub open spec fn exact_so_far(numbers: Seq<int>) -> bool
    decreases numbers.len(),
{
    numbers.len() > 0 ==> -0x20_0000_0000_0000 < numbers.last() < 0x20_0000_0000_0000 && -0x20_0000_0000_0000
        < whole_sum(numbers) < 0x20_0000_0000_0000 && exact_so_far(numbers.drop_last())
}

proof fn lemma_whole_sum(numbers: Seq<int>)
    requires
        exact_so_far(numbers),
    ensures
        numbers_among(whole_values(numbers)).len() == numbers.len(),
        total(numbers_among(whole_values(numbers))) == whole_int(whole_sum(numbers)),
        -0x20_0000_0000_0000 < whole_sum(numbers) < 0x20_0000_0000_0000,
    decreases numbers.len(),
{
    let values = whole_values(numbers);
    if numbers.len() > 0 {
        let rest = numbers.drop_last();
        lemma_whole_sum(rest);
        assert(values.drop_last() =~= whole_values(rest));
        let n = numbers.last();
        lemma_whole_parts(n);
        assert(values.last() == Some(number_tree(whole_int(n))));
        lemma_sum_exact(whole_sum(rest), n);
        let before = numbers_among(values.drop_last());
        assert(numbers_among(values) == before.push(whole_int(n)));
        assert(before.push(whole_int(n)).drop_last() =~= before);
    }
}

/// The sum of whole numbers is their sum, and the average that over how many they are.
pub proof fn law_whole_numbers_add_up(numbers: Seq<int>)
    requires
        0 < numbers.len() <= u64::MAX,
        exact_so_far(numbers),
    ensures
        aggregate_of(Agg::Sum, whole_values(numbers)) == Some(
            Tree::Number(Number::of_int(whole_sum(numbers) as i64)),
        ),
        aggregate_of(Agg::Avg, whole_values(numbers)) == Some(
            narrowed(ratio(whole_int(whole_sum(numbers)), whole_int(numbers.len() as int))),
        ),
{
    lemma_whole_sum(numbers);
    law_totals_go_over_the_numbers(whole_values(numbers));
    law_whole_totals_are_whole_numbers(whole_sum(numbers), whole_int(0));
}

/// Whether all that is there of a column is sound.
pub open spec fn sound_values(values: Seq<Option<Tree>>) -> bool {
    forall|i: int| 0 <= i < values.len() ==> ((#[trigger] values[i]) matches Some(v) ==> sound(v))
}

proof fn lemma_distinct_finite(values: Seq<Option<Tree>>)
    ensures
        distinct_texts(values).finite(),
        distinct_texts(values).len() <= values.len(),
    decreases values.len(),
{
    if values.len() > 0 {
        lemma_distinct_finite(values.drop_last());
    }
}

/// `count_distinct` counts a value where it comes for the first time, and not again
/// where an equal one came before; what is missing does not count.
pub proof fn law_each_value_counts_once(values: Seq<Option<Tree>>, v: Tree, n: u64)
    requires
        sound_values(values),
        sound(v),
        values.len() < u64::MAX,
        aggregate_of(Agg::CountDistinct, values) == Some(Tree::Number(Number::PosInt(n))),
    ensures
        aggregate_of(Agg::CountDistinct, Seq::empty()) == Some(Tree::Number(Number::PosInt(0))),
        aggregate_of(Agg::CountDistinct, values.push(None)) == Some(
            Tree::Number(Number::PosInt(n)),
        ),
        values.contains(Some(v)) ==> aggregate_of(Agg::CountDistinct, values.push(Some(v))) == Some(
            Tree::Number(Number::PosInt(n)),
        ),
        !values.contains(Some(v)) ==> aggregate_of(Agg::CountDistinct, values.push(Some(v)))
            == Some(Tree::Number(Number::PosInt((n + 1) as u64))),
{
    let none = Seq::<Option<Tree>>::empty();
    let more = values.push(Some(v));
    let blank = values.push(None);
    law_count_distinct_counts_values(none);
    law_count_distinct_counts_values(values);
    law_count_distinct_counts_values(more);
    law_count_distinct_counts_values(blank);
    lemma_distinct_finite(values);
    assert(more.drop_last() =~= values);
    assert(blank.drop_last() =~= values);
    let seen = distinct_texts(values);
    let t = json_text(v);
    assert(distinct_texts(more) == seen.insert(t));
    assert(distinct_texts(blank) == seen);
    assert(seen.contains(t) == values.contains(Some(v))) by {
        if values.contains(Some(v)) {
            let i = choose|i: int| 0 <= i < values.len() && values[i] == Some(v);
            assert(key_text(values[i]) == Some(t));
        }
        if seen.contains(t) {
            let i = choose|i: int| 0 <= i < values.len() && key_text(#[trigger] values[i]) == Some(t);
            let w = values[i]->0;
            law_values_are_told_apart(w, v);
            assert(values[i] == Some(v));
        }
    }
}

} // verus!
