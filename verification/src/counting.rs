//! Counting the pairs of a relation by rows and by columns.
//!
//! The postings of an index are a relation between terms and documents. Its
//! pairs can be counted term by term or document by document, and both counts
//! are the same number.
use vstd::prelude::*;

verus! {

/// The sum of the numbers.
pub open spec fn sum_of(numbers: Seq<nat>) -> nat
    decreases numbers.len(),
{
    if numbers.len() == 0 {
        0
    } else {
        sum_of(numbers.drop_last()) + numbers.last()
    }
}

/// No number is larger than the sum of all.
pub proof fn lemma_sum_bound(numbers: Seq<nat>, i: int)
    requires
        0 <= i < numbers.len(),
    ensures
        numbers[i] <= sum_of(numbers),
    decreases numbers.len(),
{
    if i < numbers.len() - 1 {
        lemma_sum_bound(numbers.drop_last(), i);
    }
}

/// How many of `ys` stand in the relation to `x`.
pub open spec fn row<A, B>(r: spec_fn(A, B) -> bool, x: A, ys: Seq<B>) -> nat
    decreases ys.len(),
{
    if ys.len() == 0 {
        0
    } else {
        row(r, x, ys.drop_last()) + if r(x, ys.last()) {
            1nat
        } else {
            0nat
        }
    }
}

/// How many of `xs` stand in the relation to `y`.
pub open spec fn column<A, B>(r: spec_fn(A, B) -> bool, xs: Seq<A>, y: B) -> nat
    decreases xs.len(),
{
    if xs.len() == 0 {
        0
    } else {
        column(r, xs.drop_last(), y) + if r(xs.last(), y) {
            1nat
        } else {
            0nat
        }
    }
}

/// The pairs of `xs` and `ys` in the relation, counted row by row.
pub open spec fn by_rows<A, B>(r: spec_fn(A, B) -> bool, xs: Seq<A>, ys: Seq<B>) -> nat
    decreases xs.len(),
{
    if xs.len() == 0 {
        0
    } else {
        by_rows(r, xs.drop_last(), ys) + row(r, xs.last(), ys)
    }
}

/// The pairs of `xs` and `ys` in the relation, counted column by column.
pub open spec fn by_columns<A, B>(r: spec_fn(A, B) -> bool, xs: Seq<A>, ys: Seq<B>) -> nat
    decreases ys.len(),
{
    if ys.len() == 0 {
        0
    } else {
        by_columns(r, xs, ys.drop_last()) + column(r, xs, ys.last())
    }
}

/// One more row adds its count to the count by columns.
pub proof fn lemma_columns_push<A, B>(r: spec_fn(A, B) -> bool, xs: Seq<A>, x: A, ys: Seq<B>)
    ensures
        by_columns(r, xs.push(x), ys) == by_columns(r, xs, ys) + row(r, x, ys),
    decreases ys.len(),
{
    if ys.len() > 0 {
        lemma_columns_push(r, xs, x, ys.drop_last());
        assert(xs.push(x).drop_last() =~= xs);
    }
}

/// Counting by rows and counting by columns give the same number.
pub proof fn lemma_exchange<A, B>(r: spec_fn(A, B) -> bool, xs: Seq<A>, ys: Seq<B>)
    ensures
        by_rows(r, xs, ys) == by_columns(r, xs, ys),
    decreases xs.len(), ys.len(),
{
    if xs.len() == 0 {
        if ys.len() > 0 {
            lemma_exchange(r, xs, ys.drop_last());
        }
    } else {
        lemma_exchange(r, xs.drop_last(), ys);
        lemma_columns_push(r, xs.drop_last(), xs.last(), ys);
        assert(xs.drop_last().push(xs.last()) =~= xs);
    }
}

/// A set that holds those of `ys` that stand in the relation to `x` has as
/// many elements as the row counts, where `ys` holds nothing twice.
pub proof fn lemma_row_counts<A, B>(r: spec_fn(A, B) -> bool, x: A, ys: Seq<B>, s: Set<B>)
    requires
        ys.no_duplicates(),
        forall|y: B| s.contains(y) <==> ys.contains(y) && r(x, y),
    ensures
        s.finite(),
        s.len() == row(r, x, ys),
    decreases ys.len(),
{
    if ys.len() == 0 {
        assert(s =~= Set::<B>::empty());
    } else {
        let front = ys.drop_last();
        let last = ys.last();
        let rest = s.remove(last);
        assert(ys[ys.len() - 1] == last);
        assert forall|y: B| rest.contains(y) <==> front.contains(y) && r(x, y) by {
            if front.contains(y) {
                let j = front.index_of(y);
                assert(ys[j] == y);
                assert(y != last);
            }
            if ys.contains(y) && y != last {
                let j = ys.index_of(y);
                assert(front[j] == y);
            }
        }
        lemma_row_counts(r, x, front, rest);
        if r(x, last) {
            assert(s =~= rest.insert(last));
        } else {
            assert(s =~= rest);
        }
    }
}

/// A set that holds those of `xs` that stand in the relation to `y` has as
/// many elements as the column counts, where `xs` holds nothing twice.
pub proof fn lemma_column_counts<A, B>(r: spec_fn(A, B) -> bool, xs: Seq<A>, y: B, s: Set<A>)
    requires
        xs.no_duplicates(),
        forall|x: A| s.contains(x) <==> xs.contains(x) && r(x, y),
    ensures
        s.finite(),
        s.len() == column(r, xs, y),
    decreases xs.len(),
{
    if xs.len() == 0 {
        assert(s =~= Set::<A>::empty());
    } else {
        let front = xs.drop_last();
        let last = xs.last();
        let rest = s.remove(last);
        assert(xs[xs.len() - 1] == last);
        assert forall|x: A| rest.contains(x) <==> front.contains(x) && r(x, y) by {
            if front.contains(x) {
                let j = front.index_of(x);
                assert(xs[j] == x);
                assert(x != last);
            }
            if xs.contains(x) && x != last {
                let j = xs.index_of(x);
                assert(front[j] == x);
            }
        }
        lemma_column_counts(r, front, y, rest);
        if r(last, y) {
            assert(s =~= rest.insert(last));
        } else {
            assert(s =~= rest);
        }
    }
}

/// Numbers that are the row counts add up to the count by rows.
pub proof fn lemma_sum_of_rows<A, B>(
    r: spec_fn(A, B) -> bool,
    xs: Seq<A>,
    ys: Seq<B>,
    numbers: Seq<nat>,
)
    requires
        numbers.len() == xs.len(),
        forall|i: int| 0 <= i < xs.len() ==> #[trigger] numbers[i] == row(r, xs[i], ys),
    ensures
        sum_of(numbers) == by_rows(r, xs, ys),
    decreases xs.len(),
{
    if xs.len() > 0 {
        lemma_sum_of_rows(r, xs.drop_last(), ys, numbers.drop_last());
    }
}

/// Numbers that are the column counts add up to the count by columns.
pub proof fn lemma_sum_of_columns<A, B>(
    r: spec_fn(A, B) -> bool,
    xs: Seq<A>,
    ys: Seq<B>,
    numbers: Seq<nat>,
)
    requires
        numbers.len() == ys.len(),
        forall|j: int| 0 <= j < ys.len() ==> #[trigger] numbers[j] == column(r, xs, ys[j]),
    ensures
        sum_of(numbers) == by_columns(r, xs, ys),
    decreases ys.len(),
{
    if ys.len() > 0 {
        lemma_sum_of_columns(r, xs, ys.drop_last(), numbers.drop_last());
    }
}

} // verus!
