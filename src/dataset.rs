//! Datasets as rows of integers (features first, class label last) and
//! their partition on a threshold.
use vstd::prelude::*;
use crate::tree::Tree;

verus! {

/// The rows of a dataset as sequences.
pub open spec fn rows_of(d: Seq<Vec<i32>>) -> Seq<Seq<i32>> {
    d.map_values(|r: Vec<i32>| r@)
}

/// Every row has `w` columns.
pub open spec fn has_width(rows: Seq<Seq<i32>>, w: int) -> bool {
    forall|i: int| 0 <= i < rows.len() ==> #[trigger] rows[i].len() == w
}

/// A non-empty, rectangular dataset with at least one feature and the label.
pub open spec fn is_dataset(rows: Seq<Seq<i32>>) -> bool {
    &&& rows.len() > 0
    &&& rows[0].len() >= 2
    &&& has_width(rows, rows[0].len() as int)
}

/// Number of feature columns (all but the last).
pub open spec fn num_features(rows: Seq<Seq<i32>>) -> int {
    rows[0].len() - 1
}

/// The label column: the last value of every row.
pub open spec fn labels(rows: Seq<Seq<i32>>) -> Seq<i32> {
    Seq::new(rows.len(), |i: int| rows[i].last())
}

/// A row goes to the left side of `(f, t)` when its feature `f` is at most `t`.
pub open spec fn goes_left(row: Seq<i32>, f: int, t: i32) -> bool {
    row[f] <= t
}

/// The rows, in order, that go to the left side of `(f, t)` (`left == true`)
/// or to its right side (`left == false`).
pub open spec fn side(rows: Seq<Seq<i32>>, f: int, t: i32, left: bool) -> Seq<Seq<i32>>
    decreases rows.len(),
{
    if rows.len() == 0 {
        rows
    } else if goes_left(rows.last(), f, t) == left {
        side(rows.drop_last(), f, t, left).push(rows.last())
    } else {
        side(rows.drop_last(), f, t, left)
    }
}

/// The two sides of a split partition the rows.
pub proof fn lemma_sides_len(rows: Seq<Seq<i32>>, f: int, t: i32)
    ensures
        side(rows, f, t, true).len() + side(rows, f, t, false).len() == rows.len(),
    decreases rows.len(),
{
    if rows.len() > 0 {
        lemma_sides_len(rows.drop_last(), f, t);
    }
}

/// Every row of a side is a row of the dataset and lies on that side.
pub proof fn lemma_side_rows(rows: Seq<Seq<i32>>, f: int, t: i32, left: bool)
    ensures
        forall|k: int|
            0 <= k < side(rows, f, t, left).len() ==> rows.contains(
                #[trigger] side(rows, f, t, left)[k],
            ) && goes_left(side(rows, f, t, left)[k], f, t) == left,
    decreases rows.len(),
{
    if rows.len() > 0 {
        let pre = rows.drop_last();
        lemma_side_rows(pre, f, t, left);
        assert forall|k: int|
            0 <= k < side(rows, f, t, left).len() implies rows.contains(
                #[trigger] side(rows, f, t, left)[k],
            ) && goes_left(side(rows, f, t, left)[k], f, t) == left by {
            if k < side(pre, f, t, left).len() {
                let r = side(pre, f, t, left)[k];
                let i = choose|i: int| 0 <= i < pre.len() && pre[i] == r;
                assert(rows[i] == r);
            } else {
                assert(rows[rows.len() - 1] == rows.last());
            }
        }
    }
}

/// The sides of a dataset of width `w` have width `w`.
pub proof fn lemma_side_width(rows: Seq<Seq<i32>>, f: int, t: i32, left: bool, w: int)
    requires
        has_width(rows, w),
    ensures
        has_width(side(rows, f, t, left), w),
{
    lemma_side_rows(rows, f, t, left);
    assert forall|k: int| 0 <= k < side(rows, f, t, left).len() implies #[trigger] side(
        rows,
        f,
        t,
        left,
    )[k].len() == w by {
        let r = side(rows, f, t, left)[k];
        assert(rows.contains(r));
    }
}

/// A row of the dataset is found in the side that it goes to.
pub proof fn lemma_side_contains(rows: Seq<Seq<i32>>, f: int, t: i32, row: Seq<i32>)
    requires
        rows.contains(row),
    ensures
        side(rows, f, t, goes_left(row, f, t)).contains(row),
    decreases rows.len(),
{
    let left = goes_left(row, f, t);
    let pre = rows.drop_last();
    if rows.last() == row {
        let s = side(rows, f, t, left);
        assert(s[s.len() - 1] == row);
    } else {
        let i = choose|i: int| 0 <= i < rows.len() && rows[i] == row;
        assert(pre[i] == row);
        lemma_side_contains(pre, f, t, row);
        let j = choose|j: int| 0 <= j < side(pre, f, t, left).len() && side(pre, f, t, left)[j] == row;
        assert(side(rows, f, t, left)[j] == row);
    }
}

/// A copy of `row`.
fn copy_row(row: &Vec<i32>) -> (r: Vec<i32>)
    ensures
        r@ == row@,
{
    let mut r: Vec<i32> = Vec::new();
    let mut i: usize = 0;
    while i < row.len()
        invariant
            0 <= i <= row.len(),
            r@ == row@.take(i as int),
        decreases row.len() - i,
    {
        r.push(row[i]);
        i = i + 1;
        assert(r@ =~= row@.take(i as int));
    }
    assert(row@.take(row.len() as int) =~= row@);
    r
}

/// The label column of a dataset.
pub fn label_column(dataset: &Vec<Vec<i32>>) -> (r: Vec<i32>)
    requires
        forall|i: int| 0 <= i < dataset.len() ==> #[trigger] rows_of(dataset@)[i].len() > 0,
    ensures
        r@ == labels(rows_of(dataset@)),
{
    let mut r: Vec<i32> = Vec::new();
    let mut i: usize = 0;
    while i < dataset.len()
        invariant
            0 <= i <= dataset.len(),
            forall|k: int| 0 <= k < dataset.len() ==> #[trigger] rows_of(dataset@)[k].len() > 0,
            r@ == labels(rows_of(dataset@)).take(i as int),
        decreases dataset.len() - i,
    {
        let row = &dataset[i];
        assert(rows_of(dataset@)[i as int].len() > 0);
        r.push(row[row.len() - 1]);
        i = i + 1;
        assert(r@ =~= labels(rows_of(dataset@)).take(i as int));
    }
    assert(labels(rows_of(dataset@)).take(dataset.len() as int) =~= labels(rows_of(dataset@)));
    r
}

/// The rows, in order, on one side of `(feature_index, threshold)`.
fn side_rows(dataset: &Vec<Vec<i32>>, feature_index: usize, threshold: i32, left: bool) -> (r: Vec<
    Vec<i32>,
>)
    requires
        forall|i: int| 0 <= i < dataset.len() ==> feature_index < #[trigger] rows_of(dataset@)[i].len(),
    ensures
        rows_of(r@) == side(rows_of(dataset@), feature_index as int, threshold, left),
{
    let ghost rows = rows_of(dataset@);
    let mut r: Vec<Vec<i32>> = Vec::new();
    let mut i: usize = 0;
    while i < dataset.len()
        invariant
            0 <= i <= dataset.len(),
            rows == rows_of(dataset@),
            forall|k: int| 0 <= k < dataset.len() ==> feature_index < #[trigger] rows_of(dataset@)[k].len(),
            rows_of(r@) == side(rows.take(i as int), feature_index as int, threshold, left),
        decreases dataset.len() - i,
    {
        assert(rows.take(i + 1).drop_last() =~= rows.take(i as int));
        assert(rows.take(i + 1).last() == dataset@[i as int]@);
        assert(rows_of(dataset@)[i as int].len() > feature_index);
        if (dataset[i][feature_index] <= threshold) == left {
            let row = copy_row(&dataset[i]);
            let ghost before = r@;
            r.push(row);
            assert(rows_of(r@) =~= rows_of(before).push(row@));
        }
        i = i + 1;
    }
    assert(rows.take(dataset.len() as int) =~= rows);
    r
}

impl Tree {
    /// The rows, in order, whose feature `feature_index` is at most `threshold`.
    pub fn split_left(&self, dataset: &Vec<Vec<i32>>, feature_index: usize, threshold: i32) -> (r:
        Vec<Vec<i32>>)
        requires
            forall|i: int| 0 <= i < dataset.len() ==> feature_index < #[trigger] rows_of(dataset@)[i].len(),
        ensures
            rows_of(r@) == side(rows_of(dataset@), feature_index as int, threshold, true),
    {
        side_rows(dataset, feature_index, threshold, true)
    }

    /// The rows, in order, whose feature `feature_index` is greater than `threshold`.
    pub fn split_right(&self, dataset: &Vec<Vec<i32>>, feature_index: usize, threshold: i32) -> (r:
        Vec<Vec<i32>>)
        requires
            forall|i: int| 0 <= i < dataset.len() ==> feature_index < #[trigger] rows_of(dataset@)[i].len(),
        ensures
            rows_of(r@) == side(rows_of(dataset@), feature_index as int, threshold, false),
    {
        side_rows(dataset, feature_index, threshold, false)
    }
}

} // verus!
