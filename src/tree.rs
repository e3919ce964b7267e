//! The tree: best-split search, recursive construction and prediction.
use vstd::prelude::*;
use crate::dataset::{
    is_dataset, label_column, labels, lemma_side_width, lemma_sides_len,
    num_features, rows_of, side,
};
use crate::tree_lemmas::lemma_best_split_is_best;
use crate::impurity::{gain_bound, gain_den, gain_num, majority, Fraction, MAX_SAMPLES};

verus! {

/// A node of a built tree; each decision node owns both of its children.
#[derive(Debug, PartialEq, Eq)]
pub enum Node {
    Decision {
        feature_index: usize,
        threshold: i32,
        info_gain: Fraction,
        left: Box<Node>,
        right: Box<Node>,
    },
    Leaf { value: i32 },
}

/// A decision-tree classifier: its two hyperparameters and, once built, its root.
#[derive(Debug)]
pub struct Tree {
    pub root: Option<Node>,
    pub min_samples_split: u16,
    pub max_depth: u16,
}

/// The best split of a dataset: the rule, both sides and the gain.
#[derive(Debug)]
pub struct Split {
    pub feature_index: usize,
    pub threshold: i32,
    pub dataset_left: Vec<Vec<i32>>,
    pub dataset_right: Vec<Vec<i32>>,
    pub info_gain: Fraction,
}

/// Why a tree could not be built or could not predict.
#[derive(Debug, Clone, Copy, PartialEq, Eq)]
pub enum TreeError {
    /// The dataset is empty, has rows of different widths, or has no feature column.
    InvalidDataset,
    /// The feature vector is too short for a feature that the tree tests.
    OutOfRange,
    /// The tree has not been built yet.
    NotBuilt,
}

/// The information gain of splitting `rows` on `(f, t)`.
pub open spec fn cand_gain(rows: Seq<Seq<i32>>, f: int, t: i32) -> Fraction {
    let p = labels(rows);
    let l = labels(side(rows, f, t, true));
    let r = labels(side(rows, f, t, false));
    Fraction { num: gain_num(p, l, r) as i128, den: gain_den(p, l, r) as i128 }
}

/// `(f, t)` leaves both sides non-empty.
pub open spec fn is_candidate(rows: Seq<Seq<i32>>, f: int, t: i32) -> bool {
    &&& side(rows, f, t, true).len() > 0
    &&& side(rows, f, t, false).len() > 0
}

/// `(f, t)` is preferred to `(bf, bt)`: a strictly greater gain, or an equal
/// gain and a lower feature index, or the same feature and a lower threshold.
pub open spec fn beats(rows: Seq<Seq<i32>>, f: int, t: i32, bf: int, bt: i32) -> bool {
    let g = cand_gain(rows, f, t);
    let b = cand_gain(rows, bf, bt);
    ||| g.num * b.den > b.num * g.den
    ||| g.num * b.den == b.num * g.den && (f < bf || (f == bf && t < bt))
}

/// The best of `best` and the candidate `(f, t)`.
pub open spec fn consider(rows: Seq<Seq<i32>>, best: Option<(int, i32)>, f: int, t: i32) -> Option<
    (int, i32),
> {
    if !is_candidate(rows, f, t) {
        best
    } else {
        match best {
            None => Some((f, t)),
            Some((bf, bt)) => if beats(rows, f, t, bf, bt) {
                Some((f, t))
            } else {
                best
            },
        }
    }
}

/// The best split after the thresholds of feature `f` from the first `i` rows.
pub open spec fn scan_feature(rows: Seq<Seq<i32>>, f: int, i: int, acc: Option<(int, i32)>) -> Option<
    (int, i32),
>
    decreases i,
{
    if i <= 0 {
        acc
    } else {
        consider(rows, scan_feature(rows, f, i - 1, acc), f, rows[i - 1][f])
    }
}

/// The best split among the features below `nf`, each value of a feature's
/// column being a threshold; `None` when no candidate leaves both sides non-empty.
pub open spec fn best_split(rows: Seq<Seq<i32>>, nf: int) -> Option<(int, i32)>
    decreases nf,
{
    if nf <= 0 {
        None
    } else {
        scan_feature(rows, nf - 1, rows.len() as int, best_split(rows, nf - 1))
    }
}

/// A leaf holding the majority label of `rows`.
pub open spec fn leaf_of(rows: Seq<Seq<i32>>) -> Node {
    Node::Leaf { value: majority(labels(rows)) }
}

/// The tree built from `rows` at depth `depth`.
pub open spec fn build_spec(min_split: int, max_depth: int, rows: Seq<Seq<i32>>, depth: int) -> Node
    decreases max_depth - depth,
{
    if rows.len() < min_split || depth >= max_depth {
        leaf_of(rows)
    } else {
        match best_split(rows, num_features(rows)) {
            None => leaf_of(rows),
            Some((f, t)) => if cand_gain(rows, f, t).num <= 0 {
                leaf_of(rows)
            } else {
                Node::Decision {
                    feature_index: f as usize,
                    threshold: t,
                    info_gain: cand_gain(rows, f, t),
                    left: Box::new(build_spec(min_split, max_depth, side(rows, f, t, true), depth + 1)),
                    right: Box::new(
                        build_spec(min_split, max_depth, side(rows, f, t, false), depth + 1),
                    ),
                }
            },
        }
    }
}

/// The label that `node` gives to `x`; `None` when `x` lacks a tested feature.
pub open spec fn predict_spec(node: Node, x: Seq<i32>) -> Option<i32>
    decreases node,
{
    match node {
        Node::Leaf { value } => Some(value),
        Node::Decision { feature_index, threshold, left, right, .. } => if feature_index >= x.len() {
            None
        } else if x[feature_index as int] <= threshold {
            predict_spec(*left, x)
        } else {
            predict_spec(*right, x)
        },
    }
}

/// Every side of a candidate is non-empty and together they hold all the rows.
pub proof fn lemma_candidate_partition(rows: Seq<Seq<i32>>, f: int, t: i32)
    requires
        is_candidate(rows, f, t),
    ensures
        side(rows, f, t, true).len() + side(rows, f, t, false).len() == rows.len(),
        side(rows, f, t, true).len() > 0,
        side(rows, f, t, false).len() > 0,
{
    lemma_sides_len(rows, f, t);
}

proof fn lemma_mul_abs_le(a: int, c: int, b: int)
    requires
        -b <= a <= b,
        0 < c <= b,
    ensures
        -(b * b) <= a * c <= b * b,
{
    assert(-(b * b) <= a * c <= b * b) by (nonlinear_arith)
        requires
            -b <= a <= b,
            0 < c <= b,
    ;
}

impl Tree {
    /// A tree with the given hyperparameters and no root yet.
    pub fn new(min_samples_split: u16, max_depth: u16) -> (r: Tree)
        ensures
            r.root is None,
            r.min_samples_split == min_samples_split,
            r.max_depth == max_depth,
    {
        Tree { root: None, min_samples_split, max_depth }
    }

    /// The best split of `dataset` over the features below `num_features`, each
    /// value of a feature's column being a threshold: the candidate with both
    /// sides non-empty and the greatest gain, ties going to the lowest feature
    /// index and then to the lowest threshold; `None` when there is no candidate.
    pub fn get_best_split(&self, dataset: &Vec<Vec<i32>>, num_features: usize) -> (r: Option<Split>)
        requires
            is_dataset(rows_of(dataset@)),
            dataset.len() <= MAX_SAMPLES,
            num_features < dataset@[0]@.len(),
        ensures
            match r {
                None => best_split(rows_of(dataset@), num_features as int) is None,
                Some(s) => {
                    let rows = rows_of(dataset@);
                    let (f, t) = (s.feature_index as int, s.threshold);
                    &&& best_split(rows, num_features as int) == Some((f, t))
                    &&& is_candidate(rows, f, t)
                    &&& rows_of(s.dataset_left@) == side(rows, f, t, true)
                    &&& rows_of(s.dataset_right@) == side(rows, f, t, false)
                    &&& s.info_gain == cand_gain(rows, f, t)
                    &&& s.dataset_left.len() + s.dataset_right.len() == dataset.len()
                    &&& s.dataset_left.len() > 0
                    &&& s.dataset_right.len() > 0
                },
            },
            forall|g: int, j: int|
                0 <= g < num_features && 0 <= j < dataset.len() && is_candidate(
                    rows_of(dataset@),
                    g,
                    #[trigger] rows_of(dataset@)[j][g],
                ) ==> match r {
                    None => false,
                    Some(s) => (g, rows_of(dataset@)[j][g]) == (s.feature_index as int, s.threshold)
                        || beats(
                        rows_of(dataset@),
                        s.feature_index as int,
                        s.threshold,
                        g,
                        rows_of(dataset@)[j][g],
                    ),
                },
    {
        let ghost rows = rows_of(dataset@);
        let ghost w = rows[0].len() as int;
        let y = label_column(dataset);
        let mut found = false;
        let mut best_f: usize = 0;
        let mut best_t: i32 = 0;
        let mut best_g = Fraction { num: 0, den: 1 };
        let mut f: usize = 0;
        while f < num_features
            invariant
                0 <= f <= num_features < w,
                rows == rows_of(dataset@),
                is_dataset(rows),
                w == rows[0].len(),
                0 < dataset.len() <= MAX_SAMPLES,
                y@ == labels(rows),
                found == best_split(rows, f as int) is Some,
                found ==> best_split(rows, f as int) == Some((best_f as int, best_t)),
                found ==> best_f < f,
                found ==> is_candidate(rows, best_f as int, best_t),
                found ==> best_g == cand_gain(rows, best_f as int, best_t),
                found ==> -gain_bound() <= best_g.num <= gain_bound(),
                found ==> 0 < best_g.den <= gain_bound(),
            decreases num_features - f,
        {
            let ghost acc = best_split(rows, f as int);
            let mut i: usize = 0;
            while i < dataset.len()
                invariant
                    0 <= f < num_features < w,
                    0 <= i <= dataset.len() <= MAX_SAMPLES,
                    rows == rows_of(dataset@),
                    is_dataset(rows),
                    w == rows[0].len(),
                    y@ == labels(rows),
                    acc == best_split(rows, f as int),
                    found == scan_feature(rows, f as int, i as int, acc) is Some,
                    found ==> scan_feature(rows, f as int, i as int, acc) == Some(
                        (best_f as int, best_t),
                    ),
                    found ==> best_f <= f,
                    found ==> is_candidate(rows, best_f as int, best_t),
                    found ==> best_g == cand_gain(rows, best_f as int, best_t),
                    found ==> -gain_bound() <= best_g.num <= gain_bound(),
                    found ==> 0 < best_g.den <= gain_bound(),
                decreases dataset.len() - i,
            {
                assert(rows[i as int].len() == w);
                let t = dataset[i][f];
                let left = self.split_left(dataset, f, t);
                let right = self.split_right(dataset, f, t);
                proof {
                    lemma_sides_len(rows, f as int, t);
                    lemma_side_width(rows, f as int, t, true, w);
                    lemma_side_width(rows, f as int, t, false, w);
                }
                if left.len() > 0 && right.len() > 0 {
                    let yl = label_column(&left);
                    let yr = label_column(&right);
                    let g = self.information_gain(&y, &yl, &yr);
                    let better = if !found {
                        true
                    } else {
                        proof {
                            lemma_mul_abs_le(g.num as int, best_g.den as int, gain_bound());
                            lemma_mul_abs_le(best_g.num as int, g.den as int, gain_bound());
                            assert(gain_bound() == 2_430_000_000_000_000_000);
                            assert(gain_bound() * gain_bound() < 0x7fff_ffff_ffff_ffff_ffff_ffff_ffff_ffff);
                        }
                        let lhs = g.num * best_g.den;
                        let rhs = best_g.num * g.den;
                        lhs > rhs || (lhs == rhs && (f < best_f || (f == best_f && t < best_t)))
                    };
                    if better {
                        found = true;
                        best_f = f;
                        best_t = t;
                        best_g = g;
                    }
                }
                i = i + 1;
            }
            f = f + 1;
        }
        proof {
            lemma_best_split_is_best(rows, num_features as int);
        }
        if !found {
            return None;
        }
        let dataset_left = self.split_left(dataset, best_f, best_t);
        let dataset_right = self.split_right(dataset, best_f, best_t);
        proof {
            lemma_sides_len(rows, best_f as int, best_t);
        }
        Some(
            Split {
                feature_index: best_f,
                threshold: best_t,
                dataset_left,
                dataset_right,
                info_gain: best_g,
            },
        )
    }
    /// The tree for `dataset`, built from depth `curr_depth` down.
    pub fn build_tree(&self, dataset: &Vec<Vec<i32>>, curr_depth: u16) -> (r: Node)
        requires
            is_dataset(rows_of(dataset@)),
            dataset.len() <= MAX_SAMPLES,
        ensures
            r == build_spec(
                self.min_samples_split as int,
                self.max_depth as int,
                rows_of(dataset@),
                curr_depth as int,
            ),
        decreases self.max_depth - curr_depth,
    {
        let ghost rows = rows_of(dataset@);
        let y = label_column(dataset);
        if dataset.len() < self.min_samples_split as usize || curr_depth >= self.max_depth {
            return Node::Leaf { value: self.calc_leaf(&y) };
        }
        let num_features = dataset[0].len() - 1;
        match self.get_best_split(dataset, num_features) {
            None => Node::Leaf { value: self.calc_leaf(&y) },
            Some(split) => {
                if split.info_gain.num <= 0 {
                    Node::Leaf { value: self.calc_leaf(&y) }
                } else {
                    let ghost (f, t) = (split.feature_index as int, split.threshold);
                    proof {
                        lemma_side_width(rows, f, t, true, rows[0].len() as int);
                        lemma_side_width(rows, f, t, false, rows[0].len() as int);
                    }
                    let left = self.build_tree(&split.dataset_left, curr_depth + 1);
                    let right = self.build_tree(&split.dataset_right, curr_depth + 1);
                    Node::Decision {
                        feature_index: split.feature_index,
                        threshold: split.threshold,
                        info_gain: split.info_gain,
                        left: Box::new(left),
                        right: Box::new(right),
                    }
                }
            },
        }
    }

    /// Builds the tree for `dataset` and keeps it as the root; a dataset that is
    /// empty, ragged or without a feature column is refused and the tree is left as it was.
    pub fn build(&mut self, dataset: &Vec<Vec<i32>>) -> (r: Result<(), TreeError>)
        requires
            dataset.len() <= MAX_SAMPLES,
        ensures
            r is Ok <==> is_dataset(rows_of(dataset@)),
            r is Ok ==> final(self).root == Some(
                build_spec(
                    old(self).min_samples_split as int,
                    old(self).max_depth as int,
                    rows_of(dataset@),
                    0,
                ),
            ),
            r is Err ==> r == Err::<(), TreeError>(TreeError::InvalidDataset) && final(self).root
                == old(self).root,
            final(self).min_samples_split == old(self).min_samples_split,
            final(self).max_depth == old(self).max_depth,
    {
        if !check_dataset(dataset) {
            return Err(TreeError::InvalidDataset);
        }
        let root = self.build_tree(dataset, 0);
        self.root = Some(root);
        Ok(())
    }

    /// The label that the built tree gives to `features`.
    pub fn predict(&self, features: &Vec<i32>) -> (r: Result<i32, TreeError>)
        ensures
            match self.root {
                None => r == Err::<i32, TreeError>(TreeError::NotBuilt),
                Some(root) => match predict_spec(root, features@) {
                    Some(v) => r == Ok::<i32, TreeError>(v),
                    None => r == Err::<i32, TreeError>(TreeError::OutOfRange),
                },
            },
    {
        match &self.root {
            None => Err(TreeError::NotBuilt),
            Some(root) => predict_node(root, features),
        }
    }
}

/// Whether `dataset` is non-empty, rectangular and has at least one feature column.
pub fn check_dataset(dataset: &Vec<Vec<i32>>) -> (r: bool)
    ensures
        r == is_dataset(rows_of(dataset@)),
{
    if dataset.len() == 0 {
        return false;
    }
    let w = dataset[0].len();
    if w < 2 {
        return false;
    }
    let mut i: usize = 0;
    while i < dataset.len()
        invariant
            0 <= i <= dataset.len(),
            w == rows_of(dataset@)[0].len(),
            forall|k: int| 0 <= k < i ==> #[trigger] rows_of(dataset@)[k].len() == w,
        decreases dataset.len() - i,
    {
        if dataset[i].len() != w {
            assert(rows_of(dataset@)[i as int].len() != w);
            return false;
        }
        i = i + 1;
    }
    true
}

/// The label that `node` gives to `features`.
pub fn predict_node(node: &Node, features: &Vec<i32>) -> (r: Result<i32, TreeError>)
    ensures
        match predict_spec(*node, features@) {
            Some(v) => r == Ok::<i32, TreeError>(v),
            None => r == Err::<i32, TreeError>(TreeError::OutOfRange),
        },
    decreases node,
{
    match node {
        Node::Leaf { value } => Ok(*value),
        Node::Decision { feature_index, threshold, left, right, .. } => {
            if *feature_index >= features.len() {
                Err(TreeError::OutOfRange)
            } else if features[*feature_index] <= *threshold {
                predict_node(left, features)
            } else {
                predict_node(right, features)
            }
        },
    }
}

} // verus!
