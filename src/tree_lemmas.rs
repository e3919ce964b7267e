//! What holds of every tree that the builder makes.
use vstd::prelude::*;
use crate::dataset::{
    goes_left, is_dataset, labels, lemma_side_contains, lemma_side_rows, lemma_side_width,
    lemma_sides_len, num_features, side,
};
use crate::impurity::{gini_num, is_majority, lemma_count_all, lemma_majority_unique, lemma_mul_le, lemma_single_class_pure, majority, MAX_SAMPLES};
use crate::tree::{
    beats, best_split, build_spec, cand_gain, consider, is_candidate, leaf_of, predict_spec, scan_feature, Node,
    Tree,
};

verus! {

/// Number of decision nodes on the longest path from `node` down to a leaf.
pub open spec fn depth_of(node: Node) -> nat
    decreases node,
{
    match node {
        Node::Leaf { .. } => 0,
        Node::Decision { left, right, .. } => {
            let l = depth_of(*left);
            let r = depth_of(*right);
            1 + if l >= r {
                l
            } else {
                r
            }
        },
    }
}

/// Every decision node of `node` records a gain `num / den` with `num > 0` and `den > 0`.
pub open spec fn gains_positive(node: Node) -> bool
    decreases node,
{
    match node {
        Node::Leaf { .. } => true,
        Node::Decision { info_gain, left, right, .. } => info_gain.num > 0 && info_gain.den > 0
            && gains_positive(*left) && gains_positive(*right),
    }
}

/// The training rows that reach the leaf where `x` ends during construction.
pub open spec fn leaf_rows(
    min_split: int,
    max_depth: int,
    rows: Seq<Seq<i32>>,
    depth: int,
    x: Seq<i32>,
) -> Seq<Seq<i32>>
    decreases max_depth - depth,
{
    if rows.len() < min_split || depth >= max_depth {
        rows
    } else {
        match best_split(rows, num_features(rows)) {
            None => rows,
            Some((f, t)) => if cand_gain(rows, f, t).num <= 0 {
                rows
            } else {
                leaf_rows(min_split, max_depth, side(rows, f, t, goes_left(x, f, t)), depth + 1, x)
            },
        }
    }
}

proof fn lemma_scan_feature_candidate(
    rows: Seq<Seq<i32>>,
    f: int,
    i: int,
    acc: Option<(int, i32)>,
    nf: int,
)
    requires
        0 <= f < nf,
        acc matches Some((af, at)) ==> is_candidate(rows, af, at) && 0 <= af < nf,
    ensures
        scan_feature(rows, f, i, acc) matches Some((bf, bt)) ==> is_candidate(rows, bf, bt) && 0
            <= bf < nf,
    decreases i,
{
    if i > 0 {
        lemma_scan_feature_candidate(rows, f, i - 1, acc, nf);
    }
}

/// The best split, when there is one, is a candidate on a feature below `nf`.
pub proof fn lemma_best_split_candidate(rows: Seq<Seq<i32>>, nf: int)
    ensures
        best_split(rows, nf) matches Some((f, t)) ==> is_candidate(rows, f, t) && 0 <= f < nf,
    decreases nf,
{
    if nf > 0 {
        lemma_best_split_candidate(rows, nf - 1);
        lemma_scan_feature_candidate(rows, nf - 1, rows.len() as int, best_split(rows, nf - 1), nf);
    }
}

proof fn lemma_cross_trans(an: int, ad: int, bn: int, bd: int, cn: int, cd: int)
    requires
        ad > 0,
        bd > 0,
        cd > 0,
    ensures
        an * bd >= bn * ad && bn * cd >= cn * bd ==> an * cd >= cn * ad,
        an * bd > bn * ad && bn * cd >= cn * bd ==> an * cd > cn * ad,
        an * bd >= bn * ad && bn * cd > cn * bd ==> an * cd > cn * ad,
{
    assert(an * bd >= bn * ad && bn * cd >= cn * bd ==> an * cd >= cn * ad) by (nonlinear_arith)
        requires
            ad > 0,
            bd > 0,
            cd > 0,
    ;
    assert(an * bd > bn * ad && bn * cd >= cn * bd ==> an * cd > cn * ad) by (nonlinear_arith)
        requires
            ad > 0,
            bd > 0,
            cd > 0,
    ;
    assert(an * bd >= bn * ad && bn * cd > cn * bd ==> an * cd > cn * ad) by (nonlinear_arith)
        requires
            ad > 0,
            bd > 0,
            cd > 0,
    ;
}

/// The gain of a candidate has a positive denominator.
proof fn lemma_candidate_den(rows: Seq<Seq<i32>>, f: int, t: i32)
    requires
        rows.len() <= MAX_SAMPLES,
        is_candidate(rows, f, t),
    ensures
        cand_gain(rows, f, t).den > 0,
{
    let n = rows.len() as int;
    let nl = side(rows, f, t, true).len() as int;
    let nr = side(rows, f, t, false).len() as int;
    let m = MAX_SAMPLES as int;
    lemma_sides_len(rows, f, t);
    lemma_mul_le(n, n, m, m);
    lemma_mul_le(nl, nr, m, m);
    lemma_mul_le(n * n, nl * nr, m * m, m * m);
    assert(n * n * nl * nr == (n * n) * (nl * nr)) by (nonlinear_arith);
    assert(0 < (n * n) * (nl * nr)) by (nonlinear_arith)
        requires
            n > 0,
            nl > 0,
            nr > 0,
    ;
}

/// Preference between candidates is transitive.
proof fn lemma_beats_trans(
    rows: Seq<Seq<i32>>,
    af: int,
    at: i32,
    bf: int,
    bt: i32,
    cf: int,
    ct: i32,
)
    requires
        rows.len() <= MAX_SAMPLES,
        is_candidate(rows, af, at),
        is_candidate(rows, bf, bt),
        is_candidate(rows, cf, ct),
        beats(rows, af, at, bf, bt),
        beats(rows, bf, bt, cf, ct),
    ensures
        beats(rows, af, at, cf, ct),
{
    lemma_candidate_den(rows, af, at);
    lemma_candidate_den(rows, bf, bt);
    lemma_candidate_den(rows, cf, ct);
    let a = cand_gain(rows, af, at);
    let b = cand_gain(rows, bf, bt);
    let c = cand_gain(rows, cf, ct);
    lemma_cross_trans(a.num as int, a.den as int, b.num as int, b.den as int, c.num as int, c.den as int);
    lemma_cross_trans(c.num as int, c.den as int, b.num as int, b.den as int, a.num as int, a.den as int);
}

/// Of two different candidates, one is preferred to the other.
proof fn lemma_beats_total(rows: Seq<Seq<i32>>, af: int, at: i32, bf: int, bt: i32)
    requires
        (af, at) != (bf, bt),
    ensures
        beats(rows, af, at, bf, bt) || beats(rows, bf, bt, af, at),
{
    let a = cand_gain(rows, af, at);
    let b = cand_gain(rows, bf, bt);
    assert(a.num * b.den == b.den * a.num);
    assert(b.num * a.den == a.den * b.num);
}

/// The threshold candidates of the features below `nf` among the first `i`
/// rows of feature `f` (all rows of the features below `f`).
pub open spec fn examined(rows: Seq<Seq<i32>>, f: int, i: int, g: int, j: int) -> bool {
    0 <= g && 0 <= j < rows.len() && (g < f || (g == f && j < i))
}

proof fn lemma_scan_feature_best(rows: Seq<Seq<i32>>, f: int, i: int, acc: Option<(int, i32)>)
    requires
        rows.len() <= MAX_SAMPLES,
        0 <= f,
        0 <= i <= rows.len(),
        acc matches Some((af, at)) ==> is_candidate(rows, af, at),
        forall|g: int, j: int|
            examined(rows, f, 0, g, j) && is_candidate(rows, g, #[trigger] rows[j][g]) ==> match acc {
                None => false,
                Some((af, at)) => (g, rows[j][g]) == (af, at) || beats(rows, af, at, g, rows[j][g]),
            },
    ensures
        scan_feature(rows, f, i, acc) matches Some((bf, bt)) ==> is_candidate(rows, bf, bt),
        forall|g: int, j: int|
            examined(rows, f, i, g, j) && is_candidate(rows, g, #[trigger] rows[j][g]) ==> match scan_feature(
                rows,
                f,
                i,
                acc,
            ) {
                None => false,
                Some((bf, bt)) => (g, rows[j][g]) == (bf, bt) || beats(rows, bf, bt, g, rows[j][g]),
            },
    decreases i,
{
    if i > 0 {
        lemma_scan_feature_best(rows, f, i - 1, acc);
        let prev = scan_feature(rows, f, i - 1, acc);
        let t = rows[i - 1][f];
        let cur = scan_feature(rows, f, i, acc);
        assert(cur == consider(rows, prev, f, t));
        assert forall|g: int, j: int|
            examined(rows, f, i, g, j) && is_candidate(rows, g, #[trigger] rows[j][g]) implies match cur {
                None => false,
                Some((bf, bt)) => (g, rows[j][g]) == (bf, bt) || beats(rows, bf, bt, g, rows[j][g]),
            } by {
            let x = rows[j][g];
            if is_candidate(rows, f, t) {
                if let Some((pf, pt)) = prev {
                    if beats(rows, f, t, pf, pt) {
                        if examined(rows, f, i - 1, g, j) && (g, x) != (pf, pt) && (g, x) != (f, t) {
                            lemma_beats_trans(rows, f, t, pf, pt, g, x);
                        }
                    } else if (g, x) != (pf, pt) && !examined(rows, f, i - 1, g, j) {
                        assert(g == f && j == i - 1);
                        lemma_beats_total(rows, f, t, pf, pt);
                    }
                }
            } else {
                assert(examined(rows, f, i - 1, g, j));
            }
        }
    }
}

/// The best split beats every other candidate whose threshold is a value of
/// its feature's column, on the features below `nf`: a greater gain, or an
/// equal gain and a lower feature index, or the same feature and a lower
/// threshold. It is `None` exactly when no such candidate leaves both sides
/// non-empty.
pub proof fn lemma_best_split_is_best(rows: Seq<Seq<i32>>, nf: int)
    requires
        rows.len() <= MAX_SAMPLES,
        nf >= 0,
    ensures
        forall|g: int, j: int|
            0 <= g < nf && 0 <= j < rows.len() && is_candidate(rows, g, #[trigger] rows[j][g])
                ==> match best_split(rows, nf) {
                None => false,
                Some((bf, bt)) => (g, rows[j][g]) == (bf, bt) || beats(rows, bf, bt, g, rows[j][g]),
            },
        best_split(rows, nf) matches Some((bf, bt)) ==> is_candidate(rows, bf, bt),
    decreases nf,
{
    if nf > 0 {
        lemma_best_split_is_best(rows, nf - 1);
        assert forall|g: int, j: int|
            examined(rows, nf - 1, 0, g, j) && is_candidate(rows, g, #[trigger] rows[j][g]) implies match best_split(
                rows,
                nf - 1,
            ) {
                None => false,
                Some((af, at)) => (g, rows[j][g]) == (af, at) || beats(rows, af, at, g, rows[j][g]),
            } by {}
        lemma_scan_feature_best(rows, nf - 1, rows.len() as int, best_split(rows, nf - 1));
        assert forall|g: int, j: int|
            0 <= g < nf && 0 <= j < rows.len() && is_candidate(rows, g, #[trigger] rows[j][g])
                implies examined(rows, nf - 1, rows.len() as int, g, j) by {}
    }
}

proof fn lemma_side_single_label(rows: Seq<Seq<i32>>, f: int, t: i32, left: bool, v: i32)
    requires
        forall|i: int| 0 <= i < rows.len() ==> #[trigger] labels(rows)[i] == v,
    ensures
        forall|k: int| 0 <= k < side(rows, f, t, left).len() ==> #[trigger] labels(side(rows, f, t, left))[k] == v,
{
    lemma_side_rows(rows, f, t, left);
    assert forall|k: int| 0 <= k < side(rows, f, t, left).len() implies #[trigger] labels(
        side(rows, f, t, left),
    )[k] == v by {
        let r = side(rows, f, t, left)[k];
        let i = choose|i: int| 0 <= i < rows.len() && rows[i] == r;
        assert(labels(rows)[i] == v);
    }
}

/// Rows that all carry the same label give a single leaf with that label,
/// whatever the hyperparameters: no split of them has a positive gain.
pub proof fn lemma_single_label_leaf(
    min_split: int,
    max_depth: int,
    rows: Seq<Seq<i32>>,
    depth: int,
)
    requires
        rows.len() > 0,
        forall|i: int| 0 <= i < rows.len() ==> #[trigger] labels(rows)[i] == labels(rows)[0],
    ensures
        build_spec(min_split, max_depth, rows, depth) == leaf_of(rows),
        leaf_of(rows) == (Node::Leaf { value: labels(rows)[0] }),
{
    let p = labels(rows);
    let v = p[0];
    lemma_single_class_pure(p);
    assert(is_majority(p, v)) by {
        lemma_count_all(p, v);
    }
    lemma_majority_unique(p, v, majority(p));
    if !(rows.len() < min_split || depth >= max_depth) {
        lemma_best_split_candidate(rows, num_features(rows));
        if let Some((f, t)) = best_split(rows, num_features(rows)) {
            let l = labels(side(rows, f, t, true));
            let r = labels(side(rows, f, t, false));
            lemma_side_single_label(rows, f, t, true, v);
            lemma_side_single_label(rows, f, t, false, v);
            lemma_single_class_pure(l);
            lemma_single_class_pure(r);
            assert(gini_num(p) * l.len() * r.len() == 0);
            assert(p.len() * r.len() * gini_num(l) == 0);
            assert(p.len() * l.len() * gini_num(r) == 0);
        }
    }
}

/// A tree built from depth `depth` is at most `max_depth - depth` decision
/// nodes deep; from the root, at most `max_depth`.
pub proof fn lemma_build_depth(min_split: int, max_depth: int, rows: Seq<Seq<i32>>, depth: int)
    requires
        0 <= depth <= max_depth,
    ensures
        depth_of(build_spec(min_split, max_depth, rows, depth)) <= max_depth - depth,
    decreases max_depth - depth,
{
    if !(rows.len() < min_split || depth >= max_depth) {
        if let Some((f, t)) = best_split(rows, num_features(rows)) {
            if cand_gain(rows, f, t).num > 0 {
                lemma_build_depth(min_split, max_depth, side(rows, f, t, true), depth + 1);
                lemma_build_depth(min_split, max_depth, side(rows, f, t, false), depth + 1);
            }
        }
    }
}

/// Every decision node that the builder makes records a positive gain.
pub proof fn lemma_build_gains_positive(
    min_split: int,
    max_depth: int,
    rows: Seq<Seq<i32>>,
    depth: int,
)
    requires
        rows.len() <= MAX_SAMPLES,
    ensures
        gains_positive(build_spec(min_split, max_depth, rows, depth)),
    decreases max_depth - depth,
{
    if !(rows.len() < min_split || depth >= max_depth) {
        lemma_best_split_candidate(rows, num_features(rows));
        if let Some((f, t)) = best_split(rows, num_features(rows)) {
            if cand_gain(rows, f, t).num > 0 {
                lemma_candidate_den(rows, f, t);
                lemma_sides_len(rows, f, t);
                lemma_build_gains_positive(min_split, max_depth, side(rows, f, t, true), depth + 1);
                lemma_build_gains_positive(min_split, max_depth, side(rows, f, t, false), depth + 1);
            }
        }
    }
}

/// Building is deterministic: two trees with the same hyperparameters build
/// the same tree from the same rows.
pub proof fn lemma_build_deterministic(a: Tree, b: Tree, rows: Seq<Seq<i32>>)
    requires
        a.min_samples_split == b.min_samples_split,
        a.max_depth == b.max_depth,
    ensures
        build_spec(a.min_samples_split as int, a.max_depth as int, rows, 0) == build_spec(
            b.min_samples_split as int,
            b.max_depth as int,
            rows,
            0,
        ),
{
}

/// Predicting a feature vector as wide as the training rows gives the majority
/// label of the training rows that reach the same leaf during construction,
/// and a training row is among the rows that reach its own leaf.
pub proof fn lemma_predict_consistent(
    min_split: int,
    max_depth: int,
    rows: Seq<Seq<i32>>,
    depth: int,
    x: Seq<i32>,
)
    requires
        is_dataset(rows),
        x.len() == rows[0].len() <= usize::MAX,
    ensures
        predict_spec(build_spec(min_split, max_depth, rows, depth), x) == Some(
            majority(labels(leaf_rows(min_split, max_depth, rows, depth, x))),
        ),
        rows.contains(x) ==> leaf_rows(min_split, max_depth, rows, depth, x).contains(x),
    decreases max_depth - depth,
{
    if !(rows.len() < min_split || depth >= max_depth) {
        lemma_best_split_candidate(rows, num_features(rows));
        if let Some((f, t)) = best_split(rows, num_features(rows)) {
            if cand_gain(rows, f, t).num > 0 {
                let w = rows[0].len() as int;
                let sub = side(rows, f, t, goes_left(x, f, t));
                lemma_side_width(rows, f, t, goes_left(x, f, t), w);
                assert(sub[0].len() == w);
                if rows.contains(x) {
                    lemma_side_contains(rows, f, t, x);
                }
                lemma_predict_consistent(min_split, max_depth, sub, depth + 1, x);
            }
        }
    }
}

} // verus!
