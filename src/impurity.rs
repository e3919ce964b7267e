//! Gini impurity and information gain, as exact fractions.
use vstd::prelude::*;
use crate::tree::Tree;

verus! {

/// Largest number of samples that one impurity or gain computation takes.
/// Every impurity and gain is kept as an exact fraction of 128-bit integers,
/// and comparing two gains multiplies them crosswise; this bound keeps that exact.
pub const MAX_SAMPLES: usize = 30000;

/// The exact fraction `num / den`.
#[derive(Clone, Copy, Debug, PartialEq, Eq)]
pub struct Fraction {
    pub num: i128,
    pub den: i128,
}

/// Number of occurrences of `v` in `s`.
pub open spec fn count_of(s: Seq<i32>, v: i32) -> nat
    decreases s.len(),
{
    if s.len() == 0 {
        0
    } else {
        count_of(s.drop_last(), v) + (if s.last() == v { 1nat } else { 0nat })
    }
}

/// Sum of `count_of(s, s[i])` over the first `k` positions of `s`.
pub open spec fn pairs_upto(s: Seq<i32>, k: int) -> nat
    decreases k,
{
    if k <= 0 {
        0
    } else {
        pairs_upto(s, k - 1) + count_of(s, s[k - 1])
    }
}

/// The number of ordered index pairs `(i, j)` with `s[i] == s[j]`, which is
/// the sum over the classes of the squared class counts.
pub open spec fn same_label_pairs(s: Seq<i32>) -> nat {
    pairs_upto(s, s.len() as int)
}

/// Numerator of the Gini index `1 - sum p_i^2 = (n^2 - sum c_i^2) / n^2`.
pub open spec fn gini_num(s: Seq<i32>) -> int {
    s.len() * s.len() - same_label_pairs(s)
}

/// Denominator of the Gini index: the squared number of samples.
pub open spec fn gini_den(s: Seq<i32>) -> int {
    (s.len() * s.len()) as int
}

/// Numerator of `gini(p) - (|l|/|p|) gini(l) - (|r|/|p|) gini(r)` written over
/// the common denominator `gain_den(p, l, r)`.
pub open spec fn gain_num(p: Seq<i32>, l: Seq<i32>, r: Seq<i32>) -> int {
    gini_num(p) * l.len() * r.len() - p.len() * r.len() * gini_num(l) - p.len() * l.len() * gini_num(r)
}

/// Denominator of the information gain: `|p|^2 |l| |r|`.
pub open spec fn gain_den(p: Seq<i32>, l: Seq<i32>, r: Seq<i32>) -> int {
    (p.len() * p.len() * l.len() * r.len()) as int
}

/// Bound on the magnitude of a gain's numerator and denominator.
pub open spec fn gain_bound() -> int {
    3 * (MAX_SAMPLES * MAX_SAMPLES) * (MAX_SAMPLES * MAX_SAMPLES)
}

/// `v` is the most frequent value of `s`, the smallest one among equally frequent ones.
pub open spec fn is_majority(s: Seq<i32>, v: i32) -> bool {
    &&& s.contains(v)
    &&& forall|i: int|
        0 <= i < s.len() ==> (count_of(s, s[i]) < count_of(s, v) || (count_of(s, s[i])
            == count_of(s, v) && v <= s[i]))
}

/// The majority label of `s` (ties broken towards the smallest label).
pub open spec fn majority(s: Seq<i32>) -> i32 {
    choose|v: i32| is_majority(s, v)
}

pub(crate) proof fn lemma_mul_le(a: int, b: int, x: int, y: int)
    requires
        0 <= a <= x,
        0 <= b <= y,
    ensures
        a * b <= x * y,
        0 <= a * b,
{
    assert(a * b <= x * y && 0 <= a * b) by (nonlinear_arith)
        requires
            0 <= a <= x,
            0 <= b <= y,
    ;
}

proof fn lemma_count_le_len(s: Seq<i32>, v: i32)
    ensures
        count_of(s, v) <= s.len(),
    decreases s.len(),
{
    if s.len() > 0 {
        lemma_count_le_len(s.drop_last(), v);
    }
}

proof fn lemma_count_pos(s: Seq<i32>, i: int)
    requires
        0 <= i < s.len(),
    ensures
        count_of(s, s[i]) >= 1,
    decreases s.len(),
{
    if i < s.len() - 1 {
        assert(s.drop_last()[i] == s[i]);
        lemma_count_pos(s.drop_last(), i);
    }
}

proof fn lemma_pairs_bounds(s: Seq<i32>, k: int)
    requires
        0 <= k <= s.len(),
    ensures
        k <= pairs_upto(s, k) <= k * s.len(),
    decreases k,
{
    if k > 0 {
        lemma_pairs_bounds(s, k - 1);
        lemma_count_le_len(s, s[k - 1]);
        lemma_count_pos(s, k - 1);
        assert((k - 1) * s.len() + s.len() == k * s.len()) by (nonlinear_arith);
    }
}

/// The Gini numerator lies in `[0, n^2)`, so the index lies in `[0, 1)`.
pub proof fn lemma_gini_range(s: Seq<i32>)
    requires
        s.len() > 0,
    ensures
        0 <= gini_num(s) < gini_den(s),
{
    lemma_pairs_bounds(s, s.len() as int);
}

/// Majority labels are unique.
pub proof fn lemma_majority_unique(s: Seq<i32>, v: i32, w: i32)
    requires
        is_majority(s, v),
        is_majority(s, w),
    ensures
        v == w,
{
    let i = choose|i: int| 0 <= i < s.len() && s[i] == v;
    let j = choose|j: int| 0 <= j < s.len() && s[j] == w;
    assert(s[i] == v);
    assert(s[j] == w);
}

pub proof fn lemma_count_all(s: Seq<i32>, v: i32)
    requires
        forall|i: int| 0 <= i < s.len() ==> #[trigger] s[i] == v,
    ensures
        count_of(s, v) == s.len(),
    decreases s.len(),
{
    if s.len() > 0 {
        lemma_count_all(s.drop_last(), v);
    }
}

proof fn lemma_pairs_uniform(s: Seq<i32>, k: int, c: int)
    requires
        0 <= k <= s.len(),
        forall|i: int| 0 <= i < s.len() ==> count_of(s, #[trigger] s[i]) == c,
    ensures
        pairs_upto(s, k) == k * c,
    decreases k,
{
    if k > 0 {
        lemma_pairs_uniform(s, k - 1, c);
        assert(count_of(s, s[k - 1]) == c);
        assert((k - 1) * c + c == k * c) by (nonlinear_arith);
    } else {
        assert(k * c == 0) by (nonlinear_arith)
            requires
                k == 0,
        ;
    }
}

/// Labels of a single class are pure: their Gini index is zero.
pub proof fn lemma_single_class_pure(s: Seq<i32>)
    requires
        s.len() > 0,
        forall|i: int| 0 <= i < s.len() ==> #[trigger] s[i] == s[0],
    ensures
        gini_num(s) == 0,
{
    lemma_count_all(s, s[0]);
    lemma_pairs_uniform(s, s.len() as int, s.len() as int);
}

/// Labels made of `k` classes of `c` samples each have Gini index `1 - 1/k`:
/// `gini_num(s) / gini_den(s) == (k - 1) / k`.
pub proof fn lemma_balanced_classes_gini(s: Seq<i32>, k: int, c: int)
    requires
        k > 0,
        c > 0,
        s.len() == k * c,
        forall|i: int| 0 <= i < s.len() ==> count_of(s, #[trigger] s[i]) == c,
    ensures
        gini_num(s) * k == gini_den(s) * (k - 1),
{
    let n = s.len() as int;
    lemma_pairs_uniform(s, n, c);
    assert((n * n - n * c) * k == (n * n) * (k - 1)) by (nonlinear_arith)
        requires
            n == k * c,
    ;
}

fn count_label(s: &Vec<i32>, v: i32) -> (c: u64)
    requires
        s.len() <= MAX_SAMPLES,
    ensures
        c == count_of(s@, v),
{
    let mut c: u64 = 0;
    let mut i: usize = 0;
    while i < s.len()
        invariant
            0 <= i <= s.len() <= MAX_SAMPLES,
            c == count_of(s@.take(i as int), v),
            c <= i,
        decreases s.len() - i,
    {
        assert(s@.take(i as int + 1).drop_last() =~= s@.take(i as int));
        if s[i] == v {
            c = c + 1;
        }
        i = i + 1;
    }
    assert(s@.take(s.len() as int) =~= s@);
    c
}

fn count_same_pairs(s: &Vec<i32>) -> (r: u64)
    requires
        s.len() <= MAX_SAMPLES,
    ensures
        r == same_label_pairs(s@),
        r <= s.len() * s.len(),
{
    let n = s.len();
    let mut r: u64 = 0;
    let mut k: usize = 0;
    while k < n
        invariant
            0 <= k <= n == s.len() <= MAX_SAMPLES,
            r == pairs_upto(s@, k as int),
        decreases n - k,
    {
        let c = count_label(s, s[k]);
        proof {
            lemma_pairs_bounds(s@, k + 1);
            lemma_mul_le(k + 1, n as int, MAX_SAMPLES as int, MAX_SAMPLES as int);
        }
        r = r + c;
        k = k + 1;
    }
    proof {
        lemma_pairs_bounds(s@, n as int);
    }
    r
}

impl Tree {
    /// Gini index of `y` as an exact fraction.
    pub fn gini_index(&self, y: &Vec<i32>) -> (r: Fraction)
        requires
            0 < y.len() <= MAX_SAMPLES,
        ensures
            r.num == gini_num(y@),
            r.den == gini_den(y@),
            0 <= r.num < r.den,
    {
        let pairs = count_same_pairs(y);
        let n = y.len() as i128;
        proof {
            lemma_gini_range(y@);
            lemma_mul_le(n as int, n as int, MAX_SAMPLES as int, MAX_SAMPLES as int);
        }
        Fraction { num: n * n - pairs as i128, den: n * n }
    }

    /// Information gain of splitting `parent` into `left` and `right`:
    /// `gini(parent) - (|left|/|parent|) gini(left) - (|right|/|parent|) gini(right)`.
    pub fn information_gain(&self, parent: &Vec<i32>, left: &Vec<i32>, right: &Vec<i32>) -> (r:
        Fraction)
        requires
            0 < parent.len() <= MAX_SAMPLES,
            0 < left.len() <= MAX_SAMPLES,
            0 < right.len() <= MAX_SAMPLES,
        ensures
            r.num == gain_num(parent@, left@, right@),
            r.den == gain_den(parent@, left@, right@),
            -gain_bound() <= r.num <= gain_bound(),
            0 < r.den <= gain_bound(),
    {
        let gp = self.gini_index(parent);
        let gl = self.gini_index(left);
        let gr = self.gini_index(right);
        let n = parent.len() as i128;
        let nl = left.len() as i128;
        let nr = right.len() as i128;
        let ghost m = MAX_SAMPLES as int;
        proof {
            lemma_mul_le(n as int, n as int, m, m);
            lemma_mul_le(nl as int, nr as int, m, m);
            lemma_mul_le(n as int, nr as int, m, m);
            lemma_mul_le(n as int, nl as int, m, m);
            lemma_mul_le(nl as int, nl as int, m, m);
            lemma_mul_le(nr as int, nr as int, m, m);
            lemma_mul_le(gp.num as int, (nl * nr) as int, m * m, m * m);
            lemma_mul_le((n * nr) as int, gl.num as int, m * m, m * m);
            lemma_mul_le((n * nl) as int, gr.num as int, m * m, m * m);
            lemma_mul_le((n * n) as int, (nl * nr) as int, m * m, m * m);
            assert(gp.num * nl * nr == gp.num * (nl * nr)) by (nonlinear_arith);
            assert(n * n * nl * nr == (n * n) * (nl * nr)) by (nonlinear_arith);
            assert(0 < (n * n) * (nl * nr)) by (nonlinear_arith)
                requires
                    n > 0,
                    nl > 0,
                    nr > 0,
            ;
        }
        let num = gp.num * (nl * nr) - (n * nr) * gl.num - (n * nl) * gr.num;
        let den = (n * n) * (nl * nr);
        Fraction { num, den }
    }

    /// The leaf value for `y`: its most frequent label, the smallest among equally frequent ones.
    pub fn calc_leaf(&self, y: &Vec<i32>) -> (r: i32)
        requires
            0 < y.len() <= MAX_SAMPLES,
        ensures
            is_majority(y@, r),
            r == majority(y@),
    {
        let mut best = y[0];
        let mut best_count = count_label(y, y[0]);
        let mut i: usize = 1;
        while i < y.len()
            invariant
                1 <= i <= y.len() <= MAX_SAMPLES,
                y@.contains(best),
                best_count == count_of(y@, best),
                forall|j: int|
                    0 <= j < i ==> (count_of(y@, y@[j]) < best_count || (count_of(y@, y@[j])
                        == best_count && best <= y@[j])),
            decreases y.len() - i,
        {
            let c = count_label(y, y[i]);
            if c > best_count || (c == best_count && y[i] < best) {
                best = y[i];
                best_count = c;
            }
            i = i + 1;
        }
        proof {
            lemma_majority_unique(y@, best, majority(y@));
        }
        best
    }
}

} // verus!
