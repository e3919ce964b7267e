//! Binary decision-tree induction over integer datasets, with Gini impurity
//! kept as exact fractions.
pub mod impurity;
pub mod dataset;
pub mod tree;
pub mod tree_lemmas;
