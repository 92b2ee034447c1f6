//! Tolerance-based approximate equality and de-duplication of
//! floating-point data.
//!
//! Values are IEEE 754 binary64 numbers held as their bit patterns (what
//! `f64::to_bits` returns). Everything that only looks at a value's class,
//! sign and order is decided here on those bits and verified; the one part
//! that needs floating-point arithmetic, whether two distinct finite values lie
//! within the tolerance envelope, is a test that the caller supplies as a
//! closure, and the contracts speak of what that closure reported.

mod isapprox;
mod uniquetol_1d;
mod uniquetol_nd;

pub use isapprox::{
    NanComparison, Tols, TolsError, isapprox, is_nan, is_negative, order_key, same_value, magnitude,
    isapprox_outcome, envelope_total, envelope_symmetric, envelope_deterministic,
    lemma_isapprox_symmetric, lemma_isapprox_reflexive, lemma_isapprox_nan, SIGN_BIT, INFINITY_BITS,
};
pub use uniquetol_1d::{
    Occurrence, UniqueTolResult, uniquetol_1d, sortperm, precedes, is_sorted_perm, descending,
    run_start, sweep_matches, is_uniquetol, is_sorted_range, lemma_groups_cover, lemma_unique_sorted,
    lemma_uniquetol_idempotent, lemma_remap_matches,
};
pub use uniquetol_nd::{
    ArrayNd, AxisBoundsError, FlattenAxis, uniquetol_nd, shape_size, is_flat_unique, is_axis_unique,
    is_refinement_chain, is_selection, refine_matches, split_matches, initial_groups,
    representative, representatives, lane_value, coord_vals, axis_outer, axis_inner, at3, runs_of,
    view_groups, groups_disjoint,
};
