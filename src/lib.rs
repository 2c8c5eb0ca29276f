//! The closest pair of a finite set of points in the plane, found by divide and conquer in
//! `O(n log n)` time and proved equal in distance to the all-pairs search.
//!
//! Coordinates are integers and distances are reported squared, so every comparison is exact.

mod closest;
mod geometry;
mod order;
mod point;
mod theorems;

pub use closest::{
    brute_force, closest_pair, is_closest_pair, is_pair_of, no_closer_pair, ClosestPairError,
    BASE_CASE,
};
pub use point::{dist_sq, Point};
pub use theorems::{
    is_reordering, lemma_closest_distance_unique, lemma_distance_symmetric,
    lemma_identical_points, lemma_reordering_keeps_distance, lemma_scaled_distance, lemma_scaling,
    lemma_two_points,
};
