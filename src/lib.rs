//! Brillouin zones of a two-dimensional lattice: neighbour shells, the
//! polygon of each zone as an intersection of half-planes (taking in outer
//! shells where a shell alone bounds no region), and the separation of
//! nested zone polygons by clipping.
//!
//! The library works on points of any `Copy` type. Arithmetic on the plane
//! (where two boundary lines cross, on which side of a line a point lies,
//! whether two points coincide, how two points order by angle or distance)
//! is handed in as closures; every contract is stated over the functions
//! those closures compute.
use vstd::prelude::*;

pub mod closures;
pub mod halfspace;
pub mod ordering;
pub mod separation;
pub mod shells;
pub mod zones;

verus! {

} // verus!
