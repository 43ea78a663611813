//! Concave hulls of planar point clouds by gift opening.
//!
//! The convex boundary of the cloud is opened edge by edge: the longest
//! pending edge is either accepted or replaced by two shorter ones that pass
//! through a point of the cloud not yet on the boundary. What is left at the
//! end is put in order and handed out as a ring of point indices.
//!
//! The crate holds the decisions of that process and works on indices and
//! integers alone. Everything that needs real arithmetic on coordinates (the
//! convex boundary, squared lengths, angles, crossing segments) is asked of
//! the caller through a [`Request`] and comes back as the argument of the next
//! transition of a [`Refinement`]. Squared lengths and angles come back as
//! keys that keep their order, which [`rank32`] and [`rank64`] make from the
//! bits of a number.

pub mod candidate;
pub mod concave;
pub mod edge;
pub mod laws;
pub mod queue;
pub mod reconstruct;
pub mod ring;
pub mod scale;
pub mod segment_intersect;
pub mod state;

pub use crate::candidate::best_candidate;
pub use crate::concave::{concave_hull, Refinement};
pub use crate::edge::Edge;
pub use crate::queue::EdgeQueue;
pub use crate::reconstruct::reconstruct;
pub use crate::scale::{rank32, rank64};
pub use crate::segment_intersect::edges_intersect;
pub use crate::state::Request;
