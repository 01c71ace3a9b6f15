//! Shortest routes between fixed locations in three-dimensional space.
//!
//! A [`SpaceNetwork`] owns a growing set of locations and the one-way links
//! between them. [`SpaceNetwork::shortest_route`] searches it from one handle
//! to another and hands back a [`Route`].
//!
//! The verified core works on integers only. A coordinate is carried in its
//! 64-bit binary encoding, and a distance as a *cost key*: the encoding of a
//! non-negative double-precision number, which as an unsigned integer orders
//! exactly as the number does. The one numeric step of the search, lengthening
//! an accumulated distance by one straight leg, is supplied by the caller.

pub mod frontier;
pub mod geometry;
pub mod handle;
pub mod laws;
mod minimality;
pub mod network;
mod progress;
pub mod route;
pub mod search;
pub mod walks;

pub use geometry::{Point3, UNREACHED};
pub use handle::LocationId;
pub use network::{Location, SpaceNetwork};
pub use route::Route;
