//! Simplification and smoothing of linestrings whose points lie on an
//! integer grid, in any fixed dimension.
//!
//! A point is an array of `D` integer coordinates (`geometry::Point`), and a
//! line is a slice of points. Squared distances, segment distances and
//! triangle areas are all computed exactly, so every decision the
//! algorithms take is the one the exact geometry calls for.
//!
//! - `rdp`: Ramer–Douglas–Peucker simplification, by a distance tolerance.
//! - `vw`: Visvalingam–Whyatt decimation, down to a number of points, on
//!   open lines and on closed rings.
//! - `smooth`: moving-average smoothing, and convolution with a `Kernel`
//!   (`kernel`), with the line reflected past its ends.
pub mod geometry;
pub mod index;
pub mod kernel;
pub mod rdp;
pub mod smooth;
pub mod vw;
