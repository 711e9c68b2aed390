//! An Ulam spiral visualizer core: natural numbers arranged in a square
//! spiral, with the prime-numbered cells highlighted.
//!
//! The library owns the three algorithms and proves what they compute: a
//! growable Sieve of Eratosthenes ([`sieve`]), the spiral coordinate walk
//! ([`spiral`]), and the renderer that reconciles walk order with the number
//! line and paints the pixel buffer ([`render`]). The [`controller`] ties the
//! three to a display surface's size reports; the windowing itself stays
//! outside the library. The primality table lives in a `bitvec` bit-vector
//! behind the trusted wrappers of [`table`].

pub mod controller;
pub mod render;
pub mod sieve;
pub mod spiral;
pub mod table;
