//! Squeeze consecutive repeats of one character into a single occurrence.
//!
//! [`squeeze`] rewrites a `String` in place; the extension trait
//! [`SqueezeExt`] offers the same as the methods `squeeze_in_place` and
//! `squeeze`, of which the latter returns a new `String`. Squeezing `"heeelo"`
//! on `'e'` gives `"helo"`. Every run of the needle is squeezed, so
//! `"heeeleee"` becomes `"hele"`, and characters are compared exactly, so
//! squeezing `"hEeElEeE"` on `'E'` changes nothing.
//!
//! [`model`] says what squeezing means over sequences of characters, and
//! [`laws`] proves what follows from it: squeezing twice is squeezing once, the
//! result is never longer, it is the original with characters deleted and
//! nothing else, and the runs of every other character stay as they are.

pub mod model;
pub mod laws;
pub mod strings;

pub use crate::strings::{squeeze, SqueezeExt};
