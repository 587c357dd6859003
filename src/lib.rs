//! Generation of smooth numbers: ascending sequences of the positive
//! integers whose factors all come from a given set of generators.

pub mod model;
pub mod merge;
pub mod pratt;
pub mod bounded;
pub mod laws;

pub use bounded::{smooth, try_smooth};
pub use merge::{try_with_primes, with_primes};
pub use pratt::{pratt, try_pratt};
