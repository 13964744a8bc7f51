//! A bound-watch index for integer bound literals.
//!
//! The index maps *bound literals* (`x <= t` or `x >= t` on an integer
//! variable `x`) to the *watchers* registered under them, and answers, for a
//! literal that has just become true, every watcher whose literal is entailed
//! by that event, in a deterministic order.

pub mod boundary;
pub mod lit;
pub mod watches;

pub use boundary::Deserialize;
pub use lit::Lit;
pub use lit::Rel;
pub use watches::Watches;
