//! Day-by-day "time shortcut" planning for a static calendar site.
//!
//! Every month of a year is given one shortcut date per offset ("quarter past
//! March", "half past March"), and every calendar day is resolved to the next
//! shortcut of its year. The library computes the assignments, the per-day
//! resolution, the names under which pages and the sitemap are stored, and
//! the order in which pages are rendered and stored. Rendering and storing
//! themselves are left to the program that uses it.
//!
//! Dates are computed by `chrono` and years are grouped by `itertools`; what
//! is taken on trust of them is stated on the private functions that call
//! them.

pub mod calendar;
pub mod date_text;
pub mod fraction;
pub mod assignment;
pub mod sorting;
pub mod resolver;
pub mod error;
pub mod partition;
pub mod plan;
pub mod site;
pub mod fanout;
pub mod determinism;
