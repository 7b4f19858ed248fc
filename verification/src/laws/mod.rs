//! What the notations promise as a whole: each written form reads back as
//! what was written.
pub mod lexical;
pub mod scan;
pub mod written;
pub mod avn_reads;
pub mod typed;
pub mod avn_round_trip;
pub mod gser_reads;
pub mod gser_round_trip;
pub mod formats;
pub mod reals;
