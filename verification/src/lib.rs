//! A Galton board simulation library: balls fall through a triangular array
//! of pegs, bouncing left or right at random, and accumulate into bins whose
//! counts approximate a binomial distribution. The library simulates the
//! board, computes exact integer moments of the resulting histogram, parses
//! run parameters from text, and lays out an ASCII histogram.
//!
//! - [`hist`] models a histogram as a sequence of bin counts and defines
//!   the three moment sums the other modules speak of.
//! - [`input`] reads a line of text as a non-negative integer with a
//!   default fallback.
//! - [`sim`] drops balls through the board and tallies where they land.
//! - [`stats`] computes the moment sums exactly.
//! - [`viz`] lays the histogram out as bars with outlier marks.
//!
//! Console input and output, and the floating-point mean, standard
//! deviation and variance derived from the integer moments, belong to the
//! program around the library.

pub mod hist;
pub mod input;
pub mod sim;
pub mod stats;
pub mod viz;
