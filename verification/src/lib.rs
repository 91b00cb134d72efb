//! Justice's paragraph engine.
//!
//! The solver is a total-fit line breaker in the tradition of Knuth and Plass:
//! every break in a paragraph is chosen together to minimize a paragraph-wide
//! cost. You supply word widths for the exact font you render with; the engine
//! returns line boundaries and CSS spacing values.
//!
//! Numbers are IEEE-754 doubles, held as their bits in [`Binary64`].

use vstd::prelude::*;

pub mod accounting;
pub mod binary64;
pub mod bounds;
pub mod choices;
pub mod completion;
pub mod costs;
pub mod endings;
pub mod errors;
pub mod exact;
pub mod extra;
pub mod ffi;
pub mod fit;
pub mod fragments;
pub mod gauge;
pub mod hyphenated;
pub mod hyphenation;
pub mod laws;
pub mod margins;
pub mod marks;
pub mod model;
pub mod numerals;
pub mod numeric;
pub mod optimum;
pub mod overflow;
pub mod plans;
pub mod prepare;
pub mod pruning;
pub mod render;
pub mod requests;
pub mod rounding;
pub mod sampling;
pub mod search;
pub mod shapes;
pub mod sheets;
pub mod signs;
pub mod solve;
pub mod solver;
pub mod statics;
pub mod steps;
pub mod strains;
pub mod strict;
pub mod tables;
pub mod tariffs;
pub mod text;
pub mod ties;
pub mod words;

pub use binary64::Binary64;
pub use hyphenation::with_hyphenation;
pub use margins::with_optical_margins;
pub use model::{
    Ending, Error, Layout, Line, Margins, Measure, Mode, Options, Prepared, WordFragments,
};
pub use prepare::{prepare, prepare_ranged};
pub use render::line_text;
pub use solve::{solve, solve_measure, solve_with};
pub use statics::{
    compile_static, compile_static_with, static_line, static_line_with, static_spacing,
    static_spacing_with, StaticBand, StaticLine,
};
pub use text::split_ranges;

verus! {

}
