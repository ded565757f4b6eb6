//! What holds of the library as a whole.
pub mod calls;
pub mod counts;
pub mod ground;
pub mod items;
pub mod paths;
pub mod positions;
pub mod runs;
pub mod traces;
pub mod values;
