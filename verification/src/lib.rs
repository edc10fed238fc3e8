//! Turns clustered free-text lines into thematic groups and deterministic
//! report artifacts: a column-aligned tabular export and, per group, a
//! frequency-weighted word summary with exclusion filtering and a bucketed
//! color policy.

pub mod cloud;
pub mod extract;
pub mod grouping;
pub mod labels;
pub mod table;
