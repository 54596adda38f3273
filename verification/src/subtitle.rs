//! ASS/SSA subtitle parsing, text decoding and font usage analysis.

pub mod ass;
pub mod fonts;
pub mod encoding;
