//! Subtitle font tooling: ASS/SSA parsing, font usage analysis, font-name
//! normalization and the bookkeeping around temporarily loaded fonts.

pub mod text;
pub mod name_set;
pub mod sort;
pub mod subtitle;
pub mod font;
pub mod session;
pub mod gui;
pub mod report;
pub mod discover;
pub mod windows_api_wrapper;
pub mod input;
pub mod cli;
pub mod listing;
