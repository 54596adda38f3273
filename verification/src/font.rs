//! Font name tables: which aliases a font file answers to, and how names are
//! normalized for lookup.

pub mod index;
pub mod names;
pub mod scan;
