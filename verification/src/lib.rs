//! Incremental fuzzy file search: scoring, ranking, corpus preparation and the
//! query session that drives them.

pub mod error;
pub mod parallel;
pub mod persistence;
pub mod preprocess;
pub mod rank;
pub mod scorer;
pub mod session;
pub mod walk;
