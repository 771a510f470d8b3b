//! Scoring, rating and roster management for a grading desk.
//!
//! The library holds the data model of a grading session (questions,
//! students, recorded scores, rating thresholds) and every rule that the
//! application applies to it; the user interface and all I/O stand outside.

pub mod text;
pub mod models;
pub mod grading;
pub mod sorting;
pub mod rating;
pub mod students;
pub mod panels;
pub mod db;
pub mod csv_import;
pub mod json_error;
pub mod session;
