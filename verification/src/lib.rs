//! Greedy allocation of students to projects and supervising staff.
//!
//! A [`representation::Problem`] is an arena of staff, projects and students
//! whose cross-references are record keys. [`solution::solve`] runs five
//! greedy passes over shared capacity pools and returns the completed
//! allocations, which are scored and rendered as a sorted report.
pub mod error;
pub mod intermediate;
pub mod matching;
pub mod order;
pub mod rckey;
pub mod representation;
pub mod search;
pub mod solution;
pub mod text;

pub use crate::error::{FileHandlingError, FileMode, ProgramError};
