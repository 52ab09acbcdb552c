//! Locating, choosing and purging build-output directories of projects
//! under a root directory.

pub mod clean;
pub mod cli;
pub mod report;
pub mod scan;
pub mod select;
pub mod size;
pub mod text;
pub mod walk;
