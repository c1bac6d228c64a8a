//! Sorting of Ilias submission archives into one folder per team.
//!
//! An export from Ilias is a zip archive with one spreadsheet, which lists
//! who handed in what and in which team, and one file per submission. This
//! library holds the rules of the sorting, and proves them:
//!
//! - [`excel`] reads the rows of the spreadsheet and gathers them into teams;
//! - [`submission`] names a team's folder and writes its summary;
//! - [`path`] tells the spreadsheet and the submissions apart by their paths,
//!   and tells which entry names stay inside the archive;
//! - [`archive`] finds the spreadsheet among the entries and indexes the
//!   rest;
//! - [`extractor`] decides, step by step, which folder to make and which
//!   entry to copy where;
//! - [`run`] states what a whole run leaves on disk.
//!
//! The library reads no file and writes none: it is handed cells and entry
//! names, and hands out what to do.

use vstd::prelude::*;

pub mod archive;
pub mod error;
pub mod excel;
pub mod extractor;
pub mod path;
pub mod run;
pub mod submission;
pub mod text;
pub mod timestamp;

verus! {

/// What the user asked for: where to read, where to write, and how.
#[derive(Debug, Clone)]
pub struct IliasConfiguration {
    /// Path to the Ilias zip file.
    pub input: String,
    /// Output folder where all content is placed in.
    pub output: String,
    /// Writes a summary file into every team folder.
    pub summary: bool,
    /// Allows replacing files that are already there.
    pub overwrite: bool,
    /// Clears the output folder before anything is written.
    pub purge: bool,
    /// Narrates what is being done.
    pub verbose: bool,
}

} // verus!
