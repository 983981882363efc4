//! Concordance of local-ancestry calls between a reference run and a target run.
//!
//! The library works on bytes and plain values: the caller reads the files and
//! hands their contents in.
//!
//! - `text`: lines, fields and decimal numbers of a tab-separated file.
//! - `samples`: the set of requested haplotypes.
//! - `resolver`: the columns of a file that hold the requested haplotypes.
//! - `calls`: the windows and called labels of a window-call file.
//! - `window`: the streaming of locus rows into windows.
//! - `aggregate`: the cells behind each called label, and the filter matrix.
//! - `concordance`: the alignment of columns by identifier, and the counts.
//! - `compare`: the comparison of two files from end to end.
//! - `report`: the totals of a comparison.
//! - `prepare`: what a variant file says of each locus.
//! - `error`: the ways in which a comparison fails.

pub mod aggregate;
pub mod calls;
pub mod compare;
pub mod concordance;
pub mod error;
pub mod prepare;
pub mod report;
pub mod resolver;
pub mod samples;
pub mod text;
pub mod window;
