//! Changelog addition checker: a verified unified-diff hunk parser and a
//! section classifier that maps each added line of a changelog to the
//! nearest preceding section heading in the post-change file.
//!
//! The pipeline is pure: callers hand in the raw patch text for one file
//! and the final file's content, [`parser::parse_hunks`] turns the patch
//! into added (target line number, text) pairs, and
//! [`classifier::classify_additions`] resolves each pair to the nearest
//! preceding `## ` heading of the final file.

pub mod args;
pub mod checker;
pub mod classifier;
pub mod parser;
pub mod text;
