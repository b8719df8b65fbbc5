//! The folder-to-tag aggregation core of an audio tag editor.
//!
//! A lazily expanded directory tree feeds a selection of folders into a
//! collection of tag records that is rebuilt, generation by generation, from
//! the files those folders hold.

pub mod directorywatch;
pub mod filecolumnview;
pub mod folderbrowser;
pub mod taggablefile;
pub mod text;
