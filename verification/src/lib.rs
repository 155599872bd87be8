//! Pairs subtitle files with video files by episode number and plans the
//! renames that give each subtitle its video's base name.
//!
//! The library holds the whole decision logic of the tool: extracting an
//! episode number from a filename by an ordered list of pattern rules,
//! classifying directory entries as videos or subtitles, building the
//! episode-to-video mapping, and producing the sorted rename plan. The
//! surrounding binary only lists the directory, feeds plain entries in, and
//! carries the planned renames out on the filesystem.

pub mod extract;
pub mod names;
pub mod plan;
pub mod scan;
