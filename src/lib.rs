//! Normalizes tag files: a file holds comma-separated tags, then `., ` and a free-text
//! sentence. The tags that are on an allow-list and absent from the sentence are dropped, and
//! the file is rewritten as the allow-list, ` ||| `, the remaining tags and the sentence.
//! `scan` selects the files to rewrite from a directory tree.

pub mod normalize;
pub mod record;
pub mod scan;
pub mod text;
