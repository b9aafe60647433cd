//! Verified core of a directory-size scanner.
//!
//! The library models the scan of a directory tree as pure logic on plain
//! values: a walker (kept outside the library) hands in the regular files it
//! found, each as a path string with a byte size, and the directories it
//! visited.  The aggregator records every surviving file and attributes its
//! size to every ancestor directory; the pipeline filters and sorts the merged
//! entry list; the renderers produce the console, CSV, JSON and summary text
//! exactly.  A small companion module orders process records by memory use.

pub mod human;
pub mod pathmodel;
pub mod size_map;
pub mod aggregate;
pub mod entries;
pub mod render;
pub mod summary;
pub mod procs;
