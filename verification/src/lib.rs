//! Ordered search-and-aggregate pipeline for a line-oriented content search.
//!
//! Files are discovered in a fixed order and numbered as they are found.
//! Each file is searched on its own, possibly at the same time as others, and
//! reports its matching lines as events. The aggregator puts the events back
//! into discovery order, so that what is written is the same whatever the
//! order in which the searches end.
//!
//! The library does no input or output of its own. It is handed the listing
//! of a directory and the lines of a file, and hands back the lines to print.
//!
//! - [`config`]: the settings of a run, the kind of its path, its errors.
//! - [`traverse`]: the order in which files are found, and their ranks.
//! - [`text`]: whether a line matches the pattern.
//! - [`style`] and [`render`]: how a matching line is shown.
//! - [`worker`]: the search of one file, from lines to events.
//! - [`events`]: what the searches report.
//! - [`aggregate`]: the events put back into discovery order.
//! - [`writer`]: the records written, and their text.
//! - [`reorder`]: the laws that tie the output to the discovery order.

pub mod aggregate;
pub mod config;
pub mod events;
pub mod render;
pub mod reorder;
pub mod style;
pub mod text;
pub mod traverse;
pub mod worker;
pub mod writer;
