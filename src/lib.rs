//! Line-frequency counting: a table that tallies how often each distinct
//! line occurs, a report that orders the tallies by descending count, and
//! the CSV text of that report.
pub mod tally;
pub mod table;
pub mod report;
pub mod csv;
pub mod laws;
