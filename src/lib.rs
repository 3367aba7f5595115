//! Locating labelled fields on acceptance-act worksheets whose layout is not
//! fixed: a catalog of searchable tags, a scan of the worksheet's populated
//! cells that records where each tag stands, and the alignment checks that
//! reject a misformatted document.
pub mod errors;
pub mod laws;
pub mod sheet;
pub mod tags;
pub mod text;
