//! Computations behind a disk-usage analyzer: human-readable size labels,
//! per-directory percentages of a parent's size, the text of a printed
//! report, and the navigation history of the browser.

pub mod navigation;
pub mod percent;
pub mod report;
pub mod rounding;
pub mod sizes;
