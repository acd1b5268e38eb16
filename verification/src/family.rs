//! Families of files: which renditions of one photograph belong together,
//! what part each plays, and which may go.
pub mod roles;
pub mod series;
pub mod categories;
pub mod links;
pub mod curation;
pub mod plan;
pub mod reports;
pub mod folders;
pub mod grouping;
pub mod perceptual;
pub mod originals;
pub mod review;
