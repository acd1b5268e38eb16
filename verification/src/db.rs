//! The rows the archive's database holds, as plain values.
pub mod files;
pub mod marks;
pub mod model;
pub mod review;
