//! Photo-archive cleanup: the decisions and parsers behind it.
pub mod jpeg;
pub mod text;
pub mod lang;
pub mod sniff;
pub mod tiff;
pub mod meta;
pub mod unionfind;
pub mod family;
pub mod db;
pub mod hash;
pub mod lightroom;
pub mod paths;
pub mod desktop;
pub mod probe;
