//! Where the desktop app keeps its data, and how it finds it again.
//!
//! The database cannot say where the database is, so the choice lives in a
//! small bootstrap file outside both the data directory and the program
//! directory. The rules here are decisions over what the shell observed on
//! disk: the shell reads and writes files, this module decides.
//!
//! None of the failures falls back to an empty database somewhere else: a
//! user whose external drive is unplugged must see "your data is not there",
//! not a fresh, empty archive that looks as if everything was lost.
pub mod bootstrap;
pub mod error;
pub mod geometry;
pub mod native;
pub mod relocate;
pub mod resolve;
pub mod window;
pub mod layout;
pub mod quit;
pub mod change;
pub mod prepare;
