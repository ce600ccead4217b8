//! Integer core of a lost-in-space plate solver: the native pattern-database
//! layout, star-blob formation and gating, the solver's combinatorial search
//! and the service's request checks, each with a verified contract.

pub mod blob;
pub mod blob_laws;
pub mod db_layout;
pub mod detect;
pub mod gate;
pub mod gray_image;
pub mod matching;
pub mod service;
pub mod solve;
