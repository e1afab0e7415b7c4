//! The rules of a NetISO server: which disc images it offers, how it answers a
//! console's requests, and how images are converted between formats.

pub mod bytes;
pub mod chd_cache;
pub mod cli;
pub mod convert;
pub mod errors;
pub mod iso;
pub mod message;
pub mod naming;
pub mod path_facts;
pub mod paths;
pub mod round_trips;
pub mod scan;
pub mod server;
pub mod text;
