//! Recordings that come from elsewhere: files that a phone uploads over the local network, and
//! transcripts that an outside speech recogniser makes.
//!
//! Everything here is verified, but for a few outside functions whose contracts are taken on trust:
//! each stands behind one item that says what it claims. Sockets, files and the user interface
//! belong to the program around the library, which hands over plain values and does as it is told.

pub mod text;
pub mod decimal;
pub mod percent;
pub mod query;
pub mod filename;
pub mod ids;
pub mod request;
pub mod response;
pub mod page;
pub mod router;
pub mod upload;
pub mod server;
pub mod diarization;
pub mod wire;
pub mod laws;
