//! The verified core of a small podcast downloader: parsing a feed's
//! element tree into episode records, deciding which episodes are new
//! against the persisted download state, the step-by-step decision logic
//! of one episode's download, aggregation of concurrent download outcomes,
//! and reconciliation of the persisted state under a retention cap.
//!
//! Fetching bytes over HTTP, the file system, threads and rendering stay
//! with the calling program; the XML element tree and the URL's final path
//! segment come from the `roxmltree` and `url` crates through a few
//! trusted declarations.

pub mod config;
pub mod dedup;
pub mod download;
pub mod episode;
pub mod feed;
pub mod podcast;
pub mod state;
mod text;
pub mod xml;

pub use episode::Episode;
pub use episode::EpisodeView;
