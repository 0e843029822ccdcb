//! Verified core of the World of Warcraft tooling: the CDN/CASC formats and
//! planning logic of the client downloader, the chunk and table readers of the
//! map extractor, and the presence gates of the world server's social and
//! `who` handlers.

pub mod bytes;
pub mod jenkins;
pub mod order;
pub mod text;
pub mod client;
pub mod world;
pub mod extractor;
