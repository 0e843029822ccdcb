//! The client downloader: NGDP/TACT formats, planning and the local CASC layout.

pub mod util;
pub mod header;
pub mod cdn_index;
pub mod blte;
pub mod encoding;
pub mod plan;
pub mod fetch;
pub mod product;
pub mod tables;
pub mod manifest;
pub mod tags;
pub mod config;
pub mod root;
pub mod idx;
pub mod build_info;
pub mod index_set;
pub mod cli;
pub mod download;
pub mod server;
pub mod progress;
pub mod storage;
pub mod http;
