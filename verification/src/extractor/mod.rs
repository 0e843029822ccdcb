//! The map extractor: command line, chunked ADT/WDT files, map tiles and
//! liquid tables.

pub mod loadlib;
pub mod adt;
pub mod casc;
pub mod cli;
pub mod maps;
pub mod tables;
pub mod db2;
