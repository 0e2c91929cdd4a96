//! mfsutils: reading Macintosh MFS (1984 flat filesystem) disk images,
//! and exporting their files as MacBinary II, BinHex 4.0, text or raw data.

pub mod binhex;
pub mod bytes;
pub mod calendar;
pub mod commands;
pub mod error;
pub mod glob;
pub mod listing;
pub mod macbinary;
pub mod mfs;
pub mod mount;
pub mod text;
pub mod util;
