//! Nasdaq market-structure toolkit: the Nasdaq Trader symbol directory tables,
//! a price-level orderbook that also tracks orders by id, and a parser and
//! book builder for the binary TotalView-ITCH 5.0 protocol.

pub mod directory;
pub mod itch;
mod keyed;
pub mod orderbook;
pub mod text;

pub use directory::{all_tickers, Client, DirectoryFile, Error, FetchStep, Record, Table, Transport};
