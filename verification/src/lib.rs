//! Parsing and reordering of KOSPI 200 quote packets taken from pcap
//! captures or live UDP feeds.

pub mod accept_time;
pub mod feed_tools;
pub mod format;
pub mod kospi;
pub mod quote_parser;
pub mod reorder;
pub mod sources;

pub use kospi::{HeapItem, KospiHandler, QuoteData};
pub use sources::run_pcap_source;
