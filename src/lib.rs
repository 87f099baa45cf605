//! Decoding of market quote records and their reordering by accept time
//! under a bounded skew between accept time and packet capture time.
//!
//! `parser` reads one fixed-layout record from bytes; `buffer` holds the
//! quotes not yet released together with the tracker of their lowest accept
//! time and highest packet time; `merge` decides, pull by pull, what the
//! ordered stream hands downstream.
pub mod buffer;
pub mod clock;
pub mod merge;
pub mod parser;
pub mod quote;

pub use buffer::{AcceptArrivedGap, Buffer};
pub use clock::{extract_time, EXCHANGE_UTC_OFFSET_HOURS};
pub use merge::{decode_record, order_quotes, QuoteMerge, ACCEPT_GAP};
pub use parser::{content_parser, DecodeError};
pub use quote::{Ask, Asks, Bid, Bids, QuotePacket, TimeOfDay};
