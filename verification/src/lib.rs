//! A limit order book and matching engine whose behaviour is stated in
//! contracts and proved.

pub mod agreement;
pub mod algorithms;
pub mod allocation;
pub mod arena;
pub mod conduct;
pub mod grid;
pub mod instrument;
pub mod laws;
pub mod ledger;
pub mod matching;
pub mod model;
pub mod names;
pub mod order_index;
pub mod order_queue;
pub mod orderbook;
pub mod sharing;
pub mod stops;
pub mod storage;
pub mod streams;
pub mod sums;
pub mod test_helpers;
pub mod types;
