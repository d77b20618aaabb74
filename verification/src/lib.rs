pub mod agari;
pub mod average;
pub mod combinatorics;
pub mod converter;
pub mod error;
pub mod flat_file;
pub mod hand;
pub mod mass;
pub mod metrics;
pub mod octal;
pub mod parse;
pub mod pipeline;
pub mod query;
pub mod search;
pub mod seeds;
pub mod tables;
pub mod tsumo;
pub mod types;

pub use converter::HandConverter;
pub use error::Error;
pub use flat_file::FixedRepr;
pub use hand::{Hand, HandView, NUM_HAND13, NUM_HAND14};
pub use parse::parse_hand_str;
pub use types::{Dimension, Metrics, Tile, NUM_DIMENSIONS, NUM_ROUNDS};
