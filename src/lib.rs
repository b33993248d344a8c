//! Table-based asymmetric numeral system (tANS) core: fixed-width symbol
//! chunking, frequency counting, spread-table construction and the encoder
//! state machine.
pub mod filechunker;
pub mod frequency;
pub mod t_ans;

pub use filechunker::FileChunker;
pub use frequency::{symbol_freq, FrequencyTable, CHUNK_SIZE};
pub use t_ans::{
    build_base_tans_config, build_tans_config, encode, generate_table, SpreadTable, TableANSConfig,
    TansError, DEFAULT_BASE, DEFAULT_SCALE,
};
