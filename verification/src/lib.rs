//! Conversion and addressing engine for a concentrated-liquidity pool:
//! tick-array indexing and alignment arithmetic, the two-tier bitmap codec
//! that maps compact bit patterns to populated tick-array start indices,
//! the swap-range resolver that orders and classifies the arrays a trade
//! must touch, and liquidity aggregation over decoded tick boundaries.

pub mod bitmap;
pub mod indexer;
pub mod liquidity;
pub mod pda;
pub mod resolver;
pub mod sorting;
pub mod states;
