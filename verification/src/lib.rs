//! Detects over-represented fixed-size bit blocks in a binary stream.
//!
//! The stream is segmented into blocks, the first half trains a frequency
//! model, a scan over candidate ranks picks the threshold maximizing a
//! normalized deviation statistic, and the second half validates that
//! threshold out of sample.  All statistics are carried as exact rationals
//! over arbitrary-precision integers.

pub mod bignum;
pub mod codec;
pub mod errors;
pub mod freq;
pub mod pipeline;
pub mod ranker;
pub mod stat;
pub mod validator;
