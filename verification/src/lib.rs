//! Decoders for trajectory records of inertial and GPS navigation systems.
//!
//! Two on-disk formats are read: the whitespace-delimited text format of
//! [`pos`] and the fixed-width little-endian binary format of [`sbet`]. Both
//! decoders fill the same record, [`point::Point`].
//!
//! Every number of a record is an IEEE 754 binary64 value. The decoders carry
//! such a value by its bit pattern ([`units::Binary64`]) and never compute
//! with it: turning decimal text into a binary64 value and degrees into
//! radians is arithmetic on the values themselves and is left to the caller.

pub mod endian;
pub mod error;
pub mod point;
pub mod pos;
pub mod sbet;
pub mod text;
pub mod units;

pub use error::Error;
