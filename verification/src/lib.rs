//! A string-building library with a two-phase protocol: every value first
//! reports the exact byte length of its rendering, then writes exactly that
//! many bytes to a byte sink.  Numeric values are rendered by a configurable
//! formatter (digit alphabet, prefix, suffix, minimum width, sign policy),
//! and a concatenation pipeline sums the lengths, allocates once, and writes
//! once.
pub mod concat;
pub mod encoding;
pub mod sink;
pub mod numfmt;
pub mod traits;

pub use concat::{Piece, concat_len, concat_to_sink, concat_to_string};
pub use numfmt::{FormattedInt, SignPolicy, hex, HEX_DIGITS};
pub use sink::{ByteSink, SinkError, Utf8Write, VecSink};
pub use traits::{Format, Rep, Show};
