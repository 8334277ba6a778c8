//! Decoding of WMO BUFR messages: a bit reader over the message bytes, the
//! descriptor tables (B and D), the Table C operator state and the
//! descriptor-driven interpreter that turns the data section into observations.
//!
//! Behaviour where the format leaves a choice:
//! - a descriptor that no table knows is passed over without reading any bit;
//! - replication descriptors (`F = 1`) are passed over: replication is not
//!   implemented;
//! - a reference-value change consumes its run up to and including the
//!   terminator `2-3-255`, and reads a field only for element descriptors;
//! - after the data, the rest of section 4 (as its length gives it) is skipped
//!   before the four bytes of section 5;
//! - physical values are kept exact, as `numerator / 10^scale`; a numeric
//!   field wider than 64 bits keeps its low 64 bits, while a CCITT IA5 field is
//!   read whole, as its `ceil(w/8)` bytes;
//! - element lookup goes local B, local D, master B: a key that the local
//!   Table D defines is no element.

pub mod bits;
pub mod descriptor;
pub mod stream;
pub mod operators;
pub mod decoder;
pub mod message;
pub mod table_text;
pub mod bundle;
