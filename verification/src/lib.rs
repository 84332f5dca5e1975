//! Flattening of nested, labeled capture intervals into an ordered,
//! non-overlapping sequence of tagged segments covering a text span.
//!
//! The input is a list of capture records, each tagged with a match
//! occurrence index, a capture-group index local to that occurrence, and a
//! half-open byte range. The output partitions `[0, text_len)` into segments,
//! each tagged with the innermost open group covering it (or untagged).

pub mod caps;
pub mod laws;
