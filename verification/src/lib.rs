//! Translation engine for fastd status documents: decodes one JSON status
//! snapshot per daemon instance, flattens it into labeled metric samples,
//! and merges the samples of several instances into one collision-free set.
//!
//! All strings that originate in a status document (interface names, peer
//! keys, peer names) are kept as byte strings, exactly as they appeared on
//! the wire; numbers are kept as exact decimals. The I/O that obtains the
//! documents and the text exposition of the merged sample set live outside
//! this crate.

pub mod status;
pub mod tokens;
pub mod decode;
pub mod encode;
pub mod metrics;
pub mod aggregate;
