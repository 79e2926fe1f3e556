//! LiteNetLib-compatible transport pieces: the wire-format primitives, the
//! ids derived from transport slots, and the host's peer bookkeeping.
pub mod host;
pub mod ids;
pub mod protocol;
