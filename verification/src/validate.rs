//! Per-message inbound validation beyond the envelope verifier: the
//! wire-string length guard.
use vstd::prelude::*;
use vstd::string::StringSliceAdditionalSpecFns;

verus! {

/// True when `s` fits within `max_len` bytes (its UTF-8 length).
pub fn string_within_limit(s: &str, max_len: usize) -> (r: bool)
    ensures
        r == (s.spec_bytes().len() <= max_len),
{
    s.as_bytes().len() <= max_len
}

} // verus!
