//! Lexicographically time-sortable identifiers: a 36-character, hyphen-separated
//! textual form packing a nanosecond timestamp, a namespace tag, a host tag and
//! random entropy into fixed-width base-36 fields, plus a decoder that recovers
//! the timestamp from the canonical string.

pub mod codec;
pub mod decode;
mod env;
pub mod errors;
pub mod identifier;
pub mod laws;

use vstd::prelude::*;

verus! {

/// The 36 symbols of the base-36 alphabet, in digit order.
pub open spec fn base36_alphabet() -> Seq<char> {
    seq![
        '0', '1', '2', '3', '4', '5', '6', '7', '8', '9', 'a', 'b', 'c', 'd', 'e', 'f', 'g', 'h',
        'i', 'j', 'k', 'l', 'm', 'n', 'o', 'p', 'q', 'r', 's', 't', 'u', 'v', 'w', 'x', 'y', 'z',
    ]
}

} // verus!
