//! Lowercase hexadecimal text of the proposal's bytes.
use vstd::prelude::*;

use crate::builder::Proposal;
use crate::codec::{call_bytes, encode, well_formed};

verus! {

/// The lowercase hexadecimal digit of `d`, for `d < 16`.
pub open spec fn hex_digit(d: int) -> char {
    seq!['0', '1', '2', '3', '4', '5', '6', '7', '8', '9', 'a', 'b', 'c', 'd', 'e', 'f'][d]
}

/// Two lowercase hexadecimal digits for each byte, high nibble first.
pub open spec fn hex_of(b: Seq<u8>) -> Seq<char> {
    Seq::new(
        2 * b.len(),
        |i: int| if i % 2 == 0 { hex_digit(b[i / 2] as int / 16) } else { hex_digit(b[i / 2] as int % 16) },
    )
}

/// Relies on hex::encode: two lowercase digits for each byte, in order.
#[verifier::external_body]
fn to_hex(b: &[u8]) -> (r: String)
    ensures
        r@ == hex_of(b@),
{
    hex::encode(b)
}

/// The encoded proposal call, as lowercase hexadecimal.
pub fn call_data_hex(p: &Proposal) -> (r: String)
    requires
        well_formed(p.call),
    ensures
        r@ == hex_of(call_bytes(p.call)),
{
    let bytes = encode(&p.call);
    to_hex(bytes.as_slice())
}

/// The digest of the proposal's batch, as lowercase hexadecimal.
pub fn proposal_hash_hex(p: &Proposal) -> (r: String)
    ensures
        r@ == hex_of(p.proposal_hash@),
{
    to_hex(&p.proposal_hash)
}

} // verus!
