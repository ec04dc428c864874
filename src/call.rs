//! The call tree and the fixed schema of the target runtime.
use vstd::prelude::*;

verus! {

/// Index of the utility pallet in the runtime's call enum.
pub const UTILITY_PALLET: u8 = 24;

/// Index of `batch` within the utility pallet.
pub const BATCH_CALL: u8 = 0;

/// Index of the technical committee pallet in the runtime's call enum.
pub const COMMITTEE_PALLET: u8 = 15;

/// Index of `propose` within the technical committee pallet.
pub const PROPOSE_CALL: u8 = 2;

/// Index of the fellowship ranked-collective pallet in the runtime's call enum.
pub const FELLOWSHIP_PALLET: u8 = 22;

/// Index of `add_member` within the ranked-collective pallet.
pub const ADD_MEMBER_CALL: u8 = 0;

/// Index of `promote_member` within the ranked-collective pallet.
pub const PROMOTE_MEMBER_CALL: u8 = 1;

/// Variant index of `MultiAddress::Id`, the address form used for `who`.
pub const ADDRESS_ID: u8 = 0;

/// A runtime call of the schema, with its arguments. Accounts are sent as
/// `MultiAddress::Id`; the `threshold` and `length_bound` of `Propose` are
/// compact integers, and its fields are encoded in the order written here.
#[derive(Debug, PartialEq, Eq)]
pub enum Call {
    AddMember { who: [u8; 32] },
    PromoteMember { who: [u8; 32] },
    Batch { calls: Vec<Call> },
    Propose { threshold: u32, proposal: Box<Call>, length_bound: u32 },
}

} // verus!
