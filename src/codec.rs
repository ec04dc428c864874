//! Canonical SCALE encoding of the call tree.
use vstd::prelude::*;

use crate::call::{
    Call, ADDRESS_ID, ADD_MEMBER_CALL, BATCH_CALL, COMMITTEE_PALLET, FELLOWSHIP_PALLET,
    PROMOTE_MEMBER_CALL, PROPOSE_CALL, UTILITY_PALLET,
};

verus! {

broadcast use vstd::std_specs::vec::group_vec_axioms;

/// The compact (variable-width) encoding of an unsigned 32-bit integer: the
/// two low bits of the first byte give the width, the value follows
/// little-endian, shifted left by two in the three narrow forms.
pub open spec fn compact_u32(n: u32) -> Seq<u8> {
    if n < 64 {
        seq![(n * 4) as u8]
    } else if n < 16384 {
        let v = n * 4 + 1;
        seq![(v % 256) as u8, (v / 256) as u8]
    } else if n < 1073741824 {
        let v = n * 4 + 2;
        seq![(v % 256) as u8, ((v / 256) % 256) as u8, ((v / 65536) % 256) as u8, (v / 16777216) as u8]
    } else {
        seq![3u8, (n % 256) as u8, ((n / 256) % 256) as u8, ((n / 65536) % 256) as u8, (n / 16777216) as u8]
    }
}

/// Width in bytes of the compact encoding of `n`.
pub open spec fn compact_size(n: u32) -> nat {
    if n < 64 {
        1
    } else if n < 16384 {
        2
    } else if n < 1073741824 {
        4
    } else {
        5
    }
}

/// An account as `MultiAddress::Id`: the variant index, then the raw 32 bytes.
pub open spec fn address_bytes(who: [u8; 32]) -> Seq<u8> {
    seq![ADDRESS_ID] + who@
}

/// Every batch in the tree has a length that the compact `u32` prefix can hold.
pub open spec fn well_formed(c: Call) -> bool
    decreases c,
{
    match c {
        Call::Batch { calls } => calls@.len() <= u32::MAX && well_formed_all(calls@),
        Call::Propose { proposal, .. } => well_formed(*proposal),
        _ => true,
    }
}

pub open spec fn well_formed_all(s: Seq<Call>) -> bool
    decreases s,
{
    if s.len() == 0 {
        true
    } else {
        well_formed_all(s.subrange(0, s.len() - 1)) && well_formed(s[s.len() - 1])
    }
}

/// The canonical bytes of a call: pallet index, call index, then each field
/// in declared order.
pub open spec fn call_bytes(c: Call) -> Seq<u8>
    decreases c,
{
    match c {
        Call::AddMember { who } => seq![FELLOWSHIP_PALLET, ADD_MEMBER_CALL] + address_bytes(who),
        Call::PromoteMember { who } => seq![FELLOWSHIP_PALLET, PROMOTE_MEMBER_CALL] + address_bytes(who),
        Call::Batch { calls } =>
            seq![UTILITY_PALLET, BATCH_CALL] + compact_u32(calls@.len() as u32) + calls_bytes(calls@),
        Call::Propose { threshold, proposal, length_bound } =>
            seq![COMMITTEE_PALLET, PROPOSE_CALL] + compact_u32(threshold) + call_bytes(*proposal)
                + compact_u32(length_bound),
    }
}

/// The concatenated encodings of a sequence of calls, in order.
pub open spec fn calls_bytes(s: Seq<Call>) -> Seq<u8>
    decreases s,
{
    if s.len() == 0 {
        Seq::empty()
    } else {
        calls_bytes(s.subrange(0, s.len() - 1)) + call_bytes(s[s.len() - 1])
    }
}

/// The length of a call's encoding, computed from its shape alone.
pub open spec fn call_size(c: Call) -> nat
    decreases c,
{
    match c {
        Call::AddMember { .. } => 35,
        Call::PromoteMember { .. } => 35,
        Call::Batch { calls } => 2 + compact_size(calls@.len() as u32) + calls_size(calls@),
        Call::Propose { threshold, proposal, length_bound } =>
            2 + compact_size(threshold) + call_size(*proposal) + compact_size(length_bound),
    }
}

pub open spec fn calls_size(s: Seq<Call>) -> nat
    decreases s,
{
    if s.len() == 0 {
        0
    } else {
        calls_size(s.subrange(0, s.len() - 1)) + call_size(s[s.len() - 1])
    }
}

proof fn lemma_compact_size(n: u32)
    ensures
        compact_u32(n).len() == compact_size(n),
{
}

proof fn lemma_calls_bytes_push(s: Seq<Call>, i: int)
    requires
        0 <= i < s.len(),
    ensures
        calls_bytes(s.subrange(0, i + 1)) == calls_bytes(s.subrange(0, i)) + call_bytes(s[i]),
        calls_size(s.subrange(0, i + 1)) == calls_size(s.subrange(0, i)) + call_size(s[i]),
        well_formed_all(s.subrange(0, i + 1)) == (well_formed_all(s.subrange(0, i)) && well_formed(s[i])),
{
    let t = s.subrange(0, i + 1);
    assert(t.subrange(0, t.len() - 1) =~= s.subrange(0, i));
    assert(t[t.len() - 1] == s[i]);
}

proof fn lemma_calls_size_prefix(s: Seq<Call>, i: int)
    requires
        0 <= i <= s.len(),
    ensures
        calls_size(s.subrange(0, i)) <= calls_size(s),
    decreases s.len() - i,
{
    if i < s.len() {
        lemma_calls_bytes_push(s, i);
        lemma_calls_size_prefix(s, i + 1);
    } else {
        assert(s.subrange(0, i) =~= s);
    }
}

proof fn lemma_well_formed_prefix(s: Seq<Call>, i: int)
    requires
        0 <= i <= s.len(),
        well_formed_all(s),
    ensures
        well_formed_all(s.subrange(0, i)),
        forall|j: int| 0 <= j < i ==> well_formed(#[trigger] s[j]),
    decreases s.len() - i,
{
    if i < s.len() {
        lemma_calls_bytes_push(s, i);
        lemma_well_formed_prefix(s, i + 1);
    } else {
        assert(s.subrange(0, i) =~= s);
        lemma_well_formed_elems(s);
    }
}

proof fn lemma_well_formed_elems(s: Seq<Call>)
    requires
        well_formed_all(s),
    ensures
        forall|j: int| 0 <= j < s.len() ==> well_formed(#[trigger] s[j]),
    decreases s.len(),
{
    if s.len() > 0 {
        let t = s.subrange(0, s.len() - 1);
        lemma_well_formed_elems(t);
        assert forall|j: int| 0 <= j < s.len() implies well_formed(#[trigger] s[j]) by {
            if j < s.len() - 1 {
                assert(t[j] == s[j]);
            }
        }
    }
}

/// The size computed from a call's shape is the length of its encoding, for
/// every call.
pub proof fn lemma_encoded_size_is_length(c: Call)
    ensures
        call_bytes(c).len() == call_size(c),
    decreases c,
{
    match c {
        Call::Batch { calls } => {
            lemma_compact_size(calls@.len() as u32);
            lemma_calls_size_is_length(calls@);
        },
        Call::Propose { threshold, proposal, length_bound } => {
            lemma_compact_size(threshold);
            lemma_compact_size(length_bound);
            lemma_encoded_size_is_length(*proposal);
        },
        _ => {},
    }
}

proof fn lemma_calls_size_is_length(s: Seq<Call>)
    ensures
        calls_bytes(s).len() == calls_size(s),
    decreases s,
{
    if s.len() > 0 {
        lemma_calls_size_is_length(s.subrange(0, s.len() - 1));
        lemma_encoded_size_is_length(s[s.len() - 1]);
    }
}

/// Two calls hold the same data: the same variant, the same accounts and
/// integers, and batches whose calls agree one by one.
pub open spec fn same_call(a: Call, b: Call) -> bool
    decreases a,
{
    match a {
        Call::AddMember { who } => match b {
            Call::AddMember { who: w } => who@ == w@,
            _ => false,
        },
        Call::PromoteMember { who } => match b {
            Call::PromoteMember { who: w } => who@ == w@,
            _ => false,
        },
        Call::Batch { calls } => match b {
            Call::Batch { calls: cs } => same_calls(calls@, cs@),
            _ => false,
        },
        Call::Propose { threshold, proposal, length_bound } => match b {
            Call::Propose { threshold: t, proposal: p, length_bound: l } =>
                threshold == t && length_bound == l && same_call(*proposal, *p),
            _ => false,
        },
    }
}

pub open spec fn same_calls(s: Seq<Call>, t: Seq<Call>) -> bool
    decreases s,
{
    if s.len() == 0 {
        t.len() == 0
    } else {
        &&& t.len() == s.len()
        &&& same_calls(s.subrange(0, s.len() - 1), t.subrange(0, t.len() - 1))
        &&& same_call(s[s.len() - 1], t[t.len() - 1])
    }
}

/// Encoding is deterministic: calls that hold the same data have the same
/// encoding and the same size.
pub proof fn lemma_encoding_deterministic(a: Call, b: Call)
    requires
        same_call(a, b),
    ensures
        call_bytes(a) == call_bytes(b),
        call_size(a) == call_size(b),
    decreases a,
{
    match a {
        Call::AddMember { who } => {
            let w = b->AddMember_who;
            assert(who@ =~= w@);
            assert(who == w);
        },
        Call::PromoteMember { who } => {
            let w = b->PromoteMember_who;
            assert(who == w);
        },
        Call::Batch { calls } => {
            lemma_calls_deterministic(calls@, b->Batch_calls@);
        },
        Call::Propose { proposal, .. } => {
            lemma_encoding_deterministic(*proposal, *b->Propose_proposal);
        },
    }
}

proof fn lemma_calls_deterministic(s: Seq<Call>, t: Seq<Call>)
    requires
        same_calls(s, t),
    ensures
        calls_bytes(s) == calls_bytes(t),
        calls_size(s) == calls_size(t),
        s.len() == t.len(),
    decreases s,
{
    if s.len() > 0 {
        lemma_calls_deterministic(s.subrange(0, s.len() - 1), t.subrange(0, t.len() - 1));
        lemma_encoding_deterministic(s[s.len() - 1], t[t.len() - 1]);
    }
}

/// Relies on parity_scale_codec's `Encode` for `Compact<u32>`: appends the
/// compact encoding of `n` to `out`.
#[verifier::external_body]
fn push_compact(out: &mut Vec<u8>, n: u32)
    ensures
        final(out)@ == old(out)@ + compact_u32(n),
{
    parity_scale_codec::Encode::encode_to(&parity_scale_codec::Compact(n), out)
}

/// Relies on parity_scale_codec's `CompactLen<u32>` for `Compact<u32>`: the
/// width of the compact encoding of `n`.
#[verifier::external_body]
fn compact_len(n: u32) -> (r: usize)
    ensures
        r == compact_u32(n).len(),
{
    <parity_scale_codec::Compact<u32> as parity_scale_codec::CompactLen<u32>>::compact_len(&n)
}

fn push_address(out: &mut Vec<u8>, who: &[u8; 32])
    ensures
        final(out)@ == old(out)@ + address_bytes(*who),
{
    let ghost start = out@;
    out.push(ADDRESS_ID);
    let mut i: usize = 0;
    while i < 32
        invariant
            i <= 32,
            out@ == start + seq![ADDRESS_ID] + who@.subrange(0, i as int),
        decreases 32 - i,
    {
        out.push(who[i]);
        i = i + 1;
        assert(who@.subrange(0, i as int) =~= who@.subrange(0, i - 1) + seq![who@[i - 1]]);
    }
    assert(who@.subrange(0, 32) =~= who@);
}

/// Appends the canonical encoding of `c` to `out`.
pub fn encode_to(c: &Call, out: &mut Vec<u8>)
    requires
        well_formed(*c),
    ensures
        final(out)@ == old(out)@ + call_bytes(*c),
    decreases c,
{
    let ghost start = out@;
    match c {
        Call::AddMember { who } => {
            out.push(FELLOWSHIP_PALLET);
            out.push(ADD_MEMBER_CALL);
            push_address(out, who);
            assert(out@ =~= start + call_bytes(*c));
        },
        Call::PromoteMember { who } => {
            out.push(FELLOWSHIP_PALLET);
            out.push(PROMOTE_MEMBER_CALL);
            push_address(out, who);
            assert(out@ =~= start + call_bytes(*c));
        },
        Call::Batch { calls } => {
            out.push(UTILITY_PALLET);
            out.push(BATCH_CALL);
            push_compact(out, calls.len() as u32);
            let ghost head = out@;
            proof {
                lemma_well_formed_prefix(calls@, calls@.len() as int);
                assert(calls@.subrange(0, 0) =~= Seq::<Call>::empty());
            }
            let mut i: usize = 0;
            while i < calls.len()
                invariant
                    i <= calls@.len(),
                    calls@.len() <= u32::MAX,
                    *c == (Call::Batch { calls: *calls }),
                    forall|j: int| 0 <= j < calls@.len() ==> well_formed(#[trigger] calls@[j]),
                    out@ == head + calls_bytes(calls@.subrange(0, i as int)),
                    call_bytes(*c) == seq![UTILITY_PALLET, BATCH_CALL] + compact_u32(calls@.len() as u32)
                        + calls_bytes(calls@),
                decreases calls@.len() - i,
            {
                proof {
                    assert(decreases_to!(*calls => calls@));
                    assert(decreases_to!(calls@ => calls@[i as int]));
                    assert(decreases_to!(*c => calls@[i as int]));
                }
                encode_to(&calls[i], out);
                proof {
                    lemma_calls_bytes_push(calls@, i as int);
                }
                i = i + 1;
            }
            assert(calls@.subrange(0, calls@.len() as int) =~= calls@);
            assert(out@ =~= start + call_bytes(*c));
        },
        Call::Propose { threshold, proposal, length_bound } => {
            out.push(COMMITTEE_PALLET);
            out.push(PROPOSE_CALL);
            push_compact(out, *threshold);
            encode_to(proposal, out);
            push_compact(out, *length_bound);
            assert(out@ =~= start + call_bytes(*c));
        },
    }
}

/// The canonical encoding of `c`.
pub fn encode(c: &Call) -> (r: Vec<u8>)
    requires
        well_formed(*c),
    ensures
        r@ == call_bytes(*c),
        r@.len() == call_size(*c),
{
    let mut out: Vec<u8> = Vec::new();
    encode_to(c, &mut out);
    proof {
        lemma_encoded_size_is_length(*c);
    }
    assert(out@ =~= call_bytes(*c));
    out
}

/// The length of the encoding of `c`, computed without producing it.
pub fn encoded_size(c: &Call) -> (r: usize)
    requires
        well_formed(*c),
        call_size(*c) <= usize::MAX,
    ensures
        r == call_size(*c),
    decreases c,
{
    match c {
        Call::AddMember { .. } => 35,
        Call::PromoteMember { .. } => 35,
        Call::Batch { calls } => {
            let mut total: usize = compact_len(calls.len() as u32);
            proof {
                lemma_compact_size(calls.len() as u32);
                lemma_well_formed_prefix(calls@, calls@.len() as int);
                assert(calls@.subrange(0, 0) =~= Seq::<Call>::empty());
            }
            total = total + 2;
            let mut i: usize = 0;
            while i < calls.len()
                invariant
                    i <= calls@.len(),
                    calls@.len() <= u32::MAX,
                    *c == (Call::Batch { calls: *calls }),
                    forall|j: int| 0 <= j < calls@.len() ==> well_formed(#[trigger] calls@[j]),
                    total == 2 + compact_size(calls@.len() as u32) + calls_size(calls@.subrange(0, i as int)),
                    call_size(*c) <= usize::MAX,
                    call_size(*c) == 2 + compact_size(calls@.len() as u32) + calls_size(calls@),
                decreases calls@.len() - i,
            {
                proof {
                    lemma_calls_bytes_push(calls@, i as int);
                    lemma_calls_size_prefix(calls@, i + 1);
                }
                proof {
                    assert(decreases_to!(*calls => calls@));
                    assert(decreases_to!(calls@ => calls@[i as int]));
                    assert(decreases_to!(*c => calls@[i as int]));
                }
                let n = encoded_size(&calls[i]);
                total = total + n;
                i = i + 1;
            }
            assert(calls@.subrange(0, calls@.len() as int) =~= calls@);
            total
        },
        Call::Propose { threshold, proposal, length_bound } => {
            proof {
                lemma_compact_size(*threshold);
                lemma_compact_size(*length_bound);
            }
            let inner = encoded_size(proposal);
            2 + compact_len(*threshold) + inner + compact_len(*length_bound)
        },
    }
}

} // verus!
