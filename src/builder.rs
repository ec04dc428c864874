//! Assembles the proposal's call tree from a roster.
use vstd::prelude::*;

use crate::call::Call;
use crate::codec::{call_bytes, call_size, encode, encoded_size, well_formed, well_formed_all, calls_size};
use crate::hasher::{blake2_256, blake2_256_of};

verus! {

/// Name of the member who is already enrolled and gets no calls.
pub const EXCLUDED_MEMBER: &'static str = "gavofyork";

/// Promotions to this rank and above need a referendum of their own, so the
/// batch never carries them.
pub const PROMOTION_LIMIT: u8 = 6;

/// Committee votes needed for the proposal.
pub const THRESHOLD: u32 = 2;

/// Largest roster the builder accepts: with it every size in the tree,
/// `length_bound` included, fits in a `u32`.
pub const MAX_ROSTER: usize = 400000;

/// One row of the roster.
#[derive(Debug, Clone, PartialEq, Eq)]
pub struct Member {
    pub name: String,
    pub account_id: [u8; 32],
    pub rank: u8,
}

/// The policy by which calls are chosen for each member.
#[derive(Debug, Clone, PartialEq, Eq)]
pub struct Policy {
    pub excluded_name: String,
    pub promotion_limit: u8,
    pub threshold: u32,
}

/// The built proposal, with the digest of the batch it carries.
#[derive(Debug, PartialEq, Eq)]
pub struct Proposal {
    pub call: Call,
    pub proposal_hash: [u8; 32],
}

/// One `PromoteMember` for each rank level below `rank` that is below `limit`.
pub open spec fn promotions(who: [u8; 32], rank: nat, limit: nat) -> Seq<Call>
    decreases rank,
{
    if rank == 0 {
        Seq::empty()
    } else if rank - 1 < limit {
        promotions(who, (rank - 1) as nat, limit).push(Call::PromoteMember { who })
    } else {
        promotions(who, (rank - 1) as nat, limit)
    }
}

/// The calls emitted for one member.
pub open spec fn member_calls(m: Member, p: Policy) -> Seq<Call> {
    if m.name@ == p.excluded_name@ {
        Seq::empty()
    } else {
        seq![Call::AddMember { who: m.account_id }] + promotions(
            m.account_id,
            m.rank as nat,
            p.promotion_limit as nat,
        )
    }
}

/// The calls emitted for a roster, member by member in order.
pub open spec fn roster_calls(ms: Seq<Member>, p: Policy) -> Seq<Call>
    decreases ms.len(),
{
    if ms.len() == 0 {
        Seq::empty()
    } else {
        roster_calls(ms.subrange(0, ms.len() - 1), p) + member_calls(ms[ms.len() - 1], p)
    }
}

/// `c` is a batch whose calls are `calls`.
pub open spec fn is_batch_of(c: Call, calls: Seq<Call>) -> bool {
    match c {
        Call::Batch { calls: v } => v@ == calls,
        _ => false,
    }
}

/// `r` is the proposal for `members` under `p`: a `Propose` of the batch of
/// the roster's calls, with the policy's threshold, the batch's encoded size
/// as `length_bound`, and the digest of the batch's encoding.
pub open spec fn is_proposal_for(r: Proposal, members: Seq<Member>, p: Policy) -> bool {
    match r.call {
        Call::Propose { threshold, proposal, length_bound } => {
            &&& threshold == p.threshold
            &&& is_batch_of(*proposal, roster_calls(members, p))
            &&& length_bound == call_size(*proposal)
            &&& r.proposal_hash@ == blake2_256_of(call_bytes(*proposal))
        },
        _ => false,
    }
}

/// A call of the ranked collective: an `AddMember` or a `PromoteMember`.
pub open spec fn is_member_call(c: Call) -> bool {
    c is AddMember || c is PromoteMember
}

proof fn lemma_promotions(who: [u8; 32], rank: nat, limit: nat)
    ensures
        promotions(who, rank, limit) == Seq::new(
            if rank < limit { rank } else { limit },
            |i: int| Call::PromoteMember { who },
        ),
    decreases rank,
{
    if rank > 0 {
        lemma_promotions(who, (rank - 1) as nat, limit);
        let n: nat = if rank < limit { rank } else { limit };
        assert(promotions(who, rank, limit) =~= Seq::new(n, |i: int| Call::PromoteMember { who }));
    } else {
        assert(promotions(who, rank, limit) =~= Seq::new(0, |i: int| Call::PromoteMember { who }));
    }
}

/// A member who is not excluded gets exactly one `AddMember`, followed by
/// one `PromoteMember` for each rank level below both its rank and the
/// promotion limit, all naming the member's account.
pub proof fn lemma_member_calls_counts(m: Member, p: Policy)
    requires
        m.name@ != p.excluded_name@,
    ensures
        member_calls(m, p) == seq![Call::AddMember { who: m.account_id }] + Seq::new(
            if m.rank < p.promotion_limit { m.rank as nat } else { p.promotion_limit as nat },
            |i: int| Call::PromoteMember { who: m.account_id },
        ),
{
    lemma_promotions(m.account_id, m.rank as nat, p.promotion_limit as nat);
}

/// The calls of two rosters read one after the other are the calls of the
/// first followed by those of the second.
pub proof fn lemma_roster_calls_append(a: Seq<Member>, b: Seq<Member>, p: Policy)
    ensures
        roster_calls(a + b, p) == roster_calls(a, p) + roster_calls(b, p),
    decreases b.len(),
{
    if b.len() == 0 {
        assert(a + b =~= a);
        assert(roster_calls(a, p) + roster_calls(b, p) =~= roster_calls(a, p));
    } else {
        let ab = a + b;
        let b0 = b.subrange(0, b.len() - 1);
        assert(ab.subrange(0, ab.len() - 1) =~= a + b0);
        assert(ab[ab.len() - 1] == b[b.len() - 1]);
        lemma_roster_calls_append(a, b0, p);
        assert(roster_calls(ab, p) =~= roster_calls(a, p) + roster_calls(b, p));
    }
}

/// A member under the excluded name contributes no call, whatever its rank:
/// the roster's calls are those of the roster without that member.
pub proof fn lemma_excluded_member_emits_nothing(ms: Seq<Member>, p: Policy, i: int)
    requires
        0 <= i < ms.len(),
        ms[i].name@ == p.excluded_name@,
    ensures
        member_calls(ms[i], p).len() == 0,
        roster_calls(ms, p) == roster_calls(ms.remove(i), p),
{
    let pre = ms.subrange(0, i);
    let post = ms.subrange(i + 1, ms.len() as int);
    assert(ms =~= pre + seq![ms[i]] + post);
    assert(ms.remove(i) =~= pre + post);
    lemma_roster_calls_append(pre + seq![ms[i]], post, p);
    lemma_roster_calls_append(pre, seq![ms[i]], p);
    lemma_roster_calls_append(pre, post, p);
    let one = seq![ms[i]];
    assert(one.subrange(0, 0) =~= Seq::<Member>::empty());
    assert(one[0] == ms[i]);
    assert(roster_calls(one.subrange(0, 0), p) =~= Seq::<Call>::empty());
    assert(roster_calls(one, p) =~= Seq::<Call>::empty());
    assert(roster_calls(pre, p) + Seq::<Call>::empty() =~= roster_calls(pre, p));
}

proof fn lemma_roster_calls_push(ms: Seq<Member>, p: Policy, i: int)
    requires
        0 <= i < ms.len(),
    ensures
        roster_calls(ms.subrange(0, i + 1), p) == roster_calls(ms.subrange(0, i), p) + member_calls(ms[i], p),
{
    let t = ms.subrange(0, i + 1);
    assert(t.subrange(0, t.len() - 1) =~= ms.subrange(0, i));
    assert(t[t.len() - 1] == ms[i]);
}

proof fn lemma_roster_calls_shape(ms: Seq<Member>, p: Policy)
    ensures
        roster_calls(ms, p).len() <= 256 * ms.len(),
        forall|j: int| 0 <= j < roster_calls(ms, p).len() ==> is_member_call(#[trigger] roster_calls(ms, p)[j]),
    decreases ms.len(),
{
    if ms.len() > 0 {
        let init = ms.subrange(0, ms.len() - 1);
        let m = ms[ms.len() - 1];
        lemma_roster_calls_shape(init, p);
        lemma_promotions(m.account_id, m.rank as nat, p.promotion_limit as nat);
        let a = roster_calls(init, p);
        let b = member_calls(m, p);
        assert forall|j: int| 0 <= j < roster_calls(ms, p).len() implies is_member_call(
            #[trigger] roster_calls(ms, p)[j],
        ) by {
            if j >= a.len() {
                assert(roster_calls(ms, p)[j] == b[j - a.len()]);
            } else {
                assert(roster_calls(ms, p)[j] == a[j]);
            }
        }
    }
}

proof fn lemma_member_calls_size(s: Seq<Call>)
    requires
        forall|j: int| 0 <= j < s.len() ==> is_member_call(#[trigger] s[j]),
    ensures
        well_formed_all(s),
        calls_size(s) == 35 * s.len(),
    decreases s.len(),
{
    if s.len() > 0 {
        let t = s.subrange(0, s.len() - 1);
        assert forall|j: int| 0 <= j < t.len() implies is_member_call(#[trigger] t[j]) by {
            assert(t[j] == s[j]);
        }
        lemma_member_calls_size(t);
        lemma_member_call(s[s.len() - 1]);
    }
}

proof fn lemma_member_call(c: Call)
    requires
        is_member_call(c),
    ensures
        well_formed(c),
        call_size(c) == 35,
{
    match c {
        Call::AddMember { .. } => {},
        Call::PromoteMember { .. } => {},
        _ => {},
    }
}

impl Policy {
    /// The fellowship's policy: skip the already enrolled member, promote up
    /// to rank six, threshold two.
    pub fn fellowship() -> (r: Policy)
        ensures
            r.excluded_name@ == EXCLUDED_MEMBER@,
            r.promotion_limit == PROMOTION_LIMIT,
            r.threshold == THRESHOLD,
    {
        Policy {
            excluded_name: EXCLUDED_MEMBER.to_owned(),
            promotion_limit: PROMOTION_LIMIT,
            threshold: THRESHOLD,
        }
    }
}

/// The calls for `members` under `policy`, in roster order.
pub fn build_calls(members: &Vec<Member>, policy: &Policy) -> (r: Vec<Call>)
    ensures
        r@ == roster_calls(members@, *policy),
{
    let mut calls: Vec<Call> = Vec::new();
    let mut i: usize = 0;
    proof {
        assert(members@.subrange(0, 0) =~= Seq::<Member>::empty());
    }
    while i < members.len()
        invariant
            i <= members@.len(),
            calls@ == roster_calls(members@.subrange(0, i as int), *policy),
        decreases members@.len() - i,
    {
        let m = &members[i];
        let ghost before = calls@;
        proof {
            lemma_roster_calls_push(members@, *policy, i as int);
        }
        if m.name == policy.excluded_name {
            assert(calls@ =~= before + member_calls(*m, *policy));
        } else {
            calls.push(Call::AddMember { who: m.account_id });
            let mut level: u8 = 0;
            while level < m.rank
                invariant
                    level <= m.rank,
                    calls@ == before + seq![Call::AddMember { who: m.account_id }] + promotions(
                        m.account_id,
                        level as nat,
                        policy.promotion_limit as nat,
                    ),
                decreases m.rank - level,
            {
                if level < policy.promotion_limit {
                    calls.push(Call::PromoteMember { who: m.account_id });
                }
                level = level + 1;
            }
            assert(calls@ =~= before + member_calls(*m, *policy));
        }
        i = i + 1;
    }
    assert(members@.subrange(0, members@.len() as int) =~= members@);
    calls
}

/// The proposal for `members` under `policy`: the roster's calls in one
/// batch, the digest of the batch's encoding, and a `Propose` of that batch
/// whose `length_bound` is the batch's encoded size.
pub fn build_proposal(members: &Vec<Member>, policy: &Policy) -> (r: Proposal)
    requires
        members@.len() <= MAX_ROSTER,
    ensures
        is_proposal_for(r, members@, *policy),
        well_formed(r.call),
{
    let calls = build_calls(members, policy);
    proof {
        lemma_roster_calls_shape(members@, *policy);
        lemma_member_calls_size(calls@);
    }
    let batch = Call::Batch { calls };
    assert(well_formed(batch));
    assert(call_size(batch) <= u32::MAX);
    let bytes = encode(&batch);
    let proposal_hash = blake2_256(&bytes);
    let length_bound = encoded_size(&batch) as u32;
    Proposal {
        call: Call::Propose { threshold: policy.threshold, proposal: Box::new(batch), length_bound },
        proposal_hash,
    }
}

} // verus!
