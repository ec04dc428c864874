//! Checks on the roster rows before the proposal is built.
use vstd::prelude::*;

use crate::builder::Member;

verus! {

/// The number of members the roster is known to hold.
pub const ROSTER_SIZE: usize = 45;

/// Why a roster was rejected.
#[derive(Debug, Clone, PartialEq, Eq)]
pub enum RosterError {
    /// The account column is not an SS58 account identifier.
    MalformedAccountId,
    /// The rank column is not an unsigned integer that fits in a `u8`.
    MalformedRank,
    /// The roster holds `found` members instead of the expected count.
    WrongCount { found: usize },
}

pub open spec fn is_digit(c: char) -> bool {
    '0' <= c <= '9'
}

pub open spec fn all_digits(s: Seq<char>) -> bool {
    forall|i: int| 0 <= i < s.len() ==> is_digit(#[trigger] s[i])
}

/// The value of a string of decimal digits, most significant first.
pub open spec fn decimal_value(s: Seq<char>) -> nat
    decreases s.len(),
{
    if s.len() == 0 {
        0
    } else {
        decimal_value(s.subrange(0, s.len() - 1)) * 10 + (s[s.len() - 1] as nat - '0' as nat) as nat
    }
}

/// The digits of a rank: an optional leading `+`, then at least one digit.
pub open spec fn rank_digits(s: Seq<char>) -> Seq<char> {
    if s.len() > 0 && s[0] == '+' {
        s.subrange(1, s.len() as int)
    } else {
        s
    }
}

/// `s` reads as a rank: digits after an optional `+`, of value at most 255.
pub open spec fn is_rank_text(s: Seq<char>) -> bool {
    &&& rank_digits(s).len() > 0
    &&& all_digits(rank_digits(s))
    &&& decimal_value(rank_digits(s)) <= 255
}

proof fn lemma_decimal_push(s: Seq<char>, i: int)
    requires
        0 <= i < s.len(),
    ensures
        decimal_value(s.subrange(0, i + 1)) == decimal_value(s.subrange(0, i)) * 10 + (s[i] as nat
            - '0' as nat) as nat,
{
    let t = s.subrange(0, i + 1);
    assert(t.subrange(0, t.len() - 1) =~= s.subrange(0, i));
}

proof fn lemma_decimal_monotone(s: Seq<char>, i: int)
    requires
        0 <= i <= s.len(),
        all_digits(s),
    ensures
        decimal_value(s.subrange(0, i)) <= decimal_value(s),
    decreases s.len() - i,
{
    if i < s.len() {
        lemma_decimal_push(s, i);
        lemma_decimal_monotone(s, i + 1);
    } else {
        assert(s.subrange(0, i) =~= s);
    }
}

/// Reads the rank column of a roster row as `u8` does: an optional `+`, then
/// decimal digits whose value fits in a `u8`.
pub fn parse_rank(text: &str) -> (r: Result<u8, RosterError>)
    ensures
        is_rank_text(text@) <==> r is Ok,
        r is Ok ==> r->Ok_0 == decimal_value(rank_digits(text@)),
        !is_rank_text(text@) ==> r is Err && r->Err_0 is MalformedRank,
{
    let n = text.unicode_len();
    let mut start: usize = 0;
    if n > 0 && text.get_char(0) == '+' {
        start = 1;
    }
    let ghost digits = rank_digits(text@);
    assert(digits =~= text@.subrange(start as int, n as int));
    if start == n {
        return Err(RosterError::MalformedRank);
    }
    let mut value: u32 = 0;
    let mut i: usize = start;
    while i < n
        invariant
            start <= i <= n,
            n == text@.len(),
            digits == text@.subrange(start as int, n as int),
            digits == rank_digits(text@),
            all_digits(digits.subrange(0, i - start)),
            value == decimal_value(digits.subrange(0, i - start)),
            value <= 255,
        decreases n - i,
    {
        let c = text.get_char(i);
        if c < '0' || c > '9' {
            assert(digits[i - start] == c);
            assert(!is_digit(digits[i - start]));
            return Err(RosterError::MalformedRank);
        }
        proof {
            lemma_decimal_push(digits, i - start);
        }
        let d = (c as u32) - ('0' as u32);
        value = value * 10 + d;
        i = i + 1;
        assert(all_digits(digits.subrange(0, i - start))) by {
            assert forall|j: int| 0 <= j < i - start implies is_digit(
                #[trigger] digits.subrange(0, i - start)[j],
            ) by {
                if j < i - 1 - start {
                    assert(digits.subrange(0, i - start)[j] == digits.subrange(0, i - 1 - start)[j]);
                }
            }
        }
        if value > 255 {
            proof {
                assert(digits.subrange(0, digits.len() as int) =~= digits);
                if all_digits(digits) {
                    lemma_decimal_monotone(digits, i - start);
                }
            }
            return Err(RosterError::MalformedRank);
        }
    }
    assert(digits.subrange(0, digits.len() as int) =~= digits);
    Ok(value as u8)
}

/// Longest account text that is decoded. A 32-byte SS58 account is at most
/// 50 characters; the base58 decoder underflows and panics on long runs of
/// leading `1`s, which this bound rules out.
pub const MAX_ACCOUNT_TEXT: usize = 64;

/// The 32 account bytes of an SS58 text, or `None` where the text is not
/// one.
pub uninterp spec fn ss58_account_of(text: Seq<char>) -> Option<Seq<u8>>;

/// Relies on `FromStr` for subxt::utils::AccountId32: SS58 decoding, whose
/// result depends on the text alone. Texts longer than `MAX_ACCOUNT_TEXT`
/// are kept from it: base58 0.2's decoder panics on some of them.
#[verifier::external_body]
fn decode_account_id(text: &str) -> (r: Option<[u8; 32]>)
    requires
        text@.len() <= MAX_ACCOUNT_TEXT,
    ensures
        r is Some <==> ss58_account_of(text@) is Some,
        r is Some ==> ss58_account_of(text@) == Some(r->Some_0@),
{
    match <subxt::utils::AccountId32 as core::str::FromStr>::from_str(text) {
        Ok(a) => Some(a.0),
        Err(_) => None,
    }
}

/// Builds a member from the three columns of a roster row. The account is
/// read first: a malformed account is reported before a malformed rank. An
/// account text longer than `MAX_ACCOUNT_TEXT` is malformed.
pub fn parse_member(name: String, account_text: &str, rank_text: &str) -> (r: Result<Member, RosterError>)
    ensures
        account_text@.len() > MAX_ACCOUNT_TEXT ==> r == Err::<Member, RosterError>(
            RosterError::MalformedAccountId,
        ),
        account_text@.len() <= MAX_ACCOUNT_TEXT && ss58_account_of(account_text@) is None ==> r
            == Err::<Member, RosterError>(RosterError::MalformedAccountId),
        account_text@.len() <= MAX_ACCOUNT_TEXT && ss58_account_of(account_text@) is Some
            && !is_rank_text(rank_text@) ==> r == Err::<Member, RosterError>(
            RosterError::MalformedRank,
        ),
        account_text@.len() <= MAX_ACCOUNT_TEXT && ss58_account_of(account_text@) is Some
            && is_rank_text(rank_text@) ==> r is Ok,
        r is Ok ==> {
            &&& r->Ok_0.name@ == name@
            &&& ss58_account_of(account_text@) == Some(r->Ok_0.account_id@)
            &&& r->Ok_0.rank == decimal_value(rank_digits(rank_text@))
        },
{
    if account_text.unicode_len() > MAX_ACCOUNT_TEXT {
        return Err(RosterError::MalformedAccountId);
    }
    let account_id = match decode_account_id(account_text) {
        Some(a) => a,
        None => return Err(RosterError::MalformedAccountId),
    };
    match parse_rank(rank_text) {
        Ok(rank) => Ok(Member { name, account_id, rank }),
        Err(e) => Err(e),
    }
}

/// Accepts the roster only when it holds exactly `expected` members.
pub fn check_roster_size(members: Vec<Member>, expected: usize) -> (r: Result<Vec<Member>, RosterError>)
    ensures
        members@.len() == expected ==> r is Ok && r->Ok_0@ == members@,
        members@.len() != expected ==> r is Err && r->Err_0 == (RosterError::WrongCount {
            found: members.len(),
        }),
{
    if members.len() == expected {
        Ok(members)
    } else {
        let found = members.len();
        Err(RosterError::WrongCount { found })
    }
}

} // verus!
