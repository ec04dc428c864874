use fellowship_proposal::builder::Member;
use fellowship_proposal::roster::{check_roster_size, parse_member, parse_rank, RosterError, ROSTER_SIZE};

#[test]
fn rank_digits_parse() {
    assert_eq!(parse_rank("0"), Ok(0));
    assert_eq!(parse_rank("7"), Ok(7));
    assert_eq!(parse_rank("+5"), Ok(5));
    assert_eq!(parse_rank("255"), Ok(255));
    assert_eq!(parse_rank("007"), Ok(7));
}

#[test]
fn malformed_rank_is_rejected() {
    for text in ["", "+", "a", "12x", "256", "1000", "-1", " 1"] {
        assert_eq!(parse_rank(text), Err(RosterError::MalformedRank), "{}", text);
    }
}

#[test]
fn roster_size_must_match() {
    let row = Member { name: "A".to_string(), account_id: [0; 32], rank: 1 };
    let full: Vec<Member> = (0..ROSTER_SIZE).map(|_| row.clone()).collect();
    assert_eq!(check_roster_size(full.clone(), ROSTER_SIZE), Ok(full));
    let short: Vec<Member> = (0..44).map(|_| row.clone()).collect();
    assert_eq!(check_roster_size(short, ROSTER_SIZE), Err(RosterError::WrongCount { found: 44 }));
}

#[test]
fn row_with_ss58_account_and_rank_parses() {
    let m = parse_member("A".to_string(), "CaKWz5omakTK7ovp4m3koXrHyHb7NG3Nt7GENHbviByZpKp", "3").unwrap();
    assert_eq!(m, Member { name: "A".to_string(), account_id: [0; 32], rank: 3 });
    let m = parse_member("B".to_string(), "5CT5jwBEAhveEjgiSCQbkaKcKcUyF3VJ8qNXM9rXsuQyn3Kd", "8").unwrap();
    assert_eq!(m.account_id, [0x11; 32]);
    assert_eq!(m.rank, 8);
}

#[test]
fn row_with_bad_account_is_rejected() {
    for text in ["", "not-an-account", "CaKWz5omakTK7ovp4m3koXrHyHb7NG3Nt7GENHbviByZpKq", "CaKWz5omakTK7ovp"] {
        assert_eq!(parse_member("A".to_string(), text, "1"), Err(RosterError::MalformedAccountId), "{}", text);
    }
    assert_eq!(parse_member("A".to_string(), "bad", "x"), Err(RosterError::MalformedAccountId));
}

#[test]
fn row_with_bad_rank_is_rejected() {
    let r = parse_member("A".to_string(), "CaKWz5omakTK7ovp4m3koXrHyHb7NG3Nt7GENHbviByZpKp", "x");
    assert_eq!(r, Err(RosterError::MalformedRank));
}

#[test]
fn long_account_text_is_rejected_without_decoding() {
    let ones = "1".repeat(133);
    assert_eq!(parse_member("A".to_string(), &ones, "1"), Err(RosterError::MalformedAccountId));
    let zs = format!("11{}", "z".repeat(180));
    assert_eq!(parse_member("A".to_string(), &zs, "1"), Err(RosterError::MalformedAccountId));
    let padded = format!("{}{}", "1".repeat(20), "CaKWz5omakTK7ovp4m3koXrHyHb7NG3Nt7GENHbviByZpKp");
    assert_eq!(parse_member("A".to_string(), &padded, "1"), Err(RosterError::MalformedAccountId));
}
