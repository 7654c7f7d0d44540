use vote_program::registry::{VoteAccount, VoteError};

fn wallet(b: u8) -> [u8; 32] {
    [b; 32]
}

#[test]
fn initialize_yields_empty_registry() {
    let r = VoteAccount::initialize();
    assert_eq!(r.candidates.len(), 0);
    let again = VoteAccount::initialize();
    assert_eq!(again.candidates.len(), 0);
}

#[test]
fn add_candidate_appends_in_order() {
    let mut r = VoteAccount::initialize();
    r.add_candidate("alice".to_string(), wallet(1));
    r.add_candidate(String::new(), wallet(2));
    r.add_candidate("alice".to_string(), wallet(3));
    assert_eq!(r.candidates.len(), 3);
    assert_eq!(r.candidates[0].nickname, "alice");
    assert_eq!(r.candidates[0].wallet_address, wallet(1));
    assert_eq!(r.candidates[0].votes, 0);
    assert_eq!(r.candidates[1].nickname, "");
    assert_eq!(r.candidates[1].wallet_address, wallet(2));
    assert_eq!(r.candidates[1].votes, 0);
    assert_eq!(r.candidates[2].nickname, "alice");
    assert_eq!(r.candidates[2].wallet_address, wallet(3));
    assert_eq!(r.candidates[2].votes, 0);
}

#[test]
fn vote_touches_only_the_matching_candidate() {
    let mut r = VoteAccount::initialize();
    r.add_candidate("alice".to_string(), wallet(1));
    r.add_candidate("bob".to_string(), wallet(2));
    assert_eq!(r.vote(&"bob".to_string()), Ok(()));
    assert_eq!(r.candidates[0].nickname, "alice");
    assert_eq!(r.candidates[0].wallet_address, wallet(1));
    assert_eq!(r.candidates[0].votes, 0);
    assert_eq!(r.candidates[1].nickname, "bob");
    assert_eq!(r.candidates[1].wallet_address, wallet(2));
    assert_eq!(r.candidates[1].votes, 1);
}

#[test]
fn vote_for_unknown_nickname_fails_and_changes_nothing() {
    let mut r = VoteAccount::initialize();
    r.add_candidate("alice".to_string(), wallet(1));
    assert_eq!(r.vote(&"alicia".to_string()), Err(VoteError::NotFound));
    assert_eq!(r.candidates.len(), 1);
    assert_eq!(r.candidates[0].nickname, "alice");
    assert_eq!(r.candidates[0].wallet_address, wallet(1));
    assert_eq!(r.candidates[0].votes, 0);
}

#[test]
fn view_vote_counts_repeated_votes() {
    let mut r = VoteAccount::initialize();
    r.add_candidate("alice".to_string(), wallet(1));
    assert_eq!(r.view_vote(&"alice".to_string()), Ok(0));
    for _ in 0..5 {
        assert_eq!(r.vote(&"alice".to_string()), Ok(()));
    }
    assert_eq!(r.view_vote(&"alice".to_string()), Ok(5));
}

#[test]
fn scenario_two_candidates_three_votes() {
    let mut r = VoteAccount::initialize();
    r.add_candidate("alice".to_string(), wallet(1));
    r.add_candidate("bob".to_string(), wallet(2));
    assert_eq!(r.vote(&"alice".to_string()), Ok(()));
    assert_eq!(r.vote(&"alice".to_string()), Ok(()));
    assert_eq!(r.vote(&"bob".to_string()), Ok(()));
    assert_eq!(r.view_vote(&"alice".to_string()), Ok(2));
    assert_eq!(r.view_vote(&"bob".to_string()), Ok(1));
}

#[test]
fn scenario_view_vote_for_absent_carol_fails() {
    let mut r = VoteAccount::initialize();
    r.add_candidate("alice".to_string(), wallet(1));
    r.add_candidate("bob".to_string(), wallet(2));
    assert_eq!(r.view_vote(&"carol".to_string()), Err(VoteError::NotFound));
}

#[test]
fn scenario_duplicate_nicknames_vote_hits_first_added() {
    let mut r = VoteAccount::initialize();
    r.add_candidate("dup".to_string(), wallet(1));
    r.add_candidate("dup".to_string(), wallet(2));
    assert_eq!(r.vote(&"dup".to_string()), Ok(()));
    assert_eq!(r.candidates[0].votes, 1);
    assert_eq!(r.candidates[1].votes, 0);
    assert_eq!(r.view_vote(&"dup".to_string()), Ok(1));
}

#[test]
fn nickname_match_is_exact_and_case_sensitive() {
    let mut r = VoteAccount::initialize();
    r.add_candidate("Alice".to_string(), wallet(1));
    assert_eq!(r.vote(&"alice".to_string()), Err(VoteError::NotFound));
    assert_eq!(r.view_vote(&"alice".to_string()), Err(VoteError::NotFound));
    assert_eq!(r.vote(&"Alice".to_string()), Ok(()));
    assert_eq!(r.view_vote(&"Alice".to_string()), Ok(1));
}
