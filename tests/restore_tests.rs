use voting::{Ballot, CallerContext, Candidate, CandidateStats, PairTime, Voting, VotingError};

fn stats(id: &str, name: &str, total: i32) -> CandidateStats {
    CandidateStats {
        candidate_id: id.to_string(),
        name: name.to_string(),
        total_vote: total,
    }
}

fn ballot(voter: &str, id: &str) -> Ballot {
    Ballot {
        voter_id: voter.to_string(),
        candidate_id: id.to_string(),
    }
}

fn sample_store() -> Voting {
    let mut store = Voting::new(Some("admin".to_string()));
    store
        .add_candidate(Candidate { candidate_id: "0".to_string(), name: "Trump".to_string() })
        .unwrap();
    store
        .add_candidate(Candidate { candidate_id: "1".to_string(), name: "Biden".to_string() })
        .unwrap();
    let bob = CallerContext { signer_account_id: "bob".to_string(), block_timestamp: 1638040621000000000 };
    store.vote(&bob, "1".to_string()).unwrap();
    let admin = CallerContext { signer_account_id: "admin".to_string(), block_timestamp: 0 };
    store.vote_fake(&admin, "0".to_string(), 1637971200000).unwrap();
    store
}

fn restore_parts(store: &Voting) -> Result<Voting, VotingError> {
    let series = store.get_chart().into_iter().map(|c| c.data).collect();
    Voting::restore(store.view_candidates(), series, store.ballots(), store.privileged_account())
}

#[test]
fn exported_state_restores_to_the_same_store() {
    let store = sample_store();
    let restored = restore_parts(&store).unwrap();
    assert_eq!(restored.view_candidates(), store.view_candidates());
    assert_eq!(restored.get_chart(), store.get_chart());
    assert_eq!(restored.ballots(), vec![ballot("bob", "1")]);
    assert_eq!(restored.privileged_account(), Some("admin".to_string()));
    assert_eq!(
        restored.check_voted("bob".to_string()),
        Some(Candidate { candidate_id: "1".to_string(), name: "Biden".to_string() })
    );
}

#[test]
fn restored_store_keeps_enforcing_one_vote() {
    let store = sample_store();
    let mut restored = restore_parts(&store).unwrap();
    let bob = CallerContext { signer_account_id: "bob".to_string(), block_timestamp: 5 };
    assert_eq!(restored.vote(&bob, "0".to_string()), Err(VotingError::AlreadyVoted));
}

#[test]
fn restore_empty_parts() {
    let restored = Voting::restore(vec![], vec![], vec![], None).unwrap();
    assert!(restored.view_candidates().is_empty());
    assert!(restored.ballots().is_empty());
    assert_eq!(restored.privileged_account(), None);
}

#[test]
fn restore_rejects_mismatched_lengths() {
    let r = Voting::restore(vec![stats("0", "Trump", 0)], vec![], vec![], None);
    assert_eq!(r.err(), Some(VotingError::InternalInconsistency));
}

#[test]
fn restore_rejects_empty_fields_and_duplicates() {
    let empty_name = Voting::restore(vec![stats("0", "", 0)], vec![vec![]], vec![], None);
    assert_eq!(empty_name.err(), Some(VotingError::InternalInconsistency));
    let dup = Voting::restore(
        vec![stats("0", "Trump", 0), stats("0", "Biden", 0)],
        vec![vec![], vec![]],
        vec![],
        None,
    );
    assert_eq!(dup.err(), Some(VotingError::InternalInconsistency));
}

#[test]
fn restore_rejects_series_that_do_not_match_totals() {
    let wrong_sum = Voting::restore(
        vec![stats("0", "Trump", 3)],
        vec![vec![PairTime { x: 10, y: 1 }, PairTime { x: 20, y: 1 }]],
        vec![],
        None,
    );
    assert_eq!(wrong_sum.err(), Some(VotingError::InternalInconsistency));
    let unordered = Voting::restore(
        vec![stats("0", "Trump", 2)],
        vec![vec![PairTime { x: 20, y: 1 }, PairTime { x: 10, y: 1 }]],
        vec![],
        None,
    );
    assert_eq!(unordered.err(), Some(VotingError::InternalInconsistency));
    let zero_count = Voting::restore(
        vec![stats("0", "Trump", 0)],
        vec![vec![PairTime { x: 20, y: 0 }]],
        vec![],
        None,
    );
    assert_eq!(zero_count.err(), Some(VotingError::InternalInconsistency));
    let negative = Voting::restore(vec![stats("0", "Trump", -1)], vec![vec![]], vec![], None);
    assert_eq!(negative.err(), Some(VotingError::InternalInconsistency));
    let ok = Voting::restore(
        vec![stats("0", "Trump", 2)],
        vec![vec![PairTime { x: 10, y: 1 }, PairTime { x: 20, y: 1 }]],
        vec![],
        None,
    );
    assert!(ok.is_ok());
}

#[test]
fn restore_rejects_bad_ballots() {
    let twice = Voting::restore(
        vec![stats("0", "Trump", 0)],
        vec![vec![]],
        vec![ballot("bob", "0"), ballot("bob", "0")],
        None,
    );
    assert_eq!(twice.err(), Some(VotingError::InternalInconsistency));
    let unknown = Voting::restore(vec![stats("0", "Trump", 0)], vec![vec![]], vec![ballot("bob", "7")], None);
    assert_eq!(unknown.err(), Some(VotingError::InternalInconsistency));
}
