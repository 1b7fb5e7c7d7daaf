use voting::{day_start_millis, CallerContext, Candidate, PairTime, Voting, VotingError};

fn bob_context() -> CallerContext {
    CallerContext {
        signer_account_id: "bob_near".to_string(),
        block_timestamp: 1638040621000000000,
    }
}

fn rubikone_context() -> CallerContext {
    CallerContext {
        signer_account_id: "rubikone.testnet".to_string(),
        block_timestamp: 1638040621000000,
    }
}

fn candidate(id: &str, name: &str) -> Candidate {
    Candidate {
        candidate_id: id.to_string(),
        name: name.to_string(),
    }
}

fn store_with_backfill_account() -> Voting {
    Voting::new(Some("rubikone.testnet".to_string()))
}

#[test]
fn should_add_candidate_success() {
    let mut contract = Voting::default();
    let ret = contract.add_candidate(candidate("0", "Trump"));
    assert_eq!(ret, Ok(true));
    let candidates = contract.view_single_candidate("0".to_string()).unwrap();
    assert_eq!(candidates.candidate_id, "0".to_string());
    assert_eq!(candidates.name, "Trump".to_string());
    assert_eq!(candidates.total_vote, 0);
}

#[test]
fn should_add_candidate_empty_name_fail() {
    let mut contract = Voting::default();
    let ret = contract.add_candidate(candidate("0", ""));
    assert_eq!(ret, Err(VotingError::InvalidArgument));
    assert_eq!(contract.view_candidates().len(), 0);
}

#[test]
fn should_add_candidate_empty_id_fail() {
    let mut contract = Voting::default();
    let ret = contract.add_candidate(candidate("", "abc"));
    assert_eq!(ret, Err(VotingError::InvalidArgument));
    assert_eq!(contract.view_candidates().len(), 0);
}

#[test]
fn should_add_candidate_exists_id_fail() {
    let mut contract = Voting::default();
    assert_eq!(contract.add_candidate(candidate("0", "Trump")), Ok(true));
    let ret = contract.add_candidate(candidate("0", "Biden"));
    assert_eq!(ret, Err(VotingError::DuplicateCandidate));
}

#[test]
fn test_view_candidates() {
    let mut contract = Voting::default();
    contract.add_candidate(candidate("0", "Trump")).unwrap();
    contract.add_candidate(candidate("1", "Biden")).unwrap();
    let ret = contract.view_candidates();
    assert_eq!(ret.len(), 2);
}

#[test]
fn should_vote_candidate_success() {
    let mut contract = Voting::default();
    contract.add_candidate(candidate("0", "Trump")).unwrap();
    let ret = contract.vote(&bob_context(), "0".to_string());
    assert_eq!(ret, Ok(true));
    let candidate = contract.view_single_candidate("0".to_string()).unwrap();
    assert_eq!(candidate.total_vote, 1);
}

#[test]
fn should_vote_candidate_already_fail() {
    let mut contract = Voting::default();
    contract.add_candidate(candidate("0", "Trump")).unwrap();
    let ret = contract.vote(&bob_context(), "0".to_string());
    assert_eq!(ret, Ok(true));
    let again = contract.vote(&bob_context(), "0".to_string());
    assert_eq!(again, Err(VotingError::AlreadyVoted));
}

#[test]
fn should_vote_candidate_not_exists_fail() {
    let mut contract = Voting::default();
    contract.add_candidate(candidate("0", "Trump")).unwrap();
    let ret = contract.vote(&bob_context(), "1".to_string());
    assert_eq!(ret, Err(VotingError::CandidateNotFound));
    assert!(contract.check_voted("bob_near".to_string()).is_none());
}

#[test]
fn should_check_voted_return_false() {
    let contract = Voting::default();
    let ret = contract.check_voted("bob_near".to_string());
    assert_eq!(ret.is_none(), true);
}

#[test]
fn should_check_voted_return_true() {
    let mut contract = Voting::default();
    contract.add_candidate(candidate("0", "Trump")).unwrap();
    contract.vote(&bob_context(), "0".to_string()).unwrap();
    let ret = contract.check_voted("bob_near".to_string());
    assert_eq!(ret.is_some(), true);
    let candidate = ret.unwrap();
    assert_eq!(candidate.candidate_id, "0".to_string());
    assert_eq!(candidate.name, "Trump".to_string());
}

#[test]
fn should_get_chart_return_vec_empty() {
    let contract = Voting::default();
    let ret = contract.get_chart();
    assert_eq!(ret.len(), 0);
}

#[test]
fn should_get_chart_return_vec_with_size_true() {
    let mut contract = Voting::default();
    contract.add_candidate(candidate("0", "Trump")).unwrap();
    let mut ret = contract.get_chart();
    assert_eq!(ret.len(), 1);
    contract.add_candidate(candidate("1", "John cena")).unwrap();
    ret = contract.get_chart();
    assert_eq!(ret.len(), 2);
}

#[test]
fn should_get_chart_return_with_vote_true() {
    let mut contract = Voting::default();
    contract.add_candidate(candidate("0", "Trump")).unwrap();
    let mut ret = contract.get_chart();
    assert_eq!(ret.len(), 1);
    assert_eq!(ret[0].data.len(), 0);
    assert_eq!(contract.vote(&bob_context(), "0".to_string()), Ok(true));
    ret = contract.get_chart();
    assert_eq!(ret.len(), 1);
    assert_eq!(ret[0].data.len(), 1);
    assert_eq!(ret[0].data[0].x, 1637971200000);
    assert_eq!(ret[0].data[0].y, 1);
}

#[test]
fn should_vote_fake_return_panic() {
    let mut contract = store_with_backfill_account();
    contract.add_candidate(candidate("0", "Trump")).unwrap();
    let ret = contract.vote_fake(&bob_context(), "0".to_string(), 1637971200000);
    assert_eq!(ret, Err(VotingError::Unauthorized));
    assert_eq!(contract.get_chart()[0].data.len(), 0);
}

#[test]
fn should_vote_fake_return_success() {
    let mut contract = store_with_backfill_account();
    contract.add_candidate(candidate("0", "Trump")).unwrap();
    contract.vote_fake(&rubikone_context(), "0".to_string(), 1637971200000).unwrap();
    contract.vote_fake(&rubikone_context(), "0".to_string(), 1637971200000).unwrap();
    let chart = contract.get_chart();
    assert_eq!(chart.len(), 1);
    assert_eq!(chart[0].data.len(), 1);
    assert_eq!(chart[0].data[0].x, 1637971200000);
    assert_eq!(chart[0].data[0].y, 2);

    contract.vote_fake(&rubikone_context(), "0".to_string(), 1638057600000).unwrap();
    let chart2 = contract.get_chart();
    assert_eq!(chart2.len(), 1);
    assert_eq!(chart2[0].data.len(), 2);
    assert_eq!(chart2[0].data[1].x, 1638057600000);
    assert_eq!(chart2[0].data[1].y, 1);
}
