//! The tally store: registered candidates, running totals, per-day vote
//! series and the record of who has voted.

use vstd::prelude::*;
use crate::types::{Ballot, CallerContext, Candidate, CandidateChart, CandidateStats, PairTime, VotingError};
use crate::series::{check_series, count_vote_on, day_start_millis, is_series, one_more_on, series_total, spec_day_start};

verus! {

/// The mathematical state of a tally store.
pub struct VotingModel {
    /// `(candidate_id, name)` of every candidate, in registration order.
    pub candidates: Seq<(Seq<char>, Seq<char>)>,
    /// Vote total of each candidate, by registration position.
    pub totals: Seq<int>,
    /// Daily series of each candidate, by registration position.
    pub series: Seq<Seq<PairTime>>,
    /// For each voter who has voted, the id of the chosen candidate.
    pub ballots: Map<Seq<char>, Seq<char>>,
    /// The one account allowed to back-fill votes, if any.
    pub privileged: Option<Seq<char>>,
}

impl VotingModel {
    /// A store with no candidates and no ballots.
    pub open spec fn empty(privileged: Option<Seq<char>>) -> VotingModel {
        VotingModel {
            candidates: Seq::empty(),
            totals: Seq::empty(),
            series: Seq::empty(),
            ballots: Map::empty(),
            privileged,
        }
    }

    /// A candidate with the id `id` is registered.
    pub open spec fn has_candidate(self, id: Seq<char>) -> bool {
        exists|i: int| 0 <= i < self.candidates.len() && self.candidates[i].0 == id
    }

    /// Registration position of the candidate `id` (meaningful when it is registered).
    pub open spec fn position_of(self, id: Seq<char>) -> int {
        choose|i: int| 0 <= i < self.candidates.len() && self.candidates[i].0 == id
    }

    /// The invariants of the store.
    pub open spec fn consistent(self) -> bool {
        &&& self.totals.len() == self.candidates.len()
        &&& self.series.len() == self.candidates.len()
        &&& forall|i: int|
            0 <= i < self.candidates.len() ==> self.candidates[i].0.len() > 0
                && self.candidates[i].1.len() > 0
        &&& forall|i: int, j: int|
            0 <= i < j < self.candidates.len() ==> self.candidates[i].0 != self.candidates[j].0
        &&& forall|i: int|
            0 <= i < self.candidates.len() ==> is_series(#[trigger] self.series[i])
                && series_total(self.series[i]) == self.totals[i]
        &&& forall|v: Seq<char>|
            #[trigger] self.ballots.contains_key(v) ==> self.has_candidate(self.ballots[v])
    }

    /// A vote for `id` keeps its total within `i32`.
    pub open spec fn can_count(self, id: Seq<char>) -> bool {
        forall|i: int|
            0 <= i < self.candidates.len() && self.candidates[i].0 == id ==> self.totals[i] < i32::MAX
    }

    /// The outcome of registering `(id, name)`.
    pub open spec fn registration_result(self, id: Seq<char>, name: Seq<char>) -> Result<bool, VotingError> {
        if id.len() == 0 || name.len() == 0 {
            Err(VotingError::InvalidArgument)
        } else if self.has_candidate(id) {
            Err(VotingError::DuplicateCandidate)
        } else {
            Ok(true)
        }
    }

    /// The state after registering `(id, name)`: no votes, an empty series.
    pub open spec fn with_candidate(self, id: Seq<char>, name: Seq<char>) -> VotingModel {
        VotingModel {
            candidates: self.candidates.push((id, name)),
            totals: self.totals.push(0),
            series: self.series.push(Seq::empty()),
            ..self
        }
    }

    /// The outcome of `voter` voting for `id`.
    pub open spec fn vote_result(self, voter: Seq<char>, id: Seq<char>) -> Result<bool, VotingError> {
        if self.ballots.contains_key(voter) {
            Err(VotingError::AlreadyVoted)
        } else if !self.has_candidate(id) {
            Err(VotingError::CandidateNotFound)
        } else {
            Ok(true)
        }
    }

    /// The outcome of `signer` back-filling a vote for `id`.
    pub open spec fn backfill_result(self, signer: Seq<char>, id: Seq<char>) -> Result<bool, VotingError> {
        if self.privileged != Some(signer) {
            Err(VotingError::Unauthorized)
        } else if !self.has_candidate(id) {
            Err(VotingError::CandidateNotFound)
        } else {
            Ok(true)
        }
    }

    /// `after` is this state with one more vote for `id` counted on `day`;
    /// who has voted is left to the caller to state.
    pub open spec fn counted(self, after: VotingModel, id: Seq<char>, day: int) -> bool {
        let i = self.position_of(id);
        &&& after.candidates == self.candidates
        &&& after.privileged == self.privileged
        &&& after.totals == self.totals.update(i, self.totals[i] + 1)
        &&& after.series.len() == self.series.len()
        &&& forall|j: int| 0 <= j < self.series.len() && j != i ==> after.series[j] == self.series[j]
        &&& one_more_on(self.series[i], after.series[i], day)
    }
}

/// No two ballots are by the same voter.
pub open spec fn distinct_voters(s: Seq<Ballot>) -> bool {
    forall|i: int, j: int| 0 <= i < j < s.len() ==> s[i].voter_id@ != s[j].voter_id@
}

/// Voter to chosen candidate id, as recorded by a list of ballots.
pub open spec fn ballot_map(s: Seq<Ballot>) -> Map<Seq<char>, Seq<char>>
    decreases s.len(),
{
    if s.len() == 0 {
        Map::empty()
    } else {
        ballot_map(s.drop_last()).insert(s.last().voter_id@, s.last().candidate_id@)
    }
}

proof fn lemma_ballot_map(s: Seq<Ballot>)
    requires
        distinct_voters(s),
    ensures
        forall|v: Seq<char>|
            ballot_map(s).contains_key(v) <==> exists|j: int| 0 <= j < s.len() && s[j].voter_id@ == v,
        forall|j: int|
            0 <= j < s.len() ==> ballot_map(s)[#[trigger] s[j].voter_id@] == s[j].candidate_id@,
    decreases s.len(),
{
    if s.len() > 0 {
        let r = s.drop_last();
        lemma_ballot_map(r);
        assert forall|v: Seq<char>|
            ballot_map(s).contains_key(v) <==> exists|j: int| 0 <= j < s.len() && s[j].voter_id@ == v by {
            if ballot_map(r).contains_key(v) {
                let j = choose|j: int| 0 <= j < r.len() && r[j].voter_id@ == v;
                assert(s[j] == r[j]);
            }
            if exists|j: int| 0 <= j < s.len() && s[j].voter_id@ == v {
                let j = choose|j: int| 0 <= j < s.len() && s[j].voter_id@ == v;
                if j < r.len() {
                    assert(s[j] == r[j]);
                }
            }
        }
        assert forall|j: int| 0 <= j < s.len() implies ballot_map(s)[#[trigger] s[j].voter_id@]
            == s[j].candidate_id@ by {
            if j < r.len() {
                assert(s[j] == r[j]);
            }
        }
    }
}

/// The state described by stored parts: candidates with their totals, the
/// series of each candidate, the ballots and the privileged account.
pub open spec fn stored_model(
    candidates: Seq<CandidateStats>,
    series: Seq<Vec<PairTime>>,
    ballots: Seq<Ballot>,
    privileged: Option<Seq<char>>,
) -> VotingModel {
    VotingModel {
        candidates: candidates.map_values(|c: CandidateStats| (c.candidate_id@, c.name@)),
        totals: candidates.map_values(|c: CandidateStats| c.total_vote as int),
        series: series.map_values(|s: Vec<PairTime>| s@),
        ballots: ballot_map(ballots),
        privileged,
    }
}

/// Stored parts describe a store that keeps its invariants.
pub open spec fn stored_state_valid(
    candidates: Seq<CandidateStats>,
    series: Seq<Vec<PairTime>>,
    ballots: Seq<Ballot>,
    privileged: Option<Seq<char>>,
) -> bool {
    &&& candidates.len() == series.len()
    &&& stored_model(candidates, series, ballots, privileged).consistent()
    &&& distinct_voters(ballots)
}

/// Whether no two ballots are by the same voter.
fn check_distinct_voters(b: &Vec<Ballot>) -> (r: bool)
    ensures
        r == distinct_voters(b@),
{
    let mut j: usize = 0;
    while j < b.len()
        invariant
            0 <= j <= b.len(),
            forall|x: int, y: int| 0 <= x < y < j ==> b@[x].voter_id@ != b@[y].voter_id@,
        decreases b.len() - j,
    {
        let mut i: usize = 0;
        while i < j
            invariant
                0 <= i <= j < b.len(),
                forall|x: int| 0 <= x < i ==> b@[x].voter_id@ != b@[j as int].voter_id@,
            decreases j - i,
        {
            if b[i].voter_id == b[j].voter_id {
                return false;
            }
            i = i + 1;
        }
        j = j + 1;
    }
    true
}

/// Whether some candidate in `candidates` has the id `id`.
fn lists_candidate(candidates: &Vec<CandidateStats>, id: &String) -> (r: bool)
    ensures
        r == exists|i: int| 0 <= i < candidates.len() && candidates@[i].candidate_id@ == id@,
{
    let mut i: usize = 0;
    while i < candidates.len()
        invariant
            0 <= i <= candidates.len(),
            forall|x: int| 0 <= x < i ==> candidates@[x].candidate_id@ != id@,
        decreases candidates.len() - i,
    {
        if candidates[i].candidate_id == *id {
            return true;
        }
        i = i + 1;
    }
    false
}

/// The text of an optional account id.
pub open spec fn account_view(account: Option<String>) -> Option<Seq<char>> {
    match account {
        Some(a) => Some(a@),
        None => None,
    }
}

/// A single-election tally store.
pub struct Voting {
    candidates: Vec<Candidate>,
    totals: Vec<i32>,
    charts: Vec<Vec<PairTime>>,
    ballots: Vec<Ballot>,
    privileged_account: Option<String>,
}

impl View for Voting {
    type V = VotingModel;

    closed spec fn view(&self) -> VotingModel {
        VotingModel {
            candidates: self.candidates@.map_values(|c: Candidate| (c.candidate_id@, c.name@)),
            totals: self.totals@.map_values(|t: i32| t as int),
            series: self.charts@.map_values(|s: Vec<PairTime>| s@),
            ballots: ballot_map(self.ballots@),
            privileged: account_view(self.privileged_account),
        }
    }
}

fn copy_text(s: &String) -> (r: String)
    ensures
        r == *s,
{
    s.clone()
}

fn copy_series(s: &Vec<PairTime>) -> (r: Vec<PairTime>)
    ensures
        r@ == s@,
{
    let mut r: Vec<PairTime> = Vec::new();
    let mut i: usize = 0;
    while i < s.len()
        invariant
            0 <= i <= s.len(),
            r@ == s@.subrange(0, i as int),
        decreases s.len() - i,
    {
        r.push(s[i]);
        i = i + 1;
    }
    assert(s@.subrange(0, s.len() as int) =~= s@);
    r
}

impl Voting {
    /// The store's invariants hold.
    pub closed spec fn wf(&self) -> bool {
        &&& self@.consistent()
        &&& distinct_voters(self.ballots@)
    }

    /// An empty store in which `privileged_account`, if given, may back-fill votes.
    pub fn new(privileged_account: Option<String>) -> (r: Voting)
        ensures
            r.wf(),
            r@ == VotingModel::empty(
                account_view(privileged_account),
            ),
    {
        let r = Voting {
            candidates: Vec::new(),
            totals: Vec::new(),
            charts: Vec::new(),
            ballots: Vec::new(),
            privileged_account,
        };
        assert(r@.ballots =~= Map::<Seq<char>, Seq<char>>::empty());
        assert(r@.candidates =~= Seq::<(Seq<char>, Seq<char>)>::empty());
        assert(r@.totals =~= Seq::<int>::empty());
        assert(r@.series =~= Seq::<Seq<PairTime>>::empty());
        r
    }

    /// Rebuilds a store from stored parts, as the exporters `view_candidates`,
    /// `get_chart`, `ballots` and `privileged_account` give them. Refused with
    /// `InternalInconsistency` if the parts break the store's invariants.
    pub fn restore(
        candidates: Vec<CandidateStats>,
        series: Vec<Vec<PairTime>>,
        ballots: Vec<Ballot>,
        privileged_account: Option<String>,
    ) -> (r: Result<Voting, VotingError>)
        ensures
            r is Ok <==> stored_state_valid(
                candidates@,
                series@,
                ballots@,
                account_view(privileged_account),
            ),
            r matches Ok(v) ==> v.wf() && v@ == stored_model(
                candidates@,
                series@,
                ballots@,
                account_view(privileged_account),
            ),
            r matches Err(e) ==> e == VotingError::InternalInconsistency,
    {
        let ghost p = account_view(privileged_account);
        let ghost m = stored_model(candidates@, series@, ballots@, p);
        if candidates.len() != series.len() {
            return Err(VotingError::InternalInconsistency);
        }
        let mut i: usize = 0;
        while i < candidates.len()
            invariant
                m == stored_model(candidates@, series@, ballots@, p),
                candidates.len() == series.len(),
                0 <= i <= candidates.len(),
                forall|a: int| 0 <= a < i ==> m.candidates[a].0.len() > 0 && m.candidates[a].1.len() > 0,
                forall|a: int, b: int| 0 <= a < b < i ==> m.candidates[a].0 != m.candidates[b].0,
                forall|a: int|
                    0 <= a < i ==> is_series(#[trigger] m.series[a]) && series_total(m.series[a])
                        == m.totals[a],
            decreases candidates.len() - i,
        {
            let c = &candidates[i];
            if c.candidate_id.as_str().is_empty() || c.name.as_str().is_empty() {
                assert(m.candidates[i as int].0.len() == 0 || m.candidates[i as int].1.len() == 0);
                return Err(VotingError::InternalInconsistency);
            }
            let mut j: usize = 0;
            while j < i
                invariant
                    m == stored_model(candidates@, series@, ballots@, p),
                    0 <= j <= i < candidates.len(),
                    forall|b: int| 0 <= b < j ==> m.candidates[b].0 != m.candidates[i as int].0,
                decreases i - j,
            {
                if candidates[j].candidate_id == candidates[i].candidate_id {
                    assert(m.candidates[j as int].0 == m.candidates[i as int].0);
                    return Err(VotingError::InternalInconsistency);
                }
                j = j + 1;
            }
            if !check_series(&series[i], c.total_vote) {
                assert(!(is_series(m.series[i as int]) && series_total(m.series[i as int])
                    == m.totals[i as int]));
                return Err(VotingError::InternalInconsistency);
            }
            i = i + 1;
        }
        if !check_distinct_voters(&ballots) {
            return Err(VotingError::InternalInconsistency);
        }
        proof {
            lemma_ballot_map(ballots@);
        }
        let mut k: usize = 0;
        while k < ballots.len()
            invariant
                m == stored_model(candidates@, series@, ballots@, p),
                p == account_view(privileged_account),
                candidates.len() == series.len(),
                distinct_voters(ballots@),
                0 <= k <= ballots.len(),
                forall|a: int| 0 <= a < k ==> m.has_candidate(#[trigger] ballots@[a].candidate_id@),
            decreases ballots.len() - k,
        {
            if !lists_candidate(&candidates, &ballots[k].candidate_id) {
                proof {
                    let b = ballots@[k as int];
                    lemma_ballot_map(ballots@);
                    assert(m.ballots.contains_key(b.voter_id@));
                    assert(m.ballots[b.voter_id@] == b.candidate_id@);
                    assert(!m.has_candidate(b.candidate_id@));
                }
                return Err(VotingError::InternalInconsistency);
            }
            proof {
                let w = choose|x: int|
                    0 <= x < candidates.len() && candidates@[x].candidate_id@ == ballots@[k as int].candidate_id@;
                assert(m.candidates[w].0 == ballots@[k as int].candidate_id@);
            }
            k = k + 1;
        }
        let mut cands: Vec<Candidate> = Vec::new();
        let mut totals: Vec<i32> = Vec::new();
        let mut n: usize = 0;
        while n < candidates.len()
            invariant
                0 <= n <= candidates.len(),
                cands.len() == n,
                totals.len() == n,
                forall|a: int|
                    0 <= a < n ==> (#[trigger] cands@[a]).candidate_id@ == candidates@[a].candidate_id@
                        && cands@[a].name@ == candidates@[a].name@,
                forall|a: int| 0 <= a < n ==> #[trigger] totals@[a] == candidates@[a].total_vote,
            decreases candidates.len() - n,
        {
            let c = &candidates[n];
            cands.push(Candidate { candidate_id: copy_text(&c.candidate_id), name: copy_text(&c.name) });
            totals.push(c.total_vote);
            n = n + 1;
        }
        let v = Voting { candidates: cands, totals, charts: series, ballots, privileged_account };
        proof {
            assert(v@.candidates =~= m.candidates);
            assert(v@.totals =~= m.totals);
            assert(v@.series =~= m.series);
            assert(v@ == m);
            assert forall|x: Seq<char>| #[trigger] m.ballots.contains_key(x) implies m.has_candidate(
                m.ballots[x],
            ) by {
                let a = choose|a: int| 0 <= a < v.ballots@.len() && v.ballots@[a].voter_id@ == x;
                assert(m.has_candidate(v.ballots@[a].candidate_id@));
            }
        }
        Ok(v)
    }

    /// Every ballot cast, in the order cast.
    pub fn ballots(&self) -> (r: Vec<Ballot>)
        requires
            self.wf(),
        ensures
            distinct_voters(r@),
            ballot_map(r@) == self@.ballots,
    {
        let mut r: Vec<Ballot> = Vec::new();
        let mut i: usize = 0;
        while i < self.ballots.len()
            invariant
                0 <= i <= self.ballots.len(),
                r@ == self.ballots@.subrange(0, i as int),
            decreases self.ballots.len() - i,
        {
            let b = &self.ballots[i];
            r.push(Ballot { voter_id: copy_text(&b.voter_id), candidate_id: copy_text(&b.candidate_id) });
            i = i + 1;
        }
        assert(r@ =~= self.ballots@);
        r
    }

    /// The account allowed to back-fill votes, if any.
    pub fn privileged_account(&self) -> (r: Option<String>)
        ensures
            match r {
                Some(a) => self@.privileged == Some(a@),
                None => self@.privileged is None,
            },
    {
        match &self.privileged_account {
            Some(a) => Some(copy_text(a)),
            None => None,
        }
    }

    /// Position of the candidate `id`, if registered.
    fn find_candidate(&self, id: &String) -> (r: Option<usize>)
        requires
            self.wf(),
        ensures
            r is None <==> !self@.has_candidate(id@),
            r matches Some(i) ==> i < self@.candidates.len() && i == self@.position_of(id@)
                && self@.candidates[i as int].0 == id@,
    {
        let mut i: usize = 0;
        while i < self.candidates.len()
            invariant
                self.wf(),
                0 <= i <= self.candidates.len(),
                forall|j: int| 0 <= j < i ==> self@.candidates[j].0 != id@,
            decreases self.candidates.len() - i,
        {
            if self.candidates[i].candidate_id == *id {
                assert(self@.candidates[i as int].0 == id@);
                let ghost p = self@.position_of(id@);
                assert(self@.candidates[p].0 == id@);
                assert(p == i);
                return Some(i);
            }
            i = i + 1;
        }
        None
    }

    /// Position in the ballot list of the ballot of `voter`, if any.
    fn find_ballot(&self, voter: &String) -> (r: Option<usize>)
        requires
            self.wf(),
        ensures
            r is None <==> !self@.ballots.contains_key(voter@),
            r matches Some(j) ==> j < self.ballots.len() && self.ballots[j as int].voter_id@ == voter@
                && self@.ballots[voter@] == self.ballots[j as int].candidate_id@,
    {
        proof {
            lemma_ballot_map(self.ballots@);
        }
        let mut j: usize = 0;
        while j < self.ballots.len()
            invariant
                self.wf(),
                0 <= j <= self.ballots.len(),
                forall|k: int| 0 <= k < j ==> self.ballots[k].voter_id@ != voter@,
            decreases self.ballots.len() - j,
        {
            if self.ballots[j].voter_id == *voter {
                proof {
                    lemma_ballot_map(self.ballots@);
                }
                return Some(j);
            }
            j = j + 1;
        }
        proof {
            lemma_ballot_map(self.ballots@);
        }
        None
    }

    /// Counts one vote for the candidate at position `i` on `day`.
    fn count_vote(&mut self, i: usize, day: i64)
        requires
            old(self).wf(),
            i < old(self)@.candidates.len(),
            old(self)@.totals[i as int] < i32::MAX,
        ensures
            final(self).wf(),
            final(self).ballots == old(self).ballots,
            final(self)@.ballots == old(self)@.ballots,
            final(self)@.candidates == old(self)@.candidates,
            final(self)@.privileged == old(self)@.privileged,
            final(self)@.totals == old(self)@.totals.update(i as int, old(self)@.totals[i as int] + 1),
            final(self)@.series.len() == old(self)@.series.len(),
            forall|j: int|
                0 <= j < old(self)@.series.len() && j != i ==> final(self)@.series[j]
                    == old(self)@.series[j],
            one_more_on(old(self)@.series[i as int], final(self)@.series[i as int], day as int),
    {
        let ghost m0 = self@;
        assert(is_series(m0.series[i as int]));
        let t = self.totals[i];
        self.totals.set(i, t + 1);
        count_vote_on(&mut self.charts[i], day);
        let ghost m1 = self@;
        assert(m1.totals =~= m0.totals.update(i as int, m0.totals[i as int] + 1));
        assert(m1.candidates =~= m0.candidates);
        assert forall|j: int| 0 <= j < m1.candidates.len() implies is_series(#[trigger] m1.series[j])
            && series_total(m1.series[j]) == m1.totals[j] by {
            if j != i {
                assert(m1.series[j] == m0.series[j]);
            }
        }
        assert forall|v: Seq<char>| #[trigger] m1.ballots.contains_key(v) implies m1.has_candidate(
            m1.ballots[v],
        ) by {
            assert(m0.has_candidate(m0.ballots[v]));
            let k = choose|k: int| 0 <= k < m0.candidates.len() && m0.candidates[k].0 == m0.ballots[v];
            assert(m1.candidates[k].0 == m1.ballots[v]);
        }
    }

    /// Casts the caller's one vote for `candidate_id`, counted on the UTC day
    /// of the call. Refused with `AlreadyVoted` if the caller has voted, else
    /// with `CandidateNotFound` if no such candidate is registered. Totals are
    /// `i32`: a candidate whose total is at `i32::MAX` cannot be voted for.
    pub fn vote(&mut self, context: &CallerContext, candidate_id: String) -> (r: Result<bool, VotingError>)
        requires
            old(self).wf(),
            old(self)@.can_count(candidate_id@),
        ensures
            final(self).wf(),
            r == old(self)@.vote_result(context.signer_account_id@, candidate_id@),
            r is Ok ==> old(self)@.counted(
                final(self)@,
                candidate_id@,
                spec_day_start(context.block_timestamp as nat),
            ) && final(self)@.ballots == old(self)@.ballots.insert(
                context.signer_account_id@,
                candidate_id@,
            ),
            r is Err ==> final(self)@ == old(self)@,
    {
        if self.find_ballot(&context.signer_account_id).is_some() {
            return Err(VotingError::AlreadyVoted);
        }
        let i = match self.find_candidate(&candidate_id) {
            Some(i) => i,
            None => {
                return Err(VotingError::CandidateNotFound);
            },
        };
        let day = day_start_millis(context.block_timestamp);
        self.count_vote(i, day);
        let ghost m1 = self@;
        let ghost b0 = self.ballots@;
        proof {
            lemma_ballot_map(b0);
        }
        let b = Ballot { voter_id: copy_text(&context.signer_account_id), candidate_id };
        self.ballots.push(b);
        proof {
            assert(self.ballots@.drop_last() =~= b0);
            assert(self@.candidates == m1.candidates);
            assert forall|v: Seq<char>| #[trigger] self@.ballots.contains_key(v) implies self@.has_candidate(
                self@.ballots[v],
            ) by {
                if v != b.voter_id@ {
                    assert(m1.ballots.contains_key(v));
                    assert(m1.has_candidate(m1.ballots[v]));
                }
            }
            assert forall|a: int, c: int| 0 <= a < c < self.ballots.len() implies self.ballots[a].voter_id@
                != self.ballots[c].voter_id@ by {
                if c == self.ballots.len() - 1 {
                    assert(self.ballots[a] == b0[a]);
                    assert(b0[a].voter_id@ != context.signer_account_id@);
                }
            }
        }
        Ok(true)
    }

    /// Back-fills one vote for `candidate_id` on the bucket `timestamp`, taken
    /// as given. Only the privileged account may call it; it records no
    /// ballot, so it may be repeated. Refused with `Unauthorized` for any
    /// other caller, else with `CandidateNotFound` if no such candidate is
    /// registered.
    pub fn vote_fake(&mut self, context: &CallerContext, candidate_id: String, timestamp: i64) -> (r:
        Result<bool, VotingError>)
        requires
            old(self).wf(),
            old(self)@.can_count(candidate_id@),
        ensures
            final(self).wf(),
            r == old(self)@.backfill_result(context.signer_account_id@, candidate_id@),
            r is Ok ==> old(self)@.counted(final(self)@, candidate_id@, timestamp as int)
                && final(self)@.ballots == old(self)@.ballots,
            r is Err ==> final(self)@ == old(self)@,
    {
        let authorized = match &self.privileged_account {
            Some(a) => *a == context.signer_account_id,
            None => false,
        };
        if !authorized {
            return Err(VotingError::Unauthorized);
        }
        let i = match self.find_candidate(&candidate_id) {
            Some(i) => i,
            None => {
                return Err(VotingError::CandidateNotFound);
            },
        };
        self.count_vote(i, timestamp);
        Ok(true)
    }

    /// Every candidate, in registration order, with its daily series in day order.
    pub fn get_chart(&self) -> (r: Vec<CandidateChart>)
        requires
            self.wf(),
        ensures
            r.len() == self@.candidates.len(),
            forall|i: int|
                0 <= i < r.len() ==> (#[trigger] r[i]).candidate_id@ == self@.candidates[i].0
                    && r[i].name@ == self@.candidates[i].1 && r[i].data@ == self@.series[i],
    {
        let mut out: Vec<CandidateChart> = Vec::new();
        let mut i: usize = 0;
        while i < self.candidates.len()
            invariant
                self.wf(),
                0 <= i <= self.candidates.len(),
                out.len() == i,
                forall|k: int|
                    0 <= k < i ==> (#[trigger] out[k]).candidate_id@ == self@.candidates[k].0
                        && out[k].name@ == self@.candidates[k].1 && out[k].data@ == self@.series[k],
            decreases self.candidates.len() - i,
        {
            let c = &self.candidates[i];
            let chart = CandidateChart {
                candidate_id: copy_text(&c.candidate_id),
                name: copy_text(&c.name),
                data: copy_series(&self.charts[i]),
            };
            out.push(chart);
            i = i + 1;
        }
        out
    }

    /// The candidate `candidate_id` with its vote total; `CandidateNotFound`
    /// if no such candidate is registered.
    pub fn view_single_candidate(&self, candidate_id: String) -> (r: Result<CandidateStats, VotingError>)
        requires
            self.wf(),
        ensures
            r is Ok <==> self@.has_candidate(candidate_id@),
            r matches Ok(s) ==> {
                let i = self@.position_of(candidate_id@);
                &&& s.candidate_id@ == candidate_id@
                &&& s.name@ == self@.candidates[i].1
                &&& s.total_vote as int == self@.totals[i]
            },
            r matches Err(e) ==> e == VotingError::CandidateNotFound,
    {
        match self.find_candidate(&candidate_id) {
            Some(i) => {
                let c = &self.candidates[i];
                Ok(
                    CandidateStats {
                        candidate_id: copy_text(&c.candidate_id),
                        name: copy_text(&c.name),
                        total_vote: self.totals[i],
                    },
                )
            },
            None => Err(VotingError::CandidateNotFound),
        }
    }

    /// Registers a candidate with no votes and an empty series. Refused with
    /// `InvalidArgument` if its id or name is empty, else with
    /// `DuplicateCandidate` if its id is already registered.
    pub fn add_candidate(&mut self, candidate: Candidate) -> (r: Result<bool, VotingError>)
        requires
            old(self).wf(),
        ensures
            final(self).wf(),
            r == old(self)@.registration_result(candidate.candidate_id@, candidate.name@),
            r is Ok ==> final(self)@ == old(self)@.with_candidate(candidate.candidate_id@, candidate.name@),
            r is Err ==> final(self)@ == old(self)@,
    {
        if candidate.candidate_id.as_str().is_empty() || candidate.name.as_str().is_empty() {
            return Err(VotingError::InvalidArgument);
        }
        if self.find_candidate(&candidate.candidate_id).is_some() {
            return Err(VotingError::DuplicateCandidate);
        }
        let ghost m0 = self@;
        let ghost c = candidate;
        self.candidates.push(candidate);
        self.totals.push(0);
        self.charts.push(Vec::new());
        proof {
            let m1 = self@;
            let m = m0.with_candidate(c.candidate_id@, c.name@);
            assert(m1.candidates =~= m.candidates);
            assert(m1.totals =~= m.totals);
            assert(m1.series =~= m.series);
            assert forall|v: Seq<char>| #[trigger] m1.ballots.contains_key(v) implies m1.has_candidate(
                m1.ballots[v],
            ) by {
                assert(m0.has_candidate(m0.ballots[v]));
                let k = choose|k: int| 0 <= k < m0.candidates.len() && m0.candidates[k].0 == m0.ballots[v];
                assert(m1.candidates[k].0 == m1.ballots[v]);
            }
        }
        Ok(true)
    }

    /// Every candidate, in registration order, with its vote total. The
    /// store keeps one total per candidate, so none is ever missing.
    pub fn view_candidates(&self) -> (r: Vec<CandidateStats>)
        requires
            self.wf(),
        ensures
            r.len() == self@.candidates.len(),
            forall|i: int|
                0 <= i < r.len() ==> (#[trigger] r[i]).candidate_id@ == self@.candidates[i].0
                    && r[i].name@ == self@.candidates[i].1 && r[i].total_vote as int == self@.totals[i],
    {
        let mut out: Vec<CandidateStats> = Vec::new();
        let mut i: usize = 0;
        while i < self.candidates.len()
            invariant
                self.wf(),
                0 <= i <= self.candidates.len(),
                out.len() == i,
                forall|k: int|
                    0 <= k < i ==> (#[trigger] out[k]).candidate_id@ == self@.candidates[k].0
                        && out[k].name@ == self@.candidates[k].1 && out[k].total_vote as int
                        == self@.totals[k],
            decreases self.candidates.len() - i,
        {
            let c = &self.candidates[i];
            out.push(
                CandidateStats {
                    candidate_id: copy_text(&c.candidate_id),
                    name: copy_text(&c.name),
                    total_vote: self.totals[i],
                },
            );
            i = i + 1;
        }
        out
    }

    /// The candidate that `account_id` voted for, or `None` if it has not voted.
    pub fn check_voted(&self, account_id: String) -> (r: Option<Candidate>)
        requires
            self.wf(),
        ensures
            r is Some <==> self@.ballots.contains_key(account_id@),
            r matches Some(c) ==> {
                &&& c.candidate_id@ == self@.ballots[account_id@]
                &&& c.name@ == self@.candidates[self@.position_of(c.candidate_id@)].1
            },
    {
        match self.find_ballot(&account_id) {
            Some(j) => match self.find_candidate(&self.ballots[j].candidate_id) {
                Some(i) => {
                    let c = &self.candidates[i];
                    Some(Candidate { candidate_id: copy_text(&c.candidate_id), name: copy_text(&c.name) })
                },
                None => None,
            },
            None => None,
        }
    }
}

/// In every well-formed store the counts of each candidate's daily series
/// add up to its vote total.
pub proof fn lemma_chart_matches_totals(v: &Voting)
    requires
        v.wf(),
    ensures
        v@.consistent(),
        forall|i: int|
            0 <= i < v@.candidates.len() ==> series_total(#[trigger] v@.series[i]) == v@.totals[i],
{
}

/// Once a candidate id is registered, registering it again, under any
/// name, is refused with `DuplicateCandidate`.
pub proof fn lemma_duplicate_registration(m: VotingModel, id: Seq<char>, name: Seq<char>, other_name: Seq<char>)
    requires
        m.registration_result(id, name) == Ok::<bool, VotingError>(true),
        other_name.len() > 0,
    ensures
        m.with_candidate(id, name).registration_result(id, other_name) == Err::<bool, VotingError>(
            VotingError::DuplicateCandidate,
        ),
{
    let m1 = m.with_candidate(id, name);
    assert(m1.candidates[m.candidates.len() as int].0 == id);
}

/// After a voter's vote is counted, every further vote by that voter, for
/// any candidate, is refused with `AlreadyVoted`.
pub proof fn lemma_second_vote_refused(
    m: VotingModel,
    after: VotingModel,
    voter: Seq<char>,
    id: Seq<char>,
    day: int,
    other_id: Seq<char>,
)
    requires
        m.vote_result(voter, id) == Ok::<bool, VotingError>(true),
        m.counted(after, id, day),
        after.ballots == m.ballots.insert(voter, id),
    ensures
        after.vote_result(voter, other_id) == Err::<bool, VotingError>(VotingError::AlreadyVoted),
{
}

/// A back-fill by the privileged account leaves the ballots alone and can
/// be repeated: once it succeeds for a candidate, it succeeds again.
pub proof fn lemma_backfill_repeatable(
    m: VotingModel,
    after: VotingModel,
    signer: Seq<char>,
    id: Seq<char>,
    day: int,
)
    requires
        m.backfill_result(signer, id) == Ok::<bool, VotingError>(true),
        m.counted(after, id, day),
        after.ballots == m.ballots,
    ensures
        after.backfill_result(signer, id) == Ok::<bool, VotingError>(true),
{
    let i = choose|i: int| 0 <= i < m.candidates.len() && m.candidates[i].0 == id;
    assert(after.candidates[i].0 == id);
}

/// What the exporters give of a store (`view_candidates`, the series of
/// `get_chart`, `ballots`, `privileged_account`) restores that same store.
pub proof fn lemma_export_restores(
    v: &Voting,
    candidates: Seq<CandidateStats>,
    series: Seq<Vec<PairTime>>,
    ballots: Seq<Ballot>,
)
    requires
        v.wf(),
        candidates.len() == v@.candidates.len(),
        series.len() == v@.candidates.len(),
        forall|i: int|
            0 <= i < candidates.len() ==> (#[trigger] candidates[i]).candidate_id@ == v@.candidates[i].0
                && candidates[i].name@ == v@.candidates[i].1 && candidates[i].total_vote as int
                == v@.totals[i],
        forall|i: int| 0 <= i < series.len() ==> (#[trigger] series[i])@ == v@.series[i],
        distinct_voters(ballots),
        ballot_map(ballots) == v@.ballots,
    ensures
        stored_state_valid(candidates, series, ballots, v@.privileged),
        stored_model(candidates, series, ballots, v@.privileged) == v@,
{
    let m = stored_model(candidates, series, ballots, v@.privileged);
    assert(m.candidates =~= v@.candidates);
    assert(m.totals =~= v@.totals);
    assert(m.series =~= v@.series);
}

impl Default for Voting {
    /// An empty store with no privileged account.
    fn default() -> (r: Voting)
        ensures
            r.wf(),
            r@ == VotingModel::empty(None),
    {
        Voting::new(None)
    }
}

} // verus!
