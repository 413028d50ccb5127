//! The running report of a matchmaking session: how many matches were made and
//! how many of them were abnormal.

use vstd::prelude::*;

verus! {

/// Counts of the matches made, and of those with an abnormal team size or
/// wait.
#[derive(Debug, Clone, Copy)]
pub struct Report {
    match_count: usize,
    abnormal_team_size_count: usize,
    abnormal_wait_duration_count: usize,
}

impl Report {
    pub closed spec fn spec_match_count(&self) -> usize {
        self.match_count
    }

    pub closed spec fn spec_abnormal_team_size_count(&self) -> usize {
        self.abnormal_team_size_count
    }

    pub closed spec fn spec_abnormal_wait_duration_count(&self) -> usize {
        self.abnormal_wait_duration_count
    }

    /// Neither abnormal count exceeds the count of matches.
    pub closed spec fn wf(&self) -> bool {
        &&& self.abnormal_team_size_count <= self.match_count
        &&& self.abnormal_wait_duration_count <= self.match_count
    }

    pub fn new() -> (r: Self)
        ensures
            r.wf(),
            r.spec_match_count() == 0,
            r.spec_abnormal_team_size_count() == 0,
            r.spec_abnormal_wait_duration_count() == 0,
    {
        Report { match_count: 0, abnormal_team_size_count: 0, abnormal_wait_duration_count: 0 }
    }

    pub fn match_count(&self) -> (r: usize)
        ensures
            r == self.spec_match_count(),
    {
        self.match_count
    }

    pub fn abnormal_team_size_count(&self) -> (r: usize)
        ensures
            r == self.spec_abnormal_team_size_count(),
    {
        self.abnormal_team_size_count
    }

    pub fn abnormal_wait_duration_count(&self) -> (r: usize)
        ensures
            r == self.spec_abnormal_wait_duration_count(),
    {
        self.abnormal_wait_duration_count
    }

    /// Records a match of teams of `team_size` whose tanks waited `wait` on
    /// average: its team size is abnormal when it is not `normal_team_size`, and
    /// its wait when it exceeds `normal_wait`. Returns whether the match is
    /// abnormal in either way, and so worth showing.
    pub fn record(&mut self, team_size: usize, wait: u128, normal_team_size: usize, normal_wait: u128) -> (
        r: bool)
        requires
            old(self).wf(),
            old(self).spec_match_count() < usize::MAX,
        ensures
            final(self).wf(),
            final(self).spec_match_count() == old(self).spec_match_count() + 1,
            final(self).spec_abnormal_team_size_count() == old(self).spec_abnormal_team_size_count()
                + if team_size != normal_team_size {
                1int
            } else {
                0int
            },
            final(self).spec_abnormal_wait_duration_count()
                == old(self).spec_abnormal_wait_duration_count() + if wait > normal_wait {
                1int
            } else {
                0int
            },
            r == (team_size != normal_team_size || wait > normal_wait),
    {
        self.match_count = self.match_count + 1;
        let abnormal_team_size = team_size != normal_team_size;
        let abnormal_wait_duration = wait > normal_wait;
        if abnormal_team_size {
            self.abnormal_team_size_count = self.abnormal_team_size_count + 1;
        }
        if abnormal_wait_duration {
            self.abnormal_wait_duration_count = self.abnormal_wait_duration_count + 1;
        }
        abnormal_team_size || abnormal_wait_duration
    }
}

} // verus!
