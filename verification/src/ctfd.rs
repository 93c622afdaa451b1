//! Typed model of the scoring platform's data, and the shaping of fetched
//! data into the reconciliation engine's inputs.

use vstd::prelude::*;

use crate::solves::ReportedSolve;

verus! {

/// The upstream platform failed the cycle: it was unreachable, or its
/// response did not carry the promised data.
#[derive(Clone, Copy, PartialEq, Eq, Structural, Debug)]
pub enum UpstreamError {
    Unreachable,
    Malformed,
}

/// The platform's uniform response envelope.
#[derive(Debug)]
pub struct APIResponse<T> {
    pub success: bool,
    pub errors: Option<Vec<String>>,
    pub data: Option<T>,
}

impl<T> APIResponse<T> {
    /// The checked reading of the envelope: the payload is handed out exactly
    /// when the platform reported success and sent data; anything else
    /// surfaces as a malformed upstream response, never as an unchecked
    /// unwrap.
    pub fn into_data(self) -> (r: Result<T, UpstreamError>)
        ensures
            r is Ok <==> (self.success && self.data is Some),
            r matches Ok(d) ==> self.data == Some(d),
            r matches Err(e) ==> e == UpstreamError::Malformed,
    {
        if self.success {
            match self.data {
                Option::Some(d) => Result::Ok(d),
                Option::None => Result::Err(UpstreamError::Malformed),
            }
        } else {
            Result::Err(UpstreamError::Malformed)
        }
    }
}

/// A challenge as the platform reports it: a stable integer identifier and a
/// display name.
#[derive(PartialEq, Eq, Hash, Debug)]
pub struct Challenge {
    pub id: i64,
    pub name: String,
}

/// One solver of a challenge: a stable account identifier and a display name.
/// Identity is the identifier alone; the name may be cached empty.
#[derive(PartialEq, Eq, Hash, Debug)]
pub struct ChallengeSolver {
    pub account_id: i64,
    pub name: String,
}

/// A team as the platform reports it.
#[derive(Debug)]
pub struct Team {
    pub id: i64,
    pub name: String,
}

/// A user as the platform reports it.
#[derive(Debug)]
pub struct User {
    pub id: i64,
    pub name: String,
}

/// One scoreboard line: the entity holding a position.
#[derive(Debug)]
pub struct ScoreboardEntry {
    pub id: i64,
    pub name: String,
}

/// All solvers the platform reports for one challenge, in chronological
/// order, earliest first.
pub struct ChallengeSolves {
    pub challenge: Challenge,
    pub solvers: Vec<ChallengeSolver>,
}

/// The reported solves of one challenge, in solver order.
pub open spec fn challenge_reports(cs: ChallengeSolves) -> Seq<ReportedSolve> {
    Seq::new(
        cs.solvers@.len(),
        |i: int|
            ReportedSolve {
                challenge_id: cs.challenge.id,
                challenge_name: cs.challenge.name,
                solver_id: cs.solvers@[i].account_id,
                solver_name: cs.solvers@[i].name,
            },
    )
}

/// The reported solves of all challenges, challenge-major: every solver of
/// one challenge before the next challenge.
pub open spec fn all_reports(css: Seq<ChallengeSolves>) -> Seq<ReportedSolve>
    decreases css.len(),
{
    if css.len() == 0 {
        Seq::empty()
    } else {
        challenge_reports(css[0]) + all_reports(css.drop_first())
    }
}

/// Flatten fetched challenge and solver data into the order the solve
/// reconciler walks.
#[verifier::loop_isolation(false)]
pub fn flatten_reports(css: &Vec<ChallengeSolves>) -> (out: Vec<ReportedSolve>)
    ensures
        out@ == all_reports(css@),
{
    let ghost all = css@;
    let mut out: Vec<ReportedSolve> = Vec::new();
    let mut i: usize = 0;
    proof {
        assert(all.skip(0) =~= all);
        assert(Seq::<ReportedSolve>::empty() + all_reports(all) =~= all_reports(all));
    }
    while i < css.len()
        invariant
            i <= all.len(),
            all_reports(all) == out@ + all_reports(all.skip(i as int)),
        decreases all.len() - i,
    {
        let ghost sfx = all.skip(i as int);
        proof {
            assert(sfx[0] == all[i as int]);
            assert(sfx.drop_first() =~= all.skip(i as int + 1));
        }
        let ch = &css[i];
        let ghost out_start = out@;
        let ghost reports = challenge_reports(all[i as int]);
        let mut j: usize = 0;
        proof {
            assert(reports.take(0) =~= Seq::<ReportedSolve>::empty());
            assert(out_start + reports.take(0) =~= out_start);
        }
        while j < ch.solvers.len()
            invariant
                j <= ch.solvers@.len(),
                out@ == out_start + reports.take(j as int),
            decreases ch.solvers@.len() - j,
        {
            let sv = &ch.solvers[j];
            let rep = ReportedSolve {
                challenge_id: ch.challenge.id,
                challenge_name: ch.challenge.name.clone(),
                solver_id: sv.account_id,
                solver_name: sv.name.clone(),
            };
            proof {
                assert(rep == reports[j as int]);
                assert(reports.take(j as int + 1) =~= reports.take(j as int).push(
                    reports[j as int],
                ));
                assert(out_start + reports.take(j as int + 1) =~= (out_start + reports.take(
                    j as int,
                )).push(reports[j as int]));
            }
            out.push(rep);
            j = j + 1;
        }
        proof {
            assert(reports.take(reports.len() as int) =~= reports);
            assert((out_start + reports) + all_reports(all.skip(i as int + 1)) =~= out_start + (
            reports + all_reports(all.skip(i as int + 1))));
        }
        i = i + 1;
    }
    proof {
        assert(all.skip(all.len() as int) =~= Seq::<ChallengeSolves>::empty());
        assert(out@ + Seq::<ReportedSolve>::empty() =~= out@);
    }
    out
}

/// Invert fetched scoreboard lines of (position, entry) into the (entity
/// identifier, rank) rows a snapshot is built from, keeping fetch order.
pub fn scoreboard_rows(entries: &Vec<(i64, ScoreboardEntry)>) -> (rows: Vec<(i64, i64)>)
    ensures
        rows@.len() == entries@.len(),
        forall|i: int|
            0 <= i < rows@.len() ==> rows@[i] == (entries@[i].1.id, entries@[i].0),
{
    let mut rows: Vec<(i64, i64)> = Vec::new();
    let mut i: usize = 0;
    while i < entries.len()
        invariant
            i <= entries.len(),
            rows@.len() == i,
            forall|j: int| 0 <= j < i ==> rows@[j] == (entries@[j].1.id, entries@[j].0),
        decreases entries.len() - i,
    {
        rows.push((entries[i].1.id, entries[i].0));
        i = i + 1;
    }
    rows
}

} // verus!
