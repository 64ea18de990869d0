use vstd::prelude::*;
use crate::solvers::SolverError;
use crate::legacy::maxsat_ddd::visits_separated;

verus! {

/// Whether visit `v1` of train `t1` and visit `v2` of train `t2` are
/// separated in time in the model of the difference-logic solver, given the
/// values `times` that the model gives the time variables of the visits:
/// the larger of the two gaps between one visit's end (the next visit's time)
/// and the other's start is not negative.
pub fn check_conflict(
    visits: ((usize, usize), (usize, usize)),
    times: &[Vec<i64>],
) -> (r: Result<bool, SolverError>)
    requires
        visits.0.0 < times@.len(),
        visits.0.1 + 1 < times@[visits.0.0 as int].len(),
        visits.1.0 < times@.len(),
        visits.1.1 + 1 < times@[visits.1.0 as int].len(),
        i64::MIN <= times@[visits.1.0 as int]@[visits.1.1 as int] - times@[visits.0.0 as int]@[visits.0.1 + 1] <= i64::MAX,
        i64::MIN <= times@[visits.0.0 as int]@[visits.0.1 as int] - times@[visits.1.0 as int]@[visits.1.1 + 1] <= i64::MAX,
    ensures
        r == Ok::<bool, SolverError>(
            visits_separated(
                times@[visits.0.0 as int]@[visits.0.1 as int] as int,
                times@[visits.0.0 as int]@[visits.0.1 + 1] as int,
                times@[visits.1.0 as int]@[visits.1.1 as int] as int,
                times@[visits.1.0 as int]@[visits.1.1 + 1] as int,
            ),
        ),
{
    let ((t1, v1), (t2, v2)) = visits;
    let t_t1v1 = times[t1][v1];
    let t_t1v1next = times[t1][v1 + 1];
    let t_t2v2 = times[t2][v2];
    let t_t2v2next = times[t2][v2 + 1];
    let gap_a: i64 = t_t2v2 - t_t1v1next;
    let gap_b: i64 = t_t1v1 - t_t2v2next;
    let separation: i64 = if gap_a >= gap_b { gap_a } else { gap_b };
    let has_separation = separation >= 0;
    if has_separation {
        Ok(true)
    } else {
        Ok(false)
    }
}

} // verus!
