use vstd::prelude::*;

verus! {

/// Why the parameters of a run are refused.
#[derive(Clone, Copy, Debug, PartialEq, Eq, Structural)]
pub enum ParamsError {
    /// Fewer than two checkpoints per route: a route needs a start and an end.
    TooFewCheckpoints,
    /// No route at all.
    NoGoals,
}

/// Checks the parameters of a run before any map is made: every route needs
/// at least two checkpoints (its start and its end), and there must be at
/// least one route. The checkpoint count is checked first.
pub fn check_params(checkpoints: usize, goals: usize) -> (r: Result<(), ParamsError>)
    ensures
        checkpoints < 2 ==> r == Err::<(), ParamsError>(ParamsError::TooFewCheckpoints),
        checkpoints >= 2 && goals == 0 ==> r == Err::<(), ParamsError>(ParamsError::NoGoals),
        checkpoints >= 2 && goals >= 1 ==> r == Ok::<(), ParamsError>(()),
{
    if checkpoints < 2 {
        Err(ParamsError::TooFewCheckpoints)
    } else if goals == 0 {
        Err(ParamsError::NoGoals)
    } else {
        Ok(())
    }
}

} // verus!
