use vstd::prelude::*;

verus! {

/// The escape-time search from step `from`: the first step in
/// `from .. limit` at which the point's iteration has diverged, if any.
/// Which steps count as diverged is the point's own fixed history, handed
/// in as a predicate; the budget `limit` only cuts the search short.
pub open spec fn first_divergence_from(
    diverged: spec_fn(int) -> bool,
    from: int,
    limit: int,
) -> Option<int>
    decreases limit - from,
{
    if from >= limit {
        Option::None
    } else if diverged(from) {
        Option::Some(from)
    } else {
        first_divergence_from(diverged, from + 1, limit)
    }
}

/// The escape step reported under an iteration budget: the first step
/// below `limit` at which the point diverges, or nothing when it holds
/// out for the whole budget.
pub open spec fn first_divergence(diverged: spec_fn(int) -> bool, limit: int) -> Option<int> {
    first_divergence_from(diverged, 0, limit)
}

/// What the search finds is exactly the first divergence in its range.
proof fn lemma_first_divergence_from_characterizes(
    diverged: spec_fn(int) -> bool,
    from: int,
    limit: int,
)
    ensures
        match first_divergence_from(diverged, from, limit) {
            Option::Some(i) => {
                &&& from <= i < limit
                &&& diverged(i)
                &&& forall|j: int| from <= j < i ==> !#[trigger] diverged(j)
            },
            Option::None => forall|j: int| from <= j < limit ==> !#[trigger] diverged(j),
        },
    decreases limit - from,
{
    if from < limit && !diverged(from) {
        lemma_first_divergence_from_characterizes(diverged, from + 1, limit);
    }
}

/// A point that diverges at the step right after the seed — as every
/// point already outside the escape radius does, the seed itself being
/// zero and so never diverged — is reported at step one by any budget
/// that reaches that step.
pub proof fn lemma_far_point_escapes_first(diverged: spec_fn(int) -> bool, limit: int)
    requires
        !diverged(0),
        diverged(1),
        limit >= 2,
    ensures
        first_divergence(diverged, limit) == Option::Some(1int),
{
    lemma_first_divergence_from_characterizes(diverged, 0, limit);
}

/// Raising the iteration budget never rewrites history: an escape step
/// found under a lower budget is reported unchanged under any higher one,
/// and a point that held out under the lower budget can only be found to
/// escape at that budget or beyond.
pub proof fn lemma_escape_monotonic(diverged: spec_fn(int) -> bool, lo: int, hi: int)
    requires
        0 <= lo <= hi,
    ensures
        first_divergence(diverged, lo) matches Some(i) ==> first_divergence(diverged, hi)
            == Option::Some(i),
        first_divergence(diverged, lo) is None ==> match first_divergence(diverged, hi) {
            Option::Some(i) => lo <= i < hi,
            Option::None => true,
        },
{
    lemma_first_divergence_from_characterizes(diverged, 0, lo);
    lemma_first_divergence_from_characterizes(diverged, 0, hi);
}

} // verus!
