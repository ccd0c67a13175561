use vstd::prelude::*;

verus! {

/// A step of the stock search: Sina's suggest service, Tencent's smartbox,
/// then the active source's own lookup, then every other source in
/// registration order, until one finds something.
#[derive(Clone, Copy, Debug, PartialEq, Eq, Structural)]
pub enum SearchStep {
    SinaSuggest,
    TencentSmartbox,
    ActiveSource,
    OtherSource(usize),
    Done,
}

/// The first source at or after `i` (of `n`) that is not the active one,
/// or `Done` when there is none.
pub open spec fn first_other(i: int, active: int, n: int) -> SearchStep
    decreases n - i,
{
    if i >= n || i < 0 {
        SearchStep::Done
    } else if i != active {
        SearchStep::OtherSource(i as usize)
    } else {
        first_other(i + 1, active, n)
    }
}

/// The step after `step` found nothing, with `n` sources of which the one at
/// `active` is active (`active >= n`: none is).
pub open spec fn next_step_spec(step: SearchStep, active: int, n: int) -> SearchStep {
    match step {
        SearchStep::SinaSuggest => SearchStep::TencentSmartbox,
        SearchStep::TencentSmartbox => if active < n { SearchStep::ActiveSource } else { first_other(0, active, n) },
        SearchStep::ActiveSource => first_other(0, active, n),
        SearchStep::OtherSource(i) => first_other(i + 1, active, n),
        SearchStep::Done => SearchStep::Done,
    }
}

/// The search falls back to the next source it has not tried: the source
/// chosen from `i` on is `i` itself, or `i + 1` when `i` is the active one;
/// the search ends only when no source other than the active one is left.
pub proof fn lemma_first_other(i: int, active: int, n: int)
    requires
        0 <= i,
        n <= usize::MAX,
    ensures
        first_other(i, active, n) matches SearchStep::OtherSource(j) ==> j < n && j != active
            && (j == i || (i == active && j == i + 1)),
        first_other(i, active, n) is Done ==> i >= n || (i == active && i + 1 >= n),
        !(first_other(i, active, n) is SinaSuggest || first_other(i, active, n) is TencentSmartbox
            || first_other(i, active, n) is ActiveSource),
    decreases n - i,
{
    if i < n && i == active {
        lemma_first_other(i + 1, active, n);
    }
}

fn first_other_exec(i: usize, active: usize, n: usize) -> (r: SearchStep)
    ensures
        r == first_other(i as int, active as int, n as int),
{
    let mut j: usize = i;
    while j < n
        invariant
            i <= j <= n || (j == i && i > n),
            first_other(i as int, active as int, n as int) == first_other(j as int, active as int, n as int),
        decreases n - j,
    {
        if j != active {
            return SearchStep::OtherSource(j);
        }
        j = j + 1;
    }
    SearchStep::Done
}

/// What the search tries next: nothing more once a step found matches,
/// else `next_step_spec`.
pub fn next_search_step(step: SearchStep, found: bool, active: usize, n_sources: usize) -> (r: SearchStep)
    ensures
        found ==> r == SearchStep::Done,
        !found ==> r == next_step_spec(step, active as int, n_sources as int),
{
    if found {
        return SearchStep::Done;
    }
    match step {
        SearchStep::SinaSuggest => SearchStep::TencentSmartbox,
        SearchStep::TencentSmartbox => {
            if active < n_sources {
                SearchStep::ActiveSource
            } else {
                first_other_exec(0, active, n_sources)
            }
        },
        SearchStep::ActiveSource => first_other_exec(0, active, n_sources),
        SearchStep::OtherSource(i) => {
            if i >= n_sources {
                SearchStep::Done
            } else {
                first_other_exec(i + 1, active, n_sources)
            }
        },
        SearchStep::Done => SearchStep::Done,
    }
}

} // verus!
