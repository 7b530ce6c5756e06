//! What ties a working copy to a run over what it holds.
use vstd::prelude::*;

use crate::semantics::{followed, idle, resumed, Run};
use crate::util::{verdict, ValidateResult, Verdict};
use crate::working::{lemma_recorded, Stock};

verus! {

/// The outcome and the state of a working copy are those of a run. Where the depth did not suffice
/// there is no run, and what matching has left half done is of no further use.
pub open spec fn ran<T>(
    r: Option<ValidateResult>,
    before: Stock<T>,
    after: Stock<T>,
    run: Option<Run<T>>,
) -> bool {
    match run {
        None => r is None,
        Some(run) => r is Some && verdict(r->Some_0) == run.verdict && after == before.after(run),
    }
}

/// A run that takes nothing leaves a working copy as it is.
pub proof fn lemma_idle<T>(stock: Stock<T>, v: Verdict)
    ensures
        stock.after(idle(v, stock.items)) == stock,
{
    lemma_recorded(stock.snaps, Seq::empty(), Seq::empty());
}

/// It does not matter which of three runs in a row are taken together.
pub proof fn lemma_resumed<T>(a: Run<T>, b: Run<T>, next: Option<Run<T>>)
    ensures
        resumed(a, resumed(b, next)) == resumed(followed(a, b), next),
{
    if let Some(run) = next {
        assert(followed(a, followed(b, run)) =~= followed(followed(a, b), run));
    }
}

/// A run that takes nothing adds nothing to the next.
pub proof fn lemma_resumed_idle<T>(v: Verdict, stock: Seq<T>, next: Option<Run<T>>)
    ensures
        resumed(idle(v, stock), next) == next,
{
    if let Some(run) = next {
        assert(followed(idle(v, stock), run) =~= run);
    }
}

} // verus!
