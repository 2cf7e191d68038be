use vstd::prelude::*;
use crate::laws::found_pairs_share_parent;
use crate::swap::{
    outcomes, outcomes_len, pair_views, plan_outcomes, steps_of, swap_steps, Outcome, Step,
    StepView,
};
use crate::tree::{Policy, Snapshot};
use crate::walk::{walk, walk_spec, Found, Pair, PairView};

verus! {

/// A whole run: what the walk found, what is done with each pair, and the
/// steps to perform on disk, in order.
pub struct Run {
    pub found: Found,
    pub outcomes: Vec<Outcome>,
    pub steps: Vec<Step>,
}

/// The pairs that the walk of `snap` under `pol` finds.
pub open spec fn found_pairs(snap: Snapshot, pol: Policy) -> Seq<PairView> {
    walk_spec(snap, pol).pairs
}

/// The steps of a run: none when the walk stopped at a fault or when
/// simulating; otherwise the swaps of the scheduled pairs, in discovery order.
pub open spec fn planned_steps(snap: Snapshot, pol: Policy, simulate: bool) -> Seq<StepView> {
    let ps = found_pairs(snap, pol);
    if simulate || walk_spec(snap, pol).fault is Some {
        Seq::empty()
    } else {
        steps_of(ps, outcomes(snap, ps))
    }
}

/// The outcomes of a run: none when the walk stopped at a fault.
pub open spec fn planned_outcomes(snap: Snapshot, pol: Policy) -> Seq<Outcome> {
    if walk_spec(snap, pol).fault is Some {
        Seq::empty()
    } else {
        outcomes(snap, found_pairs(snap, pol))
    }
}

/// The steps of the pairs whose outcome is `Swap`, in order.
pub fn collect_steps(pairs: &Vec<Pair>, outs: &Vec<Outcome>) -> (r: Vec<Step>)
    requires
        outs@.len() == pairs@.len(),
    ensures
        r@.map_values(|s: Step| s@) == steps_of(pair_views(pairs@), outs@),
{
    let ghost ps = pair_views(pairs@);
    let mut r: Vec<Step> = Vec::new();
    let mut k: usize = 0;
    while k < pairs.len()
        invariant
            ps == pair_views(pairs@),
            outs@.len() == pairs@.len(),
            k <= pairs@.len(),
            r@.map_values(|s: Step| s@) == steps_of(ps.take(k as int), outs@),
        decreases pairs.len() - k,
    {
        let ghost before = r@.map_values(|s: Step| s@);
        proof {
            assert(ps.take(k as int + 1).drop_last() =~= ps.take(k as int));
            assert(ps.take(k as int + 1).last() == pairs@[k as int]@);
        }
        if outs[k] == Outcome::Swap {
            let mut more = swap_steps(&pairs[k]);
            let ghost added = more@.map_values(|s: Step| s@);
            r.append(&mut more);
            assert(r@.map_values(|s: Step| s@) =~= before + added);
        } else {
            assert(before + Seq::<StepView>::empty() =~= before);
        }
        k = k + 1;
    }
    assert(ps.take(pairs@.len() as int) =~= ps);
    r
}

/// Walks `snap` under `pol` and plans the swaps of what it finds; plans no
/// step when simulating or when the walk stopped at a fault.
pub fn revert(snap: &Snapshot, pol: Policy, simulate: bool) -> (r: Run)
    requires
        walk_spec(*snap, pol).seen <= u64::MAX,
    ensures
        r.found@ == walk_spec(*snap, pol),
        r.outcomes@ == planned_outcomes(*snap, pol),
        r.steps@.map_values(|s: Step| s@) == planned_steps(*snap, pol, simulate),
{
    let found = walk(snap, pol);
    proof {
        found_pairs_share_parent(*snap, pol);
    }
    if found.fault.is_some() {
        let run = Run { found, outcomes: Vec::new(), steps: Vec::new() };
        assert(run.steps@.map_values(|s: Step| s@) =~= Seq::<StepView>::empty());
        return run;
    }
    let outs = plan_outcomes(snap, &found.pairs);
    if simulate {
        let run = Run { found, outcomes: outs, steps: Vec::new() };
        assert(run.steps@.map_values(|s: Step| s@) =~= Seq::<StepView>::empty());
        return run;
    }
    proof {
        outcomes_len(*snap, pair_views(found.pairs@));
    }
    let steps = collect_steps(&found.pairs, &outs);
    Run { found, outcomes: outs, steps }
}

} // verus!
