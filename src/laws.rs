use vstd::prelude::*;
use crate::classify::backup_base;
use crate::driver::{found_pairs, planned_steps};
use crate::swap::{
    clash, decide, outcomes, outcomes_len, pairs_in, same_place, stash_of, steps_of, Outcome,
    StepView,
};
use crate::tree::{counts, descends, has_file, has_name, Entry, Policy, Snapshot};
use crate::walk::{descent, nothing, own, then, walk_from, walk_spec, PairView, Summary};

verus! {

/// Some entry of `es` named `name` is one that `pol` classifies.
pub open spec fn has_classified(es: Seq<Entry>, name: Seq<char>, pol: Policy) -> bool {
    exists|k: int|
        0 <= k < es.len() && (#[trigger] es[k]).name is Some && es[k].name->0@ == name && counts(
            es[k].kind,
            pol,
        )
}

/// A found pair: both names are in the listing `p.dir`, the backup is named
/// `<original>.backup.<date>` and is an entry that `pol` classifies, and the
/// original is a regular file.
pub open spec fn pair_ok(snap: Snapshot, pol: Policy, p: PairView) -> bool {
    let es = snap.dirs@[p.dir as int].entries@;
    &&& 0 <= p.dir < snap.dirs@.len()
    &&& backup_base(p.backup) == Some(p.original)
    &&& has_classified(es, p.backup, pol)
    &&& has_file(es, p.original)
}

pub open spec fn summary_ok(snap: Snapshot, pol: Policy, s: Summary) -> bool {
    &&& forall|k: int| 0 <= k < s.pairs.len() ==> pair_ok(snap, pol, #[trigger] s.pairs[k])
    &&& s.pairs.len() <= s.seen
}

proof fn then_ok(snap: Snapshot, pol: Policy, a: Summary, b: Summary)
    requires
        summary_ok(snap, pol, a),
        summary_ok(snap, pol, b),
    ensures
        summary_ok(snap, pol, then(a, b)),
{
    if a.fault is None {
        let c = then(a, b);
        assert forall|k: int| 0 <= k < c.pairs.len() implies pair_ok(snap, pol, #[trigger] c.pairs[k]) by {
            if k < a.pairs.len() {
                assert(c.pairs[k] == a.pairs[k]);
            } else {
                assert(c.pairs[k] == b.pairs[k - a.pairs.len()]);
            }
        }
    }
}

proof fn own_ok(snap: Snapshot, i: int, k: int, pol: Policy)
    requires
        0 <= i < snap.dirs@.len(),
        0 <= k < snap.dirs@[i].entries@.len(),
    ensures
        summary_ok(snap, pol, own(snap, i, k, pol)),
{
    let es = snap.dirs@[i].entries@;
    let e = es[k];
    let o = own(snap, i, k, pol);
    if o.pairs.len() > 0 {
        let p = o.pairs[0];
        assert(p.dir == i);
        assert(e.name is Some && p.backup == e.name->0@);
        assert(es[k] == e);
        assert(has_classified(es, p.backup, pol));
        assert(pair_ok(snap, pol, p));
    }
}

proof fn walk_ok(snap: Snapshot, i: int, k: int, pol: Policy)
    ensures
        summary_ok(snap, pol, walk_from(snap, i, k, pol)),
    decreases snap.dirs@.len() - i, snap.dirs@[i].entries@.len() - k,
{
    if 0 <= i < snap.dirs@.len() && 0 <= k < snap.dirs@[i].entries@.len() {
        let sub = match descent(snap, i, k, pol) {
            Some(j) => walk_from(snap, j, 0, pol),
            None => nothing(),
        };
        match descent(snap, i, k, pol) {
            Some(j) => walk_ok(snap, j, 0, pol),
            None => {},
        }
        own_ok(snap, i, k, pol);
        walk_ok(snap, i, k + 1, pol);
        then_ok(snap, pol, sub, own(snap, i, k, pol));
        then_ok(snap, pol, then(sub, own(snap, i, k, pol)), walk_from(snap, i, k + 1, pol));
    }
}

/// Every pair found lies in one listing: the backup and the original share
/// their parent directory, the backup is named `<original>.backup.<date>` and
/// is an entry the policy classifies, and the original was a regular file
/// when found.
pub proof fn found_pairs_share_parent(snap: Snapshot, pol: Policy)
    ensures
        forall|k: int|
            0 <= k < found_pairs(snap, pol).len() ==> pair_ok(snap, pol, #[trigger] found_pairs(snap, pol)[k]),
        pairs_in(snap, found_pairs(snap, pol)),
{
    walk_ok(snap, 0, 0, pol);
    let ps = found_pairs(snap, pol);
    assert forall|k: int| 0 <= k < ps.len() implies (#[trigger] ps[k]).dir < snap.dirs@.len() by {
        assert(pair_ok(snap, pol, ps[k]));
    }
}

/// No more pairs are found than entries are classified.
pub proof fn found_within_seen(snap: Snapshot, pol: Policy)
    ensures
        walk_spec(snap, pol).pairs.len() <= walk_spec(snap, pol).seen,
{
    walk_ok(snap, 0, 0, pol);
}

/// `p1` admits no symlink that `p2` does not.
pub open spec fn admits_less(p1: Policy, p2: Policy) -> bool {
    &&& (p1.follow_symlink ==> p2.follow_symlink)
    &&& (p1.rename_symlink ==> p2.rename_symlink)
}

proof fn walk_monotone(snap: Snapshot, i: int, k: int, p1: Policy, p2: Policy)
    requires
        admits_less(p1, p2),
        walk_from(snap, i, k, p2).fault is None,
    ensures
        walk_from(snap, i, k, p1).fault is None,
        walk_from(snap, i, k, p1).seen <= walk_from(snap, i, k, p2).seen,
    decreases snap.dirs@.len() - i, snap.dirs@[i].entries@.len() - k,
{
    if 0 <= i < snap.dirs@.len() && 0 <= k < snap.dirs@[i].entries@.len() {
        let e = snap.dirs@[i].entries@[k];
        assert(descends(e.kind, p1) ==> descends(e.kind, p2));
        assert(counts(e.kind, p1) ==> counts(e.kind, p2));
        let sub2 = match descent(snap, i, k, p2) {
            Some(j) => walk_from(snap, j, 0, p2),
            None => nothing(),
        };
        let o2 = own(snap, i, k, p2);
        assert(sub2.fault is None);
        assert(o2.fault is None);
        match descent(snap, i, k, p1) {
            Some(j) => walk_monotone(snap, j, 0, p1, p2),
            None => {},
        }
        walk_monotone(snap, i, k + 1, p1, p2);
    }
}

/// The more symlinks a policy admits, the more entries are classified: with
/// no switch, with `rename_symlink`, then with `follow_symlink` too, on a
/// snapshot whose widest walk classifies no name that is not text.
pub proof fn seen_monotone(snap: Snapshot)
    requires
        walk_spec(snap, Policy { follow_symlink: true, rename_symlink: true }).fault is None,
    ensures
        walk_spec(snap, Policy { follow_symlink: false, rename_symlink: false }).seen
            <= walk_spec(snap, Policy { follow_symlink: false, rename_symlink: true }).seen,
        walk_spec(snap, Policy { follow_symlink: false, rename_symlink: true }).seen
            <= walk_spec(snap, Policy { follow_symlink: true, rename_symlink: true }).seen,
{
    let d = Policy { follow_symlink: false, rename_symlink: false };
    let r = Policy { follow_symlink: false, rename_symlink: true };
    let f = Policy { follow_symlink: true, rename_symlink: true };
    walk_monotone(snap, 0, 0, r, f);
    walk_monotone(snap, 0, 0, d, r);
}

/// No entry of the snapshot has a backup name.
pub open spec fn no_candidates(snap: Snapshot) -> bool {
    forall|i: int, k: int|
        0 <= i < snap.dirs@.len() && 0 <= k < snap.dirs@[i].entries@.len()
            && (#[trigger] snap.dirs@[i].entries@[k]).name is Some
            ==> backup_base(snap.dirs@[i].entries@[k].name->0@) is None
}

proof fn walk_no_pairs(snap: Snapshot, i: int, k: int, pol: Policy)
    requires
        no_candidates(snap),
    ensures
        walk_from(snap, i, k, pol).pairs.len() == 0,
    decreases snap.dirs@.len() - i, snap.dirs@[i].entries@.len() - k,
{
    if 0 <= i < snap.dirs@.len() && 0 <= k < snap.dirs@[i].entries@.len() {
        let e = snap.dirs@[i].entries@[k];
        assert(e == snap.dirs@[i].entries@[k]);
        match descent(snap, i, k, pol) {
            Some(j) => walk_no_pairs(snap, j, 0, pol),
            None => {},
        }
        walk_no_pairs(snap, i, k + 1, pol);
    }
}

proof fn steps_of_empty(outs: Seq<Outcome>)
    ensures
        steps_of(Seq::<PairView>::empty(), outs) == Seq::<StepView>::empty(),
{
}

/// On a tree where no name is a backup name, nothing is found and nothing
/// is changed, whatever the flags.
pub proof fn no_candidate_no_op(snap: Snapshot, pol: Policy, simulate: bool)
    requires
        no_candidates(snap),
    ensures
        found_pairs(snap, pol).len() == 0,
        planned_steps(snap, pol, simulate).len() == 0,
{
    walk_no_pairs(snap, 0, 0, pol);
    assert(found_pairs(snap, pol) =~= Seq::<PairView>::empty());
    steps_of_empty(outcomes(snap, found_pairs(snap, pol)));
}

/// A simulated run changes nothing on disk.
pub proof fn simulate_is_pure(snap: Snapshot, pol: Policy)
    ensures
        planned_steps(snap, pol, true).len() == 0,
{
}

proof fn outcomes_prefix(snap: Snapshot, ps: Seq<PairView>, m: int)
    requires
        0 <= m <= ps.len(),
    ensures
        outcomes(snap, ps.take(m)) == outcomes(snap, ps).take(m),
    decreases ps.len(),
{
    outcomes_len(snap, ps);
    if m == ps.len() {
        assert(ps.take(m) =~= ps);
        assert(outcomes(snap, ps).take(m) =~= outcomes(snap, ps));
    } else {
        let front = ps.drop_last();
        outcomes_prefix(snap, front, m);
        assert(front.take(m) =~= ps.take(m));
        outcomes_len(snap, front);
        assert(outcomes(snap, front).take(m) =~= outcomes(snap, ps).take(m));
    }
}

/// Two swaps scheduled in one directory share no name: neither one's backup,
/// original nor stash is a name of the other. So no swap undoes or overwrites
/// another, and a second backup of the same original is left in place. The
/// stash name of each scheduled swap was free when the tree was read.
pub proof fn scheduled_swaps_disjoint(snap: Snapshot, ps: Seq<PairView>, k: int, l: int)
    requires
        0 <= k < l < ps.len(),
        outcomes(snap, ps)[k] == Outcome::Swap,
        outcomes(snap, ps)[l] == Outcome::Swap,
        same_place(snap, ps[k], ps[l]),
    ensures
        !clash(ps[k], ps[l]),
        !has_name(snap.dirs@[ps[l].dir].entries@, stash_of(ps[l].original)),
{
    swap_outcome_facts(snap, ps, l);
}

/// What a `Swap` outcome at position `l` rests on: the stash name was free,
/// and no earlier swap in the same directory uses a name of this pair.
pub proof fn swap_outcome_facts(snap: Snapshot, ps: Seq<PairView>, l: int)
    requires
        0 <= l < ps.len(),
        outcomes(snap, ps)[l] == Outcome::Swap,
    ensures
        !has_name(snap.dirs@[ps[l].dir].entries@, stash_of(ps[l].original)),
        forall|k: int|
            0 <= k < l && outcomes(snap, ps)[k] == Outcome::Swap && same_place(snap, ps[k], ps[l])
                ==> !clash(#[trigger] ps[k], ps[l]),
{
    let pre = ps.take(l);
    let whole = ps.take(l + 1);
    outcomes_prefix(snap, ps, l + 1);
    outcomes_prefix(snap, ps, l);
    outcomes_len(snap, ps);
    assert(whole.drop_last() =~= pre);
    let prev = outcomes(snap, pre);
    assert(outcomes(snap, whole)[l] == decide(snap, pre, prev, ps[l]));
    assert forall|k: int|
        0 <= k < l && outcomes(snap, ps)[k] == Outcome::Swap && same_place(snap, ps[k], ps[l])
            implies !clash(#[trigger] ps[k], ps[l]) by {
        assert(prev[k] == Outcome::Swap);
        assert(pre[k] == ps[k]);
    }
}

} // verus!
