use vstd::prelude::*;
use crate::classify::{backup_base, marker};
use crate::driver::{found_pairs, planned_steps};
use crate::laws::{found_pairs_share_parent, pair_ok, swap_outcome_facts};
use crate::swap::{outcomes, outcomes_len, stash_of, steps_of, swap_spec, Outcome, StepView};
use crate::tree::{counts, has_file, has_name, Entry, EntryKind, Policy, Snapshot};
use crate::walk::{descent, own, then, then_nothing, walk_from, walk_spec, PairView};

verus! {

/// A directory as a map from leaf names to kinds.
pub type Names = Map<Seq<char>, EntryKind>;

/// Renaming `from` to `to`; it fails, leaving the directory as it is, when
/// `from` is missing or `to` exists.
pub open spec fn rename_in(m: Names, from: Seq<char>, to: Seq<char>) -> Names {
    if m.contains_key(from) && !m.contains_key(to) {
        m.remove(from).insert(to, m[from])
    } else {
        m
    }
}

/// The three steps of one swap of backup `b` over original `o`.
pub open spec fn swap_in(m: Names, b: Seq<char>, o: Seq<char>) -> Names {
    let t = stash_of(o);
    rename_in(rename_in(m, o, t), b, o).remove(t)
}

/// The swaps `sw` (backup, original) applied in order.
pub open spec fn swap_all(m: Names, sw: Seq<(Seq<char>, Seq<char>)>) -> Names
    decreases sw.len(),
{
    if sw.len() == 0 {
        m
    } else {
        swap_in(swap_all(m, sw.drop_last()), sw.last().0, sw.last().1)
    }
}

/// The walk would pair backup `n` with original `b` in this directory.
pub open spec fn candidate(m: Names, pol: Policy, n: Seq<char>, b: Seq<char>) -> bool {
    &&& m.contains_key(n)
    &&& counts(m[n], pol)
    &&& backup_base(n) == Some(b)
    &&& m.contains_key(b)
    &&& m[b] == EntryKind::File
}

/// The swap `x` uses the name `n`.
pub open spec fn uses(x: (Seq<char>, Seq<char>), n: Seq<char>) -> bool {
    n == x.0 || n == x.1 || n == stash_of(x.1)
}

/// The swaps `x` and `y` use no common name.
pub open spec fn apart(x: (Seq<char>, Seq<char>), y: (Seq<char>, Seq<char>)) -> bool {
    !uses(x, y.0) && !uses(x, y.1) && !uses(x, stash_of(y.1))
}

/// Each swap is of a candidate whose stash name is free, and no two swaps use
/// a common name.
pub open spec fn sound_swaps(m: Names, pol: Policy, sw: Seq<(Seq<char>, Seq<char>)>) -> bool {
    &&& forall|j: int| 0 <= j < sw.len() ==> candidate(m, pol, (#[trigger] sw[j]).0, sw[j].1)
    &&& forall|j: int| 0 <= j < sw.len() ==> !m.contains_key(stash_of((#[trigger] sw[j]).1))
    &&& forall|j: int, l: int| 0 <= j < sw.len() && 0 <= l < sw.len() && j != l ==> apart(#[trigger] sw[j], #[trigger] sw[l])
}

proof fn names_of_swap_differ(b: Seq<char>, o: Seq<char>)
    requires
        backup_base(b) == Some(o),
    ensures
        b != o,
        b != stash_of(o),
        o != stash_of(o),
{
    assert(b.len() == o.len() + 16);
    assert(stash_of(o).len() == o.len() + 9);
    assert(b.subrange(b.len() - 16, b.len() - 8)[0] == marker()[0]);
    assert(b[o.len() as int] == '.');
    assert(stash_of(o)[o.len() as int] == '_');
}

proof fn swap_all_effect(m: Names, pol: Policy, sw: Seq<(Seq<char>, Seq<char>)>)
    requires
        sound_swaps(m, pol, sw),
    ensures
        forall|j: int|
            0 <= j < sw.len() ==> {
                &&& swap_all(m, sw).contains_key((#[trigger] sw[j]).1)
                &&& swap_all(m, sw)[sw[j].1] == m[sw[j].0]
                &&& !swap_all(m, sw).contains_key(sw[j].0)
                &&& !swap_all(m, sw).contains_key(stash_of(sw[j].1))
            },
        forall|n: Seq<char>|
            (forall|j: int| 0 <= j < sw.len() ==> !uses(#[trigger] sw[j], n)) ==> {
                &&& (#[trigger] swap_all(m, sw).contains_key(n)) == m.contains_key(n)
                &&& m.contains_key(n) ==> swap_all(m, sw)[n] == m[n]
            },
    decreases sw.len(),
{
    if sw.len() > 0 {
        let front = sw.drop_last();
        let x = sw.last();
        let last = sw.len() - 1;
        assert forall|j: int| 0 <= j < front.len() implies front[j] == sw[j] by {}
        assert(sound_swaps(m, pol, front)) by {
            assert forall|j: int, l: int|
                0 <= j < front.len() && 0 <= l < front.len() && j != l implies apart(
                #[trigger] front[j],
                #[trigger] front[l],
            ) by {
                assert(apart(sw[j], sw[l]));
            }
            assert forall|j: int| 0 <= j < front.len() implies candidate(
                m,
                pol,
                (#[trigger] front[j]).0,
                front[j].1,
            ) by {
                assert(candidate(m, pol, sw[j].0, sw[j].1));
            }
            assert forall|j: int| 0 <= j < front.len() implies !m.contains_key(
                stash_of((#[trigger] front[j]).1),
            ) by {
                assert(!m.contains_key(stash_of(sw[j].1)));
            }
        }
        swap_all_effect(m, pol, front);
        let prev = swap_all(m, front);
        let (b, o) = x;
        let t = stash_of(o);
        assert(x == sw[last]);
        assert(candidate(m, pol, b, o));
        assert(!m.contains_key(t));
        names_of_swap_differ(b, o);
        assert forall|j: int| 0 <= j < front.len() implies !uses(#[trigger] front[j], b) by {
            assert(apart(sw[j], sw[last]));
        }
        assert forall|j: int| 0 <= j < front.len() implies !uses(#[trigger] front[j], o) by {
            assert(apart(sw[j], sw[last]));
        }
        assert forall|j: int| 0 <= j < front.len() implies !uses(#[trigger] front[j], t) by {
            assert(apart(sw[j], sw[last]));
        }
        assert(forall|j: int| 0 <= j < front.len() ==> !uses(#[trigger] front[j], b));
        assert(m.contains_key(b));
        assert(prev.contains_key(b));
        assert(prev[b] == m[b]);
        assert(forall|j: int| 0 <= j < front.len() ==> !uses(#[trigger] front[j], o));
        assert(m.contains_key(o));
        assert(prev.contains_key(o));
        assert(prev[o] == m[o]);
        assert(forall|j: int| 0 <= j < front.len() ==> !uses(#[trigger] front[j], t));
        assert(!prev.contains_key(t));
        let m1 = prev.remove(o).insert(t, prev[o]);
        assert(rename_in(prev, o, t) == m1);
        assert(m1.contains_key(b) && !m1.contains_key(o));
        let m2 = m1.remove(b).insert(o, m1[b]);
        assert(rename_in(m1, b, o) == m2);
        let r = m2.remove(t);
        assert(swap_all(m, sw) == r);
        assert forall|j: int| 0 <= j < sw.len() implies {
            &&& r.contains_key((#[trigger] sw[j]).1)
            &&& r[sw[j].1] == m[sw[j].0]
            &&& !r.contains_key(sw[j].0)
            &&& !r.contains_key(stash_of(sw[j].1))
        } by {
            if j < last {
                assert(front[j] == sw[j]);
                assert(apart(sw[j], sw[last]));
                assert(apart(sw[last], sw[j]));
            }
        }
        assert forall|n: Seq<char>|
            (forall|j: int| 0 <= j < sw.len() ==> !uses(#[trigger] sw[j], n)) implies {
                &&& (#[trigger] r.contains_key(n)) == m.contains_key(n)
                &&& m.contains_key(n) ==> r[n] == m[n]
            } by {
            assert forall|j: int| 0 <= j < front.len() implies !uses(#[trigger] front[j], n) by {
                assert(front[j] == sw[j]);
                assert(!uses(sw[j], n));
            }
            assert(!uses(sw[last], n));
        }
    }
}

/// After a completed revert of a directory, a second run finds nothing to
/// pair there: when every candidate of the directory was swapped, each swap
/// had a free stash name, and no two swaps use a common name, the directory
/// that the swaps leave holds no candidate.
pub proof fn completed_revert_leaves_no_pair(
    m: Names,
    pol: Policy,
    sw: Seq<(Seq<char>, Seq<char>)>,
    n: Seq<char>,
    b: Seq<char>,
)
    requires
        sound_swaps(m, pol, sw),
        forall|n: Seq<char>, b: Seq<char>|
            #[trigger] candidate(m, pol, n, b) ==> exists|j: int| 0 <= j < sw.len() && #[trigger] sw[j] == (n, b),
    ensures
        !candidate(swap_all(m, sw), pol, n, b),
{
    swap_all_effect(m, pol, sw);
    let r = swap_all(m, sw);
    if candidate(r, pol, n, b) {
        names_of_swap_differ(n, b);
        // the original name `b` was a regular file before the swaps
        assert(m.contains_key(b) && m[b] == EntryKind::File) by {
            if exists|j: int| 0 <= j < sw.len() && uses(#[trigger] sw[j], b) {
                let j = choose|j: int| 0 <= j < sw.len() && uses(#[trigger] sw[j], b);
                assert(candidate(m, pol, sw[j].0, sw[j].1));
            }
        }
        if exists|j: int| 0 <= j < sw.len() && uses(#[trigger] sw[j], n) {
            let j = choose|j: int| 0 <= j < sw.len() && uses(#[trigger] sw[j], n);
            assert(n == sw[j].1);
            assert(candidate(m, pol, sw[j].0, sw[j].1));
            assert(candidate(m, pol, n, b));
            let l = choose|l: int| 0 <= l < sw.len() && #[trigger] sw[l] == (n, b);
            assert(j != l);
            assert(apart(sw[l], sw[j]));
        } else {
            assert(candidate(m, pol, n, b));
            let l = choose|l: int| 0 <= l < sw.len() && #[trigger] sw[l] == (n, b);
            assert(uses(sw[l], n));
        }
    }
}

/// A snapshot of one directory whose names are all text and distinct.
pub open spec fn flat(snap: Snapshot) -> bool {
    let es = snap.dirs@[0].entries@;
    &&& snap.dirs@.len() == 1
    &&& forall|k: int| 0 <= k < es.len() ==> (#[trigger] es[k]).name is Some
    &&& forall|k: int, l: int|
        0 <= k < es.len() && 0 <= l < es.len() && k != l ==> (#[trigger] es[k]).name->0@ != (
        #[trigger] es[l]).name->0@
}

/// The names of a listing with their kinds.
pub open spec fn listing_names(es: Seq<Entry>) -> Names {
    Map::new(
        |n: Seq<char>| has_name(es, n),
        |n: Seq<char>|
            es[choose|k: int| 0 <= k < es.len() && (#[trigger] es[k]).name is Some && es[k].name->0@ == n].kind,
    )
}

proof fn listing_names_at(snap: Snapshot, k: int)
    requires
        flat(snap),
        0 <= k < snap.dirs@[0].entries@.len(),
    ensures
        listing_names(snap.dirs@[0].entries@).contains_key(snap.dirs@[0].entries@[k].name->0@),
        listing_names(snap.dirs@[0].entries@)[snap.dirs@[0].entries@[k].name->0@]
            == snap.dirs@[0].entries@[k].kind,
{
    let es = snap.dirs@[0].entries@;
    let n = es[k].name->0@;
    assert(has_name(es, n));
    let c = choose|c: int| 0 <= c < es.len() && (#[trigger] es[c]).name is Some && es[c].name->0@ == n;
    assert(c == k);
}

/// Entry `k` of a flat snapshot is classified and names a backup whose
/// original is a regular file.
pub open spec fn entry_pair(snap: Snapshot, pol: Policy, k: int) -> bool {
    let es = snap.dirs@[0].entries@;
    let n = es[k].name->0@;
    counts(es[k].kind, pol) && backup_base(n) is Some && has_file(es, backup_base(n)->0)
}

proof fn flat_walk_pairs(snap: Snapshot, pol: Policy, k0: int)
    requires
        flat(snap),
        0 <= k0,
        walk_from(snap, 0, k0, pol).fault is None,
    ensures
        forall|k: int|
            k0 <= k < snap.dirs@[0].entries@.len() && #[trigger] entry_pair(snap, pol, k) ==> exists|j: int|
                0 <= j < walk_from(snap, 0, k0, pol).pairs.len() && #[trigger] walk_from(snap, 0, k0, pol).pairs[j]
                    == (PairView {
                    dir: 0,
                    backup: snap.dirs@[0].entries@[k].name->0@,
                    original: backup_base(snap.dirs@[0].entries@[k].name->0@)->0,
                }),
    decreases snap.dirs@[0].entries@.len() - k0,
{
    let es = snap.dirs@[0].entries@;
    if k0 < es.len() {
        assert(descent(snap, 0, k0, pol) is None);
        let o = own(snap, 0, k0, pol);
        let rest = walk_from(snap, 0, k0 + 1, pol);
        then_nothing(o);
        assert(walk_from(snap, 0, k0, pol) == then(o, rest));
        assert(o.fault is None);
        flat_walk_pairs(snap, pol, k0 + 1);
        let w = walk_from(snap, 0, k0, pol);
        assert(w.pairs == o.pairs + rest.pairs);
        let here = PairView { dir: 0, backup: es[k0].name->0@, original: backup_base(es[k0].name->0@)->0 };
        if entry_pair(snap, pol, k0) {
            assert(o.pairs =~= seq![here]);
        } else {
            assert(o.pairs.len() == 0);
        }
        assert forall|k: int| k0 <= k < es.len() && #[trigger] entry_pair(snap, pol, k) implies exists|j: int|
            0 <= j < w.pairs.len() && #[trigger] w.pairs[j] == (PairView {
                dir: 0,
                backup: es[k].name->0@,
                original: backup_base(es[k].name->0@)->0,
            }) by {
            if k == k0 {
                assert(w.pairs[0] == here);
            } else {
                let j = choose|j: int| 0 <= j < rest.pairs.len() && #[trigger] rest.pairs[j] == (PairView {
                    dir: 0,
                    backup: es[k].name->0@,
                    original: backup_base(es[k].name->0@)->0,
                });
                assert(w.pairs[o.pairs.len() + j] == rest.pairs[j]);
            }
        }
    }
}

/// The swaps of the pairs found in `snap`, as (backup, original).
pub open spec fn found_swaps(snap: Snapshot, pol: Policy) -> Seq<(Seq<char>, Seq<char>)> {
    found_pairs(snap, pol).map_values(|p: PairView| (p.backup, p.original))
}

#[verifier::rlimit(60)]
proof fn flat_swaps_sound(snap: Snapshot, pol: Policy)
    requires
        flat(snap),
        forall|j: int|
            0 <= j < found_pairs(snap, pol).len() ==> #[trigger] outcomes(snap, found_pairs(snap, pol))[j]
                == Outcome::Swap,
    ensures
        sound_swaps(listing_names(snap.dirs@[0].entries@), pol, found_swaps(snap, pol)),
{
    let es = snap.dirs@[0].entries@;
    let m = listing_names(es);
    let ps = found_pairs(snap, pol);
    let sw = found_swaps(snap, pol);
    found_pairs_share_parent(snap, pol);
    outcomes_len(snap, ps);
    assert forall|j: int| 0 <= j < sw.len() implies candidate(m, pol, (#[trigger] sw[j]).0, sw[j].1) by {
        assert(pair_ok(snap, pol, ps[j]));
        assert(ps[j].dir == 0);
        assert(sw[j] == (ps[j].backup, ps[j].original));
        let k = choose|k: int|
            0 <= k < es.len() && (#[trigger] es[k]).name is Some && es[k].name->0@ == ps[j].backup
                && counts(es[k].kind, pol);
        listing_names_at(snap, k);
        let f = choose|f: int|
            0 <= f < es.len() && (#[trigger] es[f]).name is Some && es[f].name->0@ == ps[j].original
                && es[f].kind == EntryKind::File;
        listing_names_at(snap, f);
    }
    assert forall|j: int| 0 <= j < sw.len() implies !m.contains_key(stash_of((#[trigger] sw[j]).1)) by {
        swap_outcome_facts(snap, ps, j);
        assert(pair_ok(snap, pol, ps[j]));
    }
    assert forall|j: int, l: int|
        0 <= j < sw.len() && 0 <= l < sw.len() && j != l implies apart(#[trigger] sw[j], #[trigger] sw[l]) by {
        assert(pair_ok(snap, pol, ps[j]) && pair_ok(snap, pol, ps[l]));
        if j < l {
            swap_outcome_facts(snap, ps, l);
            assert(outcomes(snap, ps)[j] == Outcome::Swap);
        } else {
            swap_outcome_facts(snap, ps, j);
            assert(outcomes(snap, ps)[l] == Outcome::Swap);
        }
    }
}

proof fn flat_swaps_complete(snap: Snapshot, pol: Policy)
    requires
        flat(snap),
        walk_spec(snap, pol).fault is None,
    ensures
        forall|n: Seq<char>, b: Seq<char>|
            #[trigger] candidate(listing_names(snap.dirs@[0].entries@), pol, n, b) ==> exists|j: int|
                0 <= j < found_swaps(snap, pol).len() && #[trigger] found_swaps(snap, pol)[j] == (n, b),
{
    let es = snap.dirs@[0].entries@;
    let m = listing_names(es);
    let ps = found_pairs(snap, pol);
    let sw = found_swaps(snap, pol);
    flat_walk_pairs(snap, pol, 0);
    assert forall|n: Seq<char>, b: Seq<char>| #[trigger] candidate(m, pol, n, b) implies exists|j: int|
        0 <= j < sw.len() && #[trigger] sw[j] == (n, b) by {
        let k = choose|k: int| 0 <= k < es.len() && (#[trigger] es[k]).name is Some && es[k].name->0@ == n;
        listing_names_at(snap, k);
        let f = choose|f: int| 0 <= f < es.len() && (#[trigger] es[f]).name is Some && es[f].name->0@ == b;
        listing_names_at(snap, f);
        assert(has_file(es, b));
        assert(entry_pair(snap, pol, k));
        let j = choose|j: int| 0 <= j < ps.len() && #[trigger] ps[j] == (PairView {
            dir: 0,
            backup: es[k].name->0@,
            original: backup_base(es[k].name->0@)->0,
        });
        assert(sw[j] == (n, b));
    }
}

/// A step done in a directory.
pub open spec fn apply_step(m: Names, s: StepView) -> Names {
    match s {
        StepView::Rename { from, to, .. } => rename_in(m, from, to),
        StepView::Remove { name, .. } => m.remove(name),
    }
}

/// The steps `ss` done in order.
pub open spec fn apply_steps(m: Names, ss: Seq<StepView>) -> Names
    decreases ss.len(),
{
    if ss.len() == 0 {
        m
    } else {
        apply_step(apply_steps(m, ss.drop_last()), ss.last())
    }
}

proof fn apply_steps_concat(m: Names, a: Seq<StepView>, b: Seq<StepView>)
    ensures
        apply_steps(m, a + b) == apply_steps(apply_steps(m, a), b),
    decreases b.len(),
{
    if b.len() == 0 {
        assert(a + b =~= a);
    } else {
        assert((a + b).drop_last() =~= a + b.drop_last());
        apply_steps_concat(m, a, b.drop_last());
    }
}

proof fn steps_are_swaps(m: Names, ps: Seq<PairView>, outs: Seq<Outcome>)
    requires
        outs.len() >= ps.len(),
        forall|j: int| 0 <= j < ps.len() ==> #[trigger] outs[j] == Outcome::Swap,
    ensures
        apply_steps(m, steps_of(ps, outs)) == swap_all(
            m,
            ps.map_values(|p: PairView| (p.backup, p.original)),
        ),
    decreases ps.len(),
{
    let sw = ps.map_values(|p: PairView| (p.backup, p.original));
    if ps.len() > 0 {
        let front = ps.drop_last();
        let p = ps.last();
        steps_are_swaps(m, front, outs);
        assert(sw.drop_last() =~= front.map_values(|p: PairView| (p.backup, p.original)));
        assert(outs[ps.len() - 1] == Outcome::Swap);
        let x = apply_steps(m, steps_of(front, outs));
        apply_steps_concat(m, steps_of(front, outs), swap_spec(p));
        let ss = swap_spec(p);
        let s2 = ss.drop_last();
        let s1 = s2.drop_last();
        let t = stash_of(p.original);
        assert(s1.drop_last() =~= Seq::<StepView>::empty());
        assert(s1.last() == ss[0] && s2.last() == ss[1] && ss.last() == ss[2]);
        assert(apply_steps(x, s1.drop_last()) == x);
        assert(ss[0] == StepView::Rename { dir: p.dir, from: p.original, to: t });
        assert(apply_step(x, ss[0]) == rename_in(x, p.original, t));
        assert(apply_steps(x, s1) == rename_in(x, p.original, t));
        assert(apply_steps(x, s2) == rename_in(rename_in(x, p.original, t), p.backup, p.original));
        assert(apply_steps(x, ss) == swap_in(x, p.backup, p.original));
    } else {
        assert(sw =~= Seq::<(Seq<char>, Seq<char>)>::empty());
    }
}

/// Running twice on a directory with no subdirectory to walk finds nothing
/// the second time, when the first run swapped every pair it found: in the
/// directory that the planned steps of the first run leave, no name is a
/// candidate.
pub proof fn flat_revert_is_idempotent(snap: Snapshot, pol: Policy, n: Seq<char>, b: Seq<char>)
    requires
        flat(snap),
        walk_spec(snap, pol).fault is None,
        forall|j: int|
            0 <= j < found_pairs(snap, pol).len() ==> #[trigger] outcomes(snap, found_pairs(snap, pol))[j]
                == Outcome::Swap,
    ensures
        !candidate(apply_steps(listing_names(snap.dirs@[0].entries@), planned_steps(snap, pol, false)), pol, n, b),
{
    let ps = found_pairs(snap, pol);
    outcomes_len(snap, ps);
    steps_are_swaps(listing_names(snap.dirs@[0].entries@), ps, outcomes(snap, ps));
    flat_swaps_sound(snap, pol);
    flat_swaps_complete(snap, pol);
    completed_revert_leaves_no_pair(listing_names(snap.dirs@[0].entries@), pol, found_swaps(snap, pol), n, b);
}

} // verus!
