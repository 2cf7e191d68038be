use vstd::prelude::*;
use crate::tree::{copy_chars, find_name, has_name, same_chars, Snapshot};
use crate::walk::{Pair, PairView};

verus! {

/// The suffix of the name under which a restored file is stashed.
pub open spec fn reverted_suffix() -> Seq<char> {
    seq!['_', 'r', 'e', 'v', 'e', 'r', 't', 'e', 'd']
}

/// Where the restored file `original` is put aside during its swap.
pub open spec fn stash_of(original: Seq<char>) -> Seq<char> {
    original + reverted_suffix()
}

/// The name `original` followed by `_reverted`.
pub fn stash_name(original: &Vec<char>) -> (r: Vec<char>)
    ensures
        r@ == stash_of(original@),
{
    let mut r = copy_chars(original);
    let suffix: Vec<char> = vec!['_', 'r', 'e', 'v', 'e', 'r', 't', 'e', 'd'];
    let mut i: usize = 0;
    while i < suffix.len()
        invariant
            i <= suffix@.len(),
            suffix@ == reverted_suffix(),
            r@ == original@ + suffix@.subrange(0, i as int),
        decreases suffix.len() - i,
    {
        r.push(suffix[i]);
        i = i + 1;
        assert(r@ =~= original@ + suffix@.subrange(0, i as int));
    }
    assert(suffix@.subrange(0, 9) =~= suffix@);
    r
}

/// One change to the file system; names are leaves of the listing `dir`.
pub enum Step {
    Rename { dir: usize, from: Vec<char>, to: Vec<char> },
    Remove { dir: usize, name: Vec<char> },
}

pub ghost enum StepView {
    Rename { dir: int, from: Seq<char>, to: Seq<char> },
    Remove { dir: int, name: Seq<char> },
}

impl View for Step {
    type V = StepView;

    open spec fn view(&self) -> StepView {
        match self {
            Step::Rename { dir, from, to } => StepView::Rename { dir: *dir as int, from: from@, to: to@ },
            Step::Remove { dir, name } => StepView::Remove { dir: *dir as int, name: name@ },
        }
    }
}

/// The swap of one pair: stash the restored file, promote the backup to the
/// original name, then delete the stash.
pub open spec fn swap_spec(p: PairView) -> Seq<StepView> {
    let t = stash_of(p.original);
    seq![
        StepView::Rename { dir: p.dir, from: p.original, to: t },
        StepView::Rename { dir: p.dir, from: p.backup, to: p.original },
        StepView::Remove { dir: p.dir, name: t },
    ]
}

/// What is done with a pair.
#[derive(PartialEq, Eq, Structural, Clone, Copy, Debug)]
pub enum Outcome {
    /// It is swapped.
    Swap,
    /// The same backup and original were already scheduled, through another
    /// path to the same directory.
    Duplicate,
    /// A name of this pair is one that an earlier scheduled swap in the same
    /// directory uses; swapping it too would lose a file.
    Conflict,
    /// The stash name already exists; the pair is left alone.
    StashTaken,
}

/// `p` and `q` lie in the same directory on disk.
pub open spec fn same_place(snap: Snapshot, q: PairView, p: PairView) -> bool {
    snap.dirs@[q.dir as int].origin == snap.dirs@[p.dir as int].origin
}

/// The swap of `q` uses the name `n`.
pub open spec fn touches(q: PairView, n: Seq<char>) -> bool {
    n == q.backup || n == q.original || n == stash_of(q.original)
}

pub open spec fn clash(q: PairView, p: PairView) -> bool {
    touches(q, p.backup) || touches(q, p.original) || touches(q, stash_of(p.original))
}

pub open spec fn same_pair(q: PairView, p: PairView) -> bool {
    q.backup == p.backup && q.original == p.original
}

/// The outcome of `p`, after the pairs `ps` with outcomes `outs`.
pub open spec fn decide(snap: Snapshot, ps: Seq<PairView>, outs: Seq<Outcome>, p: PairView) -> Outcome {
    if exists|q: int|
        0 <= q < ps.len() && outs[q] == Outcome::Swap && same_place(snap, #[trigger] ps[q], p)
            && same_pair(ps[q], p) {
        Outcome::Duplicate
    } else if exists|q: int|
        0 <= q < ps.len() && outs[q] == Outcome::Swap && same_place(snap, #[trigger] ps[q], p)
            && clash(ps[q], p) {
        Outcome::Conflict
    } else if has_name(snap.dirs@[p.dir as int].entries@, stash_of(p.original)) {
        Outcome::StashTaken
    } else {
        Outcome::Swap
    }
}

/// The outcomes of the pairs `ps`, decided in order.
pub open spec fn outcomes(snap: Snapshot, ps: Seq<PairView>) -> Seq<Outcome>
    decreases ps.len(),
{
    if ps.len() == 0 {
        Seq::empty()
    } else {
        let prev = outcomes(snap, ps.drop_last());
        prev.push(decide(snap, ps.drop_last(), prev, ps.last()))
    }
}

/// The steps of the swapped pairs, in order.
pub open spec fn steps_of(ps: Seq<PairView>, outs: Seq<Outcome>) -> Seq<StepView>
    decreases ps.len(),
{
    if ps.len() == 0 {
        Seq::empty()
    } else {
        let here = if outs[ps.len() - 1] == Outcome::Swap {
            swap_spec(ps.last())
        } else {
            Seq::empty()
        };
        steps_of(ps.drop_last(), outs) + here
    }
}

pub open spec fn pair_views(pairs: Seq<Pair>) -> Seq<PairView> {
    pairs.map_values(|p: Pair| p@)
}

/// Each pair names a listing of the snapshot.
pub open spec fn pairs_in(snap: Snapshot, ps: Seq<PairView>) -> bool {
    forall|k: int| 0 <= k < ps.len() ==> (#[trigger] ps[k]).dir < snap.dirs@.len()
}

pub proof fn outcomes_len(snap: Snapshot, ps: Seq<PairView>)
    ensures
        outcomes(snap, ps).len() == ps.len(),
    decreases ps.len(),
{
    if ps.len() > 0 {
        outcomes_len(snap, ps.drop_last());
    }
}

/// The three steps of swapping `p`.
pub fn swap_steps(p: &Pair) -> (r: Vec<Step>)
    ensures
        r@.map_values(|s: Step| s@) == swap_spec(p@),
{
    let t1 = stash_name(&p.original);
    let t2 = stash_name(&p.original);
    let mut r: Vec<Step> = Vec::new();
    r.push(Step::Rename { dir: p.dir, from: copy_chars(&p.original), to: t1 });
    r.push(Step::Rename { dir: p.dir, from: copy_chars(&p.backup), to: copy_chars(&p.original) });
    r.push(Step::Remove { dir: p.dir, name: t2 });
    assert(r@.map_values(|s: Step| s@) =~= swap_spec(p@));
    r
}

fn touches_name(q: &Pair, q_stash: &Vec<char>, n: &Vec<char>) -> (r: bool)
    requires
        q_stash@ == stash_of(q.original@),
    ensures
        r == touches(q@, n@),
{
    same_chars(n, &q.backup) || same_chars(n, &q.original) || same_chars(n, q_stash)
}

/// Decides, in order, what is done with each pair found in `snap`.
pub fn plan_outcomes(snap: &Snapshot, pairs: &Vec<Pair>) -> (r: Vec<Outcome>)
    requires
        pairs_in(*snap, pair_views(pairs@)),
    ensures
        r@ == outcomes(*snap, pair_views(pairs@)),
{
    let ghost ps = pair_views(pairs@);
    let mut outs: Vec<Outcome> = Vec::new();
    let mut stashes: Vec<Vec<char>> = Vec::new();
    let mut l: usize = 0;
    while l < pairs.len()
        invariant
            ps == pair_views(pairs@),
            pairs_in(*snap, ps),
            l <= pairs@.len(),
            outs@ == outcomes(*snap, ps.take(l as int)),
            stashes@.len() == l,
            forall|q: int| 0 <= q < l ==> (#[trigger] stashes@[q])@ == stash_of(ps[q].original),
        decreases pairs.len() - l,
    {
        proof {
            outcomes_len(*snap, ps.take(l as int));
        }
        let p = &pairs[l];
        let p_stash = stash_name(&p.original);
        assert(ps[l as int] == p@);
        assert(p.dir < snap.dirs@.len());
        let place = snap.dirs[p.dir].origin;
        let mut dup = false;
        let mut cl = false;
        let mut j: usize = 0;
        while j < l
            invariant
                ps == pair_views(pairs@),
                pairs_in(*snap, ps),
                l < pairs@.len(),
                j <= l,
                p == pairs@[l as int],
                place == snap.dirs@[p.dir as int].origin,
                p_stash@ == stash_of(p.original@),
                outs@.len() == l,
                stashes@.len() == l,
                forall|q: int| 0 <= q < l ==> (#[trigger] stashes@[q])@ == stash_of(ps[q].original),
                dup == exists|q: int|
                    0 <= q < j && outs@[q] == Outcome::Swap && same_place(*snap, #[trigger] ps[q], p@)
                        && same_pair(ps[q], p@),
                cl == exists|q: int|
                    0 <= q < j && outs@[q] == Outcome::Swap && same_place(*snap, #[trigger] ps[q], p@)
                        && clash(ps[q], p@),
            decreases l - j,
        {
            let q = &pairs[j];
            assert(ps[j as int] == q@);
            if outs[j] == Outcome::Swap && q.dir < snap.dirs.len() && snap.dirs[q.dir].origin == place {
                if same_chars(&q.backup, &p.backup) && same_chars(&q.original, &p.original) {
                    dup = true;
                }
                if touches_name(q, &stashes[j], &p.backup) || touches_name(q, &stashes[j], &p.original)
                    || touches_name(q, &stashes[j], &p_stash) {
                    cl = true;
                }
            }
            j = j + 1;
        }
        let ghost prev = outs@;
        let (taken, _) = find_name(&snap.dirs[p.dir].entries, &p_stash);
        let o = if dup {
            Outcome::Duplicate
        } else if cl {
            Outcome::Conflict
        } else if taken {
            Outcome::StashTaken
        } else {
            Outcome::Swap
        };
        proof {
            let pre = ps.take(l as int);
            assert(ps.take(l as int + 1).drop_last() =~= pre);
            assert(ps.take(l as int + 1).last() == p@);
            assert forall|q: int| 0 <= q < l implies pre[q] == ps[q] by {}
            assert(o == decide(*snap, pre, prev, p@));
        }
        outs.push(o);
        stashes.push(p_stash);
        l = l + 1;
    }
    assert(ps.take(pairs@.len() as int) =~= ps);
    outs
}

} // verus!
