use vstd::prelude::*;
use crate::classify::{backup_base, classify};
use crate::tree::{
    copy_chars, counts, descends, find_name, has_file, ignored, should_classify, should_descend,
    EntryKind, Policy, Snapshot,
};

verus! {

/// A backup found by the walk, with the original it will replace. Both are
/// leaf names in the listing `dir`, so they share their parent directory.
pub struct Pair {
    pub dir: usize,
    pub backup: Vec<char>,
    pub original: Vec<char>,
}

pub ghost struct PairView {
    pub dir: int,
    pub backup: Seq<char>,
    pub original: Seq<char>,
}

impl View for Pair {
    type V = PairView;

    open spec fn view(&self) -> PairView {
        PairView { dir: self.dir as int, backup: self.backup@, original: self.original@ }
    }
}

#[derive(PartialEq, Eq, Structural, Clone, Copy, Debug)]
pub enum NoteKind {
    /// A symlink left alone by the symlink policy.
    Ignored,
    /// A backup name whose original is missing or not a regular file.
    NoOriginal,
}

/// Something worth a warning, at entry `entry` of listing `dir`.
#[derive(PartialEq, Eq, Structural, Clone, Copy, Debug)]
pub struct Note {
    pub dir: usize,
    pub entry: usize,
    pub kind: NoteKind,
}

/// The walk stopped at entry `entry` of listing `dir`: its name must be
/// classified and is not text.
#[derive(PartialEq, Eq, Structural, Clone, Copy, Debug)]
pub struct Fault {
    pub dir: usize,
    pub entry: usize,
}

/// What a walk, or a part of one, produced.
pub ghost struct Summary {
    pub pairs: Seq<PairView>,
    pub notes: Seq<Note>,
    pub seen: nat,
    pub fault: Option<Fault>,
}

/// The result of a walk: the pairs and notes in discovery order, the number of
/// entries classified, and the fault that stopped it, if any.
pub struct Found {
    pub pairs: Vec<Pair>,
    pub notes: Vec<Note>,
    pub seen: u64,
    pub fault: Option<Fault>,
}

impl View for Found {
    type V = Summary;

    open spec fn view(&self) -> Summary {
        Summary {
            pairs: self.pairs@.map_values(|p: Pair| p@),
            notes: self.notes@,
            seen: self.seen as nat,
            fault: self.fault,
        }
    }
}

pub open spec fn nothing() -> Summary {
    Summary { pairs: Seq::empty(), notes: Seq::empty(), seen: 0, fault: None }
}

/// `a` followed by `b`; nothing follows a fault.
pub open spec fn then(a: Summary, b: Summary) -> Summary {
    if a.fault is Some {
        a
    } else {
        Summary {
            pairs: a.pairs + b.pairs,
            notes: a.notes + b.notes,
            seen: a.seen + b.seen,
            fault: b.fault,
        }
    }
}

/// What entry `k` of listing `i` gives by itself, its subdirectory aside.
pub open spec fn own(snap: Snapshot, i: int, k: int, pol: Policy) -> Summary {
    let es = snap.dirs@[i].entries@;
    let e = es[k];
    if counts(e.kind, pol) {
        match e.name {
            None => Summary { seen: 1, fault: Some(Fault { dir: i as usize, entry: k as usize }), ..nothing() },
            Some(n) => match backup_base(n@) {
                None => Summary { seen: 1, ..nothing() },
                Some(b) => if has_file(es, b) {
                    Summary {
                        pairs: seq![PairView { dir: i, backup: n@, original: b }],
                        seen: 1,
                        ..nothing()
                    }
                } else {
                    Summary {
                        notes: seq![Note { dir: i as usize, entry: k as usize, kind: NoteKind::NoOriginal }],
                        seen: 1,
                        ..nothing()
                    }
                },
            },
        }
    } else if ignored(e.kind, pol) {
        Summary { notes: seq![Note { dir: i as usize, entry: k as usize, kind: NoteKind::Ignored }], ..nothing() }
    } else {
        nothing()
    }
}

/// The listing that entry `k` of listing `i` leads the walk into, if any.
pub open spec fn descent(snap: Snapshot, i: int, k: int, pol: Policy) -> Option<int> {
    let e = snap.dirs@[i].entries@[k];
    if descends(e.kind, pol) && e.child is Some && i < e.child->0 < snap.dirs@.len() {
        Some(e.child->0 as int)
    } else {
        None
    }
}

/// The walk of listing `i` from its entry `k` on: depth first, in listing
/// order, a subdirectory's walk before the entry's own name.
pub open spec fn walk_from(snap: Snapshot, i: int, k: int, pol: Policy) -> Summary
    decreases snap.dirs@.len() - i, snap.dirs@[i].entries@.len() - k,
{
    if !(0 <= i < snap.dirs@.len()) || !(0 <= k < snap.dirs@[i].entries@.len()) {
        nothing()
    } else {
        let sub = match descent(snap, i, k, pol) {
            Some(j) => walk_from(snap, j, 0, pol),
            None => nothing(),
        };
        then(then(sub, own(snap, i, k, pol)), walk_from(snap, i, k + 1, pol))
    }
}

/// The walk of a whole snapshot from its root.
pub open spec fn walk_spec(snap: Snapshot, pol: Policy) -> Summary {
    walk_from(snap, 0, 0, pol)
}

pub proof fn then_assoc(a: Summary, b: Summary, c: Summary)
    ensures
        then(then(a, b), c) == then(a, then(b, c)),
{
    if a.fault is None && b.fault is None {
        assert(then(then(a, b), c).pairs =~= then(a, then(b, c)).pairs);
        assert(then(then(a, b), c).notes =~= then(a, then(b, c)).notes);
    }
}

pub proof fn then_nothing(a: Summary)
    ensures
        then(a, nothing()) == a,
        then(nothing(), a) == a,
{
    if a.fault is None {
        assert(then(a, nothing()).pairs =~= a.pairs);
        assert(then(a, nothing()).notes =~= a.notes);
    }
    assert(then(nothing(), a).pairs =~= a.pairs);
    assert(then(nothing(), a).notes =~= a.notes);
}

pub proof fn then_seen(a: Summary, b: Summary)
    ensures
        then(a, b).seen >= a.seen,
{
}

/// Adds what entry `k` of listing `i` gives by itself to `out`.
fn visit_own(snap: &Snapshot, i: usize, k: usize, pol: Policy, out: &mut Found)
    requires
        i < snap.dirs@.len(),
        k < snap.dirs@[i as int].entries@.len(),
        old(out).fault is None,
        old(out).seen + own(*snap, i as int, k as int, pol).seen <= u64::MAX,
    ensures
        final(out)@ == then(old(out)@, own(*snap, i as int, k as int, pol)),
{
    let es = &snap.dirs[i].entries;
    let e = &es[k];
    let ghost o = own(*snap, i as int, k as int, pol);
    if should_classify(e.kind, pol) {
        out.seen = out.seen + 1;
        match &e.name {
            None => {
                out.fault = Some(Fault { dir: i, entry: k });
                assert(out@.pairs =~= old(out)@.pairs + o.pairs);
                assert(out@.notes =~= old(out)@.notes + o.notes);
            },
            Some(n) => {
                match classify(n) {
                    None => {
                        assert(out@.pairs =~= old(out)@.pairs + o.pairs);
                        assert(out@.notes =~= old(out)@.notes + o.notes);
                    },
                    Some(b) => {
                        let (_, file) = find_name(es, &b);
                        if file {
                            let p = Pair { dir: i, backup: copy_chars(n), original: b };
                            out.pairs.push(p);
                            assert(out@.pairs =~= old(out)@.pairs + o.pairs);
                            assert(out@.notes =~= old(out)@.notes + o.notes);
                        } else {
                            out.notes.push(Note { dir: i, entry: k, kind: NoteKind::NoOriginal });
                            assert(out@.pairs =~= old(out)@.pairs + o.pairs);
                            assert(out@.notes =~= old(out)@.notes + o.notes);
                        }
                    },
                }
            },
        }
    } else {
        let is_link = e.kind == EntryKind::FileLink || e.kind == EntryKind::DirLink;
        if is_link && !should_descend(e.kind, pol) {
            out.notes.push(Note { dir: i, entry: k, kind: NoteKind::Ignored });
        }
        assert(out@.pairs =~= old(out)@.pairs + o.pairs);
        assert(out@.notes =~= old(out)@.notes + o.notes);
    }
}

/// Walks listing `i` and, depth first, what it leads into, adding the result
/// to `out`; stops at the first fault.
fn walk_dir(snap: &Snapshot, i: usize, pol: Policy, out: &mut Found)
    requires
        i < snap.dirs@.len(),
        then(old(out)@, walk_from(*snap, i as int, 0, pol)).seen <= u64::MAX,
    ensures
        final(out)@ == then(old(out)@, walk_from(*snap, i as int, 0, pol)),
    decreases snap.dirs@.len() - i, 1nat,
{
    let ghost start = out@;
    let ghost target = then(start, walk_from(*snap, i as int, 0, pol));
    let n = snap.dirs[i].entries.len();
    let mut k: usize = 0;
    while k < n
        invariant
            i < snap.dirs@.len(),
            n == snap.dirs@[i as int].entries@.len(),
            k <= n,
            then(out@, walk_from(*snap, i as int, k as int, pol)) == target,
            target == then(old(out)@, walk_from(*snap, i as int, 0, pol)),
            target.seen <= u64::MAX,
        decreases n - k,
    {
        if out.fault.is_some() {
            return;
        }
        let ghost before = out@;
        let ghost sub = match descent(*snap, i as int, k as int, pol) {
            Some(j) => walk_from(*snap, j, 0, pol),
            None => nothing(),
        };
        let ghost o = own(*snap, i as int, k as int, pol);
        let ghost rest = walk_from(*snap, i as int, k as int + 1, pol);
        proof {
            then_assoc(before, then(sub, o), rest);
            then_assoc(before, sub, o);
            then_seen(then(before, sub), o);
            then_seen(then(then(before, sub), o), rest);
        }
        let e = &snap.dirs[i].entries[k];
        if should_descend(e.kind, pol) {
            match e.child {
                Some(j) => {
                    if i < j && j < snap.dirs.len() {
                        walk_dir(snap, j, pol, out);
                    }
                },
                None => {},
            }
        }
        if out.fault.is_some() {
            proof {
                then_assoc(out@, o, rest);
            }
            return;
        }
        visit_own(snap, i, k, pol, out);
        k = k + 1;
    }
    proof {
        then_nothing(out@);
    }
}

/// Walks the snapshot from its root under the policy `pol`.
pub fn walk(snap: &Snapshot, pol: Policy) -> (r: Found)
    requires
        walk_spec(*snap, pol).seen <= u64::MAX,
    ensures
        r@ == walk_spec(*snap, pol),
{
    let mut out = Found { pairs: Vec::new(), notes: Vec::new(), seen: 0, fault: None };
    proof {
        assert(out@.pairs =~= nothing().pairs);
        assert(out@ == nothing());
        then_nothing(walk_spec(*snap, pol));
    }
    if snap.dirs.len() > 0 {
        walk_dir(snap, 0, pol, &mut out);
    }
    out
}

} // verus!
