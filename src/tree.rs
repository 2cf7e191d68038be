use vstd::prelude::*;

verus! {

/// What a directory entry is, as its own metadata reports it (a symlink is
/// reported as a link, not as what it points to).
#[derive(PartialEq, Eq, Structural, Clone, Copy, Debug)]
pub enum EntryKind {
    Dir,
    DirLink,
    File,
    FileLink,
    Other,
}

/// One entry of a directory listing. `name` is `None` when the leaf name is
/// not text. `child` is the index of this entry's own listing in the
/// snapshot, present for a directory, and for a directory symlink that was
/// followed.
pub struct Entry {
    pub name: Option<Vec<char>>,
    pub kind: EntryKind,
    pub child: Option<usize>,
}

/// The listing of one visited directory. `origin` is the index of the first
/// listing of the same directory on disk (its own index when it is the first),
/// so that a directory reached again through a symlink is recognised.
pub struct Listing {
    pub origin: usize,
    pub entries: Vec<Entry>,
}

/// The directories of a walk as read from disk; `dirs[0]` is the root.
pub struct Snapshot {
    pub dirs: Vec<Listing>,
}

/// Which symlinks the walk treats as candidates, and which it descends into.
#[derive(Clone, Copy, Debug)]
pub struct Policy {
    pub follow_symlink: bool,
    pub rename_symlink: bool,
}

/// The walk recurses into this entry.
pub open spec fn descends(kind: EntryKind, pol: Policy) -> bool {
    match kind {
        EntryKind::Dir => true,
        EntryKind::DirLink => pol.follow_symlink,
        _ => false,
    }
}

/// The walk counts this entry in `seen` and classifies its name.
pub open spec fn counts(kind: EntryKind, pol: Policy) -> bool {
    match kind {
        EntryKind::File => true,
        EntryKind::FileLink | EntryKind::DirLink => pol.follow_symlink || pol.rename_symlink,
        _ => false,
    }
}

/// A symlink that the walk neither counts nor descends into.
pub open spec fn ignored(kind: EntryKind, pol: Policy) -> bool {
    (kind == EntryKind::FileLink || kind == EntryKind::DirLink) && !counts(kind, pol) && !descends(
        kind,
        pol,
    )
}

/// Whether the walk recurses into an entry of this kind.
pub fn should_descend(kind: EntryKind, pol: Policy) -> (r: bool)
    ensures
        r == descends(kind, pol),
{
    match kind {
        EntryKind::Dir => true,
        EntryKind::DirLink => pol.follow_symlink,
        _ => false,
    }
}

/// Whether the walk counts and classifies an entry of this kind.
pub fn should_classify(kind: EntryKind, pol: Policy) -> (r: bool)
    ensures
        r == counts(kind, pol),
{
    match kind {
        EntryKind::File => true,
        EntryKind::FileLink | EntryKind::DirLink => pol.follow_symlink || pol.rename_symlink,
        _ => false,
    }
}

/// Some entry of `es` is named `name`.
pub open spec fn has_name(es: Seq<Entry>, name: Seq<char>) -> bool {
    exists|k: int| 0 <= k < es.len() && (#[trigger] es[k]).name is Some && es[k].name->0@ == name
}

/// Some entry of `es` named `name` is a regular file.
pub open spec fn has_file(es: Seq<Entry>, name: Seq<char>) -> bool {
    exists|k: int|
        0 <= k < es.len() && (#[trigger] es[k]).name is Some && es[k].name->0@ == name && es[k].kind
            == EntryKind::File
}

/// The two sequences of characters are equal.
pub fn same_chars(a: &Vec<char>, b: &Vec<char>) -> (r: bool)
    ensures
        r == (a@ == b@),
{
    if a.len() != b.len() {
        return false;
    }
    let mut i: usize = 0;
    while i < a.len()
        invariant
            i <= a@.len(),
            a@.len() == b@.len(),
            forall|j: int| 0 <= j < i ==> a@[j] == b@[j],
        decreases a.len() - i,
    {
        if a[i] != b[i] {
            return false;
        }
        i = i + 1;
    }
    assert(a@ =~= b@);
    true
}

/// A copy of `a`.
pub fn copy_chars(a: &Vec<char>) -> (r: Vec<char>)
    ensures
        r@ == a@,
{
    let mut r: Vec<char> = Vec::new();
    let mut i: usize = 0;
    while i < a.len()
        invariant
            i <= a@.len(),
            r@ == a@.subrange(0, i as int),
        decreases a.len() - i,
    {
        r.push(a[i]);
        i = i + 1;
        assert(r@ =~= a@.subrange(0, i as int));
    }
    assert(r@ =~= a@);
    r
}

/// Looks `name` up among `es`: returns whether some entry has that name, and
/// whether some entry of that name is a regular file.
pub fn find_name(es: &Vec<Entry>, name: &Vec<char>) -> (r: (bool, bool))
    ensures
        r.0 == has_name(es@, name@),
        r.1 == has_file(es@, name@),
{
    let mut found = false;
    let mut file = false;
    let mut k: usize = 0;
    while k < es.len()
        invariant
            k <= es@.len(),
            found == exists|j: int|
                0 <= j < k && (#[trigger] es@[j]).name is Some && es@[j].name->0@ == name@,
            file == exists|j: int|
                0 <= j < k && (#[trigger] es@[j]).name is Some && es@[j].name->0@ == name@
                    && es@[j].kind == EntryKind::File,
        decreases es.len() - k,
    {
        let e = &es[k];
        match &e.name {
            Some(n) => {
                if same_chars(n, name) {
                    found = true;
                    if e.kind == EntryKind::File {
                        file = true;
                    }
                }
            },
            None => {},
        }
        k = k + 1;
    }
    (found, file)
}

} // verus!
