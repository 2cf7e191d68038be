use vstd::prelude::*;

verus! {

/// The literal text between a base name and its date: `.backup.`.
pub open spec fn marker() -> Seq<char> {
    seq!['.', 'b', 'a', 'c', 'k', 'u', 'p', '.']
}

pub open spec fn is_digit(c: char) -> bool {
    '0' <= c && c <= '9'
}

/// Exactly eight ASCII decimal digits.
pub open spec fn is_date(d: Seq<char>) -> bool {
    d.len() == 8 && forall|i: int| 0 <= i < 8 ==> is_digit(#[trigger] d[i])
}

/// The base of a backup name `<base>.backup.<8 digits>`, matched against the
/// whole name; `None` when the name has another shape or an empty base.
pub open spec fn backup_base(s: Seq<char>) -> Option<Seq<char>> {
    if s.len() > 16 && s.subrange(s.len() - 16, s.len() - 8) == marker() && is_date(
        s.subrange(s.len() - 8, s.len() as int),
    ) {
        Some(s.subrange(0, s.len() - 16))
    } else {
        None
    }
}

/// Returns the base name when `name` is `<base>.backup.<8 digits>` with a
/// non-empty base, and `None` otherwise.
pub fn classify(name: &Vec<char>) -> (r: Option<Vec<char>>)
    ensures
        r is Some <==> backup_base(name@) is Some,
        r is Some ==> r->0@ == backup_base(name@)->0,
{
    let n = name.len();
    if n <= 16 {
        return None;
    }
    let mark: Vec<char> = vec!['.', 'b', 'a', 'c', 'k', 'u', 'p', '.'];
    let start = n - 16;
    let mut i: usize = 0;
    while i < 8
        invariant
            i <= 8,
            n == name@.len(),
            n > 16,
            start == n - 16,
            mark@ == marker(),
            forall|j: int| 0 <= j < i ==> name@[start + j] == marker()[j],
        decreases 8 - i,
    {
        if name[start + i] != mark[i] {
            assert(name@.subrange(n - 16, n - 8)[i as int] != marker()[i as int]);
            return None;
        }
        i = i + 1;
    }
    assert(name@.subrange(n - 16, n - 8) =~= marker());
    let mut k: usize = n - 8;
    while k < n
        invariant
            n - 8 <= k <= n,
            n == name@.len(),
            n > 16,
            forall|j: int| n - 8 <= j < k ==> is_digit(#[trigger] name@[j]),
        decreases n - k,
    {
        let c = name[k];
        if !('0' <= c && c <= '9') {
            assert(!is_digit(name@.subrange(n - 8, n as int)[k - (n - 8)]));
            return None;
        }
        k = k + 1;
    }
    assert(is_date(name@.subrange(n - 8, n as int)));
    let mut base: Vec<char> = Vec::new();
    let mut m: usize = 0;
    while m < start
        invariant
            m <= start,
            start == n - 16,
            n == name@.len(),
            base@ == name@.subrange(0, m as int),
        decreases start - m,
    {
        base.push(name[m]);
        m = m + 1;
        assert(base@ =~= name@.subrange(0, m as int));
    }
    Some(base)
}

/// A name is classified with base `b` exactly when it is `b`, then `.backup.`,
/// then eight decimal digits, with `b` non-empty.
pub proof fn classify_shape(s: Seq<char>, b: Seq<char>)
    ensures
        backup_base(s) == Some(b) <==> (b.len() > 0 && exists|d: Seq<char>|
            is_date(d) && s == b + marker() + d),
{
    if backup_base(s) == Some(b) {
        let d = s.subrange(s.len() - 8, s.len() as int);
        assert(s =~= b + marker() + d);
    }
    if b.len() > 0 && exists|d: Seq<char>| is_date(d) && s == b + marker() + d {
        let d = choose|d: Seq<char>| is_date(d) && s == b + marker() + d;
        assert(s.subrange(s.len() - 16, s.len() - 8) =~= marker());
        assert(s.subrange(s.len() - 8, s.len() as int) =~= d);
        assert(s.subrange(0, s.len() - 16) =~= b);
    }
}

} // verus!
