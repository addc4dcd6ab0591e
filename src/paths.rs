//! Whether a path lies within a directory, judged by whole components as
//! `Path::starts_with` judges them.

use vstd::prelude::*;
use crate::text::{find_char, find_char_from, same_chars, slice, to_chars};

verus! {

/// The names between the `'/'` separators of `p` from index `i` on, empty
/// ones dropped.
pub open spec fn names_from(p: Seq<char>, i: int) -> Seq<Seq<char>>
    decreases p.len() - i,
{
    if i < 0 || i >= p.len() {
        Seq::empty()
    } else {
        let n = find_char(p, i, '/');
        if i <= n < p.len() {
            if n == i {
                names_from(p, n + 1)
            } else {
                seq![p.subrange(i, n)] + names_from(p, n + 1)
            }
        } else {
            seq![p.subrange(i, p.len() as int)]
        }
    }
}

/// The components of a path: a root component `"/"` for an absolute path,
/// then its names. Paths here hold no `.` or `..` names, as canonical
/// paths do not.
pub open spec fn components(p: Seq<char>) -> Seq<Seq<char>> {
    if p.len() > 0 && p[0] == '/' {
        seq![seq!['/']] + names_from(p, 0)
    } else {
        names_from(p, 0)
    }
}

/// `root`'s components are the first components of `p`.
pub open spec fn within(root: Seq<char>, p: Seq<char>) -> bool {
    let a = components(root);
    let b = components(p);
    a.len() <= b.len() && b.subrange(0, a.len() as int) == a
}

fn component_list(p: &Vec<char>) -> (r: Vec<Vec<char>>)
    ensures
        Seq::new(r@.len(), |k: int| r@[k]@) == components(p@),
{
    let mut out: Vec<Vec<char>> = Vec::new();
    if p.len() > 0 && p[0] == '/' {
        out.push(vec!['/']);
    }
    let ghost head = Seq::new(out@.len(), |k: int| out@[k]@);
    assert(head + names_from(p@, 0) =~= components(p@)) by {
        if p@.len() > 0 && p@[0] == '/' {
            assert(out@[0]@ =~= seq!['/']);
            assert(head =~= seq![seq!['/']]);
        } else {
            assert(head =~= Seq::<Seq<char>>::empty());
        }
    }
    let mut i: usize = 0;
    while i < p.len()
        invariant
            i <= p.len(),
            Seq::new(out@.len(), |k: int| out@[k]@) + names_from(p@, i as int) == components(p@),
        decreases p.len() - i,
    {
        let ghost before = Seq::new(out@.len(), |k: int| out@[k]@);
        let n = find_char_from(p, i, '/');
        if n < p.len() {
            if n > i {
                let name = slice(p, i, n);
                out.push(name);
                assert(Seq::new(out@.len(), |k: int| out@[k]@) =~= before.push(name@));
                assert(before.push(name@) + names_from(p@, n + 1) =~= before + (seq![name@]
                    + names_from(p@, n + 1)));
            }
            i = n + 1;
        } else {
            let name = slice(p, i, p.len());
            out.push(name);
            assert(Seq::new(out@.len(), |k: int| out@[k]@) =~= before.push(name@));
            assert(names_from(p@, p.len() as int) =~= Seq::<Seq<char>>::empty());
            assert(before.push(name@) + Seq::<Seq<char>>::empty() =~= before + seq![name@]);
            i = p.len();
        }
    }
    assert(names_from(p@, i as int) =~= Seq::<Seq<char>>::empty());
    assert(Seq::new(out@.len(), |k: int| out@[k]@) + Seq::<Seq<char>>::empty() =~= Seq::new(
        out@.len(),
        |k: int| out@[k]@,
    ));
    out
}

/// Whether `path` lies within `root`: every component of `root` is, in
/// order, a leading component of `path`. The rule that keeps file reads
/// inside the indexed tree.
pub fn path_within(root: &str, path: &str) -> (r: bool)
    ensures
        r == within(root@, path@),
{
    let a = component_list(&to_chars(root));
    let b = component_list(&to_chars(path));
    let ghost av = Seq::new(a@.len(), |k: int| a@[k]@);
    let ghost bv = Seq::new(b@.len(), |k: int| b@[k]@);
    if a.len() > b.len() {
        return false;
    }
    let mut k: usize = 0;
    while k < a.len()
        invariant
            a.len() <= b.len(),
            k <= a.len(),
            av == Seq::new(a@.len(), |k: int| a@[k]@),
            bv == Seq::new(b@.len(), |k: int| b@[k]@),
            av == components(root@),
            bv == components(path@),
            forall|m: int| 0 <= m < k ==> av[m] == bv[m],
        decreases a.len() - k,
    {
        if !same_chars(&a[k], &b[k]) {
            assert(av[k as int] == a@[k as int]@);
            assert(bv[k as int] == b@[k as int]@);
            assert(bv.subrange(0, av.len() as int)[k as int] != av[k as int]);
            assert(bv.subrange(0, av.len() as int) != av);
            return false;
        }
        k = k + 1;
    }
    assert(bv.subrange(0, av.len() as int) =~= av);
    true
}

} // verus!
