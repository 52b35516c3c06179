//! Paths as sequences of components, and the ancestor relation between them.

use vstd::prelude::*;

verus! {

/// The mathematical value of a path: the text of each component, in order.
pub open spec fn path_view(p: Seq<String>) -> Seq<Seq<char>> {
    p.map_values(|s: String| s@)
}

/// `d` is the filesystem root alone: the single component "/".
pub open spec fn is_fs_root(d: Seq<Seq<char>>) -> bool {
    d.len() == 1 && d[0] == seq!['/']
}

/// `d` is a directory above `p`: a non-empty proper prefix of it, other than
/// the filesystem root, where the chain of parents stops.
pub open spec fn is_ancestor(d: Seq<Seq<char>>, p: Seq<Seq<char>>) -> bool {
    &&& 0 < d.len() < p.len()
    &&& d == p.subrange(0, d.len() as int)
    &&& !is_fs_root(d)
}

/// The number of leading components that name a top-level directory of `k`:
/// two below the filesystem root ("/" and a name), one otherwise.
pub open spec fn top_len(k: Seq<Seq<char>>) -> int {
    if k.len() > 0 && k[0] == seq!['/'] {
        2
    } else {
        1
    }
}

/// Whether a component is the filesystem root "/".
pub fn is_root_component(c: &str) -> (r: bool)
    ensures
        r == (c@ == seq!['/']),
{
    broadcast use vstd::string::axiom_spec_iter, vstd::string::next_postcondition;

    let mut it = c.chars();
    match it.next() {
        Some(ch) => {
            if ch != '/' {
                return false;
            }
            match it.next() {
                Some(_) => false,
                None => {
                    assert(c@ =~= seq!['/']);
                    true
                },
            }
        },
        None => false,
    }
}

/// The first `n` components of `p`.
pub fn path_prefix(p: &Vec<String>, n: usize) -> (r: Vec<String>)
    requires
        n <= p.len(),
    ensures
        path_view(r@) == path_view(p@).subrange(0, n as int),
{
    let mut r: Vec<String> = Vec::new();
    let mut i: usize = 0;
    while i < n
        invariant
            0 <= i <= n <= p.len(),
            r@.len() == i,
            path_view(r@) == path_view(p@).subrange(0, i as int),
        decreases n - i,
    {
        let c: String = p[i].clone();
        assert(c@ == p@[i as int]@);
        r.push(c);
        assert(path_view(r@) =~= path_view(p@).subrange(0, i + 1));
        i += 1;
    }
    r
}

/// A copy of `p`.
pub fn copy_path(p: &Vec<String>) -> (r: Vec<String>)
    ensures
        path_view(r@) == path_view(p@),
{
    let r = path_prefix(p, p.len());
    assert(path_view(p@).subrange(0, p@.len() as int) =~= path_view(p@));
    r
}

} // verus!
