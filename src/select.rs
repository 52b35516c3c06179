//! Top-K selection: the K largest entries of a list, largest first. The list
//! is read once into a min-heap of at most K positions, so the work is
//! O(N log K) and the extra space O(K).

use vstd::prelude::*;
use crate::paths::{copy_path, path_view};
use crate::sizes::{files_view, DirSizeMap};

verus! {

/// Entry `a` of `sizes` ranks above entry `b`: it is larger, or equally large
/// and earlier in the list.
pub open spec fn ranks_above(sizes: Seq<u64>, a: int, b: int) -> bool {
    sizes[a] > sizes[b] || (sizes[a] == sizes[b] && a < b)
}

/// Position `j` is one of those listed in `idx`.
pub open spec fn picked(idx: Seq<usize>, j: int) -> bool {
    exists|a: int| 0 <= a < idx.len() && idx[a] == j
}

/// `idx` lists, best first, the `min(k, n)` top-ranked of the first `n`
/// entries of `sizes`.
pub open spec fn is_top_of_prefix(sizes: Seq<u64>, n: int, k: int, idx: Seq<usize>) -> bool {
    &&& idx.len() == if k < n { k } else { n }
    &&& forall|a: int| 0 <= a < idx.len() ==> #[trigger] idx[a] < n
    &&& forall|a: int, b: int|
        #![trigger idx[a], idx[b]]
        0 <= a < b < idx.len() ==> ranks_above(sizes, idx[a] as int, idx[b] as int)
    &&& forall|j: int, a: int|
        #![trigger picked(idx, j), idx[a]]
        0 <= j < n && !picked(idx, j) && 0 <= a < idx.len() ==> ranks_above(sizes, idx[a] as int, j)
    &&& n <= k ==> forall|j: int| 0 <= j < n ==> #[trigger] picked(idx, j)
}

/// `idx` lists, best first, the `min(k, sizes.len())` top-ranked entries of `sizes`.
pub open spec fn is_top_selection(sizes: Seq<u64>, k: int, idx: Seq<usize>) -> bool {
    is_top_of_prefix(sizes, sizes.len() as int, k, idx)
}

/// The position of the parent of node `c` in an array-backed binary tree.
pub open spec fn parent(c: int) -> int {
    (c - 1) / 2
}

/// Positions in `h` are distinct and index into `sizes`.
pub open spec fn well_indexed(sizes: Seq<u64>, h: Seq<usize>) -> bool {
    &&& forall|a: int| 0 <= a < h.len() ==> #[trigger] h[a] < sizes.len()
    &&& forall|a: int, b: int| #![trigger h[a], h[b]] 0 <= a < b < h.len() ==> h[a] != h[b]
}

/// `h` is a min-heap by rank: every node ranks above its parent, so the root
/// is the lowest-ranked entry.
pub open spec fn is_min_heap(sizes: Seq<u64>, h: Seq<usize>) -> bool {
    forall|c: int| 0 < c < h.len() ==> ranks_above(sizes, #[trigger] h[c] as int, h[parent(c)] as int)
}

/// A heap whose one flaw is between `pos` and its parent, while the children
/// of `pos` rank above that parent.
spec fn heap_but_up(sizes: Seq<u64>, h: Seq<usize>, pos: int) -> bool {
    &&& forall|c: int|
        0 < c < h.len() && c != pos ==> ranks_above(sizes, #[trigger] h[c] as int, h[parent(c)] as int)
    &&& forall|c: int|
        0 < c < h.len() && parent(c) == pos && pos > 0 ==> ranks_above(
            sizes,
            #[trigger] h[c] as int,
            h[parent(pos)] as int,
        )
}

/// A heap whose only flaws are between `pos` and its children, while those
/// children rank above the parent of `pos`.
spec fn heap_but_down(sizes: Seq<u64>, h: Seq<usize>, pos: int) -> bool {
    &&& forall|c: int|
        0 < c < h.len() && parent(c) != pos ==> ranks_above(
            sizes,
            #[trigger] h[c] as int,
            h[parent(c)] as int,
        )
    &&& forall|c: int|
        0 < c < h.len() && parent(c) == pos && pos > 0 ==> ranks_above(
            sizes,
            #[trigger] h[c] as int,
            h[parent(pos)] as int,
        )
}

/// Both sequences hold the same positions.
spec fn same_picks(a: Seq<usize>, b: Seq<usize>) -> bool {
    forall|j: int| #[trigger] picked(a, j) <==> picked(b, j)
}

proof fn lemma_swap(h: Seq<usize>, a: int, b: int, sizes: Seq<u64>)
    requires
        0 <= a < h.len(),
        0 <= b < h.len(),
        well_indexed(sizes, h),
    ensures
        same_picks(h.update(a, h[b]).update(b, h[a]), h),
        well_indexed(sizes, h.update(a, h[b]).update(b, h[a])),
        h.update(a, h[b]).update(b, h[a]).len() == h.len(),
{
    let g = h.update(a, h[b]).update(b, h[a]);
    assert forall|j: int| #[trigger] picked(g, j) <==> picked(h, j) by {
        if picked(h, j) {
            let x = choose|x: int| 0 <= x < h.len() && h[x] == j;
            if x == a {
                assert(g[b] == j);
            } else if x == b {
                assert(g[a] == j);
            } else {
                assert(g[x] == j);
            }
        }
        if picked(g, j) {
            let x = choose|x: int| 0 <= x < g.len() && g[x] == j;
            if x == a {
                assert(h[b] == j);
            } else if x == b {
                assert(h[a] == j);
            } else {
                assert(h[x] == j);
            }
        }
    }
    assert forall|x: int, y: int| #![trigger g[x], g[y]] 0 <= x < y < g.len() implies g[x] != g[y] by {
        let hx = if x == a { b } else if x == b { a } else { x };
        let hy = if y == a { b } else if y == b { a } else { y };
        assert(g[x] == h[hx] && g[y] == h[hy]);
        if hx < hy {
            assert(h[hx] != h[hy]);
        } else {
            assert(h[hy] != h[hx]);
        }
    }
    assert forall|x: int| 0 <= x < g.len() implies #[trigger] g[x] < sizes.len() by {
        let hx = if x == a { b } else if x == b { a } else { x };
        assert(g[x] == h[hx]);
    }
}

proof fn lemma_root_lowest(sizes: Seq<u64>, h: Seq<usize>, c: int)
    requires
        is_min_heap(sizes, h),
        well_indexed(sizes, h),
        0 < c < h.len(),
    ensures
        ranks_above(sizes, h[c] as int, h[0] as int),
    decreases c,
{
    let p = parent(c);
    assert(ranks_above(sizes, h[c] as int, h[p] as int));
    if p > 0 {
        lemma_root_lowest(sizes, h, p);
    }
}

fn sift_up(h: &mut Vec<usize>, sizes: &Vec<u64>, pos: usize)
    requires
        well_indexed(sizes@, old(h)@),
        pos < old(h)@.len(),
        heap_but_up(sizes@, old(h)@, pos as int),
    ensures
        well_indexed(sizes@, final(h)@),
        is_min_heap(sizes@, final(h)@),
        same_picks(final(h)@, old(h)@),
        final(h)@.len() == old(h)@.len(),
{
    let mut pos = pos;
    while pos > 0
        invariant
            well_indexed(sizes@, h@),
            pos < h@.len(),
            heap_but_up(sizes@, h@, pos as int),
            same_picks(h@, old(h)@),
            h@.len() == old(h)@.len(),
        decreases pos,
    {
        let p = (pos - 1) / 2;
        let x = h[pos];
        let y = h[p];
        if sizes[x] > sizes[y] || (sizes[x] == sizes[y] && x < y) {
            return;
        }
        let ghost h0 = h@;
        proof {
            lemma_swap(h0, pos as int, p as int, sizes@);
        }
        h.set(pos, y);
        h.set(p, x);
        assert(h@ == h0.update(pos as int, h0[p as int]).update(p as int, h0[pos as int]));
        proof {
            assert(ranks_above(sizes@, y as int, x as int));
            assert forall|c: int| 0 < c < h@.len() && c != p implies ranks_above(
                sizes@,
                #[trigger] h@[c] as int,
                h@[parent(c)] as int,
            ) by {
                if c == pos as int {
                } else if parent(c) == pos as int {
                    assert(ranks_above(sizes@, h0[c] as int, h0[p as int] as int));
                } else if parent(c) == p as int {
                    assert(ranks_above(sizes@, h0[c] as int, h0[p as int] as int));
                } else {
                    assert(h@[c] == h0[c]);
                }
            }
            assert forall|c: int| 0 < c < h@.len() && parent(c) == p && p > 0 implies ranks_above(
                sizes@,
                #[trigger] h@[c] as int,
                h@[parent(p as int)] as int,
            ) by {
                assert(ranks_above(sizes@, h0[p as int] as int, h0[parent(p as int)] as int));
                if c == pos as int {
                } else {
                    assert(ranks_above(sizes@, h0[c] as int, h0[p as int] as int));
                }
            }
        }
        pos = p;
    }
}

fn sift_down(h: &mut Vec<usize>, sizes: &Vec<u64>, pos: usize)
    requires
        well_indexed(sizes@, old(h)@),
        pos < old(h)@.len(),
        heap_but_down(sizes@, old(h)@, pos as int),
    ensures
        well_indexed(sizes@, final(h)@),
        is_min_heap(sizes@, final(h)@),
        same_picks(final(h)@, old(h)@),
        final(h)@.len() == old(h)@.len(),
{
    let mut pos = pos;
    let len = h.len();
    while pos < len
        invariant
            well_indexed(sizes@, h@),
            len == h@.len(),
            pos < len,
            heap_but_down(sizes@, h@, pos as int),
            same_picks(h@, old(h)@),
            h@.len() == old(h)@.len(),
        decreases len - pos,
    {
        let l = if pos < len / 2 { 2 * pos + 1 } else { len };
        if l >= len {
            assert forall|c: int| 0 < c < h@.len() implies ranks_above(
                sizes@,
                #[trigger] h@[c] as int,
                h@[parent(c)] as int,
            ) by {
                assert(parent(c) != pos as int);
            }
            return;
        }
        let r = l + 1;
        let mut m = l;
        if r < len {
            let a = h[r];
            let b = h[l];
            if !(sizes[a] > sizes[b] || (sizes[a] == sizes[b] && a < b)) {
                m = r;
            }
        }
        let x = h[m];
        let y = h[pos];
        if sizes[x] > sizes[y] || (sizes[x] == sizes[y] && x < y) {
            assert forall|c: int| 0 < c < h@.len() implies ranks_above(
                sizes@,
                #[trigger] h@[c] as int,
                h@[parent(c)] as int,
            ) by {
                if parent(c) == pos as int {
                    assert(c == l || c == r);
                    if c != m {
                        assert(ranks_above(sizes@, h@[c] as int, h@[m as int] as int));
                    }
                }
            }
            return;
        }
        let ghost h0 = h@;
        proof {
            lemma_swap(h0, pos as int, m as int, sizes@);
            assert(parent(m as int) == pos as int);
        }
        h.set(pos, x);
        h.set(m, y);
        assert(h@ == h0.update(pos as int, h0[m as int]).update(m as int, h0[pos as int]));
        proof {
            assert(ranks_above(sizes@, y as int, x as int));
            assert forall|c: int| 0 < c < h@.len() && parent(c) != m as int implies ranks_above(
                sizes@,
                #[trigger] h@[c] as int,
                h@[parent(c)] as int,
            ) by {
                if c == m as int {
                } else if c == pos as int {
                    assert(ranks_above(sizes@, h0[m as int] as int, h0[parent(pos as int)] as int));
                } else if parent(c) == pos as int {
                    assert(c == l || c == r);
                    assert(ranks_above(sizes@, h0[c] as int, h0[m as int] as int));
                } else if parent(c) == m as int {
                } else {
                    assert(h@[c] == h0[c]);
                }
            }
            assert forall|c: int| 0 < c < h@.len() && parent(c) == m as int && m > 0 implies ranks_above(
                sizes@,
                #[trigger] h@[c] as int,
                h@[parent(m as int)] as int,
            ) by {
                assert(ranks_above(sizes@, h0[c] as int, h0[m as int] as int));
            }
        }
        pos = m;
    }
}

/// `h` holds the `min(k, n)` top-ranked of the first `n` entries of `sizes`,
/// in any order.
spec fn is_top_set(sizes: Seq<u64>, n: int, k: int, h: Seq<usize>) -> bool {
    &&& h.len() == if k < n { k } else { n }
    &&& forall|a: int| 0 <= a < h.len() ==> #[trigger] h[a] < n
    &&& forall|j: int, a: int|
        #![trigger picked(h, j), h[a]]
        0 <= j < n && !picked(h, j) && 0 <= a < h.len() ==> ranks_above(sizes, h[a] as int, j)
    &&& n <= k ==> forall|j: int| 0 <= j < n ==> #[trigger] picked(h, j)
}

/// Reads `sizes` once, keeping the `k` top-ranked entries seen so far in a
/// min-heap of at most `k` positions: a new entry enters while the heap is
/// short, or in place of the lowest-ranked one when it ranks above it.
fn fill_heap(sizes: &Vec<u64>, k: usize) -> (h: Vec<usize>)
    ensures
        well_indexed(sizes@, h@),
        is_min_heap(sizes@, h@),
        is_top_set(sizes@, sizes@.len() as int, k as int, h@),
{
    let mut h: Vec<usize> = Vec::new();
    let mut i: usize = 0;
    while i < sizes.len()
        invariant
            0 <= i <= sizes.len(),
            well_indexed(sizes@, h@),
            is_min_heap(sizes@, h@),
            is_top_set(sizes@, i as int, k as int, h@),
        decreases sizes.len() - i,
    {
        let ghost h0 = h@;
        let ghost n = i as int;
        if h.len() < k {
            h.push(i);
            let ghost h1 = h@;
            proof {
                assert(h1.drop_last() == h0);
                assert forall|a: int| 0 <= a < h0.len() implies #[trigger] h1[a] == h0[a] by {}
                assert forall|j: int| #[trigger] picked(h1, j) <==> picked(h0, j) || j == n by {
                    if picked(h1, j) && j != n {
                        let x = choose|x: int| 0 <= x < h1.len() && h1[x] == j;
                        assert(h0[x] == j);
                    }
                    if picked(h0, j) {
                        let x = choose|x: int| 0 <= x < h0.len() && h0[x] == j;
                        assert(h1[x] == j);
                    }
                    if j == n {
                        assert(h1[h0.len() as int] == j);
                    }
                }
                assert forall|x: int, y: int| #![trigger h1[x], h1[y]] 0 <= x < y < h1.len() implies h1[x]
                    != h1[y] by {
                    if y == h0.len() {
                        assert(h0[x] < n);
                    }
                }
            }
            let last = h.len() - 1;
            sift_up(&mut h, sizes, last);
            proof {
                assert forall|j: int| 0 <= j < n + 1 implies #[trigger] picked(h@, j) by {
                    assert(picked(h1, j));
                }
                assert forall|a: int| 0 <= a < h@.len() implies #[trigger] h@[a] < n + 1 by {
                    assert(picked(h@, h@[a] as int));
                    assert(picked(h1, h@[a] as int));
                }
            }
        } else if k > 0 && sizes[i] > sizes[h[0]] {
            let ghost r0 = h0[0] as int;
            h.set(0, i);
            let ghost h1 = h@;
            proof {
                assert forall|j: int| #[trigger] picked(h1, j) <==> (picked(h0, j) && j != r0) || j == n by {
                    if picked(h1, j) && j != n {
                        let x = choose|x: int| 0 <= x < h1.len() && h1[x] == j;
                        assert(h0[x] == j);
                    }
                    if picked(h0, j) && j != r0 {
                        let x = choose|x: int| 0 <= x < h0.len() && h0[x] == j;
                        assert(h1[x] == j);
                    }
                    if j == n {
                        assert(h1[0] == j);
                    }
                }
                assert forall|x: int, y: int| #![trigger h1[x], h1[y]] 0 <= x < y < h1.len() implies h1[x]
                    != h1[y] by {
                    if x == 0 {
                        assert(h0[y] < n);
                    }
                }
                assert forall|c: int| 0 <= c < h1.len() implies #[trigger] h1[c] < sizes@.len() by {}
            }
            sift_down(&mut h, sizes, 0);
            proof {
                assert forall|a: int| 0 <= a < h@.len() implies #[trigger] h@[a] < n + 1 by {
                    assert(picked(h@, h@[a] as int));
                    assert(picked(h1, h@[a] as int));
                }
                assert forall|a: int| 0 <= a < h@.len() implies ranks_above(
                    sizes@,
                    #[trigger] h@[a] as int,
                    r0,
                ) by {
                    let v = h@[a] as int;
                    assert(picked(h@, v));
                    assert(picked(h1, v));
                    if v != n {
                        let c = choose|c: int| 0 <= c < h0.len() && h0[c] == v;
                        if c == 0 {
                            assert(false);
                        } else {
                            lemma_root_lowest(sizes@, h0, c);
                        }
                    }
                }
                assert forall|j: int, a: int|
                    #![trigger picked(h@, j), h@[a]]
                    0 <= j < n + 1 && !picked(h@, j) && 0 <= a < h@.len() implies ranks_above(
                    sizes@,
                    h@[a] as int,
                    j,
                ) by {
                    assert(ranks_above(sizes@, h@[a] as int, r0));
                    if j != r0 {
                        assert(!picked(h1, j));
                        assert(!picked(h0, j));
                        assert(ranks_above(sizes@, h0[0] as int, j));
                    }
                }
            }
        } else {
            proof {
                assert forall|a: int| 0 <= a < h@.len() implies ranks_above(
                    sizes@,
                    #[trigger] h@[a] as int,
                    n,
                ) by {
                    assert(ranks_above(sizes@, h@[0] as int, n));
                    if a > 0 {
                        lemma_root_lowest(sizes@, h@, a);
                    }
                }
                assert forall|j: int, a: int|
                    #![trigger picked(h@, j), h@[a]]
                    0 <= j < n + 1 && !picked(h@, j) && 0 <= a < h@.len() implies ranks_above(
                    sizes@,
                    h@[a] as int,
                    j,
                ) by {
                    if j == n {
                        assert(ranks_above(sizes@, h@[a] as int, n));
                    }
                }
            }
        }
        i += 1;
    }
    h
}

/// Positions of the `k` largest entries of `sizes`, largest first; among equal
/// sizes the earlier entry comes first. The entries are read once into a
/// min-heap of at most `k` positions, which is then drained and reversed.
pub fn select_top(sizes: &Vec<u64>, k: usize) -> (idx: Vec<usize>)
    ensures
        is_top_selection(sizes@, k as int, idx@),
{
    let mut h = fill_heap(sizes, k);
    let ghost full = h@;
    let ghost n = sizes@.len() as int;
    let mut asc: Vec<usize> = Vec::new();
    while h.len() > 0
        invariant
            well_indexed(sizes@, h@),
            is_min_heap(sizes@, h@),
            asc@.len() + h@.len() == full.len(),
            forall|a: int| 0 <= a < asc@.len() ==> #[trigger] asc@[a] < sizes@.len(),
            forall|a: int, b: int|
                #![trigger asc@[a], asc@[b]]
                0 <= a < b < asc@.len() ==> ranks_above(sizes@, asc@[b] as int, asc@[a] as int),
            forall|a: int, b: int|
                #![trigger asc@[a], h@[b]]
                0 <= a < asc@.len() && 0 <= b < h@.len() ==> ranks_above(
                    sizes@,
                    h@[b] as int,
                    asc@[a] as int,
                ),
            forall|j: int| #[trigger] picked(full, j) <==> picked(asc@, j) || picked(h@, j),
        decreases h.len(),
    {
        let ghost h0 = h@;
        let ghost a0 = asc@;
        let top = h[0];
        let last = h.len() - 1;
        let moved = h[last];
        h.set(0, moved);
        h.pop();
        let ghost h1 = h@;
        proof {
            assert forall|c: int| 0 <= c < h1.len() implies #[trigger] h1[c] == if c == 0 {
                h0[last as int]
            } else {
                h0[c]
            } by {}
            assert forall|j: int| picked(h0, j) <==> #[trigger] picked(h1, j) || j == top by {
                if picked(h0, j) && j != top {
                    let x = choose|x: int| 0 <= x < h0.len() && h0[x] == j;
                    if x == last {
                        assert(h1[0] == j);
                    } else {
                        assert(x != 0);
                        assert(h1[x] == j);
                    }
                }
                if picked(h1, j) {
                    let x = choose|x: int| 0 <= x < h1.len() && h1[x] == j;
                    if x == 0 {
                        assert(h0[last as int] == j);
                    } else {
                        assert(h0[x] == j);
                    }
                }
                if j == top {
                    assert(h0[0] == j);
                }
            }
            assert forall|c: int| 0 < c < h0.len() implies ranks_above(sizes@, #[trigger] h0[c] as int, top as int) by {
                lemma_root_lowest(sizes@, h0, c);
            }
            assert forall|x: int, y: int| #![trigger h1[x], h1[y]] 0 <= x < y < h1.len() implies h1[x]
                != h1[y] by {
                if x == 0 {
                    assert(h0[last as int] != h0[y]);
                } else {
                    assert(h0[x] != h0[y]);
                }
            }
            assert forall|c: int| 0 <= c < h1.len() implies #[trigger] h1[c] < sizes@.len() by {
                if c == 0 {
                    assert(h0[last as int] < sizes@.len());
                } else {
                    assert(h0[c] < sizes@.len());
                }
            }
            assert forall|c: int| 0 < c < h1.len() && parent(c) != 0 implies ranks_above(
                sizes@,
                #[trigger] h1[c] as int,
                h1[parent(c)] as int,
            ) by {
                assert(ranks_above(sizes@, h0[c] as int, h0[parent(c)] as int));
            }
            assert(heap_but_down(sizes@, h1, 0));
        }
        if h.len() > 0 {
            sift_down(&mut h, sizes, 0);
        }
        asc.push(top);
        proof {
            assert(asc@[a0.len() as int] == top);
            assert forall|a: int| 0 <= a < a0.len() implies #[trigger] asc@[a] == a0[a] by {}
            assert forall|j: int| picked(h1, j) <==> #[trigger] picked(h@, j) by {
                if h1.len() == 0 {
                    assert(h@ == h1);
                }
            }
            assert forall|j: int| #[trigger] picked(asc@, j) <==> picked(a0, j) || j == top by {
                if picked(asc@, j) && j != top {
                    let x = choose|x: int| 0 <= x < asc@.len() && asc@[x] == j;
                    assert(a0[x] == j);
                }
                if picked(a0, j) {
                    let x = choose|x: int| 0 <= x < a0.len() && a0[x] == j;
                    assert(asc@[x] == j);
                }
            }
            assert forall|a: int, b: int|
                #![trigger asc@[a], h@[b]]
                0 <= a < asc@.len() && 0 <= b < h@.len() implies ranks_above(
                sizes@,
                h@[b] as int,
                asc@[a] as int,
            ) by {
                let v = h@[b] as int;
                assert(picked(h@, v));
                assert(picked(h1, v));
                let c = choose|c: int| 0 <= c < h1.len() && h1[c] == v;
                let c0 = if c == 0 { last as int } else { c };
                assert(h0[c0] == v);
                if c0 == 0 {
                    assert(false);
                }
                assert(ranks_above(sizes@, v, top as int));
                if a < a0.len() {
                    assert(ranks_above(sizes@, h0[0] as int, a0[a] as int));
                }
            }
            assert forall|a: int, b: int|
                #![trigger asc@[a], asc@[b]]
                0 <= a < b < asc@.len() implies ranks_above(sizes@, asc@[b] as int, asc@[a] as int) by {
                if b == a0.len() {
                    assert(ranks_above(sizes@, h0[0] as int, a0[a] as int));
                }
            }
        }
    }
    let mut idx: Vec<usize> = Vec::new();
    let mut t: usize = asc.len();
    while t > 0
        invariant
            t <= asc@.len(),
            idx@.len() == asc@.len() - t,
            forall|a: int| 0 <= a < idx@.len() ==> #[trigger] idx@[a] == asc@[asc@.len() - 1 - a],
        decreases t,
    {
        t -= 1;
        idx.push(asc[t]);
    }
    proof {
        let m = asc@.len() as int;
        assert(h@.len() == 0);
        assert forall|j: int| #[trigger] picked(idx@, j) <==> picked(full, j) by {
            if picked(idx@, j) {
                let x = choose|x: int| 0 <= x < idx@.len() && idx@[x] == j;
                assert(asc@[m - 1 - x] == j);
            }
            if picked(full, j) {
                let x = choose|x: int| 0 <= x < asc@.len() && asc@[x] == j;
                assert(idx@[m - 1 - x] == j);
            }
        }
        assert forall|a: int| 0 <= a < idx@.len() implies #[trigger] idx@[a] < n by {
            assert(picked(full, idx@[a] as int));
            let x = choose|x: int| 0 <= x < full.len() && full[x] == idx@[a];
        }
        assert forall|a: int, b: int|
            #![trigger idx@[a], idx@[b]]
            0 <= a < b < idx@.len() implies ranks_above(sizes@, idx@[a] as int, idx@[b] as int) by {
            assert(ranks_above(sizes@, asc@[m - 1 - a] as int, asc@[m - 1 - b] as int));
        }
        assert forall|j: int, a: int|
            #![trigger picked(idx@, j), idx@[a]]
            0 <= j < n && !picked(idx@, j) && 0 <= a < idx@.len() implies ranks_above(
            sizes@,
            idx@[a] as int,
            j,
        ) by {
            assert(picked(full, idx@[a] as int));
            let x = choose|x: int| 0 <= x < full.len() && full[x] == idx@[a];
            assert(!picked(full, j));
            assert(ranks_above(sizes@, full[x] as int, j));
        }
    }
    idx
}

/// The sizes of a list of (path, size) pairs.
pub open spec fn sizes_of(files: Seq<(Seq<Seq<char>>, u64)>) -> Seq<u64> {
    files.map_values(|e: (Seq<Seq<char>>, u64)| e.1)
}

/// The mathematical value of a ranked list of (size, path) pairs.
pub open spec fn ranked_view(out: Seq<(u64, Vec<String>)>) -> Seq<(u64, Seq<Seq<char>>)> {
    out.map_values(|e: (u64, Vec<String>)| (e.0, path_view(e.1@)))
}

/// `out` holds, in order, the entries of `files` at the positions `idx`, each
/// turned into (size, path).
pub open spec fn lists_picks(
    files: Seq<(Seq<Seq<char>>, u64)>,
    idx: Seq<usize>,
    out: Seq<(u64, Seq<Seq<char>>)>,
) -> bool {
    &&& out.len() == idx.len()
    &&& forall|a: int|
        #![trigger out[a]]
        0 <= a < out.len() ==> idx[a] < files.len() && out[a] == (
            files[idx[a] as int].1,
            files[idx[a] as int].0,
        )
}

/// `out` is the top `k` of `files`: the `min(k, n)` top-ranked entries as
/// (size, path), largest first, the earlier entry first among equal sizes.
pub open spec fn is_top_k(
    files: Seq<(Seq<Seq<char>>, u64)>,
    k: int,
    out: Seq<(u64, Seq<Seq<char>>)>,
) -> bool {
    exists|idx: Seq<usize>| is_top_selection(sizes_of(files), k, idx) && lists_picks(files, idx, out)
}

fn pick_files(files: &[(Vec<String>, u64)], idx: &Vec<usize>) -> (r: Vec<(u64, Vec<String>)>)
    requires
        forall|a: int| 0 <= a < idx@.len() ==> #[trigger] idx@[a] < files@.len(),
    ensures
        lists_picks(files_view(files@), idx@, ranked_view(r@)),
{
    let mut r: Vec<(u64, Vec<String>)> = Vec::new();
    let mut a: usize = 0;
    while a < idx.len()
        invariant
            0 <= a <= idx.len(),
            r@.len() == a,
            forall|b: int| 0 <= b < idx@.len() ==> #[trigger] idx@[b] < files@.len(),
            forall|b: int|
                #![trigger r@[b]]
                0 <= b < a ==> (r@[b].0, path_view(r@[b].1@)) == (
                    files_view(files@)[idx@[b] as int].1,
                    files_view(files@)[idx@[b] as int].0,
                ),
        decreases idx.len() - a,
    {
        let j = idx[a];
        let path = copy_path(&files[j].0);
        r.push((files[j].1, path));
        a += 1;
    }
    let ghost out = ranked_view(r@);
    assert forall|b: int| 0 <= b < out.len() implies #[trigger] out[b] == (
        files_view(files@)[idx@[b] as int].1,
        files_view(files@)[idx@[b] as int].0,
    ) by {
        assert(r@[b].0 == out[b].0);
    }
    r
}

/// The `top_n` largest files, largest first, as (size, path). Among files of
/// equal size the one listed first comes first.
pub fn get_top_files(files: &[(Vec<String>, u64)], top_n: usize) -> (r: Vec<(u64, Vec<String>)>)
    ensures
        is_top_k(files_view(files@), top_n as int, ranked_view(r@)),
        r@.len() == if top_n < files@.len() { top_n as int } else { files@.len() as int },
        forall|a: int, b: int| 0 <= a < b < r@.len() ==> #[trigger] r@[a].0 >= #[trigger] r@[b].0,
{
    let ghost fv = files_view(files@);
    let mut sizes: Vec<u64> = Vec::new();
    let mut i: usize = 0;
    while i < files.len()
        invariant
            0 <= i <= files@.len(),
            sizes@ == sizes_of(fv).subrange(0, i as int),
            fv == files_view(files@),
        decreases files.len() - i,
    {
        sizes.push(files[i].1);
        assert(sizes@ =~= sizes_of(fv).subrange(0, i + 1));
        i += 1;
    }
    assert(sizes@ =~= sizes_of(fv));
    let idx = select_top(&sizes, top_n);
    let r = pick_files(files, &idx);
    proof {
        lemma_top_k_shape(fv, top_n as int, ranked_view(r@), idx@);
        assert forall|a: int| 0 <= a < r@.len() implies #[trigger] r@[a].0 == ranked_view(r@)[a].0 by {}
    }
    r
}

/// The `top_n` largest directories of `folders`, largest first, as (size, path).
/// Among directories of equal size the one recorded first comes first.
pub fn get_top_folders(folders: &DirSizeMap, top_n: usize) -> (r: Vec<(u64, Vec<String>)>)
    requires
        folders.wf(),
    ensures
        is_top_k(folders.entry_seq(), top_n as int, ranked_view(r@)),
        r@.len() == if top_n < folders.entry_seq().len() {
            top_n as int
        } else {
            folders.entry_seq().len() as int
        },
        forall|a: int, b: int| 0 <= a < b < r@.len() ==> #[trigger] r@[a].0 >= #[trigger] r@[b].0,
        top_k_of_map(folders@, top_n as int, ranked_view(r@)),
{
    let ghost es = folders.entry_seq();
    let mut sizes: Vec<u64> = Vec::new();
    let mut i: usize = 0;
    while i < folders.len()
        invariant
            0 <= i <= es.len(),
            folders.wf(),
            es == folders.entry_seq(),
            sizes@ == sizes_of(es).subrange(0, i as int),
        decreases es.len() - i,
    {
        sizes.push(folders.entry_size(i));
        assert(sizes@ =~= sizes_of(es).subrange(0, i + 1));
        i += 1;
    }
    assert(sizes@ =~= sizes_of(es));
    let idx = select_top(&sizes, top_n);
    let mut r: Vec<(u64, Vec<String>)> = Vec::new();
    let mut a: usize = 0;
    while a < idx.len()
        invariant
            0 <= a <= idx.len(),
            folders.wf(),
            es == folders.entry_seq(),
            r@.len() == a,
            is_top_selection(sizes_of(es), top_n as int, idx@),
            forall|b: int|
                #![trigger r@[b]]
                0 <= b < a ==> (r@[b].0, path_view(r@[b].1@)) == (
                    es[idx@[b] as int].1,
                    es[idx@[b] as int].0,
                ),
        decreases idx.len() - a,
    {
        let j = idx[a];
        let path = copy_path(folders.entry_path(j));
        r.push((folders.entry_size(j), path));
        a += 1;
    }
    proof {
        let out = ranked_view(r@);
        assert forall|b: int| 0 <= b < out.len() implies #[trigger] out[b] == (
            es[idx@[b] as int].1,
            es[idx@[b] as int].0,
        ) by {
            assert(r@[b].0 == out[b].0);
        }
        lemma_top_k_shape(es, top_n as int, out, idx@);
        assert forall|a: int| 0 <= a < r@.len() implies #[trigger] r@[a].0 == out[a].0 by {}
        lemma_top_k_of_map(folders, top_n as int, out);
    }
    r
}

/// Some entry of `out` has the directory `d`.
pub open spec fn lists_path(out: Seq<(u64, Seq<Seq<char>>)>, d: Seq<Seq<char>>) -> bool {
    exists|a: int| 0 <= a < out.len() && out[a].1 == d
}

/// `out` is a top-`k` list of the map `m`, told in terms of the map alone:
/// it has `min(k, |m|)` entries, each a distinct directory of the map with its
/// bytes, sorted from largest to smallest; no directory left out is larger
/// than one listed; and when `k` covers the map, every directory is listed.
pub open spec fn top_k_of_map(
    m: Map<Seq<Seq<char>>, u64>,
    k: int,
    out: Seq<(u64, Seq<Seq<char>>)>,
) -> bool {
    &&& out.len() == if k < m.dom().len() { k } else { m.dom().len() as int }
    &&& forall|a: int|
        0 <= a < out.len() ==> m.contains_key(#[trigger] out[a].1) && m[out[a].1] == out[a].0
    &&& forall|a: int, b: int| 0 <= a < b < out.len() ==> #[trigger] out[a].1 != #[trigger] out[b].1
    &&& forall|a: int, b: int| 0 <= a < b < out.len() ==> #[trigger] out[a].0 >= #[trigger] out[b].0
    &&& forall|d: Seq<Seq<char>>, a: int|
        #![trigger m[d], out[a]]
        m.contains_key(d) && !lists_path(out, d) && 0 <= a < out.len() ==> m[d] <= out[a].0
    &&& k >= m.dom().len() ==> forall|d: Seq<Seq<char>>|
        #[trigger] m.contains_key(d) ==> in_list(out, m[d], d)
}

proof fn lemma_top_k_of_map(folders: &DirSizeMap, k: int, out: Seq<(u64, Seq<Seq<char>>)>)
    requires
        folders.wf(),
        0 <= k,
        is_top_k(folders.entry_seq(), k, out),
    ensures
        top_k_of_map(folders@, k, out),
{
    let es = folders.entry_seq();
    let m = folders@;
    folders.lemma_entries_are_the_map();
    let idx = choose|idx: Seq<usize>| is_top_selection(sizes_of(es), k, idx) && lists_picks(es, idx, out);
    lemma_top_k_shape(es, k, out, idx);
    assert forall|a: int| 0 <= a < out.len() implies m.contains_key(#[trigger] out[a].1) && m[out[a].1]
        == out[a].0 by {
        assert(out[a] == (es[idx[a] as int].1, es[idx[a] as int].0));
    }
    assert forall|a: int, b: int| 0 <= a < b < out.len() implies #[trigger] out[a].1 != #[trigger] out[b].1 by {
        assert(ranks_above(sizes_of(es), idx[a] as int, idx[b] as int));
        assert(out[a] == (es[idx[a] as int].1, es[idx[a] as int].0));
        assert(out[b] == (es[idx[b] as int].1, es[idx[b] as int].0));
        if idx[a] < idx[b] {
            assert(es[idx[a] as int].0 != es[idx[b] as int].0);
        } else {
            assert(es[idx[b] as int].0 != es[idx[a] as int].0);
        }
    }
    assert forall|d: Seq<Seq<char>>, a: int|
        #![trigger m[d], out[a]]
        m.contains_key(d) && !lists_path(out, d) && 0 <= a < out.len() implies m[d] <= out[a].0 by {
        let i = choose|i: int| 0 <= i < es.len() && es[i].0 == d;
        assert(m[es[i].0] == es[i].1);
        if picked(idx, i) {
            let b = choose|b: int| 0 <= b < idx.len() && idx[b] == i;
            assert(out[b] == (es[idx[b] as int].1, es[idx[b] as int].0));
            assert(lists_path(out, d));
        }
        assert(ranks_above(sizes_of(es), idx[a] as int, i));
        assert(out[a] == (es[idx[a] as int].1, es[idx[a] as int].0));
    }
    if k >= m.dom().len() {
        assert forall|d: Seq<Seq<char>>| #[trigger] m.contains_key(d) implies in_list(out, m[d], d) by {
            let i = choose|i: int| 0 <= i < es.len() && es[i].0 == d;
            assert(m[es[i].0] == es[i].1);
            assert(picked(idx, i));
            let b = choose|b: int| 0 <= b < idx.len() && idx[b] == i;
            assert(out[b] == (es[idx[b] as int].1, es[idx[b] as int].0));
        }
    }
}

proof fn lemma_top_k_shape(
    files: Seq<(Seq<Seq<char>>, u64)>,
    k: int,
    out: Seq<(u64, Seq<Seq<char>>)>,
    idx: Seq<usize>,
)
    requires
        is_top_selection(sizes_of(files), k, idx),
        lists_picks(files, idx, out),
    ensures
        is_top_k(files, k, out),
        out.len() == if k < files.len() { k } else { files.len() as int },
        forall|a: int, b: int| 0 <= a < b < out.len() ==> #[trigger] out[a].0 >= #[trigger] out[b].0,
{
    assert forall|a: int, b: int| 0 <= a < b < out.len() implies #[trigger] out[a].0 >= #[trigger] out[b].0 by {
        assert(ranks_above(sizes_of(files), idx[a] as int, idx[b] as int));
    }
}

/// A top-`k` list has `min(k, n)` entries, is sorted by size from largest to
/// smallest, and each of its entries is at least as large as every entry of
/// the input that it left out.
pub proof fn top_k_is_short_sorted_and_dominant(
    files: Seq<(Seq<Seq<char>>, u64)>,
    k: int,
    out: Seq<(u64, Seq<Seq<char>>)>,
)
    requires
        0 <= k,
        is_top_k(files, k, out),
    ensures
        out.len() == if k < files.len() { k } else { files.len() as int },
        forall|a: int, b: int| 0 <= a < b < out.len() ==> #[trigger] out[a].0 >= #[trigger] out[b].0,
        exists|idx: Seq<usize>|
            lists_picks(files, idx, out) && forall|j: int, a: int|
                #![trigger picked(idx, j), out[a]]
                0 <= j < files.len() && !picked(idx, j) && 0 <= a < out.len() ==> out[a].0
                    >= files[j].1,
{
    let idx = choose|idx: Seq<usize>| is_top_selection(sizes_of(files), k, idx) && lists_picks(files, idx, out);
    lemma_top_k_shape(files, k, out, idx);
    assert forall|j: int, a: int|
        #![trigger picked(idx, j), out[a]]
        0 <= j < files.len() && !picked(idx, j) && 0 <= a < out.len() implies out[a].0 >= files[j].1 by {
        assert(ranks_above(sizes_of(files), idx[a] as int, j));
    }
}

/// `(size, path)` is one of the entries of `out`.
pub open spec fn in_list(out: Seq<(u64, Seq<Seq<char>>)>, size: u64, path: Seq<Seq<char>>) -> bool {
    exists|a: int| 0 <= a < out.len() && out[a] == (size, path)
}

/// A top-0 list is empty; a top-`k` list with `k` at least the input's length
/// holds every input entry, sorted by size from largest to smallest.
pub proof fn top_k_edge_cases(
    files: Seq<(Seq<Seq<char>>, u64)>,
    k: int,
    out: Seq<(u64, Seq<Seq<char>>)>,
)
    requires
        0 <= k,
        is_top_k(files, k, out),
    ensures
        k == 0 ==> out.len() == 0,
        k >= files.len() ==> out.len() == files.len(),
        k >= files.len() ==> forall|j: int|
            0 <= j < files.len() ==> #[trigger] in_list(out, files[j].1, files[j].0),
        forall|a: int, b: int| 0 <= a < b < out.len() ==> #[trigger] out[a].0 >= #[trigger] out[b].0,
{
    let idx = choose|idx: Seq<usize>| is_top_selection(sizes_of(files), k, idx) && lists_picks(files, idx, out);
    lemma_top_k_shape(files, k, out, idx);
    if k >= files.len() {
        assert forall|j: int|
            0 <= j < files.len() implies #[trigger] in_list(out, files[j].1, files[j].0) by {
            assert(picked(idx, j));
            let a = choose|a: int| 0 <= a < idx.len() && idx[a] == j;
            assert(out[a] == (files[j].1, files[j].0));
        }
    }
}

} // verus!
