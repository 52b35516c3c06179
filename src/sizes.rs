//! The directory-size map: for each directory, the bytes of all files beneath it.

use vstd::prelude::*;
use crate::cli::is_hidden_name;
use crate::paths::{is_ancestor, is_fs_root, is_root_component, path_prefix, path_view, top_len};
use crate::select::picked;

verus! {

/// The bytes recorded for `k` in `m`, or zero where `k` has no entry.
pub open spec fn size_or_zero(m: Map<Seq<Seq<char>>, u64>, k: Seq<Seq<char>>) -> int {
    if m.contains_key(k) {
        m[k] as int
    } else {
        0
    }
}

/// Sum of the sizes of the files in `files` that lie beneath directory `d`.
pub open spec fn bytes_beneath(files: Seq<(Seq<Seq<char>>, u64)>, d: Seq<Seq<char>>) -> int
    decreases files.len(),
{
    if files.len() == 0 {
        0
    } else {
        let last = files.last();
        bytes_beneath(files.drop_last(), d) + if is_ancestor(d, last.0) {
            last.1 as int
        } else {
            0
        }
    }
}

/// Sum of the sizes of all files in `files`.
pub open spec fn total_bytes(files: Seq<(Seq<Seq<char>>, u64)>) -> int
    decreases files.len(),
{
    if files.len() == 0 {
        0
    } else {
        total_bytes(files.drop_last()) + files.last().1 as int
    }
}

/// The mathematical value of a list of (path, size) pairs.
pub open spec fn files_view(files: Seq<(Vec<String>, u64)>) -> Seq<(Seq<Seq<char>>, u64)> {
    files.map_values(|e: (Vec<String>, u64)| (path_view(e.0@), e.1))
}

/// Mapping from directory path to the accumulated bytes of the files beneath it.
/// Entries keep the order in which their directories were first seen. Each
/// entry knows its parent's entry and its children's, so that a path is found
/// by descending from its first component.
pub struct DirSizeMap {
    paths: Vec<Vec<String>>,
    sizes: Vec<u64>,
    parents: Vec<usize>,
    children: Vec<Vec<usize>>,
    roots: Vec<usize>,
    abs_roots: Vec<usize>,
    model: Ghost<Map<Seq<Seq<char>>, u64>>,
}

impl View for DirSizeMap {
    type V = Map<Seq<Seq<char>>, u64>;

    closed spec fn view(&self) -> Map<Seq<Seq<char>>, u64> {
        self.model@
    }
}

impl DirSizeMap {
    /// The entries in order, each as (directory, bytes).
    pub closed spec fn entry_seq(&self) -> Seq<(Seq<Seq<char>>, u64)> {
        Seq::new(self.paths@.len(), |i: int| (path_view(self.paths@[i]@), self.sizes@[i]))
    }

    /// Every entry names a top-level directory or one below it. One below is
    /// listed among the children of its parent's entry; a top-level one among
    /// the roots, or the roots under "/"; and nothing else is listed.
    closed spec fn links_ok(&self) -> bool {
        let es = self.entry_seq();
        let n = es.len();
        &&& self.sizes@.len() == n
        &&& self.parents@.len() == n
        &&& self.children@.len() == n
        &&& forall|i: int| #![trigger es[i]] 0 <= i < n ==> es[i].0.len() >= top_len(es[i].0)
        &&& forall|i: int|
            #![trigger es[i]]
            0 <= i < n && es[i].0.len() > top_len(es[i].0) ==> self.parents@[i] < n && es[self.parents@[i] as int].0
                == es[i].0.drop_last() && picked(self.children@[self.parents@[i] as int]@, i)
        &&& forall|q: int, a: int|
            #![trigger self.children@[q]@[a]]
            0 <= q < n && 0 <= a < self.children@[q]@.len() ==> self.children@[q]@[a] < n
                && es[self.children@[q]@[a] as int].0.len() > top_len(es[self.children@[q]@[a] as int].0)
                && self.parents@[self.children@[q]@[a] as int] == q
        &&& forall|a: int|
            0 <= a < self.roots@.len() ==> #[trigger] self.roots@[a] < n && es[self.roots@[a] as int].0.len()
                == 1 && es[self.roots@[a] as int].0[0] != seq!['/']
        &&& forall|a: int|
            0 <= a < self.abs_roots@.len() ==> #[trigger] self.abs_roots@[a] < n
                && es[self.abs_roots@[a] as int].0.len() == 2 && es[self.abs_roots@[a] as int].0[0] == seq!['/']
        &&& forall|i: int|
            #![trigger es[i]]
            0 <= i < n && es[i].0.len() == top_len(es[i].0) ==> if top_len(es[i].0) == 2 {
                picked(self.abs_roots@, i)
            } else {
                picked(self.roots@, i)
            }
    }

    /// Keys are unique, the entries are exactly the map, and the links between
    /// entries are in order.
    pub closed spec fn wf(&self) -> bool {
        let es = self.entry_seq();
        &&& forall|i: int, j: int|
            #![trigger es[i], es[j]]
            0 <= i < j < es.len() ==> es[i].0 != es[j].0
        &&& forall|i: int|
            #![trigger es[i]]
            0 <= i < es.len() ==> self@.contains_key(es[i].0) && self@[es[i].0] == es[i].1
        &&& forall|k: Seq<Seq<char>>|
            #[trigger] self@.contains_key(k) ==> exists|i: int| 0 <= i < es.len() && es[i].0 == k
        &&& self.links_ok()
    }

    /// An empty map.
    pub fn new() -> (r: Self)
        ensures
            r.wf(),
            r@ == Map::<Seq<Seq<char>>, u64>::empty(),
            r.entry_seq().len() == 0,
    {
        DirSizeMap {
            paths: Vec::new(),
            sizes: Vec::new(),
            parents: Vec::new(),
            children: Vec::new(),
            roots: Vec::new(),
            abs_roots: Vec::new(),
            model: Ghost(Map::empty()),
        }
    }

    /// The entries are exactly the map: their directories are distinct, each
    /// holds the bytes that the map gives its directory, and every directory of
    /// the map has an entry.
    pub proof fn lemma_entries_are_the_map(&self)
        requires
            self.wf(),
        ensures
            forall|i: int, j: int|
                0 <= i < j < self.entry_seq().len() ==> #[trigger] self.entry_seq()[i].0
                    != #[trigger] self.entry_seq()[j].0,
            forall|i: int|
                0 <= i < self.entry_seq().len() ==> self@.contains_key(#[trigger] self.entry_seq()[i].0)
                    && self@[self.entry_seq()[i].0] == self.entry_seq()[i].1,
            forall|k: Seq<Seq<char>>|
                #[trigger] self@.contains_key(k) ==> exists|i: int|
                    0 <= i < self.entry_seq().len() && self.entry_seq()[i].0 == k,
            self@.dom().finite(),
            self@.dom().len() == self.entry_seq().len(),
    {
        let es = self.entry_seq();
        let keys = es.map_values(|e: (Seq<Seq<char>>, u64)| e.0);
        assert forall|i: int, j: int| 0 <= i < j < es.len() implies #[trigger] es[i].0 != #[trigger] es[j].0 by {}
        assert(keys.no_duplicates()) by {
            assert forall|i: int, j: int| 0 <= i < keys.len() && 0 <= j < keys.len() && i != j implies keys[i]
                != keys[j] by {
                if i < j {
                    assert(es[i].0 != es[j].0);
                } else {
                    assert(es[j].0 != es[i].0);
                }
            }
        }
        keys.unique_seq_to_set();
        assert forall|k: Seq<Seq<char>>| self@.dom().contains(k) <==> keys.to_set().contains(k) by {
            if self@.contains_key(k) {
                let i = choose|i: int| 0 <= i < es.len() && es[i].0 == k;
                assert(keys[i] == k);
            }
            if keys.to_set().contains(k) {
                assert(keys.contains(k));
                let i = choose|i: int| 0 <= i < keys.len() && keys[i] == k;
                assert(es[i].0 == k);
            }
        }
        assert(self@.dom() =~= keys.to_set());
    }

    /// Number of directories recorded.
    pub fn len(&self) -> (r: usize)
        requires
            self.wf(),
        ensures
            r == self.entry_seq().len(),
            r == self@.dom().len(),
    {
        proof {
            self.lemma_entries_are_the_map();
        }
        self.paths.len()
    }

    /// The directory of the entry at `i`.
    pub fn entry_path(&self, i: usize) -> (r: &Vec<String>)
        requires
            i < self.entry_seq().len(),
        ensures
            path_view(r@) == self.entry_seq()[i as int].0,
    {
        &self.paths[i]
    }

    /// The bytes of the entry at `i`.
    pub fn entry_size(&self, i: usize) -> (r: u64)
        requires
            self.wf(),
            i < self.entry_seq().len(),
        ensures
            r == self.entry_seq()[i as int].1,
    {
        self.sizes[i]
    }

    proof fn lemma_prefix_entry(&self, i: int, m: int)
        requires
            self.wf(),
            0 <= i < self.entry_seq().len(),
            top_len(self.entry_seq()[i].0) <= m <= self.entry_seq()[i].0.len(),
        ensures
            exists|j: int|
                0 <= j < self.entry_seq().len() && #[trigger] self.entry_seq()[j].0
                    == self.entry_seq()[i].0.subrange(0, m),
        decreases self.entry_seq()[i].0.len() - m,
    {
        let es = self.entry_seq();
        if m == es[i].0.len() {
            assert(es[i].0.subrange(0, m) =~= es[i].0);
        } else {
            let p = self.parents@[i] as int;
            assert(es[p].0 == es[i].0.drop_last());
            assert(es[p].0[0] == es[i].0[0]);
            self.lemma_prefix_entry(p, m);
            let j = choose|j: int| 0 <= j < es.len() && #[trigger] es[j].0 == es[p].0.subrange(0, m);
            assert(es[j].0 =~= es[i].0.subrange(0, m));
        }
    }

    /// The entry among `list` whose last component is `name`, if any.
    fn find_child(&self, list: &Vec<usize>, name: &String) -> (r: Option<usize>)
        requires
            self.wf(),
            forall|a: int| 0 <= a < list@.len() ==> #[trigger] list@[a] < self.entry_seq().len(),
        ensures
            r matches Some(c) ==> picked(list@, c as int) && c < self.entry_seq().len()
                && self.entry_seq()[c as int].0.last() == name@,
            r is None ==> forall|a: int|
                0 <= a < list@.len() ==> self.entry_seq()[#[trigger] list@[a] as int].0.last() != name@,
    {
        let mut a: usize = 0;
        while a < list.len()
            invariant
                self.wf(),
                0 <= a <= list@.len(),
                forall|b: int| 0 <= b < list@.len() ==> #[trigger] list@[b] < self.entry_seq().len(),
                forall|b: int|
                    0 <= b < a ==> self.entry_seq()[#[trigger] list@[b] as int].0.last() != name@,
            decreases list.len() - a,
        {
            let c = list[a];
            let ghost ec = self.entry_seq()[c as int];
            assert(ec.0.len() >= top_len(ec.0));
            let p = &self.paths[c];
            let last = p.len() - 1;
            assert(ec.0.last() == p@[last as int]@);
            if p[last] == *name {
                return Some(c);
            }
            a += 1;
        }
        None
    }

    fn find(&self, dir: &Vec<String>) -> (r: Option<usize>)
        requires
            self.wf(),
        ensures
            r is Some <==> self@.contains_key(path_view(dir@)),
            r matches Some(i) ==> i < self.entry_seq().len() && self.entry_seq()[i as int].0
                == path_view(dir@),
    {
        let ghost es = self.entry_seq();
        let ghost d = path_view(dir@);
        if dir.len() == 0 {
            proof {
                if self@.contains_key(d) {
                    let i = choose|i: int| 0 <= i < es.len() && es[i].0 == d;
                    assert(es[i].0.len() >= top_len(es[i].0));
                }
            }
            return None;
        }
        let t0: usize = if is_root_component(dir[0].as_str()) { 2 } else { 1 };
        assert(t0 == top_len(d));
        if dir.len() < t0 {
            proof {
                if self@.contains_key(d) {
                    let i = choose|i: int| 0 <= i < es.len() && es[i].0 == d;
                    assert(es[i].0.len() >= top_len(es[i].0));
                }
            }
            return None;
        }
        let found = if t0 == 2 {
            self.find_child(&self.abs_roots, &dir[1])
        } else {
            self.find_child(&self.roots, &dir[0])
        };
        let mut cur: usize = match found {
            Some(c) => {
                proof {
                    if t0 == 2 {
                        let a = choose|a: int| 0 <= a < self.abs_roots@.len() && self.abs_roots@[a] == c;
                        assert(self.abs_roots@[a] == c);
                    } else {
                        let a = choose|a: int| 0 <= a < self.roots@.len() && self.roots@[a] == c;
                        assert(self.roots@[a] == c);
                    }
                    assert(es[c as int].0 =~= d.subrange(0, t0 as int));
                }
                c
            },
            None => {
                proof {
                    if self@.contains_key(d) {
                        let i = choose|i: int| 0 <= i < es.len() && es[i].0 == d;
                        self.lemma_prefix_entry(i, t0 as int);
                        let j = choose|j: int|
                            0 <= j < es.len() && #[trigger] es[j].0 == es[i].0.subrange(0, t0 as int);
                        assert(es[j].0[0] == d[0]);
                        if t0 == 2 {
                            assert(picked(self.abs_roots@, j));
                            let a = choose|a: int| 0 <= a < self.abs_roots@.len() && self.abs_roots@[a] == j;
                            assert(es[self.abs_roots@[a] as int].0.last() != dir@[1]@);
                        } else {
                            assert(picked(self.roots@, j));
                            let a = choose|a: int| 0 <= a < self.roots@.len() && self.roots@[a] == j;
                            assert(es[self.roots@[a] as int].0.last() != dir@[0]@);
                        }
                    }
                }
                return None;
            },
        };
        let mut t: usize = t0;
        while t < dir.len()
            invariant
                self.wf(),
                es == self.entry_seq(),
                d == path_view(dir@),
                t0 <= t <= dir@.len(),
                t0 == top_len(d),
                cur < es.len(),
                es[cur as int].0 == d.subrange(0, t as int),
            decreases dir.len() - t,
        {
            proof {
                assert forall|a: int| 0 <= a < self.children@[cur as int]@.len() implies #[trigger] self.children@[cur as int]@[a]
                    < self.entry_seq().len() by {}
            }
            match self.find_child(&self.children[cur], &dir[t]) {
                Some(c) => {
                    proof {
                        let a = choose|a: int|
                            0 <= a < self.children@[cur as int]@.len() && self.children@[cur as int]@[a] == c;
                        assert(self.children@[cur as int]@[a] == c);
                        assert(es[c as int].0.drop_last() == es[cur as int].0);
                        assert(es[c as int].0 =~= d.subrange(0, t + 1));
                    }
                    cur = c;
                },
                None => {
                    proof {
                        if self@.contains_key(d) {
                            let i = choose|i: int| 0 <= i < es.len() && es[i].0 == d;
                            self.lemma_prefix_entry(i, t + 1);
                            let j = choose|j: int| 0 <= j < es.len() && #[trigger] es[j].0 == es[i].0.subrange(0, t + 1);
                            assert(es[j].0[0] == d[0]);
                            let p = self.parents@[j] as int;
                            assert(es[p].0 =~= es[cur as int].0);
                            assert(p == cur);
                            assert(picked(self.children@[cur as int]@, j));
                            let a = choose|a: int|
                                0 <= a < self.children@[cur as int]@.len() && self.children@[cur as int]@[a] == j;
                            assert(es[self.children@[cur as int]@[a] as int].0.last() != dir@[t as int]@);
                        }
                    }
                    return None;
                },
            }
            t += 1;
        }
        assert(d.subrange(0, dir@.len() as int) =~= d);
        Some(cur)
    }

    /// The bytes recorded for `dir`, if it has an entry.
    pub fn get(&self, dir: &Vec<String>) -> (r: Option<u64>)
        requires
            self.wf(),
        ensures
            r is Some <==> self@.contains_key(path_view(dir@)),
            r matches Some(v) ==> v == self@[path_view(dir@)],
    {
        match self.find(dir) {
            Some(i) => Some(self.sizes[i]),
            None => None,
        }
    }

    /// Adds `size` bytes to the entry at `i`.
    fn bump(&mut self, i: usize, size: u64)
        requires
            old(self).wf(),
            i < old(self).entry_seq().len(),
            old(self).entry_seq()[i as int].1 + size <= u64::MAX,
        ensures
            final(self).wf(),
            final(self).entry_seq() == old(self).entry_seq().update(
                i as int,
                (old(self).entry_seq()[i as int].0, (old(self).entry_seq()[i as int].1 + size) as u64),
            ),
            final(self)@ == old(self)@.insert(
                old(self).entry_seq()[i as int].0,
                (old(self).entry_seq()[i as int].1 + size) as u64,
            ),
    {
        let ghost k = self.entry_seq()[i as int].0;
        let v = self.sizes[i];
        self.sizes.set(i, v + size);
        self.model = Ghost(self.model@.insert(k, (v + size) as u64));
        assert(self.entry_seq() =~= old(self).entry_seq().update(i as int, (k, (v + size) as u64)));
        proof {
            let es = self.entry_seq();
            assert forall|k2: Seq<Seq<char>>| #[trigger] self@.contains_key(k2) implies exists|j: int|
                0 <= j < es.len() && es[j].0 == k2 by {
                if k2 != k {
                    let j = choose|j: int| 0 <= j < old(self).entry_seq().len() && old(self).entry_seq()[j].0 == k2;
                    assert(es[j].0 == k2);
                } else {
                    assert(es[i as int].0 == k2);
                }
            }
            assert forall|j: int| #![trigger es[j]] 0 <= j < es.len() implies self@.contains_key(es[j].0)
                && self@[es[j].0] == es[j].1 by {
                if j != i {
                    assert(es[j] == old(self).entry_seq()[j]);
                    assert(es[j].0 != k);
                }
            }
        }
    }

    /// Appends an entry of `size` bytes for `path`, which has none, below the
    /// entry at `parent`, or among the roots.
    fn create(&mut self, path: Vec<String>, size: u64, parent: Option<usize>) -> (r: usize)
        requires
            old(self).wf(),
            !old(self)@.contains_key(path_view(path@)),
            path_view(path@).len() >= top_len(path_view(path@)),
            parent is None <==> path_view(path@).len() == top_len(path_view(path@)),
            parent matches Some(q) ==> q < old(self).entry_seq().len() && old(self).entry_seq()[q as int].0
                == path_view(path@).drop_last(),
        ensures
            final(self).wf(),
            r == old(self).entry_seq().len(),
            final(self).entry_seq() == old(self).entry_seq().push((path_view(path@), size)),
            final(self)@ == old(self)@.insert(path_view(path@), size),
    {
        let ghost k = path_view(path@);
        let ghost o = old(self).entry_seq();
        let idx = self.paths.len();
        self.paths.push(path);
        self.sizes.push(size);
        self.children.push(Vec::new());
        match parent {
            Some(q) => {
                self.parents.push(q);
                let mut ch: Vec<usize> = Vec::new();
                self.children.set_and_swap(q, &mut ch);
                ch.push(idx);
                self.children.set(q, ch);
            },
            None => {
                self.parents.push(0);
                if self.paths[idx].len() == 2 {
                    self.abs_roots.push(idx);
                } else {
                    self.roots.push(idx);
                }
            },
        }
        self.model = Ghost(self.model@.insert(k, size));
        let ghost es = self.entry_seq();
        assert(es =~= o.push((k, size)));
        proof {
            assert forall|j: int| 0 <= j < o.len() implies #[trigger] es[j] == o[j] by {}
            assert forall|k2: Seq<Seq<char>>| #[trigger] self@.contains_key(k2) implies exists|j: int|
                0 <= j < es.len() && es[j].0 == k2 by {
                if k2 != k {
                    let j = choose|j: int| 0 <= j < o.len() && o[j].0 == k2;
                    assert(es[j].0 == k2);
                } else {
                    assert(es[idx as int].0 == k2);
                }
            }
            assert forall|j: int| #![trigger es[j]] 0 <= j < es.len() implies self@.contains_key(es[j].0)
                && self@[es[j].0] == es[j].1 by {
                if j < idx {
                    assert(old(self)@.contains_key(o[j].0));
                }
            }
            assert forall|i: int, j: int| #![trigger es[i], es[j]] 0 <= i < j < es.len() implies es[i].0
                != es[j].0 by {
                if j == idx {
                    assert(old(self)@.contains_key(o[i].0));
                }
            }
            let ch_old = old(self).children@;
            assert forall|j: int, v: int|
                0 <= j < ch_old.len() && #[trigger] picked(ch_old[j]@, v) implies picked(self.children@[j]@, v) by {
                let a = choose|a: int| 0 <= a < ch_old[j]@.len() && ch_old[j]@[a] == v;
                assert(self.children@[j]@[a] == v);
            }
            assert forall|a: int| 0 <= a < old(self).roots@.len() implies #[trigger] self.roots@[a] == old(self).roots@[a] by {}
            assert forall|a: int| 0 <= a < old(self).abs_roots@.len() implies #[trigger] self.abs_roots@[a] == old(self).abs_roots@[a] by {}
            assert(es[idx as int].0 == k);
            assert forall|i: int|
                #![trigger es[i]]
                0 <= i < es.len() && es[i].0.len() > top_len(es[i].0) implies self.parents@[i] < es.len()
                    && es[self.parents@[i] as int].0 == es[i].0.drop_last() && picked(
                    self.children@[self.parents@[i] as int]@,
                    i,
                ) by {
                if i == idx {
                    let q = parent->0;
                    assert(self.children@[q as int]@[ch_old[q as int]@.len() as int] == idx);
                } else {
                    assert(es[i] == o[i]);
                    assert(picked(ch_old[self.parents@[i] as int]@, i));
                }
            }
            assert forall|q: int, a: int|
                #![trigger self.children@[q]@[a]]
                0 <= q < es.len() && 0 <= a < self.children@[q]@.len() implies self.children@[q]@[a] < es.len()
                    && es[self.children@[q]@[a] as int].0.len() > top_len(es[self.children@[q]@[a] as int].0)
                    && self.parents@[self.children@[q]@[a] as int] == q by {
                if q < idx && a < ch_old[q]@.len() {
                    assert(self.children@[q]@[a] == ch_old[q]@[a]);
                }
            }
            assert forall|i: int|
                #![trigger es[i]]
                0 <= i < es.len() && es[i].0.len() == top_len(es[i].0) implies if top_len(es[i].0) == 2 {
                    picked(self.abs_roots@, i)
                } else {
                    picked(self.roots@, i)
                } by {
                if i == idx {
                    if top_len(k) == 2 {
                        assert(self.abs_roots@[old(self).abs_roots@.len() as int] == idx);
                    } else {
                        assert(self.roots@[old(self).roots@.len() as int] == idx);
                    }
                } else {
                    assert(es[i] == o[i]);
                    if top_len(es[i].0) == 2 {
                        let a = choose|a: int| 0 <= a < old(self).abs_roots@.len() && old(self).abs_roots@[a] == i;
                        assert(self.abs_roots@[a] == i);
                    } else {
                        let a = choose|a: int| 0 <= a < old(self).roots@.len() && old(self).roots@[a] == i;
                        assert(self.roots@[a] == i);
                    }
                }
            }
            assert forall|a: int| 0 <= a < self.roots@.len() implies #[trigger] self.roots@[a] < es.len()
                && es[self.roots@[a] as int].0.len() == 1 && es[self.roots@[a] as int].0[0] != seq!['/'] by {
                if a < old(self).roots@.len() {
                    assert(self.roots@[a] == old(self).roots@[a]);
                }
            }
            assert forall|a: int| 0 <= a < self.abs_roots@.len() implies #[trigger] self.abs_roots@[a] < es.len()
                && es[self.abs_roots@[a] as int].0.len() == 2 && es[self.abs_roots@[a] as int].0[0] == seq!['/'] by {
                if a < old(self).abs_roots@.len() {
                    assert(self.abs_roots@[a] == old(self).abs_roots@[a]);
                }
            }
        }
        idx
    }
}

/// `m` holds, for each directory above some file of `files`, the bytes of all
/// files beneath it, and no other directory.
pub open spec fn is_tally_of(m: Map<Seq<Seq<char>>, u64>, files: Seq<(Seq<Seq<char>>, u64)>) -> bool {
    &&& forall|d: Seq<Seq<char>>|
        #[trigger] m.contains_key(d) <==> exists|i: int|
            0 <= i < files.len() && is_ancestor(d, #[trigger] files[i].0)
    &&& forall|d: Seq<Seq<char>>| #[trigger] size_or_zero(m, d) == bytes_beneath(files, d)
}

proof fn lemma_beneath_le_total(files: Seq<(Seq<Seq<char>>, u64)>, d: Seq<Seq<char>>)
    ensures
        0 <= bytes_beneath(files, d) <= total_bytes(files),
    decreases files.len(),
{
    if files.len() > 0 {
        lemma_beneath_le_total(files.drop_last(), d);
    }
}

proof fn lemma_total_of_prefix(files: Seq<(Seq<Seq<char>>, u64)>, i: int)
    requires
        0 <= i <= files.len(),
    ensures
        total_bytes(files.subrange(0, i)) <= total_bytes(files),
    decreases files.len() - i,
{
    if i == files.len() {
        assert(files.subrange(0, i) =~= files);
    } else {
        lemma_total_of_prefix(files, i + 1);
        assert(files.subrange(0, i + 1).drop_last() =~= files.subrange(0, i));
    }
}

/// What a walk found at one path.
#[derive(Clone, Copy, Debug, PartialEq, Eq, Structural)]
pub enum EntryKind {
    /// A directory, the root of the walk among them.
    Dir,
    /// A regular file of this many bytes.
    File(u64),
    /// Anything else (a symbolic link, a device, a socket): it counts for nothing.
    Other,
}

/// The files among `found`, in order, each with its size.
pub open spec fn files_found(found: Seq<(Seq<Seq<char>>, EntryKind)>) -> Seq<(Seq<Seq<char>>, u64)>
    decreases found.len(),
{
    if found.len() == 0 {
        Seq::empty()
    } else {
        let rest = files_found(found.drop_last());
        match found.last().1 {
            EntryKind::File(n) => rest.push((found.last().0, n)),
            _ => rest,
        }
    }
}

/// The number of directories among `found`.
pub open spec fn dirs_found(found: Seq<(Seq<Seq<char>>, EntryKind)>) -> int
    decreases found.len(),
{
    if found.len() == 0 {
        0
    } else {
        dirs_found(found.drop_last()) + if found.last().1 == EntryKind::Dir {
            1int
        } else {
            0
        }
    }
}

/// The mathematical value of what a walk found.
pub open spec fn found_view(found: Seq<(Vec<String>, EntryKind)>) -> Seq<(Seq<Seq<char>>, EntryKind)> {
    found.map_values(|e: (Vec<String>, EntryKind)| (path_view(e.0@), e.1))
}

/// Sorts what a walk found into the list of files with their sizes and the
/// number of directories; other entries add nothing to either.
pub fn sort_found(found: &Vec<(Vec<String>, EntryKind)>) -> (r: (Vec<(Vec<String>, u64)>, usize))
    ensures
        files_view(r.0@) == files_found(found_view(found@)),
        r.1 == dirs_found(found_view(found@)),
{
    let ghost fv = found_view(found@);
    let mut files: Vec<(Vec<String>, u64)> = Vec::new();
    let mut dirs: usize = 0;
    let mut i: usize = 0;
    while i < found.len()
        invariant
            0 <= i <= found.len(),
            fv == found_view(found@),
            files_view(files@) == files_found(fv.subrange(0, i as int)),
            dirs == dirs_found(fv.subrange(0, i as int)),
            dirs <= i,
        decreases found.len() - i,
    {
        assert(fv.subrange(0, i + 1).drop_last() =~= fv.subrange(0, i as int));
        assert(fv.subrange(0, i + 1).last() == fv[i as int]);
        match found[i].1 {
            EntryKind::Dir => {
                dirs = dirs + 1;
            },
            EntryKind::File(n) => {
                let path = crate::paths::copy_path(&found[i].0);
                files.push((path, n));
                assert(files_view(files@) =~= files_found(fv.subrange(0, i + 1)));
            },
            EntryKind::Other => {},
        }
        i += 1;
    }
    assert(fv.subrange(0, found.len() as int) =~= fv);
    (files, dirs)
}

/// The sum of the sizes of `files`, or `None` when it does not fit in a `u64`.
pub fn checked_total(files: &Vec<(Vec<String>, u64)>) -> (r: Option<u64>)
    ensures
        r == if total_bytes(files_view(files@)) <= u64::MAX {
            Some(total_bytes(files_view(files@)) as u64)
        } else {
            None::<u64>
        },
{
    let ghost fv = files_view(files@);
    let mut total: u64 = 0;
    let mut i: usize = 0;
    while i < files.len()
        invariant
            0 <= i <= files.len(),
            fv == files_view(files@),
            total == total_bytes(fv.subrange(0, i as int)),
        decreases files.len() - i,
    {
        assert(fv.subrange(0, i + 1).drop_last() =~= fv.subrange(0, i as int));
        let size = files[i].1;
        if total > u64::MAX - size {
            proof {
                lemma_total_of_prefix(fv, i + 1);
            }
            return None;
        }
        total = total + size;
        i += 1;
    }
    assert(fv.subrange(0, files.len() as int) =~= fv);
    Some(total)
}

/// Adds `size` bytes to every directory above `path`: its parent, grandparent,
/// and so on up to its first component, stopping before the filesystem root
/// "/". A directory seen for the first time gets an entry of `size` bytes.
#[verifier::rlimit(60)]
pub fn add_to_parents(folders: &mut DirSizeMap, path: &Vec<String>, size: u64)
    requires
        old(folders).wf(),
        forall|d: Seq<Seq<char>>|
            is_ancestor(d, path_view(path@)) ==> #[trigger] size_or_zero(old(folders)@, d) + size
                <= u64::MAX,
    ensures
        final(folders).wf(),
        forall|d: Seq<Seq<char>>|
            #[trigger] final(folders)@.contains_key(d) <==> old(folders)@.contains_key(d)
                || is_ancestor(d, path_view(path@)),
        forall|d: Seq<Seq<char>>|
            #[trigger] size_or_zero(final(folders)@, d) == size_or_zero(old(folders)@, d) + if is_ancestor(
                d,
                path_view(path@),
            ) {
                size as int
            } else {
                0
            },
{
    let ghost p = path_view(path@);
    let n = path.len();
    if n == 0 {
        return;
    }
    let t0: usize = if is_root_component(path[0].as_str()) { 2 } else { 1 };
    assert(t0 == top_len(p));
    let mut t: usize = t0;
    let mut cur: usize = 0;
    // directories are visited from the top-level one down; `cur` is the
    // entry of the directory made of the first `t - 1` components
    proof {
        assert forall|d: Seq<Seq<char>>| is_ancestor(d, p) implies d.len() >= t0 by {
            if d.len() == 1 && t0 == 2 {
                assert(d[0] == p[0]);
                assert(is_fs_root(d));
            }
        }
    }
    while t < n
        invariant
            folders.wf(),
            t0 <= t,
            t0 == top_len(p),
            t <= n || t == t0,
            n == path.len(),
            p == path_view(path@),
            forall|d: Seq<Seq<char>>| is_ancestor(d, p) ==> d.len() >= t0,
            t > t0 ==> cur < folders.entry_seq().len() && folders.entry_seq()[cur as int].0
                == p.subrange(0, t - 1),
            forall|d: Seq<Seq<char>>|
                is_ancestor(d, p) ==> #[trigger] size_or_zero(old(folders)@, d) + size <= u64::MAX,
            forall|d: Seq<Seq<char>>|
                #[trigger] folders@.contains_key(d) <==> old(folders)@.contains_key(d) || (
                is_ancestor(d, p) && d.len() < t),
            forall|d: Seq<Seq<char>>|
                #[trigger] size_or_zero(folders@, d) == size_or_zero(old(folders)@, d) + if is_ancestor(
                    d,
                    p,
                ) && d.len() < t {
                    size as int
                } else {
                    0
                },
        decreases n - t,
    {
        let ghost dv = p.subrange(0, t as int);
        let ghost m0 = folders@;
        proof {
            if t == 1 {
                assert(dv[0] == p[0]);
            }
        }
        assert(is_ancestor(dv, p));
        assert(dv[0] == p[0]);
        assert(size_or_zero(folders@, dv) == size_or_zero(old(folders)@, dv));
        proof {
            if t > t0 {
                assert forall|a: int| 0 <= a < folders.children@[cur as int]@.len() implies #[trigger] folders.children@[cur as int]@[a]
                    < folders.entry_seq().len() by {}
            }
        }
        let found = if t == t0 {
            if t0 == 2 {
                folders.find_child(&folders.abs_roots, &path[1])
            } else {
                folders.find_child(&folders.roots, &path[0])
            }
        } else {
            folders.find_child(&folders.children[cur], &path[t - 1])
        };
        let next = match found {
            Some(c) => {
                let ghost es = folders.entry_seq();
                proof {
                    let list = if t == t0 {
                        if t0 == 2 { folders.abs_roots@ } else { folders.roots@ }
                    } else {
                        folders.children@[cur as int]@
                    };
                    let a = choose|a: int| 0 <= a < list.len() && list[a] == c;
                    if t == t0 {
                        if t0 == 2 {
                            assert(folders.abs_roots@[a] == c);
                        } else {
                            assert(folders.roots@[a] == c);
                        }
                        assert(es[c as int].0 =~= dv);
                    } else {
                        assert(folders.children@[cur as int]@[a] == c);
                        assert(es[c as int].0.drop_last() == es[cur as int].0);
                        assert(es[c as int].0 =~= dv);
                    }
                    assert(m0.contains_key(dv) && m0[dv] == es[c as int].1);
                }
                folders.bump(c, size);
                c
            },
            None => {
                let ghost es = folders.entry_seq();
                proof {
                    if m0.contains_key(dv) {
                        let i = choose|i: int| 0 <= i < es.len() && es[i].0 == dv;
                        assert(es[i].0[0] == p[0]);
                        if t == t0 {
                            if t0 == 2 {
                                assert(picked(folders.abs_roots@, i));
                                let a = choose|a: int|
                                    0 <= a < folders.abs_roots@.len() && folders.abs_roots@[a] == i;
                                assert(es[folders.abs_roots@[a] as int].0.last() != path@[1]@);
                            } else {
                                assert(picked(folders.roots@, i));
                                let a = choose|a: int| 0 <= a < folders.roots@.len() && folders.roots@[a] == i;
                                assert(es[folders.roots@[a] as int].0.last() != path@[0]@);
                            }
                        } else {
                            let q = folders.parents@[i] as int;
                            assert(es[q].0 =~= es[cur as int].0);
                            assert(q == cur);
                            assert(picked(folders.children@[cur as int]@, i));
                            let a = choose|a: int|
                                0 <= a < folders.children@[cur as int]@.len() && folders.children@[cur as int]@[a] == i;
                            assert(es[folders.children@[cur as int]@[a] as int].0.last() != path@[t - 1]@);
                        }
                    }
                }
                let dir = path_prefix(path, t);
                assert(path_view(dir@) == dv);
                let parent = if t == t0 {
                    None
                } else {
                    proof {
                        assert(dv.drop_last() =~= p.subrange(0, t - 1));
                    }
                    Some(cur)
                };
                folders.create(dir, size, parent)
            },
        };
        assert forall|d: Seq<Seq<char>>| is_ancestor(d, p) && d.len() == t implies d == dv by {
            assert(d =~= p.subrange(0, t as int));
        }
        assert forall|d: Seq<Seq<char>>|
            #[trigger] size_or_zero(folders@, d) == size_or_zero(old(folders)@, d) + if is_ancestor(d, p)
                && d.len() < t + 1 {
                size as int
            } else {
                0
            } by {
            if d == dv {
                assert(size_or_zero(folders@, d) == size_or_zero(m0, d) + size);
            } else {
                assert(size_or_zero(folders@, d) == size_or_zero(m0, d));
            }
        }
        assert(folders.entry_seq()[next as int].0 == dv);
        cur = next;
        t += 1;
    }
}

/// Builds the directory-size map of a list of files and the sum of their
/// sizes. The list is read as found: a path with fewer than two components
/// has no directory above it. When the paths start with the scanned root,
/// the root is itself a key as soon as one file lies beneath it.
pub fn tally_sizes(files: &Vec<(Vec<String>, u64)>) -> (r: (DirSizeMap, u64))
    requires
        total_bytes(files_view(files@)) <= u64::MAX,
    ensures
        r.0.wf(),
        is_tally_of(r.0@, files_view(files@)),
        r.1 == total_bytes(files_view(files@)),
{
    let ghost fv = files_view(files@);
    let mut folders = DirSizeMap::new();
    let mut total: u64 = 0;
    let mut i: usize = 0;
    while i < files.len()
        invariant
            folders.wf(),
            0 <= i <= files.len(),
            fv == files_view(files@),
            total_bytes(fv) <= u64::MAX,
            total == total_bytes(fv.subrange(0, i as int)),
            is_tally_of(folders@, fv.subrange(0, i as int)),
        decreases files.len() - i,
    {
        let ghost before = fv.subrange(0, i as int);
        let ghost after = fv.subrange(0, i + 1);
        let ghost m0 = folders@;
        assert(after.drop_last() =~= before);
        assert(after.last() == fv[i as int]);
        let size = files[i].1;
        proof {
            lemma_total_of_prefix(fv, i + 1);
            assert forall|d: Seq<Seq<char>>|
                is_ancestor(d, path_view(files@[i as int].0@)) implies #[trigger] size_or_zero(
                m0,
                d,
            ) + size <= u64::MAX by {
                lemma_beneath_le_total(before, d);
            }
        }
        add_to_parents(&mut folders, &files[i].0, size);
        total = total + size;
        assert forall|d: Seq<Seq<char>>|
            #[trigger] folders@.contains_key(d) <==> exists|j: int|
                0 <= j < after.len() && is_ancestor(d, #[trigger] after[j].0) by {
            if folders@.contains_key(d) && !m0.contains_key(d) {
                assert(after[i as int].0 == fv[i as int].0);
            }
            if exists|j: int| 0 <= j < after.len() && is_ancestor(d, #[trigger] after[j].0) {
                let j = choose|j: int| 0 <= j < after.len() && is_ancestor(d, #[trigger] after[j].0);
                if j < i {
                    assert(before[j].0 == after[j].0);
                }
            }
        }
        i += 1;
    }
    assert(fv.subrange(0, files.len() as int) =~= fv);
    (folders, total)
}

proof fn lemma_all_beneath(files: Seq<(Seq<Seq<char>>, u64)>, d: Seq<Seq<char>>)
    requires
        forall|i: int| 0 <= i < files.len() ==> is_ancestor(d, #[trigger] files[i].0),
    ensures
        bytes_beneath(files, d) == total_bytes(files),
    decreases files.len(),
{
    if files.len() > 0 {
        let rest = files.drop_last();
        assert forall|i: int| 0 <= i < rest.len() implies is_ancestor(d, #[trigger] rest[i].0) by {
            assert(rest[i] == files[i]);
        }
        lemma_all_beneath(rest, d);
        assert(is_ancestor(d, files[files.len() - 1].0));
    }
}

/// When every file lies beneath `root`, the entry of `root` in a tally of the
/// files is the sum of all their sizes, and it is present as soon as there is
/// one file.
pub proof fn root_entry_is_grand_total(
    files: Seq<(Seq<Seq<char>>, u64)>,
    m: Map<Seq<Seq<char>>, u64>,
    root: Seq<Seq<char>>,
)
    requires
        is_tally_of(m, files),
        forall|i: int| 0 <= i < files.len() ==> is_ancestor(root, #[trigger] files[i].0),
    ensures
        size_or_zero(m, root) == total_bytes(files),
        files.len() > 0 ==> m.contains_key(root),
{
    lemma_all_beneath(files, root);
    if files.len() > 0 {
        assert(is_ancestor(root, files[0].0));
    }
}

/// No component of `p` from position `from` on names a hidden entry.
pub open spec fn is_visible(p: Seq<Seq<char>>, from: int) -> bool {
    forall|c: int| from <= c < p.len() ==> !(#[trigger] p[c].len() > 0 && p[c][0] == '.')
}

/// The files of `files` whose path is visible from position `from` on, in order.
pub open spec fn visible_files(files: Seq<(Seq<Seq<char>>, u64)>, from: int) -> Seq<
    (Seq<Seq<char>>, u64),
>
    decreases files.len(),
{
    if files.len() == 0 {
        files
    } else {
        let rest = visible_files(files.drop_last(), from);
        if is_visible(files.last().0, from) {
            rest.push(files.last())
        } else {
            rest
        }
    }
}

/// Whether no component of `path` from position `from` on names a hidden
/// entry. The components before `from` name the root, which is never hidden.
pub fn path_is_visible(path: &Vec<String>, from: usize) -> (r: bool)
    ensures
        r == is_visible(path_view(path@), from as int),
{
    let ghost p = path_view(path@);
    let mut c: usize = from;
    while c < path.len()
        invariant
            from <= c || path.len() <= c,
            p == path_view(path@),
            forall|c2: int| from <= c2 < c ==> !(#[trigger] p[c2].len() > 0 && p[c2][0] == '.'),
        decreases path.len() - c,
    {
        if is_hidden_name(path[c].as_str()) {
            assert(p[c as int].len() > 0 && p[c as int][0] == '.');
            return false;
        }
        c += 1;
    }
    true
}

/// The files of `files` whose path has no hidden component from position
/// `from` on, in their order.
pub fn retain_visible(files: &Vec<(Vec<String>, u64)>, from: usize) -> (r: Vec<(Vec<String>, u64)>)
    ensures
        files_view(r@) == visible_files(files_view(files@), from as int),
{
    let ghost fv = files_view(files@);
    let mut r: Vec<(Vec<String>, u64)> = Vec::new();
    let mut i: usize = 0;
    while i < files.len()
        invariant
            0 <= i <= files.len(),
            fv == files_view(files@),
            files_view(r@) == visible_files(fv.subrange(0, i as int), from as int),
        decreases files.len() - i,
    {
        assert(fv.subrange(0, i + 1).drop_last() =~= fv.subrange(0, i as int));
        if path_is_visible(&files[i].0, from) {
            let path = crate::paths::copy_path(&files[i].0);
            r.push((path, files[i].1));
            assert(files_view(r@) =~= visible_files(fv.subrange(0, i + 1), from as int));
        }
        i += 1;
    }
    assert(fv.subrange(0, files.len() as int) =~= fv);
    r
}

/// `c` is an immediate subdirectory (or file) of `d`: one component longer.
pub open spec fn is_child(c: Seq<Seq<char>>, d: Seq<Seq<char>>) -> bool {
    &&& c.len() == d.len() + 1
    &&& c.subrange(0, d.len() as int) == d
}

/// Sum of the sizes of the files of `files` that sit directly in `d`.
pub open spec fn direct_bytes(files: Seq<(Seq<Seq<char>>, u64)>, d: Seq<Seq<char>>) -> int
    decreases files.len(),
{
    if files.len() == 0 {
        0
    } else {
        direct_bytes(files.drop_last(), d) + if is_child(files.last().0, d) {
            files.last().1 as int
        } else {
            0
        }
    }
}

/// Sum of the bytes of the entries of `es` whose directory sits directly in `d`.
pub open spec fn child_entries_bytes(es: Seq<(Seq<Seq<char>>, u64)>, d: Seq<Seq<char>>) -> int
    decreases es.len(),
{
    if es.len() == 0 {
        0
    } else {
        child_entries_bytes(es.drop_last(), d) + if is_child(es.last().0, d) {
            es.last().1 as int
        } else {
            0
        }
    }
}

/// The bytes beneath each child directory of `d` listed in `es`, summed.
spec fn children_beneath(
    files: Seq<(Seq<Seq<char>>, u64)>,
    es: Seq<(Seq<Seq<char>>, u64)>,
    d: Seq<Seq<char>>,
) -> int
    decreases es.len(),
{
    if es.len() == 0 {
        0
    } else {
        children_beneath(files, es.drop_last(), d) + if is_child(es.last().0, d) {
            bytes_beneath(files, es.last().0)
        } else {
            0
        }
    }
}

/// How many entries of `es` are child directories of `d` above `p`.
spec fn count_between(es: Seq<(Seq<Seq<char>>, u64)>, d: Seq<Seq<char>>, p: Seq<Seq<char>>) -> int
    decreases es.len(),
{
    if es.len() == 0 {
        0
    } else {
        count_between(es.drop_last(), d, p) + if is_child(es.last().0, d) && is_ancestor(
            es.last().0,
            p,
        ) {
            1int
        } else {
            0
        }
    }
}

spec fn keys_unique(es: Seq<(Seq<Seq<char>>, u64)>) -> bool {
    forall|i: int, j: int| #![trigger es[i], es[j]] 0 <= i < j < es.len() ==> es[i].0 != es[j].0
}

spec fn has_key(es: Seq<(Seq<Seq<char>>, u64)>, k: Seq<Seq<char>>) -> bool {
    exists|i: int| 0 <= i < es.len() && #[trigger] es[i].0 == k
}

/// `p` lies beneath `d`, deeper than directly in it.
spec fn deep_beneath(d: Seq<Seq<char>>, p: Seq<Seq<char>>) -> bool {
    is_ancestor(d, p) && !is_child(p, d)
}

proof fn lemma_child_above(k: Seq<Seq<char>>, d: Seq<Seq<char>>, p: Seq<Seq<char>>)
    requires
        d.len() > 0,
        !is_fs_root(d),
    ensures
        (is_child(k, d) && is_ancestor(k, p)) <==> (deep_beneath(d, p) && k == p.subrange(
            0,
            d.len() + 1int,
        )),
{
    if is_child(k, d) && is_ancestor(k, p) {
        assert(p.subrange(0, d.len() as int) =~= k.subrange(0, d.len() as int));
        if is_child(p, d) {
            assert(false);
        }
    }
    if deep_beneath(d, p) && k == p.subrange(0, d.len() + 1int) {
        assert(k.subrange(0, d.len() as int) =~= p.subrange(0, d.len() as int));
        assert(p.len() != d.len() + 1);
    }
}

proof fn lemma_count_between(es: Seq<(Seq<Seq<char>>, u64)>, d: Seq<Seq<char>>, p: Seq<Seq<char>>)
    requires
        d.len() > 0,
        !is_fs_root(d),
        keys_unique(es),
    ensures
        count_between(es, d, p) == if deep_beneath(d, p) && has_key(es, p.subrange(0, d.len() + 1int)) {
            1int
        } else {
            0
        },
    decreases es.len(),
{
    if es.len() > 0 {
        let rest = es.drop_last();
        let c = p.subrange(0, d.len() + 1int);
        assert(keys_unique(rest)) by {
            assert forall|i: int, j: int| #![trigger rest[i], rest[j]] 0 <= i < j < rest.len() implies rest[i].0
                != rest[j].0 by {
                assert(rest[i] == es[i] && rest[j] == es[j]);
            }
        }
        lemma_count_between(rest, d, p);
        lemma_child_above(es.last().0, d, p);
        if has_key(es, c) {
            let i = choose|i: int| 0 <= i < es.len() && #[trigger] es[i].0 == c;
            if i < es.len() - 1 {
                assert(rest[i].0 == c);
                assert(es[i].0 != es[es.len() - 1].0);
            } else {
                if has_key(rest, c) {
                    let j = choose|j: int| 0 <= j < rest.len() && #[trigger] rest[j].0 == c;
                    assert(es[j].0 == c);
                    assert(es[j].0 != es[i].0);
                }
            }
        } else {
            if has_key(rest, c) {
                let j = choose|j: int| 0 <= j < rest.len() && #[trigger] rest[j].0 == c;
                assert(es[j].0 == c);
            }
        }
    }
}

proof fn lemma_children_push(
    files: Seq<(Seq<Seq<char>>, u64)>,
    f: (Seq<Seq<char>>, u64),
    es: Seq<(Seq<Seq<char>>, u64)>,
    d: Seq<Seq<char>>,
)
    ensures
        children_beneath(files.push(f), es, d) == children_beneath(files, es, d) + f.1 * count_between(
            es,
            d,
            f.0,
        ),
    decreases es.len(),
{
    assert(files.push(f).drop_last() =~= files);
    if es.len() > 0 {
        let rest = es.drop_last();
        let k = es.last().0;
        lemma_children_push(files, f, rest, d);
        assert(files.push(f).last() == f);
        assert(bytes_beneath(files.push(f), k) == bytes_beneath(files, k) + if is_ancestor(k, f.0) {
            f.1 as int
        } else {
            0
        });
        let c0 = count_between(rest, d, f.0);
        if is_child(k, d) && is_ancestor(k, f.0) {
            assert(count_between(es, d, f.0) == c0 + 1);
            assert(f.1 * (c0 + 1) == f.1 * c0 + f.1) by (nonlinear_arith);
        } else {
            assert(count_between(es, d, f.0) == c0);
        }
    }
}

proof fn lemma_children_of_nothing(
    files: Seq<(Seq<Seq<char>>, u64)>,
    es: Seq<(Seq<Seq<char>>, u64)>,
    d: Seq<Seq<char>>,
)
    requires
        files.len() == 0,
    ensures
        children_beneath(files, es, d) == 0,
    decreases es.len(),
{
    if es.len() > 0 {
        lemma_children_of_nothing(files, es.drop_last(), d);
    }
}

proof fn lemma_split_beneath(
    files: Seq<(Seq<Seq<char>>, u64)>,
    es: Seq<(Seq<Seq<char>>, u64)>,
    d: Seq<Seq<char>>,
)
    requires
        d.len() > 0,
        !is_fs_root(d),
        keys_unique(es),
        forall|j: int|
            0 <= j < files.len() && deep_beneath(d, #[trigger] files[j].0) ==> has_key(
                es,
                files[j].0.subrange(0, d.len() + 1int),
            ),
    ensures
        bytes_beneath(files, d) == direct_bytes(files, d) + children_beneath(files, es, d),
    decreases files.len(),
{
    if files.len() == 0 {
        lemma_children_of_nothing(files, es, d);
    } else {
        let rest = files.drop_last();
        let f = files.last();
        assert forall|j: int|
            0 <= j < rest.len() && deep_beneath(d, #[trigger] rest[j].0) implies has_key(
            es,
            rest[j].0.subrange(0, d.len() + 1int),
        ) by {
            assert(rest[j] == files[j]);
        }
        lemma_split_beneath(rest, es, d);
        assert(rest.push(f) =~= files);
        lemma_children_push(rest, f, es, d);
        lemma_count_between(es, d, f.0);
        assert(children_beneath(files, es, d) == children_beneath(rest, es, d) + f.1 * count_between(
            es,
            d,
            f.0,
        ));
        if deep_beneath(d, f.0) {
            assert(files[files.len() - 1] == f);
            assert(count_between(es, d, f.0) == 1);
            assert(bytes_beneath(files, d) == bytes_beneath(rest, d) + f.1);
            assert(direct_bytes(files, d) == direct_bytes(rest, d));
        } else if is_child(f.0, d) {
            assert(f.0.subrange(0, d.len() as int) == d);
            assert(count_between(es, d, f.0) == 0);
            assert(bytes_beneath(files, d) == bytes_beneath(rest, d) + f.1);
            assert(direct_bytes(files, d) == direct_bytes(rest, d) + f.1);
        } else {
            assert(count_between(es, d, f.0) == 0);
            assert(bytes_beneath(files, d) == bytes_beneath(rest, d));
            assert(direct_bytes(files, d) == direct_bytes(rest, d));
        }
    }
}

proof fn lemma_children_are_entries(
    files: Seq<(Seq<Seq<char>>, u64)>,
    es: Seq<(Seq<Seq<char>>, u64)>,
    d: Seq<Seq<char>>,
)
    requires
        forall|i: int| 0 <= i < es.len() ==> #[trigger] es[i].1 as int == bytes_beneath(files, es[i].0),
    ensures
        child_entries_bytes(es, d) == children_beneath(files, es, d),
    decreases es.len(),
{
    if es.len() > 0 {
        let rest = es.drop_last();
        assert forall|i: int| 0 <= i < rest.len() implies #[trigger] rest[i].1 as int == bytes_beneath(
            files,
            rest[i].0,
        ) by {
            assert(rest[i] == es[i]);
        }
        lemma_children_are_entries(files, rest, d);
        assert(es[es.len() - 1] == es.last());
    }
}

/// In a tally of `files`, the entry of each directory other than the
/// filesystem root is the sum of the sizes of the files directly in it plus
/// the entries of its immediate subdirectories (see
/// `DirSizeMap::lemma_entries_are_the_map` for the entries).
pub proof fn directory_is_own_files_plus_subdirectories(
    files: Seq<(Seq<Seq<char>>, u64)>,
    folders: DirSizeMap,
    d: Seq<Seq<char>>,
)
    requires
        folders.wf(),
        is_tally_of(folders@, files),
        d.len() > 0,
        !is_fs_root(d),
    ensures
        size_or_zero(folders@, d) == direct_bytes(files, d) + child_entries_bytes(
            folders.entry_seq(),
            d,
        ),
{
    let es = folders.entry_seq();
    assert forall|i: int| 0 <= i < es.len() implies #[trigger] es[i].1 as int == bytes_beneath(
        files,
        es[i].0,
    ) by {
        assert(size_or_zero(folders@, es[i].0) == bytes_beneath(files, es[i].0));
    }
    lemma_children_are_entries(files, es, d);
    assert forall|j: int|
        0 <= j < files.len() && deep_beneath(d, #[trigger] files[j].0) implies has_key(
        es,
        files[j].0.subrange(0, d.len() + 1int),
    ) by {
        let c = files[j].0.subrange(0, d.len() + 1int);
        lemma_child_above(c, d, files[j].0);
        assert(folders@.contains_key(c));
        let i = choose|i: int| 0 <= i < es.len() && es[i].0 == c;
        assert(es[i].0 == c);
    }
    lemma_split_beneath(files, es, d);
}

} // verus!
