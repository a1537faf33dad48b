//! A disjoint-set forest over the elements `0..n`, with path compression and
//! union by size.

use vstd::prelude::*;
use vstd::set_lib::{lemma_int_range, lemma_len_subset, lemma_set_disjoint_lens, set_int_range};

verus! {

/// The elements of `0..roots.len()` whose representative is `r`.
pub open spec fn class_of(roots: Seq<int>, r: int) -> Set<int> {
    Set::new(|z: int| 0 <= z < roots.len() && roots[z] == r)
}

/// `roots` maps every element to a representative that represents itself.
pub open spec fn is_root_map(roots: Seq<int>) -> bool {
    forall|z: int|
        0 <= z < roots.len() ==> 0 <= #[trigger] roots[z] < roots.len() && roots[roots[z]]
            == roots[z]
}

/// The representatives after the sets of `x` and `y` are joined: the
/// representative of the larger set (that of `x` on a tie) takes over the
/// other set.
pub open spec fn merged(roots: Seq<int>, x: int, y: int) -> Seq<int> {
    let rx = roots[x];
    let ry = roots[y];
    if rx == ry {
        roots
    } else if class_of(roots, rx).len() < class_of(roots, ry).len() {
        Seq::new(roots.len(), |z: int| if roots[z] == rx { ry } else { roots[z] })
    } else {
        Seq::new(roots.len(), |z: int| if roots[z] == ry { rx } else { roots[z] })
    }
}

/// Strictly ascending.
pub open spec fn ascending(v: Seq<usize>) -> bool {
    forall|i: int, j: int| 0 <= i < j < v.len() ==> v[i] < v[j]
}

/// A class is finite and no larger than the whole.
pub proof fn lemma_class_finite(roots: Seq<int>, r: int)
    ensures
        class_of(roots, r).finite(),
        class_of(roots, r).len() <= roots.len(),
{
    lemma_int_range(0, roots.len() as int);
    assert(class_of(roots, r).subset_of(set_int_range(0, roots.len() as int)));
    lemma_len_subset(class_of(roots, r), set_int_range(0, roots.len() as int));
}

/// What the forest stands for, and why every walk to a root ends.
struct Forest {
    /// The representative of each element.
    pub root: Seq<int>,
    /// A rank that grows strictly from each element to its parent.
    pub height: Seq<nat>,
    /// A bound above every rank.
    pub bound: nat,
}

/// The disjoint-set forest. A negative entry of `parents` marks a root and
/// holds the negated size of its set; any other entry is the parent.
pub struct UnionFind {
    parents: Vec<i32>,
    n: usize,
    forest: Ghost<Forest>,
}

impl View for UnionFind {
    type V = Seq<int>;

    /// The representative of each element.
    closed spec fn view(&self) -> Seq<int> {
        self.forest@.root
    }
}

impl UnionFind {
    /// The number of elements.
    pub closed spec fn len(&self) -> nat {
        self.n as nat
    }

    /// The stored parents agree with the representatives and sizes.
    pub closed spec fn inv(&self) -> bool {
        let f = self.forest@;
        &&& self.parents@.len() == self.n
        &&& self.n <= i32::MAX
        &&& f.root.len() == self.n
        &&& f.height.len() == self.n
        &&& forall|z: int|
            0 <= z < self.n ==> 0 <= #[trigger] f.root[z] < self.n && self.parents@[f.root[z]] < 0
        &&& forall|z: int| 0 <= z < self.n ==> (#[trigger] f.height[z]) < f.bound
        &&& forall|z: int|
            0 <= z < self.n && (#[trigger] self.parents@[z]) < 0 ==> f.root[z] == z
                && -self.parents@[z] == class_of(f.root, z).len()
        &&& forall|z: int|
            0 <= z < self.n && (#[trigger] self.parents@[z]) >= 0 ==> self.parents@[z] < self.n
                && f.root[self.parents@[z] as int] == f.root[z] && f.height[self.parents@[z] as int]
                > f.height[z]
    }

    /// Well-formedness: the invariant of the forest, and a view that maps
    /// each of the `len()` elements to a self-representing element.
    pub open spec fn wf(&self) -> bool {
        &&& self.inv()
        &&& self@.len() == self.len()
        &&& is_root_map(self@)
    }

    proof fn lemma_inv_wf(&self)
        requires
            self.inv(),
        ensures
            self.wf(),
    {
        let f = self.forest@;
        assert forall|z: int| 0 <= z < f.root.len() implies 0 <= #[trigger] f.root[z] < f.root.len()
            && f.root[f.root[z]] == f.root[z] by {
            let r = f.root[z];
            assert(self.parents@[r] < 0);
        }
    }

    /// A forest of `n` singletons.
    pub fn new(n: usize) -> (uf: Self)
        requires
            n <= i32::MAX,
        ensures
            uf.wf(),
            uf.len() == n,
            uf@ == Seq::new(n as nat, |z: int| z),
    {
        let mut parents: Vec<i32> = Vec::new();
        let mut i: usize = 0;
        while i < n
            invariant
                i <= n,
                parents@.len() == i,
                forall|z: int| 0 <= z < i ==> parents@[z] == -1,
            decreases n - i,
        {
            parents.push(-1);
            i += 1;
        }
        let ghost f = Forest {
            root: Seq::new(n as nat, |z: int| z),
            height: Seq::new(n as nat, |z: int| 0nat),
            bound: 1,
        };
        let uf = UnionFind { parents, n, forest: Ghost(f) };
        proof {
            assert forall|z: int| 0 <= z < n implies class_of(f.root, z).len() == 1 by {
                assert(class_of(f.root, z) =~= set![z]);
            }
            uf.lemma_inv_wf();
        }
        uf
    }

    fn find_root(&mut self, x: usize) -> (root: usize)
        requires
            old(self).inv(),
            x < old(self).n,
        ensures
            final(self).inv(),
            final(self).forest@ == old(self).forest@,
            final(self).n == old(self).n,
            root == old(self).forest@.root[x as int],
            old(self).forest@.height[root as int] >= old(self).forest@.height[x as int],
        decreases old(self).forest@.bound - old(self).forest@.height[x as int],
    {
        let p = self.parents[x];
        if p < 0 {
            x
        } else {
            let ghost f = self.forest@;
            assert(f.height[p as int] > f.height[x as int]);
            let root = self.find_root(p as usize);
            assert(f.root[root as int] == root);
            assert(self.parents@[root as int] < 0);
            assert(self.parents@[x as int] >= 0);
            self.parents.set(x, root as i32);
            root
        }
    }

    /// The representative of the set that holds `x`. Shortens the paths it
    /// walks; the sets stay as they are.
    pub fn find(&mut self, x: usize) -> (root: usize)
        requires
            old(self).wf(),
            x < old(self).len(),
        ensures
            final(self).wf(),
            final(self).len() == old(self).len(),
            final(self)@ == old(self)@,
            root == old(self)@[x as int],
    {
        let root = self.find_root(x);
        proof {
            self.lemma_inv_wf();
        }
        root
    }

    /// Joins the sets that hold `x` and `y`.
    pub fn union(&mut self, x: usize, y: usize)
        requires
            old(self).wf(),
            x < old(self).len(),
            y < old(self).len(),
        ensures
            final(self).wf(),
            final(self).len() == old(self).len(),
            final(self)@ == merged(old(self)@, x as int, y as int),
    {
        let mut root_x = self.find_root(x);
        let mut root_y = self.find_root(y);
        if root_x != root_y {
            let ghost f = self.forest@;
            let ghost rx = root_x as int;
            let ghost ry = root_y as int;
            if self.parents[root_x] > self.parents[root_y] {
                let t = root_x;
                root_x = root_y;
                root_y = t;
            }
            let ghost win = root_x as int;
            let ghost lose = root_y as int;
            let ghost new_root = Seq::new(
                f.root.len(),
                |z: int| if f.root[z] == lose { win } else { f.root[z] },
            );
            proof {
                lemma_class_finite(f.root, win);
                lemma_class_finite(f.root, lose);
                lemma_class_finite(new_root, win);
                assert(class_of(f.root, win).disjoint(class_of(f.root, lose)));
                lemma_set_disjoint_lens(class_of(f.root, win), class_of(f.root, lose));
                assert(class_of(new_root, win) =~= class_of(f.root, win) + class_of(f.root, lose));
                assert(self.parents@[win] < 0 && self.parents@[lose] < 0);
                assert(new_root =~= merged(f.root, x as int, y as int));
            }
            let size_x = self.parents[root_x];
            let size_y = self.parents[root_y];
            self.parents.set(root_x, size_x + size_y);
            self.parents.set(root_y, root_x as i32);
            let ghost h = if f.height[win] > f.height[lose] {
                f.height[win]
            } else {
                (f.height[lose] + 1) as nat
            };
            self.forest = Ghost(
                Forest { root: new_root, height: f.height.update(win, h), bound: f.bound + 1 },
            );
            proof {
                let g = self.forest@;
                assert forall|z: int|
                    0 <= z < self.n && (#[trigger] self.parents@[z]) < 0 implies g.root[z] == z
                    && -self.parents@[z] == class_of(g.root, z).len() by {
                    if z != win {
                        assert(f.root[z] == z);
                        assert(class_of(g.root, z) =~= class_of(f.root, z));
                    }
                }
                assert forall|z: int|
                    0 <= z < self.n
                    implies 0 <= #[trigger] g.root[z] < self.n && self.parents@[g.root[z]] < 0 by {
                    assert(0 <= f.root[z] < self.n);
                }
                assert forall|z: int|
                    0 <= z < self.n && (#[trigger] self.parents@[z]) >= 0 implies self.parents@[z]
                    < self.n && g.root[self.parents@[z] as int] == g.root[z]
                    && g.height[self.parents@[z] as int]
                    > g.height[z] by {
                    if z != lose {
                        let p = self.parents@[z] as int;
                        assert(f.root[p] == f.root[z]);
                        assert(f.height[p] > f.height[z]);
                    }
                }
                assert forall|z: int|
                    0 <= z < self.n implies (#[trigger] g.height[z]) < g.bound by {
                    assert(f.height[z] < f.bound);
                }
            }
        } else {
            assert(self.forest@.root =~= merged(self.forest@.root, x as int, y as int));
        }
        proof {
            self.lemma_inv_wf();
        }
    }

    /// The number of elements in the set that holds `x`.
    pub fn size(&mut self, x: usize) -> (count: i32)
        requires
            old(self).wf(),
            x < old(self).len(),
        ensures
            final(self).wf(),
            final(self).len() == old(self).len(),
            final(self)@ == old(self)@,
            count == class_of(old(self)@, old(self)@[x as int]).len(),
    {
        let root = self.find_root(x);
        proof {
            self.lemma_inv_wf();
            assert(self.parents@[root as int] < 0);
            lemma_class_finite(self.forest@.root, root as int);
        }
        -self.parents[root]
    }

    /// The representatives, in ascending order.
    pub fn roots(&self) -> (list: Vec<usize>)
        requires
            self.wf(),
        ensures
            ascending(list@),
            forall|k: int|
                0 <= k < list.len() ==> list[k] < self.len() && self@[list[k] as int] == list[k],
            forall|z: int| 0 <= z < self.len() && self@[z] == z ==> list@.contains(z as usize),
    {
        let mut list: Vec<usize> = Vec::new();
        let mut i: usize = 0;
        while i < self.n
            invariant
                self.inv(),
                i <= self.n,
                ascending(list@),
                forall|k: int|
                    0 <= k < list.len() ==> list[k] < i && self@[list[k] as int] == list[k],
                forall|z: int| 0 <= z < i && self@[z] == z ==> list@.contains(z as usize),
            decreases self.n - i,
        {
            if self.parents[i] < 0 {
                let ghost before = list@;
                list.push(i);
                proof {
                    assert(list@[before.len() as int] == i);
                    assert forall|z: int|
                        0 <= z < i + 1 && self@[z] == z implies list@.contains(z as usize) by {
                        if z < i {
                            let k = choose|k: int| 0 <= k < before.len() && before[k] == z as usize;
                            assert(list@[k] == z as usize);
                        }
                    }
                }
            } else {
                assert(self.forest@.root[i as int] != i) by {
                    let r = self.forest@.root[i as int];
                    assert(self.parents@[r] < 0);
                }
            }
            i += 1;
        }
        list
    }

    /// The elements of the set that holds `x`, in ascending order.
    pub fn members(&mut self, x: usize) -> (list: Vec<usize>)
        requires
            old(self).wf(),
            x < old(self).len(),
        ensures
            final(self).wf(),
            final(self).len() == old(self).len(),
            final(self)@ == old(self)@,
            ascending(list@),
            forall|k: int|
                0 <= k < list.len()
                    ==> list[k] < old(self).len() && old(self)@[list[k] as int] == old(self)@[x
                    as int],
            forall|z: int|
                0 <= z < old(self).len() && old(self)@[z] == old(self)@[x as int]
                    ==> list@.contains(z as usize),
    {
        let root = self.find_root(x);
        let ghost view = self@;
        let mut list: Vec<usize> = Vec::new();
        let mut i: usize = 0;
        while i < self.n
            invariant
                self.inv(),
                self@ == view,
                self.n == old(self).n,
                root == view[x as int],
                i <= self.n,
                ascending(list@),
                forall|k: int| 0 <= k < list.len() ==> list[k] < i && view[list[k] as int] == root,
                forall|z: int| 0 <= z < i && view[z] == root ==> list@.contains(z as usize),
            decreases self.n - i,
        {
            let r = self.find_root(i);
            if r == root {
                let ghost before = list@;
                list.push(i);
                proof {
                    assert(list@[before.len() as int] == i);
                    assert forall|z: int|
                        0 <= z < i + 1 && view[z] == root implies list@.contains(z as usize) by {
                        if z < i {
                            let k = choose|k: int| 0 <= k < before.len() && before[k] == z as usize;
                            assert(list@[k] == z as usize);
                        }
                    }
                }
            }
            i += 1;
        }
        proof {
            self.lemma_inv_wf();
        }
        list
    }
}

} // verus!
