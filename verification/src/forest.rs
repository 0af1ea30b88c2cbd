//! Disjoint sets over the numbers below a bound, kept as a forest of parent
//! links: union by linking roots, find with path halving.

use vstd::prelude::*;

verus! {

/// A partition of `0..len` into sets. `parent[x]` is the parent of `x`, and
/// `x` itself for a root. Beside the links stand, for the proofs only, the
/// root in which each chain of links ends, and a height that grows along
/// every link.
pub struct Forest {
    parent: Vec<usize>,
    root: Ghost<Seq<int>>,
    height: Ghost<Seq<int>>,
    cap: Ghost<int>,
}

/// The roots after the set with root `from` has been merged into the set with
/// root `into`.
pub open spec fn merged(root: Seq<int>, from: int, into: int) -> Seq<int> {
    Seq::new(
        root.len(),
        |x: int|
            if root[x] == from {
                into
            } else {
                root[x]
            },
    )
}

impl Forest {
    /// How many numbers the forest holds.
    pub closed spec fn len(&self) -> int {
        self.parent.len() as int
    }

    /// The root of the set that each number is in.
    pub closed spec fn roots(&self) -> Seq<int> {
        self.root@
    }

    /// Every chain of parent links ends in the root that is recorded for it.
    pub closed spec fn wf(&self) -> bool {
        &&& self.root@.len() == self.parent.len()
        &&& self.height@.len() == self.parent.len()
        &&& forall|x: int|
            0 <= x < self.parent.len() ==> {
                &&& 0 <= (#[trigger] self.parent[x]) < self.parent.len()
                &&& 0 <= self.root@[x] < self.parent.len()
                &&& 0 <= self.height@[x] <= self.cap@
                &&& self.parent[x] == x ==> self.root@[x] == x
                &&& self.parent[self.root@[x]] == self.root@[x]
                &&& self.root@[self.parent[x] as int] == self.root@[x]
                &&& self.parent[x] != x ==> self.height@[x] < self.height@[self.parent[x] as int]
            }
    }

    /// A root is a number below the length, and a root's root is itself.
    pub proof fn lemma_roots(&self)
        requires
            self.wf(),
        ensures
            self.roots().len() == self.len(),
            forall|x: int| 0 <= x < self.len() ==> 0 <= (#[trigger] self.roots()[x]) < self.len(),
    {
        assert forall|x: int| 0 <= x < self.len() implies 0 <= (#[trigger] self.roots()[x])
            < self.len() by {
            assert(0 <= self.parent[x] < self.parent.len());
        }
    }

    /// A forest of `n` sets of one number each.
    pub fn new(n: usize) -> (forest: Forest)
        ensures
            forest.wf(),
            forest.len() == n,
            forest.roots() == Seq::new(n as nat, |x: int| x),
    {
        let mut parent: Vec<usize> = Vec::new();
        let mut k: usize = 0;
        while k < n
            invariant
                k <= n,
                parent.len() == k,
                forall|x: int| 0 <= x < k ==> #[trigger] parent[x] == x,
            decreases n - k,
        {
            parent.push(k);
            k += 1;
        }
        Forest {
            parent,
            root: Ghost(Seq::new(n as nat, |x: int| x)),
            height: Ghost(Seq::new(n as nat, |x: int| 0int)),
            cap: Ghost(0int),
        }
    }

    /// The root of the set that `x` is in. Every number passed on the way is
    /// linked to its grandparent; no set changes.
    pub fn find(&mut self, x: usize) -> (r: usize)
        requires
            old(self).wf(),
            x < old(self).len(),
        ensures
            final(self).wf(),
            final(self).len() == old(self).len(),
            final(self).roots() == old(self).roots(),
            r == old(self).roots()[x as int],
    {
        let ghost start_root = self.root@;
        let ghost wanted = self.root@[x as int];
        let mut x = x;
        while self.parent[x] != x
            invariant
                self.wf(),
                self.parent.len() == old(self).parent.len(),
                self.root@ == start_root,
                x < self.parent.len(),
                self.root@[x as int] == wanted,
            decreases self.cap@ - self.height@[x as int],
        {
            let p = self.parent[x];
            assert(0 <= self.parent[p as int] < self.parent.len());
            let gp = self.parent[p];
            let ghost before = *self;
            assert(self.height@[x as int] < self.height@[p as int]);
            assert(self.height@[p as int] <= self.height@[gp as int]);
            assert(0 <= self.parent[gp as int] < self.parent.len());
            self.parent[x] = gp;
            proof {
                assert forall|y: int| 0 <= y < self.parent.len() implies {
                    &&& 0 <= (#[trigger] self.parent[y]) < self.parent.len()
                    &&& 0 <= self.root@[y] < self.parent.len()
                    &&& 0 <= self.height@[y] <= self.cap@
                    &&& self.parent[y] == y ==> self.root@[y] == y
                    &&& self.parent[self.root@[y]] == self.root@[y]
                    &&& self.root@[self.parent[y] as int] == self.root@[y]
                    &&& self.parent[y] != y ==> self.height@[y] < self.height@[self.parent[y] as int]
                } by {
                    assert(0 <= before.parent[y] < before.parent.len());
                    assert(0 <= before.parent[x as int] < before.parent.len());
                    assert(0 <= before.parent[p as int] < before.parent.len());
                    let ry = before.root@[y];
                    assert(0 <= before.parent[ry] < before.parent.len());
                }
            }
            x = gp;
        }
        proof {
            assert(0 <= self.parent[x as int] < self.parent.len());
        }
        x
    }

    /// Merges the set of `a` into the set of `b`.
    pub fn union(&mut self, a: usize, b: usize)
        requires
            old(self).wf(),
            a < old(self).len(),
            b < old(self).len(),
        ensures
            final(self).wf(),
            final(self).len() == old(self).len(),
            final(self).roots() == merged(
                old(self).roots(),
                old(self).roots()[a as int],
                old(self).roots()[b as int],
            ),
    {
        let root_a = self.find(a);
        let root_b = self.find(b);
        let ghost before = *self;
        proof {
            assert(0 <= before.parent[a as int] < before.parent.len());
            assert(0 <= before.parent[b as int] < before.parent.len());
            assert(0 <= before.parent[root_a as int] < before.parent.len());
            assert(0 <= before.parent[root_b as int] < before.parent.len());
        }
        if root_a != root_b {
            self.parent[root_a] = root_b;
            proof {
                let lifted = if before.height@[root_b as int] > before.height@[root_a as int] {
                    before.height@[root_b as int]
                } else {
                    before.height@[root_a as int] + 1
                };
                self.root@ = merged(before.root@, root_a as int, root_b as int);
                self.height@ = before.height@.update(root_b as int, lifted);
                self.cap@ = before.cap@ + 1;
                assert forall|y: int| 0 <= y < self.parent.len() implies {
                    &&& 0 <= (#[trigger] self.parent[y]) < self.parent.len()
                    &&& 0 <= self.root@[y] < self.parent.len()
                    &&& 0 <= self.height@[y] <= self.cap@
                    &&& self.parent[y] == y ==> self.root@[y] == y
                    &&& self.parent[self.root@[y]] == self.root@[y]
                    &&& self.root@[self.parent[y] as int] == self.root@[y]
                    &&& self.parent[y] != y ==> self.height@[y] < self.height@[self.parent[y] as int]
                } by {
                    assert(0 <= before.parent[y] < before.parent.len());
                    let py = before.parent[y] as int;
                    assert(0 <= before.parent[py] < before.parent.len());
                    let ry = before.root@[y];
                    assert(0 <= before.parent[ry] < before.parent.len());
                }
            }
        } else {
            proof {
                assert(self.root@ =~= merged(before.root@, root_a as int, root_b as int));
            }
        }
    }
}

} // verus!
