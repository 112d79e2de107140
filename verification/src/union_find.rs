//! Disjoint sets of the indices `0..n`, merged by size.

use vstd::prelude::*;

verus! {

/// The sum of the recorded sizes of the roots among the first `k` indices.
pub open spec fn root_sizes(parent: Seq<usize>, size: Seq<usize>, k: nat) -> nat
    decreases k,
{
    if k == 0 {
        0
    } else {
        let i = (k - 1) as int;
        root_sizes(parent, size, (k - 1) as nat) + if parent[i] == i {
            size[i] as nat
        } else {
            0
        }
    }
}

/// Every parent is an index, and every step to a parent that is not a loop
/// increases the height, which stays below `limit`.
pub open spec fn forest(parent: Seq<usize>, height: Seq<nat>, limit: nat) -> bool {
    &&& height.len() == parent.len()
    &&& forall|i: int|
        #![trigger parent[i]]
        #![trigger height[i]]
        0 <= i < parent.len() ==> {
            &&& parent[i] < parent.len()
            &&& height[i] < limit
            &&& (parent[i] != i ==> height[i] < height[parent[i] as int])
        }
}

/// The root that the parent links lead to from `x`.
pub open spec fn root_of(parent: Seq<usize>, height: Seq<nat>, limit: nat, x: usize) -> usize
    decreases limit - height[x as int],
    when forest(parent, height, limit) && x < parent.len()
{
    if parent[x as int] == x {
        x
    } else {
        root_of(parent, height, limit, parent[x as int])
    }
}

/// The root of an index is an index and its own parent.
pub proof fn lemma_root_of(parent: Seq<usize>, height: Seq<nat>, limit: nat, x: usize)
    requires
        forest(parent, height, limit),
        x < parent.len(),
    ensures
        root_of(parent, height, limit, x) < parent.len(),
        parent[root_of(parent, height, limit, x) as int] == root_of(parent, height, limit, x),
        root_of(parent, height, limit, root_of(parent, height, limit, x)) == root_of(parent, height, limit, x),
    decreases limit - height[x as int],
{
    if parent[x as int] != x {
        lemma_root_of(parent, height, limit, parent[x as int]);
    }
}

/// Hanging the root `a` below the different root `b` sends every index whose
/// root was `a` to `b` and leaves the other roots as they were.
pub proof fn lemma_link(
    parent: Seq<usize>,
    height: Seq<nat>,
    limit: nat,
    a: usize,
    b: usize,
    z: usize,
)
    requires
        forest(parent, height, limit),
        a < parent.len(),
        b < parent.len(),
        z < parent.len(),
        parent[a as int] == a,
        parent[b as int] == b,
        a != b,
    ensures
        forest(parent.update(a as int, b), height.update(b as int, limit), limit + 1),
        root_of(parent.update(a as int, b), height.update(b as int, limit), limit + 1, z) == if root_of(
            parent,
            height,
            limit,
            z,
        ) == a {
            b
        } else {
            root_of(parent, height, limit, z)
        },
    decreases limit - height[z as int],
{
    let parent2 = parent.update(a as int, b);
    let height2 = height.update(b as int, limit);
    assert(forest(parent2, height2, limit + 1)) by {
        assert forall|i: int|
            #![trigger parent2[i]]
            #![trigger height2[i]]
            0 <= i < parent2.len() implies {
            &&& parent2[i] < parent2.len()
            &&& height2[i] < limit + 1
            &&& (parent2[i] != i ==> height2[i] < height2[parent2[i] as int])
        } by {
            assert(parent[i] < parent.len());
        }
    }
    if z == a {
        assert(parent2[b as int] == b);
        assert(root_of(parent2, height2, limit + 1, b) == b);
        assert(root_of(parent2, height2, limit + 1, a) == root_of(parent2, height2, limit + 1, b));
    } else if parent[z as int] == z {
        assert(parent2[z as int] == z);
    } else {
        lemma_link(parent, height, limit, a, b, parent[z as int]);
        assert(parent2[z as int] == parent[z as int]);
        assert(root_of(parent2, height2, limit + 1, z) == root_of(
            parent2,
            height2,
            limit + 1,
            parent2[z as int],
        ));
    }
}

/// Changing the parent of an index and the size of another changes the sum
/// of the root sizes accordingly.
pub proof fn lemma_root_sizes_bound(parent: Seq<usize>, size: Seq<usize>, k: nat, i: int, j: int)
    requires
        k <= parent.len() == size.len(),
        0 <= i < j < k,
        parent[i] == i,
        parent[j] == j,
    ensures
        size[i] + size[j] <= root_sizes(parent, size, k),
    decreases k,
{
    if j == k - 1 {
        lemma_root_sizes_single(parent, size, (k - 1) as nat, i);
    } else {
        lemma_root_sizes_bound(parent, size, (k - 1) as nat, i, j);
    }
}

/// The size of one root among the first `k` indices is at most the sum.
pub proof fn lemma_root_sizes_single(parent: Seq<usize>, size: Seq<usize>, k: nat, i: int)
    requires
        k <= parent.len() == size.len(),
        0 <= i < k,
        parent[i] == i,
    ensures
        size[i] <= root_sizes(parent, size, k),
    decreases k,
{
    if i < k - 1 {
        lemma_root_sizes_single(parent, size, (k - 1) as nat, i);
    }
}

/// Hanging the root `a` below the root `b` and adding its size to that of
/// `b` keeps the sum of the root sizes.
pub proof fn lemma_root_sizes_link(parent: Seq<usize>, size: Seq<usize>, k: nat, a: int, b: int)
    requires
        k <= parent.len() == size.len(),
        0 <= a < parent.len(),
        0 <= b < parent.len(),
        a != b,
        parent[a] == a,
        parent[b] == b,
        size[a] + size[b] <= usize::MAX,
    ensures
        root_sizes(parent.update(a, b as usize), size.update(b, (size[a] + size[b]) as usize), k) == root_sizes(
            parent,
            size,
            k,
        ) + (if b < k && !(a < k) {
            size[a] as int
        } else {
            0
        }) - (if a < k && !(b < k) {
            size[a] as int
        } else {
            0
        }),
    decreases k,
{
    if k > 0 {
        lemma_root_sizes_link(parent, size, (k - 1) as nat, a, b);
    }
}

/// Disjoint sets of `0..n`: each index has a parent, and the indices that
/// lead to the same root form one set.
pub struct UnionFind {
    parent: Vec<usize>,
    size: Vec<usize>,
    height: Ghost<Seq<nat>>,
    limit: Ghost<nat>,
}

impl UnionFind {
    /// The number of indices.
    pub closed spec fn len(&self) -> nat {
        self.parent@.len()
    }

    /// The parent links form a forest, and the sizes recorded at the roots
    /// add up to the number of indices.
    pub closed spec fn wf(&self) -> bool {
        &&& self.size@.len() == self.parent@.len()
        &&& forest(self.parent@, self.height@, self.limit@)
        &&& root_sizes(self.parent@, self.size@, self.parent@.len()) == self.parent@.len()
    }

    /// The representative of the set of `x`.
    pub closed spec fn root(&self, x: usize) -> usize {
        root_of(self.parent@, self.height@, self.limit@, x)
    }

    /// The size recorded at `x`; for a root, the size of its set.
    pub closed spec fn recorded_size(&self, x: usize) -> usize {
        self.size@[x as int]
    }

    /// Whether `x` and `y` are in the same set.
    pub open spec fn same(&self, x: usize, y: usize) -> bool {
        self.root(x) == self.root(y)
    }

    /// A representative is an index and represents itself.
    pub proof fn lemma_root(&self, x: usize)
        requires
            self.wf(),
            x < self.len(),
        ensures
            self.root(x) < self.len(),
            self.root(self.root(x)) == self.root(x),
    {
        lemma_root_of(self.parent@, self.height@, self.limit@, x);
    }

    /// Creates `n` sets of one index each.
    pub fn new(n: usize) -> (uf: UnionFind)
        ensures
            uf.wf(),
            uf.len() == n,
            forall|x: usize| x < n ==> #[trigger] uf.root(x) == x,
            forall|x: usize| x < n ==> #[trigger] uf.recorded_size(x) == 1,
    {
        let mut parent: Vec<usize> = Vec::with_capacity(n);
        let mut size: Vec<usize> = Vec::with_capacity(n);
        let mut i: usize = 0;
        while i < n
            invariant
                i <= n,
                parent@.len() == i,
                size@.len() == i,
                forall|j: int| 0 <= j < i ==> #[trigger] parent@[j] == j,
                forall|j: int| 0 <= j < i ==> #[trigger] size@[j] == 1,
                root_sizes(parent@, size@, i as nat) == i,
            decreases n - i,
        {
            proof {
                lemma_root_sizes_extend(parent@, size@, i as nat, i, 1);
            }
            parent.push(i);
            size.push(1);
            i += 1;
        }
        let uf = UnionFind { parent, size, height: Ghost(Seq::new(n as nat, |j: int| 0nat)), limit: Ghost(1nat) };
        assert forall|x: usize| x < n implies #[trigger] uf.root(x) == x by {
            assert(uf.parent@[x as int] == x);
        }
        uf
    }

    /// The representative of the set of `x`.
    pub fn find(&mut self, x: usize) -> (r: usize)
        requires
            old(self).wf(),
            x < old(self).len(),
        ensures
            r == old(self).root(x),
            r < old(self).len(),
            *final(self) == *old(self),
    {
        let mut at = x;
        proof {
            lemma_root_of(self.parent@, self.height@, self.limit@, x);
        }
        while at != self.parent[at]
            invariant
                *self == *old(self),
                self.wf(),
                at < self.parent@.len(),
                self.root(at) == self.root(x),
            decreases self.limit@ - self.height@[at as int],
        {
            at = self.parent[at];
        }
        at
    }

    /// Merges the sets of `x` and `y`: the root of the smaller set is hung
    /// below the root of the larger one, that of `y` below that of `x` when
    /// the sizes are equal.
    pub fn union(&mut self, x: usize, y: usize)
        requires
            old(self).wf(),
            x < old(self).len(),
            y < old(self).len(),
        ensures
            final(self).wf(),
            final(self).len() == old(self).len(),
            forall|z: usize| z < old(self).len() ==> #[trigger] final(self).root(z) == union_root(*old(self), x, y, z),
            forall|z: usize|
                z < old(self).len() ==> #[trigger] final(self).recorded_size(z) == union_size(*old(self), x, y, z),
    {
        let x_root = self.find(x);
        let y_root = self.find(y);
        if x_root == y_root {
            return ;
        }
        let ghost parent = self.parent@;
        let ghost size = self.size@;
        let ghost height = self.height@;
        let ghost limit = self.limit@;
        proof {
            lemma_root_of(parent, height, limit, x);
            lemma_root_of(parent, height, limit, y);
            if x_root < y_root {
                lemma_root_sizes_bound(parent, size, parent.len(), x_root as int, y_root as int);
            } else {
                lemma_root_sizes_bound(parent, size, parent.len(), y_root as int, x_root as int);
            }
            assert(parent.len() == self.parent.len());
            assert(size[x_root as int] + size[y_root as int] <= usize::MAX);
        }
        let x_size = self.size[x_root];
        let y_size = self.size[y_root];
        if x_size < y_size {
            self.parent[x_root] = y_root;
            self.size[y_root] = x_size + y_size;
            proof {
                self.height@ = height.update(y_root as int, limit);
                self.limit@ = limit + 1;
                lemma_root_sizes_link(parent, size, parent.len(), x_root as int, y_root as int);
                assert forall|z: usize| z < parent.len() implies #[trigger] self.root(z) == (if old(self).root(z)
                    == x_root {
                    y_root
                } else {
                    old(self).root(z)
                }) by {
                    lemma_link(parent, height, limit, x_root, y_root, z);
                }
                lemma_link(parent, height, limit, x_root, y_root, x_root);
            }
        } else {
            self.parent[y_root] = x_root;
            self.size[x_root] = x_size + y_size;
            proof {
                self.height@ = height.update(x_root as int, limit);
                self.limit@ = limit + 1;
                lemma_root_sizes_link(parent, size, parent.len(), y_root as int, x_root as int);
                assert forall|z: usize| z < parent.len() implies #[trigger] self.root(z) == (if old(self).root(z)
                    == y_root {
                    x_root
                } else {
                    old(self).root(z)
                }) by {
                    lemma_link(parent, height, limit, y_root, x_root, z);
                }
                lemma_link(parent, height, limit, y_root, x_root, y_root);
            }
        }
    }

    /// Whether `x` and `y` are in the same set.
    pub fn same_set(&mut self, x: usize, y: usize) -> (r: bool)
        requires
            old(self).wf(),
            x < old(self).len(),
            y < old(self).len(),
        ensures
            r == old(self).same(x, y),
            *final(self) == *old(self),
    {
        self.find(x) == self.find(y)
    }

    /// After a union two indices are in the same set exactly if they were
    /// before, or if one was with `x` and the other with `y`.
    pub proof fn lemma_union_merges(before: UnionFind, after: UnionFind, x: usize, y: usize, a: usize, b: usize)
        requires
            before.wf(),
            x < before.len(),
            y < before.len(),
            a < before.len(),
            b < before.len(),
            after.root(a) == union_root(before, x, y, a),
            after.root(b) == union_root(before, x, y, b),
        ensures
            after.same(a, b) <==> before.same(a, b) || (before.same(a, x) && before.same(b, y)) || (before.same(a, y)
                && before.same(b, x)),
    {
    }
}

/// The representative of `z` after the sets of `x` and `y` were merged.
pub open spec fn union_root(before: UnionFind, x: usize, y: usize, z: usize) -> usize {
    if before.same(x, y) {
        before.root(z)
    } else if before.recorded_size(before.root(x)) < before.recorded_size(before.root(y)) {
        if before.root(z) == before.root(x) {
            before.root(y)
        } else {
            before.root(z)
        }
    } else {
        if before.root(z) == before.root(y) {
            before.root(x)
        } else {
            before.root(z)
        }
    }
}

/// The size recorded at `z` after the sets of `x` and `y` were merged: at
/// the root that stays, the sum of the sizes of the two sets; elsewhere what
/// it was.
pub open spec fn union_size(before: UnionFind, x: usize, y: usize, z: usize) -> int {
    if !before.same(x, y) && z == union_root(before, x, y, x) {
        before.recorded_size(before.root(x)) + before.recorded_size(before.root(y))
    } else {
        before.recorded_size(z) as int
    }
}

/// Appending a root of the given size adds that size to the sum.
pub proof fn lemma_root_sizes_extend(parent: Seq<usize>, size: Seq<usize>, k: nat, p: usize, s: usize)
    requires
        k <= parent.len() == size.len(),
    ensures
        root_sizes(parent.push(p), size.push(s), k) == root_sizes(parent, size, k),
        k == parent.len() && p == k ==> root_sizes(parent.push(p), size.push(s), k + 1) == root_sizes(parent, size, k)
            + s,
    decreases k,
{
    if k > 0 {
        lemma_root_sizes_extend(parent, size, (k - 1) as nat, p, s);
    }
}

} // verus!
