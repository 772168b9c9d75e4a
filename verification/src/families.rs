//! Disjoint sets by union and find: every member points to a parent in
//! its set, the one that points to itself is the head of the set, and
//! two sets are joined by making the head of the smaller point to the
//! head of the larger.

use vstd::prelude::*;

verus! {

/// Whether the links of `parent` form trees: every parent is a member,
/// and a member that is no head lies deeper than its parent.
pub open spec fn links_ok(parent: Seq<usize>, depth: Seq<nat>) -> bool {
    &&& depth.len() == parent.len()
    &&& forall|x: int| 0 <= x < parent.len() ==> (#[trigger] parent[x]) < parent.len()
    &&& forall|x: int|
        0 <= x < parent.len() && (#[trigger] parent[x]) != x ==> depth[parent[x] as int] < depth[x]
}

/// The head of the set of `x`: the member reached from `x` by following
/// the parents.
pub open spec fn head(parent: Seq<usize>, depth: Seq<nat>, x: int) -> int
    decreases depth[x],
    when links_ok(parent, depth) && 0 <= x < parent.len()
{
    if parent[x] == x {
        x
    } else {
        head(parent, depth, parent[x] as int)
    }
}

/// The head of a set is a member that is its own parent, and lies no
/// deeper than any member of the set.
pub proof fn lemma_head(parent: Seq<usize>, depth: Seq<nat>, x: int)
    requires
        links_ok(parent, depth),
        0 <= x < parent.len(),
    ensures
        0 <= head(parent, depth, x) < parent.len(),
        parent[head(parent, depth, x)] == head(parent, depth, x),
        depth[head(parent, depth, x)] <= depth[x],
        parent[x] != x ==> depth[head(parent, depth, x)] < depth[x],
        head(parent, depth, head(parent, depth, x)) == head(parent, depth, x),
        head(parent, depth, parent[x] as int) == head(parent, depth, x),
    decreases depth[x],
{
    if parent[x] != x {
        lemma_head(parent, depth, parent[x] as int);
    }
}

/// The head of a set does not depend on the depths that witness the
/// trees.
pub proof fn lemma_head_any_depth(parent: Seq<usize>, depth: Seq<nat>, other: Seq<nat>, x: int)
    requires
        links_ok(parent, depth),
        links_ok(parent, other),
        0 <= x < parent.len(),
    ensures
        head(parent, depth, x) == head(parent, other, x),
    decreases depth[x],
{
    if parent[x] != x {
        lemma_head_any_depth(parent, depth, other, parent[x] as int);
    }
}

/// Pointing a member straight to the head of its set changes no head.
pub proof fn lemma_shortcut(parent: Seq<usize>, depth: Seq<nat>, x: int, y: int)
    requires
        links_ok(parent, depth),
        0 <= x < parent.len(),
        0 <= y < parent.len(),
    ensures
        links_ok(parent.update(x, head(parent, depth, x) as usize), depth),
        head(parent.update(x, head(parent, depth, x) as usize), depth, y) == head(parent, depth, y),
    decreases depth[y],
{
    let r = head(parent, depth, x);
    let next = parent.update(x, r as usize);
    lemma_head(parent, depth, x);
    assert(links_ok(next, depth)) by {
        assert forall|z: int| 0 <= z < next.len() implies (#[trigger] next[z]) < next.len() by {}
        assert forall|z: int| 0 <= z < next.len() && (#[trigger] next[z]) != z implies depth[next[z] as int]
            < depth[z] by {
            if z != x {
                assert(next[z] == parent[z]);
            }
        }
    }
    if y == x {
        if r != x {
            lemma_head(parent, depth, r);
            lemma_shortcut(parent, depth, x, r);
        }
    } else if parent[y] != y {
        lemma_shortcut(parent, depth, x, parent[y] as int);
    }
}

/// The depths after the tree with head `lose` is hung below `win`: the
/// members of that tree lie deeper by the depth of `win` and one.
pub open spec fn hung_depth(parent: Seq<usize>, depth: Seq<nat>, lose: int, win: int) -> Seq<nat> {
    Seq::new(
        depth.len(),
        |z: int|
            if head(parent, depth, z) == lose {
                depth[z] + depth[win] + 1
            } else {
                depth[z]
            },
    )
}

/// Hanging one head below another joins their sets and leaves the other
/// sets as they were.
pub proof fn lemma_hung(parent: Seq<usize>, depth: Seq<nat>, lose: int, win: int, y: int)
    requires
        links_ok(parent, depth),
        0 <= lose < parent.len(),
        0 <= win < parent.len(),
        parent[lose] == lose,
        parent[win] == win,
        lose != win,
        0 <= y < parent.len(),
    ensures
        links_ok(parent.update(lose, win as usize), hung_depth(parent, depth, lose, win)),
        head(parent.update(lose, win as usize), hung_depth(parent, depth, lose, win), y) == if head(
            parent,
            depth,
            y,
        ) == lose {
            win
        } else {
            head(parent, depth, y)
        },
    decreases depth[y],
{
    let next = parent.update(lose, win as usize);
    let deeper = hung_depth(parent, depth, lose, win);
    assert(links_ok(next, deeper)) by {
        assert forall|z: int| 0 <= z < next.len() implies (#[trigger] next[z]) < next.len() by {}
        assert forall|z: int| 0 <= z < next.len() && (#[trigger] next[z]) != z implies deeper[next[z] as int]
            < deeper[z] by {
            lemma_head(parent, depth, z);
            if z == lose {
                lemma_head(parent, depth, win);
            } else {
                lemma_head(parent, depth, parent[z] as int);
            }
        }
    }
    lemma_head(parent, depth, y);
    if y == lose {
        lemma_head(parent, depth, win);
        assert(next[win] == win);
        assert(head(next, deeper, win) == win);
        assert(head(next, deeper, y) == head(next, deeper, win));
    } else if parent[y] != y {
        lemma_hung(parent, depth, lose, win, parent[y] as int);
        assert(next[y] == parent[y]);
    } else {
        assert(next[y] == y);
    }
}

/// The head that wins when the sets of `x` and `y` are joined: that of
/// `x`, unless its size is smaller than that of the head of `y`.
pub open spec fn winner(heads: Seq<int>, sizes: Seq<nat>, x: int, y: int) -> int {
    if sizes[heads[x]] < sizes[heads[y]] {
        heads[y]
    } else {
        heads[x]
    }
}

/// The heads of all members when the sets of `x` and `y` are joined.
pub open spec fn joined_heads(heads: Seq<int>, sizes: Seq<nat>, x: int, y: int) -> Seq<int> {
    Seq::new(
        heads.len(),
        |z: int|
            if heads[z] == heads[x] || heads[z] == heads[y] {
                winner(heads, sizes, x, y)
            } else {
                heads[z]
            },
    )
}

/// The sizes kept for all members when the sets of `x` and `y` are
/// joined: for the winner the sum of the sizes of both heads, as far as
/// it fits in a `usize`.
pub open spec fn joined_sizes(heads: Seq<int>, sizes: Seq<nat>, x: int, y: int) -> Seq<nat> {
    let sum = sizes[heads[x]] + sizes[heads[y]];
    Seq::new(
        sizes.len(),
        |z: int|
            if heads[x] != heads[y] && z == winner(heads, sizes, x, y) {
                if sum <= usize::MAX {
                    sum
                } else {
                    usize::MAX as nat
                }
            } else {
                sizes[z]
            },
    )
}

/// Sets of the members `0..len()`.
pub struct Families {
    parent: Vec<usize>,
    size: Vec<usize>,
    depth: Ghost<Seq<nat>>,
}

impl Families {
    /// The invariant: the links form trees, and every member has a
    /// size.
    pub closed spec fn wf(&self) -> bool {
        links_ok(self.parent@, self.depth@) && self.size@.len() == self.parent@.len()
    }

    /// The depths that witness the trees: every member lies deeper than
    /// its parent.
    pub closed spec fn depths(&self) -> Seq<nat> {
        self.depth@
    }

    /// The number of members.
    pub closed spec fn count(&self) -> nat {
        self.parent@.len()
    }

    /// The head of the set of `x`.
    pub closed spec fn head_of(&self, x: int) -> int {
        head(self.parent@, self.depth@, x)
    }

    /// The size that is kept for the member `x`; for a head, the number
    /// of members of its set, as long as that fits.
    pub closed spec fn size_of(&self, x: int) -> nat {
        self.size@[x] as nat
    }

    /// The head of the set of every member.
    pub open spec fn heads(&self) -> Seq<int> {
        Seq::new(self.count(), |z: int| self.head_of(z))
    }

    /// The size kept for every member.
    pub open spec fn sizes(&self) -> Seq<nat> {
        Seq::new(self.count(), |z: int| self.size_of(z))
    }

    /// Whether `x` and `y` are in one set.
    pub open spec fn same(&self, x: int, y: int) -> bool {
        self.head_of(x) == self.head_of(y)
    }

    /// The head of a set is a member and its own head.
    pub proof fn lemma_head_is_member(&self, x: int)
        requires
            self.wf(),
            0 <= x < self.count(),
        ensures
            0 <= self.head_of(x) < self.count(),
            self.head_of(self.head_of(x)) == self.head_of(x),
    {
        lemma_head(self.parent@, self.depth@, x);
    }

    /// `n` sets of one member each.
    pub fn new(n: usize) -> (r: Families)
        ensures
            r.wf(),
            r.count() == n,
            forall|x: int| 0 <= x < n ==> #[trigger] r.head_of(x) == x,
            forall|x: int| 0 <= x < n ==> #[trigger] r.size_of(x) == 1,
    {
        let mut parent: Vec<usize> = Vec::new();
        let mut size: Vec<usize> = Vec::new();
        let mut i: usize = 0;
        while i < n
            invariant
                i <= n,
                parent@.len() == i,
                size@.len() == i,
                forall|x: int| 0 <= x < i ==> #[trigger] parent@[x] == x && size@[x] == 1,
            decreases n - i,
        {
            parent.push(i);
            size.push(1);
            i += 1;
        }
        let ghost depth = Seq::new(n as nat, |x: int| 0nat);
        let r = Families { parent, size, depth: Ghost(depth) };
        assert(links_ok(r.parent@, r.depth@));
        assert forall|x: int| 0 <= x < n implies #[trigger] r.head_of(x) == x by {
            assert(r.parent@[x] == x);
            assert(head(r.parent@, r.depth@, x) == x);
        }
        assert forall|x: int| 0 <= x < n implies #[trigger] r.size_of(x) == 1 by {
            assert(r.parent@[x] == x && r.size@[x] == 1);
        }
        r
    }

    /// The number of members.
    pub fn len(&self) -> (n: usize)
        requires
            self.wf(),
        ensures
            n == self.count(),
    {
        self.parent.len()
    }

    /// The size kept for the member `x`.
    pub fn size(&self, x: usize) -> (s: usize)
        requires
            self.wf(),
            x < self.count(),
        ensures
            s == self.size_of(x as int),
    {
        self.size[x]
    }

    /// Finds the head of the set of `x`, and points every member on the
    /// way straight to it.
    pub fn find(&mut self, x: usize) -> (r: usize)
        requires
            old(self).wf(),
            x < old(self).count(),
        ensures
            final(self).wf(),
            final(self).count() == old(self).count(),
            r == old(self).head_of(x as int),
            r < old(self).count(),
            forall|y: int| 0 <= y < old(self).count() ==> #[trigger] final(self).head_of(y) == old(
                self,
            ).head_of(y),
            forall|y: int| 0 <= y < old(self).count() ==> #[trigger] final(self).size_of(y) == old(
                self,
            ).size_of(y),
            final(self).depths() == old(self).depths(),
        decreases old(self).depths()[x as int],
    {
        proof {
            lemma_head(self.parent@, self.depth@, x as int);
        }
        let p: usize = self.parent[x];
        if p != x {
            let r: usize = self.find(p);
            let ghost mid = *self;
            let ghost links = self.parent@;
            proof {
                assert(mid.head_of(p as int) == old(self).head_of(p as int));
                assert(mid.head_of(x as int) == old(self).head_of(x as int));
                assert(head(links, self.depth@, x as int) == r);
                assert forall|y: int| 0 <= y < links.len() implies head(
                    links.update(x as int, r),
                    self.depth@,
                    y,
                ) == old(self).head_of(y) by {
                    lemma_shortcut(links, self.depth@, x as int, y);
                    assert(mid.head_of(y) == old(self).head_of(y));
                }
                assert forall|y: int| 0 <= y < links.len() implies mid.size@[y] == old(
                    self,
                ).size@[y] by {
                    assert(mid.size_of(y) == old(self).size_of(y));
                }
                lemma_shortcut(links, self.depth@, x as int, x as int);
            }
            self.parent.set(x, r);
            r
        } else {
            assert(head(self.parent@, self.depth@, x as int) == x);
            x
        }
    }

    /// Joins the sets of `x` and `y`: the head of the set with the
    /// smaller size becomes a member of the other, whose size grows by
    /// it.
    pub fn union(&mut self, x: usize, y: usize)
        requires
            old(self).wf(),
            x < old(self).count(),
            y < old(self).count(),
        ensures
            final(self).wf(),
            final(self).count() == old(self).count(),
            final(self).heads() == joined_heads(
                old(self).heads(),
                old(self).sizes(),
                x as int,
                y as int,
            ),
            final(self).sizes() == joined_sizes(
                old(self).heads(),
                old(self).sizes(),
                x as int,
                y as int,
            ),
    {
        let a: usize = self.find(x);
        let ghost first = *self;
        let b: usize = self.find(y);
        let ghost mid = *self;
        let ghost links = self.parent@;
        let ghost depth = self.depth@;
        proof {
            assert(first.head_of(y as int) == old(self).head_of(y as int));
            assert(b == old(self).head_of(y as int));
            old(self).lemma_head_is_member(x as int);
            old(self).lemma_head_is_member(y as int);
            assert(first.head_of(a as int) == old(self).head_of(a as int));
            assert(mid.head_of(a as int) == first.head_of(a as int));
            assert(first.head_of(b as int) == old(self).head_of(b as int));
            assert(mid.head_of(b as int) == first.head_of(b as int));
            lemma_head(links, depth, a as int);
            lemma_head(links, depth, b as int);
            assert(links[a as int] == a && links[b as int] == b);
            assert forall|z: int| 0 <= z < links.len() implies #[trigger] mid.head_of(z) == old(
                self,
            ).head_of(z) && mid.size_of(z) == old(self).size_of(z) by {
                assert(first.head_of(z) == old(self).head_of(z));
                assert(first.size_of(z) == old(self).size_of(z));
            }
            assert(mid.size_of(a as int) == old(self).size_of(a as int));
            assert(mid.size_of(b as int) == old(self).size_of(b as int));
        }
        if a == b {
            proof {
                assert(self.heads() =~= joined_heads(
                    old(self).heads(),
                    old(self).sizes(),
                    x as int,
                    y as int,
                ));
                assert(self.sizes() =~= joined_sizes(
                    old(self).heads(),
                    old(self).sizes(),
                    x as int,
                    y as int,
                ));
            }
            return ;
        }
        let (win, lose) = if self.size[a] < self.size[b] {
            (b, a)
        } else {
            (a, b)
        };
        let ghost heads = old(self).heads();
        let ghost sizes = old(self).sizes();
        proof {
            assert(win == winner(heads, sizes, x as int, y as int));
            assert forall|z: int| 0 <= z < links.len() implies head(
                links.update(lose as int, win),
                hung_depth(links, depth, lose as int, win as int),
                z,
            ) == joined_heads(heads, sizes, x as int, y as int)[z] by {
                lemma_hung(links, depth, lose as int, win as int, z);
                assert(mid.head_of(z) == old(self).head_of(z));
            }
            lemma_hung(links, depth, lose as int, win as int, 0);
        }
        self.parent.set(lose, win);
        let grown: usize = if self.size[win] <= usize::MAX - self.size[lose] {
            self.size[win] + self.size[lose]
        } else {
            usize::MAX
        };
        self.size.set(win, grown);
        proof {
            self.depth@ = hung_depth(links, depth, lose as int, win as int);
            assert forall|z: int| 0 <= z < links.len() implies #[trigger] self.size_of(z)
                == joined_sizes(heads, sizes, x as int, y as int)[z] by {
                assert(mid.size_of(z) == old(self).size_of(z));
            }
            assert(self.heads() =~= joined_heads(heads, sizes, x as int, y as int));
            assert(self.sizes() =~= joined_sizes(heads, sizes, x as int, y as int));
        }
    }
}

} // verus!
