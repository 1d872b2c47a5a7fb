use vstd::prelude::*;

verus! {

/// Where each element's parent pointer stays in bounds and never points
/// below the element itself, every parent chain strictly ascends until it
/// reaches a root, so following it terminates.
pub open spec fn chain_wf(s: Seq<usize>) -> bool {
    forall|x: int| 0 <= x < s.len() ==> x <= #[trigger] s[x] < s.len()
}

/// The representative of `x`: the end of its parent chain.
pub open spec fn root_in(s: Seq<usize>, x: int) -> int
    decreases s.len() - x,
    when chain_wf(s) && 0 <= x < s.len()
{
    if s[x] == x {
        x
    } else {
        root_in(s, s[x] as int)
    }
}

proof fn lemma_root_props(s: Seq<usize>, x: int)
    requires
        chain_wf(s),
        0 <= x < s.len(),
    ensures
        x <= root_in(s, x) < s.len(),
        s[root_in(s, x)] == root_in(s, x),
    decreases s.len() - x,
{
    if s[x] != x {
        lemma_root_props(s, s[x] as int);
    }
}

/// Redirecting one element straight to its own representative changes no
/// element's representative.
proof fn lemma_redirect_preserves_roots(s: Seq<usize>, x: int, y: int)
    requires
        chain_wf(s),
        0 <= x < s.len(),
        0 <= y < s.len(),
    ensures
        chain_wf(s.update(x, root_in(s, x) as usize)),
        root_in(s.update(x, root_in(s, x) as usize), y) == root_in(s, y),
    decreases s.len() - y,
{
    let r = root_in(s, x);
    lemma_root_props(s, x);
    let s2 = s.update(x, r as usize);
    assert(chain_wf(s2));
    if y == x {
        if r != x {
            assert(s2[r] == r);
            assert(root_in(s2, r) == r);
            assert(root_in(s2, x) == root_in(s2, r));
        }
    } else {
        assert(s2[y] == s[y]);
        if s[y] == y {
            assert(root_in(s2, y) == y);
        } else {
            lemma_redirect_preserves_roots(s, x, s[y] as int);
            assert(root_in(s2, y) == root_in(s2, s[y] as int));
            assert(root_in(s, y) == root_in(s, s[y] as int));
        }
    }
}

/// Attaching the root `ra` under the distinct root `rb` moves exactly the
/// elements of `ra`'s class to `rb`'s class.
proof fn lemma_attach_root(s: Seq<usize>, ra: int, rb: int, y: int)
    requires
        chain_wf(s),
        0 <= ra < s.len(),
        0 <= rb < s.len(),
        s[ra] == ra,
        s[rb] == rb,
        ra < rb,
        0 <= y < s.len(),
    ensures
        chain_wf(s.update(ra, rb as usize)),
        root_in(s.update(ra, rb as usize), y) == (if root_in(s, y) == ra {
            rb
        } else {
            root_in(s, y)
        }),
    decreases s.len() - y,
{
    let s2 = s.update(ra, rb as usize);
    assert(chain_wf(s2));
    if y == ra {
        assert(s2[rb] == rb);
        assert(root_in(s2, rb) == rb);
        assert(root_in(s, ra) == ra);
        assert(root_in(s2, ra) == root_in(s2, rb));
    } else {
        assert(s2[y] == s[y]);
        if s[y] == y {
            assert(root_in(s2, y) == y);
            assert(root_in(s, y) == y);
        } else {
            lemma_attach_root(s, ra, rb, s[y] as int);
            assert(root_in(s2, y) == root_in(s2, s[y] as int));
            assert(root_in(s, y) == root_in(s, s[y] as int));
        }
    }
}

/// A disjoint-set forest over the elements `0 .. count`, with parent
/// pointers that never point below the element, so chains ascend; `find`
/// compresses the paths it walks.
pub struct UnionFind {
    parent: Vec<usize>,
}

impl UnionFind {
    pub closed spec fn wf(self) -> bool {
        chain_wf(self.parent@)
    }

    /// How many elements the structure tracks.
    pub closed spec fn count(self) -> int {
        self.parent@.len() as int
    }

    /// The canonical representative of `a`'s class.
    pub closed spec fn root_spec(self, a: int) -> int {
        root_in(self.parent@, a)
    }

    /// Two elements lie in the same class exactly when their
    /// representatives coincide.
    pub open spec fn same(self, a: int, b: int) -> bool {
        self.root_spec(a) == self.root_spec(b)
    }

    /// `count` singleton classes.
    pub fn new(count: usize) -> (r: UnionFind)
        ensures
            r.wf(),
            r.count() == count,
            forall|a: int| 0 <= a < count ==> #[trigger] r.root_spec(a) == a,
            forall|a: int, b: int| 0 <= a < count && 0 <= b < count ==> (#[trigger] r.same(a, b) <==> a == b),
    {
        let mut parent: Vec<usize> = Vec::new();
        for k in 0..count
            invariant
                parent@.len() == k,
                forall|x: int| 0 <= x < k ==> #[trigger] parent@[x] == x,
        {
            parent.push(k);
        }
        let r = UnionFind { parent };
        proof {
            assert forall|a: int| 0 <= a < count implies #[trigger] r.root_spec(a) == a by {
                assert(r.parent@[a] == a);
            }
        }
        r
    }

    /// The representative of `a`'s class, compressing the path walked; no
    /// element changes class.
    pub fn find(&mut self, a: usize) -> (r: usize)
        requires
            old(self).wf(),
            a < old(self).count(),
        ensures
            final(self).wf(),
            final(self).count() == old(self).count(),
            forall|x: int| 0 <= x < old(self).count() ==> #[trigger] final(self).root_spec(x) == old(self).root_spec(x),
            r == old(self).root_spec(a as int),
            a <= r < old(self).count(),
    {
        proof {
            lemma_root_props(self.parent@, a as int);
        }
        let ghost s0 = self.parent@;
        let mut x = a;
        while self.parent[x] != x
            invariant
                self.parent@ == s0,
                chain_wf(s0),
                x < s0.len(),
                root_in(s0, x as int) == root_in(s0, a as int),
            decreases s0.len() - x,
        {
            x = self.parent[x];
        }
        let r = x;
        let mut y = a;
        while self.parent[y] != y
            invariant
                chain_wf(self.parent@),
                self.parent@.len() == s0.len(),
                y < s0.len(),
                r < s0.len(),
                forall|z: int| 0 <= z < s0.len() ==> #[trigger] root_in(self.parent@, z) == root_in(s0, z),
                root_in(self.parent@, y as int) == r,
            decreases s0.len() - y,
        {
            let next = self.parent[y];
            proof {
                let cur = self.parent@;
                lemma_root_props(cur, y as int);
                assert(root_in(cur, y as int) == root_in(cur, next as int));
                assert(root_in(cur, y as int) as usize == r);
                assert forall|z: int| 0 <= z < s0.len() implies #[trigger] root_in(
                    cur.update(y as int, r),
                    z,
                ) == root_in(s0, z) by {
                    lemma_redirect_preserves_roots(cur, y as int, z);
                }
            }
            self.parent.set(y, r);
            y = next;
        }
        r
    }

    /// Merges the classes of `a` and `b`; every other class is untouched.
    pub fn unite(&mut self, a: usize, b: usize)
        requires
            old(self).wf(),
            a < old(self).count(),
            b < old(self).count(),
        ensures
            final(self).wf(),
            final(self).count() == old(self).count(),
            forall|x: int, y: int|
                0 <= x < old(self).count() && 0 <= y < old(self).count() ==> (#[trigger] final(self).same(x, y) <==> (
                old(self).same(x, y) || (old(self).same(x, a as int) && old(self).same(y, b as int)) || (
                old(self).same(x, b as int) && old(self).same(y, a as int)))),
            final(self).same(a as int, b as int),
    {
        let ghost g0 = *self;
        let ra = self.find(a);
        let ghost g1 = *self;
        let rb = self.find(b);
        proof {
            assert forall|z: int| 0 <= z < g0.count() implies #[trigger] self.root_spec(z)
                == g0.root_spec(z) by {
                assert(self.root_spec(z) == g1.root_spec(z));
                assert(g1.root_spec(z) == g0.root_spec(z));
            }
            assert(self.root_spec(a as int) == ra);
            assert(self.root_spec(b as int) == rb);
        }
        if ra == rb {
            return ;
        }
        let ghost s1 = self.parent@;
        proof {
            assert forall|z: int| 0 <= z < s1.len() implies #[trigger] root_in(s1, z)
                == g0.root_spec(z) by {
                assert(self.root_spec(z) == g1.root_spec(z));
                assert(g1.root_spec(z) == g0.root_spec(z));
            }
            lemma_root_props(s1, a as int);
            lemma_root_props(s1, b as int);
            assert(root_in(s1, a as int) == ra);
            assert(root_in(s1, b as int) == rb);
            assert(s1[ra as int] == ra);
            assert(s1[rb as int] == rb);
        }
        if ra < rb {
            proof {
                assert forall|z: int| 0 <= z < s1.len() implies #[trigger] root_in(
                    s1.update(ra as int, rb),
                    z,
                ) == (if root_in(s1, z) == ra { rb as int } else { root_in(s1, z) }) by {
                    lemma_attach_root(s1, ra as int, rb as int, z);
                }
            }
            self.parent.set(ra, rb);
        } else {
            proof {
                assert forall|z: int| 0 <= z < s1.len() implies #[trigger] root_in(
                    s1.update(rb as int, ra),
                    z,
                ) == (if root_in(s1, z) == rb { ra as int } else { root_in(s1, z) }) by {
                    lemma_attach_root(s1, rb as int, ra as int, z);
                }
            }
            self.parent.set(rb, ra);
        }
    }
}

} // verus!
