//! The query layer: depth lookup and lowest-common-ancestor computation
//! over the read-only graph structure, with the ancestor laws they rest
//! on.

use vstd::prelude::*;

use crate::graph::{
    lemma_depth_zero_is_root, lemma_member_node, lemma_node_laws, lemma_orbit_in_graph, Collatz,
};
use crate::step::{iter_down, lemma_iter_down_add, step_down};
use crate::CollatzError;

verus! {

impl Collatz {
    /// The value reached from `x` after `j` forward steps.
    pub open spec fn ancestor_at(self, x: u64, j: nat) -> u64 {
        iter_down(self.variant(), x as int, j) as u64
    }

    /// The forward-step successor of `v`, as a member value.
    pub open spec fn parent_of(self, v: u64) -> u64 {
        step_down(self.variant(), v as int) as u64
    }

    /// Whether `a` lies on the descending path from member `x` to the
    /// root, inclusive of `x` itself.
    pub open spec fn is_ancestor(self, x: u64, a: u64) -> bool {
        exists|j: nat| j <= self.depth_of(x) && self.ancestor_at(x, j) == a
    }

    /// Whether `c` lies on the descending paths of both `a` and `b`.
    pub open spec fn is_common_ancestor(self, a: u64, b: u64, c: u64) -> bool {
        self.is_ancestor(a, c) && self.is_ancestor(b, c)
    }

    /// Whether `c` is the deepest common ancestor of `a` and `b`: the
    /// point where their descending paths reconverge.
    pub open spec fn is_meet(self, a: u64, b: u64, c: u64) -> bool {
        &&& self.is_common_ancestor(a, b, c)
        &&& forall|d: u64|
            #[trigger] self.is_common_ancestor(a, b, d) ==> self.depth_of(d) <= self.depth_of(c)
    }

    /// The stored depth of `n`: the length of its orbit down to the root.
    /// Fails on values whose node has not been constructed yet; the query
    /// layer never constructs implicitly.
    pub fn get_depth(&self, n: u64) -> (r: Result<usize, CollatzError>)
        requires
            self.wf(),
        ensures
            match r {
                Ok(d) => self.has(n) && d as nat == self.depth_of(n),
                Err(e) => e == CollatzError::NotGenerated && !self.has(n),
            },
    {
        match self.get_index(n) {
            Some(i) => {
                proof {
                    lemma_member_node(self, n);
                }
                Ok(self.node_depth(i))
            },
            None => Err(CollatzError::NotGenerated),
        }
    }
}

/// Every ancestor of a member is itself a member, no deeper than the
/// member, and is determined by its depth: it is the unique orbit point
/// of the member at the matching distance.
pub proof fn lemma_ancestor_props(g: &Collatz, x: u64, a: u64)
    requires
        g.wf(),
        g.has(x),
        g.is_ancestor(x, a),
    ensures
        g.has(a),
        g.depth_of(a) <= g.depth_of(x),
        a == g.ancestor_at(x, (g.depth_of(x) - g.depth_of(a)) as nat),
{
    let j = choose|j: nat| j <= g.depth_of(x) && g.ancestor_at(x, j) == a;
    lemma_orbit_in_graph(g, x, j);
}

/// A member is an ancestor of itself.
pub proof fn lemma_ancestor_refl(g: &Collatz, x: u64)
    requires
        g.wf(),
        g.has(x),
    ensures
        g.is_ancestor(x, x),
{
    assert(0 <= g.depth_of(x) && g.ancestor_at(x, 0) == x);
}

/// The ancestors of a non-root member are itself and the ancestors of
/// its forward-step successor.
proof fn lemma_ancestor_unfold(g: &Collatz, x: u64, a: u64)
    requires
        g.wf(),
        g.has(x),
        x != 1,
    ensures
        g.is_ancestor(x, a) <==> (a == x || g.is_ancestor(g.parent_of(x), a)),
{
    let knd = g.variant();
    let px = g.parent_of(x);
    lemma_node_laws(g, x);
    assert(iter_down(knd, x as int, 0) == x as int);
    assert(iter_down(knd, x as int, 1) == step_down(knd, x as int));
    if g.is_ancestor(x, a) {
        let j = choose|j: nat| j <= g.depth_of(x) && g.ancestor_at(x, j) == a;
        if j > 0 {
            lemma_iter_down_add(knd, x as int, 1, (j - 1) as nat);
            assert(1 + (j - 1) as nat == j);
            assert(iter_down(knd, x as int, j) == iter_down(knd, px as int, (j - 1) as nat));
            assert((j - 1) as nat <= g.depth_of(px) && g.ancestor_at(px, (j - 1) as nat) == a);
        }
    }
    if a == x {
        assert(0 <= g.depth_of(x) && g.ancestor_at(x, 0) == a);
    } else if g.is_ancestor(px, a) {
        let j = choose|j: nat| j <= g.depth_of(px) && g.ancestor_at(px, j) == a;
        lemma_iter_down_add(knd, x as int, 1, j);
        assert(1 + j == (j + 1) as nat);
        assert(iter_down(knd, x as int, j + 1) == iter_down(knd, px as int, j));
        assert(j + 1 <= g.depth_of(x) && g.ancestor_at(x, (j + 1) as nat) == a);
    }
}

/// Stepping the deeper of two members down does not change the set of
/// their common ancestors.
proof fn lemma_common_reduce_one(g: &Collatz, x: u64, y: u64)
    requires
        g.wf(),
        g.has(x),
        g.has(y),
        g.depth_of(y) > g.depth_of(x),
    ensures
        g.has(g.parent_of(y)),
        g.depth_of(g.parent_of(y)) + 1 == g.depth_of(y),
        forall|d: u64|
            #![trigger g.is_common_ancestor(x, y, d)]
            #![trigger g.is_common_ancestor(x, g.parent_of(y), d)]
            g.is_common_ancestor(x, y, d) <==> g.is_common_ancestor(x, g.parent_of(y), d),
{
    if y == 1 {
        lemma_node_laws(g, y);
        assert(false);
    }
    lemma_node_laws(g, y);
    let py = g.parent_of(y);
    assert forall|d: u64|
        g.is_common_ancestor(x, y, d) <==> g.is_common_ancestor(x, py, d) by {
        lemma_ancestor_unfold(g, y, d);
        if g.is_common_ancestor(x, y, d) {
            if d == y {
                lemma_ancestor_props(g, x, d);
            }
        }
    };
}

/// Stepping two equally deep, distinct members down together does not
/// change the set of their common ancestors.
proof fn lemma_common_reduce_both(g: &Collatz, x: u64, y: u64)
    requires
        g.wf(),
        g.has(x),
        g.has(y),
        g.depth_of(x) == g.depth_of(y),
        x != y,
    ensures
        g.depth_of(x) > 0,
        g.has(g.parent_of(x)),
        g.has(g.parent_of(y)),
        g.depth_of(g.parent_of(x)) + 1 == g.depth_of(x),
        g.depth_of(g.parent_of(y)) + 1 == g.depth_of(y),
        forall|d: u64|
            #![trigger g.is_common_ancestor(x, y, d)]
            #![trigger g.is_common_ancestor(g.parent_of(x), g.parent_of(y), d)]
            g.is_common_ancestor(x, y, d) <==> g.is_common_ancestor(
                g.parent_of(x),
                g.parent_of(y),
                d,
            ),
{
    if g.depth_of(x) == 0 {
        lemma_depth_zero_is_root(g, x);
        lemma_depth_zero_is_root(g, y);
        assert(false);
    }
    lemma_node_laws(g, x);
    lemma_node_laws(g, y);
    let px = g.parent_of(x);
    let py = g.parent_of(y);
    assert forall|d: u64|
        g.is_common_ancestor(x, y, d) <==> g.is_common_ancestor(px, py, d) by {
        lemma_ancestor_unfold(g, x, d);
        lemma_ancestor_unfold(g, y, d);
        if g.is_common_ancestor(x, y, d) {
            if d == x {
                lemma_ancestor_props(g, y, d);
                assert(d == g.ancestor_at(y, 0));
            }
            if d == y {
                lemma_ancestor_props(g, x, d);
                assert(d == g.ancestor_at(x, 0));
            }
        }
    };
}

/// A member is the deepest common ancestor of itself and itself.
pub proof fn lemma_common_ancestor_self(g: &Collatz, a: u64)
    requires
        g.wf(),
        g.has(a),
    ensures
        g.is_meet(a, a, a),
{
    lemma_ancestor_refl(g, a);
    assert forall|d: u64| #[trigger]
        g.is_common_ancestor(a, a, d) implies g.depth_of(d) <= g.depth_of(a) by {
        lemma_ancestor_props(g, a, d);
    };
}

/// The deepest common ancestor does not depend on argument order.
pub proof fn lemma_common_ancestor_symmetric(g: &Collatz, a: u64, b: u64, c: u64)
    requires
        g.wf(),
        g.is_meet(a, b, c),
    ensures
        g.is_meet(b, a, c),
{
    assert forall|d: u64| #[trigger]
        g.is_common_ancestor(b, a, d) implies g.depth_of(d) <= g.depth_of(c) by {
        assert(g.is_common_ancestor(a, b, d));
    };
}

/// Two deepest common ancestors of the same pair coincide.
pub proof fn lemma_meet_unique(g: &Collatz, a: u64, b: u64, c1: u64, c2: u64)
    requires
        g.wf(),
        g.has(a),
        g.is_meet(a, b, c1),
        g.is_meet(a, b, c2),
    ensures
        c1 == c2,
{
    assert(g.depth_of(c1) <= g.depth_of(c2));
    assert(g.depth_of(c2) <= g.depth_of(c1));
    lemma_ancestor_props(g, a, c1);
    lemma_ancestor_props(g, a, c2);
}

impl Collatz {
    /// The point where the descending paths of `a` and `b` reconverge:
    /// their deepest common ancestor. Walks the deeper node down until
    /// depths match, then walks both down in lock-step until the values
    /// coincide. Fails if either endpoint has no node yet.
    pub fn find_common_ancestor(&self, a: u64, b: u64) -> (r: Result<u64, CollatzError>)
        requires
            self.wf(),
        ensures
            match r {
                Ok(c) => self.has(a) && self.has(b) && self.has(c) && self.is_meet(a, b, c),
                Err(e) => e == CollatzError::NotGenerated && (!self.has(a) || !self.has(b)),
            },
    {
        let mut ia = match self.get_index(a) {
            Some(i) => i,
            None => {
                return Err(CollatzError::NotGenerated);
            },
        };
        let mut ib = match self.get_index(b) {
            Some(i) => i,
            None => {
                return Err(CollatzError::NotGenerated);
            },
        };
        proof {
            lemma_member_node(self, a);
            lemma_member_node(self, b);
        }
        while self.node_depth(ib) > self.node_depth(ia)
            invariant
                self.wf(),
                self.has(a),
                self.has(b),
                (ia as int) < self.node_count(),
                (ib as int) < self.node_count(),
                self.has(self.node_at(ia as int).data.value),
                self.has(self.node_at(ib as int).data.value),
                self.idx_of(self.node_at(ia as int).data.value) == ia as int,
                self.idx_of(self.node_at(ib as int).data.value) == ib as int,
                forall|d: u64|
                    #![trigger self.is_common_ancestor(a, b, d)]
                    #![trigger self.is_common_ancestor(self.node_at(ia as int).data.value, self.node_at(ib as int).data.value, d)]
                    self.is_common_ancestor(a, b, d) <==> self.is_common_ancestor(
                        self.node_at(ia as int).data.value,
                        self.node_at(ib as int).data.value,
                        d,
                    ),
            decreases self.node_at(ib as int).data.depth,
        {
            let ghost va = self.node_at(ia as int).data.value;
            let ghost vb = self.node_at(ib as int).data.value;
            proof {
                lemma_member_node(self, va);
                lemma_member_node(self, vb);
                lemma_common_reduce_one(self, va, vb);
            }
            ib = self.node_parent(ib);
            proof {
                assert(self.node_at(ib as int).data.value == self.parent_of(vb));
                assert forall|d: u64| #[trigger]
                    self.is_common_ancestor(a, b, d) <==> self.is_common_ancestor(
                        self.node_at(ia as int).data.value,
                        self.node_at(ib as int).data.value,
                        d,
                    ) by {
                    assert(self.is_common_ancestor(va, vb, d) <==> self.is_common_ancestor(
                        va,
                        self.parent_of(vb),
                        d,
                    ));
                };
            }
        }
        while self.node_depth(ia) > self.node_depth(ib)
            invariant
                self.wf(),
                self.has(a),
                self.has(b),
                self.node_at(ia as int).data.depth >= self.node_at(ib as int).data.depth,
                (ia as int) < self.node_count(),
                (ib as int) < self.node_count(),
                self.has(self.node_at(ia as int).data.value),
                self.has(self.node_at(ib as int).data.value),
                self.idx_of(self.node_at(ia as int).data.value) == ia as int,
                self.idx_of(self.node_at(ib as int).data.value) == ib as int,
                forall|d: u64|
                    #![trigger self.is_common_ancestor(a, b, d)]
                    #![trigger self.is_common_ancestor(self.node_at(ia as int).data.value, self.node_at(ib as int).data.value, d)]
                    self.is_common_ancestor(a, b, d) <==> self.is_common_ancestor(
                        self.node_at(ia as int).data.value,
                        self.node_at(ib as int).data.value,
                        d,
                    ),
            decreases self.node_at(ia as int).data.depth,
        {
            let ghost va = self.node_at(ia as int).data.value;
            let ghost vb = self.node_at(ib as int).data.value;
            proof {
                lemma_member_node(self, va);
                lemma_member_node(self, vb);
                lemma_common_reduce_one(self, vb, va);
                assert forall|d: u64|
                    self.is_common_ancestor(va, vb, d) <==> self.is_common_ancestor(
                        self.parent_of(va),
                        vb,
                        d,
                    ) by {
                    assert(self.is_common_ancestor(vb, va, d) <==> self.is_common_ancestor(
                        vb,
                        self.parent_of(va),
                        d,
                    ));
                };
            }
            ia = self.node_parent(ia);
            proof {
                assert(self.node_at(ia as int).data.value == self.parent_of(va));
                assert forall|d: u64| #[trigger]
                    self.is_common_ancestor(a, b, d) <==> self.is_common_ancestor(
                        self.node_at(ia as int).data.value,
                        self.node_at(ib as int).data.value,
                        d,
                    ) by {
                    assert(self.is_common_ancestor(va, vb, d) <==> self.is_common_ancestor(
                        self.parent_of(va),
                        vb,
                        d,
                    ));
                };
            }
        }
        while self.node_value(ia) != self.node_value(ib)
            invariant
                self.wf(),
                self.has(a),
                self.has(b),
                (ia as int) < self.node_count(),
                (ib as int) < self.node_count(),
                self.has(self.node_at(ia as int).data.value),
                self.has(self.node_at(ib as int).data.value),
                self.idx_of(self.node_at(ia as int).data.value) == ia as int,
                self.idx_of(self.node_at(ib as int).data.value) == ib as int,
                self.node_at(ia as int).data.depth == self.node_at(ib as int).data.depth,
                forall|d: u64|
                    #![trigger self.is_common_ancestor(a, b, d)]
                    #![trigger self.is_common_ancestor(self.node_at(ia as int).data.value, self.node_at(ib as int).data.value, d)]
                    self.is_common_ancestor(a, b, d) <==> self.is_common_ancestor(
                        self.node_at(ia as int).data.value,
                        self.node_at(ib as int).data.value,
                        d,
                    ),
            decreases self.node_at(ia as int).data.depth,
        {
            let ghost va = self.node_at(ia as int).data.value;
            let ghost vb = self.node_at(ib as int).data.value;
            proof {
                lemma_member_node(self, va);
                lemma_member_node(self, vb);
                lemma_common_reduce_both(self, va, vb);
            }
            ia = self.node_parent(ia);
            ib = self.node_parent(ib);
            proof {
                assert(self.node_at(ia as int).data.value == self.parent_of(va));
                assert(self.node_at(ib as int).data.value == self.parent_of(vb));
                assert forall|d: u64| #[trigger]
                    self.is_common_ancestor(a, b, d) <==> self.is_common_ancestor(
                        self.node_at(ia as int).data.value,
                        self.node_at(ib as int).data.value,
                        d,
                    ) by {
                    assert(self.is_common_ancestor(va, vb, d) <==> self.is_common_ancestor(
                        self.parent_of(va),
                        self.parent_of(vb),
                        d,
                    ));
                };
            }
        }
        let c = self.node_value(ia);
        proof {
            lemma_ancestor_refl(self, c);
            assert(self.is_common_ancestor(c, c, c));
            assert(self.is_common_ancestor(a, b, c));
            assert forall|d: u64| #[trigger]
                self.is_common_ancestor(a, b, d) implies self.depth_of(d) <= self.depth_of(
                c,
            ) by {
                assert(self.is_common_ancestor(c, c, d));
                lemma_ancestor_props(self, c, d);
            };
        }
        Ok(c)
    }
}

} // verus!
