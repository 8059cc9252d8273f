//! The merged trajectory graph: an arena of nodes keyed by value, one
//! designated root at value 1, and the structural invariant that every
//! algorithm of this crate maintains.

use std::collections::HashMap;

use vstd::prelude::*;

use crate::kind::{in_domain, CollatzKind};
use crate::node::{CollatzNode, NodeData};
use crate::step::{
    converges, fits_u64, has_second_up, iter_down, lemma_compact_cases, lemma_mod_mod,
    lemma_step_inverse, reaches_one_at, step_down, step_fits, step_multiplies, up_always,
    up_fits, up_second,
};

verus! {

broadcast use vstd::std_specs::hash::group_hash_axioms;

/// The larger of two values.
pub open spec fn max_u64(a: u64, b: u64) -> u64 {
    if a >= b {
        a
    } else {
        b
    }
}

/// The merged graph of trajectories of one reduction variant.
///
/// Nodes live in an arena; `index` maps each member value to its arena
/// slot. Values `1 <= v < filled_to` in the variant's domain are known to
/// be present, which lets membership tests short-circuit.
pub struct Collatz {
    kind: CollatzKind,
    nodes: Vec<CollatzNode>,
    index: HashMap<u64, usize>,
    filled_to: u64,
}

impl Collatz {
    /// The variant this graph was created for.
    pub closed spec fn variant(&self) -> CollatzKind {
        self.kind
    }

    /// Whether a node for `v` has been constructed.
    pub closed spec fn has(&self, v: u64) -> bool {
        self.index@.contains_key(v)
    }

    /// How many nodes the graph holds.
    pub closed spec fn node_count(&self) -> nat {
        self.nodes@.len()
    }

    pub(crate) closed spec fn idx_of(&self, v: u64) -> int {
        self.index@[v] as int
    }

    pub(crate) closed spec fn node_at(&self, i: int) -> CollatzNode {
        self.nodes@[i]
    }

    /// The orbit statistics stored for member value `v`.
    pub closed spec fn record_of(&self, v: u64) -> NodeData {
        self.nodes@[self.idx_of(v)].data
    }

    /// The stored distance from `v` down to the root.
    pub open spec fn depth_of(&self, v: u64) -> nat {
        self.record_of(v).depth as nat
    }

    /// The stored maximum over `v`'s descending path, inclusive.
    pub open spec fn highest_of(&self, v: u64) -> u64 {
        self.record_of(v).highest_point
    }

    pub closed spec fn filled_upto(&self) -> u64 {
        self.filled_to
    }

    /// The value in the first `up` slot of member `v`'s node: the first
    /// predecessor materialized for `v`, if any.
    pub closed spec fn first_child(&self, v: u64) -> Option<u64> {
        match self.nodes@[self.idx_of(v)].up1 {
            Some(c) => Some(self.nodes@[c as int].data.value),
            None => None,
        }
    }

    /// The value in the second `up` slot of member `v`'s node.
    pub closed spec fn second_child(&self, v: u64) -> Option<u64> {
        match self.nodes@[self.idx_of(v)].up2 {
            Some(c) => Some(self.nodes@[c as int].data.value),
            None => None,
        }
    }

    /// The structural laws of the node in arena slot `i`: a valid member
    /// value; for a non-root node a `down` edge to the node holding its
    /// step successor, with depth one more than the successor's and the
    /// highest point folded over it, and a back-link from that successor;
    /// and `up` edges that point only to nodes stepping down to this one.
    pub(crate) closed spec fn wf_at(&self, i: int) -> bool {
        let nd = self.nodes@[i];
        &&& in_domain(self.kind, nd.data.value as int)
        &&& (nd.data.depth as int) < self.nodes@.len()
        &&& (i == 0 ==> nd.down is None)
        &&& (i != 0 ==> (nd.down matches Some(d)
            && d < self.nodes@.len()
            && self.nodes@[d as int].data.value as int == step_down(
            self.kind,
            nd.data.value as int,
        )
            && nd.data.depth == self.nodes@[d as int].data.depth + 1
            && nd.data.highest_point == max_u64(
            nd.data.value,
            self.nodes@[d as int].data.highest_point,
        )
            && (self.nodes@[d as int].up1 == Some(i as usize) || self.nodes@[d as int].up2
            == Some(i as usize))))
        &&& (nd.up1 matches Some(c) ==> c < self.nodes@.len() && self.nodes@[c as int].down
            == Some(i as usize))
        &&& (nd.up2 matches Some(c) ==> c < self.nodes@.len() && self.nodes@[c as int].down
            == Some(i as usize))
        &&& (nd.up1 is Some ==> nd.up1 != nd.up2)
    }

    /// The arena and the value index form a bijection.
    pub(crate) closed spec fn wf_map(&self) -> bool {
        &&& forall|v: u64| #[trigger]
            self.index@.contains_key(v) ==> (self.index@[v] as int) < self.nodes@.len()
                && self.nodes@[self.index@[v] as int].data.value == v
        &&& forall|i: int|
            0 <= i < self.nodes@.len() ==> self.index@.contains_key(
                #[trigger] self.nodes@[i].data.value,
            ) && self.index@[self.nodes@[i].data.value] as int == i
    }

    pub(crate) closed spec fn wf_root(&self) -> bool {
        &&& self.nodes@.len() >= 1
        &&& self.nodes@[0].data.value == 1
        &&& self.nodes@[0].data.depth == 0
        &&& self.nodes@[0].data.highest_point == 1
    }

    /// Every in-domain value below the recorded fill boundary is present.
    pub(crate) closed spec fn wf_filled(&self) -> bool {
        forall|v: u64|
            1 <= v < self.filled_to && in_domain(self.kind, v as int) ==> #[trigger]
                self.index@.contains_key(v)
    }

    /// The graph invariant: established by the constructors and preserved
    /// by every construction operation.
    pub closed spec fn wf(&self) -> bool {
        &&& self.wf_root()
        &&& self.wf_map()
        &&& self.wf_filled()
        &&& forall|i: int| 0 <= i < self.nodes@.len() ==> #[trigger] self.wf_at(i)
    }

    /// A fresh graph for the chosen variant: one node, the root, with
    /// value 1, depth 0 and highest point 1.
    pub fn new(kind: CollatzKind) -> (r: Self)
        ensures
            r.wf(),
            r.variant() == kind,
            r.node_count() == 1,
            forall|v: u64| #[trigger] r.has(v) <==> v == 1,
            r.depth_of(1) == 0,
            r.highest_of(1) == 1,
            r.record_of(1) == (NodeData { value: 1, depth: 0, highest_point: 1 }),
            r.first_child(1) is None && r.second_child(1) is None,
    {
        let mut nodes: Vec<CollatzNode> = Vec::new();
        nodes.push(CollatzNode::new(1));
        let mut index: HashMap<u64, usize> = HashMap::new();
        index.insert(1, 0);
        let r = Collatz { kind, nodes, index, filled_to: 2 };
        proof {
            assert(r.index@ =~= Map::<u64, usize>::empty().insert(1, 0));
            assert(r.wf_at(0));
            assert forall|i: int| 0 <= i < r.nodes@.len() implies #[trigger] r.wf_at(i) by {
                assert(i == 0);
            };
        }
        r
    }

    /// The variant this graph was created for.
    pub fn kind(&self) -> (r: CollatzKind)
        ensures
            r == self.variant(),
    {
        self.kind
    }

    /// How many nodes have been constructed.
    pub fn len(&self) -> (r: usize)
        ensures
            r == self.node_count(),
    {
        self.nodes.len()
    }

    /// Whether a node for `n` exists: a short-circuit through the filled
    /// range, else an index lookup. Callers keep `n` inside the variant's
    /// domain; outside it the filled range says nothing about membership.
    pub fn contains(&self, n: &u64) -> (r: bool)
        requires
            self.wf(),
            in_domain(self.variant(), *n as int),
        ensures
            r == self.has(*n),
    {
        if 1 <= *n && *n < self.filled_to {
            true
        } else {
            self.index.contains_key(n)
        }
    }

    pub(crate) fn get_index(&self, n: u64) -> (r: Option<usize>)
        requires
            self.wf(),
        ensures
            match r {
                Some(i) => self.has(n) && i as int == self.idx_of(n),
                None => !self.has(n),
            },
    {
        match self.index.get(&n) {
            Some(i) => Some(*i),
            None => None,
        }
    }

    /// The single deterministic successor of `n` under this graph's
    /// variant, moving toward the root.
    pub fn down(&self, n: u64) -> (r: u64)
        requires
            in_domain(self.variant(), n as int),
            step_fits(self.variant(), n as int),
        ensures
            r as int == step_down(self.variant(), n as int),
    {
        match self.kind {
            CollatzKind::Full => if n % 2 == 0 {
                n / 2
            } else {
                n * 3 + 1
            },
            CollatzKind::Short => if n % 2 == 0 {
                n / 2
            } else {
                (n * 3 + 1) / 2
            },
            CollatzKind::Odd => {
                proof {
                    lemma_mod_mod(n as int, 8, 2);
                }
                if n % 8 == 5 {
                    n / 4
                } else if n % 8 == 3 || n % 8 == 7 {
                    (n * 3 + 1) / 2
                } else {
                    (n * 3 + 1) / 4
                }
            },
            CollatzKind::Compact => {
                proof {
                    lemma_compact_cases(n as int);
                }
                if n % 24 == 5 {
                    n / 4
                } else if n % 96 == 85 {
                    n / 16
                } else if n % 12 == 7 || n % 12 == 11 {
                    (n * 3 + 1) / 2
                } else if n % 24 == 1 || n % 24 == 17 {
                    (n * 3 + 1) / 4
                } else if n % 48 == 13 {
                    (n * 3 + 1) / 8
                } else {
                    (n * 3 + 1) / 16
                }
            },
        }
    }

    /// The inverse of the forward step: the always-valid predecessor, and
    /// the second predecessor where `n`'s residue certifies one.
    pub fn up(&self, n: u64) -> (r: (u64, Option<u64>))
        requires
            in_domain(self.variant(), n as int),
            up_fits(self.variant(), n as int),
        ensures
            r.0 as int == up_always(self.variant(), n as int),
            match r.1 {
                Some(w) => has_second_up(self.variant(), n as int) && w as int == up_second(
                    self.variant(),
                    n as int,
                ),
                None => !has_second_up(self.variant(), n as int),
            },
    {
        match self.kind {
            CollatzKind::Full => {
                if n % 6 == 4 {
                    (n * 2, Some(n / 3))
                } else {
                    (n * 2, None)
                }
            },
            CollatzKind::Short => {
                if n % 3 == 2 {
                    (n * 2, Some(n * 2 / 3))
                } else {
                    (n * 2, None)
                }
            },
            CollatzKind::Odd => {
                proof {
                    lemma_mod_mod(n as int, 12, 2);
                }
                if n % 12 == 1 || n % 12 == 7 {
                    (n * 4 + 1, Some(n * 4 / 3))
                } else if n % 12 == 5 || n % 12 == 11 {
                    (n * 4 + 1, Some(n * 2 / 3))
                } else {
                    (n * 4 + 1, None)
                }
            },
            CollatzKind::Compact => {
                proof {
                    lemma_mod_mod(n as int, 18, 2);
                    lemma_mod_mod(n as int, 18, 3);
                }
                if n % 18 == 11 || n % 18 == 17 {
                    (n * 16 + 5, Some(n * 2 / 3))
                } else if n % 18 == 1 || n % 18 == 13 {
                    (n * 4 + 1, Some(n * 4 / 3))
                } else if n % 18 == 5 {
                    (n * 16 + 5, Some(n * 8 / 3))
                } else {
                    (n * 4 + 1, Some(n * 16 / 3))
                }
            },
        }
    }

    /// Both predecessors of `n` computed with width to spare, so that a
    /// predecessor beyond the 64-bit working domain is reported as absent
    /// instead of failing.
    pub(crate) fn up_checked(&self, n: u64) -> (r: (Option<u64>, Option<u64>))
        requires
            in_domain(self.variant(), n as int),
        ensures
            match r.0 {
                Some(v) => up_always(self.variant(), n as int) <= u64::MAX && v as int
                    == up_always(self.variant(), n as int),
                None => up_always(self.variant(), n as int) > u64::MAX,
            },
            match r.1 {
                Some(w) => has_second_up(self.variant(), n as int) && up_second(
                    self.variant(),
                    n as int,
                ) <= u64::MAX && w as int == up_second(self.variant(), n as int),
                None => !has_second_up(self.variant(), n as int) || up_second(
                    self.variant(),
                    n as int,
                ) > u64::MAX,
            },
    {
        let wide: u128 = n as u128;
        let cap: u128 = u64::MAX as u128;
        match self.kind {
            CollatzKind::Full => {
                let first: Option<u64> = if wide * 2 <= cap {
                    Some(n * 2)
                } else {
                    None
                };
                let second: Option<u64> = if n % 6 == 4 {
                    Some(n / 3)
                } else {
                    None
                };
                (first, second)
            },
            CollatzKind::Short => {
                let first: Option<u64> = if wide * 2 <= cap {
                    Some(n * 2)
                } else {
                    None
                };
                let second: Option<u64> = if n % 3 == 2 {
                    Some((wide * 2 / 3) as u64)
                } else {
                    None
                };
                (first, second)
            },
            CollatzKind::Odd => {
                proof {
                    lemma_mod_mod(n as int, 12, 2);
                }
                let first: Option<u64> = if wide * 4 + 1 <= cap {
                    Some(n * 4 + 1)
                } else {
                    None
                };
                let second: Option<u64> = if n % 12 == 1 || n % 12 == 7 {
                    let s: u128 = wide * 4 / 3;
                    if s <= cap {
                        Some(s as u64)
                    } else {
                        None
                    }
                } else if n % 12 == 5 || n % 12 == 11 {
                    Some((wide * 2 / 3) as u64)
                } else {
                    None
                };
                (first, second)
            },
            CollatzKind::Compact => {
                proof {
                    lemma_mod_mod(n as int, 18, 2);
                    lemma_mod_mod(n as int, 18, 3);
                }
                let first: Option<u64> = if n % 18 == 11 || n % 18 == 17 || n % 18 == 5 {
                    if wide * 16 + 5 <= cap {
                        Some(n * 16 + 5)
                    } else {
                        None
                    }
                } else {
                    if wide * 4 + 1 <= cap {
                        Some(n * 4 + 1)
                    } else {
                        None
                    }
                };
                let second: Option<u64> = if n % 18 == 11 || n % 18 == 17 {
                    Some((wide * 2 / 3) as u64)
                } else if n % 18 == 1 || n % 18 == 13 {
                    let s: u128 = wide * 4 / 3;
                    if s <= cap {
                        Some(s as u64)
                    } else {
                        None
                    }
                } else if n % 18 == 5 {
                    let s: u128 = wide * 8 / 3;
                    if s <= cap {
                        Some(s as u64)
                    } else {
                        None
                    }
                } else {
                    let s: u128 = wide * 16 / 3;
                    if s <= cap {
                        Some(s as u64)
                    } else {
                        None
                    }
                };
                (first, second)
            },
        }
    }
}

impl Collatz {
    pub(crate) fn node_depth(&self, i: usize) -> (r: usize)
        requires
            self.wf(),
            (i as int) < self.node_count(),
        ensures
            r == self.node_at(i as int).data.depth,
    {
        self.nodes[i].data.depth
    }

    pub(crate) fn node_highest(&self, i: usize) -> (r: u64)
        requires
            self.wf(),
            (i as int) < self.node_count(),
        ensures
            r == self.node_at(i as int).data.highest_point,
    {
        self.nodes[i].data.highest_point
    }

    pub(crate) fn node_value(&self, i: usize) -> (r: u64)
        requires
            self.wf(),
            (i as int) < self.node_count(),
        ensures
            r == self.node_at(i as int).data.value,
            in_domain(self.variant(), r as int),
            self.has(r),
            self.idx_of(r) == i as int,
    {
        proof {
            assert(self.wf_at(i as int));
        }
        self.nodes[i].data.value
    }

    pub(crate) fn filled_boundary(&self) -> (r: u64)
        ensures
            r == self.filled_upto(),
    {
        self.filled_to
    }

    /// Record that every in-domain value below `b` is now present.
    pub(crate) fn set_filled(&mut self, b: u64)
        requires
            old(self).wf(),
            forall|v: u64|
                1 <= v < b && in_domain(old(self).variant(), v as int) ==> old(self).has(v),
        ensures
            final(self).wf(),
            final(self).variant() == old(self).variant(),
            final(self).filled_upto() == b,
            final(self).node_count() == old(self).node_count(),
            forall|v: u64| #[trigger] final(self).has(v) <==> old(self).has(v),
            forall|v: u64|
                old(self).has(v) ==> #[trigger] final(self).record_of(v) == old(self).record_of(
                    v,
                ),
    {
        self.filled_to = b;
        proof {
            assert forall|i: int| 0 <= i < self.nodes@.len() implies #[trigger] self.wf_at(
                i,
            ) by {
                assert(old(self).wf_at(i));
            };
            assert forall|v: u64|
                1 <= v < self.filled_to && in_domain(self.kind, v as int) implies #[trigger]
                self.index@.contains_key(v) by {
                assert(old(self).has(v));
            };
        }
    }

    pub(crate) fn node_data(&self, i: usize) -> (r: NodeData)
        requires
            self.wf(),
            (i as int) < self.node_count(),
        ensures
            r == self.node_at(i as int).data,
    {
        self.nodes[i].data
    }

    pub(crate) fn node_children(&self, i: usize) -> (r: (Option<usize>, Option<usize>))
        requires
            self.wf(),
            (i as int) < self.node_count(),
        ensures
            r == (self.node_at(i as int).up1, self.node_at(i as int).up2),
    {
        (self.nodes[i].up1, self.nodes[i].up2)
    }

    /// The arena slot of the `down` neighbour of a non-root node.
    pub(crate) fn node_parent(&self, i: usize) -> (r: usize)
        requires
            self.wf(),
            (i as int) < self.node_count(),
            self.node_at(i as int).data.depth > 0,
        ensures
            (r as int) < self.node_count(),
            self.node_at(r as int).data.value as int == step_down(
                self.variant(),
                self.node_at(i as int).data.value as int,
            ),
            self.node_at(r as int).data.depth + 1 == self.node_at(i as int).data.depth,
            self.has(self.node_at(r as int).data.value),
            self.idx_of(self.node_at(r as int).data.value) == r as int,
    {
        proof {
            assert(self.wf_at(i as int));
            assert(i != 0);
        }
        let r = match self.nodes[i].down {
            Some(d) => d,
            None => unreached(),
        };
        proof {
            assert(self.wf_at(r as int));
            assert(self.index@.contains_key(self.nodes@[r as int].data.value));
        }
        r
    }

    /// Create a node for the absent value `v`, whose forward step lands on
    /// the node in slot `parent`, and link it into a free `up` slot of the
    /// parent, preferring `up1`. Returns the new node's slot.
    pub(crate) fn push_node(&mut self, v: u64, pd: usize, hi: u64, parent: usize) -> (ni: usize)
        requires
            old(self).wf(),
            (parent as int) < old(self).node_count(),
            !old(self).has(v),
            in_domain(old(self).variant(), v as int),
            step_down(old(self).variant(), v as int) == old(self).node_at(
                parent as int,
            ).data.value as int,
            pd == old(self).node_at(parent as int).data.depth,
            hi == max_u64(v, old(self).node_at(parent as int).data.highest_point),
            old(self).node_at(parent as int).up1 is None || old(self).node_at(
                parent as int,
            ).up2 is None,
        ensures
            final(self).wf(),
            final(self).variant() == old(self).variant(),
            final(self).filled_upto() == old(self).filled_upto(),
            ni as int == old(self).node_count(),
            final(self).node_count() == old(self).node_count() + 1,
            final(self).has(v),
            final(self).idx_of(v) == ni as int,
            final(self).node_at(ni as int) == (CollatzNode {
                data: NodeData { value: v, depth: (pd + 1) as usize, highest_point: hi },
                down: Some(parent),
                up1: None,
                up2: None,
            }),
            forall|w: u64|
                old(self).has(w) ==> #[trigger] final(self).has(w) && final(self).record_of(w) == old(self).record_of(w) && final(self).idx_of(w) == old(self).idx_of(w),
            forall|w: u64| #[trigger] final(self).has(w) ==> old(self).has(w) || w == v,
            forall|i: int|
                0 <= i < old(self).node_count() ==> #[trigger] final(self).node_at(i).data == old(self).node_at(i).data && final(self).node_at(i).down == old(self).node_at(i).down,
            forall|i: int|
                0 <= i < old(self).node_count() && i != parent ==> #[trigger] final(self).node_at(i)
                    == old(self).node_at(i),
            final(self).first_child(v) is None && final(self).second_child(v) is None,
            forall|w: u64|
                old(self).has(w) && w != old(self).node_at(parent as int).data.value ==> (
                #[trigger] final(self).first_child(w)) == old(self).first_child(w) && final(self).second_child(w) == old(self).second_child(w),
            old(self).first_child(old(self).node_at(parent as int).data.value) is None ==> final(self).first_child(old(self).node_at(parent as int).data.value) == Some(v) && final(self).second_child(old(self).node_at(parent as int).data.value) == old(self).second_child(old(self).node_at(parent as int).data.value),
            old(self).first_child(old(self).node_at(parent as int).data.value) is Some ==> old(
                self,
            ).second_child(old(self).node_at(parent as int).data.value) is None && final(self).first_child(old(self).node_at(parent as int).data.value) == old(self).first_child(
                old(self).node_at(parent as int).data.value,
            ) && final(self).second_child(old(self).node_at(parent as int).data.value) == Some(
                v,
            ),
    {
        let ghost g0 = *old(self);
        proof {
            assert(g0.wf_at(parent as int));
        }
        let ni = self.nodes.len();
        let link_up2 = self.nodes[parent].up1.is_some();
        self.nodes.push(
            CollatzNode {
                data: NodeData { value: v, depth: pd + 1, highest_point: hi },
                down: Some(parent),
                up1: None,
                up2: None,
            },
        );
        self.index.insert(v, ni);
        if !link_up2 {
            self.nodes[parent].up1 = Some(ni);
        } else {
            self.nodes[parent].up2 = Some(ni);
        }
        proof {
            let li = ni as int;
            let pi = parent as int;
            assert(self.index@ =~= g0.index@.insert(v, ni));
            assert(self.nodes@.len() == g0.nodes@.len() + 1);
            assert(forall|i: int|
                0 <= i < g0.nodes@.len() && i != pi ==> self.nodes@[i] == g0.nodes@[i]);
            assert(self.nodes@[pi].data == g0.nodes@[pi].data);
            assert(self.nodes@[pi].down == g0.nodes@[pi].down);
            assert(self.wf_root());
            // The parent cannot be its own `down` target, and old `up`
            // links sit in the slot that was not overwritten.
            assert forall|w: u64| #[trigger] self.index@.contains_key(w) implies (
                self.index@[w] as int) < self.nodes@.len() && self.nodes@[self.index@[w] as int]
                .data.value == w by {
                if w != v {
                    assert(g0.index@.contains_key(w));
                }
            };
            assert forall|i: int| 0 <= i < self.nodes@.len() implies self.index@.contains_key(
                #[trigger] self.nodes@[i].data.value,
            ) && self.index@[self.nodes@[i].data.value] as int == i by {
                if i != li {
                    assert(g0.index@.contains_key(g0.nodes@[i].data.value));
                    assert(g0.nodes@[i].data.value != v);
                    assert(self.nodes@[i].data.value == g0.nodes@[i].data.value);
                }
            };
            assert(self.wf_map());
            assert forall|i: int| 0 <= i < self.nodes@.len() implies #[trigger] self.wf_at(
                i,
            ) by {
                if i == li {
                    assert(g0.wf_at(pi));
                    assert((pd + 1) as int <= g0.nodes@.len());
                    assert(self.wf_at(i));
                } else {
                    assert(g0.wf_at(i));
                    if i == pi {
                        if i != 0 {
                            let d = g0.nodes@[i].down->Some_0;
                            assert(g0.wf_at(d as int));
                            assert(d as int != pi) by {
                                if d as int == pi {
                                    assert(g0.nodes@[pi].data.depth == g0.nodes@[pi].data.depth
                                        + 1);
                                }
                            };
                            assert(self.nodes@[d as int] == g0.nodes@[d as int]);
                        }
                        assert(self.wf_at(i));
                    } else {
                        if i != 0 {
                            let d = g0.nodes@[i].down->Some_0;
                            if d as int == pi {
                                assert(g0.nodes@[pi].up1 == Some(i as usize) || g0.nodes@[pi].up2
                                    == Some(i as usize));
                            }
                        }
                        assert(self.wf_at(i));
                    }
                }
            };
            assert(self.wf());
            let pv = g0.nodes@[pi].data.value;
            assert(g0.index@.contains_key(pv) && g0.index@[pv] as int == pi);
            assert(self.idx_of(v) == li);
            assert(self.first_child(v) is None && self.second_child(v) is None);
            assert forall|w: u64|
                g0.has(w) && w != pv implies (#[trigger] self.first_child(w))
                == g0.first_child(w) && self.second_child(w) == g0.second_child(w) by {
                let iw = g0.index@[w] as int;
                assert(g0.wf_at(iw));
                assert(iw != pi);
                assert(self.nodes@[iw] == g0.nodes@[iw]);
                match g0.nodes@[iw].up1 {
                    Some(c) => {
                        assert(self.nodes@[c as int].data == g0.nodes@[c as int].data);
                    },
                    None => (),
                }
                match g0.nodes@[iw].up2 {
                    Some(c) => {
                        assert(self.nodes@[c as int].data == g0.nodes@[c as int].data);
                    },
                    None => (),
                }
            };
            assert(self.idx_of(pv) == pi);
            if g0.nodes@[pi].up1 is None {
                assert(self.nodes@[pi].up1 == Some(ni));
                assert(self.first_child(pv) == Some(v));
                match g0.nodes@[pi].up2 {
                    Some(c) => {
                        assert(self.nodes@[c as int].data == g0.nodes@[c as int].data);
                    },
                    None => (),
                }
                assert(self.second_child(pv) == g0.second_child(pv));
            } else {
                assert(self.nodes@[pi].up2 == Some(ni));
                assert(self.second_child(pv) == Some(v));
                match g0.nodes@[pi].up1 {
                    Some(c) => {
                        assert(self.nodes@[c as int].data == g0.nodes@[c as int].data);
                    },
                    None => (),
                }
                assert(self.first_child(pv) == g0.first_child(pv));
            }
        }
        ni
    }
}

impl Default for Collatz {
    /// A fresh graph for the full rule.
    fn default() -> (r: Self)
        ensures
            r.wf(),
            r.variant() == CollatzKind::Full,
            r.node_count() == 1,
            forall|v: u64| #[trigger] r.has(v) <==> v == 1,
            r.depth_of(1) == 0,
            r.highest_of(1) == 1,
            r.record_of(1) == (NodeData { value: 1, depth: 0, highest_point: 1 }),
            r.first_child(1) is None && r.second_child(1) is None,
    {
        Collatz::new(CollatzKind::Full)
    }
}

/// The root value 1 is present in every well-formed graph, at depth 0.
pub(crate) proof fn lemma_root_present(g: &Collatz)
    requires
        g.wf(),
    ensures
        g.has(1),
        g.node_count() >= 1,
        g.idx_of(1) == 0,
        g.depth_of(1) == 0,
        g.highest_of(1) == 1,
        g.record_of(1) == (NodeData { value: 1, depth: 0, highest_point: 1 }),
{
    assert(g.node_at(0).data.value == 1);
    assert(g.index@.contains_key(g.nodes@[0].data.value));
}

/// A member's index is a valid arena slot holding its record.
pub(crate) proof fn lemma_member_node(g: &Collatz, v: u64)
    requires
        g.wf(),
        g.has(v),
    ensures
        0 <= g.idx_of(v) < g.node_count(),
        g.node_at(g.idx_of(v)).data == g.record_of(v),
        g.record_of(v).value == v,
        in_domain(g.variant(), v as int),
{
    assert(g.wf_at(g.idx_of(v)));
}

/// The structural facts of one arena slot, stated over the arena view.
pub(crate) proof fn lemma_wf_node(g: &Collatz, i: int)
    requires
        g.wf(),
        0 <= i < g.node_count(),
    ensures
        g.node_count() <= usize::MAX,
        in_domain(g.variant(), g.node_at(i).data.value as int),
        (g.node_at(i).data.depth as int) < g.node_count(),
        i == 0 ==> g.node_at(i).down is None && g.node_at(i).data.value == 1 && g.node_at(
            i,
        ).data.depth == 0,
        i != 0 ==> (g.node_at(i).down matches Some(d) && (d as int) < g.node_count() && g.node_at(
            d as int,
        ).data.value as int == step_down(g.variant(), g.node_at(i).data.value as int)
            && g.node_at(i).data.depth == g.node_at(d as int).data.depth + 1 && (g.node_at(
            d as int,
        ).up1 == Some(i as usize) || g.node_at(d as int).up2 == Some(i as usize))),
        g.node_at(i).up1 matches Some(c) ==> (c as int) < g.node_count() && g.node_at(
            c as int,
        ).down == Some(i as usize),
        g.node_at(i).up2 matches Some(c) ==> (c as int) < g.node_count() && g.node_at(
            c as int,
        ).down == Some(i as usize),
        g.node_at(i).up1 is Some ==> g.node_at(i).up1 != g.node_at(i).up2,
        g.has(g.node_at(i).data.value),
        g.idx_of(g.node_at(i).data.value) == i,
        g.record_of(g.node_at(i).data.value) == g.node_at(i).data,
{
    assert(g.wf_at(i));
    assert(g.index@.contains_key(g.nodes@[i].data.value));
    vstd::std_specs::vec::axiom_spec_len(&g.nodes);
}

/// Below the recorded fill boundary, every in-domain value is a member.
pub(crate) proof fn lemma_filled_member(g: &Collatz, v: u64)
    requires
        g.wf(),
        1 <= v < g.filled_upto(),
        in_domain(g.variant(), v as int),
    ensures
        g.has(v),
{
    assert(g.index@.contains_key(v));
}

/// The local shape of every graph member (the depth and highest-point
/// laws): the root sits at depth 0 with highest point 1; every other
/// member steps down to another member one level closer to the root, and
/// its highest point is exactly the larger of its own value and its
/// successor's highest point — so, unfolded to the root, the maximum
/// value over its full descending path, inclusive.
pub proof fn lemma_node_laws(g: &Collatz, v: u64)
    requires
        g.wf(),
        g.has(v),
    ensures
        g.highest_of(v) >= v,
        g.record_of(v) == (NodeData {
            value: v,
            depth: g.record_of(v).depth,
            highest_point: g.record_of(v).highest_point,
        }),
        v == 1 ==> g.depth_of(v) == 0 && g.highest_of(v) == 1,
        v != 1 ==> fits_u64(step_down(g.variant(), v as int)) && g.has(
            step_down(g.variant(), v as int) as u64,
        ) && g.depth_of(v) == g.depth_of(step_down(g.variant(), v as int) as u64) + 1
            && g.highest_of(v) == max_u64(
            v,
            g.highest_of(step_down(g.variant(), v as int) as u64),
        ),
{
    let i = g.idx_of(v);
    assert(g.wf_at(i));
    if v == 1 {
        assert(g.node_at(0).data.value == 1);
        assert(i == 0);
    } else {
        assert(i != 0);
        let d = g.node_at(i).down->Some_0;
        assert(g.wf_at(d as int));
        let w = g.node_at(d as int).data.value;
        assert(g.index@.contains_key(w) && g.index@[w] as int == d as int);
    }
}

/// The `up` slots of a member hold exactly its materialized
/// predecessors: each child is a non-root member whose forward step is
/// `v`, sitting one level further from the root; the two slots never
/// hold the same child; and every non-root member occupies an `up` slot
/// of its own forward-step successor.
pub proof fn lemma_children_laws(g: &Collatz, v: u64)
    requires
        g.wf(),
        g.has(v),
    ensures
        g.first_child(v) matches Some(c) ==> g.has(c) && c != 1 && step_down(
            g.variant(),
            c as int,
        ) == v as int && g.depth_of(c) == g.depth_of(v) + 1,
        g.second_child(v) matches Some(c) ==> g.has(c) && c != 1 && step_down(
            g.variant(),
            c as int,
        ) == v as int && g.depth_of(c) == g.depth_of(v) + 1,
        g.first_child(v) is Some && g.second_child(v) is Some ==> g.first_child(v)
            != g.second_child(v),
        v != 1 ==> (g.first_child(step_down(g.variant(), v as int) as u64) == Some(v)
            || g.second_child(step_down(g.variant(), v as int) as u64) == Some(v)),
{
    let i = g.idx_of(v);
    assert(g.wf_at(i));
    match g.node_at(i).up1 {
        Some(c1) => {
            assert(g.wf_at(c1 as int));
            assert(g.index@.contains_key(g.nodes@[c1 as int].data.value));
            assert(c1 != 0) by {
                assert(g.wf_at(0));
            };
        },
        None => (),
    }
    match g.node_at(i).up2 {
        Some(c2) => {
            assert(g.wf_at(c2 as int));
            assert(g.index@.contains_key(g.nodes@[c2 as int].data.value));
            assert(c2 != 0) by {
                assert(g.wf_at(0));
            };
        },
        None => (),
    }
    match (g.node_at(i).up1, g.node_at(i).up2) {
        (Some(c1), Some(c2)) => {
            assert(g.nodes@[c1 as int].data.value != g.nodes@[c2 as int].data.value) by {
                if g.nodes@[c1 as int].data.value == g.nodes@[c2 as int].data.value {
                    assert(g.index@[g.nodes@[c1 as int].data.value] as int == c1 as int);
                    assert(g.index@[g.nodes@[c2 as int].data.value] as int == c2 as int);
                }
            };
        },
        _ => (),
    }
    if v != 1 {
        lemma_node_laws(g, v);
        let p = step_down(g.variant(), v as int) as u64;
        assert(g.wf_at(g.idx_of(p)));
        let d = g.node_at(i).down->Some_0;
        assert(g.index@.contains_key(g.nodes@[d as int].data.value));
        assert(g.idx_of(p) == d as int);
    }
}

/// The `up` slots of `v`'s node, read as child values.
pub(crate) proof fn lemma_child_slots(g: &Collatz, v: u64)
    requires
        g.wf(),
        g.has(v),
    ensures
        g.first_child(v) == (match g.node_at(g.idx_of(v)).up1 {
            Some(c) => Some(g.node_at(c as int).data.value),
            None => None::<u64>,
        }),
        g.second_child(v) == (match g.node_at(g.idx_of(v)).up2 {
            Some(c) => Some(g.node_at(c as int).data.value),
            None => None::<u64>,
        }),
{
}

/// A one-node graph holds the root value alone.
pub(crate) proof fn lemma_single_node(g: &Collatz, v: u64)
    requires
        g.wf(),
        g.node_count() == 1,
        g.has(v),
    ensures
        v == 1,
{
    assert(g.idx_of(v) == 0);
    assert(g.node_at(0).data.value == 1);
}

/// A member other than the root forces a second node.
pub(crate) proof fn lemma_second_member(g: &Collatz, v: u64)
    requires
        g.wf(),
        g.has(v),
        v != 1,
    ensures
        g.node_count() >= 2,
{
    assert(g.node_at(0).data.value == 1);
    assert(g.node_at(g.idx_of(v)).data.value == v);
    assert(g.idx_of(v) != 0);
}

/// A member whose stored depth is zero is the root value itself.
pub(crate) proof fn lemma_depth_zero_is_root(g: &Collatz, v: u64)
    requires
        g.wf(),
        g.has(v),
        g.depth_of(v) == 0,
    ensures
        v == 1,
        g.idx_of(v) == 0,
{
    let i = g.idx_of(v);
    assert(g.wf_at(i));
    if i != 0 {
        let d = g.node_at(i).down->Some_0;
        assert(g.node_at(i).data.depth == g.node_at(d as int).data.depth + 1);
    }
}

/// Walking `j` steps down from a member stays inside the graph and lands
/// exactly `j` levels closer to the root.
pub proof fn lemma_orbit_in_graph(g: &Collatz, v: u64, j: nat)
    requires
        g.wf(),
        g.has(v),
        j <= g.depth_of(v),
    ensures
        fits_u64(iter_down(g.variant(), v as int, j)),
        g.has(iter_down(g.variant(), v as int, j) as u64),
        g.depth_of(iter_down(g.variant(), v as int, j) as u64) == g.depth_of(v) - j,
    decreases j,
{
    if j > 0 {
        lemma_orbit_in_graph(g, v, (j - 1) as nat);
        let w = iter_down(g.variant(), v as int, (j - 1) as nat) as u64;
        if g.depth_of(w) == 0 {
            lemma_depth_zero_is_root(g, w);
            assert(false);
        }
        if w == 1 {
            let i = g.idx_of(1u64);
            assert(g.node_at(0).data.value == 1);
            assert(g.wf_at(0));
            assert(i == 0);
            assert(false);
        }
        lemma_node_laws(g, w);
    }
}

/// Every member of a well-formed graph converges: its orbit reaches the
/// root value 1 within the 64-bit working domain.
pub proof fn lemma_graph_value_converges(g: &Collatz, v: u64)
    requires
        g.wf(),
        g.has(v),
    ensures
        converges(g.variant(), v),
        reaches_one_at(g.variant(), v, g.depth_of(v)),
{
    let d = g.depth_of(v);
    lemma_orbit_in_graph(g, v, d);
    lemma_depth_zero_is_root(g, iter_down(g.variant(), v as int, d) as u64);
    assert forall|j: nat| j <= d implies fits_u64(
        #[trigger] iter_down(g.variant(), v as int, j),
    ) by {
        lemma_orbit_in_graph(g, v, j);
    };
    assert(reaches_one_at(g.variant(), v, d));
}

/// A merge point always has a free `up` slot for a new predecessor: its
/// occupied slots hold distinct in-graph preimages, a new chain end is a
/// preimage not yet in the graph, and no value has three preimages.
pub(crate) proof fn lemma_free_slot(g: &Collatz, mi: int, u: u64)
    requires
        g.wf(),
        0 <= mi < g.node_count(),
        !g.has(u),
        in_domain(g.variant(), u as int),
        step_down(g.variant(), u as int) == g.node_at(mi).data.value as int,
    ensures
        g.node_at(mi).up1 is None || g.node_at(mi).up2 is None,
{
    let nd = g.node_at(mi);
    if nd.up1 is Some && nd.up2 is Some {
        let c1 = nd.up1->Some_0;
        let c2 = nd.up2->Some_0;
        assert(g.wf_at(mi));
        assert(g.nodes@[c1 as int].down == Some(mi as usize));
        assert(g.nodes@[c2 as int].down == Some(mi as usize));
        assert(g.wf_at(c1 as int));
        assert(g.wf_at(c2 as int));
        assert(c1 != 0 && c2 != 0) by {
            assert(g.wf_at(0));
        };
        let w1 = g.nodes@[c1 as int].data.value;
        let w2 = g.nodes@[c2 as int].data.value;
        let t = nd.data.value as int;
        assert(step_down(g.variant(), w1 as int) == t);
        assert(step_down(g.variant(), w2 as int) == t);
        assert(w1 != w2) by {
            if w1 == w2 {
                assert(g.index@[w1] as int == c1 as int);
                assert(g.index@[w2] as int == c2 as int);
            }
        };
        assert(u != w1 && u != w2);
        lemma_step_inverse(g.variant(), w1 as int, t);
        lemma_step_inverse(g.variant(), w2 as int, t);
        lemma_step_inverse(g.variant(), u as int, t);
        assert(false);
    }
}

} // verus!
