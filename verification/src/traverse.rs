//! Whole-graph and single-orbit traversal: a breadth-first enumeration of
//! every node record in a deterministic, restartable order, and the
//! descending orbit of one value.

use vstd::prelude::*;

use crate::graph::{lemma_member_node, lemma_node_laws, lemma_root_present, lemma_wf_node, Collatz};
use crate::node::NodeData;
use crate::CollatzError;

verus! {

use vstd::set_lib::{lemma_int_range, lemma_len_subset, set_int_range};

/// The arena slots as mathematical integers.
spec fn to_ints(s: Seq<usize>) -> Seq<int> {
    s.map_values(|u: usize| u as int)
}

/// The member values held in the given arena slots.
spec fn vals_at(g: Collatz, q: Seq<usize>) -> Seq<u64> {
    Seq::new(q.len(), |i: int| g.node_at(q[i] as int).data.value)
}

/// Whether slot `c` occurs somewhere in the queue.
spec fn enqueued(q: Seq<usize>, c: int) -> bool {
    exists|p: int| 0 <= p < q.len() && q[p] as int == c
}

/// A duplicate-free sequence of slots below `bound` has at most `bound`
/// entries.
proof fn lemma_distinct_bounded(s: Seq<usize>, bound: int)
    requires
        s.no_duplicates(),
        forall|p: int| 0 <= p < s.len() ==> (s[p] as int) < bound,
        bound >= 0,
    ensures
        s.len() <= bound,
{
    let si = to_ints(s);
    assert(si.no_duplicates()) by {
        assert forall|i: int, j: int|
            0 <= i < si.len() && 0 <= j < si.len() && i != j implies si[i] != si[j] by {
            assert(s[i] != s[j]);
        };
    };
    si.unique_seq_to_set();
    lemma_int_range(0, bound);
    assert(si.to_set().subset_of(set_int_range(0, bound))) by {
        assert forall|x: int| si.to_set().contains(x) implies set_int_range(0, bound).contains(
            x,
        ) by {
            let i = choose|i: int| 0 <= i < si.len() && si[i] == x;
            assert((s[i] as int) < bound);
        };
    };
    lemma_len_subset(si.to_set(), set_int_range(0, bound));
}

/// A sequence of slots in which every slot below `bound` occurs has at
/// least `bound` entries.
proof fn lemma_cover_bound(s: Seq<usize>, bound: int)
    requires
        forall|m: int| 0 <= m < bound ==> enqueued(s, m),
        bound >= 0,
    ensures
        s.len() >= bound,
{
    let si = to_ints(s);
    lemma_int_range(0, bound);
    assert(set_int_range(0, bound).subset_of(si.to_set())) by {
        assert forall|x: int| set_int_range(0, bound).contains(x) implies si.to_set().contains(
            x,
        ) by {
            assert(enqueued(s, x));
            let p = choose|p: int| 0 <= p < s.len() && s[p] as int == x;
            assert(si[p] == x);
        };
    };
    lemma_len_subset(set_int_range(0, bound), si.to_set());
    si.lemma_cardinality_of_set();
}

impl Collatz {
    /// The children of slot `i` in enumeration order: `up1` first, then
    /// `up2`, each where present.
    pub(crate) closed spec fn children_of(self, i: int) -> Seq<int> {
        let nd = self.node_at(i);
        match (nd.up1, nd.up2) {
            (Some(c1), Some(c2)) => seq![c1 as int, c2 as int],
            (Some(c1), None) => seq![c1 as int],
            (None, Some(c2)) => seq![c2 as int],
            (None, None) => seq![],
        }
    }

    /// The children of member `v` in enumeration order: the occupant of
    /// the first `up` slot before the occupant of the second, each where
    /// present.
    pub open spec fn enum_children(self, v: u64) -> Seq<u64> {
        match (self.first_child(v), self.second_child(v)) {
            (Some(c1), Some(c2)) => seq![c1, c2],
            (Some(c1), None) => seq![c1],
            (None, Some(c2)) => seq![c2],
            (None, None) => seq![],
        }
    }

    /// The records produced by a breadth-first walk over member values
    /// with the given starting queue and fuel.
    pub open spec fn enum_from(self, queue: Seq<u64>, fuel: nat) -> Seq<NodeData>
        decreases fuel,
    {
        if fuel == 0 || queue.len() == 0 {
            Seq::empty()
        } else {
            seq![self.record_of(queue[0])] + self.enum_from(
                queue.drop_first() + self.enum_children(queue[0]),
                (fuel - 1) as nat,
            )
        }
    }

    /// The canonical enumeration order of the graph: a breadth-first walk
    /// from the root, following the first `up` slot before the second. A
    /// pure function of the graph state, so repeated traversals of an
    /// unmodified graph yield the same sequence.
    pub open spec fn iter_seq(self) -> Seq<NodeData> {
        self.enum_from(seq![1u64], self.node_count())
    }

    /// The records on the descending path from `v` down to, but not
    /// including, the root.
    pub closed spec fn orbit_seq(self, v: u64) -> Seq<NodeData>
        decreases self.depth_of(v),
        when self.wf() && self.has(v)
    {
        if self.depth_of(v) == 0 {
            Seq::empty()
        } else {
            proof {
                lemma_orbit_step(&self, v);
            }
            seq![self.record_of(v)] + self.orbit_seq(self.parent_of(v))
        }
    }
}

/// A member of positive depth is not the root, and its forward-step
/// successor is a member exactly one level closer to the root.
proof fn lemma_orbit_step(g: &Collatz, v: u64)
    requires
        g.wf(),
        g.has(v),
        g.depth_of(v) != 0,
    ensures
        v != 1,
        g.has(g.parent_of(v)),
        g.depth_of(g.parent_of(v)) == g.depth_of(v) - 1,
        g.record_of(v).value == v,
{
    lemma_root_present(g);
    lemma_node_laws(g, v);
}

/// The defining equations of the orbit sequence.
pub proof fn lemma_orbit_seq_unfold(g: &Collatz, v: u64)
    requires
        g.wf(),
        g.has(v),
    ensures
        g.depth_of(v) == 0 ==> g.orbit_seq(v) == Seq::<NodeData>::empty(),
        g.depth_of(v) != 0 ==> g.has(g.parent_of(v)) && g.orbit_seq(v) == seq![g.record_of(v)]
            + g.orbit_seq(g.parent_of(v)),
        g.orbit_seq(v).len() == g.depth_of(v),
    decreases g.depth_of(v),
{
    if g.depth_of(v) != 0 {
        lemma_orbit_step(g, v);
        lemma_orbit_seq_unfold(g, g.parent_of(v));
    }
}

/// Entry `j` of the orbit sequence is the stored record of the orbit
/// point `j` steps below the starting value.
pub proof fn lemma_orbit_seq_index(g: &Collatz, v: u64, j: int)
    requires
        g.wf(),
        g.has(v),
        0 <= j < g.orbit_seq(v).len(),
    ensures
        g.orbit_seq(v)[j] == g.record_of(g.ancestor_at(v, j as nat)),
    decreases j,
{
    lemma_orbit_seq_unfold(g, v);
    lemma_orbit_step(g, v);
    let knd = g.variant();
    let pv = g.parent_of(v);
    if j == 0 {
        assert(g.ancestor_at(v, 0) == v);
    } else {
        lemma_orbit_seq_index(g, pv, j - 1);
        lemma_node_laws(g, v);
        assert(pv as int == crate::step::step_down(knd, v as int));
        crate::step::lemma_iter_down_add(knd, v as int, 1, (j - 1) as nat);
        assert(crate::step::iter_down(knd, v as int, 0) == v as int);
        assert(crate::step::iter_down(knd, v as int, 1) == crate::step::step_down(
            knd,
            v as int,
        ));
        assert(1 + (j - 1) as nat == j as nat);
        assert(g.ancestor_at(v, j as nat) == g.ancestor_at(pv, (j - 1) as nat));
    }
}

impl Collatz {
    /// The descending orbit of `n`: the records from `n` down to, but not
    /// including, the root. Fails if `n` has no node yet.
    pub fn iter_orbit(&self, n: u64) -> (r: Result<Vec<NodeData>, CollatzError>)
        requires
            self.wf(),
        ensures
            match r {
                Ok(v) => self.has(n) && v@ == self.orbit_seq(n) && v@.len() == self.depth_of(n),
                Err(e) => e == CollatzError::NotGenerated && !self.has(n),
            },
    {
        let mut cur = match self.get_index(n) {
            Some(i) => i,
            None => {
                return Err(CollatzError::NotGenerated);
            },
        };
        proof {
            lemma_member_node(self, n);
        }
        let mut out: Vec<NodeData> = Vec::new();
        while self.node_depth(cur) > 0
            invariant
                self.wf(),
                self.has(n),
                (cur as int) < self.node_count(),
                self.has(self.node_at(cur as int).data.value),
                self.idx_of(self.node_at(cur as int).data.value) == cur as int,
                out@ + self.orbit_seq(self.node_at(cur as int).data.value) == self.orbit_seq(n),
                out@.len() + self.node_at(cur as int).data.depth == self.depth_of(n),
            decreases self.node_at(cur as int).data.depth,
        {
            let ghost va = self.node_at(cur as int).data.value;
            let rec = self.node_data(cur);
            out.push(rec);
            proof {
                lemma_member_node(self, va);
                lemma_orbit_seq_unfold(self, va);
            }
            cur = self.node_parent(cur);
            proof {
                assert(self.node_at(cur as int).data.value == self.parent_of(va));
                lemma_member_node(self, self.parent_of(va));
                assert(out@ + self.orbit_seq(self.parent_of(va)) =~= self.orbit_seq(n));
            }
        }
        proof {
            let ghost vl = self.node_at(cur as int).data.value;
            lemma_member_node(self, vl);
            lemma_orbit_seq_unfold(self, vl);
            assert(out@ + self.orbit_seq(vl) =~= out@);
            lemma_orbit_seq_unfold(self, n);
        }
        Ok(out)
    }

    /// Every node's record, in the canonical breadth-first enumeration
    /// order from the root: deterministic and stable across repeated
    /// calls on an unmodified graph, and complete — each member value
    /// appears exactly once, with its stored record.
    #[verifier::rlimit(100)]
    #[verifier::spinoff_prover]
    pub fn iter(&self) -> (r: Vec<NodeData>)
        requires
            self.wf(),
        ensures
            r@ == self.iter_seq(),
            r@.len() == self.node_count(),
            r@.len() >= 1 && r@[0] == self.record_of(1u64),
            forall|j: int|
                1 <= j < r@.len() ==> exists|i: int|
                    0 <= i < j && r@[i].value as int == crate::step::step_down(
                        self.variant(),
                        (#[trigger] r@[j]).value as int,
                    ),
            forall|i: int, j: int|
                0 <= i <= j < r@.len() ==> (#[trigger] r@[i]).depth <= (#[trigger] r@[j]).depth,
            forall|j: int|
                0 <= j < r@.len() ==> self.has(#[trigger] r@[j].value) && r@[j] == self.record_of(
                    r@[j].value,
                ),
            forall|v: u64|
                #[trigger] self.has(v) ==> exists|j: int| 0 <= j < r@.len() && r@[j].value == v,
            forall|i: int, j: int|
                0 <= i < r@.len() && 0 <= j < r@.len() && i != j ==> r@[i].value != r@[j].value,
    {
        proof {
            lemma_root_present(self);
            lemma_member_node(self, 1u64);
        }
        let mut queue: Vec<usize> = Vec::new();
        queue.push(0);
        let mut head: usize = 0;
        let mut out: Vec<NodeData> = Vec::new();
        proof {
            assert(vals_at(*self, queue@.subrange(0, queue@.len() as int)) =~= seq![1u64]);
        }
        while head < queue.len()
            invariant
                self.wf(),
                queue@.len() >= 1,
                queue@[0] == 0usize,
                head <= queue@.len(),
                queue@.len() <= self.node_count(),
                out@.len() == head,
                forall|p: int| 0 <= p < queue@.len() ==> ((#[trigger] queue@[p]) as int) < self.node_count(),
                queue@.no_duplicates(),
                forall|p: int|
                    1 <= p < queue@.len() ==> (#[trigger] queue@[p]) != 0usize && exists|q: int|
                        0 <= q < head && q < p && self.node_at(queue@[p] as int).down == Some(
                            queue@[q],
                        ),
                forall|q: int, k: int|
                    0 <= q < head && 0 <= k < self.children_of(queue@[q] as int).len()
                        ==> enqueued(queue@, #[trigger] self.children_of(queue@[q] as int)[k]),
                forall|p: int, p2: int|
                    0 <= p <= p2 < queue@.len() ==> self.node_at(
                        (#[trigger] queue@[p]) as int,
                    ).data.depth <= self.node_at((#[trigger] queue@[p2]) as int).data.depth,
                head < queue@.len() ==> forall|p: int|
                    head <= p < queue@.len() ==> (self.node_at(
                        (#[trigger] queue@[p]) as int,
                    ).data.depth as int) <= self.node_at(
                        queue@[head as int] as int,
                    ).data.depth + 1,
                forall|j: int|
                    0 <= j < out@.len() ==> #[trigger] out@[j] == self.node_at(
                        queue@[j] as int,
                    ).data,
                self.iter_seq() == out@ + self.enum_from(
                    vals_at(*self, queue@.subrange(head as int, queue@.len() as int)),
                    (self.node_count() - head) as nat,
                ),
            decreases self.node_count() - head,
        {
            let ghost old_queue = queue@;
            let ghost old_head = head as int;
            let ghost vrem = vals_at(*self, old_queue.subrange(old_head, old_queue.len() as int));
            let x = queue[head];
            let rec = self.node_data(x);
            out.push(rec);
            head = head + 1;
            let (c1o, c2o) = self.node_children(x);
            proof {
                lemma_wf_node(self, x as int);
                match c1o {
                    Some(c) => lemma_wf_node(self, c as int),
                    None => (),
                }
                match c2o {
                    Some(c) => lemma_wf_node(self, c as int),
                    None => (),
                }
            }
            if let Some(c) = c1o {
                queue.push(c);
            }
            if let Some(c) = c2o {
                queue.push(c);
            }
            proof {
                let nq = queue@;
                let ch = self.children_of(x as int);
                // The new entries are exactly the children of `x`, so the
                // remaining work matches one unfolding of the walk.
                assert(nq =~= old_queue + ch.map_values(|c: int| c as usize));
                // No child was anywhere in the queue already: each entry
                // after position 0 was enqueued by its unique parent, and
                // `x` is processed only now.
                assert forall|c: int, p: int|
                    0 <= c < ch.len() && 0 <= p < old_queue.len() implies old_queue[p] as int
                    != ch[c] by {
                    if old_queue[p] as int == ch[c] {
                        assert(self.node_at(ch[c]).down == Some(x));
                        if p == 0 {
                            assert(self.node_at(0).down is None) by {
                                lemma_wf_node(self, 0);
                            };
                        } else {
                            let q = choose|q: int|
                                0 <= q < old_head && q < p && self.node_at(
                                    old_queue[p] as int,
                                ).down == Some(old_queue[q]);
                            assert(old_queue[q] == x);
                            assert(old_queue[old_head] == x);
                        }
                    }
                };
                assert(nq.no_duplicates()) by {
                    assert forall|i: int, j: int|
                        0 <= i < nq.len() && 0 <= j < nq.len() && i != j implies nq[i] != nq[j] by {
                        if i < old_queue.len() && j < old_queue.len() {
                            assert(old_queue[i] != old_queue[j]);
                        } else if i < old_queue.len() {
                            assert(nq[j] as int == ch[j - old_queue.len()]);
                        } else if j < old_queue.len() {
                            assert(nq[i] as int == ch[i - old_queue.len()]);
                        } else {
                            assert(self.node_at(x as int).up1 != self.node_at(x as int).up2);
                        }
                    };
                };
                lemma_distinct_bounded(nq, self.node_count() as int);
                // Parent witnesses for the new entries.
                assert forall|p: int|
                    1 <= p < nq.len() implies (#[trigger] nq[p]) != 0usize && exists|q: int|
                        0 <= q < head && q < p && self.node_at(nq[p] as int).down == Some(
                            nq[q],
                        ) by {
                    if p < old_queue.len() {
                        let q = choose|q: int|
                            0 <= q < old_head && q < p && self.node_at(old_queue[p] as int).down
                                == Some(old_queue[q]);
                        assert(0 <= q < head && q < p && self.node_at(nq[p] as int).down == Some(
                            nq[q],
                        ));
                    } else {
                        assert(self.node_at(nq[p] as int).down == Some(nq[old_head]));
                        assert(0 <= old_head < head && old_head < p);
                    }
                };
                // Enqueued children of every processed slot.
                assert forall|q: int, k: int|
                    0 <= q < head && 0 <= k < self.children_of(nq[q] as int).len() implies enqueued(
                    nq,
                    #[trigger] self.children_of(nq[q] as int)[k],
                ) by {
                    if q < old_head {
                        assert(enqueued(old_queue, self.children_of(old_queue[q] as int)[k]));
                        let p = choose|p: int|
                            0 <= p < old_queue.len() && old_queue[p] as int == self.children_of(
                                old_queue[q] as int,
                            )[k];
                        assert(nq[p] as int == self.children_of(nq[q] as int)[k]);
                    } else {
                        assert(q == old_head && nq[q] == x);
                        assert(nq[old_queue.len() + k] as int == ch[k]);
                    }
                };
                // Depth ordering: each pushed child sits one level below
                // the node processed now, which is the shallowest entry
                // still enqueued.
                assert forall|c: int| 0 <= c < ch.len() implies self.node_at(
                    ch[c],
                ).data.depth == self.node_at(x as int).data.depth + 1 by {
                    assert(self.node_at(ch[c]).down == Some(x));
                    lemma_wf_node(self, ch[c]);
                };
                assert forall|p: int, p2: int|
                    0 <= p <= p2 < nq.len() implies self.node_at(
                    (#[trigger] nq[p]) as int,
                ).data.depth <= self.node_at((#[trigger] nq[p2]) as int).data.depth by {
                    if p2 >= old_queue.len() {
                        assert(self.node_at(nq[p2] as int).data.depth == self.node_at(
                            x as int,
                        ).data.depth + 1);
                        if p < old_queue.len() {
                            if p < old_head {
                                assert(self.node_at(old_queue[p] as int).data.depth
                                    <= self.node_at(x as int).data.depth);
                            }
                        } else {
                            assert(self.node_at(nq[p] as int).data.depth == self.node_at(
                                x as int,
                            ).data.depth + 1);
                        }
                    }
                };
                assert(head < nq.len() ==> forall|p: int|
                    head <= p < nq.len() ==> (self.node_at(
                        (#[trigger] nq[p]) as int,
                    ).data.depth as int) <= self.node_at(nq[head as int] as int).data.depth
                        + 1) by {
                    if head < nq.len() {
                        assert(self.node_at(nq[old_head] as int).data.depth <= self.node_at(
                            nq[head as int] as int,
                        ).data.depth);
                        assert forall|p: int| head <= p < nq.len() implies (self.node_at(
                            (#[trigger] nq[p]) as int,
                        ).data.depth as int) <= self.node_at(nq[head as int] as int).data.depth
                            + 1 by {
                            if p >= old_queue.len() {
                                assert(self.node_at(nq[p] as int).data.depth == self.node_at(
                                    x as int,
                                ).data.depth + 1);
                            }
                        };
                    }
                };
                // One unfolding of the breadth-first walk.
                let fuel = (self.node_count() - old_head) as nat;
                let vx = self.node_at(x as int).data.value;
                lemma_wf_node(self, x as int);
                crate::graph::lemma_child_slots(self, vx);
                assert(vrem.len() > 0 && vrem[0] == vx);
                assert(fuel > 0);
                assert(self.record_of(vx) == self.node_at(x as int).data);
                assert(self.enum_from(vrem, fuel) == seq![self.record_of(vx)] + self.enum_from(
                    vrem.drop_first() + self.enum_children(vx),
                    (fuel - 1) as nat,
                ));
                assert(vals_at(*self, nq.subrange(head as int, nq.len() as int))
                    =~= vrem.drop_first() + self.enum_children(vx)) by {
                    match (self.node_at(x as int).up1, self.node_at(x as int).up2) {
                        (Some(c1), Some(c2)) => {
                            assert(self.enum_children(vx) =~= seq![
                                self.node_at(c1 as int).data.value,
                                self.node_at(c2 as int).data.value,
                            ]);
                        },
                        (Some(c1), None) => {
                            assert(self.enum_children(vx) =~= seq![
                                self.node_at(c1 as int).data.value,
                            ]);
                        },
                        (None, Some(c2)) => {
                            assert(self.enum_children(vx) =~= seq![
                                self.node_at(c2 as int).data.value,
                            ]);
                        },
                        (None, None) => {
                            assert(self.enum_children(vx) =~= Seq::<u64>::empty());
                        },
                    }
                };
                assert(out@ + self.enum_from(
                    vals_at(*self, nq.subrange(head as int, nq.len() as int)),
                    (self.node_count() - head) as nat,
                ) =~= self.iter_seq());
            }
        }
        proof {
            let q = queue@;
            assert(vals_at(*self, q.subrange(head as int, q.len() as int)) =~= Seq::<
                u64,
            >::empty());
            assert(self.iter_seq() =~= out@);
            assert(out@[0] == self.node_at(0).data);
            lemma_member_node(self, 1u64);
            assert(out@[0] == self.record_of(1u64));
            assert forall|i: int, j: int|
                0 <= i <= j < out@.len() implies (#[trigger] out@[i]).depth <= (
            #[trigger] out@[j]).depth by {
                assert(self.node_at(q[i] as int).data.depth <= self.node_at(
                    q[j] as int,
                ).data.depth);
            };
            // Each later record follows the record of its down-neighbour:
            // entries enter the queue only while their parent is processed.
            assert forall|j: int| #![trigger out@[j]] 1 <= j < out@.len() implies exists|
                i: int,
            |
                0 <= i < j && out@[i].value as int == crate::step::step_down(
                    self.variant(),
                    out@[j].value as int,
                ) by {
                let qq = choose|qq: int|
                    0 <= qq < head && qq < j && self.node_at(q[j] as int).down == Some(q[qq]);
                lemma_wf_node(self, q[j] as int);
                lemma_wf_node(self, q[qq] as int);
                assert(out@[qq].value as int == crate::step::step_down(
                    self.variant(),
                    out@[j].value as int,
                ));
            };
            // Completeness: every slot is enqueued, by induction on depth.
            assert forall|m: int| 0 <= m < self.node_count() implies enqueued(q, m) by {
                lemma_all_enqueued(self, q, head as int, m);
            };
            lemma_cover_bound(q, self.node_count() as int);
            assert(out@.len() == self.node_count());
            assert forall|j: int|
                0 <= j < out@.len() implies self.has(#[trigger] out@[j].value) && out@[j]
                == self.record_of(out@[j].value) by {
                lemma_wf_node(self, q[j] as int);
            };
            assert forall|v: u64| #[trigger] self.has(v) implies exists|j: int|
                0 <= j < out@.len() && out@[j].value == v by {
                lemma_member_node(self, v);
                assert(enqueued(q, self.idx_of(v)));
                let j = choose|j: int| 0 <= j < q.len() && q[j] as int == self.idx_of(v);
                lemma_wf_node(self, q[j] as int);
                assert(out@[j].value == v);
            };
            assert forall|i: int, j: int|
                0 <= i < out@.len() && 0 <= j < out@.len() && i != j implies out@[i].value
                != out@[j].value by {
                lemma_wf_node(self, q[i] as int);
                lemma_wf_node(self, q[j] as int);
                assert(q[i] != q[j]);
            };
        }
        out
    }
}

/// In a fully processed queue that starts at the root and contains the
/// children of each of its entries, every arena slot occurs: nodes are
/// reached from the root by induction on their depth.
proof fn lemma_all_enqueued(g: &Collatz, q: Seq<usize>, head: int, m: int)
    requires
        g.wf(),
        q.len() >= 1,
        q[0] == 0usize,
        head == q.len(),
        forall|p: int| 0 <= p < q.len() ==> ((#[trigger] q[p]) as int) < g.node_count(),
        forall|p: int, k: int|
            0 <= p < head && 0 <= k < g.children_of(q[p] as int).len() ==> enqueued(
                q,
                #[trigger] g.children_of(q[p] as int)[k],
            ),
        0 <= m < g.node_count(),
    ensures
        enqueued(q, m),
    decreases g.node_at(m).data.depth,
{
    if m == 0 {
        assert(q[0] as int == 0);
    } else {
        lemma_wf_node(g, m);
        assert((m as usize) as int == m);
        let d = g.node_at(m).down->Some_0;
        assert(g.node_at(m).data.depth == g.node_at(d as int).data.depth + 1);
        lemma_all_enqueued(g, q, head, d as int);
        let p = choose|p: int| 0 <= p < q.len() && q[p] as int == d as int;
        let ch = g.children_of(d as int);
        assert(exists|k: int| 0 <= k < ch.len() && ch[k] == m) by {
            if g.node_at(d as int).up1 == Some(m as usize) {
                assert(ch[0] == m);
            } else {
                assert(g.node_at(d as int).up2 == Some(m as usize));
                if g.node_at(d as int).up1 is Some {
                    assert(ch[1] == m);
                } else {
                    assert(ch[0] == m);
                }
            }
        };
        let k = choose|k: int| 0 <= k < ch.len() && ch[k] == m;
        assert(enqueued(q, g.children_of(q[p] as int)[k]));
    }
}

} // verus!
