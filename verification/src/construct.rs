//! Graph construction: incremental descending construction with
//! path-merging, bulk filling of a contiguous range, and bounded ascending
//! construction by predecessor enumeration.

use vstd::prelude::*;

use crate::graph::{lemma_free_slot, lemma_graph_value_converges, max_u64, Collatz};
use crate::kind::{in_domain, CollatzKind};
use crate::step::{
    converges, fits_u64, has_second_up, iter_down, lemma_compact_cases, lemma_iter_down_add,
    lemma_mod_mod, lemma_orbit_window, lemma_step_in_domain, lemma_up_always_sound,
    lemma_up_second_sound, reaches_one_at, step_down, up_always,
};
use crate::CollatzError;

verus! {

use vstd::set_lib::{lemma_int_range, lemma_len_subset, set_int_range};

/// Whether, starting from `n` and taking forward steps over graph `g`,
/// the first already-present value is reached after exactly `k` steps,
/// with the whole prefix inside the 64-bit working domain.
pub open spec fn first_hit_at(g: Collatz, n: u64, k: nat) -> bool {
    &&& forall|j: nat|
        j <= k ==> fits_u64(#[trigger] iter_down(g.variant(), n as int, j))
    &&& forall|j: nat|
        j < k ==> !#[trigger] g.has(iter_down(g.variant(), n as int, j) as u64)
    &&& g.has(iter_down(g.variant(), n as int, k) as u64)
}

/// How descending construction wires the `up` slots, between an old
/// graph `g0` and a new one `g1`, for a fresh chain of `k` values
/// starting at `n`: each new chain node holds the next-higher chain node
/// in its first slot, the chain top `n` has no children yet, the merge
/// point receives the chain end in its first slot if that was empty and
/// in its second slot otherwise, and no other member's slots change.
pub open spec fn down_links(g0: Collatz, g1: Collatz, n: u64, k: nat) -> bool {
    let knd = g0.variant();
    let mv = iter_down(knd, n as int, k) as u64;
    &&& forall|j: nat|
        1 <= j < k ==> g1.first_child((#[trigger] iter_down(knd, n as int, j)) as u64) == Some(
            iter_down(knd, n as int, (j - 1) as nat) as u64,
        ) && g1.second_child(iter_down(knd, n as int, j) as u64) is None
    &&& (k >= 1 ==> g1.first_child(n) is None && g1.second_child(n) is None)
    &&& (k >= 1 ==> {
        let tail = iter_down(knd, n as int, (k - 1) as nat) as u64;
        &&& (g0.first_child(mv) is None ==> g1.first_child(mv) == Some(tail)
            && g1.second_child(mv) == g0.second_child(mv))
        &&& (g0.first_child(mv) is Some ==> g1.first_child(mv) == g0.first_child(mv)
            && g1.second_child(mv) == Some(tail))
    })
    &&& forall|v: u64|
        #[trigger] g0.has(v) && v != mv ==> g1.first_child(v) == g0.first_child(v)
            && g1.second_child(v) == g0.second_child(v)
}

/// A sequence of distinct 64-bit values cannot be longer than the number
/// of 64-bit values.
proof fn lemma_distinct_u64_len(s: Seq<u64>)
    requires
        s.no_duplicates(),
    ensures
        s.len() <= 0x1_0000_0000_0000_0000,
{
    let bound: int = 0x1_0000_0000_0000_0000;
    let si = s.map_values(|x: u64| x as int);
    assert(si.no_duplicates()) by {
        assert forall|i: int, j: int|
            0 <= i < si.len() && 0 <= j < si.len() && i != j implies si[i] != si[j] by {
            assert(s[i] != s[j]);
        };
    };
    si.unique_seq_to_set();
    lemma_int_range(0, bound);
    assert(si.to_set().subset_of(set_int_range(0, bound))) by {
        assert forall|x: int| si.to_set().contains(x) implies set_int_range(0, bound).contains(
            x,
        ) by {
            let i = choose|i: int| 0 <= i < si.len() && si[i] == x;
            assert(s[i] as int == x);
        };
    };
    lemma_len_subset(si.to_set(), set_int_range(0, bound));
}

/// Linear membership scan.
fn vec_holds(v: &Vec<u64>, x: u64) -> (r: bool)
    ensures
        r == v@.contains(x),
{
    let mut i: usize = 0;
    while i < v.len()
        invariant
            i <= v@.len(),
            forall|j: int| 0 <= j < i ==> v@[j] != x,
        decreases v@.len() - i,
    {
        if v[i] == x {
            return true;
        }
        i = i + 1;
    }
    false
}

impl Collatz {
    /// The forward step computed with width to spare: a successor beyond
    /// the 64-bit working domain is reported instead of computed wrongly.
    fn down_wide(&self, n: u64) -> (r: Option<u64>)
        requires
            in_domain(self.variant(), n as int),
        ensures
            match r {
                Some(v) => v as int == step_down(self.variant(), n as int),
                None => step_down(self.variant(), n as int) > u64::MAX,
            },
    {
        let wide: u128 = n as u128;
        let cap: u128 = u64::MAX as u128;
        match self.kind() {
            CollatzKind::Full => {
                if n % 2 == 0 {
                    Some(n / 2)
                } else {
                    let s: u128 = wide * 3 + 1;
                    if s <= cap {
                        Some(s as u64)
                    } else {
                        None
                    }
                }
            },
            CollatzKind::Short => {
                if n % 2 == 0 {
                    Some(n / 2)
                } else {
                    let s: u128 = (wide * 3 + 1) / 2;
                    if s <= cap {
                        Some(s as u64)
                    } else {
                        None
                    }
                }
            },
            CollatzKind::Odd => {
                proof {
                    lemma_mod_mod(n as int, 8, 2);
                }
                if n % 8 == 5 {
                    Some(n / 4)
                } else if n % 8 == 3 || n % 8 == 7 {
                    let s: u128 = (wide * 3 + 1) / 2;
                    if s <= cap {
                        Some(s as u64)
                    } else {
                        None
                    }
                } else {
                    let s: u128 = (wide * 3 + 1) / 4;
                    if s <= cap {
                        Some(s as u64)
                    } else {
                        None
                    }
                }
            },
            CollatzKind::Compact => {
                proof {
                    lemma_compact_cases(n as int);
                }
                if n % 24 == 5 {
                    Some(n / 4)
                } else if n % 96 == 85 {
                    Some(n / 16)
                } else {
                    let divisor: u128 = if n % 12 == 7 || n % 12 == 11 {
                        2
                    } else if n % 24 == 1 || n % 24 == 17 {
                        4
                    } else if n % 48 == 13 {
                        8
                    } else {
                        16
                    };
                    let s: u128 = (wide * 3 + 1) / divisor;
                    if s <= cap {
                        Some(s as u64)
                    } else {
                        None
                    }
                }
            },
        }
    }

    /// Walks forward from a value not yet present, collecting the chain of
    /// brand-new values up to (excluding) the first already-present one.
    /// Fails exactly when the walk leaves the 64-bit domain or revisits a
    /// value, which is when the orbit of `n` does not converge.
    fn collect_chain(&self, n: u64) -> (r: Result<(Vec<u64>, u64), CollatzError>)
        requires
            self.wf(),
            in_domain(self.variant(), n as int),
            !self.has(n),
        ensures
            match r {
                Ok(p) => {
                    let k = p.0@.len() as nat;
                    &&& k >= 1
                    &&& first_hit_at(*self, n, k)
                    &&& forall|j: int|
                        0 <= j < k ==> p.0@[j] as int == iter_down(self.variant(), n as int, j as nat)
                    &&& p.1 as int == iter_down(self.variant(), n as int, k)
                    &&& self.has(p.1)
                    &&& p.0@.no_duplicates()
                    &&& forall|j: int|
                        0 <= j < k ==> in_domain(self.variant(), #[trigger] p.0@[j] as int)
                            && !self.has(p.0@[j])
                },
                Err(e) => {
                    &&& (e == CollatzError::Overflow || e == CollatzError::DuplicateCreate)
                    &&& !converges(self.variant(), n)
                },
            },
    {
        proof {
            crate::graph::lemma_root_present(self);
        }
        let mut chain: Vec<u64> = Vec::new();
        let mut cur: u64 = n;
        chain.push(n);
        loop
            invariant
                self.wf(),
                in_domain(self.variant(), n as int),
                !self.has(n),
                chain@.len() >= 1,
                chain@.len() <= 0x1_0000_0000_0000_0000,
                cur == chain@.last(),
                forall|j: int|
                    0 <= j < chain@.len() ==> #[trigger] chain@[j] as int == iter_down(
                        self.variant(),
                        n as int,
                        j as nat,
                    ),
                forall|j: int|
                    0 <= j < chain@.len() ==> in_domain(self.variant(), #[trigger] chain@[j] as int)
                        && !self.has(chain@[j]),
                chain@.no_duplicates(),
            decreases 0x1_0000_0000_0000_0001int - chain@.len(),
        {
            let ghost knd = self.variant();
            let ghost ell = chain@.len() as nat;
            proof {
                lemma_step_in_domain(knd, cur as int);
                assert(chain@[ell - 1] == cur);
                assert(iter_down(knd, n as int, ell) == step_down(knd, cur as int));
            }
            let next = match self.down_wide(cur) {
                Some(next) => next,
                None => {
                    proof {
                        crate::graph::lemma_root_present(self);
                        assert(iter_down(knd, n as int, ell) > u64::MAX);
                        assert(!converges(knd, n)) by {
                            if converges(knd, n) {
                                let kk = choose|kk: nat| reaches_one_at(knd, n, kk);
                                assert(self.has(1u64));
                                if kk < ell {
                                    assert(chain@[kk as int] as int == iter_down(
                                        knd,
                                        n as int,
                                        kk,
                                    ));
                                    assert(!self.has(chain@[kk as int]));
                                } else {
                                    assert(fits_u64(iter_down(knd, n as int, ell)));
                                }
                            }
                        };
                    }
                    return Err(CollatzError::Overflow);
                },
            };
            if self.contains(&next) {
                proof {
                    assert(first_hit_at(*self, n, ell)) by {
                        assert forall|j: nat| j <= ell implies fits_u64(
                            #[trigger] iter_down(knd, n as int, j),
                        ) by {
                            if j < ell {
                                assert(chain@[j as int] as int == iter_down(knd, n as int, j));
                            } else {
                                assert(iter_down(knd, n as int, j) == next as int);
                            }
                        };
                        assert forall|j: nat| j < ell implies !#[trigger] self.has(
                            iter_down(knd, n as int, j) as u64,
                        ) by {
                            assert(chain@[j as int] as int == iter_down(knd, n as int, j));
                        };
                        assert(iter_down(knd, n as int, ell) == next as int);
                    };
                }
                return Ok((chain, next));
            }
            if vec_holds(&chain, next) {
                proof {
                    crate::graph::lemma_root_present(self);
                    let a = choose|a: int| 0 <= a < chain@.len() && chain@[a] == next;
                    assert(iter_down(knd, n as int, a as nat) == iter_down(knd, n as int, ell));
                    assert(!converges(knd, n)) by {
                        if converges(knd, n) {
                            let kk = choose|kk: nat| reaches_one_at(knd, n, kk);
                            assert(self.has(1u64));
                            if kk < ell {
                                assert(chain@[kk as int] as int == iter_down(knd, n as int, kk));
                                assert(!self.has(chain@[kk as int]));
                            } else {
                                lemma_orbit_window(knd, n as int, a as nat, ell, kk);
                                let m = choose|m: nat|
                                    a <= m < ell && iter_down(knd, n as int, kk) == iter_down(
                                        knd,
                                        n as int,
                                        m,
                                    );
                                assert(chain@[m as int] as int == iter_down(knd, n as int, m));
                                assert(!self.has(chain@[m as int]));
                            }
                        }
                    };
                }
                return Err(CollatzError::DuplicateCreate);
            }
            proof {
                assert(!chain@.contains(next));
                let pushed = chain@.push(next);
                assert(pushed.no_duplicates()) by {
                    assert forall|a: int, b: int|
                        0 <= a < pushed.len() && 0 <= b < pushed.len() && a != b implies pushed[a]
                        != pushed[b] by {
                        if a < chain@.len() && b < chain@.len() {
                            assert(chain@[a] != chain@[b]);
                        } else if a < chain@.len() {
                            assert(chain@[a] != next);
                        } else {
                            assert(chain@[b] != next);
                        }
                    };
                };
                lemma_distinct_u64_len(pushed);
            }
            chain.push(next);
            cur = next;
        }
    }

    /// Descending construction: ensure that `n` and every forward-step
    /// successor of `n` up to the first already-known value are present,
    /// linked, and annotated with their depth and highest point; the
    /// `up` slots are wired as `down_links` states.
    ///
    /// A call with a value already present changes nothing. The call
    /// succeeds exactly on the in-domain values whose orbit converges to
    /// the root within the 64-bit working domain; on any failure the graph
    /// is left untouched.
    pub fn generate_down(&mut self, n: u64) -> (r: Result<(), CollatzError>)
        requires
            old(self).wf(),
        ensures
            final(self).wf(),
            final(self).variant() == old(self).variant(),
            (r == Err::<(), CollatzError>(CollatzError::InvalidDomain) <==> !in_domain(
                old(self).variant(),
                n as int,
            )),
            in_domain(old(self).variant(), n as int) ==> (r == Ok::<(), CollatzError>(()) <==> converges(
                old(self).variant(),
                n,
            )),
            r == Ok::<(), CollatzError>(()) ==> final(self).has(n),
            forall|v: u64|
                old(self).has(v) ==> final(self).has(v) && #[trigger] final(self).record_of(v) == old(self).record_of(v),
            r == Ok::<(), CollatzError>(()) ==> exists|k: nat|
                #[trigger] first_hit_at(*old(self), n, k) && final(self).node_count() == old(self).node_count() + k && down_links(*old(self), *final(self), n, k) && (forall|
                    v: u64,
                |
                    #[trigger] final(self).has(v) <==> old(self).has(v) || exists|j: nat|
                        j < k && iter_down(old(self).variant(), n as int, j) == v as int),
            r != Ok::<(), CollatzError>(()) ==> *final(self) == *old(self) && (r matches Err(e)
                && e != CollatzError::NotGenerated),
            old(self).has(n) && in_domain(old(self).variant(), n as int) ==> r == Ok::<(), CollatzError>(())
                && *final(self) == *old(self),
            final(self).node_count() >= old(self).node_count(),
            final(self).filled_upto() == old(self).filled_upto(),
    {
        let ghost knd = self.variant();
        if !self.kind().accepts(n) {
            return Err(CollatzError::InvalidDomain);
        }
        if self.contains(&n) {
            proof {
                lemma_graph_value_converges(self, n);
                assert(first_hit_at(*old(self), n, 0));
                assert(down_links(*old(self), *self, n, 0));
                assert forall|v: u64| #[trigger] self.has(v) implies old(self).has(v) || exists|
                    j: nat,
                |
                    j < 0 && iter_down(knd, n as int, j) == v as int by {};
            }
            return Ok(());
        }
        let ghost g0 = *self;
        let (chain, mv) = match self.collect_chain(n) {
            Ok(p) => p,
            Err(e) => {
                return Err(e);
            },
        };
        let ghost k = chain@.len() as nat;
        proof {
            // The orbit of `n` converges: compose the fresh chain with the
            // stored orbit of the merge value.
            lemma_graph_value_converges(self, mv);
            let d = self.depth_of(mv);
            assert(reaches_one_at(knd, n, k + d)) by {
                lemma_iter_down_add(knd, n as int, k, d);
                assert(iter_down(knd, n as int, k + d) == iter_down(knd, mv as int, d));
                assert forall|j: nat| j <= k + d implies fits_u64(
                    #[trigger] iter_down(knd, n as int, j),
                ) by {
                    if j > k {
                        lemma_iter_down_add(knd, n as int, k, (j - k) as nat);
                        assert(iter_down(knd, n as int, j) == iter_down(
                            knd,
                            mv as int,
                            (j - k) as nat,
                        ));
                    }
                };
            };
        }
        let mi = match self.get_index(mv) {
            Some(i) => i,
            None => unreached(),
        };
        proof {
            crate::graph::lemma_member_node(self, mv);
        }
        let mut below: usize = mi;
        let mut j: usize = chain.len();
        while j > 0
            invariant
                self.wf(),
                self.variant() == g0.variant(),
                self.filled_upto() == g0.filled_upto(),
                g0.wf(),
                0 <= j <= k,
                k == chain@.len(),
                k >= 1,
                first_hit_at(g0, n, k),
                in_domain(g0.variant(), n as int),
                g0.variant() == knd,
                forall|t: int|
                    0 <= t < k ==> #[trigger] chain@[t] as int == iter_down(knd, n as int, t as nat),
                forall|t: int|
                    0 <= t < k ==> in_domain(knd, #[trigger] chain@[t] as int) && !g0.has(
                        chain@[t],
                    ),
                chain@.no_duplicates(),
                mv as int == iter_down(knd, n as int, k),
                g0.has(mv),
                mi as int == g0.idx_of(mv),
                self.node_count() == g0.node_count() + (k - j),
                forall|v: u64|
                    #[trigger] g0.has(v) ==> self.has(v) && self.record_of(v) == g0.record_of(v)
                        && self.idx_of(v) == g0.idx_of(v),
                forall|v: u64|
                    #[trigger] self.has(v) ==> g0.has(v) || exists|t: int|
                        j <= t < k && chain@[t] == v,
                forall|t: int| j <= t < k ==> #[trigger] self.has(chain@[t]),
                below < self.node_count(),
                self.node_at(below as int).data.value as int == iter_down(knd, n as int, j as nat),
                j < k ==> self.node_at(below as int).up1 is None && self.node_at(
                    below as int,
                ).up2 is None,
                j == k ==> below == mi,
                forall|t: int|
                    j < t < k ==> self.first_child(#[trigger] chain@[t]) == Some(chain@[t - 1])
                        && self.second_child(chain@[t]) is None,
                j < k ==> self.first_child(chain@[j as int]) is None && self.second_child(
                    chain@[j as int],
                ) is None,
                j == k ==> self.first_child(mv) == g0.first_child(mv) && self.second_child(mv)
                    == g0.second_child(mv),
                j < k ==> ((g0.first_child(mv) is None ==> self.first_child(mv) == Some(
                    chain@[k - 1],
                ) && self.second_child(mv) == g0.second_child(mv)) && (g0.first_child(
                    mv,
                ) is Some ==> self.first_child(mv) == g0.first_child(mv) && self.second_child(mv)
                    == Some(chain@[k - 1]))),
                forall|v: u64|
                    #[trigger] g0.has(v) && v != mv ==> self.first_child(v) == g0.first_child(v)
                        && self.second_child(v) == g0.second_child(v),
            decreases j,
        {
            j = j - 1;
            let v = chain[j];
            proof {
                assert(chain@[j as int] as int == iter_down(knd, n as int, j as nat));
                assert(iter_down(knd, n as int, (j + 1) as nat) == step_down(knd, v as int));
                assert(!self.has(v)) by {
                    assert(!g0.has(chain@[j as int]));
                    if exists|t: int| j + 1 <= t < k && chain@[t] == v {
                        let t = choose|t: int| j + 1 <= t < k && chain@[t] == v;
                        assert(chain@[t] == chain@[j as int]);
                    }
                };
                if j + 1 == k {
                    lemma_free_slot(self, below as int, v);
                }
            }
            let pd = self.node_depth(below);
            let ph = self.node_highest(below);
            let hi = if v >= ph {
                v
            } else {
                ph
            };
            let ghost prev = *self;
            let ni = self.push_node(v, pd, hi, below);
            below = ni;
            proof {
                assert forall|w: u64| g0.has(w) implies #[trigger] self.has(w) && self.record_of(
                    w,
                ) == g0.record_of(w) && self.idx_of(w) == g0.idx_of(w) by {
                    assert(prev.has(w) && prev.record_of(w) == g0.record_of(w) && prev.idx_of(w)
                        == g0.idx_of(w));
                };
                assert forall|t: int| j <= t < k implies #[trigger] self.has(chain@[t]) by {
                    if t > j {
                        assert(prev.has(chain@[t]));
                    }
                };
            }
        }
        proof {
            assert(self.has(chain@[0]));
            assert(chain@[0] == n);
            assert(down_links(g0, *self, n, k)) by {
                assert forall|jj: nat|
                    1 <= jj < k implies self.first_child(
                    (#[trigger] iter_down(knd, n as int, jj)) as u64,
                ) == Some(iter_down(knd, n as int, (jj - 1) as nat) as u64) && self.second_child(
                    iter_down(knd, n as int, jj) as u64,
                ) is None by {
                    assert(chain@[jj as int] as int == iter_down(knd, n as int, jj));
                    assert(chain@[jj as int - 1] as int == iter_down(knd, n as int, (jj - 1) as nat));
                    assert(self.first_child(chain@[jj as int]) == Some(chain@[jj as int - 1]));
                };
                assert(self.first_child(chain@[0]) is None && self.second_child(
                    chain@[0],
                ) is None);
                assert(chain@[k - 1] as int == iter_down(knd, n as int, (k - 1) as nat));
            };
            assert forall|v: u64| #[trigger] self.has(v) implies g0.has(v) || exists|jj: nat|
                jj < k && iter_down(knd, n as int, jj) == v as int by {
                if !g0.has(v) {
                    let t = choose|t: int| 0 <= t < k && chain@[t] == v;
                    assert(iter_down(knd, n as int, t as nat) == v as int);
                }
            };
            assert forall|v: u64|
                g0.has(v) || (exists|jj: nat|
                    jj < k && iter_down(knd, n as int, jj) == v as int) implies #[trigger] self.has(
                v,
            ) by {
                if !g0.has(v) {
                    let jj = choose|jj: nat| jj < k && iter_down(knd, n as int, jj) == v as int;
                    assert(chain@[jj as int] as int == iter_down(knd, n as int, jj));
                    assert(chain@[jj as int] == v);
                    assert(self.has(chain@[jj as int]));
                }
            };
        }
        Ok(())
    }
}

impl Collatz {
    /// Bulk descending construction: build down from every in-domain value
    /// between the known filled boundary and `max`, working downward from
    /// `max` so that merges happen into already-built structure early,
    /// then record the whole range `[1, max]` as filled. The recorded
    /// boundary never moves backward, and every value the call adds lies
    /// on the orbit of some in-domain value of the requested range.
    ///
    /// Succeeds exactly when every in-domain value up to `max` converges;
    /// on failure the values already processed stay in the graph but the
    /// fill boundary is not advanced.
    #[verifier::rlimit(80)]
    #[verifier::spinoff_prover]
    pub fn generate_fill_down(&mut self, max: u64) -> (r: Result<(), CollatzError>)
        requires
            old(self).wf(),
            max < u64::MAX,
        ensures
            final(self).wf(),
            final(self).variant() == old(self).variant(),
            (r == Ok::<(), CollatzError>(()) <==> forall|v: u64|
                1 <= v <= max && in_domain(old(self).variant(), v as int)
                    ==> #[trigger] converges(old(self).variant(), v)),
            r == Ok::<(), CollatzError>(()) ==> forall|v: u64|
                1 <= v <= max && in_domain(old(self).variant(), v as int) ==> #[trigger] final(self).has(v),
            r == Ok::<(), CollatzError>(()) ==> final(self).filled_upto() == max_u64(
                old(self).filled_upto(),
                (max + 1) as u64,
            ),
            forall|v: u64|
                #[trigger] final(self).has(v) && !old(self).has(v) ==> exists|w: u64, j: nat|
                    old(self).filled_upto() <= w <= max && in_domain(
                        old(self).variant(),
                        w as int,
                    ) && iter_down(old(self).variant(), w as int, j) == v as int,
            forall|v: u64|
                #[trigger] old(self).has(v) ==> final(self).has(v) && final(self).record_of(v)
                    == old(self).record_of(v),
            r != Ok::<(), CollatzError>(()) ==> (r matches Err(e) && (e == CollatzError::Overflow
                || e == CollatzError::DuplicateCreate) && final(self).filled_upto() == old(self).filled_upto()),
            final(self).node_count() >= old(self).node_count(),
    {
        let ghost knd = self.variant();
        let ghost g0 = *old(self);
        let start = self.filled_boundary();
        let mut v: u64 = max + 1;
        while v > start
            invariant
                g0 == *old(self),
                knd == old(self).variant(),
                self.wf(),
                self.variant() == knd,
                self.filled_upto() == g0.filled_upto(),
                g0.wf(),
                g0.variant() == knd,
                start == g0.filled_upto(),
                v <= max + 1,
                v >= start || v == max + 1,
                max < u64::MAX,
                forall|w: u64|
                    v <= w <= max && in_domain(knd, w as int) ==> #[trigger] converges(knd, w)
                        && self.has(w),
                forall|w: u64|
                    #[trigger] g0.has(w) ==> self.has(w) && self.record_of(w) == g0.record_of(w),
                forall|u: u64|
                    #[trigger] self.has(u) && !g0.has(u) ==> exists|w: u64, j: nat|
                        v <= w <= max && in_domain(knd, w as int) && iter_down(
                            knd,
                            w as int,
                            j,
                        ) == u as int,
                self.node_count() >= g0.node_count(),
            decreases v,
        {
            let w = v - 1;
            let ghost mid = *self;
            if self.kind().accepts(w) {
                match self.generate_down(w) {
                    Ok(()) => {
                        proof {
                            assert forall|w2: u64|
                                w <= w2 <= max && in_domain(knd, w2 as int) implies #[trigger]
                                converges(knd, w2) && self.has(w2) by {
                                if w2 > w {
                                    assert(w2 >= v);
                                    assert(converges(knd, w2));
                                    assert(mid.has(w2));
                                }
                            };
                            assert forall|w2: u64|
                                #[trigger] g0.has(w2) implies self.has(w2) && self.record_of(w2)
                                == g0.record_of(w2) by {
                                assert(mid.has(w2) && mid.record_of(w2) == g0.record_of(w2));
                            };
                            assert forall|u: u64|
                                #[trigger] self.has(u) && !g0.has(u) implies exists|
                                w2: u64,
                                j: nat,
                            |
                                w <= w2 <= max && in_domain(knd, w2 as int) && iter_down(
                                    knd,
                                    w2 as int,
                                    j,
                                ) == u as int by {
                                if mid.has(u) {
                                    let (w2, j) = choose|w2: u64, j: nat|
                                        v <= w2 <= max && in_domain(knd, w2 as int) && iter_down(
                                            knd,
                                            w2 as int,
                                            j,
                                        ) == u as int;
                                    assert(w <= w2 <= max && in_domain(knd, w2 as int)
                                        && iter_down(knd, w2 as int, j) == u as int);
                                } else {
                                    let k = choose|k: nat|
                                        #[trigger] first_hit_at(mid, w, k) && self.node_count()
                                            == mid.node_count() + k && (forall|u2: u64|
                                            #[trigger] self.has(u2) <==> mid.has(u2) || exists|
                                                j: nat,
                                            |
                                                j < k && iter_down(knd, w as int, j)
                                                    == u2 as int);
                                    let j = choose|j: nat|
                                        j < k && iter_down(knd, w as int, j) == u as int;
                                    assert(w <= w <= max && in_domain(knd, w as int)
                                        && iter_down(knd, w as int, j) == u as int);
                                }
                            };
                        }
                    },
                    Err(e) => {
                        proof {
                            assert(!converges(knd, w));
                            assert(1 <= w <= max && in_domain(knd, w as int));
                        }
                        return Err(e);
                    },
                }
            } else {
                proof {
                    assert forall|w2: u64|
                        w <= w2 <= max && in_domain(knd, w2 as int) implies #[trigger] converges(
                        knd,
                        w2,
                    ) && self.has(w2) by {
                        assert(w2 != w);
                        assert(w2 >= v);
                    };
                }
            }
            v = w;
        }
        proof {
            assert forall|w: u64|
                1 <= w <= max && in_domain(knd, w as int) implies #[trigger] self.has(w) by {
                if w < start {
                    crate::graph::lemma_filled_member(&g0, w);
                } else {
                    assert(v <= w <= max && in_domain(knd, w as int));
                    assert(converges(knd, w));
                    assert(self.has(w));
                }
            };
            assert forall|w: u64|
                1 <= w <= max && in_domain(knd, w as int) implies #[trigger] converges(
                knd,
                w,
            ) by {
                if w < start {
                    crate::graph::lemma_filled_member(&g0, w);
                    lemma_graph_value_converges(&g0, w);
                }
            };
        }
        let ghost pre_mark = *self;
        if self.filled_boundary() < max + 1 {
            self.set_filled(max + 1);
        }
        proof {
            assert forall|u: u64| #[trigger] self.has(u) && !g0.has(u) implies exists|
                w: u64,
                j: nat,
            |
                start <= w <= max && in_domain(knd, w as int) && iter_down(knd, w as int, j)
                    == u as int by {
                assert(pre_mark.has(u));
                let (w, j) = choose|w: u64, j: nat|
                    v <= w <= max && in_domain(knd, w as int) && iter_down(knd, w as int, j)
                        == u as int;
                assert(start <= w <= max && in_domain(knd, w as int) && iter_down(
                    knd,
                    w as int,
                    j,
                ) == u as int);
            };
        }
        Ok(())
    }

    fn push_pred(&mut self, xi: usize, p: u64, max: u64, stack: &mut Vec<usize>)
        requires
            old(self).wf(),
            (xi as int) < old(self).node_count(),
            in_domain(old(self).variant(), p as int),
            step_down(old(self).variant(), p as int) == old(self).node_at(
                xi as int,
            ).data.value as int,
            p != 1,
            forall|q: int|
                0 <= q < old(stack)@.len() ==> (old(stack)@[q] as int) < old(self).node_count(),
        ensures
            final(self).wf(),
            final(self).variant() == old(self).variant(),
            final(self).filled_upto() == old(self).filled_upto(),
            forall|w: u64|
                #[trigger] old(self).has(w) ==> final(self).has(w) && final(self).record_of(w)
                    == old(self).record_of(w),
            forall|w: u64|
                #[trigger] final(self).has(w) ==> old(self).has(w) || (w == p && 2 <= w <= max),
            old(self).node_count() <= final(self).node_count() <= old(self).node_count() + 1,
            !old(self).has(p) && p <= max ==> final(self).has(p),
            forall|w: u64|
                #[trigger] old(self).has(w) ==> (old(self).first_child(w) is Some ==> final(self).first_child(w) == old(self).first_child(w)) && (old(self).second_child(
                    w,
                ) is Some ==> final(self).second_child(w) == old(self).second_child(w)),
            forall|i: int|
                0 <= i < old(self).node_count() ==> #[trigger] final(self).node_at(i).data == old(self).node_at(i).data,
            forall|q: int|
                0 <= q < final(stack)@.len() ==> (final(stack)@[q] as int) < final(self).node_count(),
    {
        match self.get_index(p) {
            Some(pi) => {
                proof {
                    crate::graph::lemma_member_node(self, p);
                }
                stack.push(pi);
            },
            None => {
                if p <= max {
                    proof {
                        lemma_free_slot(self, xi as int, p);
                    }
                    let pd = self.node_depth(xi);
                    let ph = self.node_highest(xi);
                    let hi = if p >= ph {
                        p
                    } else {
                        ph
                    };
                    let ghost pre = *self;
                    let ni = self.push_node(p, pd, hi, xi);
                    stack.push(ni);
                    proof {
                        let pv = pre.node_at(xi as int).data.value;
                        assert forall|w: u64| #[trigger] pre.has(w) implies (pre.first_child(
                            w,
                        ) is Some ==> self.first_child(w) == pre.first_child(w)) && (
                        pre.second_child(w) is Some ==> self.second_child(w)
                            == pre.second_child(w)) by {
                            if w != pv {
                                assert(self.first_child(w) == pre.first_child(w));
                            }
                        };
                    }
                }
            },
        }
    }

    /// Ascending construction, throttled: a depth-first walk from the
    /// root that materializes predecessor nodes bounded above by `max`,
    /// spending at most `steps` expansion steps — so creating at most two
    /// nodes per step — in this call. Repeated calls are required to grow
    /// the ascending frontier further. On a fresh graph with room for the
    /// root's predecessor, the first step is guaranteed to create it;
    /// existing `up` links are never overwritten.
    pub fn generate_up_bounded(&mut self, max: u64, steps: usize)
        requires
            old(self).wf(),
        ensures
            final(self).wf(),
            final(self).variant() == old(self).variant(),
            final(self).filled_upto() == old(self).filled_upto(),
            forall|v: u64|
                #[trigger] old(self).has(v) ==> final(self).has(v) && final(self).record_of(v)
                    == old(self).record_of(v),
            forall|v: u64|
                #[trigger] final(self).has(v) ==> old(self).has(v) || (2 <= v <= max && in_domain(
                    old(self).variant(),
                    v as int,
                )),
            final(self).node_count() >= old(self).node_count(),
            final(self).node_count() <= old(self).node_count() + 2 * steps,
            steps >= 1 && old(self).node_count() == 1 && up_always(old(self).variant(), 1)
                <= max ==> final(self).has(up_always(old(self).variant(), 1) as u64)
                && final(self).node_count() > 1,
            forall|w: u64|
                #[trigger] old(self).has(w) ==> (old(self).first_child(w) is Some ==> final(self).first_child(w) == old(self).first_child(w)) && (old(self).second_child(
                    w,
                ) is Some ==> final(self).second_child(w) == old(self).second_child(w)),
    {
        let ghost g0 = *old(self);
        let ghost knd = self.variant();
        proof {
            crate::graph::lemma_root_present(self);
        }
        let mut stack: Vec<usize> = Vec::new();
        stack.push(0);
        let mut count: usize = 0;
        while count < steps && stack.len() > 0
            invariant
                g0 == *old(self),
                self.wf(),
                self.variant() == knd,
                g0.variant() == knd,
                self.filled_upto() == g0.filled_upto(),
                count <= steps,
                forall|q: int| 0 <= q < stack@.len() ==> (stack@[q] as int) < self.node_count(),
                forall|v: u64|
                    #[trigger] g0.has(v) ==> self.has(v) && self.record_of(v) == g0.record_of(v),
                forall|v: u64|
                    #[trigger] self.has(v) ==> g0.has(v) || (2 <= v <= max && in_domain(
                        knd,
                        v as int,
                    )),
                self.node_count() >= g0.node_count(),
                self.node_count() <= g0.node_count() + 2 * count,
                forall|w: u64|
                    #[trigger] g0.has(w) ==> (g0.first_child(w) is Some ==> self.first_child(w)
                        == g0.first_child(w)) && (g0.second_child(w) is Some
                        ==> self.second_child(w) == g0.second_child(w)),
                count == 0 ==> stack@ =~= seq![0usize] && *self == g0,
                steps >= 1 && g0.node_count() == 1 && up_always(knd, 1) <= max ==> (count == 0
                    || self.has(up_always(knd, 1) as u64)),
            decreases steps - count,
        {
            let ghost first_round = count == 0;
            count = count + 1;
            let xi = match stack.pop() {
                Some(x) => x,
                None => unreached(),
            };
            let v = self.node_value(xi);
            proof {
                if first_round && g0.node_count() == 1 && up_always(knd, 1) <= max {
                    // The first expansion of a fresh graph pops the root,
                    // and its always-valid predecessor is created below.
                    crate::graph::lemma_root_present(self);
                    crate::graph::lemma_member_node(self, 1u64);
                    assert(xi == 0);
                    assert(v == 1);
                }
            }
            let (first, second) = self.up_checked(v);
            proof {
                lemma_up_always_sound(knd, v as int);
                if has_second_up(knd, v as int) {
                    lemma_up_second_sound(knd, v as int);
                }
                if first_round && g0.node_count() == 1 && up_always(knd, 1) <= max {
                    assert(up_always(knd, 1) <= u64::MAX);
                    assert(first matches Some(p) && p as int == up_always(knd, 1) && p != 1);
                }
            }
            if let Some(p) = first {
                if p != 1 {
                    let ghost pre = *self;
                    self.push_pred(xi, p, max, &mut stack);
                    proof {
                        assert forall|w: u64| #[trigger] g0.has(w) implies self.has(w)
                            && self.record_of(w) == g0.record_of(w) by {
                            assert(pre.has(w) && pre.record_of(w) == g0.record_of(w));
                        };
                        assert forall|w: u64| #[trigger] self.has(w) implies g0.has(w) || (2 <= w
                            <= max && in_domain(knd, w as int)) by {
                            if pre.has(w) {
                            }
                        };
                        assert forall|w: u64| #[trigger] g0.has(w) implies (g0.first_child(
                            w,
                        ) is Some ==> self.first_child(w) == g0.first_child(w)) && (
                        g0.second_child(w) is Some ==> self.second_child(w)
                            == g0.second_child(w)) by {
                            assert(pre.has(w));
                            if g0.first_child(w) is Some {
                                assert(pre.first_child(w) == g0.first_child(w));
                            }
                            if g0.second_child(w) is Some {
                                assert(pre.second_child(w) == g0.second_child(w));
                            }
                        };
                        if first_round && g0.node_count() == 1 && up_always(knd, 1) <= max {
                            assert(p as int == up_always(knd, 1));
                            assert(!pre.has(p)) by {
                                if pre.has(p) {
                                    crate::graph::lemma_single_node(&pre, p);
                                }
                            };
                            assert(self.has(p));
                        }
                        if up_always(knd, 1) <= max && pre.has(up_always(knd, 1) as u64) {
                            assert(self.has(up_always(knd, 1) as u64));
                        }
                    }
                }
            }
            if let Some(p) = second {
                if p != 1 {
                    let ghost pre = *self;
                    self.push_pred(xi, p, max, &mut stack);
                    proof {
                        assert forall|w: u64| #[trigger] g0.has(w) implies self.has(w)
                            && self.record_of(w) == g0.record_of(w) by {
                            assert(pre.has(w) && pre.record_of(w) == g0.record_of(w));
                        };
                        assert forall|w: u64| #[trigger] self.has(w) implies g0.has(w) || (2 <= w
                            <= max && in_domain(knd, w as int)) by {
                            if pre.has(w) {
                            }
                        };
                        assert forall|w: u64| #[trigger] g0.has(w) implies (g0.first_child(
                            w,
                        ) is Some ==> self.first_child(w) == g0.first_child(w)) && (
                        g0.second_child(w) is Some ==> self.second_child(w)
                            == g0.second_child(w)) by {
                            assert(pre.has(w));
                            if g0.first_child(w) is Some {
                                assert(pre.first_child(w) == g0.first_child(w));
                            }
                            if g0.second_child(w) is Some {
                                assert(pre.second_child(w) == g0.second_child(w));
                            }
                        };
                        if up_always(knd, 1) <= max && pre.has(up_always(knd, 1) as u64) {
                            assert(self.has(up_always(knd, 1) as u64));
                        }
                    }
                }
            }
        }
        proof {
            if steps >= 1 && g0.node_count() == 1 && up_always(knd, 1) <= max {
                let pv = up_always(knd, 1) as u64;
                assert(self.has(pv));
                lemma_up_always_sound(knd, 1);
                assert(pv != 1);
                crate::graph::lemma_second_member(self, pv);
            }
        }
    }

    /// Ascending construction with the default per-call expansion budget.
    pub fn generate_up(&mut self, max: u64)
        requires
            old(self).wf(),
        ensures
            final(self).wf(),
            final(self).variant() == old(self).variant(),
            final(self).filled_upto() == old(self).filled_upto(),
            forall|v: u64|
                #[trigger] old(self).has(v) ==> final(self).has(v) && final(self).record_of(v)
                    == old(self).record_of(v),
            forall|v: u64|
                #[trigger] final(self).has(v) ==> old(self).has(v) || (2 <= v <= max && in_domain(
                    old(self).variant(),
                    v as int,
                )),
            final(self).node_count() >= old(self).node_count(),
            final(self).node_count() <= old(self).node_count() + 20,
            old(self).node_count() == 1 && up_always(old(self).variant(), 1) <= max
                ==> final(self).has(up_always(old(self).variant(), 1) as u64)
                && final(self).node_count() > 1,
            forall|w: u64|
                #[trigger] old(self).has(w) ==> (old(self).first_child(w) is Some ==> final(self).first_child(w) == old(self).first_child(w)) && (old(self).second_child(
                    w,
                ) is Some ==> final(self).second_child(w) == old(self).second_child(w)),
    {
        self.generate_up_bounded(max, 10)
    }
}

} // verus!
