//! The data side of the visualization layer: one lazily created graph per
//! variant, a textual summary of their sizes, and the point sets that the
//! charts are drawn from.

use vstd::prelude::*;

use crate::graph::Collatz;
use crate::kind::{in_domain, CollatzKind};
use crate::node::NodeData;
use crate::query::{lemma_ancestor_props, lemma_meet_unique};
use crate::step::converges;
use crate::CollatzError;

verus! {

use vstd::string::StringExecFns;

/// The decimal digit character for `d`.
pub open spec fn digit_char(d: nat) -> char {
    if d == 0 {
        '0'
    } else if d == 1 {
        '1'
    } else if d == 2 {
        '2'
    } else if d == 3 {
        '3'
    } else if d == 4 {
        '4'
    } else if d == 5 {
        '5'
    } else if d == 6 {
        '6'
    } else if d == 7 {
        '7'
    } else if d == 8 {
        '8'
    } else {
        '9'
    }
}

/// The decimal representation of `n`, most significant digit first.
pub open spec fn dec_digits(n: nat) -> Seq<char>
    decreases n,
{
    if n < 10 {
        seq![digit_char(n)]
    } else {
        proof {
            vstd::arithmetic::div_mod::lemma_div_is_strictly_smaller(n as int, 10);
        }
        dec_digits(n / 10).push(digit_char(n % 10))
    }
}

/// The one-character string for decimal digit `d`.
fn digit_str(d: u64) -> (r: &'static str)
    requires
        d < 10,
    ensures
        r@ == seq![digit_char(d as nat)],
{
    let s: &'static str = if d == 0 {
        "0"
    } else if d == 1 {
        "1"
    } else if d == 2 {
        "2"
    } else if d == 3 {
        "3"
    } else if d == 4 {
        "4"
    } else if d == 5 {
        "5"
    } else if d == 6 {
        "6"
    } else if d == 7 {
        "7"
    } else if d == 8 {
        "8"
    } else {
        "9"
    };
    proof {
        reveal_strlit("0");
        reveal_strlit("1");
        reveal_strlit("2");
        reveal_strlit("3");
        reveal_strlit("4");
        reveal_strlit("5");
        reveal_strlit("6");
        reveal_strlit("7");
        reveal_strlit("8");
        reveal_strlit("9");
        assert(s@ =~= seq![digit_char(d as nat)]);
    }
    s
}

/// Append the decimal representation of `x`.
fn push_decimal(s: &mut String, x: u64)
    ensures
        final(s)@ == old(s)@ + dec_digits(x as nat),
    decreases x,
{
    if x < 10 {
        s.append(digit_str(x));
    } else {
        push_decimal(s, x / 10);
        s.append(digit_str(x % 10));
        proof {
            assert(final(s)@ =~= old(s)@ + dec_digits(x as nat));
        }
    }
}

/// Up to four trajectory graphs, one per reduction variant, each created
/// lazily on first use.
pub struct CollatzViz {
    full: Option<Collatz>,
    short: Option<Collatz>,
    odd: Option<Collatz>,
    compact: Option<Collatz>,
}

impl CollatzViz {
    /// The graph held for a variant, if it has been created.
    pub closed spec fn slot_of(&self, kind: CollatzKind) -> Option<Collatz> {
        match kind {
            CollatzKind::Full => self.full,
            CollatzKind::Short => self.short,
            CollatzKind::Odd => self.odd,
            CollatzKind::Compact => self.compact,
        }
    }

    /// The node count of a variant's graph; zero while none exists.
    pub open spec fn slot_count(&self, kind: CollatzKind) -> nat {
        match self.slot_of(kind) {
            Some(g) => g.node_count(),
            None => 0,
        }
    }

    /// Each held graph is well-formed and belongs to its slot's variant.
    pub closed spec fn wf(&self) -> bool {
        &&& (self.full matches Some(g) ==> g.wf() && g.variant() == CollatzKind::Full)
        &&& (self.short matches Some(g) ==> g.wf() && g.variant() == CollatzKind::Short)
        &&& (self.odd matches Some(g) ==> g.wf() && g.variant() == CollatzKind::Odd)
        &&& (self.compact matches Some(g) ==> g.wf() && g.variant() == CollatzKind::Compact)
    }

    /// No graphs yet; each is created on first use.
    pub fn new() -> (r: Self)
        ensures
            r.wf(),
            forall|k: CollatzKind| r.slot_of(k) is None,
    {
        CollatzViz { full: None, short: None, odd: None, compact: None }
    }

    /// The sizes of the four graphs, space-separated, in variant order;
    /// zero stands in for a graph not yet created.
    pub fn get_length_string(&self) -> (r: String)
        ensures
            r@ == dec_digits(self.slot_count(CollatzKind::Full)) + seq![' '] + dec_digits(
                self.slot_count(CollatzKind::Short),
            ) + seq![' '] + dec_digits(self.slot_count(CollatzKind::Odd)) + seq![' ']
                + dec_digits(self.slot_count(CollatzKind::Compact)),
    {
        let c0 = match &self.full {
            Some(g) => g.len(),
            None => 0,
        };
        let c1 = match &self.short {
            Some(g) => g.len(),
            None => 0,
        };
        let c2 = match &self.odd {
            Some(g) => g.len(),
            None => 0,
        };
        let c3 = match &self.compact {
            Some(g) => g.len(),
            None => 0,
        };
        let mut s = String::new();
        push_decimal(&mut s, c0 as u64);
        s.append(" ");
        push_decimal(&mut s, c1 as u64);
        s.append(" ");
        push_decimal(&mut s, c2 as u64);
        s.append(" ");
        push_decimal(&mut s, c3 as u64);
        proof {
            reveal_strlit(" ");
        }
        s
    }

    /// Remove and return the graph held for `kind`.
    fn take_slot(&mut self, kind: CollatzKind) -> (r: Option<Collatz>)
        requires
            old(self).wf(),
        ensures
            final(self).wf(),
            r == old(self).slot_of(kind),
            final(self).slot_of(kind) is None,
            forall|k: CollatzKind| k != kind ==> final(self).slot_of(k) == old(self).slot_of(k),
    {
        let mut tmp: Option<Collatz> = None;
        match kind {
            CollatzKind::Full => core::mem::swap(&mut self.full, &mut tmp),
            CollatzKind::Short => core::mem::swap(&mut self.short, &mut tmp),
            CollatzKind::Odd => core::mem::swap(&mut self.odd, &mut tmp),
            CollatzKind::Compact => core::mem::swap(&mut self.compact, &mut tmp),
        }
        tmp
    }

    /// Store the graph for `kind` back into its slot.
    fn store_slot(&mut self, kind: CollatzKind, g: Collatz)
        requires
            old(self).wf(),
            g.wf(),
            g.variant() == kind,
        ensures
            final(self).wf(),
            final(self).slot_of(kind) == Some(g),
            forall|k: CollatzKind| k != kind ==> final(self).slot_of(k) == old(self).slot_of(k),
    {
        match kind {
            CollatzKind::Full => self.full = Some(g),
            CollatzKind::Short => self.short = Some(g),
            CollatzKind::Odd => self.odd = Some(g),
            CollatzKind::Compact => self.compact = Some(g),
        }
    }
}

/// The given graph, or a fresh one for `kind`, densely filled up to
/// `max`. The fill succeeds exactly when every in-domain value up to
/// `max` converges.
fn prepare_graph(g0: Option<Collatz>, kind: CollatzKind, max: u64) -> (r: (
    Collatz,
    Result<(), CollatzError>,
))
    requires
        g0 matches Some(g) ==> g.wf() && g.variant() == kind,
        max < u64::MAX,
    ensures
        r.0.wf(),
        r.0.variant() == kind,
        (r.1 is Ok <==> forall|v: u64|
            1 <= v <= max && in_domain(kind, v as int) ==> #[trigger] converges(kind, v)),
        r.1 is Ok ==> forall|v: u64|
            1 <= v <= max && #[trigger] in_domain(kind, v as int) ==> r.0.has(v),
        g0 matches Some(g) ==> forall|v: u64|
            #[trigger] g.has(v) ==> r.0.has(v) && r.0.record_of(v) == g.record_of(v),
{
    let mut g = match g0 {
        Some(g) => g,
        None => Collatz::new(kind),
    };
    let res = g.generate_fill_down(max);
    (g, res)
}

/// The orbit-length samples: for every in-domain value from 2 up to
/// `max`, the value paired with its stored depth.
pub open spec fn orbit_length_seq(g: Collatz, max: u64) -> Seq<(u64, usize)>
    decreases max,
{
    if max < 2 {
        Seq::empty()
    } else {
        orbit_length_seq(g, (max - 1) as u64) + (if in_domain(g.variant(), max as int) {
            seq![(max, g.record_of(max).depth)]
        } else {
            Seq::empty()
        })
    }
}

fn compute_orbit_length_points(g: &Collatz, max: u64) -> (r: Vec<(u64, usize)>)
    requires
        g.wf(),
        max < u64::MAX,
        forall|v: u64|
            1 <= v <= max && #[trigger] in_domain(g.variant(), v as int) ==> g.has(v),
    ensures
        r@ == orbit_length_seq(*g, max),
{
    let mut out: Vec<(u64, usize)> = Vec::new();
    let mut n: u64 = 2;
    proof {
        assert(orbit_length_seq(*g, 1) =~= Seq::<(u64, usize)>::empty());
    }
    while n <= max
        invariant
            g.wf(),
            max < u64::MAX,
            2 <= n,
            n <= max + 1 || n == 2,
            forall|v: u64|
                1 <= v <= max && #[trigger] in_domain(g.variant(), v as int) ==> g.has(v),
            out@ == orbit_length_seq(*g, (n - 1) as u64),
        decreases max + 1 - n,
    {
        if g.kind().accepts(n) {
            let d = match g.get_depth(n) {
                Ok(d) => d,
                Err(_) => unreached(),
            };
            out.push((n, d));
        }
        proof {
            assert(out@ =~= orbit_length_seq(*g, n));
        }
        n = n + 1;
    }
    proof {
        if max < 2 {
            assert(orbit_length_seq(*g, max) =~= Seq::<(u64, usize)>::empty());
        }
    }
    out
}

/// How many records in an orbit lie strictly above `n`.
pub open spec fn count_above(s: Seq<NodeData>, n: u64) -> nat
    decreases s.len(),
{
    if s.len() == 0 {
        0
    } else {
        count_above(s.drop_last(), n) + (if s.last().value > n {
            1nat
        } else {
            0nat
        })
    }
}

fn count_above_exec(v: &Vec<NodeData>, n: u64) -> (c: usize)
    requires
        v@.len() <= usize::MAX,
    ensures
        c as nat == count_above(v@, n),
{
    let mut c: usize = 0;
    let mut i: usize = 0;
    proof {
        assert(count_above(v@.take(0), n) == 0);
    }
    while i < v.len()
        invariant
            i <= v@.len(),
            v@.len() <= usize::MAX,
            c <= i,
            c as nat == count_above(v@.take(i as int), n),
        decreases v@.len() - i,
    {
        let ghost pre = v@.take(i as int);
        if v[i].value > n {
            c = c + 1;
        }
        proof {
            assert(v@.take(i + 1).drop_last() =~= pre);
            assert(v@.take(i + 1).last() == v@[i as int]);
        }
        i = i + 1;
    }
    proof {
        assert(v@.take(v@.len() as int) =~= v@);
    }
    c
}

/// The excursion samples: for every in-domain value from 2 up to `max`,
/// the value, the number of orbit points above it, and its orbit length.
pub open spec fn fraction_above_seq(g: Collatz, max: u64) -> Seq<(u64, usize, usize)>
    decreases max,
{
    if max < 2 {
        Seq::empty()
    } else {
        fraction_above_seq(g, (max - 1) as u64) + (if in_domain(g.variant(), max as int) {
            seq![(max, count_above(g.orbit_seq(max), max) as usize, g.record_of(max).depth)]
        } else {
            Seq::empty()
        })
    }
}

fn compute_fraction_above_points(g: &Collatz, max: u64) -> (r: Vec<(u64, usize, usize)>)
    requires
        g.wf(),
        max < u64::MAX,
        forall|v: u64|
            1 <= v <= max && #[trigger] in_domain(g.variant(), v as int) ==> g.has(v),
    ensures
        r@ == fraction_above_seq(*g, max),
{
    let mut out: Vec<(u64, usize, usize)> = Vec::new();
    let mut n: u64 = 2;
    proof {
        assert(fraction_above_seq(*g, 1) =~= Seq::<(u64, usize, usize)>::empty());
    }
    while n <= max
        invariant
            g.wf(),
            max < u64::MAX,
            2 <= n,
            n <= max + 1 || n == 2,
            forall|v: u64|
                1 <= v <= max && #[trigger] in_domain(g.variant(), v as int) ==> g.has(v),
            out@ == fraction_above_seq(*g, (n - 1) as u64),
        decreases max + 1 - n,
    {
        if g.kind().accepts(n) {
            let d = match g.get_depth(n) {
                Ok(d) => d,
                Err(_) => unreached(),
            };
            let orbit = match g.iter_orbit(n) {
                Ok(o) => o,
                Err(_) => unreached(),
            };
            let above = count_above_exec(&orbit, n);
            out.push((n, above, d));
            proof {
                assert(above as nat == count_above(g.orbit_seq(n), n));
                assert(count_above(g.orbit_seq(n), n) <= usize::MAX);
            }
        }
        proof {
            assert(out@ =~= fraction_above_seq(*g, n));
        }
        n = n + 1;
    }
    proof {
        if max < 2 {
            assert(fraction_above_seq(*g, max) =~= Seq::<(u64, usize, usize)>::empty());
        }
    }
    out
}

/// The deepest common ancestor of `a` and `b`, as a value.
pub open spec fn meet_of(g: Collatz, a: u64, b: u64) -> u64 {
    choose|c: u64| g.is_meet(a, b, c)
}

/// The reconvergence samples: for each in-domain value from 2 up to
/// `max`, how far the previous sample and the value itself sit above
/// their deepest common ancestor.
pub open spec fn ancestor_dist_seq(g: Collatz, n: int, prev: u64, max: u64) -> Seq<(
    usize,
    usize,
)>
    decreases (if n > max { 0int } else { max + 1 - n }),
{
    if n > max {
        Seq::empty()
    } else if !in_domain(g.variant(), n) {
        ancestor_dist_seq(g, n + 1, prev, max)
    } else {
        let c = meet_of(g, n as u64, prev);
        seq![
            (
                (g.depth_of(prev) - g.depth_of(c)) as usize,
                (g.depth_of(n as u64) - g.depth_of(c)) as usize,
            ),
        ] + ancestor_dist_seq(g, n + 1, n as u64, max)
    }
}

fn compute_ancestor_dist_points(g: &Collatz, max: u64) -> (r: Vec<(usize, usize)>)
    requires
        g.wf(),
        max < u64::MAX,
        forall|v: u64|
            1 <= v <= max && #[trigger] in_domain(g.variant(), v as int) ==> g.has(v),
    ensures
        r@ == ancestor_dist_seq(*g, 2, 1, max),
{
    let mut out: Vec<(usize, usize)> = Vec::new();
    let mut prev: u64 = 1;
    let mut prev_depth: usize = 0;
    let mut n: u64 = 2;
    proof {
        crate::graph::lemma_root_present(g);
    }
    while n <= max
        invariant
            g.wf(),
            max < u64::MAX,
            2 <= n,
            n <= max + 1 || n == 2,
            1 <= prev,
            g.has(prev),
            in_domain(g.variant(), prev as int),
            prev_depth as nat == g.depth_of(prev),
            forall|v: u64|
                1 <= v <= max && #[trigger] in_domain(g.variant(), v as int) ==> g.has(v),
            out@ + ancestor_dist_seq(*g, n as int, prev, max) == ancestor_dist_seq(*g, 2, 1, max),
        decreases max + 1 - n,
    {
        if g.kind().accepts(n) {
            let ghost old_prev = prev;
            let c = match g.find_common_ancestor(n, prev) {
                Ok(c) => c,
                Err(_) => unreached(),
            };
            proof {
                assert(g.is_meet(n, old_prev, c));
                assert(meet_of(*g, n, old_prev) == c) by {
                    let cc = meet_of(*g, n, old_prev);
                    assert(g.is_meet(n, old_prev, cc));
                    lemma_meet_unique(g, n, old_prev, c, cc);
                };
                lemma_ancestor_props(g, old_prev, c);
                lemma_ancestor_props(g, n, c);
            }
            let d = match g.get_depth(n) {
                Ok(d) => d,
                Err(_) => unreached(),
            };
            let cd = match g.get_depth(c) {
                Ok(d) => d,
                Err(_) => unreached(),
            };
            let x = prev_depth - cd;
            let y = d - cd;
            out.push((x, y));
            prev = n;
            prev_depth = d;
            proof {
                assert(out@ + ancestor_dist_seq(*g, n + 1, n, max) =~= ancestor_dist_seq(
                    *g,
                    2,
                    1,
                    max,
                ));
            }
        } else {
            proof {
                assert(ancestor_dist_seq(*g, n as int, prev, max) == ancestor_dist_seq(
                    *g,
                    n + 1,
                    prev,
                    max,
                ));
            }
        }
        n = n + 1;
    }
    proof {
        assert(ancestor_dist_seq(*g, n as int, prev, max) =~= Seq::<(usize, usize)>::empty());
        assert(out@ =~= ancestor_dist_seq(*g, 2, 1, max));
    }
    out
}

impl CollatzViz {
    /// The orbit-length chart data for a variant: ensure its graph is
    /// filled up to `max`, then pair every in-domain value with its orbit
    /// length. Succeeds exactly when the fill does.
    pub fn orbit_length_points(&mut self, kind: CollatzKind, max: u64) -> (r: Result<
        Vec<(u64, usize)>,
        CollatzError,
    >)
        requires
            old(self).wf(),
            max < u64::MAX,
        ensures
            final(self).wf(),
            (r is Ok <==> forall|v: u64|
                1 <= v <= max && in_domain(kind, v as int) ==> #[trigger] converges(kind, v)),
            r matches Ok(points) ==> (final(self).slot_of(kind) matches Some(g) && points@
                == orbit_length_seq(g, max) && (forall|v: u64|
                1 <= v <= max && #[trigger] in_domain(kind, v as int) ==> g.has(v))),
            final(self).slot_of(kind) is Some,
            forall|k2: CollatzKind|
                k2 != kind ==> #[trigger] final(self).slot_of(k2) == old(self).slot_of(k2),
            old(self).slot_of(kind) matches Some(g0) ==> (final(self).slot_of(
                kind,
            ) matches Some(g1) && forall|v: u64|
                #[trigger] g0.has(v) ==> g1.has(v) && g1.record_of(v) == g0.record_of(v)),
    {
        let g0 = self.take_slot(kind);
        let (g, res) = prepare_graph(g0, kind, max);
        let r = match res {
            Ok(()) => {
                proof {
                            assert forall|v: u64|
                        1 <= v <= max && in_domain(g.variant(), v as int) implies #[trigger] g.has(
                        v,
                    ) by {
                        assert(in_domain(kind, v as int));
                    };
                }
                Ok(compute_orbit_length_points(&g, max))
            },
            Err(e) => Err(e),
        };
        self.store_slot(kind, g);
        r
    }

    /// The excursion chart data for a variant: for every in-domain value,
    /// how much of its orbit lies above the value itself, with the orbit
    /// length. Succeeds exactly when the fill does.
    pub fn fraction_above_points(&mut self, kind: CollatzKind, max: u64) -> (r: Result<
        Vec<(u64, usize, usize)>,
        CollatzError,
    >)
        requires
            old(self).wf(),
            max < u64::MAX,
        ensures
            final(self).wf(),
            (r is Ok <==> forall|v: u64|
                1 <= v <= max && in_domain(kind, v as int) ==> #[trigger] converges(kind, v)),
            r matches Ok(points) ==> (final(self).slot_of(kind) matches Some(g) && points@
                == fraction_above_seq(g, max) && (forall|v: u64|
                1 <= v <= max && #[trigger] in_domain(kind, v as int) ==> g.has(v))),
            final(self).slot_of(kind) is Some,
            forall|k2: CollatzKind|
                k2 != kind ==> #[trigger] final(self).slot_of(k2) == old(self).slot_of(k2),
            old(self).slot_of(kind) matches Some(g0) ==> (final(self).slot_of(
                kind,
            ) matches Some(g1) && forall|v: u64|
                #[trigger] g0.has(v) ==> g1.has(v) && g1.record_of(v) == g0.record_of(v)),
    {
        let g0 = self.take_slot(kind);
        let (g, res) = prepare_graph(g0, kind, max);
        let r = match res {
            Ok(()) => {
                proof {
                    assert forall|v: u64|
                        1 <= v <= max && in_domain(g.variant(), v as int) implies #[trigger] g.has(
                        v,
                    ) by {
                        assert(in_domain(kind, v as int));
                    };
                }
                Ok(compute_fraction_above_points(&g, max))
            },
            Err(e) => Err(e),
        };
        self.store_slot(kind, g);
        r
    }

    /// The reconvergence chart data for a variant: for each in-domain
    /// value, how far it and the previous sample sit above their deepest
    /// common ancestor. Succeeds exactly when the fill does.
    pub fn common_ancestor_dist_points(&mut self, kind: CollatzKind, max: u64) -> (r: Result<
        Vec<(usize, usize)>,
        CollatzError,
    >)
        requires
            old(self).wf(),
            max < u64::MAX,
        ensures
            final(self).wf(),
            (r is Ok <==> forall|v: u64|
                1 <= v <= max && in_domain(kind, v as int) ==> #[trigger] converges(kind, v)),
            r matches Ok(points) ==> (final(self).slot_of(kind) matches Some(g) && points@
                == ancestor_dist_seq(g, 2, 1, max) && (forall|v: u64|
                1 <= v <= max && #[trigger] in_domain(kind, v as int) ==> g.has(v))),
            final(self).slot_of(kind) is Some,
            forall|k2: CollatzKind|
                k2 != kind ==> #[trigger] final(self).slot_of(k2) == old(self).slot_of(k2),
            old(self).slot_of(kind) matches Some(g0) ==> (final(self).slot_of(
                kind,
            ) matches Some(g1) && forall|v: u64|
                #[trigger] g0.has(v) ==> g1.has(v) && g1.record_of(v) == g0.record_of(v)),
    {
        let g0 = self.take_slot(kind);
        let (g, res) = prepare_graph(g0, kind, max);
        let r = match res {
            Ok(()) => {
                proof {
                    assert forall|v: u64|
                        1 <= v <= max && in_domain(g.variant(), v as int) implies #[trigger] g.has(
                        v,
                    ) by {
                        assert(in_domain(kind, v as int));
                    };
                }
                Ok(compute_ancestor_dist_points(&g, max))
            },
            Err(e) => Err(e),
        };
        self.store_slot(kind, g);
        r
    }
}

} // verus!
