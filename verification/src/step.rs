//! The pure arithmetic of the reduction rule: the deterministic forward
//! step toward the root, its one- or two-valued inverse, orbit iteration,
//! and the number-theoretic facts that the graph algorithms rest on.

use vstd::prelude::*;

use crate::kind::{in_domain, CollatzKind};

verus! {

use vstd::arithmetic::div_mod::{
    lemma_fundamental_div_mod,
    lemma_fundamental_div_mod_converse_div,
    lemma_fundamental_div_mod_converse_mod,
};

/// The single deterministic successor of `n` under the variant's rule,
/// moving toward the root. Total as a mathematical function; on values
/// outside the variant's domain the unreachable branch returns `n` itself.
pub open spec fn step_down(kind: CollatzKind, n: int) -> int {
    match kind {
        CollatzKind::Full => if n % 2 == 0 {
            n / 2
        } else {
            3 * n + 1
        },
        CollatzKind::Short => if n % 2 == 0 {
            n / 2
        } else {
            (3 * n + 1) / 2
        },
        CollatzKind::Odd => if n % 8 == 5 {
            n / 4
        } else if n % 8 == 3 || n % 8 == 7 {
            (3 * n + 1) / 2
        } else if n % 8 == 1 {
            (3 * n + 1) / 4
        } else {
            n
        },
        CollatzKind::Compact => if n % 24 == 5 {
            n / 4
        } else if n % 96 == 85 {
            n / 16
        } else if n % 12 == 7 || n % 12 == 11 {
            (3 * n + 1) / 2
        } else if n % 24 == 1 || n % 24 == 17 {
            (3 * n + 1) / 4
        } else if n % 48 == 13 {
            (3 * n + 1) / 8
        } else if n % 96 == 37 {
            (3 * n + 1) / 16
        } else {
            n
        },
    }
}

/// Whether the step from `n` takes the multiplying branch `3n + 1` (before
/// any division), the one branch that can grow past the 64-bit range.
pub open spec fn step_multiplies(kind: CollatzKind, n: int) -> bool {
    match kind {
        CollatzKind::Full => n % 2 == 1,
        CollatzKind::Short => n % 2 == 1,
        CollatzKind::Odd => n % 8 == 3 || n % 8 == 7 || n % 8 == 1,
        CollatzKind::Compact => !(n % 24 == 5 || n % 96 == 85),
    }
}

/// Whether the intermediate values of the step from `n` stay within `u64`.
pub open spec fn step_fits(kind: CollatzKind, n: int) -> bool {
    step_multiplies(kind, n) ==> 3 * n + 1 <= u64::MAX
}

/// The predecessor of `n` that exists for every `n` in the variant's
/// domain: doubling, or the accelerated analogue of doubling.
pub open spec fn up_always(kind: CollatzKind, n: int) -> int {
    match kind {
        CollatzKind::Full => 2 * n,
        CollatzKind::Short => 2 * n,
        CollatzKind::Odd => 4 * n + 1,
        CollatzKind::Compact => if n % 18 == 5 || n % 18 == 11 || n % 18 == 17 {
            16 * n + 5
        } else {
            4 * n + 1
        },
    }
}

/// Whether `n`'s residue admits a second predecessor, reached through the
/// multiplying branch of the forward step.
pub open spec fn has_second_up(kind: CollatzKind, n: int) -> bool {
    match kind {
        CollatzKind::Full => n % 6 == 4,
        CollatzKind::Short => n % 3 == 2,
        CollatzKind::Odd => n % 12 == 1 || n % 12 == 7 || n % 12 == 5 || n % 12 == 11,
        CollatzKind::Compact => n % 18 == 11 || n % 18 == 17 || n % 18 == 1 || n % 18 == 13
            || n % 18 == 5 || n % 18 == 7,
    }
}

/// The second predecessor of `n`, meaningful only when `has_second_up`
/// holds of `n`'s residue.
pub open spec fn up_second(kind: CollatzKind, n: int) -> int {
    match kind {
        CollatzKind::Full => n / 3,
        CollatzKind::Short => 2 * n / 3,
        CollatzKind::Odd => if n % 12 == 1 || n % 12 == 7 {
            4 * n / 3
        } else {
            2 * n / 3
        },
        CollatzKind::Compact => if n % 18 == 11 || n % 18 == 17 {
            2 * n / 3
        } else if n % 18 == 1 || n % 18 == 13 {
            4 * n / 3
        } else if n % 18 == 5 {
            8 * n / 3
        } else {
            16 * n / 3
        },
    }
}

/// Whether the intermediate values of computing both predecessors of `n`
/// stay within `u64`.
pub open spec fn up_fits(kind: CollatzKind, n: int) -> bool {
    match kind {
        CollatzKind::Full => 2 * n <= u64::MAX,
        CollatzKind::Short => 2 * n <= u64::MAX,
        CollatzKind::Odd => 4 * n + 1 <= u64::MAX,
        CollatzKind::Compact => if n % 18 == 5 || n % 18 == 11 || n % 18 == 17 {
            16 * n + 5 <= u64::MAX
        } else if n % 18 == 7 {
            16 * n <= u64::MAX
        } else {
            4 * n + 1 <= u64::MAX
        },
    }
}

/// Whether `x` lies in the 64-bit working domain.
pub open spec fn fits_u64(x: int) -> bool {
    0 <= x <= u64::MAX
}

/// `k` applications of the forward step, starting from `n`.
pub open spec fn iter_down(kind: CollatzKind, n: int, k: nat) -> int
    decreases k,
{
    if k == 0 {
        n
    } else {
        step_down(kind, iter_down(kind, n, (k - 1) as nat))
    }
}

/// Whether the orbit of `n` reaches the root value 1 after exactly `k`
/// steps while staying inside the 64-bit working domain throughout.
pub open spec fn reaches_one_at(kind: CollatzKind, n: u64, k: nat) -> bool {
    &&& iter_down(kind, n as int, k) == 1
    &&& forall|j: nat| j <= k ==> fits_u64(#[trigger] iter_down(kind, n as int, j))
}

/// Whether the orbit of `n` ever reaches the root value 1 without leaving
/// the 64-bit working domain. Descending construction succeeds on exactly
/// these values.
pub open spec fn converges(kind: CollatzKind, n: u64) -> bool {
    exists|k: nat| reaches_one_at(kind, n, k)
}

/// Division distributes over a linear expression when the coefficient is a
/// multiple of the divisor: `(c*q + r) / d == (c/d)*q + r/d`.
proof fn lemma_div_linear(c: int, q: int, r: int, d: int)
    requires
        d > 0,
        r >= 0,
        c % d == 0,
    ensures
        (c * q + r) / d == (c / d) * q + r / d,
{
    lemma_fundamental_div_mod(c, d);
    lemma_fundamental_div_mod(r, d);
    assert(c * q == d * ((c / d) * q)) by (nonlinear_arith)
        requires
            c == d * (c / d),
    ;
    assert(d * ((c / d) * q) + (d * (r / d) + r % d) == ((c / d) * q + r / d) * d + r % d)
        by (nonlinear_arith);
    lemma_fundamental_div_mod_converse_div(c * q + r, d, (c / d) * q + r / d, r % d);
}

/// The remainder of a linear expression ignores terms whose coefficient is
/// a multiple of the modulus: `(c*q + r) % d == r % d`.
proof fn lemma_mod_linear(c: int, q: int, r: int, d: int)
    requires
        d > 0,
        c % d == 0,
    ensures
        (c * q + r) % d == r % d,
{
    lemma_fundamental_div_mod(c, d);
    lemma_fundamental_div_mod(r, d);
    assert(c * q == d * ((c / d) * q)) by (nonlinear_arith)
        requires
            c == d * (c / d),
    ;
    assert(d * ((c / d) * q) + (d * (r / d) + r % d) == ((c / d) * q + r / d) * d + r % d)
        by (nonlinear_arith);
    lemma_fundamental_div_mod_converse_mod(c * q + r, d, (c / d) * q + r / d, r % d);
}

/// The forward step keeps a value inside the variant's residue domain, so
/// orbits never leave the set of valid graph members.
pub proof fn lemma_step_in_domain(kind: CollatzKind, n: int)
    requires
        in_domain(kind, n),
    ensures
        in_domain(kind, step_down(kind, n)),
        step_down(kind, n) >= 1,
{
    vstd::arithmetic::div_mod::lemma_div_pos_is_pos(n, 96);
    vstd::arithmetic::div_mod::lemma_div_pos_is_pos(n, 48);
    vstd::arithmetic::div_mod::lemma_div_pos_is_pos(n, 24);
    vstd::arithmetic::div_mod::lemma_div_pos_is_pos(n, 12);
    vstd::arithmetic::div_mod::lemma_div_pos_is_pos(n, 8);
    match kind {
        CollatzKind::Full => {
            if n % 2 == 0 {
                vstd::arithmetic::div_mod::lemma_div_is_ordered(2, n, 2);
            }
        },
        CollatzKind::Short => {
            if n % 2 == 0 {
                vstd::arithmetic::div_mod::lemma_div_is_ordered(2, n, 2);
            } else {
                vstd::arithmetic::div_mod::lemma_div_is_ordered(4, 3 * n + 1, 2);
            }
        },
        CollatzKind::Odd => {
            let p = n / 8;
            lemma_fundamental_div_mod(n, 8);
            if n % 8 == 5 {
                lemma_div_linear(8, p, 5, 4);
                assert(step_down(kind, n) == 2 * p + 1);
                lemma_mod_linear(2, p, 1, 2);
            } else if n % 8 == 3 {
                lemma_div_linear(24, p, 10, 2);
                assert(3 * n + 1 == 24 * p + 10);
                assert(step_down(kind, n) == 12 * p + 5);
                lemma_mod_linear(12, p, 5, 2);
            } else if n % 8 == 7 {
                lemma_div_linear(24, p, 22, 2);
                assert(3 * n + 1 == 24 * p + 22);
                assert(step_down(kind, n) == 12 * p + 11);
                lemma_mod_linear(12, p, 11, 2);
            } else {
                assert(n % 8 == 1) by {
                    lemma_mod_linear(8, p, n % 8, 2);
                };
                lemma_div_linear(24, p, 4, 4);
                assert(3 * n + 1 == 24 * p + 4);
                assert(step_down(kind, n) == 6 * p + 1);
                lemma_mod_linear(6, p, 1, 2);
            }
        },
        CollatzKind::Compact => {
            let r = n % 96;
            lemma_fundamental_div_mod(n, 96);
            lemma_mod_linear(96, n / 96, r, 2);
            lemma_mod_linear(96, n / 96, r, 3);
            lemma_mod_linear(96, n / 96, r, 12);
            lemma_mod_linear(96, n / 96, r, 24);
            lemma_mod_linear(96, n / 96, r, 48);
            if n % 24 == 5 {
                let p = n / 24;
                lemma_fundamental_div_mod(n, 24);
                lemma_div_linear(24, p, 5, 4);
                assert(step_down(kind, n) == 6 * p + 1);
                lemma_mod_linear(6, p, 1, 2);
                lemma_mod_linear(6, p, 1, 3);
            } else if n % 96 == 85 {
                let p = n / 96;
                lemma_div_linear(96, p, 85, 16);
                assert(step_down(kind, n) == 6 * p + 5);
                lemma_mod_linear(6, p, 5, 2);
                lemma_mod_linear(6, p, 5, 3);
            } else if n % 12 == 7 {
                let p = n / 12;
                lemma_fundamental_div_mod(n, 12);
                lemma_div_linear(36, p, 22, 2);
                assert(3 * n + 1 == 36 * p + 22);
                assert(step_down(kind, n) == 18 * p + 11);
                lemma_mod_linear(18, p, 11, 2);
                lemma_mod_linear(18, p, 11, 3);
            } else if n % 12 == 11 {
                let p = n / 12;
                lemma_fundamental_div_mod(n, 12);
                lemma_div_linear(36, p, 34, 2);
                assert(3 * n + 1 == 36 * p + 34);
                assert(step_down(kind, n) == 18 * p + 17);
                lemma_mod_linear(18, p, 17, 2);
                lemma_mod_linear(18, p, 17, 3);
            } else if n % 24 == 1 {
                let p = n / 24;
                lemma_fundamental_div_mod(n, 24);
                lemma_div_linear(72, p, 4, 4);
                assert(3 * n + 1 == 72 * p + 4);
                assert(step_down(kind, n) == 18 * p + 1);
                lemma_mod_linear(18, p, 1, 2);
                lemma_mod_linear(18, p, 1, 3);
            } else if n % 24 == 17 {
                let p = n / 24;
                lemma_fundamental_div_mod(n, 24);
                lemma_div_linear(72, p, 52, 4);
                assert(3 * n + 1 == 72 * p + 52);
                assert(step_down(kind, n) == 18 * p + 13);
                lemma_mod_linear(18, p, 13, 2);
                lemma_mod_linear(18, p, 13, 3);
            } else if n % 48 == 13 {
                let p = n / 48;
                lemma_fundamental_div_mod(n, 48);
                lemma_div_linear(144, p, 40, 8);
                assert(3 * n + 1 == 144 * p + 40);
                assert(step_down(kind, n) == 18 * p + 5);
                lemma_mod_linear(18, p, 5, 2);
                lemma_mod_linear(18, p, 5, 3);
            } else if n % 96 == 37 {
                let p = n / 96;
                lemma_div_linear(288, p, 112, 16);
                assert(3 * n + 1 == 288 * p + 112);
                assert(step_down(kind, n) == 18 * p + 7);
                lemma_mod_linear(18, p, 7, 2);
                lemma_mod_linear(18, p, 7, 3);
            } else {
                assert(false);
            }
        },
    }
}

/// A remainder modulo a divisor of the modulus factors through:
/// `(u % big) % small == u % small` whenever `small` divides `big`.
pub(crate) proof fn lemma_mod_mod(u: int, big: int, small: int)
    requires
        big > 0,
        small > 0,
        big % small == 0,
    ensures
        u % big % small == u % small,
{
    lemma_fundamental_div_mod(u, big);
    lemma_mod_linear(big, u / big, u % big, small);
}

/// The always-valid predecessor really is a predecessor: it lies in the
/// variant's domain and steps down to `n`, and it is strictly above `n`.
pub proof fn lemma_up_always_sound(kind: CollatzKind, n: int)
    requires
        in_domain(kind, n),
    ensures
        in_domain(kind, up_always(kind, n)),
        step_down(kind, up_always(kind, n)) == n,
        up_always(kind, n) > n,
{
    match kind {
        CollatzKind::Full => {
            lemma_mod_linear(2, n, 0, 2);
            lemma_div_linear(2, n, 0, 2);
        },
        CollatzKind::Short => {
            lemma_mod_linear(2, n, 0, 2);
            lemma_div_linear(2, n, 0, 2);
        },
        CollatzKind::Odd => {
            let m = n / 2;
            lemma_fundamental_div_mod(n, 2);
            vstd::arithmetic::div_mod::lemma_div_pos_is_pos(n, 2);
            assert(4 * n + 1 == 8 * m + 5);
            lemma_mod_linear(8, m, 5, 8);
            lemma_mod_linear(8, m, 5, 2);
            lemma_div_linear(8, m, 5, 4);
        },
        CollatzKind::Compact => {
            let p = n / 18;
            let w = n % 18;
            lemma_fundamental_div_mod(n, 18);
            vstd::arithmetic::div_mod::lemma_div_pos_is_pos(n, 18);
            lemma_mod_linear(18, p, w, 2);
            lemma_mod_linear(18, p, w, 3);
            assert(w == 1 || w == 5 || w == 7 || w == 11 || w == 13 || w == 17);
            if w == 5 || w == 11 || w == 17 {
                let u = 16 * n + 5;
                assert(u == 288 * p + (16 * w + 5));
                lemma_mod_linear(288, p, 16 * w + 5, 24);
                lemma_mod_linear(288, p, 16 * w + 5, 96);
                lemma_mod_linear(288, p, 16 * w + 5, 2);
                lemma_mod_linear(288, p, 16 * w + 5, 3);
                lemma_div_linear(288, p, 16 * w + 5, 16);
                assert(step_down(kind, u) == 18 * p + w);
            } else {
                let u = 4 * n + 1;
                assert(u == 72 * p + (4 * w + 1));
                lemma_mod_linear(72, p, 4 * w + 1, 24);
                lemma_mod_linear(72, p, 4 * w + 1, 2);
                lemma_mod_linear(72, p, 4 * w + 1, 3);
                lemma_div_linear(72, p, 4 * w + 1, 4);
                assert(step_down(kind, u) == 18 * p + w);
            }
        },
    }
}

/// Where the residue of `n` admits one, the second predecessor really is a
/// predecessor: in the variant's domain, stepping down to `n`, and
/// distinct from the always-valid predecessor.
pub proof fn lemma_up_second_sound(kind: CollatzKind, n: int)
    requires
        in_domain(kind, n),
        has_second_up(kind, n),
    ensures
        in_domain(kind, up_second(kind, n)),
        step_down(kind, up_second(kind, n)) == n,
        up_second(kind, n) != up_always(kind, n),
        up_second(kind, n) >= 1,
{
    match kind {
        CollatzKind::Full => {
            let p = n / 6;
            lemma_fundamental_div_mod(n, 6);
            vstd::arithmetic::div_mod::lemma_div_pos_is_pos(n, 6);
            lemma_div_linear(6, p, 4, 3);
            assert(up_second(kind, n) == 2 * p + 1);
            lemma_mod_linear(2, p, 1, 2);
            lemma_mod_linear(2, n, 0, 2);
        },
        CollatzKind::Short => {
            let p = n / 3;
            lemma_fundamental_div_mod(n, 3);
            vstd::arithmetic::div_mod::lemma_div_pos_is_pos(n, 3);
            assert(2 * n == 6 * p + 4);
            lemma_div_linear(6, p, 4, 3);
            assert(up_second(kind, n) == 2 * p + 1);
            lemma_mod_linear(2, p, 1, 2);
            lemma_div_linear(6, p, 4, 2);
            lemma_mod_linear(2, n, 0, 2);
        },
        CollatzKind::Odd => {
            let p = n / 12;
            let w = n % 12;
            lemma_fundamental_div_mod(n, 12);
            vstd::arithmetic::div_mod::lemma_div_pos_is_pos(n, 12);
            if w == 1 {
                assert(4 * n == 48 * p + 4);
                lemma_div_linear(48, p, 4, 3);
                let u = 16 * p + 1;
                assert(up_second(kind, n) == u);
                lemma_mod_linear(16, p, 1, 8);
                lemma_mod_linear(16, p, 1, 2);
                lemma_div_linear(48, p, 4, 4);
            } else if w == 7 {
                assert(4 * n == 48 * p + 28);
                lemma_div_linear(48, p, 28, 3);
                let u = 16 * p + 9;
                assert(up_second(kind, n) == u);
                lemma_mod_linear(16, p, 9, 8);
                lemma_mod_linear(16, p, 9, 2);
                lemma_div_linear(48, p, 28, 4);
            } else if w == 5 {
                assert(2 * n == 24 * p + 10);
                lemma_div_linear(24, p, 10, 3);
                let u = 8 * p + 3;
                assert(up_second(kind, n) == u);
                lemma_mod_linear(8, p, 3, 8);
                lemma_mod_linear(8, p, 3, 2);
                lemma_div_linear(24, p, 10, 2);
            } else {
                assert(w == 11);
                assert(2 * n == 24 * p + 22);
                lemma_div_linear(24, p, 22, 3);
                let u = 8 * p + 7;
                assert(up_second(kind, n) == u);
                lemma_mod_linear(8, p, 7, 8);
                lemma_mod_linear(8, p, 7, 2);
                lemma_div_linear(24, p, 22, 2);
            }
        },
        CollatzKind::Compact => {
            let p = n / 18;
            let w = n % 18;
            lemma_fundamental_div_mod(n, 18);
            vstd::arithmetic::div_mod::lemma_div_pos_is_pos(n, 18);
            if w == 11 {
                assert(2 * n == 36 * p + 22);
                lemma_div_linear(36, p, 22, 3);
                let u = 12 * p + 7;
                assert(up_second(kind, n) == u);
                lemma_mod_linear(12, p, 7, 12);
                lemma_mod_linear(12, p, 7, 2);
                lemma_mod_linear(12, p, 7, 3);
                lemma_mod_mod(u, 24, 12);
                lemma_mod_mod(u, 96, 12);
                lemma_div_linear(36, p, 22, 2);
            } else if w == 17 {
                assert(2 * n == 36 * p + 34);
                lemma_div_linear(36, p, 34, 3);
                let u = 12 * p + 11;
                assert(up_second(kind, n) == u);
                lemma_mod_linear(12, p, 11, 12);
                lemma_mod_linear(12, p, 11, 2);
                lemma_mod_linear(12, p, 11, 3);
                lemma_mod_mod(u, 24, 12);
                lemma_mod_mod(u, 96, 12);
                lemma_div_linear(36, p, 34, 2);
            } else if w == 1 {
                assert(4 * n == 72 * p + 4);
                lemma_div_linear(72, p, 4, 3);
                let u = 24 * p + 1;
                assert(up_second(kind, n) == u);
                lemma_mod_linear(24, p, 1, 24);
                lemma_mod_linear(24, p, 1, 12);
                lemma_mod_linear(24, p, 1, 2);
                lemma_mod_linear(24, p, 1, 3);
                lemma_mod_mod(u, 96, 24);
                lemma_div_linear(72, p, 4, 4);
            } else if w == 13 {
                assert(4 * n == 72 * p + 52);
                lemma_div_linear(72, p, 52, 3);
                let u = 24 * p + 17;
                assert(up_second(kind, n) == u);
                lemma_mod_linear(24, p, 17, 24);
                lemma_mod_linear(24, p, 17, 12);
                lemma_mod_linear(24, p, 17, 2);
                lemma_mod_linear(24, p, 17, 3);
                lemma_mod_mod(u, 96, 24);
                lemma_div_linear(72, p, 52, 4);
            } else if w == 5 {
                assert(8 * n == 144 * p + 40);
                lemma_div_linear(144, p, 40, 3);
                let u = 48 * p + 13;
                assert(up_second(kind, n) == u);
                lemma_mod_linear(48, p, 13, 48);
                lemma_mod_linear(48, p, 13, 24);
                lemma_mod_linear(48, p, 13, 12);
                lemma_mod_linear(48, p, 13, 2);
                lemma_mod_linear(48, p, 13, 3);
                lemma_mod_mod(u, 96, 48);
                lemma_div_linear(144, p, 40, 8);
            } else {
                assert(w == 7);
                assert(16 * n == 288 * p + 112);
                lemma_div_linear(288, p, 112, 3);
                let u = 96 * p + 37;
                assert(up_second(kind, n) == u);
                lemma_mod_linear(96, p, 37, 96);
                lemma_mod_linear(96, p, 37, 48);
                lemma_mod_linear(96, p, 37, 24);
                lemma_mod_linear(96, p, 37, 12);
                lemma_mod_linear(96, p, 37, 2);
                lemma_mod_linear(96, p, 37, 3);
                lemma_div_linear(288, p, 112, 16);
            }
        },
    }
}

/// Every in-domain predecessor of a value is one of the two that the
/// inverse step names: the step function admits no third preimage.
#[verifier::rlimit(80)]
#[verifier::spinoff_prover]
pub proof fn lemma_step_inverse(kind: CollatzKind, u: int, t: int)
    requires
        in_domain(kind, u),
        step_down(kind, u) == t,
    ensures
        u == up_always(kind, t) || (has_second_up(kind, t) && u == up_second(kind, t)),
{
    match kind {
        CollatzKind::Full => {
            let m = u / 2;
            lemma_fundamental_div_mod(u, 2);
            if u % 2 == 1 {
                assert(t == 6 * m + 4);
                lemma_mod_linear(6, m, 4, 6);
                lemma_div_linear(6, m, 4, 3);
            }
        },
        CollatzKind::Short => {
            let m = u / 2;
            lemma_fundamental_div_mod(u, 2);
            if u % 2 == 1 {
                assert(3 * u + 1 == 6 * m + 4);
                lemma_div_linear(6, m, 4, 2);
                assert(t == 3 * m + 2);
                lemma_mod_linear(3, m, 2, 3);
                lemma_div_linear(6, m, 4, 3);
            }
        },
        CollatzKind::Odd => {
            let q = u / 8;
            lemma_fundamental_div_mod(u, 8);
            if u % 8 == 5 {
                lemma_div_linear(8, q, 5, 4);
                assert(t == 2 * q + 1);
                assert(up_always(kind, t) == 8 * q + 5);
            } else if u % 8 == 3 {
                assert(3 * u + 1 == 24 * q + 10);
                lemma_div_linear(24, q, 10, 2);
                assert(t == 12 * q + 5);
                lemma_mod_linear(12, q, 5, 12);
                lemma_div_linear(24, q, 10, 3);
            } else if u % 8 == 7 {
                assert(3 * u + 1 == 24 * q + 22);
                lemma_div_linear(24, q, 22, 2);
                assert(t == 12 * q + 11);
                lemma_mod_linear(12, q, 11, 12);
                lemma_div_linear(24, q, 22, 3);
            } else {
                assert(u % 8 == 1) by {
                    lemma_mod_linear(8, q, u % 8, 2);
                };
                assert(3 * u + 1 == 24 * q + 4);
                lemma_div_linear(24, q, 4, 4);
                assert(t == 6 * q + 1);
                let s = q / 2;
                lemma_fundamental_div_mod(q, 2);
                if q % 2 == 0 {
                    assert(t == 12 * s + 1);
                    lemma_mod_linear(12, s, 1, 12);
                    assert(4 * t == 48 * s + 4);
                    lemma_div_linear(48, s, 4, 3);
                    assert(up_second(kind, t) == 16 * s + 1);
                } else {
                    assert(t == 12 * s + 7);
                    lemma_mod_linear(12, s, 7, 12);
                    assert(4 * t == 48 * s + 28);
                    lemma_div_linear(48, s, 28, 3);
                    assert(up_second(kind, t) == 16 * s + 9);
                }
            }
        },
        CollatzKind::Compact => {
            if u % 24 == 5 {
                let p = u / 24;
                lemma_fundamental_div_mod(u, 24);
                lemma_div_linear(24, p, 5, 4);
                assert(t == 6 * p + 1);
                let s = p / 3;
                lemma_fundamental_div_mod(p, 3);
                if p % 3 == 0 {
                    assert(t == 18 * s + 1);
                    lemma_mod_linear(18, s, 1, 18);
                } else if p % 3 == 1 {
                    assert(t == 18 * s + 7);
                    lemma_mod_linear(18, s, 7, 18);
                } else {
                    assert(t == 18 * s + 13);
                    lemma_mod_linear(18, s, 13, 18);
                }
                assert(up_always(kind, t) == 4 * t + 1);
            } else if u % 96 == 85 {
                let p = u / 96;
                lemma_fundamental_div_mod(u, 96);
                lemma_div_linear(96, p, 85, 16);
                assert(t == 6 * p + 5);
                let s = p / 3;
                lemma_fundamental_div_mod(p, 3);
                if p % 3 == 0 {
                    assert(t == 18 * s + 5);
                    lemma_mod_linear(18, s, 5, 18);
                } else if p % 3 == 1 {
                    assert(t == 18 * s + 11);
                    lemma_mod_linear(18, s, 11, 18);
                } else {
                    assert(t == 18 * s + 17);
                    lemma_mod_linear(18, s, 17, 18);
                }
                assert(up_always(kind, t) == 16 * t + 5);
            } else if u % 12 == 7 || u % 12 == 11 {
                let p = u / 12;
                lemma_fundamental_div_mod(u, 12);
                if u % 12 == 7 {
                    assert(3 * u + 1 == 36 * p + 22);
                    lemma_div_linear(36, p, 22, 2);
                    assert(t == 18 * p + 11);
                    lemma_mod_linear(18, p, 11, 18);
                    lemma_div_linear(36, p, 22, 3);
                } else {
                    assert(3 * u + 1 == 36 * p + 34);
                    lemma_div_linear(36, p, 34, 2);
                    assert(t == 18 * p + 17);
                    lemma_mod_linear(18, p, 17, 18);
                    lemma_div_linear(36, p, 34, 3);
                }
            } else if u % 24 == 1 || u % 24 == 17 {
                let p = u / 24;
                lemma_fundamental_div_mod(u, 24);
                if u % 24 == 1 {
                    assert(3 * u + 1 == 72 * p + 4);
                    lemma_div_linear(72, p, 4, 4);
                    assert(t == 18 * p + 1);
                    lemma_mod_linear(18, p, 1, 18);
                    lemma_div_linear(72, p, 4, 3);
                } else {
                    assert(3 * u + 1 == 72 * p + 52);
                    lemma_div_linear(72, p, 52, 4);
                    assert(t == 18 * p + 13);
                    lemma_mod_linear(18, p, 13, 18);
                    lemma_div_linear(72, p, 52, 3);
                }
            } else if u % 48 == 13 {
                let p = u / 48;
                lemma_fundamental_div_mod(u, 48);
                assert(3 * u + 1 == 144 * p + 40);
                lemma_div_linear(144, p, 40, 8);
                assert(t == 18 * p + 5);
                lemma_mod_linear(18, p, 5, 18);
                lemma_div_linear(144, p, 40, 3);
            } else if u % 96 == 37 {
                let p = u / 96;
                lemma_fundamental_div_mod(u, 96);
                assert(3 * u + 1 == 288 * p + 112);
                lemma_div_linear(288, p, 112, 16);
                assert(t == 18 * p + 7);
                lemma_mod_linear(18, p, 7, 18);
                lemma_div_linear(288, p, 112, 3);
            } else {
                let r = u % 96;
                lemma_fundamental_div_mod(u, 96);
                lemma_mod_linear(96, u / 96, r, 2);
                lemma_mod_linear(96, u / 96, r, 3);
                lemma_mod_linear(96, u / 96, r, 12);
                lemma_mod_linear(96, u / 96, r, 24);
                lemma_mod_linear(96, u / 96, r, 48);
                assert(false);
            }
        },
    }
}

/// The residues that a value coprime to 6 can have, phrased as the case
/// split that the compact step function dispatches on.
pub proof fn lemma_compact_cases(n: int)
    requires
        in_domain(CollatzKind::Compact, n),
    ensures
        n % 24 == 5 || n % 96 == 85 || n % 12 == 7 || n % 12 == 11 || n % 24 == 1 || n % 24
            == 17 || n % 48 == 13 || n % 96 == 37,
{
    let r = n % 96;
    lemma_fundamental_div_mod(n, 96);
    lemma_mod_linear(96, n / 96, r, 2);
    lemma_mod_linear(96, n / 96, r, 3);
    lemma_mod_linear(96, n / 96, r, 12);
    lemma_mod_linear(96, n / 96, r, 24);
    lemma_mod_linear(96, n / 96, r, 48);
}

/// Orbits never leave the variant's residue domain.
pub proof fn lemma_iter_in_domain(kind: CollatzKind, n: int, k: nat)
    requires
        in_domain(kind, n),
    ensures
        in_domain(kind, iter_down(kind, n, k)),
    decreases k,
{
    if k > 0 {
        lemma_iter_in_domain(kind, n, (k - 1) as nat);
        lemma_step_in_domain(kind, iter_down(kind, n, (k - 1) as nat));
    }
}

/// Orbit iteration splits: `a + b` steps from `n` equal `b` steps from the
/// point reached after `a` steps.
pub proof fn lemma_iter_down_add(kind: CollatzKind, n: int, a: nat, b: nat)
    ensures
        iter_down(kind, n, a + b) == iter_down(kind, iter_down(kind, n, a), b),
    decreases b,
{
    if b > 0 {
        lemma_iter_down_add(kind, n, a, (b - 1) as nat);
        assert((a + b - 1) as nat == a + (b - 1) as nat);
    }
}

/// Once an orbit revisits a value, every later orbit point equals some
/// point inside the revisited window.
pub proof fn lemma_orbit_window(kind: CollatzKind, n: int, a: nat, b: nat, j: nat)
    requires
        a < b,
        iter_down(kind, n, a) == iter_down(kind, n, b),
        a <= j,
    ensures
        exists|m: nat| a <= m < b && iter_down(kind, n, j) == iter_down(kind, n, m),
    decreases j,
{
    if j < b {
        assert(a <= j < b && iter_down(kind, n, j) == iter_down(kind, n, j));
    } else {
        let j2 = (j - (b - a)) as nat;
        lemma_iter_down_add(kind, n, b, (j - b) as nat);
        lemma_iter_down_add(kind, n, a, (j - b) as nat);
        assert(j == b + (j - b) as nat);
        assert(j2 == a + (j - b) as nat);
        assert(iter_down(kind, n, j) == iter_down(kind, n, j2));
        lemma_orbit_window(kind, n, a, b, j2);
        let m = choose|m: nat| a <= m < b && iter_down(kind, n, j2) == iter_down(kind, n, m);
        assert(a <= m < b && iter_down(kind, n, j) == iter_down(kind, n, m));
    }
}

} // verus!
