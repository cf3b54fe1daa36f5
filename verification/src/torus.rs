//! Coordinates on a ring: stepping off one edge re-enters at the opposite one.

use vstd::prelude::*;
use vstd::arithmetic::div_mod::{
    lemma_add_mod_noop, lemma_add_mod_noop_right, lemma_fundamental_div_mod,
    lemma_fundamental_div_mod_converse_mod, lemma_mod_bound, lemma_small_mod,
};

verus! {

/// The position reached from `w` by moving `offs` steps around a ring of
/// `wrap` positions: the least non-negative residue of `w + offs`.
pub open spec fn wrap_index(w: int, offs: int, wrap: int) -> int {
    (w + offs) % wrap
}

/// A number that is `r` above a multiple of `n`, with `0 <= r < n`, has
/// residue `r`.
pub proof fn lemma_residue(x: int, n: int, q: int, r: int)
    requires
        n > 0,
        0 <= r < n,
        x == q * n + r,
    ensures
        x % n == r,
{
    lemma_fundamental_div_mod_converse_mod(x, n, q, r);
}

/// The residue of a negated number: zero stays zero, anything else is
/// mirrored inside the ring.
pub proof fn lemma_residue_of_negation(x: int, n: int)
    requires
        n > 0,
    ensures
        (-x) % n == if x % n == 0 { 0 } else { n - x % n },
{
    let q = x / n;
    let m = x % n;
    lemma_fundamental_div_mod(x, n);
    lemma_mod_bound(x, n);
    if m == 0 {
        assert(-x == (-q) * n + 0) by (nonlinear_arith)
            requires
                x == n * q + m,
                m == 0,
        ;
        lemma_residue(-x, n, -q, 0);
    } else {
        assert(-x == (-q - 1) * n + (n - m)) by (nonlinear_arith)
            requires
                x == n * q + m,
        ;
        lemma_residue(-x, n, -q - 1, n - m);
    }
}

/// On a ring, one step forward from the last position leads to the first,
/// and one step back from the first leads to the last.
pub proof fn lemma_wrap_neighbours(w: int, wrap: int)
    requires
        0 <= w < wrap,
    ensures
        wrap_index(w, 0, wrap) == w,
        wrap_index(w, 1, wrap) == if w == wrap - 1 { 0 } else { w + 1 },
        wrap_index(w, -1, wrap) == if w == 0 { wrap - 1 } else { w - 1 },
{
    lemma_residue(w, wrap, 0, w);
    if w == wrap - 1 {
        lemma_residue(w + 1, wrap, 1, 0);
    } else {
        lemma_residue(w + 1, wrap, 0, w + 1);
    }
    if w == 0 {
        lemma_residue(w - 1, wrap, -1, wrap - 1);
    } else {
        lemma_residue(w - 1, wrap, 0, w - 1);
    }
}

/// Moves `offs` steps from `w` around a ring of `wrap` positions.
///
/// The offset may be any integer, negative ones included, and `w` itself
/// need not lie on the ring. The sum `w + offs` is never formed, so no
/// input can overflow.
pub fn wrapped(w: usize, offs: isize, wrap: usize) -> (r: usize)
    requires
        wrap > 0,
    ensures
        r == wrap_index(w as int, offs as int, wrap as int),
        r < wrap,
{
    let ghost n = wrap as int;
    let base: usize = w % wrap;
    let shift: usize = if offs >= 0 {
        (offs as usize) % wrap
    } else {
        // -(offs + 1) cannot overflow, and -offs == back + 1
        let back: usize = (-(offs + 1)) as usize;
        let m: usize = (back % wrap + 1) % wrap;
        proof {
            lemma_add_mod_noop_right(1, back as int, n);
            lemma_residue_of_negation(-(offs as int), n);
        }
        if m == 0 {
            0
        } else {
            wrap - m
        }
    };
    assert(shift as int == (offs as int) % n);
    proof {
        lemma_add_mod_noop(w as int, offs as int, n);
    }
    let room: usize = wrap - shift;
    if base >= room {
        proof {
            lemma_residue(base + shift, n, 1, base + shift - n);
        }
        base - room
    } else {
        proof {
            lemma_small_mod((base + shift) as nat, n as nat);
        }
        base + shift
    }
}

} // verus!
