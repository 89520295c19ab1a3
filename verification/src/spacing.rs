//! Per-window spacing — duration over competitor count — handled as an exact
//! fraction, and the comparisons the stabilizer makes between spacings of
//! neighboring windows.

use vstd::prelude::*;
use crate::types::LIM;
use crate::types::Window;
use crate::types::WindowModel;
use crate::types::window_ok;
use crate::types::windows_ok;
use crate::types::windows_view;

verus! {

pub open spec fn iabs(x: int) -> int {
    if x < 0 {
        -x
    } else {
        x
    }
}

/// Numerator of a window's spacing.
pub open spec fn sp_num(w: WindowModel) -> int {
    w.duration
}

/// Denominator of a window's spacing: the competitor count, or one when the
/// window is empty (an empty window offers its whole duration as room).
pub open spec fn sp_den(w: WindowModel) -> int {
    if w.competitors.len() == 0 {
        1
    } else {
        w.competitors.len() as int
    }
}

/// spacing(w1) <= spacing(w2), by cross-multiplication.
pub open spec fn spacing_le_spacing(w1: WindowModel, w2: WindowModel) -> bool {
    sp_num(w1) * sp_den(w2) <= sp_num(w2) * sp_den(w1)
}

/// spacing(w) <= t: the window is at least as densely packed as the threshold
/// allows, making it a candidate for relief.
pub open spec fn spacing_at_most(w: WindowModel, t: int) -> bool {
    sp_num(w) <= t * sp_den(w)
}

/// Numerator of spacing(w1) - spacing(w2).
pub open spec fn diff_num(w1: WindowModel, w2: WindowModel) -> int {
    sp_num(w1) * sp_den(w2) - sp_num(w2) * sp_den(w1)
}

/// Denominator of spacing(w1) - spacing(w2); always positive.
pub open spec fn diff_den(w1: WindowModel, w2: WindowModel) -> int {
    sp_den(w1) * sp_den(w2)
}

/// |n1/d1| <= |n2/d2| for positive denominators, by cross-multiplication.
pub open spec fn abs_frac_le(n1: int, d1: int, n2: int, d2: int) -> bool {
    iabs(n1) * d2 <= iabs(n2) * d1
}

/// An adjacent pair takes part in rebalancing when either of its windows is at
/// or below the spacing threshold.
pub open spec fn candidate_pair(ws: Seq<WindowModel>, t: int, i: int) -> bool {
    spacing_at_most(ws[i], t) || spacing_at_most(ws[i + 1], t)
}

pub proof fn lemma_frac_le_trans(n1: int, d1: int, n2: int, d2: int, n3: int, d3: int)
    requires
        d1 >= 1,
        d2 >= 1,
        d3 >= 1,
        n1 * d2 <= n2 * d1,
        n2 * d3 <= n3 * d2,
    ensures
        n1 * d3 <= n3 * d1,
{
    assert(n1 * d3 <= n3 * d1) by (nonlinear_arith)
        requires
            d1 >= 1,
            d2 >= 1,
            d3 >= 1,
            n1 * d2 <= n2 * d1,
            n2 * d3 <= n3 * d2,
    ;
}

pub proof fn lemma_mul_le(a: int, b: int, ax: int, bx: int)
    requires
        0 <= a <= ax,
        0 <= b <= bx,
    ensures
        0 <= a * b <= ax * bx,
{
    assert(0 <= a * b <= ax * bx) by (nonlinear_arith)
        requires
            0 <= a <= ax,
            0 <= b <= bx,
    ;
}

pub proof fn lemma_mul_signed_le(a: int, b: int, ax: int, bx: int)
    requires
        -ax <= a <= ax,
        0 <= b <= bx,
        0 <= ax,
    ensures
        -(ax * bx) <= a * b <= ax * bx,
{
    assert(-(ax * bx) <= a * b <= ax * bx) by (nonlinear_arith)
        requires
            -ax <= a <= ax,
            0 <= b <= bx,
            0 <= ax,
    ;
}

impl Window {
    /// The window's per-competitor spacing as an exact fraction: duration over
    /// competitor count, or the full duration when the window is empty.
    pub fn calculate_spacing(&self) -> (r: (i64, i64))
        requires
            self@.competitors.len() <= LIM as int,
        ensures
            r.0 == sp_num(self@),
            r.1 == sp_den(self@),
            1 <= r.1 <= LIM as int,
    {
        if self.competitors.len() == 0 {
            (self.duration, 1)
        } else {
            (self.duration, self.competitors.len() as i64)
        }
    }
}

/// Whether the window's spacing is at or below the threshold, computed without
/// rounding: duration <= t * count.
pub fn window_spacing_at_most(w: &Window, t: i64) -> (r: bool)
    requires
        window_ok(w@),
        0 <= t <= LIM as i64,
    ensures
        r == spacing_at_most(w@, t as int),
{
    let (n, d) = w.calculate_spacing();
    proof {
        lemma_mul_le(t as int, d as int, LIM as int, LIM as int);
    }
    n <= t * d
}

/// Whether every window's spacing strictly exceeds the threshold: the state in
/// which the stabilizer finds nothing left to relieve.
pub fn all_spacings_exceed(windows: &Vec<Window>, t: i64) -> (r: bool)
    requires
        windows_ok(windows_view(windows@)),
        0 <= t <= LIM as i64,
    ensures
        r <==> (forall|k: int|
            0 <= k < windows@.len() ==> !spacing_at_most(#[trigger] windows_view(windows@)[k], t as int)),
{
    let ghost ws = windows_view(windows@);
    let mut k: usize = 0;
    while k < windows.len()
        invariant
            windows_ok(ws),
            ws == windows_view(windows@),
            0 <= t <= LIM as i64,
            k <= windows@.len(),
            forall|j: int| 0 <= j < k ==> !spacing_at_most(#[trigger] ws[j], t as int),
        decreases windows@.len() - k,
    {
        proof {
            assert(window_ok(ws[k as int]));
        }
        if window_spacing_at_most(&windows[k], t) {
            return false;
        }
        k = k + 1;
    }
    true
}

/// Whether spacing(w1) <= spacing(w2), decided exactly by cross-multiplying.
pub(crate) fn spacing_le_exec(w1: &Window, w2: &Window) -> (r: bool)
    requires
        window_ok(w1@),
        window_ok(w2@),
    ensures
        r == spacing_le_spacing(w1@, w2@),
{
    let (n1, d1) = w1.calculate_spacing();
    let (n2, d2) = w2.calculate_spacing();
    proof {
        lemma_mul_le(n1 as int, d2 as int, LIM as int, LIM as int);
        lemma_mul_le(n2 as int, d1 as int, LIM as int, LIM as int);
    }
    (n1 as i128) * (d2 as i128) <= (n2 as i128) * (d1 as i128)
}

/// Whether n1/d1 < n2/d2, for positive denominators.
pub(crate) fn frac_lt_exec(n1: i64, d1: i64, n2: i64, d2: i64) -> (r: bool)
    requires
        1 <= d1 <= LIM as i64 * LIM as i64,
        1 <= d2 <= LIM as i64 * LIM as i64,
        iabs(n1 as int) <= LIM as int * LIM as int,
        iabs(n2 as int) <= LIM as int * LIM as int,
    ensures
        r == ((n1 as int) * (d2 as int) < (n2 as int) * (d1 as int)),
{
    proof {
        assert(LIM as int * LIM as int == 0x100_0000_0000) by (nonlinear_arith);
        lemma_mul_signed_le(n1 as int, d2 as int, 0x100_0000_0000, 0x100_0000_0000);
        lemma_mul_signed_le(n2 as int, d1 as int, 0x100_0000_0000, 0x100_0000_0000);
    }
    (n1 as i128) * (d2 as i128) < (n2 as i128) * (d1 as i128)
}

/// Whether |n1/d1| <= |n2/d2|, for positive denominators.
pub(crate) fn abs_frac_le_exec(n1: i64, d1: i64, n2: i64, d2: i64) -> (r: bool)
    requires
        1 <= d1 <= LIM as i64 * LIM as i64,
        1 <= d2 <= LIM as i64 * LIM as i64,
        iabs(n1 as int) <= LIM as int * LIM as int,
        iabs(n2 as int) <= LIM as int * LIM as int,
    ensures
        r == abs_frac_le(n1 as int, d1 as int, n2 as int, d2 as int),
{
    let a1: i128 = if n1 < 0 {
        -(n1 as i128)
    } else {
        n1 as i128
    };
    let a2: i128 = if n2 < 0 {
        -(n2 as i128)
    } else {
        n2 as i128
    };
    proof {
        assert(LIM as int * LIM as int == 0x100_0000_0000) by (nonlinear_arith);
        lemma_mul_le(iabs(n1 as int), d2 as int, 0x100_0000_0000, 0x100_0000_0000);
        lemma_mul_le(iabs(n2 as int), d1 as int, 0x100_0000_0000, 0x100_0000_0000);
        assert(a1 as int == iabs(n1 as int));
        assert(a2 as int == iabs(n2 as int));
    }
    a1 * (d2 as i128) <= a2 * (d1 as i128)
}

/// Whether |n1/d1| == n2/d2, for positive denominators and n2 >= 0.
pub(crate) fn abs_frac_eq_exec(n1: i64, d1: i64, n2: i64, d2: i64) -> (r: bool)
    requires
        1 <= d1 <= LIM as i64 * LIM as i64,
        1 <= d2 <= LIM as i64 * LIM as i64,
        iabs(n1 as int) <= LIM as int * LIM as int,
        0 <= n2 <= LIM as i64 * LIM as i64,
    ensures
        r == (iabs(n1 as int) * (d2 as int) == (n2 as int) * (d1 as int)),
{
    let a1: i128 = if n1 < 0 {
        -(n1 as i128)
    } else {
        n1 as i128
    };
    proof {
        assert(LIM as int * LIM as int == 0x100_0000_0000) by (nonlinear_arith);
        lemma_mul_le(iabs(n1 as int), d2 as int, 0x100_0000_0000, 0x100_0000_0000);
        lemma_mul_le(n2 as int, d1 as int, 0x100_0000_0000, 0x100_0000_0000);
        assert(a1 as int == iabs(n1 as int));
    }
    a1 * (d2 as i128) == (n2 as i128) * (d1 as i128)
}

/// The spread between the largest and smallest window spacing, as an exact
/// fraction, together with the fact that it really is the spread: the two
/// spacings it is built from bound every window's spacing.
pub fn calculate_max_diff(windows: &Vec<Window>) -> (r: (i64, i64))
    requires
        windows_ok(windows_view(windows@)),
        windows@.len() >= 1,
    ensures
        ({
            let ws = windows_view(windows@);
            exists|i: int, j: int|
                #![trigger diff_num(ws[i], ws[j])]
                0 <= i < ws.len() && 0 <= j < ws.len() && r.0 == diff_num(ws[i], ws[j]) && r.1
                    == diff_den(ws[i], ws[j]) && (forall|k: int|
                    0 <= k < ws.len() ==> spacing_le_spacing(#[trigger] ws[k], ws[i])) && (forall|
                    k: int|
                    0 <= k < ws.len() ==> spacing_le_spacing(ws[j], #[trigger] ws[k]))
        }),
        0 <= r.0 <= LIM as int * LIM as int,
        1 <= r.1 <= LIM as int * LIM as int,
{
    let ghost ws = windows_view(windows@);
    let mut imax: usize = 0;
    let mut imin: usize = 0;
    let mut k: usize = 1;
    proof {
        assert(window_ok(ws[0]));
    }
    while k < windows.len()
        invariant
            windows_ok(ws),
            ws == windows_view(windows@),
            1 <= k <= ws.len(),
            imax < k,
            imin < k,
            forall|j: int| 0 <= j < k ==> spacing_le_spacing(#[trigger] ws[j], ws[imax as int]),
            forall|j: int| 0 <= j < k ==> spacing_le_spacing(ws[imin as int], #[trigger] ws[j]),
        decreases ws.len() - k,
    {
        proof {
            assert(window_ok(ws[k as int]));
            assert(window_ok(ws[imax as int]));
            assert(window_ok(ws[imin as int]));
        }
        if spacing_le_exec(&windows[imax], &windows[k]) {
            proof {
                assert forall|j: int| 0 <= j < k + 1 implies spacing_le_spacing(
                    #[trigger] ws[j],
                    ws[k as int],
                ) by {
                    if j < k {
                        assert(window_ok(ws[j]));
                        lemma_frac_le_trans(
                            sp_num(ws[j]),
                            sp_den(ws[j]),
                            sp_num(ws[imax as int]),
                            sp_den(ws[imax as int]),
                            sp_num(ws[k as int]),
                            sp_den(ws[k as int]),
                        );
                    }
                }
            }
            imax = k;
        }
        if spacing_le_exec(&windows[k], &windows[imin]) {
            proof {
                assert forall|j: int| 0 <= j < k + 1 implies spacing_le_spacing(
                    ws[k as int],
                    #[trigger] ws[j],
                ) by {
                    if j < k {
                        assert(window_ok(ws[j]));
                        lemma_frac_le_trans(
                            sp_num(ws[k as int]),
                            sp_den(ws[k as int]),
                            sp_num(ws[imin as int]),
                            sp_den(ws[imin as int]),
                            sp_num(ws[j]),
                            sp_den(ws[j]),
                        );
                    }
                }
            }
            imin = k;
        }
        k = k + 1;
    }
    proof {
        assert(window_ok(ws[imax as int]));
        assert(window_ok(ws[imin as int]));
    }
    let (nx, dx) = windows[imax].calculate_spacing();
    let (nn, dn) = windows[imin].calculate_spacing();
    proof {
        assert(LIM as int * LIM as int == 0x100_0000_0000) by (nonlinear_arith);
        lemma_mul_le(nx as int, dn as int, LIM as int, LIM as int);
        lemma_mul_le(nn as int, dx as int, LIM as int, LIM as int);
        lemma_mul_le(dx as int, dn as int, LIM as int, LIM as int);
        assert(dx as int * dn as int >= 1) by (nonlinear_arith)
            requires
                dx >= 1,
                dn >= 1,
        ;
        assert(spacing_le_spacing(ws[imin as int], ws[imax as int]));
        assert(diff_num(ws[imax as int], ws[imin as int]) == nx as int * dn as int - nn as int
            * dx as int);
        assert(diff_den(ws[imax as int], ws[imin as int]) == dx as int * dn as int);
    }
    (nx * dn - nn * dx, dx * dn)
}

/// Once no adjacent pair is a rebalancing candidate, every window's spacing
/// strictly exceeds the threshold: the stabilizer's stop condition implies the
/// convergence property.
pub proof fn lemma_no_candidate_all_above(ws: Seq<WindowModel>, t: int)
    requires
        ws.len() >= 2,
        forall|i: int| 0 <= i < ws.len() - 1 ==> !candidate_pair(ws, t, i),
    ensures
        forall|k: int| 0 <= k < ws.len() ==> !spacing_at_most(#[trigger] ws[k], t),
{
    assert forall|k: int| 0 <= k < ws.len() implies !spacing_at_most(ws[k], t) by {
        if k < ws.len() - 1 {
            assert(!candidate_pair(ws, t, k));
        } else {
            assert(!candidate_pair(ws, t, k - 1));
        }
    }
}

} // verus!
