//! Offset assignment: walking the stabilized window sequence in time order and
//! giving every competitor a concrete start offset — bottom-anchored
//! competitors first at threshold steps, top-anchored competitors backward
//! from the window's end, and the unanchored middle spread over the remaining
//! room with weighted-random distribution of the rounding remainder.

use vstd::prelude::*;
use vstd::multiset::Multiset;
use crate::rng::rng_below;
use crate::spacing::lemma_mul_le;
use crate::types::AssignedModel;
use crate::types::CompetitorModel;
use crate::types::CompetitorWithOffset;
use crate::types::Window;
use crate::types::LIM;
use crate::types::assigned_names;
use crate::types::assigned_comps;
use crate::types::assigned_view;
use crate::types::all_comps;
use crate::types::all_partitioned;
use crate::types::lemma_all_comps_split;
use crate::types::lemma_multiset_transfer;
use crate::types::sorted_by_offset;
use crate::types::total_count;
use crate::types::windows_ok;
use crate::types::windows_view;
use crate::types::comps_view;
use crate::types::partitioned;
use crate::types::rank;
use crate::types::window_ok;

verus! {

/// Length of the window's bottom-anchored prefix.
pub open spec fn bottom_len(cs: Seq<CompetitorModel>) -> int
    decreases cs.len(),
{
    if cs.len() == 0 {
        0
    } else if rank(cs[0]) == 0 {
        1 + bottom_len(cs.drop_first())
    } else {
        0
    }
}

/// Length of the window's top-anchored suffix.
pub open spec fn top_len(cs: Seq<CompetitorModel>) -> int
    decreases cs.len(),
{
    if cs.len() == 0 {
        0
    } else if rank(cs.last()) == 2 {
        1 + top_len(cs.drop_last())
    } else {
        0
    }
}

proof fn lemma_bottom_len_char(s: Seq<CompetitorModel>, k: int)
    requires
        0 <= k <= s.len(),
        forall|j: int| 0 <= j < k ==> rank(#[trigger] s[j]) == 0,
        k < s.len() ==> rank(s[k]) != 0,
    ensures
        bottom_len(s) == k,
    decreases k,
{
    if k == 0 {
    } else {
        lemma_bottom_len_char(s.drop_first(), k - 1);
    }
}

proof fn lemma_top_len_char(s: Seq<CompetitorModel>, k: int)
    requires
        0 <= k <= s.len(),
        forall|j: int| s.len() - k <= j < s.len() ==> rank(#[trigger] s[j]) == 2,
        k < s.len() ==> rank(s[s.len() - k - 1]) != 2,
    ensures
        top_len(s) == k,
    decreases k,
{
    if k == 0 {
    } else {
        assert(rank(s.last()) == 2);
        assert forall|j: int| s.drop_last().len() - (k - 1) <= j < s.drop_last().len() implies rank(
            #[trigger] s.drop_last()[j],
        ) == 2 by {
            assert(s.drop_last()[j] == s[j]);
        }
        lemma_top_len_char(s.drop_last(), k - 1);
    }
}

proof fn lemma_div_mul_le(a: int, b: int)
    requires
        0 <= a,
        1 <= b,
    ensures
        0 <= a / b <= a,
        b * (a / b) <= a,
{
    assert(0 <= a / b <= a && b * (a / b) <= a) by (nonlinear_arith)
        requires
            0 <= a,
            1 <= b,
    ;
}

/// Assigns offsets to one non-empty window's competitors and appends them to
/// the output in window order: the bottom-anchored prefix at exact threshold
/// steps from the running cursor, the unanchored middle spread over the room
/// left between the cursors with gaps of at least the minimum spacing, and the
/// top-anchored suffix at exact threshold steps backward from the window's
/// last slot. Returns the cursor for the next window.
#[verifier::loop_isolation(false)]
#[verifier::rlimit(100)]
pub fn assign_window(
    out: &mut Vec<CompetitorWithOffset>,
    window: Window,
    spacing_threshold: i64,
    min_spacing: i64,
    curr_start: i64,
    windows_curr_start: i64,
    rng: &mut rand::rngs::StdRng,
) -> (new_curr: i64)
    requires
        partitioned(window@.competitors),
        window_ok(window@),
        window@.competitors.len() >= 1,
        0 <= spacing_threshold <= LIM as i64,
        0 <= min_spacing <= LIM as i64,
        0 <= windows_curr_start <= curr_start,
        curr_start <= 0x4000_0000_0000,
    ensures
        ({
            let cm = window@.competitors;
            let n = cm.len() as int;
            let nb = bottom_len(cm);
            let nt = top_len(cm);
            let nu = n - nb - nt;
            let off = old(out)@.len() as int;
            let o = assigned_view(final(out)@);
            let t = spacing_threshold as int;
            let m = min_spacing as int;
            let cs1 = if nb == 0 {
                curr_start as int
            } else {
                curr_start as int + (nb - 1) * t
            };
            let rev1 = windows_curr_start as int + window@.duration - 1 - nt * t;
            let space = rev1 - cs1;
            &&& final(out)@.len() == old(out)@.len() + cm.len()
            &&& forall|k: int| 0 <= k < off ==> final(out)@[k] == old(out)@[k]
            &&& forall|k: int| 0 <= k < n ==> (#[trigger] o[off + k]).competitor == cm[k]
            &&& forall|k: int| 0 <= k < nb ==> (#[trigger] o[off + k]).offset == curr_start + k * t
            &&& forall|k: int|
                n - nt <= k < n ==> (#[trigger] o[off + k]).offset == windows_curr_start as int
                    + window@.duration - 1 - (n - 1 - k) * t
            &&& (nb == 0 && nu > 0 ==> o[off].offset == curr_start as int)
            &&& forall|k: int|
                nb + 1 <= k < n - nt ==> (#[trigger] o[off + k]).offset - o[off + k - 1].offset
                    >= m
            &&& ((nu > 0 && space >= 0 && space / nu >= m) ==> forall|k: int|
                nb + 1 <= k < n - nt ==> space / nu <= (#[trigger] o[off + k]).offset - o[off + k
                    - 1].offset <= space / nu + 1)
            &&& ((nu > 0 && !(space >= 0 && space / nu >= m)) ==> forall|k: int|
                nb + 1 <= k < n - nt ==> (#[trigger] o[off + k]).offset - o[off + k - 1].offset
                    == m)
            &&& (nu > 0 && nb > 0 ==> o[off + nb].offset - o[off + nb - 1].offset >= m)
            &&& (nu > 0 && nb > 0 && space >= 0 && space / nu >= m ==> space / nu <= o[off
                + nb].offset - o[off + nb - 1].offset <= space / nu + 1)
            &&& (nu > 0 && nb > 0 && !(space >= 0 && space / nu >= m) ==> o[off + nb].offset - o[
            off + nb - 1].offset == m)
            &&& forall|k: int|
                0 <= k < n - nt - 1 ==> (#[trigger] o[off + k]).offset <= o[off + k + 1].offset
            &&& ({
                let cs_end = if nu == 0 {
                    cs1
                } else if space >= 0 && space / nu >= m {
                    rev1 - (if nb == 0 {
                        space / nu
                    } else {
                        0
                    })
                } else {
                    cs1 + (nu - (if nb == 0 {
                        1int
                    } else {
                        0
                    })) * m
                };
                &&& (nu > 0 ==> o[off + n - nt - 1].offset == cs_end)
                &&& new_curr == (if nt * t == 0 {
                    if cs_end + m > windows_curr_start + window@.duration {
                        cs_end + m
                    } else {
                        windows_curr_start + window@.duration
                    }
                } else {
                    windows_curr_start as int + window@.duration - 1 + t
                })
            })
            &&& new_curr >= windows_curr_start + window@.duration - 1
            &&& new_curr >= 0
            &&& new_curr <= curr_start + 3 * (LIM as int) + 2 * (n * (LIM as int))
        }),
{
    let ghost cm = window@.competitors;
    let ghost off = out@.len() as int;
    let ghost t = spacing_threshold as int;
    let ghost m = min_spacing as int;
    let n = window.competitors.len();
    let d = window.duration;
    let ws = windows_curr_start;
    let mut comps = window.competitors;
    let mut cs = curr_start;
    proof {
        assert(comps_view(comps@) =~= cm);
        assert(n as int == cm.len());
    }

    // Bottom-anchored prefix: consecutive offsets, one threshold step apart.
    let mut nb: usize = 0;
    while comps.len() > 0 && comps[0].origin < 0
        invariant
            comps_view(comps@) =~= cm.skip(nb as int),
            nb as int <= cm.len(),
            cs == curr_start + nb as int * t,
            cs <= curr_start + 0x100_0000_0000,
            out@.len() == off + nb as int,
            forall|k: int| 0 <= k < off ==> out@[k] == old(out)@[k],
            forall|k: int| 0 <= k < nb ==> rank(#[trigger] cm[k]) == 0,
            forall|k: int|
                0 <= k < nb ==> (#[trigger] assigned_view(out@)[off + k]).competitor == cm[k]
                    && assigned_view(out@)[off + k].offset == curr_start + k * t,
        decreases comps@.len(),
    {
        proof {
            assert(comps_view(comps@)[0] == cm[nb as int]);
            assert((nb as int + 1) * t == nb as int * t + t) by (nonlinear_arith);
            lemma_mul_le(nb as int + 1, t, LIM as int, LIM as int);
            assert(LIM as int * LIM as int == 0x100_0000_0000) by (nonlinear_arith);
        }
        let ghost prev = out@;
        let ghost pc = comps@;
        let c = comps.remove(0);
        out.push(CompetitorWithOffset { competitor: c, offset: cs });
        cs = cs + spacing_threshold;
        nb = nb + 1;
        proof {
            assert(comps@ == pc.remove(0));
            assert forall|i: int| 0 <= i < comps@.len() implies comps_view(comps@)[i] == cm.skip(
                nb as int,
            )[i] by {
                assert(comps@[i] == pc[i + 1]);
                assert(comps_view(pc)[i + 1] == pc[i + 1]@);
                assert(comps_view(pc)[i + 1] == cm.skip(nb as int - 1)[i + 1]);
            }
            assert(comps_view(comps@) =~= cm.skip(nb as int));
            assert(assigned_view(out@) =~= assigned_view(prev).push(out@.last()@));
        }
    }
    let has_bottom = nb > 0;
    if has_bottom {
        cs = cs - spacing_threshold;
        proof {
            assert((nb as int - 1) * t == nb as int * t - t) by (nonlinear_arith);
        }
    }
    proof {
        if (nb as int) < cm.len() {
            assert(comps_view(comps@)[0] == cm[nb as int]);
            assert(rank(cm[nb as int]) != 0);
        }
        lemma_bottom_len_char(cm, nb as int);
    }

    // Top-anchored suffix: buffered backward from the window's last slot.
    let mut rev = ws + d - 1;
    let mut tops: Vec<CompetitorWithOffset> = Vec::new();
    let mut nt: usize = 0;
    while comps.len() > 0 && comps[comps.len() - 1].origin > 0
        invariant
            comps_view(comps@) =~= cm.subrange(nb as int, cm.len() - nt as int),
            nb as int + nt as int <= cm.len(),
            rev == ws as int + d as int - 1 - nt as int * t,
            rev >= ws as int + d as int - 1 - 0x100_0000_0000,
            tops@.len() == nt as int,
            forall|k: int| cm.len() - nt <= k < cm.len() ==> rank(#[trigger] cm[k]) == 2,
            forall|k: int|
                0 <= k < nt ==> (#[trigger] assigned_view(tops@)[k]).competitor == cm[cm.len() - 1
                    - k] && assigned_view(tops@)[k].offset == ws as int + d as int - 1 - k * t,
        decreases comps@.len(),
    {
        proof {
            assert(comps_view(comps@).last() == cm[cm.len() - nt as int - 1]);
            assert((nt as int + 1) * t == nt as int * t + t) by (nonlinear_arith);
            lemma_mul_le(nt as int + 1, t, LIM as int, LIM as int);
            assert(LIM as int * LIM as int == 0x100_0000_0000) by (nonlinear_arith);
        }
        let ghost prev = tops@;
        let ghost pc = comps@;
        let c = comps.pop().unwrap();
        tops.push(CompetitorWithOffset { competitor: c, offset: rev });
        rev = rev - spacing_threshold;
        nt = nt + 1;
        proof {
            assert(comps@ == pc.drop_last());
            assert forall|i: int| 0 <= i < comps@.len() implies comps_view(comps@)[i]
                == cm.subrange(nb as int, cm.len() - nt as int)[i] by {
                assert(comps@[i] == pc[i]);
                assert(comps_view(pc)[i] == pc[i]@);
                assert(comps_view(pc)[i] == cm.subrange(
                    nb as int,
                    cm.len() - nt as int + 1,
                )[i]);
            }
            assert(comps_view(comps@) =~= cm.subrange(nb as int, cm.len() - nt as int));
            assert(assigned_view(tops@) =~= assigned_view(prev).push(tops@.last()@));
        }
    }
    proof {
        if comps@.len() > 0 {
            assert(comps_view(comps@).last() == cm[cm.len() - nt as int - 1]);
            assert(rank(cm[cm.len() - nt as int - 1]) != 2);
        }
        lemma_top_len_char(cm, nt as int);
        assert(nb as int == bottom_len(cm));
    }

    // Unanchored middle: divide the room between the cursors; each competitor
    // absorbs one extra unit with probability remainder over those remaining,
    // so spacing errors never accumulate. Below the minimum spacing, clamp.
    let nu = comps.len();
    let ghost csm = cs as int;
    let ghost revm = rev as int;
    if nu > 0 {
        let space = rev - cs;
        let mut spacing = min_spacing;
        let mut remainder: i64 = 0;
        let mut use_spread = false;
        if space >= 0 {
            let q = (space as u64) / (nu as u64);
            let qr = (space as u64) % (nu as u64);
            proof {
                vstd::arithmetic::div_mod::lemma_fundamental_div_mod(space as int, nu as int);
                lemma_div_mul_le(space as int, nu as int);
            }
            if (q as i64) >= min_spacing {
                spacing = q as i64;
                remainder = qr as i64;
                use_spread = true;
            }
        }
        proof {
            assert(use_spread == (space as int >= 0 && (space as int) / (nu as int) >= m));
            if use_spread {
                assert(csm + (nu as int) * (spacing as int) + remainder as int == revm);
            }
        }
        let ghost spc = spacing as int;
        let mut j: usize = 0;
        while comps.len() > 0
            invariant
                comps_view(comps@) =~= cm.subrange(
                    nb as int + j as int,
                    cm.len() - nt as int,
                ),
                j as int <= nu as int,
                nu as int == cm.len() - nb as int - nt as int,
                spacing as int == spc,
                spc >= m,
                0 <= spc <= 0x8000_0000_0000,
                remainder >= 0,
                use_spread ==> cs as int <= revm + spc,
                use_spread && j == 0 ==> remainder as int <= nu as int - 1,
                use_spread && j >= 1 ==> remainder as int <= nu as int - j as int,
                use_spread ==> cs as int + (nu as int - j as int) * spc + remainder as int == revm
                    - (if !has_bottom && j >= 1 {
                    spc
                } else {
                    0int
                }),
                !use_spread ==> cs as int == csm + (if has_bottom {
                    j as int
                } else if j == 0 {
                    0int
                } else {
                    j as int - 1
                }) * m,
                revm <= 0x4100_0000_0000,
                csm <= 0x4100_0000_0000,
                !use_spread ==> remainder == 0,
                !use_spread ==> cs as int <= csm + (j as int) * m,
                cs >= csm,
                j == 0 ==> cs as int == csm,
                out@.len() == off + nb as int + j as int,
                forall|k: int| 0 <= k < off ==> out@[k] == old(out)@[k],
                forall|k: int|
                    0 <= k < nb ==> (#[trigger] assigned_view(out@)[off + k]).competitor == cm[k]
                        && assigned_view(out@)[off + k].offset == curr_start + k * t,
                forall|k: int|
                    0 <= k < j ==> (#[trigger] assigned_view(out@)[off + nb as int
                        + k]).competitor == cm[nb as int + k],
                j > 0 ==> assigned_view(out@)[off + nb as int + j as int - 1].offset == cs as int,
                j > 0 && nb == 0 ==> assigned_view(out@)[off].offset == csm,
                forall|k: int|
                    1 <= k < j ==> spc <= (#[trigger] assigned_view(out@)[off + nb as int
                        + k]).offset - assigned_view(out@)[off + nb as int + k - 1].offset <= spc
                        + 1,
                forall|k: int|
                    1 <= k < j ==> (#[trigger] assigned_view(out@)[off + nb as int + k]).offset
                        - assigned_view(out@)[off + nb as int + k - 1].offset >= m,
                use_spread ==> (forall|k: int|
                    1 <= k < j ==> (revm - csm) / (nu as int) <= (#[trigger] assigned_view(out@)[
                    off + nb as int + k]).offset - assigned_view(out@)[off + nb as int + k
                        - 1].offset <= (revm - csm) / (nu as int) + 1),
                !use_spread ==> (forall|k: int|
                    1 <= k < j ==> (#[trigger] assigned_view(out@)[off + nb as int + k]).offset
                        - assigned_view(out@)[off + nb as int + k - 1].offset == m),
                nb > 0 && j > 0 ==> spc <= assigned_view(out@)[off + nb as int].offset - csm
                    <= spc + 1,
                nb > 0 && j > 0 && !use_spread ==> assigned_view(out@)[off + nb as int].offset
                    - csm == m,
            decreases comps@.len(),
        {
            proof {
                assert(comps_view(comps@)[0] == cm[nb as int + j as int]);
                assert(rank(cm[nb as int + j as int]) == 1) by {
                    let ki = nb as int + j as int;
                    if rank(cm[ki]) == 0 {
                        assert(forall|i: int|
                            0 <= i < ki ==> rank(#[trigger] cm[i]) <= rank(cm[ki]));
                        lemma_bottom_len_char(cm, ki + 1);
                    }
                    if rank(cm[ki]) == 2 {
                        assert(forall|i: int|
                            ki <= i < cm.len() ==> rank(#[trigger] cm[i]) >= rank(cm[ki]));
                        lemma_top_len_char(cm, cm.len() - ki);
                    }
                }
                assert((nu as int - j as int) * spc == (nu as int - j as int - 1) * spc + spc)
                    by (nonlinear_arith);
                assert((nu as int - j as int - 1) * spc >= 0) by (nonlinear_arith)
                    requires
                        j as int <= nu as int - 1,
                        spc >= 0,
                ;
                assert((j as int + 1) * m == j as int * m + m) by (nonlinear_arith);
                assert((j as int) * m == (j as int - 1) * m + m) by (nonlinear_arith);
                lemma_mul_le(j as int + 1, m, LIM as int, LIM as int);
                assert(LIM as int * LIM as int == 0x100_0000_0000) by (nonlinear_arith);
            }
            if j > 0 || has_bottom {
                if use_spread {
                    let remaining = nu - j;
                    let r = rng_below(rng, remaining as u64);
                    if (r as i64) < remainder {
                        cs = cs + 1;
                        remainder = remainder - 1;
                    }
                }
                cs = cs + spacing;
            }
            let ghost prev = out@;
            let ghost pc = comps@;
            let c = comps.remove(0);
            out.push(CompetitorWithOffset { competitor: c, offset: cs });
            j = j + 1;
            proof {
                assert(comps@ == pc.remove(0));
                assert forall|i: int| 0 <= i < comps@.len() implies comps_view(comps@)[i]
                    == cm.subrange(nb as int + j as int, cm.len() - nt as int)[i] by {
                    assert(comps@[i] == pc[i + 1]);
                    assert(comps_view(pc)[i + 1] == pc[i + 1]@);
                    assert(comps_view(pc)[i + 1] == cm.subrange(
                        nb as int + j as int - 1,
                        cm.len() - nt as int,
                    )[i + 1]);
                }
                assert(comps_view(comps@) =~= cm.subrange(
                    nb as int + j as int,
                    cm.len() - nt as int,
                ));
                assert(assigned_view(out@) =~= assigned_view(prev).push(out@.last()@));
            }
        }
        proof {
            assert(j as int == nu as int);
            if use_spread {
                assert(remainder == 0);
                assert((nu as int - j as int) * spc == 0) by (nonlinear_arith)
                    requires
                        j as int == nu as int,
                ;
                assert(cs as int == revm - (if !has_bottom && nu as int >= 1 {
                    spc
                } else {
                    0int
                }));
            } else {
                assert(cs as int == csm + (nu as int - (if has_bottom {
                    0int
                } else {
                    1int
                })) * m);
            }
            assert(LIM as int * LIM as int == 0x100_0000_0000) by (nonlinear_arith);
            if nb > 0 {
                lemma_mul_le(nb as int - 1, t, LIM as int, LIM as int);
            }
            lemma_mul_le(nb as int, t, LIM as int, LIM as int);
            lemma_mul_le(nt as int, t, LIM as int, LIM as int);
            if use_spread {
                assert(csm >= curr_start as int);
                assert(cs as int <= revm + (revm - csm));
            } else {
                lemma_mul_le(j as int, m, LIM as int, LIM as int);
                assert(j as int * m <= cm.len() * (LIM as int)) by (nonlinear_arith)
                    requires
                        0 <= j as int <= cm.len(),
                        0 <= m <= LIM as int,
                ;
                assert(nb as int * t <= cm.len() * (LIM as int)) by (nonlinear_arith)
                    requires
                        0 <= nb as int <= cm.len(),
                        0 <= t <= LIM as int,
                ;
            }
            assert(cs <= 0x2_0000_0000_0000);
            assert(cs as int + m <= curr_start as int + 2 * (LIM as int) + 2 * (cm.len() * (
            LIM as int)));
        }
    }

    proof {
        assert(cs <= 0x2_0000_0000_0000);
    }
    // Cursor for the next window: past this window's end, or past the last
    // assigned slot plus the minimum spacing, whichever is later; when the
    // window's end was used by top-anchored competitors, one threshold step
    // past the last slot.
    let new_curr = if rev == ws + d - 1 {
        let past_end = ws + d;
        if cs > past_end - min_spacing {
            cs + min_spacing
        } else {
            past_end
        }
    } else {
        ws + d - 1 + spacing_threshold
    };

    // Top-anchored competitors enter the output in chronological order.
    let ghost mid_out = out@;
    let ghost tops0 = assigned_view(tops@);
    while tops.len() > 0
        invariant
            assigned_view(tops@) =~= tops0.take(tops@.len() as int),
            tops@.len() as int <= nt as int,
            tops0.len() == nt as int,
            mid_out.len() == off + nb as int + nu as int,
            out@.len() == off + nb as int + nu as int + (nt as int - tops@.len() as int),
            forall|k: int| 0 <= k < mid_out.len() ==> out@[k] == mid_out[k],
            forall|k: int|
                tops@.len() as int <= k < nt as int ==> assigned_view(out@)[off + nb as int
                    + nu as int + nt as int - 1 - k] == #[trigger] tops0[k],
        decreases tops@.len(),
    {
        let ghost prevt = tops@;
        let ghost prevo = out@;
        let c = tops.pop().unwrap();
        out.push(c);
        proof {
            assert(tops@ =~= prevt.drop_last());
            assert forall|i: int| 0 <= i < tops@.len() implies assigned_view(tops@)[i]
                == tops0.take(tops@.len() as int)[i] by {
                assert(tops@[i] == prevt[i]);
                assert(assigned_view(prevt)[i] == prevt[i]@);
                assert(assigned_view(prevt)[i] == tops0.take(prevt.len() as int)[i]);
            }
            assert(assigned_view(tops@) =~= tops0.take(tops@.len() as int));
            assert(assigned_view(out@) =~= assigned_view(prevo).push(out@.last()@));
            assert(out@.last() == prevt.last());
            assert(assigned_view(prevt)[prevt.len() - 1] == prevt.last()@);
            assert(assigned_view(prevt)[prevt.len() - 1] == tops0.take(prevt.len() as int)[
                prevt.len() - 1]);
            assert(out@.last()@ == tops0[tops@.len() as int]);
        }
    }
    proof {
        let o = assigned_view(out@);
        let nbi = nb as int;
        let nti = nt as int;
        let nui = nu as int;
        let ni = cm.len() as int;
        assert(nbi + nui + nti == ni);
        assert(out@.len() == off + ni);
        assert forall|k: int| 0 <= k < nbi + nui implies #[trigger] o[off + k] == assigned_view(
            mid_out,
        )[off + k] by {
            assert(out@[off + k] == mid_out[off + k]);
        }
        assert forall|k: int| nbi + nui <= k < ni implies o[off + k] == #[trigger] tops0[ni - 1
            - k] by {
            assert(assigned_view(out@)[off + nb as int + nu as int + nt as int - 1 - (ni - 1 - k)]
                == tops0[ni - 1 - k]);
        }
        assert forall|k: int| 0 <= k < ni implies (#[trigger] o[off + k]).competitor == cm[k] by {
            if k < nbi + nui {
                assert(o[off + k] == assigned_view(mid_out)[off + k]);
                if k < nbi {
                    assert((#[trigger] assigned_view(mid_out)[off + k]).competitor == cm[k]);
                } else {
                    assert((assigned_view(mid_out)[off + nb as int + (k - nbi)]).competitor == cm[
                        nb as int + (k - nbi)]);
                }
            } else {
                assert(o[off + k] == tops0[ni - 1 - k]);
                assert(tops0[ni - 1 - k].competitor == cm[ni - 1 - (ni - 1 - k)]);
            }
        }
        assert forall|k: int| ni - nti <= k < ni implies (#[trigger] o[off + k]).offset
            == windows_curr_start as int + window@.duration - 1 - (ni - 1 - k) * t by {
            assert(o[off + k] == tops0[ni - 1 - k]);
            assert(tops0[ni - 1 - k].offset == ws as int + d as int - 1 - (ni - 1 - k) * t);
        }
        assert forall|k: int| 0 <= k < ni - nti - 1 implies (#[trigger] o[off + k]).offset <= o[off
            + k + 1].offset by {
            assert(o[off + k] == assigned_view(mid_out)[off + k]);
            assert(o[off + k + 1] == assigned_view(mid_out)[off + k + 1]);
            if k + 1 < nbi {
                assert((#[trigger] assigned_view(mid_out)[off + k]).offset == curr_start + k * t);
                assert(assigned_view(mid_out)[off + (k + 1)].offset == curr_start + (k + 1) * t);
                assert((k + 1) * t == k * t + t) by (nonlinear_arith);
            } else if k + 1 == nbi {
                assert(assigned_view(mid_out)[off + k].offset == curr_start + k * t);
                assert(csm <= assigned_view(mid_out)[off + nb as int].offset);
                assert((nbi - 1) * t == nbi * t - t) by (nonlinear_arith);
            } else {
                assert(assigned_view(mid_out)[off + nb as int + (k + 1 - nbi)].offset
                    - assigned_view(mid_out)[off + nb as int + (k + 1 - nbi) - 1].offset >= m);
            }
        }
        let cs1g = if nbi == 0 {
            curr_start as int
        } else {
            curr_start as int + (nbi - 1) * t
        };
        let rev1g = windows_curr_start as int + window@.duration - 1 - nti * t;
        let spaceg = rev1g - cs1g;
        assert(csm == cs1g);
        assert(revm == rev1g);
        assert forall|k: int| nbi + 1 <= k < ni - nti implies (#[trigger] o[off + k]).offset - o[off
            + k - 1].offset >= m by {
            assert(o[off + k] == assigned_view(mid_out)[off + k]);
            assert(o[off + k - 1] == assigned_view(mid_out)[off + k - 1]);
            assert(assigned_view(mid_out)[off + nb as int + (k - nbi)].offset - assigned_view(
                mid_out,
            )[off + nb as int + (k - nbi) - 1].offset >= m);
        }
        if nui > 0 && spaceg >= 0 && spaceg / nui >= m {
            assert forall|k: int| nbi + 1 <= k < ni - nti implies spaceg / nui <= (#[trigger] o[off
                + k]).offset - o[off + k - 1].offset <= spaceg / nui + 1 by {
                assert(o[off + k] == assigned_view(mid_out)[off + k]);
                assert(o[off + k - 1] == assigned_view(mid_out)[off + k - 1]);
                assert((revm - csm) / (nui) <= assigned_view(mid_out)[off + nb as int + (k
                    - nbi)].offset - assigned_view(mid_out)[off + nb as int + (k - nbi) - 1].offset
                    <= (revm - csm) / (nui) + 1);
            }
        }
        if nui > 0 && nbi > 0 {
            assert(o[off + nbi] == assigned_view(mid_out)[off + nbi]);
            assert(o[off + (nbi - 1)] == assigned_view(mid_out)[off + (nbi - 1)]);
            assert(assigned_view(mid_out)[off + (nbi - 1)].offset == curr_start + (nbi - 1) * t);
            assert(assigned_view(mid_out)[off + (nbi - 1)].offset == csm);
        }
        if nui > 0 && !(spaceg >= 0 && spaceg / nui >= m) {
            assert forall|k: int| nbi + 1 <= k < ni - nti implies (#[trigger] o[off + k]).offset
                - o[off + k - 1].offset == m by {
                assert(o[off + k] == assigned_view(mid_out)[off + k]);
                assert(o[off + k - 1] == assigned_view(mid_out)[off + k - 1]);
                assert(assigned_view(mid_out)[off + nb as int + (k - nbi)].offset - assigned_view(
                    mid_out,
                )[off + nb as int + (k - nbi) - 1].offset == m);
            }
        }
        assert(new_curr <= curr_start + 3 * (LIM as int) + 2 * (ni * (LIM as int))) by {
            assert(LIM as int * LIM as int == 0x100_0000_0000) by (nonlinear_arith);
            assert(ni * (LIM as int) >= 0) by (nonlinear_arith)
                requires
                    ni >= 0,
            ;
            lemma_mul_le(nti, t, LIM as int, LIM as int);
            if nui == 0 {
                lemma_mul_le(nbi, t, LIM as int, LIM as int);
                assert(nbi * t <= ni * (LIM as int)) by (nonlinear_arith)
                    requires
                        0 <= nbi <= ni,
                        0 <= t <= LIM as int,
                ;
            }
        }
    }
    new_curr
}

/// Sum of the durations of the first `i` windows: window `i`'s start boundary
/// in offset space.
pub open spec fn dur_sum(ws: Seq<crate::types::WindowModel>, i: int) -> int
    decreases i,
{
    if i <= 0 {
        0
    } else {
        dur_sum(ws, i - 1) + ws[i - 1].duration
    }
}

/// What assignment guarantees for window `i`'s slice of the output, which
/// starts at the count of competitors in earlier windows: offsets grow along
/// the slice up to the top-anchored suffix, unanchored gaps — including the
/// one after a bottom-anchored prefix — are at least the minimum spacing, and
/// no offset before the top-anchored suffix precedes the window's start
/// boundary.
pub open spec fn window_offsets_ok(
    o: Seq<AssignedModel>,
    ws: Seq<crate::types::WindowModel>,
    i: int,
    m: int,
) -> bool {
    let s = total_count(ws.take(i));
    let cm = ws[i].competitors;
    let n = cm.len() as int;
    let bl = bottom_len(cm);
    let tl = top_len(cm);
    &&& (forall|k: int| 0 <= k < n - tl - 1 ==> (#[trigger] o[s + k]).offset <= o[s + k + 1].offset)
    &&& (forall|k: int|
        bl + 1 <= k < n - tl ==> (#[trigger] o[s + k]).offset - o[s + k - 1].offset >= m)
    &&& (bl > 0 && n - tl > bl ==> o[s + bl].offset - o[s + (bl - 1)].offset >= m)
    &&& (forall|k: int| 0 <= k < n - tl ==> (#[trigger] o[s + k]).offset >= dur_sum(ws, i))
}

/// Bottom prefix and top suffix lengths lie within the sequence.
pub proof fn lemma_anchor_len_bounds(cs: Seq<CompetitorModel>)
    ensures
        0 <= bottom_len(cs) <= cs.len(),
        0 <= top_len(cs) <= cs.len(),
    decreases cs.len(),
{
    if cs.len() != 0 {
        lemma_anchor_len_bounds(cs.drop_first());
        lemma_anchor_len_bounds(cs.drop_last());
    }
}

/// Prefix competitor counts never decrease.
proof fn lemma_prefix_count_mono(ws: Seq<crate::types::WindowModel>, a: int, b: int)
    requires
        0 <= a <= b <= ws.len(),
    ensures
        total_count(ws.take(a)) <= total_count(ws.take(b)),
{
    lemma_all_comps_split(ws.take(b), a);
    assert(ws.take(b).take(a) =~= ws.take(a));
}

/// A slice whose adjacent offsets never decrease and whose first offset meets
/// a bound keeps every offset at or above that bound.
proof fn lemma_monotone_ge(o: Seq<AssignedModel>, s: int, n: int, b: int)
    requires
        0 <= s,
        s + n <= o.len(),
        n >= 1,
        o[s].offset >= b,
        forall|k: int| 0 <= k < n - 1 ==> (#[trigger] o[s + k]).offset <= o[s + k + 1].offset,
    ensures
        forall|k: int| 0 <= k < n ==> (#[trigger] o[s + k]).offset >= b,
    decreases n,
{
    if n > 1 {
        lemma_monotone_ge(o, s, n - 1, b);
        assert(o[s + (n - 2)].offset <= o[s + (n - 2) + 1].offset);
    }
}

/// A window's slice facts survive appending to the output.
proof fn lemma_window_offsets_ok_prefix(
    o1: Seq<AssignedModel>,
    o2: Seq<AssignedModel>,
    ws: Seq<crate::types::WindowModel>,
    i: int,
    m: int,
)
    requires
        window_offsets_ok(o1, ws, i, m),
        0 <= i < ws.len(),
        total_count(ws.take(i + 1)) <= o1.len(),
        o1.len() <= o2.len(),
        forall|q: int| 0 <= q < o1.len() ==> o2[q] == o1[q],
    ensures
        window_offsets_ok(o2, ws, i, m),
{
    let s = total_count(ws.take(i));
    let cm = ws[i].competitors;
    let n = cm.len() as int;
    let bl = bottom_len(cm);
    let tl = top_len(cm);
    lemma_anchor_len_bounds(cm);
    lemma_prefix_count_mono(ws, i, i + 1);
    crate::types::lemma_all_comps_push(ws.take(i), ws[i]);
    assert(ws.take(i + 1) =~= ws.take(i).push(ws[i]));
    assert(s + n == total_count(ws.take(i + 1)));
    assert forall|k: int| 0 <= k < n - tl - 1 implies (#[trigger] o2[s + k]).offset <= o2[s + k
        + 1].offset by {
        assert(o2[s + k] == o1[s + k]);
        assert(o2[s + k + 1] == o1[s + k + 1]);
        assert(o1[s + k].offset <= o1[s + k + 1].offset);
    }
    assert forall|k: int| bl + 1 <= k < n - tl implies (#[trigger] o2[s + k]).offset - o2[s + k
        - 1].offset >= m by {
        assert(o2[s + k] == o1[s + k]);
        assert(o2[s + k - 1] == o1[s + k - 1]);
        assert(o1[s + k].offset - o1[s + k - 1].offset >= m);
    }
    if bl > 0 && n - tl > bl {
        assert(o2[s + bl] == o1[s + bl]);
        assert(o2[s + (bl - 1)] == o1[s + (bl - 1)]);
    }
    assert forall|k: int| 0 <= k < n - tl implies (#[trigger] o2[s + k]).offset >= dur_sum(
        ws,
        i,
    ) by {
        assert(o2[s + k] == o1[s + k]);
        assert(o1[s + k].offset >= dur_sum(ws, i));
    }
}

/// Converts the stabilized window sequence into the full assignment, one
/// window at a time in time order. The output carries every competitor exactly
/// once, in window order; within every window's slice, offsets grow up to the
/// top-anchored suffix, unanchored gaps respect the minimum spacing, and no
/// offset before the top-anchored suffix precedes the window's start boundary.
/// When the first window opens with a bottom-anchored or unanchored
/// competitor, the whole event starts at offset zero.
#[verifier::loop_isolation(false)]
#[verifier::rlimit(100)]
pub fn smart_offset_assignments(
    windows: Vec<Window>,
    spacing_threshold: i64,
    min_spacing: i64,
    rng: &mut rand::rngs::StdRng,
) -> (r: Vec<CompetitorWithOffset>)
    requires
        windows_ok(windows_view(windows@)),
        all_partitioned(windows_view(windows@)),
        0 <= spacing_threshold <= LIM as i64,
        0 <= min_spacing <= LIM as i64,
    ensures
        r@.len() == total_count(windows_view(windows@)),
        assigned_comps(assigned_view(r@)) == all_comps(windows_view(windows@)),
        forall|i: int|
            0 <= i < windows_view(windows@).len() ==> #[trigger] window_offsets_ok(
                assigned_view(r@),
                windows_view(windows@),
                i,
                min_spacing as int,
            ),
        ({
            let ws = windows_view(windows@);
            ws.len() >= 1 && ws[0].competitors.len() - top_len(ws[0].competitors) > 0
                ==> assigned_view(r@)[0].offset == 0
        }),
{
    let ghost ws0 = windows_view(windows@);
    let mut windows = windows;
    let mut out: Vec<CompetitorWithOffset> = Vec::new();
    let mut curr_start: i64 = 0;
    let mut windows_curr_start: i64 = 0;
    let mut i: usize = 0;
    proof {
        assert(windows_view(windows@) =~= ws0.skip(0));
        assert(all_comps(ws0.take(0)) =~= Seq::<CompetitorModel>::empty());
        assert(assigned_comps(assigned_view(out@)) =~= all_comps(ws0.take(0)));
    }
    while windows.len() > 0
        invariant
            windows_view(windows@) =~= ws0.skip(i as int),
            i as int + windows@.len() == ws0.len(),
            assigned_comps(assigned_view(out@)) =~= all_comps(ws0.take(i as int)),
            out@.len() == total_count(ws0.take(i as int)),
            0 <= windows_curr_start,
            windows_curr_start as int <= (i as int) * (LIM as int),
            0 <= curr_start,
            curr_start as int <= 0x100_0000_0000 + (i as int) * 3 * (LIM as int) + 2 * ((
            out@.len() as int) * (LIM as int)),
            windows_curr_start as int == dur_sum(ws0, i as int),
            i == 0 ==> curr_start == 0,
            forall|ii: int|
                0 <= ii < i ==> #[trigger] window_offsets_ok(
                    assigned_view(out@),
                    ws0,
                    ii,
                    min_spacing as int,
                ),
            i >= 1 && ws0.len() >= 1 && ws0[0].competitors.len() - top_len(ws0[0].competitors)
                > 0 ==> assigned_view(out@)[0].offset == 0,
        decreases windows@.len(),
    {
        let ghost pre = windows@;
        let w = windows.remove(0);
        proof {
            assert(windows_view(pre)[0] == pre[0]@);
            assert(windows_view(pre)[0] == ws0.skip(i as int)[0]);
            assert(w@ == ws0[i as int]);
            assert forall|x: int| 0 <= x < windows@.len() implies windows_view(windows@)[x]
                == ws0.skip(i as int + 1)[x] by {
                assert(windows@[x] == pre[x + 1]);
                assert(windows_view(pre)[x + 1] == pre[x + 1]@);
                assert(windows_view(pre)[x + 1] == ws0.skip(i as int)[x + 1]);
            }
            assert(windows_view(windows@) =~= ws0.skip(i as int + 1));
            lemma_all_comps_split(ws0.take(i as int + 1), i as int);
            assert(ws0.take(i as int + 1).take(i as int) =~= ws0.take(i as int));
            assert(ws0.take(i as int + 1).skip(i as int) =~= seq![ws0[i as int]]);
            assert(all_comps(seq![ws0[i as int]]) == ws0[i as int].competitors + all_comps(
                seq![ws0[i as int]].drop_first(),
            ));
            assert(seq![ws0[i as int]].drop_first() =~= Seq::<crate::types::WindowModel>::empty());
            assert(all_comps(ws0.take(i as int + 1)) == all_comps(ws0.take(i as int)) + (ws0[
                i as int].competitors + Seq::<CompetitorModel>::empty()));
            assert(ws0[i as int].competitors + Seq::<CompetitorModel>::empty() =~= ws0[
                i as int].competitors);
            lemma_window_count_le_total_prefix(ws0, i as int);
        }
        let d = w.duration;
        if w.competitors.len() > 0 {
            if curr_start < windows_curr_start {
                curr_start = windows_curr_start;
            }
            let ghost out_pre = out@;
            let ghost cs_in = curr_start as int;
            proof {
                assert(crate::types::window_ok(w@));
                assert(crate::types::partitioned(w@.competitors));
            }
            curr_start = assign_window(
                &mut out,
                w,
                spacing_threshold,
                min_spacing,
                curr_start,
                windows_curr_start,
                rng,
            );
            proof {
                let cm = ws0[i as int].competitors;
                assert forall|k: int| 0 <= k < out@.len() implies #[trigger] assigned_comps(
                    assigned_view(out@),
                )[k] == all_comps(ws0.take(i as int + 1))[k] by {
                    if k < out_pre.len() {
                        assert(out@[k] == out_pre[k]);
                        assert(assigned_comps(assigned_view(out_pre))[k] == all_comps(ws0.take(
                            i as int,
                        ))[k]);
                    } else {
                        assert(assigned_view(out@)[out_pre.len() + (k - out_pre.len() as int)].competitor
                            == cm[k - out_pre.len() as int]);
                    }
                }
                assert(assigned_comps(assigned_view(out@)) =~= all_comps(ws0.take(i as int + 1)));
                let m_g = min_spacing as int;
                let o2 = assigned_view(out@);
                let nloc = cm.len() as int;
                let bl = bottom_len(cm);
                let tl = top_len(cm);
                let sloc = total_count(ws0.take(i as int));
                lemma_anchor_len_bounds(cm);
                crate::types::lemma_all_comps_push(ws0.take(i as int), ws0[i as int]);
                assert(ws0.take(i as int + 1) =~= ws0.take(i as int).push(ws0[i as int]));
                assert(sloc + nloc == total_count(ws0.take(i as int + 1)));
                assert(sloc == out_pre.len() as int);
                assert forall|ii: int| 0 <= ii < i + 1 implies #[trigger] window_offsets_ok(
                    o2,
                    ws0,
                    ii,
                    m_g,
                ) by {
                    if ii < i {
                        lemma_prefix_count_mono(ws0, ii + 1, i as int);
                        lemma_window_offsets_ok_prefix(
                            assigned_view(out_pre),
                            o2,
                            ws0,
                            ii,
                            m_g,
                        );
                    } else {
                        assert(window_offsets_ok(o2, ws0, i as int, m_g)) by {
                            assert(dur_sum(ws0, i as int) == windows_curr_start as int);
                            if nloc - tl >= 1 {
                                assert(o2[sloc].offset >= windows_curr_start as int) by {
                                    if bl > 0 {
                                        assert(o2[sloc + 0].offset == cs_in);
                                    } else {
                                        assert(o2[sloc].offset == cs_in);
                                    }
                                }
                                lemma_monotone_ge(
                                    o2,
                                    sloc,
                                    nloc - tl,
                                    dur_sum(ws0, i as int),
                                );
                            }
                        }
                    }
                }
                if i == 0 && nloc - tl > 0 {
                    assert(assigned_view(out@)[0].offset == 0) by {
                        assert(cs_in == 0);
                        if bl > 0 {
                            assert(o2[sloc + 0].offset == cs_in);
                        } else {
                            assert(o2[sloc].offset == cs_in);
                        }
                    }
                }
            }
        } else {
            proof {
                assert(ws0[i as int].competitors =~= Seq::<CompetitorModel>::empty());
                assert(all_comps(ws0.take(i as int + 1)) =~= all_comps(ws0.take(i as int)));
                let m_g = min_spacing as int;
                let cm = ws0[i as int].competitors;
                lemma_anchor_len_bounds(cm);
                assert(window_offsets_ok(assigned_view(out@), ws0, i as int, m_g));
                assert forall|ii: int| 0 <= ii < i + 1 implies #[trigger] window_offsets_ok(
                    assigned_view(out@),
                    ws0,
                    ii,
                    m_g,
                ) by {}
            }
        }
        windows_curr_start = windows_curr_start + d;
        i = i + 1;
    }
    proof {
        assert(ws0.take(ws0.len() as int) =~= ws0);
    }
    out
}

/// How many competitors the first windows hold together: never more than the
/// whole event's total.
pub(crate) proof fn lemma_window_count_le_total_prefix(ws: Seq<crate::types::WindowModel>, k: int)
    requires
        0 <= k < ws.len(),
        total_count(ws) <= LIM as int,
    ensures
        total_count(ws.take(k)) + ws[k].competitors.len() <= LIM as int,
        total_count(ws.take(k)) >= 0,
{
    crate::types::lemma_all_comps_decompose(ws, k);
}

/// Sorts an assignment by offset, ascending: repeatedly extracts the earliest
/// remaining start. The multiset of entries — and so of competitor names — is
/// unchanged.
#[verifier::loop_isolation(false)]
pub fn sort_by_offset(v: Vec<CompetitorWithOffset>) -> (r: Vec<CompetitorWithOffset>)
    ensures
        r@.len() == v@.len(),
        assigned_view(r@).to_multiset() == assigned_view(v@).to_multiset(),
        assigned_names(assigned_view(r@)).to_multiset() == assigned_names(
            assigned_view(v@),
        ).to_multiset(),
        sorted_by_offset(assigned_view(r@)),
{
    broadcast use vstd::multiset::group_multiset_axioms;
    broadcast use vstd::multiset::lemma_multiset_empty_len;
    broadcast use vstd::seq_lib::to_multiset_len;

    let mut rest = v;
    let mut out: Vec<CompetitorWithOffset> = Vec::new();
    proof {
        assert(assigned_view(out@).len() == 0);
        assert(assigned_names(assigned_view(out@)).len() == 0);
        assert(assigned_view(out@).to_multiset().len() == 0);
        assert(assigned_names(assigned_view(out@)).to_multiset().len() == 0);
        assert(assigned_view(out@).to_multiset() =~= Multiset::<
            crate::types::AssignedModel,
        >::empty());
        assert(assigned_names(assigned_view(out@)).to_multiset() =~= Multiset::<
            Seq<char>,
        >::empty());
        assert(assigned_view(out@).to_multiset().add(assigned_view(rest@).to_multiset())
            =~= assigned_view(v@).to_multiset());
        assert(assigned_names(assigned_view(out@)).to_multiset().add(
            assigned_names(assigned_view(rest@)).to_multiset(),
        ) =~= assigned_names(assigned_view(v@)).to_multiset());
    }
    while rest.len() > 0
        invariant
            out@.len() + rest@.len() == v@.len(),
            assigned_view(out@).to_multiset().add(assigned_view(rest@).to_multiset())
                == assigned_view(v@).to_multiset(),
            assigned_names(assigned_view(out@)).to_multiset().add(
                assigned_names(assigned_view(rest@)).to_multiset(),
            ) == assigned_names(assigned_view(v@)).to_multiset(),
            sorted_by_offset(assigned_view(out@)),
            forall|a: int, b: int|
                0 <= a < out@.len() && 0 <= b < rest@.len() ==> (#[trigger] assigned_view(out@)[
                a]).offset <= (#[trigger] assigned_view(rest@)[b]).offset,
        decreases rest@.len(),
    {
        let mut mi: usize = 0;
        let mut k: usize = 1;
        while k < rest.len()
            invariant
                mi < k <= rest@.len(),
                rest@.len() >= 1,
                forall|j: int|
                    0 <= j < k ==> (#[trigger] assigned_view(rest@)[mi as int]).offset
                        <= assigned_view(rest@)[j].offset,
            decreases rest@.len() - k,
        {
            if rest[k].offset < rest[mi].offset {
                mi = k;
            }
            k = k + 1;
        }
        let ghost pr = rest@;
        let ghost po = out@;
        let ghost picked = rest@[mi as int]@;
        let c = rest.remove(mi);
        out.push(c);
        proof {
            assert forall|x: int| 0 <= x < rest@.len() implies assigned_view(rest@)[x]
                == assigned_view(pr).remove(mi as int)[x] by {
                if x < mi {
                    assert(rest@[x] == pr[x]);
                    assert(assigned_view(pr)[x] == pr[x]@);
                } else {
                    assert(rest@[x] == pr[x + 1]);
                    assert(assigned_view(pr)[x + 1] == pr[x + 1]@);
                }
            }
            assert(assigned_view(rest@) =~= assigned_view(pr).remove(mi as int));
            vstd::seq_lib::to_multiset_remove(assigned_view(pr), mi as int);
            assert(assigned_view(out@) =~= assigned_view(po).push(picked));
            vstd::seq_lib::to_multiset_build(assigned_view(po), picked);
            assert(assigned_view(pr).to_multiset().count(picked) >= 1) by {
                vstd::seq_lib::to_multiset_contains(assigned_view(pr), picked);
                assert(assigned_view(pr)[mi as int] == picked);
                assert(assigned_view(pr).contains(picked));
            }
            lemma_multiset_transfer(
                assigned_view(po).to_multiset(),
                assigned_view(pr).to_multiset(),
                picked,
            );
            let pn = assigned_names(assigned_view(pr));
            assert forall|x: int| 0 <= x < rest@.len() implies assigned_names(assigned_view(rest@))[
                x] == pn.remove(mi as int)[x] by {
                assert(assigned_view(rest@)[x] == assigned_view(pr).remove(mi as int)[x]);
            }
            assert(assigned_names(assigned_view(rest@)) =~= pn.remove(mi as int));
            vstd::seq_lib::to_multiset_remove(pn, mi as int);
            assert(assigned_names(assigned_view(out@)) =~= assigned_names(
                assigned_view(po),
            ).push(picked.competitor.name));
            vstd::seq_lib::to_multiset_build(
                assigned_names(assigned_view(po)),
                picked.competitor.name,
            );
            assert(pn.to_multiset().count(picked.competitor.name) >= 1) by {
                vstd::seq_lib::to_multiset_contains(pn, picked.competitor.name);
                assert(pn[mi as int] == picked.competitor.name);
                assert(pn.contains(picked.competitor.name));
            }
            lemma_multiset_transfer(
                assigned_names(assigned_view(po)).to_multiset(),
                pn.to_multiset(),
                picked.competitor.name,
            );
        }
    }
    proof {
        assert(assigned_view(rest@).to_multiset().len() == 0);
        assert(assigned_names(assigned_view(rest@)).to_multiset().len() == 0);
        assert(assigned_view(out@).to_multiset() =~= assigned_view(v@).to_multiset());
        assert(assigned_names(assigned_view(out@)).to_multiset() =~= assigned_names(
            assigned_view(v@),
        ).to_multiset());
    }
    out
}

} // verus!
