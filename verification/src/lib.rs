//! Start-list generation: competitors grouped into consecutive fixed-duration
//! windows are shuffled, rebalanced across window boundaries until per-window
//! spacing is comfortable, and then assigned concrete, ordered start offsets.

pub mod assign;
pub mod rng;
pub mod spacing;
pub mod stabilize;
pub mod types;

use vstd::prelude::*;
use crate::assign::smart_offset_assignments;
use crate::assign::sort_by_offset;
use crate::rng::shuffle_competitors;
use crate::stabilize::origins_bounded;
use crate::stabilize::stabilize_windows;
use crate::types::CompetitorWithOffset;
use crate::types::Window;
use crate::types::LIM;
use crate::types::all_comps;
use crate::types::all_unanchored;
use crate::types::assigned_names;
use crate::types::assigned_view;
use crate::types::comps_view;
use crate::types::event_names;
use crate::types::lemma_all_comps_push;
use crate::types::lemma_names_of_add;
use crate::types::lemma_same_multiset_all_zero;
use crate::types::names_of;
use crate::types::rank;
use crate::types::sorted_by_offset;
use crate::types::total_count;
use crate::types::window_ok;
use crate::types::windows_ok;
use crate::types::windows_view;

verus! {

/// Generates the start list. Each window's competitors are shuffled; windows
/// at or below the spacing threshold shed competitors to their neighbors until
/// every window's spacing clears the threshold or no move improves the layout;
/// every competitor then receives a start offset, and the result is sorted by
/// offset. Every competitor of the input appears exactly once in the result;
/// an event without competitors yields an empty result.
#[verifier::loop_isolation(false)]
#[verifier::rlimit(100)]
pub fn generate_startlist(
    windows: Vec<Window>,
    spacing_threshold: i64,
    min_spacing: i64,
    rng: &mut rand::rngs::StdRng,
) -> (r: Vec<CompetitorWithOffset>)
    requires
        windows_ok(windows_view(windows@)),
        all_unanchored(windows_view(windows@)),
        0 <= spacing_threshold <= LIM as i64,
        0 <= min_spacing <= LIM as i64,
    ensures
        r@.len() == total_count(windows_view(windows@)),
        assigned_names(assigned_view(r@)).to_multiset() == event_names(windows_view(windows@)),
        sorted_by_offset(assigned_view(r@)),
        windows@.len() <= 1 ==> forall|k: int|
            0 <= k < r@.len() ==> (#[trigger] assigned_view(r@)[k]).offset >= 0,
        windows@.len() == 1 && total_count(windows_view(windows@)) > 0 ==> r@.len() > 0
            && assigned_view(r@)[0].offset == 0,
{
    broadcast use vstd::multiset::group_multiset_axioms;
    broadcast use vstd::multiset::lemma_multiset_empty_len;
    broadcast use vstd::seq_lib::to_multiset_len;
    broadcast use vstd::seq_lib::lemma_multiset_commutative;

    let ghost ws0 = windows_view(windows@);
    let mut windows = windows;
    let mut shuffled: Vec<Window> = Vec::new();
    let mut count: usize = 0;
    let mut i: usize = 0;
    proof {
        assert(windows_view(windows@) =~= ws0.skip(0));
        assert(windows_view(shuffled@) =~= ws0.take(0));
    }
    while windows.len() > 0
        invariant
            windows_view(windows@) =~= ws0.skip(i as int),
            i as int + windows@.len() == ws0.len(),
            shuffled@.len() == i as int,
            forall|k: int|
                0 <= k < i ==> (#[trigger] windows_view(shuffled@)[k]).duration == ws0[k].duration
                    && windows_view(shuffled@)[k].competitors.len() == ws0[k].competitors.len(),
            event_names(windows_view(shuffled@)) == event_names(ws0.take(i as int)),
            total_count(windows_view(shuffled@)) == total_count(ws0.take(i as int)),
            all_unanchored(windows_view(shuffled@)),
            count as int == total_count(windows_view(shuffled@)),
            count as int <= LIM as int,
        decreases windows@.len(),
    {
        let ghost pre = windows@;
        let mut w = windows.remove(0);
        proof {
            assert(windows_view(pre)[0] == pre[0]@);
            assert(windows_view(pre)[0] == ws0.skip(i as int)[0]);
            assert(w@ == ws0[i as int]);
            assert forall|x: int| 0 <= x < windows@.len() implies windows_view(windows@)[x]
                == ws0.skip(i as int + 1)[x] by {
                assert(windows@[x] == pre[x + 1]);
                assert(windows_view(pre)[x + 1] == pre[x + 1]@);
                assert(windows_view(pre)[x + 1] == ws0.skip(i as int)[x + 1]);
            }
            assert(windows_view(windows@) =~= ws0.skip(i as int + 1));
            crate::assign::lemma_window_count_le_total_prefix(ws0, i as int);
        }
        shuffle_competitors(&mut w.competitors, rng);
        proof {
            assert(forall|j: int|
                0 <= j < ws0[i as int].competitors.len() ==> (#[trigger] ws0[
                i as int].competitors[j]).origin == 0);
            lemma_same_multiset_all_zero(ws0[i as int].competitors, comps_view(w.competitors@));
        }
        count = count + w.competitors.len();
        let ghost sh_pre = windows_view(shuffled@);
        let ghost wm = w@;
        shuffled.push(w);
        proof {
            assert(windows_view(shuffled@) =~= sh_pre.push(wm));
            lemma_all_comps_push(sh_pre, wm);
            lemma_names_of_add(all_comps(sh_pre), wm.competitors);
            assert(ws0.take(i as int + 1) =~= ws0.take(i as int).push(ws0[i as int]));
            lemma_all_comps_push(ws0.take(i as int), ws0[i as int]);
            lemma_names_of_add(all_comps(ws0.take(i as int)), ws0[i as int].competitors);
            assert(event_names(windows_view(shuffled@)) =~= event_names(ws0.take(i as int + 1)))
                by {
                assert(names_of(all_comps(sh_pre) + wm.competitors).to_multiset() == names_of(
                    all_comps(sh_pre),
                ).to_multiset().add(names_of(wm.competitors).to_multiset()));
                assert(names_of(all_comps(ws0.take(i as int)) + ws0[
                    i as int].competitors).to_multiset() == names_of(
                    all_comps(ws0.take(i as int)),
                ).to_multiset().add(names_of(ws0[i as int].competitors).to_multiset()));
            }
            assert forall|x: int, j: int|
                0 <= x < windows_view(shuffled@).len() && 0 <= j < windows_view(shuffled@)[
                x].competitors.len() implies (#[trigger] windows_view(shuffled@)[x].competitors[
            j]).origin == 0 by {
                if x < i {
                    assert(windows_view(shuffled@)[x] == sh_pre[x]);
                }
            }
        }
        i = i + 1;
    }
    proof {
        assert(ws0.take(ws0.len() as int) =~= ws0);
        assert forall|k: int| 0 <= k < windows_view(shuffled@).len() implies window_ok(
            #[trigger] windows_view(shuffled@)[k],
        ) by {
            assert(window_ok(ws0[k]));
        }
        assert(windows_ok(windows_view(shuffled@)));
        assert forall|k: int| 0 <= k < windows_view(shuffled@).len() implies
            crate::types::partitioned(#[trigger] windows_view(shuffled@)[k].competitors) by {
            assert(forall|j: int|
                0 <= j < windows_view(shuffled@)[k].competitors.len() ==> rank(
                    #[trigger] windows_view(shuffled@)[k].competitors[j],
                ) == 1);
        }
        assert(origins_bounded(windows_view(shuffled@), LIM as int));
    }
    if count == 0 {
        let r: Vec<CompetitorWithOffset> = Vec::new();
        proof {
            assert(event_names(ws0).len() == 0);
            assert(assigned_names(assigned_view(r@)).to_multiset().len() == 0);
            assert(assigned_names(assigned_view(r@)).to_multiset() =~= event_names(ws0));
        }
        return r;
    }
    let ghost wsb = windows_view(shuffled@);
    let _ = stabilize_windows(&mut shuffled, spacing_threshold);
    let ghost wsa = windows_view(shuffled@);
    let assigned = smart_offset_assignments(shuffled, spacing_threshold, min_spacing, rng);
    proof {
        assert(assigned_names(assigned_view(assigned@)) =~= names_of(all_comps(wsa)));
        assert(assigned_names(assigned_view(assigned@)).to_multiset() == event_names(ws0));
        assert(assigned@.len() == total_count(ws0));
    }
    let ghost pre_sort = assigned_view(assigned@);
    let r = sort_by_offset(assigned);
    proof {
        if ws0.len() == 1 {
            assert(wsa == wsb);
            let cm = wsa[0].competitors;
            assert(all_comps(wsa) =~= cm) by {
                assert(all_comps(wsa) == wsa[0].competitors + all_comps(wsa.drop_first()));
                assert(wsa.drop_first() =~= Seq::<crate::types::WindowModel>::empty());
            }
            assert(cm.len() > 0);
            assert(rank(cm[0]) == 1);
            assert(rank(cm.last()) == 1);
            assert(crate::assign::bottom_len(cm) == 0);
            assert(crate::assign::top_len(cm) == 0);
            assert(crate::assign::window_offsets_ok(pre_sort, wsa, 0, min_spacing as int));
            assert(total_count(wsa.take(0)) == 0) by {
                assert(wsa.take(0) =~= Seq::<crate::types::WindowModel>::empty());
            }
            assert(crate::assign::dur_sum(wsa, 0) == 0);
            assert forall|k: int| 0 <= k < pre_sort.len() implies (#[trigger] pre_sort[k]).offset
                >= 0 by {
                assert(pre_sort[0 + k].offset >= crate::assign::dur_sum(wsa, 0));
            }
            crate::types::lemma_same_multiset_offsets_ge(pre_sort, assigned_view(r@), 0);
            assert(pre_sort[0].offset == 0);
            let e = pre_sort[0];
            assert(pre_sort.contains(e));
            vstd::seq_lib::to_multiset_contains(pre_sort, e);
            vstd::seq_lib::to_multiset_contains(assigned_view(r@), e);
            assert(assigned_view(r@).contains(e));
            let idx = choose|idx: int|
                0 <= idx < assigned_view(r@).len() && assigned_view(r@)[idx] == e;
            assert(assigned_view(r@)[0].offset <= assigned_view(r@)[idx].offset);
            assert(assigned_view(r@)[0].offset == 0);
        }
    }
    r
}

} // verus!
