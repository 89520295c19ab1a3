//! Migration of competitors across window boundaries, and the stabilization
//! loop that keeps migrating until every window's spacing clears the threshold
//! or no move improves the layout.

use vstd::prelude::*;
use crate::types::Competitor;
use crate::types::CompetitorModel;
use crate::types::Window;
use crate::types::LIM;
use crate::types::all_partitioned;
use crate::types::comps_view;
use crate::types::event_names;
use crate::types::lemma_event_two_window_change;
use crate::types::lemma_window_count_le_total;
use crate::types::names_of;
use crate::types::partitioned;
use crate::types::rank;
use crate::types::total_count;
use crate::types::window_ok;
use crate::types::windows_ok;
use crate::types::windows_view;
use crate::spacing::abs_frac_le;
use crate::spacing::all_spacings_exceed;
use crate::spacing::spacing_at_most;
use crate::spacing::abs_frac_le_exec;
use crate::spacing::abs_frac_eq_exec;
use crate::spacing::calculate_max_diff;
use crate::spacing::candidate_pair;
use crate::spacing::diff_den;
use crate::spacing::diff_num;
use crate::spacing::frac_lt_exec;
use crate::spacing::iabs;
use crate::spacing::lemma_frac_le_trans;
use crate::spacing::lemma_no_candidate_all_above;
use crate::spacing::lemma_mul_le;
use crate::spacing::sp_den;
use crate::spacing::sp_num;

verus! {

/// How far a competitor's anchor tag may move from zero: ample headroom for
/// every increment the bounded stabilization loop can make.
pub open spec fn origins_bounded(ws: Seq<crate::types::WindowModel>, b: int) -> bool {
    forall|i: int, j: int|
        0 <= i < ws.len() && 0 <= j < ws[i].competitors.len() ==> iabs(
            (#[trigger] ws[i].competitors[j]).origin,
        ) <= b
}

fn comp_rank(c: &Competitor) -> (r: u8)
    ensures
        r as int == rank(c@),
{
    if c.origin < 0 {
        0
    } else if c.origin == 0 {
        1
    } else {
        2
    }
}

proof fn lemma_insert_partitioned(s: Seq<CompetitorModel>, p: int, c: CompetitorModel)
    requires
        partitioned(s),
        0 <= p <= s.len(),
        forall|j: int| 0 <= j < p ==> rank(#[trigger] s[j]) <= rank(c),
        forall|j: int| p <= j < s.len() ==> rank(#[trigger] s[j]) >= rank(c),
    ensures
        partitioned(s.insert(p, c)),
{
    let s2 = s.insert(p, c);
    s.insert_ensures(p, c);
    assert forall|a: int, b: int| 0 <= a < b < s2.len() implies rank(s2[a]) <= rank(s2[b]) by {
        if a < p && b < p {
        } else if a < p && b == p {
        } else if a < p && b > p {
            assert(rank(s[a]) <= rank(c));
            assert(rank(s[b - 1]) >= rank(c));
        } else if a == p {
            assert(rank(s[b - 1]) >= rank(c));
        } else {
        }
    }
}

/// Inserts an arriving competitor at the back of the run of competitors of its
/// own anchor rank, keeping the window partitioned.
fn insert_anchored_back(cs: &mut Vec<Competitor>, c: Competitor) -> (r: usize)
    requires
        partitioned(comps_view(old(cs)@)),
    ensures
        final(cs)@.len() == old(cs)@.len() + 1,
        partitioned(comps_view(final(cs)@)),
        r <= old(cs)@.len(),
        comps_view(final(cs)@) == comps_view(old(cs)@).insert(r as int, c@),
        forall|j: int| 0 <= j < r ==> rank(#[trigger] comps_view(old(cs)@)[j]) <= rank(c@),
        forall|j: int|
            r <= j < old(cs)@.len() ==> rank(#[trigger] comps_view(old(cs)@)[j]) > rank(c@),
{
    let ghost s = comps_view(cs@);
    let rc = comp_rank(&c);
    let mut p: usize = 0;
    while p < cs.len() && comp_rank(&cs[p]) <= rc
        invariant
            s == comps_view(cs@),
            partitioned(s),
            rc as int == rank(c@),
            p <= cs@.len(),
            forall|j: int| 0 <= j < p ==> rank(#[trigger] s[j]) <= rank(c@),
        decreases cs@.len() - p,
    {
        p = p + 1;
    }
    proof {
        assert forall|j: int| p <= j < s.len() implies rank(#[trigger] s[j]) > rank(c@) by {
            assert(rank(s[p as int]) > rank(c@));
            assert(rank(s[p as int]) <= rank(s[j]));
        }
        lemma_insert_partitioned(s, p as int, c@);
    }
    cs.insert(p, c);
    proof {
        assert(comps_view(cs@) =~= s.insert(p as int, c@));
    }
    p
}

/// Inserts an arriving competitor at the front of the run of competitors of
/// its own anchor rank, keeping the window partitioned.
fn insert_anchored_front(cs: &mut Vec<Competitor>, c: Competitor) -> (r: usize)
    requires
        partitioned(comps_view(old(cs)@)),
    ensures
        final(cs)@.len() == old(cs)@.len() + 1,
        partitioned(comps_view(final(cs)@)),
        r <= old(cs)@.len(),
        comps_view(final(cs)@) == comps_view(old(cs)@).insert(r as int, c@),
        forall|j: int| 0 <= j < r ==> rank(#[trigger] comps_view(old(cs)@)[j]) < rank(c@),
        forall|j: int|
            r <= j < old(cs)@.len() ==> rank(#[trigger] comps_view(old(cs)@)[j]) >= rank(c@),
{
    let ghost s = comps_view(cs@);
    let rc = comp_rank(&c);
    let mut p: usize = 0;
    while p < cs.len() && comp_rank(&cs[p]) < rc
        invariant
            s == comps_view(cs@),
            partitioned(s),
            rc as int == rank(c@),
            p <= cs@.len(),
            forall|j: int| 0 <= j < p ==> rank(#[trigger] s[j]) < rank(c@),
        decreases cs@.len() - p,
    {
        p = p + 1;
    }
    proof {
        assert forall|j: int| p <= j < s.len() implies rank(#[trigger] s[j]) >= rank(c@) by {
            assert(rank(s[p as int]) >= rank(c@));
            assert(rank(s[p as int]) <= rank(s[j]));
        }
        lemma_insert_partitioned(s, p as int, c@);
    }
    cs.insert(p, c);
    proof {
        assert(comps_view(cs@) =~= s.insert(p as int, c@));
    }
    p
}

/// What migration does to the moved competitor: one step toward the boundary
/// it crossed, pinning it to the matching edge of its new window.
pub open spec fn shifted(c: CompetitorModel, delta: int) -> CompetitorModel {
    CompetitorModel { origin: c.origin + delta, name: c.name }
}

/// Moves the first competitor of window `i` to window `i - 1`, recording in
/// its anchor tag that it is now pinned to the top edge of its new window, and
/// placing it at the back of the competitors of its rank.
#[verifier::rlimit(100)]
pub fn move_to_prev_window(windows: &mut Vec<Window>, i: usize)
    requires
        1 <= i < old(windows)@.len(),
        windows_view(old(windows)@)[i as int].competitors.len() >= 1,
        all_partitioned(windows_view(old(windows)@)),
        windows_ok(windows_view(old(windows)@)),
        iabs(windows_view(old(windows)@)[i as int].competitors[0].origin) < LIM as int * LIM as int,
    ensures
        ({
            let ws = windows_view(old(windows)@);
            let ws2 = windows_view(final(windows)@);
            let moved = shifted(ws[i as int].competitors[0], 1);
            &&& ws2.len() == ws.len()
            &&& forall|k: int| 0 <= k < ws.len() && k != i && k != i - 1 ==> ws2[k] == ws[k]
            &&& ws2[i as int].duration == ws[i as int].duration
            &&& ws2[i as int].competitors == ws[i as int].competitors.remove(0)
            &&& ws2[i - 1].duration == ws[i - 1].duration
            &&& exists|p: int|
                #![trigger ws[i - 1].competitors.insert(p, moved)]
                0 <= p <= ws[i - 1].competitors.len() && ws2[i - 1].competitors == ws[i
                    - 1].competitors.insert(p, moved) && (forall|j: int|
                    0 <= j < p ==> rank(#[trigger] ws[i - 1].competitors[j]) <= rank(moved)) && (
                forall|j: int|
                    p <= j < ws[i - 1].competitors.len() ==> rank(
                        #[trigger] ws[i - 1].competitors[j],
                    ) > rank(moved))
            &&& all_partitioned(ws2)
            &&& event_names(ws2) == event_names(ws)
            &&& total_count(ws2) == total_count(ws)
            &&& windows_ok(ws2)
            &&& forall|b: int|
                #[trigger] origins_bounded(ws, b) && b >= 0 ==> origins_bounded(ws2, b + 1)
        }),
{
    let ghost w0 = windows@;
    let ghost ws = windows_view(windows@);
    let mut src = windows.remove(i);
    let mut c = src.competitors.remove(0);
    assert(c@ == ws[i as int].competitors[0]);
    c.origin = c.origin + 1;
    windows.insert(i, src);
    assert(windows@ =~= w0.update(i as int, windows@[i as int]));
    let ghost w1 = windows@;
    let mut dst = windows.remove(i - 1);
    let ghost moved = shifted(ws[i as int].competitors[0], 1);
    assert(c@ == moved);
    proof {
        assert(dst == w1[i - 1]);
        assert(w1[i - 1] == w0[i - 1]);
        assert(partitioned(ws[i - 1].competitors));
        assert(comps_view(dst.competitors@) == ws[i - 1].competitors);
    }
    let p = insert_anchored_back(&mut dst.competitors, c);
    windows.insert(i - 1, dst);
    assert(windows@ =~= w1.update(i - 1, windows@[i - 1]));
    proof {
        let ws2 = windows_view(windows@);
        assert(ws2[i as int].competitors =~= ws[i as int].competitors.remove(0));
        assert(forall|k: int| 0 <= k < ws.len() && k != i && k != i - 1 ==> ws2[k] == ws[k]);
        assert(ws2[i - 1].competitors =~= ws[i - 1].competitors.insert(p as int, moved));
        lemma_move_bookkeeping(ws, ws2, i as int, i - 1 as int, p as int, 0, moved);
    }
}

/// Moves the last competitor of window `i` to window `i + 1`, recording in its
/// anchor tag that it is now pinned to the bottom edge of its new window, and
/// placing it at the front of the competitors of its rank.
#[verifier::rlimit(100)]
pub fn move_to_next_window(windows: &mut Vec<Window>, i: usize)
    requires
        i + 1 < old(windows)@.len(),
        windows_view(old(windows)@)[i as int].competitors.len() >= 1,
        all_partitioned(windows_view(old(windows)@)),
        windows_ok(windows_view(old(windows)@)),
        iabs(
            windows_view(old(windows)@)[i as int].competitors.last().origin,
        ) < LIM as int * LIM as int,
    ensures
        ({
            let ws = windows_view(old(windows)@);
            let ws2 = windows_view(final(windows)@);
            let moved = shifted(ws[i as int].competitors.last(), -1);
            &&& ws2.len() == ws.len()
            &&& forall|k: int| 0 <= k < ws.len() && k != i && k != i + 1 ==> ws2[k] == ws[k]
            &&& ws2[i as int].duration == ws[i as int].duration
            &&& ws2[i as int].competitors == ws[i as int].competitors.drop_last()
            &&& ws2[i + 1].duration == ws[i + 1].duration
            &&& exists|p: int|
                #![trigger ws[i + 1].competitors.insert(p, moved)]
                0 <= p <= ws[i + 1].competitors.len() && ws2[i + 1].competitors == ws[i
                    + 1].competitors.insert(p, moved) && (forall|j: int|
                    0 <= j < p ==> rank(#[trigger] ws[i + 1].competitors[j]) < rank(moved)) && (
                forall|j: int|
                    p <= j < ws[i + 1].competitors.len() ==> rank(
                        #[trigger] ws[i + 1].competitors[j],
                    ) >= rank(moved))
            &&& all_partitioned(ws2)
            &&& event_names(ws2) == event_names(ws)
            &&& total_count(ws2) == total_count(ws)
            &&& windows_ok(ws2)
            &&& forall|b: int|
                #[trigger] origins_bounded(ws, b) && b >= 0 ==> origins_bounded(ws2, b + 1)
        }),
{
    let ghost w0 = windows@;
    let ghost ws = windows_view(windows@);
    let ghost n = ws[i as int].competitors.len() as int;
    let mut src = windows.remove(i);
    let mut c = src.competitors.pop().unwrap();
    assert(c@ == ws[i as int].competitors.last());
    c.origin = c.origin - 1;
    windows.insert(i, src);
    assert(windows@ =~= w0.update(i as int, windows@[i as int]));
    let ghost w1 = windows@;
    let mut dst = windows.remove(i + 1);
    let ghost moved = shifted(ws[i as int].competitors.last(), -1);
    assert(c@ == moved);
    proof {
        assert(dst == w1[i + 1]);
        assert(w1[i + 1] == w0[i + 1]);
        assert(partitioned(ws[i + 1].competitors));
        assert(comps_view(dst.competitors@) == ws[i + 1].competitors);
    }
    let p = insert_anchored_front(&mut dst.competitors, c);
    windows.insert(i + 1, dst);
    assert(windows@ =~= w1.update(i + 1, windows@[i + 1]));
    proof {
        let ws2 = windows_view(windows@);
        assert(ws2[i as int].competitors =~= ws[i as int].competitors.drop_last());
        assert(ws[i as int].competitors.drop_last() =~= ws[i as int].competitors.remove(n - 1));
        assert(forall|k: int| 0 <= k < ws.len() && k != i && k != i + 1 ==> ws2[k] == ws[k]);
        assert(ws2[i + 1].competitors =~= ws[i + 1].competitors.insert(p as int, moved));
        lemma_move_bookkeeping(ws, ws2, i as int, i + 1 as int, p as int, n - 1, moved);
    }
}

/// Shared bookkeeping for both migration directions: a competitor removed from
/// window `s` at index `q` and inserted (with its tag shifted by one) into
/// window `d` preserves the event's names, total, partition and size bounds.
proof fn lemma_move_bookkeeping(
    ws: Seq<crate::types::WindowModel>,
    ws2: Seq<crate::types::WindowModel>,
    s: int,
    d: int,
    p: int,
    q: int,
    moved: CompetitorModel,
)
    requires
        0 <= s < ws.len(),
        0 <= d < ws.len(),
        d == s - 1 || d == s + 1,
        ws2.len() == ws.len(),
        forall|k: int| 0 <= k < ws.len() && k != s && k != d ==> ws2[k] == ws[k],
        0 <= q < ws[s].competitors.len(),
        ws2[s].competitors == ws[s].competitors.remove(q),
        0 <= p <= ws[d].competitors.len(),
        ws2[d].competitors == ws[d].competitors.insert(p, moved),
        moved.name == ws[s].competitors[q].name,
        iabs(moved.origin) <= iabs(ws[s].competitors[q].origin) + 1,
        partitioned(ws2[s].competitors),
        partitioned(ws2[d].competitors),
        all_partitioned(ws),
        windows_ok(ws),
        ws2[s].duration == ws[s].duration,
        ws2[d].duration == ws[d].duration,
    ensures
        all_partitioned(ws2),
        event_names(ws2) == event_names(ws),
        total_count(ws2) == total_count(ws),
        windows_ok(ws2),
        forall|b: int| #[trigger] origins_bounded(ws, b) && b >= 0 ==> origins_bounded(ws2, b + 1),
{
    broadcast use vstd::multiset::group_multiset_axioms;

    let nsrc = names_of(ws[s].competitors);
    let ndst = names_of(ws[d].competitors);
    let n0 = ws[s].competitors[q].name;
    assert(names_of(ws2[s].competitors) =~= nsrc.remove(q));
    assert(names_of(ws2[d].competitors) =~= ndst.insert(p, moved.name));
    vstd::seq_lib::to_multiset_insert(ndst, p, moved.name);
    vstd::seq_lib::to_multiset_remove(nsrc, q);
    assert(nsrc.to_multiset().count(n0) >= 1) by {
        vstd::seq_lib::to_multiset_contains(nsrc, n0);
        assert(nsrc[q] == n0);
        assert(nsrc.contains(n0));
    }
    let lo = if s < d {
        s
    } else {
        d
    };
    let hi = if s < d {
        d
    } else {
        s
    };
    assert(names_of(ws2[lo].competitors).to_multiset().add(
        names_of(ws2[hi].competitors).to_multiset(),
    ) =~= names_of(ws[lo].competitors).to_multiset().add(
        names_of(ws[hi].competitors).to_multiset(),
    ));
    lemma_event_two_window_change(ws, ws2, lo, hi);
    assert forall|k: int| 0 <= k < ws2.len() implies partitioned(#[trigger] ws2[k].competitors) by {
        if k != s && k != d {
            assert(ws2[k] == ws[k]);
            assert(partitioned(ws[k].competitors));
        }
    }
    assert forall|k: int| 0 <= k < ws2.len() implies window_ok(#[trigger] ws2[k]) by {
        assert(window_ok(ws[k]));
        if k == d {
            lemma_window_count_le_total(ws2, d);
        }
    }
    assert forall|b: int| #[trigger] origins_bounded(ws, b) && b >= 0 implies origins_bounded(
        ws2,
        b + 1,
    ) by {
        ws[d].competitors.insert_ensures(p, moved);
        assert forall|x: int, y: int|
            0 <= x < ws2.len() && 0 <= y < ws2[x].competitors.len() implies iabs(
            (#[trigger] ws2[x].competitors[y]).origin,
        ) <= b + 1 by {
            if x == s {
                if y < q {
                    assert(ws2[x].competitors[y] == ws[s].competitors[y]);
                } else {
                    assert(ws2[x].competitors[y] == ws[s].competitors[y + 1]);
                }
                assert(iabs(ws2[x].competitors[y].origin) <= b);
            } else if x == d {
                if y < p {
                    assert(ws2[x].competitors[y] == ws[d].competitors[y]);
                    assert(iabs(ws2[x].competitors[y].origin) <= b);
                } else if y == p {
                    assert(iabs(ws[s].competitors[q].origin) <= b);
                } else {
                    assert(ws2[x].competitors[y] == ws[d].competitors[y - 1]);
                    assert(iabs(ws2[x].competitors[y].origin) <= b);
                }
            } else {
                assert(ws2[x] == ws[x]);
                assert(iabs(ws2[x].competitors[y].origin) <= b);
            }
        }
    }
}

/// What `select_best_pair` promises of a chosen pair: its index, the exact
/// spacing difference as a fraction, its size bounds, and maximality of that
/// difference in absolute value over all candidate pairs.
pub open spec fn best_pair_ok(
    ws: Seq<crate::types::WindowModel>,
    t: int,
    bi: int,
    bn: int,
    bd: int,
) -> bool {
    &&& 0 <= bi < ws.len() - 1
    &&& candidate_pair(ws, t, bi)
    &&& bn == diff_num(ws[bi], ws[bi + 1])
    &&& bd == diff_den(ws[bi], ws[bi + 1])
    &&& 1 <= bd <= 0x100_0000_0000
    &&& iabs(bn) <= 0x100_0000_0000
    &&& forall|i: int|
        0 <= i < ws.len() - 1 && #[trigger] candidate_pair(ws, t, i) ==> abs_frac_le(
            diff_num(ws[i], ws[i + 1]),
            diff_den(ws[i], ws[i + 1]),
            bn,
            bd,
        )
}

/// Facts every pair's spacing difference obeys under the size bounds: the
/// fraction's parts fit comfortably in machine integers.
proof fn lemma_pair_bounds(ws: Seq<crate::types::WindowModel>, i: int)
    requires
        windows_ok(ws),
        0 <= i < ws.len() - 1,
    ensures
        1 <= diff_den(ws[i], ws[i + 1]) <= 0x100_0000_0000,
        iabs(diff_num(ws[i], ws[i + 1])) <= 0x100_0000_0000,
{
    assert(window_ok(ws[i]));
    assert(window_ok(ws[i + 1]));
    assert(LIM as int * LIM as int == 0x100_0000_0000) by (nonlinear_arith);
    lemma_mul_le(sp_num(ws[i]), sp_den(ws[i + 1]), LIM as int, LIM as int);
    lemma_mul_le(sp_num(ws[i + 1]), sp_den(ws[i]), LIM as int, LIM as int);
    lemma_mul_le(sp_den(ws[i]), sp_den(ws[i + 1]), LIM as int, LIM as int);
    assert(sp_den(ws[i]) * sp_den(ws[i + 1]) >= 1) by (nonlinear_arith)
        requires
            sp_den(ws[i]) >= 1,
            sp_den(ws[i + 1]) >= 1,
    ;
    assert(sp_num(ws[i]) * sp_den(ws[i + 1]) >= 0);
    assert(sp_num(ws[i + 1]) * sp_den(ws[i]) >= 0);
}

/// Picks, among adjacent pairs in which either window sits at or below the
/// spacing threshold, the pair with the largest absolute spacing difference
/// (the last such pair when several tie), as index and exact fraction.
fn select_best_pair(windows: &Vec<Window>, t: i64) -> (r: Option<(usize, i64, i64)>)
    requires
        windows_ok(windows_view(windows@)),
        windows@.len() >= 2,
        0 <= t <= LIM,
    ensures
        ({
            let ws = windows_view(windows@);
            match r {
                None => forall|i: int|
                    0 <= i < ws.len() - 1 ==> !#[trigger] candidate_pair(ws, t as int, i),
                Some(b) => best_pair_ok(ws, t as int, b.0 as int, b.1 as int, b.2 as int),
            }
        }),
{
    let ghost ws = windows_view(windows@);
    let mut best: Option<(usize, i64, i64)> = None;
    let mut k: usize = 0;
    while k + 1 < windows.len()
        invariant
            windows_ok(ws),
            ws == windows_view(windows@),
            0 <= t <= LIM,
            ws.len() >= 2,
            k <= ws.len() - 1,
            match best {
                None => forall|i: int|
                    0 <= i < k ==> !#[trigger] candidate_pair(ws, t as int, i),
                Some(b) => {
                    &&& (b.0 as int) < k
                    &&& k <= ws.len() - 1
                    &&& candidate_pair(ws, t as int, b.0 as int)
                    &&& b.1 as int == diff_num(ws[b.0 as int], ws[b.0 as int + 1])
                    &&& b.2 as int == diff_den(ws[b.0 as int], ws[b.0 as int + 1])
                    &&& 1 <= b.2 as int <= 0x100_0000_0000
                    &&& iabs(b.1 as int) <= 0x100_0000_0000
                    &&& forall|i: int|
                        0 <= i < k && #[trigger] candidate_pair(ws, t as int, i) ==> abs_frac_le(
                            diff_num(ws[i], ws[i + 1]),
                            diff_den(ws[i], ws[i + 1]),
                            b.1 as int,
                            b.2 as int,
                        )
                },
            },
        decreases ws.len() - k,
    {
        proof {
            assert(window_ok(ws[k as int]));
            assert(window_ok(ws[k + 1]));
            lemma_pair_bounds(ws, k as int);
            assert(LIM as int * LIM as int == 0x100_0000_0000) by (nonlinear_arith);
        }
        let (n1, d1) = windows[k].calculate_spacing();
        let (n2, d2) = windows[k + 1].calculate_spacing();
        proof {
            lemma_mul_le(t as int, d1 as int, LIM as int, LIM as int);
            lemma_mul_le(t as int, d2 as int, LIM as int, LIM as int);
            lemma_mul_le(n1 as int, d2 as int, LIM as int, LIM as int);
            lemma_mul_le(n2 as int, d1 as int, LIM as int, LIM as int);
            lemma_mul_le(d1 as int, d2 as int, LIM as int, LIM as int);
            assert(d1 as int * d2 as int >= 1) by (nonlinear_arith)
                requires
                    d1 >= 1,
                    d2 >= 1,
            ;
        }
        if n1 <= t * d1 || n2 <= t * d2 {
            let dn = n1 * d2 - n2 * d1;
            let dd = d1 * d2;
            assert(dn as int == diff_num(ws[k as int], ws[k + 1]));
            assert(dd as int == diff_den(ws[k as int], ws[k + 1]));
            assert(candidate_pair(ws, t as int, k as int));
            let take = match best {
                None => true,
                Some(b) => abs_frac_le_exec(b.1, b.2, dn, dd),
            };
            if take {
                proof {
                    assert forall|i: int|
                        0 <= i < k + 1 && #[trigger] candidate_pair(ws, t as int, i) implies abs_frac_le(
                        diff_num(ws[i], ws[i + 1]),
                        diff_den(ws[i], ws[i + 1]),
                        dn as int,
                        dd as int,
                    ) by {
                        if i < k {
                            let b = best->Some_0;
                            lemma_pair_bounds(ws, i);
                            lemma_frac_le_trans(
                                iabs(diff_num(ws[i], ws[i + 1])),
                                diff_den(ws[i], ws[i + 1]),
                                iabs(b.1 as int),
                                b.2 as int,
                                iabs(dn as int),
                                dd as int,
                            );
                        }
                    }
                }
                best = Some((k, dn, dd));
            } else {
                proof {
                    assert forall|i: int|
                        0 <= i < k + 1 && #[trigger] candidate_pair(ws, t as int, i) implies abs_frac_le(
                        diff_num(ws[i], ws[i + 1]),
                        diff_den(ws[i], ws[i + 1]),
                        best->Some_0.1 as int,
                        best->Some_0.2 as int,
                    ) by {}
                }
            }
        } else {
            assert(!candidate_pair(ws, t as int, k as int));
        }
        k = k + 1;
    }
    best
}

/// One competitor crosses the boundary between windows `i` and `i + 1`:
/// toward the next window (leaving the back of window `i`, tag down one, into
/// the front run of its rank in window `i + 1`) or toward the previous window
/// (leaving the front of window `i + 1`, tag up one, into the back run of its
/// rank in window `i`).
pub open spec fn adj_migration(
    ws: Seq<crate::types::WindowModel>,
    ws2: Seq<crate::types::WindowModel>,
    i: int,
    toward_next: bool,
) -> bool {
    &&& 0 <= i < ws.len() - 1
    &&& ws2.len() == ws.len()
    &&& (forall|k: int| 0 <= k < ws.len() && k != i && k != i + 1 ==> ws2[k] == ws[k])
    &&& ws2[i].duration == ws[i].duration
    &&& ws2[i + 1].duration == ws[i + 1].duration
    &&& if toward_next {
        &&& ws[i].competitors.len() >= 1
        &&& ws2[i].competitors == ws[i].competitors.drop_last()
        &&& exists|p: int|
            #![trigger ws[i + 1].competitors.insert(p, shifted(ws[i].competitors.last(), -1))]
            0 <= p <= ws[i + 1].competitors.len() && ws2[i + 1].competitors == ws[i
                + 1].competitors.insert(p, shifted(ws[i].competitors.last(), -1))
    } else {
        &&& ws[i + 1].competitors.len() >= 1
        &&& ws2[i + 1].competitors == ws[i + 1].competitors.remove(0)
        &&& exists|p: int|
            #![trigger ws[i].competitors.insert(p, shifted(ws[i + 1].competitors[0], 1))]
            0 <= p <= ws[i].competitors.len() && ws2[i].competitors == ws[i].competitors.insert(
                p,
                shifted(ws[i + 1].competitors[0], 1),
            )
    }
}

/// The layout a run of at most `n` migrations makes of `ws`, each across the
/// boundary of an adjacent pair in which one window sits at or below the
/// spacing threshold at the time of the move.
pub open spec fn candidate_migrations(
    ws: Seq<crate::types::WindowModel>,
    ws2: Seq<crate::types::WindowModel>,
    t: int,
    n: nat,
) -> bool
    decreases n,
{
    ws2 == ws || (n > 0 && exists|mid: Seq<crate::types::WindowModel>, i: int, d: bool|
        #![trigger candidate_pair(ws, t, i), adj_migration(ws, mid, i, d)]
        candidate_pair(ws, t, i) && adj_migration(ws, mid, i, d) && candidate_migrations(
            mid,
            ws2,
            t,
            (n - 1) as nat,
        ))
}

/// Every layout stabilization can leave behind: a run of candidate-pair
/// migrations, possibly closed by one reversing migration across the boundary
/// of the final move — the convergence guard undoing a move that no longer
/// improved the layout.
pub open spec fn stabilization_reachable(
    ws: Seq<crate::types::WindowModel>,
    ws2: Seq<crate::types::WindowModel>,
    t: int,
) -> bool {
    ||| exists|n: nat| candidate_migrations(ws, ws2, t, n)
    ||| exists|
        n: nat,
        mid: Seq<crate::types::WindowModel>,
        mid2: Seq<crate::types::WindowModel>,
        i: int,
        d: bool,
    |
        #![trigger candidate_migrations(ws, mid, t, n), adj_migration(mid, mid2, i, d)]
        candidate_migrations(ws, mid, t, n) && candidate_pair(mid, t, i) && adj_migration(
            mid,
            mid2,
            i,
            d,
        ) && adj_migration(mid2, ws2, i, !d)
}

proof fn lemma_candidate_migrations_mono(
    a: Seq<crate::types::WindowModel>,
    b: Seq<crate::types::WindowModel>,
    t: int,
    n: nat,
)
    requires
        candidate_migrations(a, b, t, n),
    ensures
        candidate_migrations(a, b, t, (n + 1) as nat),
    decreases n,
{
    if b == a {
    } else {
        let (mid, i, d) = choose|mid: Seq<crate::types::WindowModel>, i: int, d: bool|
            #![trigger candidate_pair(a, t, i), adj_migration(a, mid, i, d)]
            candidate_pair(a, t, i) && adj_migration(a, mid, i, d) && candidate_migrations(
                mid,
                b,
                t,
                (n - 1) as nat,
            );
        lemma_candidate_migrations_mono(mid, b, t, (n - 1) as nat);
        assert(candidate_pair(a, t, i) && adj_migration(a, mid, i, d) && candidate_migrations(
            mid,
            b,
            t,
            n,
        ));
    }
}

/// A run of candidate migrations extended by one more candidate migration is
/// again such a run.
proof fn lemma_candidate_migrations_snoc(
    a: Seq<crate::types::WindowModel>,
    b: Seq<crate::types::WindowModel>,
    c: Seq<crate::types::WindowModel>,
    t: int,
    n: nat,
    i: int,
    d: bool,
)
    requires
        candidate_migrations(a, b, t, n),
        candidate_pair(b, t, i),
        adj_migration(b, c, i, d),
    ensures
        candidate_migrations(a, c, t, (n + 1) as nat),
    decreases n,
{
    if b == a {
        assert(candidate_migrations(c, c, t, 0));
        assert(candidate_pair(a, t, i) && adj_migration(a, c, i, d) && candidate_migrations(
            c,
            c,
            t,
            n,
        )) by {
            lemma_candidate_migrations_ge(c, c, t, 0, n);
        }
    } else {
        let (mid, i0, d0) = choose|mid: Seq<crate::types::WindowModel>, i0: int, d0: bool|
            #![trigger candidate_pair(a, t, i0), adj_migration(a, mid, i0, d0)]
            candidate_pair(a, t, i0) && adj_migration(a, mid, i0, d0) && candidate_migrations(
                mid,
                b,
                t,
                (n - 1) as nat,
            );
        lemma_candidate_migrations_snoc(mid, b, c, t, (n - 1) as nat, i, d);
        assert(candidate_pair(a, t, i0) && adj_migration(a, mid, i0, d0) && candidate_migrations(
            mid,
            c,
            t,
            n,
        ));
    }
}

proof fn lemma_candidate_migrations_ge(
    a: Seq<crate::types::WindowModel>,
    b: Seq<crate::types::WindowModel>,
    t: int,
    n1: nat,
    n2: nat,
)
    requires
        candidate_migrations(a, b, t, n1),
        n1 <= n2,
    ensures
        candidate_migrations(a, b, t, n2),
    decreases n2 - n1,
{
    if n1 < n2 {
        lemma_candidate_migrations_mono(a, b, t, n1);
        lemma_candidate_migrations_ge(a, b, t, (n1 + 1) as nat, n2);
    }
}

/// A completed `move_to_next_window` is one migration toward the next window.
proof fn lemma_migration_from_next_move(
    ws: Seq<crate::types::WindowModel>,
    ws2: Seq<crate::types::WindowModel>,
    i: int,
)
    requires
        0 <= i < ws.len() - 1,
        ws2.len() == ws.len(),
        ws[i].competitors.len() >= 1,
        forall|k: int| 0 <= k < ws.len() && k != i && k != i + 1 ==> ws2[k] == ws[k],
        ws2[i].duration == ws[i].duration,
        ws2[i].competitors == ws[i].competitors.drop_last(),
        ws2[i + 1].duration == ws[i + 1].duration,
        exists|p: int|
            #![trigger ws[i + 1].competitors.insert(p, shifted(ws[i].competitors.last(), -1))]
            0 <= p <= ws[i + 1].competitors.len() && ws2[i + 1].competitors == ws[i
                + 1].competitors.insert(p, shifted(ws[i].competitors.last(), -1)),
    ensures
        adj_migration(ws, ws2, i, true),
{
}

/// A completed `move_to_prev_window` at index `i + 1` is one migration toward
/// the previous window across boundary `i`.
proof fn lemma_migration_from_prev_move(
    ws: Seq<crate::types::WindowModel>,
    ws2: Seq<crate::types::WindowModel>,
    i: int,
)
    requires
        0 <= i < ws.len() - 1,
        ws2.len() == ws.len(),
        ws[i + 1].competitors.len() >= 1,
        forall|k: int| 0 <= k < ws.len() && k != i && k != i + 1 ==> ws2[k] == ws[k],
        ws2[i + 1].duration == ws[i + 1].duration,
        ws2[i + 1].competitors == ws[i + 1].competitors.remove(0),
        ws2[i].duration == ws[i].duration,
        exists|p: int|
            #![trigger ws[i].competitors.insert(p, shifted(ws[i + 1].competitors[0], 1))]
            0 <= p <= ws[i].competitors.len() && ws2[i].competitors == ws[i].competitors.insert(
                p,
                shifted(ws[i + 1].competitors[0], 1),
            ),
    ensures
        adj_migration(ws, ws2, i, false),
{
}

/// Rebalances competitors between neighboring windows: repeatedly selects the
/// adjacent pair with the largest spacing difference among pairs at or below
/// the spacing threshold, and moves one competitor from the denser window to
/// the sparser one. The loop stops when no candidate pair remains, when the
/// best move would not improve the layout (it is undone and the loop ends, as
/// a convergence guard), or when the iteration budget runs out. Returns
/// whether, on exit, every window's spacing strictly exceeds the threshold.
/// The result is reachable from the input by candidate-pair migrations alone
/// (possibly closed by the guard's one reversing migration); window count,
/// durations, the multiset of competitor names, the total competitor count,
/// the anchor partition of every window and the size bounds are all preserved,
/// and fewer than two windows are returned untouched.
#[verifier::rlimit(100)]
pub fn stabilize_windows(windows: &mut Vec<Window>, spacing_threshold: i64) -> (converged: bool)
    requires
        windows_ok(windows_view(old(windows)@)),
        all_partitioned(windows_view(old(windows)@)),
        origins_bounded(windows_view(old(windows)@), LIM as int),
        0 <= spacing_threshold <= LIM,
    ensures
        ({
            let ws = windows_view(old(windows)@);
            let ws2 = windows_view(final(windows)@);
            &&& ws2.len() == ws.len()
            &&& forall|k: int| 0 <= k < ws.len() ==> #[trigger] ws2[k].duration == ws[k].duration
            &&& event_names(ws2) == event_names(ws)
            &&& total_count(ws2) == total_count(ws)
            &&& all_partitioned(ws2)
            &&& windows_ok(ws2)
            &&& (converged <==> (forall|k: int|
                0 <= k < ws2.len() ==> !spacing_at_most(#[trigger] ws2[k], spacing_threshold as int)))
            &&& (ws.len() < 2 ==> ws2 == ws)
            &&& stabilization_reachable(ws, ws2, spacing_threshold as int)
        }),
{
    let ghost t_g = spacing_threshold as int;
    if windows.len() < 2 {
        proof {
            assert(candidate_migrations(windows_view(windows@), windows_view(windows@), t_g, 0));
        }
        return all_spacings_exceed(windows, spacing_threshold);
    }
    let ghost ws0 = windows_view(windows@);
    let mut fuel: u64 = 0x80_0000;
    let ghost fuel0 = fuel as int;
    let mut last_move: Option<(usize, i64, i64)> = None;
    let mut last_max: Option<(i64, i64)> = None;
    loop
        invariant
            windows_ok(windows_view(windows@)),
            all_partitioned(windows_view(windows@)),
            windows_view(windows@).len() == ws0.len(),
            ws0.len() >= 2,
            ws0 == windows_view(old(windows)@),
            t_g == spacing_threshold as int,
            forall|k: int|
                0 <= k < ws0.len() ==> #[trigger] windows_view(windows@)[k].duration
                    == ws0[k].duration,
            event_names(windows_view(windows@)) == event_names(ws0),
            total_count(windows_view(windows@)) == total_count(ws0),
            origins_bounded(windows_view(windows@), LIM as int + fuel0 - fuel as int),
            0 <= fuel as int <= fuel0,
            fuel0 == 0x80_0000,
            0 <= spacing_threshold <= LIM,
            last_move is Some <==> last_max is Some,
            match last_move {
                None => windows_view(windows@) == ws0,
                Some(lm) => {
                    &&& (lm.0 as int) + 1 < ws0.len()
                    &&& lm.1 != 0
                    &&& 1 <= lm.2 as int <= 0x100_0000_0000
                    &&& iabs(lm.1 as int) <= 0x100_0000_0000
                    &&& (lm.1 < 0 ==> windows_view(windows@)[lm.0 as int + 1].competitors.len()
                        >= 1)
                    &&& (lm.1 > 0 ==> windows_view(windows@)[lm.0 as int].competitors.len() >= 1)
                    &&& exists|n: nat, mid: Seq<crate::types::WindowModel>|
                        #![trigger candidate_migrations(ws0, mid, t_g, n)]
                        candidate_migrations(ws0, mid, t_g, n) && candidate_pair(
                            mid,
                            t_g,
                            lm.0 as int,
                        ) && adj_migration(mid, windows_view(windows@), lm.0 as int, lm.1 < 0)
                },
            },
            match last_max {
                None => true,
                Some(lx) => 0 <= lx.0 as int <= 0x100_0000_0000 && 1 <= lx.1 as int
                    <= 0x100_0000_0000,
            },
        decreases fuel,
    {
        if fuel == 0 {
            proof {
                lemma_chain_from_state(ws0, windows_view(windows@), t_g, last_move);
            }
            return all_spacings_exceed(windows, spacing_threshold);
        }
        fuel = fuel - 1;
        let ghost ws = windows_view(windows@);
        let ghost bound_in = LIM as int + fuel0 - (fuel as int + 1);
        let best = select_best_pair(windows, spacing_threshold);
        if best.is_none() {
            proof {
                lemma_no_candidate_all_above(ws, t_g);
                lemma_chain_from_state(ws0, windows_view(windows@), t_g, last_move);
            }
            return true;
        }
        let (bi, bn, bd) = best.unwrap();
        let (mn, md) = calculate_max_diff(windows);
        let regress = match last_max {
            None => false,
            Some(lx) => frac_lt_exec(lx.0, lx.1, mn, md),
        };
        let repeat = match last_move {
            None => false,
            Some(lm) => abs_frac_eq_exec(lm.1, lm.2, mn, md),
        };
        if regress || repeat {
            match last_move {
                Some(lm) => {
                    if lm.1 < 0 {
                        proof {
                            assert(iabs(ws[lm.0 as int + 1].competitors[0].origin) <= bound_in);
                        }
                        move_to_prev_window(windows, lm.0 + 1);
                        proof {
                            lemma_migration_from_prev_move(
                                ws,
                                windows_view(windows@),
                                lm.0 as int,
                            );
                        }
                    } else {
                        proof {
                            assert(iabs(ws[lm.0 as int].competitors.last().origin) <= bound_in);
                        }
                        move_to_next_window(windows, lm.0);
                        proof {
                            lemma_migration_from_next_move(
                                ws,
                                windows_view(windows@),
                                lm.0 as int,
                            );
                        }
                    }
                    proof {
                        assert(origins_bounded(ws, bound_in));
                        assert(origins_bounded(
                            windows_view(windows@),
                            LIM as int + fuel0 - fuel as int,
                        ));
                        let (n, mid) = choose|n: nat, mid: Seq<crate::types::WindowModel>|
                            #![trigger candidate_migrations(ws0, mid, t_g, n)]
                            candidate_migrations(ws0, mid, t_g, n) && candidate_pair(
                                mid,
                                t_g,
                                lm.0 as int,
                            ) && adj_migration(mid, ws, lm.0 as int, lm.1 < 0);
                        assert(adj_migration(ws, windows_view(windows@), lm.0 as int, !(lm.1
                            < 0)));
                        assert(stabilization_reachable(ws0, windows_view(windows@), t_g));
                    }
                },
                None => {},
            }
            return all_spacings_exceed(windows, spacing_threshold);
        }
        proof {
            lemma_chain_from_state(ws0, ws, t_g, last_move);
        }
        if bn < 0 {
            if windows[bi].competitors.len() == 0 {
                proof {
                    lemma_chain_from_state(ws0, windows_view(windows@), t_g, last_move);
                }
                return all_spacings_exceed(windows, spacing_threshold);
            }
            proof {
                assert(iabs(ws[bi as int].competitors.last().origin) <= bound_in);
            }
            move_to_next_window(windows, bi);
            proof {
                lemma_migration_from_next_move(ws, windows_view(windows@), bi as int);
            }
        } else if bn > 0 {
            if windows[bi + 1].competitors.len() == 0 {
                proof {
                    lemma_chain_from_state(ws0, windows_view(windows@), t_g, last_move);
                }
                return all_spacings_exceed(windows, spacing_threshold);
            }
            proof {
                assert(iabs(ws[bi as int + 1].competitors[0].origin) <= bound_in);
            }
            move_to_prev_window(windows, bi + 1);
            proof {
                lemma_migration_from_prev_move(ws, windows_view(windows@), bi as int);
            }
        } else {
            proof {
                lemma_chain_from_state(ws0, windows_view(windows@), t_g, last_move);
            }
            return all_spacings_exceed(windows, spacing_threshold);
        }
        proof {
            assert(origins_bounded(ws, bound_in));
            assert(origins_bounded(windows_view(windows@), LIM as int + fuel0 - fuel as int));
            assert forall|k: int| 0 <= k < ws0.len() implies #[trigger] windows_view(
                windows@,
            )[k].duration == ws0[k].duration by {}
            assert(adj_migration(ws, windows_view(windows@), bi as int, bn < 0));
            assert(exists|n: nat| candidate_migrations(ws0, ws, t_g, n));
            let n = choose|n: nat| candidate_migrations(ws0, ws, t_g, n);
            assert(candidate_migrations(ws0, ws, t_g, n) && candidate_pair(ws, t_g, bi as int)
                && adj_migration(ws, windows_view(windows@), bi as int, bn < 0));
        }
        last_move = Some((bi, bn, bd));
        last_max = Some((mn, md));
    }
}

/// From the loop's bookkeeping — either no move has happened, or the current
/// layout extends a run of candidate migrations by the recorded move — the
/// layout is a run of candidate migrations from the start layout.
proof fn lemma_chain_from_state(
    ws0: Seq<crate::types::WindowModel>,
    cur: Seq<crate::types::WindowModel>,
    t: int,
    last_move: Option<(usize, i64, i64)>,
)
    requires
        match last_move {
            None => cur == ws0,
            Some(lm) => exists|n: nat, mid: Seq<crate::types::WindowModel>|
                #![trigger candidate_migrations(ws0, mid, t, n)]
                candidate_migrations(ws0, mid, t, n) && candidate_pair(mid, t, lm.0 as int)
                    && adj_migration(mid, cur, lm.0 as int, lm.1 < 0),
        },
    ensures
        exists|n: nat| candidate_migrations(ws0, cur, t, n),
        stabilization_reachable(ws0, cur, t),
{
    match last_move {
        None => {
            assert(candidate_migrations(ws0, cur, t, 0));
        },
        Some(lm) => {
            let (n, mid) = choose|n: nat, mid: Seq<crate::types::WindowModel>|
                #![trigger candidate_migrations(ws0, mid, t, n)]
                candidate_migrations(ws0, mid, t, n) && candidate_pair(mid, t, lm.0 as int)
                    && adj_migration(mid, cur, lm.0 as int, lm.1 < 0);
            lemma_candidate_migrations_snoc(ws0, mid, cur, t, n, lm.0 as int, lm.1 < 0);
        },
    }
}

} // verus!
