//! Data model: competitors carrying an anchor tag, fixed-duration windows
//! holding an ordered competitor sequence, and competitors paired with an
//! assigned start offset.

use vstd::prelude::*;
use vstd::multiset::Multiset;

verus! {

/// Upper bound on durations, competitor counts, window counts and spacing
/// parameters, so that every intermediate offset and rational spacing
/// comparison provably fits in the machine integers used below.
pub const LIM: i64 = 0x10_0000;

/// Mathematical value of a competitor: its anchor tag and its name.
///
/// The tag records migrations across window boundaries: a negative value means
/// the competitor is pinned to the bottom edge of its window, a positive value
/// to the top edge, and zero that it is unanchored.
pub ghost struct CompetitorModel {
    pub origin: int,
    pub name: Seq<char>,
}

/// A competitor: a name plus the anchor tag maintained by migration.
pub struct Competitor {
    pub origin: i64,
    pub name: String,
}

impl View for Competitor {
    type V = CompetitorModel;

    open spec fn view(&self) -> CompetitorModel {
        CompetitorModel { origin: self.origin as int, name: self.name@ }
    }
}

/// Mathematical value of a window.
pub ghost struct WindowModel {
    pub duration: int,
    pub competitors: Seq<CompetitorModel>,
}

/// A fixed-duration time window with its ordered competitor sequence.
pub struct Window {
    pub duration: i64,
    pub competitors: Vec<Competitor>,
}

pub open spec fn comps_view(cs: Seq<Competitor>) -> Seq<CompetitorModel> {
    cs.map_values(|c: Competitor| c@)
}

impl View for Window {
    type V = WindowModel;

    open spec fn view(&self) -> WindowModel {
        WindowModel { duration: self.duration as int, competitors: comps_view(self.competitors@) }
    }
}

pub open spec fn windows_view(ws: Seq<Window>) -> Seq<WindowModel> {
    ws.map_values(|w: Window| w@)
}

/// Mathematical value of a competitor with its assigned offset.
pub ghost struct AssignedModel {
    pub competitor: CompetitorModel,
    pub offset: int,
}

/// A competitor paired with its assigned start offset, counted from the start
/// of the first window.
pub struct CompetitorWithOffset {
    pub competitor: Competitor,
    pub offset: i64,
}

impl View for CompetitorWithOffset {
    type V = AssignedModel;

    open spec fn view(&self) -> AssignedModel {
        AssignedModel { competitor: self.competitor@, offset: self.offset as int }
    }
}

pub open spec fn assigned_view(cs: Seq<CompetitorWithOffset>) -> Seq<AssignedModel> {
    cs.map_values(|c: CompetitorWithOffset| c@)
}

/// The competitors of an assignment, in sequence order, without their offsets.
pub open spec fn assigned_comps(s: Seq<AssignedModel>) -> Seq<CompetitorModel> {
    s.map_values(|a: AssignedModel| a.competitor)
}

/// Anchor rank: bottom-anchored competitors sort before unanchored ones,
/// which sort before top-anchored ones.
pub open spec fn rank(c: CompetitorModel) -> int {
    if c.origin < 0 {
        0
    } else if c.origin == 0 {
        1
    } else {
        2
    }
}

/// Window invariant: bottom-anchored competitors form a prefix, top-anchored
/// competitors a suffix, and unanchored competitors the middle.
pub open spec fn partitioned(cs: Seq<CompetitorModel>) -> bool {
    forall|i: int, j: int| 0 <= i < j < cs.len() ==> rank(cs[i]) <= rank(cs[j])
}

pub open spec fn all_partitioned(ws: Seq<WindowModel>) -> bool {
    forall|i: int| 0 <= i < ws.len() ==> partitioned(#[trigger] ws[i].competitors)
}

pub open spec fn all_unanchored(ws: Seq<WindowModel>) -> bool {
    forall|i: int, j: int|
        0 <= i < ws.len() && 0 <= j < ws[i].competitors.len() ==> (#[trigger] ws[i].competitors[j]).origin
            == 0
}

/// All competitors of an event, in window order and, inside a window, in
/// sequence order.
pub open spec fn all_comps(ws: Seq<WindowModel>) -> Seq<CompetitorModel>
    decreases ws.len(),
{
    if ws.len() == 0 {
        Seq::empty()
    } else {
        ws[0].competitors + all_comps(ws.drop_first())
    }
}

/// Total number of competitors over all windows.
pub open spec fn total_count(ws: Seq<WindowModel>) -> int {
    all_comps(ws).len() as int
}

pub open spec fn names_of(cs: Seq<CompetitorModel>) -> Seq<Seq<char>> {
    cs.map_values(|c: CompetitorModel| c.name)
}

/// The multiset of competitor names of an event; migration and offset
/// assignment both preserve it.
pub open spec fn event_names(ws: Seq<WindowModel>) -> Multiset<Seq<char>> {
    names_of(all_comps(ws)).to_multiset()
}

pub open spec fn window_ok(w: WindowModel) -> bool {
    &&& 1 <= w.duration <= LIM as int
    &&& w.competitors.len() <= LIM as int
}

/// Size bounds under which every computation below is free of overflow.
pub open spec fn windows_ok(ws: Seq<WindowModel>) -> bool {
    &&& ws.len() <= LIM as int
    &&& (forall|i: int| 0 <= i < ws.len() ==> window_ok(#[trigger] ws[i]))
    &&& total_count(ws) <= LIM as int
}

/// Concatenating window sequences concatenates their competitors.
pub proof fn lemma_all_comps_split(ws: Seq<WindowModel>, k: int)
    requires
        0 <= k <= ws.len(),
    ensures
        all_comps(ws) == all_comps(ws.take(k)) + all_comps(ws.skip(k)),
    decreases k,
{
    if k == 0 {
        assert(ws.take(0) == Seq::<WindowModel>::empty());
        assert(ws.skip(0) == ws);
        assert(all_comps(ws.take(0)) + all_comps(ws.skip(0)) == all_comps(ws));
    } else {
        let rest = ws.drop_first();
        lemma_all_comps_split(rest, k - 1);
        assert(ws.take(k).drop_first() == rest.take(k - 1));
        assert(ws.skip(k) == rest.skip(k - 1));
        assert(ws.take(k)[0] == ws[0]);
        assert(all_comps(ws.take(k)) == ws[0].competitors + all_comps(rest.take(k - 1)));
        assert(all_comps(ws.take(k)) + all_comps(ws.skip(k)) == ws[0].competitors + (all_comps(
            rest.take(k - 1),
        ) + all_comps(rest.skip(k - 1))));
    }
}

/// The competitors of an event split around any single window.
pub proof fn lemma_all_comps_decompose(ws: Seq<WindowModel>, k: int)
    requires
        0 <= k < ws.len(),
    ensures
        all_comps(ws) == all_comps(ws.take(k)) + ws[k].competitors + all_comps(ws.skip(k + 1)),
{
    lemma_all_comps_split(ws, k);
    let tail = ws.skip(k);
    assert(tail.len() > 0);
    assert(tail[0] == ws[k]);
    assert(tail.drop_first() == ws.skip(k + 1));
    assert(all_comps(tail) == ws[k].competitors + all_comps(ws.skip(k + 1)));
    assert(all_comps(ws.take(k)) + (ws[k].competitors + all_comps(ws.skip(k + 1)))
        == all_comps(ws.take(k)) + ws[k].competitors + all_comps(ws.skip(k + 1)));
}

/// Mapping names over a concatenation concatenates the names.
pub proof fn lemma_names_of_add(a: Seq<CompetitorModel>, b: Seq<CompetitorModel>)
    ensures
        names_of(a + b) == names_of(a) + names_of(b),
{
    assert(names_of(a + b) =~= names_of(a) + names_of(b));
}

/// A change confined to two windows that neither adds nor drops names leaves
/// the event's name multiset and total competitor count unchanged.
pub proof fn lemma_event_two_window_change(ws: Seq<WindowModel>, ws2: Seq<WindowModel>, a: int, b: int)
    requires
        0 <= a < b < ws.len(),
        ws2.len() == ws.len(),
        forall|k: int| 0 <= k < ws.len() && k != a && k != b ==> ws2[k] == ws[k],
        names_of(ws2[a].competitors).to_multiset().add(names_of(ws2[b].competitors).to_multiset())
            == names_of(ws[a].competitors).to_multiset().add(
            names_of(ws[b].competitors).to_multiset(),
        ),
        ws2[a].competitors.len() + ws2[b].competitors.len() == ws[a].competitors.len()
            + ws[b].competitors.len(),
    ensures
        event_names(ws2) == event_names(ws),
        total_count(ws2) == total_count(ws),
{
    broadcast use vstd::seq_lib::lemma_multiset_commutative;
    broadcast use vstd::multiset::group_multiset_axioms;

    lemma_all_comps_decompose(ws, a);
    lemma_all_comps_decompose(ws2, a);
    let tail = ws.skip(a + 1);
    let tail2 = ws2.skip(a + 1);
    lemma_all_comps_decompose(tail, b - a - 1);
    lemma_all_comps_decompose(tail2, b - a - 1);
    assert(tail[b - a - 1] == ws[b]);
    assert(tail2[b - a - 1] == ws2[b]);
    assert(ws2.take(a) =~= ws.take(a));
    assert(tail2.take(b - a - 1) =~= tail.take(b - a - 1));
    assert(tail2.skip(b - a) =~= tail.skip(b - a));
    let t1 = all_comps(ws.take(a));
    let t2 = all_comps(tail.take(b - a - 1));
    let t3 = all_comps(tail.skip(b - a));
    let ca = ws[a].competitors;
    let cb = ws[b].competitors;
    let ca2 = ws2[a].competitors;
    let cb2 = ws2[b].competitors;
    assert(all_comps(ws) == t1 + ca + (t2 + cb + t3));
    assert(all_comps(ws2) == t1 + ca2 + (t2 + cb2 + t3));
    assert(names_of(all_comps(ws)) == names_of(t1) + names_of(ca) + (names_of(t2) + names_of(cb)
        + names_of(t3))) by {
        lemma_names_of_add(t2, cb);
        lemma_names_of_add(t2 + cb, t3);
        lemma_names_of_add(t1, ca);
        lemma_names_of_add(t1 + ca, t2 + cb + t3);
        assert(names_of(t1 + ca) + names_of(t2 + cb + t3) == names_of(t1) + names_of(ca)
            + (names_of(t2) + names_of(cb) + names_of(t3)));
    }
    assert(names_of(all_comps(ws2)) == names_of(t1) + names_of(ca2) + (names_of(t2) + names_of(
        cb2,
    ) + names_of(t3))) by {
        lemma_names_of_add(t2, cb2);
        lemma_names_of_add(t2 + cb2, t3);
        lemma_names_of_add(t1, ca2);
        lemma_names_of_add(t1 + ca2, t2 + cb2 + t3);
        assert(names_of(t1 + ca2) + names_of(t2 + cb2 + t3) == names_of(t1) + names_of(ca2) + (
        names_of(t2) + names_of(cb2) + names_of(t3)));
    }
    let n1 = names_of(t1);
    let n2 = names_of(t2);
    let n3 = names_of(t3);
    let na = names_of(ca);
    let nb = names_of(cb);
    let na2 = names_of(ca2);
    let nb2 = names_of(cb2);
    assert((n1 + na + (n2 + nb + n3)).to_multiset() == n1.to_multiset().add(na.to_multiset()).add(
        n2.to_multiset().add(nb.to_multiset()).add(n3.to_multiset()),
    )) by {
        vstd::seq_lib::lemma_multiset_commutative(n1, na);
        vstd::seq_lib::lemma_multiset_commutative(n2, nb);
        vstd::seq_lib::lemma_multiset_commutative(n2 + nb, n3);
        vstd::seq_lib::lemma_multiset_commutative(n1 + na, n2 + nb + n3);
    }
    assert((n1 + na2 + (n2 + nb2 + n3)).to_multiset() == n1.to_multiset().add(
        na2.to_multiset(),
    ).add(n2.to_multiset().add(nb2.to_multiset()).add(n3.to_multiset()))) by {
        vstd::seq_lib::lemma_multiset_commutative(n1, na2);
        vstd::seq_lib::lemma_multiset_commutative(n2, nb2);
        vstd::seq_lib::lemma_multiset_commutative(n2 + nb2, n3);
        vstd::seq_lib::lemma_multiset_commutative(n1 + na2, n2 + nb2 + n3);
    }
    assert(na2.to_multiset().add(nb2.to_multiset()) == na.to_multiset().add(nb.to_multiset()));
    assert forall|e: Seq<char>| #[trigger] event_names(ws2).count(e) == event_names(ws).count(e) by {
        assert(na2.to_multiset().add(nb2.to_multiset()).count(e) == na.to_multiset().add(
            nb.to_multiset(),
        ).count(e));
    }
    assert(event_names(ws2) =~= event_names(ws));
}

/// Moving one element from one multiset into another leaves their sum as it
/// was.
pub proof fn lemma_multiset_transfer<T>(a: Multiset<T>, b: Multiset<T>, x: T)
    requires
        b.count(x) >= 1,
    ensures
        a.insert(x).add(b.remove(x)) == a.add(b),
{
    broadcast use vstd::multiset::group_multiset_axioms;

    assert(a.insert(x).add(b.remove(x)) =~= a.add(b));
}

/// The competitors of an assignment, in order, with everything but the name
/// forgotten.
pub open spec fn assigned_names(s: Seq<AssignedModel>) -> Seq<Seq<char>> {
    s.map_values(|a: AssignedModel| a.competitor.name)
}

/// Offsets never decrease along the sequence.
pub open spec fn sorted_by_offset(s: Seq<AssignedModel>) -> bool {
    forall|a: int, b: int| 0 <= a <= b < s.len() ==> (#[trigger] s[a]).offset <= (#[trigger] s[b]).offset
}

/// Appending a window appends its competitors.
pub proof fn lemma_all_comps_push(ws: Seq<WindowModel>, w: WindowModel)
    ensures
        all_comps(ws.push(w)) == all_comps(ws) + w.competitors,
{
    lemma_all_comps_split(ws.push(w), ws.len() as int);
    assert(ws.push(w).take(ws.len() as int) =~= ws);
    assert(ws.push(w).skip(ws.len() as int) =~= seq![w]);
    assert(all_comps(seq![w]) == w.competitors + all_comps(seq![w].drop_first()));
    assert(seq![w].drop_first() =~= Seq::<WindowModel>::empty());
    assert(all_comps(seq![w]) =~= w.competitors);
}

/// A permutation of competitors who all carry the unanchored tag again carries
/// only that tag.
pub proof fn lemma_same_multiset_all_zero(a: Seq<CompetitorModel>, b: Seq<CompetitorModel>)
    requires
        a.to_multiset() == b.to_multiset(),
        forall|j: int| 0 <= j < a.len() ==> (#[trigger] a[j]).origin == 0,
    ensures
        forall|k: int| 0 <= k < b.len() ==> (#[trigger] b[k]).origin == 0,
{
    assert forall|k: int| 0 <= k < b.len() implies (#[trigger] b[k]).origin == 0 by {
        vstd::seq_lib::to_multiset_contains(b, b[k]);
        assert(b.contains(b[k]));
        vstd::seq_lib::to_multiset_contains(a, b[k]);
        assert(a.contains(b[k]));
        let j = choose|j: int| 0 <= j < a.len() && a[j] == b[k];
        assert(a[j].origin == 0);
    }
}

/// A rearrangement with the same multiset of entries keeps every offset bound
/// that held of all entries.
pub proof fn lemma_same_multiset_offsets_ge(a: Seq<AssignedModel>, b: Seq<AssignedModel>, bound: int)
    requires
        a.to_multiset() == b.to_multiset(),
        forall|j: int| 0 <= j < a.len() ==> (#[trigger] a[j]).offset >= bound,
    ensures
        forall|k: int| 0 <= k < b.len() ==> (#[trigger] b[k]).offset >= bound,
{
    assert forall|k: int| 0 <= k < b.len() implies (#[trigger] b[k]).offset >= bound by {
        vstd::seq_lib::to_multiset_contains(b, b[k]);
        assert(b.contains(b[k]));
        vstd::seq_lib::to_multiset_contains(a, b[k]);
        assert(a.contains(b[k]));
        let j = choose|j: int| 0 <= j < a.len() && a[j] == b[k];
        assert(a[j].offset >= bound);
    }
}

/// Every window's competitor count is bounded by the event's total.
pub proof fn lemma_window_count_le_total(ws: Seq<WindowModel>, k: int)
    requires
        0 <= k < ws.len(),
    ensures
        ws[k].competitors.len() <= total_count(ws),
        total_count(ws) >= 0,
{
    lemma_all_comps_decompose(ws, k);
}

} // verus!
