use vstd::prelude::*;

use crate::discrete_voronoi::{
    at_rest, boundary, entries_ok, lemma_boundary_inside, lemma_claim_all_owners, owners_below, resolve_all,
    resolve_next, round_upto, site_turn, step_spec, RoundState, SiteOwner,
};
use crate::grid::{all_inside, cells_wf, claim_all, claim_next, BoundingBox, Cell, GridIdx};
use crate::metric::Metric;
use crate::reach::lemma_resolve_facts;
use crate::site::PlainSite;

verus! {

/// How many of the first `m` sites are strictly closer to `p` than `s` is.
pub open spec fn closer_count<M: Metric>(sites: Seq<PlainSite>, s: PlainSite, p: GridIdx, m: int) -> int
    decreases m,
{
    if m <= 0 {
        0
    } else {
        closer_count::<M>(sites, s, p, m - 1) + if M::closer(sites[m - 1], s, p) { 1int } else { 0int }
    }
}

/// What a cell still allows to happen: an unreached cell weighs one more
/// than there are sites, an owned cell the number of sites closer than its
/// owner, a disputed unowned cell nothing.
pub open spec fn cell_weight<M: Metric>(sites: Seq<PlainSite>, c: Cell) -> int {
    match c.owner {
        Some(o) => closer_count::<M>(sites, sites[o.0 as int], c.coordinates, sites.len() as int),
        None => if c.contested { 0 } else { sites.len() + 1int },
    }
}

/// The summed weight of the cells: every fresh claim and every strictly
/// closer win lowers it.
pub open spec fn potential<M: Metric>(sites: Seq<PlainSite>, cells: Seq<Cell>) -> int
    decreases cells.len(),
{
    if cells.len() == 0 {
        0
    } else {
        potential::<M>(sites, cells.drop_last()) + cell_weight::<M>(sites, cells.last())
    }
}

/// The weight that disputed cells held before their dispute.
pub open spec fn pending<M: Metric>(sites: Seq<PlainSite>, es: Seq<(GridIdx, SiteOwner)>) -> int
    decreases es.len(),
{
    if es.len() == 0 {
        0
    } else {
        pending::<M>(sites, es.drop_last()) + closer_count::<M>(sites, sites[es.last().1.0 as int], es.last().0, sites.len() as int)
    }
}

/// How many cells the first `k` sites claimed in their last turn.
pub open spec fn front_total(fr: Seq<Seq<GridIdx>>, k: int) -> int
    decreases k,
{
    if k <= 0 {
        0
    } else {
        front_total(fr, k - 1) + fr[k - 1].len()
    }
}

/// Every site's weight is admitted by the metric.
pub open spec fn all_admitted<M: Metric>(sites: Seq<PlainSite>) -> bool {
    forall|t: int| 0 <= t < sites.len() ==> M::admits((#[trigger] sites[t]).2 as int)
}

proof fn lemma_count_bounds<M: Metric>(sites: Seq<PlainSite>, s: PlainSite, p: GridIdx, m: int)
    requires
        m >= 0,
    ensures
        0 <= closer_count::<M>(sites, s, p, m) <= m,
    decreases m,
{
    if m > 0 {
        lemma_count_bounds::<M>(sites, s, p, m - 1);
    }
}

proof fn lemma_count_strict<M: Metric>(sites: Seq<PlainSite>, me: int, t: PlainSite, p: GridIdx, m: int)
    requires
        all_admitted::<M>(sites),
        M::admits(t.2 as int),
        0 <= me < sites.len(),
        0 <= m <= sites.len(),
        M::closer(sites[me], t, p),
    ensures
        closer_count::<M>(sites, sites[me], p, m) + (if me < m { 1int } else { 0int }) <= closer_count::<M>(sites, t, p, m),
    decreases m,
{
    if m > 0 {
        lemma_count_strict::<M>(sites, me, t, p, m - 1);
        let u = sites[m - 1];
        assert(M::admits(sites[m - 1].2 as int));
        assert(M::admits(sites[me].2 as int));
        M::lemma_strict_order(u, sites[me], t, p);
        M::lemma_strict_order(sites[me], sites[me], t, p);
    }
}

proof fn lemma_potential_nonneg<M: Metric>(sites: Seq<PlainSite>, cells: Seq<Cell>)
    ensures
        potential::<M>(sites, cells) >= 0,
    decreases cells.len(),
{
    if cells.len() > 0 {
        lemma_potential_nonneg::<M>(sites, cells.drop_last());
        let c = cells.last();
        if c.owner is Some {
            lemma_count_bounds::<M>(sites, sites[c.owner.unwrap().0 as int], c.coordinates, sites.len() as int);
        }
    }
}

proof fn lemma_potential_update<M: Metric>(sites: Seq<PlainSite>, cells: Seq<Cell>, k: int, c: Cell)
    requires
        0 <= k < cells.len(),
    ensures
        potential::<M>(sites, cells.update(k, c)) == potential::<M>(sites, cells) - cell_weight::<M>(sites, cells[k])
            + cell_weight::<M>(sites, c),
    decreases cells.len(),
{
    let up = cells.update(k, c);
    if k == cells.len() - 1 {
        assert(up.drop_last() =~= cells.drop_last());
    } else {
        lemma_potential_update::<M>(sites, cells.drop_last(), k, c);
        assert(up.drop_last() =~= cells.drop_last().update(k, c));
        assert(up.last() == cells.last());
    }
}

proof fn lemma_claim_progress<M: Metric>(
    b: BoundingBox,
    sites: Seq<PlainSite>,
    cells: Seq<Cell>,
    idxs: Seq<GridIdx>,
    who: SiteOwner,
)
    requires
        b.wf(),
        cells_wf(b, cells),
        all_inside(b, idxs),
        owners_below(cells, sites.len() as int),
        (who.0 as int) < sites.len(),
    ensures
        potential::<M>(sites, claim_all(b, cells, idxs, who).0) + pending::<M>(sites, claim_all(b, cells, idxs, who).2)
            + claim_all(b, cells, idxs, who).1.len() <= potential::<M>(sites, cells),
    decreases idxs.len(),
{
    if idxs.len() > 0 {
        let n = sites.len() as int;
        let prev = idxs.drop_last();
        assert(all_inside(b, prev)) by {
            assert forall|i: int| 0 <= i < prev.len() implies b.contains(#[trigger] prev[i].0 as int, prev[i].1 as int) by {
                assert(prev[i] == idxs[i]);
            }
        }
        lemma_claim_progress::<M>(b, sites, cells, prev, who);
        lemma_claim_all_owners(b, cells, prev, who, n);
        let st = claim_all(b, cells, prev, who);
        let p = idxs.last();
        assert(b.contains(idxs[idxs.len() - 1].0 as int, idxs[idxs.len() - 1].1 as int));
        b.lemma_index_of(p.0 as int, p.1 as int);
        let kp = b.index_of(p.0 as int, p.1 as int);
        let c = st.0[kp];
        assert(c.coordinates.pos() == b.coord_at(kp));
        assert(c.coordinates == p);
        let res = claim_all(b, cells, idxs, who);
        assert(res == claim_next(b, st, p, who));
        if c.owner == Some(who) {
        } else if c.owner is None && !c.contested {
            let nc = Cell { owner: Some(who), ..c };
            lemma_potential_update::<M>(sites, st.0, kp, nc);
            lemma_count_bounds::<M>(sites, sites[who.0 as int], p, n);
        } else if c.owner is Some {
            let o = c.owner.unwrap();
            let nc = Cell { owner: None, contested: true, ..c };
            lemma_potential_update::<M>(sites, st.0, kp, nc);
            assert(res.2.drop_last() == st.2);
        }
    }
}

proof fn lemma_resolve_progress<M: Metric>(
    b: BoundingBox,
    sites: Seq<PlainSite>,
    me: int,
    cells: Seq<Cell>,
    es: Seq<(GridIdx, SiteOwner)>,
)
    requires
        b.wf(),
        cells_wf(b, cells),
        owners_below(cells, sites.len() as int),
        entries_ok(b, es, sites.len() as int),
        all_admitted::<M>(sites),
        0 <= me < sites.len(),
        sites.len() <= u32::MAX + 1,
    ensures
        potential::<M>(sites, resolve_all::<M>(b, sites, me, cells, es).0) + resolve_all::<M>(b, sites, me, cells, es).1.len()
            <= potential::<M>(sites, cells) + pending::<M>(sites, es),
    decreases es.len(),
{
    if es.len() > 0 {
        let n = sites.len() as int;
        let prev = es.drop_last();
        assert(entries_ok(b, prev, n)) by {
            assert forall|j: int| 0 <= j < prev.len() implies b.contains((#[trigger] prev[j]).0.0 as int, prev[j].0.1 as int) && prev[j].1.0 < n by {
                assert(prev[j] == es[j]);
            }
        }
        lemma_resolve_progress::<M>(b, sites, me, cells, prev);
        lemma_resolve_facts::<M>(b, sites, me, cells, prev, n);
        let st = resolve_all::<M>(b, sites, me, cells, prev);
        let e = es.last();
        assert(b.contains(es[es.len() - 1].0.0 as int, es[es.len() - 1].0.1 as int) && es[es.len() - 1].1.0 < n);
        b.lemma_index_of(e.0.0 as int, e.0.1 as int);
        let kp = b.index_of(e.0.0 as int, e.0.1 as int);
        let c = st.0[kp];
        assert(c.coordinates.pos() == b.coord_at(kp));
        assert(c.coordinates == e.0);
        let res = resolve_all::<M>(b, sites, me, cells, es);
        assert(res == resolve_next::<M>(b, sites, me, st, e));
        let o = e.1;
        lemma_count_bounds::<M>(sites, sites[o.0 as int], e.0, n);
        if c.owner is Some {
            lemma_count_bounds::<M>(sites, sites[c.owner.unwrap().0 as int], e.0, n);
        }
        assert(cell_weight::<M>(sites, c) >= 0);
        if M::closer(sites[me], sites[o.0 as int], e.0) {
            let nc = Cell { owner: Some(SiteOwner(me as u32)), ..c };
            lemma_potential_update::<M>(sites, st.0, kp, nc);
            assert(M::admits(sites[o.0 as int].2 as int));
            lemma_count_strict::<M>(sites, me, sites[o.0 as int], e.0, n);
            assert((me as u32) as int == me);
        } else if M::closer(sites[o.0 as int], sites[me], e.0) {
            let nc = Cell { owner: Some(o), ..c };
            lemma_potential_update::<M>(sites, st.0, kp, nc);
        }
    }
}

/// What the progress argument needs of a state.
pub open spec fn progress_ready<M: Metric>(b: BoundingBox, sites: Seq<PlainSite>, st: RoundState) -> bool {
    &&& b.wf()
    &&& cells_wf(b, st.0)
    &&& owners_below(st.0, sites.len() as int)
    &&& st.1.len() == sites.len()
    &&& sites.len() <= u32::MAX + 1
    &&& forall|j: int| 0 <= j < sites.len() ==> all_inside(b, #[trigger] st.1[j])
    &&& all_admitted::<M>(sites)
}

proof fn lemma_turn_progress<M: Metric>(b: BoundingBox, sites: Seq<PlainSite>, st: RoundState, i: int)
    requires
        progress_ready::<M>(b, sites, st),
        0 <= i < sites.len(),
    ensures
        progress_ready::<M>(b, sites, site_turn::<M>(b, sites, st, i)),
        site_turn::<M>(b, sites, st, i).1 == st.1.update(i, site_turn::<M>(b, sites, st, i).1[i]),
        potential::<M>(sites, site_turn::<M>(b, sites, st, i).0) + site_turn::<M>(b, sites, st, i).1[i].len()
            <= potential::<M>(sites, st.0),
{
    let n = sites.len() as int;
    let who = SiteOwner(i as u32);
    let bc = boundary(b, st.1[i]);
    lemma_boundary_inside(b, st.1[i]);
    lemma_claim_all_owners(b, st.0, bc, who, n);
    lemma_claim_progress::<M>(b, sites, st.0, bc, who);
    let co = claim_all(b, st.0, bc, who);
    lemma_resolve_facts::<M>(b, sites, i, co.0, co.2, n);
    lemma_resolve_progress::<M>(b, sites, i, co.0, co.2);
    let rr = resolve_all::<M>(b, sites, i, co.0, co.2);
    let nf = co.1 + rr.1;
    let new = site_turn::<M>(b, sites, st, i);
    assert(new == (rr.0, st.1.update(i, nf)));
    assert(all_inside(b, nf)) by {
        assert forall|q: int| 0 <= q < nf.len() implies b.contains(#[trigger] nf[q].0 as int, nf[q].1 as int) by {
            if q < co.1.len() {
                assert(nf[q] == co.1[q]);
            } else {
                assert(nf[q] == rr.1[q - co.1.len()]);
            }
        }
    }
    assert forall|j: int| 0 <= j < n implies all_inside(b, #[trigger] new.1[j]) by {
        if j != i {
            assert(new.1[j] == st.1[j]);
        }
    }
    assert(new.1.update(i, new.1[i]) =~= new.1);
}

proof fn lemma_front_total_update(fr: Seq<Seq<GridIdx>>, i: int, x: Seq<GridIdx>, m: int)
    requires
        0 <= i < fr.len(),
        0 <= m <= i,
    ensures
        front_total(fr.update(i, x), m) == front_total(fr, m),
    decreases m,
{
    if m > 0 {
        lemma_front_total_update(fr, i, x, m - 1);
    }
}

proof fn lemma_round_progress<M: Metric>(b: BoundingBox, sites: Seq<PlainSite>, st: RoundState, k: int)
    requires
        progress_ready::<M>(b, sites, st),
        0 <= k <= sites.len(),
    ensures
        progress_ready::<M>(b, sites, round_upto::<M>(b, sites, st, k)),
        potential::<M>(sites, round_upto::<M>(b, sites, st, k).0) + front_total(round_upto::<M>(b, sites, st, k).1, k)
            <= potential::<M>(sites, st.0),
    decreases k,
{
    if k > 0 {
        lemma_round_progress::<M>(b, sites, st, k - 1);
        let prev = round_upto::<M>(b, sites, st, k - 1);
        lemma_turn_progress::<M>(b, sites, prev, k - 1);
        let next = round_upto::<M>(b, sites, st, k);
        assert(next == site_turn::<M>(b, sites, prev, k - 1));
        lemma_front_total_update(prev.1, k - 1, next.1[k - 1], k - 1);
    }
}

proof fn lemma_front_total_positive(fr: Seq<Seq<GridIdx>>, k: int, j: int)
    requires
        0 <= j < k <= fr.len(),
    ensures
        front_total(fr, k) >= fr[j].len(),
    decreases k,
{
    lemma_front_total_nonneg(fr, k - 1);
    if j < k - 1 {
        lemma_front_total_positive(fr, k - 1, j);
    }
}

proof fn lemma_front_total_nonneg(fr: Seq<Seq<GridIdx>>, k: int)
    ensures
        front_total(fr, k) >= 0,
    decreases k,
{
    if k > 0 {
        lemma_front_total_nonneg(fr, k - 1);
    }
}

/// Each round lowers the potential by at least the number of cells it claims,
/// so a round that is not at rest leaves a strictly smaller measure behind.
pub proof fn lemma_step_progress<M: Metric>(b: BoundingBox, sites: Seq<PlainSite>, st: RoundState)
    requires
        progress_ready::<M>(b, sites, st),
    ensures
        progress_ready::<M>(b, sites, step_spec::<M>(b, sites, st)),
        potential::<M>(sites, step_spec::<M>(b, sites, st).0) + front_total(step_spec::<M>(b, sites, st).1, sites.len() as int)
            <= potential::<M>(sites, st.0),
        potential::<M>(sites, st.0) >= 0,
        front_total(st.1, sites.len() as int) >= 0,
        potential::<M>(sites, step_spec::<M>(b, sites, st).0) >= 0,
        front_total(step_spec::<M>(b, sites, st).1, sites.len() as int) >= 0,
        !at_rest(st) ==> front_total(st.1, sites.len() as int) > 0,
{
    lemma_round_progress::<M>(b, sites, st, sites.len() as int);
    lemma_potential_nonneg::<M>(sites, st.0);
    lemma_potential_nonneg::<M>(sites, step_spec::<M>(b, sites, st).0);
    lemma_front_total_nonneg(st.1, sites.len() as int);
    lemma_front_total_nonneg(step_spec::<M>(b, sites, st).1, sites.len() as int);
    if !at_rest(st) {
        let j = choose|j: int| 0 <= j < st.1.len() && (#[trigger] st.1[j]).len() != 0;
        lemma_front_total_positive(st.1, sites.len() as int, j);
    }
}

} // verus!
