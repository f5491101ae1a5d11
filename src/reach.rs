use vstd::prelude::*;

use crate::discrete_voronoi::{
    at_rest, boundary, owners_below, resolve_all, resolve_next, round_upto, site_turn, iterate,
    entries_ok, lemma_claim_all_owners, lemma_boundary_inside, RoundState, SiteOwner,
};
use crate::grid::{
    all_inside, candidate, cell_at, cells_wf, claim_all, claim_next, neighbor_seq, neighbors_from, BoundingBox, Cell,
    GridIdx,
};
use crate::metric::Metric;
use crate::site::PlainSite;

verus! {

/// A cell that some site has reached: owned, or disputed.
pub open spec fn touched(c: Cell) -> bool {
    c.owner is Some || c.contested
}

/// Every in-bounds neighbor of `p` has been reached.
pub open spec fn neighbors_touched(b: BoundingBox, cells: Seq<Cell>, p: GridIdx) -> bool {
    forall|q: int| 0 <= q < neighbor_seq(b, p).len() ==> touched(#[trigger] cell_at(b, cells, neighbor_seq(b, p)[q]))
}

/// Each owned cell is among its owner's last claims, or all its neighbors have been reached.
pub open spec fn frontier_inv(b: BoundingBox, st: RoundState) -> bool {
    forall|k: int| 0 <= k < st.0.len() ==> ((#[trigger] st.0[k]).owner matches Some(o) ==> (
        st.1[o.0 as int].contains(st.0[k].coordinates) || neighbors_touched(b, st.0, st.0[k].coordinates)))
}

pub proof fn lemma_claim_facts(b: BoundingBox, cells: Seq<Cell>, idxs: Seq<GridIdx>, who: SiteOwner)
    requires
        b.wf(),
        cells_wf(b, cells),
        all_inside(b, idxs),
    ensures
        claim_all(b, cells, idxs, who).0.len() == cells.len(),
        forall|k: int| 0 <= k < cells.len() && touched(cells[k]) ==> touched(#[trigger] claim_all(b, cells, idxs, who).0[k]),
        forall|q: int| 0 <= q < idxs.len() ==> touched(#[trigger] cell_at(b, claim_all(b, cells, idxs, who).0, idxs[q])),
        forall|k: int| 0 <= k < cells.len() ==> ((#[trigger] claim_all(b, cells, idxs, who).0[k]).owner matches Some(o) ==> (
            cells[k].owner == Some(o) || (o == who && claim_all(b, cells, idxs, who).1.contains(cells[k].coordinates)))),
        forall|j: int| 0 <= j < claim_all(b, cells, idxs, who).2.len() ==> cell_at(b, cells, (#[trigger] claim_all(b, cells, idxs, who).2[j]).0).owner == Some(claim_all(b, cells, idxs, who).2[j].1),
    decreases idxs.len(),
{
    crate::grid::lemma_claim_all_wf(b, cells, idxs, who);
    if idxs.len() > 0 {
        let prev = idxs.drop_last();
        assert(all_inside(b, prev)) by {
            assert forall|i: int| 0 <= i < prev.len() implies b.contains(#[trigger] prev[i].0 as int, prev[i].1 as int) by {
                assert(prev[i] == idxs[i]);
            }
        }
        crate::grid::lemma_claim_all_wf(b, cells, prev, who);
        lemma_claim_facts(b, cells, prev, who);
        let st = claim_all(b, cells, prev, who);
        let p = idxs.last();
        assert(b.contains(idxs[idxs.len() - 1].0 as int, idxs[idxs.len() - 1].1 as int));
        b.lemma_index_of(p.0 as int, p.1 as int);
        let kp = b.index_of(p.0 as int, p.1 as int);
        let res = claim_all(b, cells, idxs, who);
        assert(res == claim_next(b, st, p, who));
        assert forall|q: int| 0 <= q < idxs.len() implies touched(#[trigger] cell_at(b, res.0, idxs[q])) by {
            if q < idxs.len() - 1 {
                assert(idxs[q] == prev[q]);
                assert(touched(cell_at(b, st.0, prev[q])));
                b.lemma_index_of(prev[q].0 as int, prev[q].1 as int);
            }
        }
        assert forall|k: int| 0 <= k < cells.len() implies ((#[trigger] res.0[k]).owner matches Some(o) ==> (
            cells[k].owner == Some(o) || (o == who && res.1.contains(cells[k].coordinates)))) by {
            if k == kp && res.0[k] != st.0[k] {
                assert(cells[k].coordinates == st.0[k].coordinates);
                assert(cells[k].coordinates.pos() == b.coord_at(k));
                assert(p.pos() == b.coord_at(k));
                assert(cells[k].coordinates == p);
                if res.0[k].owner is Some {
                    assert(res.1.last() == p);
                }
            } else if res.0[k].owner is Some {
                let o = res.0[k].owner.unwrap();
                assert(st.0[k] == res.0[k]);
                if o == who && st.1.contains(cells[k].coordinates) {
                    let w = choose|w: int| 0 <= w < st.1.len() && st.1[w] == cells[k].coordinates;
                    assert(res.1.len() >= st.1.len());
                    assert(res.1[w] == st.1[w]);
                }
            }
        }
        assert forall|j: int| 0 <= j < res.2.len() implies cell_at(b, cells, (#[trigger] res.2[j]).0).owner == Some(res.2[j].1) by {
            if j < st.2.len() {
                assert(res.2[j] == st.2[j]);
            } else {
                assert(res.2[j].0 == p);
                assert(st.0[kp].owner == Some(res.2[j].1));
                let o = res.2[j].1;
                assert(cells[kp].owner == Some(o) || (o == who && st.1.contains(cells[kp].coordinates)));
                if !(cells[kp].owner == Some(o)) {
                    assert(st.0[kp].owner != Some(who));
                }
            }
        }
    }
}

pub proof fn lemma_resolve_facts<M: Metric>(
    b: BoundingBox,
    sites: Seq<PlainSite>,
    me: int,
    cells: Seq<Cell>,
    es: Seq<(GridIdx, SiteOwner)>,
    n: int,
)
    requires
        b.wf(),
        cells_wf(b, cells),
        entries_ok(b, es, n),
        owners_below(cells, n),
        0 <= me < n,
        n <= u32::MAX + 1,
    ensures
        cells_wf(b, resolve_all::<M>(b, sites, me, cells, es).0),
        owners_below(resolve_all::<M>(b, sites, me, cells, es).0, n),
        all_inside(b, resolve_all::<M>(b, sites, me, cells, es).1),
        forall|k: int| 0 <= k < cells.len() && touched(cells[k]) ==> touched(#[trigger] resolve_all::<M>(b, sites, me, cells, es).0[k]),
        forall|k: int| 0 <= k < cells.len() ==> ((#[trigger] resolve_all::<M>(b, sites, me, cells, es).0[k]).owner matches Some(o) ==> (
            cells[k].owner == Some(o)
            || (o == SiteOwner(me as u32) && resolve_all::<M>(b, sites, me, cells, es).1.contains(cells[k].coordinates))
            || es.contains((cells[k].coordinates, o)))),
    decreases es.len(),
{
    if es.len() > 0 {
        let prev = es.drop_last();
        assert(entries_ok(b, prev, n)) by {
            assert forall|j: int| 0 <= j < prev.len() implies b.contains((#[trigger] prev[j]).0.0 as int, prev[j].0.1 as int) && prev[j].1.0 < n by {
                assert(prev[j] == es[j]);
            }
        }
        lemma_resolve_facts::<M>(b, sites, me, cells, prev, n);
        let st = resolve_all::<M>(b, sites, me, cells, prev);
        let e = es.last();
        assert(b.contains(es[es.len() - 1].0.0 as int, es[es.len() - 1].0.1 as int) && es[es.len() - 1].1.0 < n);
        b.lemma_index_of(e.0.0 as int, e.0.1 as int);
        let kp = b.index_of(e.0.0 as int, e.0.1 as int);
        let res = resolve_all::<M>(b, sites, me, cells, es);
        assert(res == resolve_next::<M>(b, sites, me, st, e));
        assert(all_inside(b, res.1)) by {
            assert forall|q: int| 0 <= q < res.1.len() implies b.contains(#[trigger] res.1[q].0 as int, res.1[q].1 as int) by {
                if q < st.1.len() {
                    assert(res.1[q] == st.1[q]);
                }
            }
        }
        assert forall|k: int| 0 <= k < cells.len() implies ((#[trigger] res.0[k]).owner matches Some(o) ==> (
            cells[k].owner == Some(o)
            || (o == SiteOwner(me as u32) && res.1.contains(cells[k].coordinates))
            || es.contains((cells[k].coordinates, o)))) by {
            if res.0[k].owner is Some {
                let o = res.0[k].owner.unwrap();
                if k == kp && res.0[k] != st.0[k] {
                    assert(cells[k].coordinates.pos() == b.coord_at(k));
                    assert(e.0.pos() == b.coord_at(k));
                    assert(cells[k].coordinates == e.0);
                    if o == SiteOwner(me as u32) && res.1.len() > st.1.len() {
                        assert(res.1.last() == e.0);
                    } else {
                        assert(es[es.len() - 1] == (cells[k].coordinates, o));
                    }
                } else {
                    assert(st.0[k] == res.0[k]);
                    if o == SiteOwner(me as u32) && st.1.contains(cells[k].coordinates) {
                        let w = choose|w: int| 0 <= w < st.1.len() && st.1[w] == cells[k].coordinates;
                        assert(res.1[w] == st.1[w]);
                    } else if prev.contains((cells[k].coordinates, o)) {
                        let w = choose|w: int| 0 <= w < prev.len() && prev[w] == (cells[k].coordinates, o);
                        assert(es[w] == prev[w]);
                    }
                }
            }
        }
    }
}

proof fn lemma_boundary_covers(b: BoundingBox, f: Seq<GridIdx>, p: GridIdx)
    requires
        f.contains(p),
    ensures
        forall|q: int| 0 <= q < neighbor_seq(b, p).len() ==> boundary(b, f).contains(#[trigger] neighbor_seq(b, p)[q]),
    decreases f.len(),
{
    let l = boundary(b, f.drop_last());
    let r = neighbor_seq(b, f.last());
    assert(boundary(b, f) == l + r);
    if f.last() == p {
        assert forall|q: int| 0 <= q < neighbor_seq(b, p).len() implies boundary(b, f).contains(#[trigger] neighbor_seq(b, p)[q]) by {
            assert((l + r)[l.len() + q] == r[q]);
        }
    } else {
        let w = choose|w: int| 0 <= w < f.len() && f[w] == p;
        assert(f.drop_last()[w] == p);
        lemma_boundary_covers(b, f.drop_last(), p);
        assert forall|q: int| 0 <= q < neighbor_seq(b, p).len() implies boundary(b, f).contains(#[trigger] neighbor_seq(b, p)[q]) by {
            let x = choose|x: int| 0 <= x < l.len() && l[x] == neighbor_seq(b, p)[q];
            assert((l + r)[x] == l[x]);
        }
    }
}

/// What the reach argument needs of a state: cells laid out over the box,
/// owners among the sites, one claim list per site, claims inside the box,
/// and the frontier invariant.
pub open spec fn reach_ready(b: BoundingBox, n: int, st: RoundState) -> bool {
    &&& b.wf()
    &&& cells_wf(b, st.0)
    &&& owners_below(st.0, n)
    &&& st.1.len() == n
    &&& n <= u32::MAX + 1
    &&& forall|j: int| 0 <= j < n ==> all_inside(b, #[trigger] st.1[j])
    &&& frontier_inv(b, st)
}

proof fn lemma_touched_carries(b: BoundingBox, c1: Seq<Cell>, c2: Seq<Cell>, p: GridIdx)
    requires
        b.wf(),
        c1.len() == b.cell_count(),
        c2.len() == c1.len(),
        forall|k: int| 0 <= k < c1.len() && touched(c1[k]) ==> touched(#[trigger] c2[k]),
        neighbors_touched(b, c1, p),
    ensures
        neighbors_touched(b, c2, p),
{
    crate::grid::lemma_neighbors_from_inside(b, p.0 as int, p.1 as int, 0);
    assert forall|q: int| 0 <= q < neighbor_seq(b, p).len() implies touched(#[trigger] cell_at(b, c2, neighbor_seq(b, p)[q])) by {
        let m = neighbor_seq(b, p)[q];
        b.lemma_index_of(m.0 as int, m.1 as int);
        assert(touched(cell_at(b, c1, m)));
    }
}

proof fn lemma_turn_keeps_reach<M: Metric>(b: BoundingBox, sites: Seq<PlainSite>, st: RoundState, i: int)
    requires
        reach_ready(b, sites.len() as int, st),
        0 <= i < sites.len(),
    ensures
        reach_ready(b, sites.len() as int, site_turn::<M>(b, sites, st, i)),
{
    let n = sites.len() as int;
    let who = SiteOwner(i as u32);
    let f = st.1[i];
    let bc = boundary(b, f);
    lemma_boundary_inside(b, f);
    lemma_claim_all_owners(b, st.0, bc, who, n);
    lemma_claim_facts(b, st.0, bc, who);
    let co = claim_all(b, st.0, bc, who);
    lemma_resolve_facts::<M>(b, sites, i, co.0, co.2, n);
    let rr = resolve_all::<M>(b, sites, i, co.0, co.2);
    let nf = co.1 + rr.1;
    let new = site_turn::<M>(b, sites, st, i);
    assert(new == (rr.0, st.1.update(i, nf)));
    assert(all_inside(b, nf)) by {
        assert forall|q: int| 0 <= q < nf.len() implies b.contains(#[trigger] nf[q].0 as int, nf[q].1 as int) by {
            if q < co.1.len() {
                assert(nf[q] == co.1[q]);
            } else {
                assert(nf[q] == rr.1[q - co.1.len()]);
            }
        }
    }
    assert forall|j: int| 0 <= j < n implies all_inside(b, #[trigger] new.1[j]) by {
        if j != i {
            assert(new.1[j] == st.1[j]);
        }
    }
    assert forall|k: int| 0 <= k < new.0.len() implies ((#[trigger] new.0[k]).owner matches Some(o) ==> (
        new.1[o.0 as int].contains(new.0[k].coordinates) || neighbors_touched(b, new.0, new.0[k].coordinates))) by {
        if new.0[k].owner is Some {
            let o = new.0[k].owner.unwrap();
            let c = st.0[k].coordinates;
            assert(co.0[k].coordinates.pos() == c.pos());
            assert(new.0[k].coordinates.pos() == c.pos());
            assert(co.0[k].coordinates == c);
            assert(new.0[k].coordinates == c);
            b.lemma_coord_at(k);
            let was_owner = st.0[k].owner == Some(o);
            if co.2.contains((c, o)) {
                let w = choose|w: int| 0 <= w < co.2.len() && co.2[w] == (c, o);
                assert(cell_at(b, st.0, co.2[w].0).owner == Some(co.2[w].1));
                assert(b.index_of(c.0 as int, c.1 as int) == k);
                assert(was_owner);
            }
            if o == who && (co.1.contains(c) || rr.1.contains(c)) {
                if co.1.contains(c) {
                    let w = choose|w: int| 0 <= w < co.1.len() && co.1[w] == c;
                    assert(nf[w] == c);
                } else {
                    let w = choose|w: int| 0 <= w < rr.1.len() && rr.1[w] == c;
                    assert(nf[co.1.len() + w] == c);
                }
                assert(new.1[o.0 as int] == nf);
            } else {
                assert(was_owner);
                if neighbors_touched(b, st.0, c) {
                    lemma_touched_carries(b, st.0, co.0, c);
                    lemma_touched_carries(b, co.0, rr.0, c);
                } else {
                    assert(st.1[o.0 as int].contains(c));
                    if o.0 as int != i {
                        assert(new.1[o.0 as int] == st.1[o.0 as int]);
                    } else {
                        lemma_boundary_covers(b, f, c);
                        assert forall|q: int| 0 <= q < neighbor_seq(b, c).len() implies touched(#[trigger] cell_at(b, co.0, neighbor_seq(b, c)[q])) by {
                            let x = choose|x: int| 0 <= x < bc.len() && bc[x] == neighbor_seq(b, c)[q];
                            assert(touched(cell_at(b, co.0, bc[x])));
                        }
                        lemma_touched_carries(b, co.0, rr.0, c);
                    }
                }
            }
        }
    }
}

proof fn lemma_round_keeps_reach<M: Metric>(b: BoundingBox, sites: Seq<PlainSite>, st: RoundState, k: int)
    requires
        reach_ready(b, sites.len() as int, st),
        0 <= k <= sites.len(),
    ensures
        reach_ready(b, sites.len() as int, round_upto::<M>(b, sites, st, k)),
    decreases k,
{
    if k > 0 {
        lemma_round_keeps_reach::<M>(b, sites, st, k - 1);
        lemma_turn_keeps_reach::<M>(b, sites, round_upto::<M>(b, sites, st, k - 1), k - 1);
    }
}

/// Rounds keep the frontier invariant: an owned cell leaves its owner's
/// claim list only once all its neighbors have been reached.
pub proof fn lemma_rounds_keep_reach<M: Metric>(b: BoundingBox, sites: Seq<PlainSite>, st: RoundState, k: nat)
    requires
        reach_ready(b, sites.len() as int, st),
    ensures
        reach_ready(b, sites.len() as int, iterate::<M>(b, sites, st, k)),
    decreases k,
{
    if k > 0 {
        lemma_rounds_keep_reach::<M>(b, sites, st, (k - 1) as nat);
        lemma_round_keeps_reach::<M>(b, sites, iterate::<M>(b, sites, st, (k - 1) as nat), sites.len() as int);
    }
}

/// Once the rounds come to rest, every in-bounds neighbor of an owned cell is
/// owned or disputed: the regions grow until they meet, and no cell next to a
/// region is left unreached.
pub proof fn lemma_rest_reaches_neighbors<M: Metric>(b: BoundingBox, sites: Seq<PlainSite>, st: RoundState, k: nat)
    requires
        reach_ready(b, sites.len() as int, st),
        at_rest(iterate::<M>(b, sites, st, k)),
    ensures
        forall|c: int| 0 <= c < iterate::<M>(b, sites, st, k).0.len() ==> (
            (#[trigger] iterate::<M>(b, sites, st, k).0[c]).owner is Some
            ==> neighbors_touched(b, iterate::<M>(b, sites, st, k).0, iterate::<M>(b, sites, st, k).0[c].coordinates)),
{
    lemma_rounds_keep_reach::<M>(b, sites, st, k);
    let fin = iterate::<M>(b, sites, st, k);
    assert forall|c: int| 0 <= c < fin.0.len() implies ((#[trigger] fin.0[c]).owner is Some ==> neighbors_touched(b, fin.0, fin.0[c].coordinates)) by {
        if fin.0[c].owner is Some {
            let o = fin.0[c].owner.unwrap();
            assert(fin.1[o.0 as int].len() == 0);
        }
    }
}

proof fn lemma_candidate_listed(b: BoundingBox, x: int, y: int, k: int, j: int)
    requires
        0 <= k <= j < 4,
        b.contains(candidate(x, y, j).0, candidate(x, y, j).1),
    ensures
        neighbors_from(b, x, y, k).contains(GridIdx(candidate(x, y, j).0 as isize, candidate(x, y, j).1 as isize)),
    decreases j - k,
{
    let g = GridIdx(candidate(x, y, j).0 as isize, candidate(x, y, j).1 as isize);
    let c = candidate(x, y, k);
    let rest = neighbors_from(b, x, y, k + 1);
    if k == j {
        assert(neighbors_from(b, x, y, k)[0] == g);
    } else {
        lemma_candidate_listed(b, x, y, k + 1, j);
        let w = choose|w: int| 0 <= w < rest.len() && rest[w] == g;
        if b.contains(c.0, c.1) {
            assert(neighbors_from(b, x, y, k)[w + 1] == g);
        } else {
            assert(neighbors_from(b, x, y, k)[w] == g);
        }
    }
}

/// The cell at `(x, y)` has an owner.
pub open spec fn owned_at(b: BoundingBox, cells: Seq<Cell>, x: int, y: int) -> bool {
    cell_at(b, cells, GridIdx(x as isize, y as isize)).owner is Some
}

/// Every neighbor of an owned cell has been reached, and every reached cell has an owner.
pub open spec fn closed_and_settled(b: BoundingBox, cells: Seq<Cell>) -> bool {
    &&& forall|k: int| 0 <= k < cells.len() ==> ((#[trigger] cells[k]).owner is Some ==> neighbors_touched(b, cells, cells[k].coordinates))
    &&& forall|k: int| 0 <= k < cells.len() ==> (touched(#[trigger] cells[k]) ==> cells[k].owner is Some)
}

proof fn lemma_spread_step(b: BoundingBox, cells: Seq<Cell>, x: int, y: int, j: int)
    requires
        b.wf(),
        cells_wf(b, cells),
        closed_and_settled(b, cells),
        b.contains(x, y),
        owned_at(b, cells, x, y),
        0 <= j < 4,
        b.contains(candidate(x, y, j).0, candidate(x, y, j).1),
    ensures
        owned_at(b, cells, candidate(x, y, j).0, candidate(x, y, j).1),
{
    let c = candidate(x, y, j);
    b.lemma_index_of(x, y);
    b.lemma_index_of(c.0, c.1);
    let k = b.index_of(x, y);
    let p = GridIdx(x as isize, y as isize);
    assert(cells[k].coordinates.pos() == b.coord_at(k));
    assert(cells[k].coordinates == p);
    assert(neighbors_touched(b, cells, p));
    lemma_candidate_listed(b, x, y, 0, j);
    let g = GridIdx(c.0 as isize, c.1 as isize);
    let w = choose|w: int| 0 <= w < neighbor_seq(b, p).len() && neighbor_seq(b, p)[w] == g;
    assert(touched(cell_at(b, cells, neighbor_seq(b, p)[w])));
    assert(touched(cells[b.index_of(c.0, c.1)]));
}

proof fn lemma_spread_row(b: BoundingBox, cells: Seq<Cell>, x0: int, y: int, x: int)
    requires
        b.wf(),
        cells_wf(b, cells),
        closed_and_settled(b, cells),
        b.contains(x0, y),
        b.contains(x, y),
        owned_at(b, cells, x0, y),
    ensures
        owned_at(b, cells, x, y),
    decreases if x >= x0 { x - x0 } else { x0 - x },
{
    if x > x0 {
        lemma_spread_row(b, cells, x0, y, x - 1);
        lemma_spread_step(b, cells, x - 1, y, 1);
    } else if x < x0 {
        lemma_spread_row(b, cells, x0, y, x + 1);
        lemma_spread_step(b, cells, x + 1, y, 3);
    }
}

proof fn lemma_spread_column(b: BoundingBox, cells: Seq<Cell>, x: int, y0: int, y: int)
    requires
        b.wf(),
        cells_wf(b, cells),
        closed_and_settled(b, cells),
        b.contains(x, y0),
        b.contains(x, y),
        owned_at(b, cells, x, y0),
    ensures
        owned_at(b, cells, x, y),
    decreases if y >= y0 { y - y0 } else { y0 - y },
{
    if y > y0 {
        lemma_spread_column(b, cells, x, y0, y - 1);
        lemma_spread_step(b, cells, x, y - 1, 0);
    } else if y < y0 {
        lemma_spread_column(b, cells, x, y0, y + 1);
        lemma_spread_step(b, cells, x, y + 1, 2);
    }
}

/// On the connected grid, ownership that is closed under neighbors and
/// leaves no reached cell unowned covers every cell as soon as one is owned.
proof fn lemma_spread_everywhere(b: BoundingBox, cells: Seq<Cell>, k0: int)
    requires
        b.wf(),
        cells_wf(b, cells),
        closed_and_settled(b, cells),
        0 <= k0 < cells.len(),
        cells[k0].owner is Some,
    ensures
        forall|k: int| 0 <= k < cells.len() ==> (#[trigger] cells[k]).owner is Some,
{
    let p0 = b.coord_at(k0);
    b.lemma_coord_at(k0);
    assert(cells[k0].coordinates.pos() == p0);
    assert(owned_at(b, cells, p0.0, p0.1)) by {
        assert(GridIdx(p0.0 as isize, p0.1 as isize) == cells[k0].coordinates);
    }
    assert forall|k: int| 0 <= k < cells.len() implies (#[trigger] cells[k]).owner is Some by {
        let p = b.coord_at(k);
        b.lemma_coord_at(k);
        lemma_spread_row(b, cells, p0.0, p0.1, p.0);
        lemma_spread_column(b, cells, p.0, p0.1, p.1);
    }
}

proof fn lemma_turn_keeps_touched<M: Metric>(b: BoundingBox, sites: Seq<PlainSite>, st: RoundState, i: int, c: int)
    requires
        reach_ready(b, sites.len() as int, st),
        0 <= i < sites.len(),
        0 <= c < st.0.len(),
        touched(st.0[c]),
    ensures
        touched(site_turn::<M>(b, sites, st, i).0[c]),
{
    let n = sites.len() as int;
    let who = SiteOwner(i as u32);
    let bc = boundary(b, st.1[i]);
    lemma_boundary_inside(b, st.1[i]);
    lemma_claim_all_owners(b, st.0, bc, who, n);
    lemma_claim_facts(b, st.0, bc, who);
    let co = claim_all(b, st.0, bc, who);
    lemma_resolve_facts::<M>(b, sites, i, co.0, co.2, n);
}

proof fn lemma_round_keeps_touched<M: Metric>(b: BoundingBox, sites: Seq<PlainSite>, st: RoundState, k: int, c: int)
    requires
        reach_ready(b, sites.len() as int, st),
        0 <= k <= sites.len(),
        0 <= c < st.0.len(),
        touched(st.0[c]),
    ensures
        touched(round_upto::<M>(b, sites, st, k).0[c]),
    decreases k,
{
    if k > 0 {
        lemma_round_keeps_touched::<M>(b, sites, st, k - 1, c);
        lemma_round_keeps_reach::<M>(b, sites, st, k - 1);
        lemma_turn_keeps_touched::<M>(b, sites, round_upto::<M>(b, sites, st, k - 1), k - 1, c);
    }
}

/// A reached cell stays reached through every round.
pub proof fn lemma_rounds_keep_touched<M: Metric>(b: BoundingBox, sites: Seq<PlainSite>, st: RoundState, k: nat, c: int)
    requires
        reach_ready(b, sites.len() as int, st),
        0 <= c < st.0.len(),
        touched(st.0[c]),
    ensures
        touched(iterate::<M>(b, sites, st, k).0[c]),
    decreases k,
{
    if k > 0 {
        lemma_rounds_keep_touched::<M>(b, sites, st, (k - 1) as nat, c);
        lemma_rounds_keep_reach::<M>(b, sites, st, (k - 1) as nat);
        lemma_round_keeps_touched::<M>(b, sites, iterate::<M>(b, sites, st, (k - 1) as nat), sites.len() as int, c);
    }
}

/// Coverage: if some cell has been reached when the rounds start (a built
/// tessellation with at least one site), then once they come to rest with no
/// cell left disputed without an owner (no exact tie arose), every cell of the
/// grid has an owner.
pub proof fn lemma_rest_covers_grid<M: Metric>(b: BoundingBox, sites: Seq<PlainSite>, st: RoundState, k: nat, k0: int)
    requires
        reach_ready(b, sites.len() as int, st),
        at_rest(iterate::<M>(b, sites, st, k)),
        0 <= k0 < st.0.len(),
        touched(st.0[k0]),
        forall|c: int| 0 <= c < iterate::<M>(b, sites, st, k).0.len() ==> (
            touched(#[trigger] iterate::<M>(b, sites, st, k).0[c]) ==> iterate::<M>(b, sites, st, k).0[c].owner is Some),
    ensures
        forall|c: int| 0 <= c < iterate::<M>(b, sites, st, k).0.len() ==> (#[trigger] iterate::<M>(b, sites, st, k).0[c]).owner is Some,
{
    lemma_rounds_keep_reach::<M>(b, sites, st, k);
    lemma_rest_reaches_neighbors::<M>(b, sites, st, k);
    lemma_rounds_keep_touched::<M>(b, sites, st, k, k0);
    let fin = iterate::<M>(b, sites, st, k);
    assert(closed_and_settled(b, fin.0));
    lemma_spread_everywhere(b, fin.0, k0);
}


} // verus!
