use vstd::prelude::*;

use core::cmp::Ordering;
use core::marker::PhantomData;

use rayon::iter::{IntoParallelRefIterator, ParallelExtend, ParallelIterator};

use crate::grid::{
    all_inside, claim_all, neighbor_seq, seq_max, seq_min, fits_usize, BoundingBox,
    Cell, Grid, GridIdx, MAX_EXTENT,
};
use crate::metric::{near, Euclidean, Metric};
use crate::site::PlainSite;

verus! {

/// The identity of a site within one tessellation: its position in the site list.
#[derive(Debug, Clone, Copy, PartialEq, Eq, Structural, Hash)]
pub struct SiteOwner(pub u32);

/// Coordinates in row-major key order: by x, then by y.
pub open spec fn key_lt(a: PlainSite, b: PlainSite) -> bool {
    a.0 < b.0 || (a.0 == b.0 && a.1 < b.1)
}

pub open spec fn same_coords(a: PlainSite, b: PlainSite) -> bool {
    a.0 == b.0 && a.1 == b.1
}

/// Strictly increasing by coordinates, so no two sites share a coordinate.
pub open spec fn strictly_sorted(s: Seq<PlainSite>) -> bool {
    forall|i: int, j: int| 0 <= i < j < s.len() ==> key_lt(#[trigger] s[i], #[trigger] s[j])
}

/// Some site of `s` stands at the coordinate of `p`.
pub open spec fn has_coords(s: Seq<PlainSite>, p: PlainSite) -> bool {
    exists|i: int| 0 <= i < s.len() && same_coords(s[i], p)
}

/// No two sites share a coordinate.
pub open spec fn distinct_coords(s: Seq<PlainSite>) -> bool {
    forall|i: int, j: int| 0 <= i < s.len() && 0 <= j < s.len() && i != j ==> !same_coords(#[trigger] s[i], #[trigger] s[j])
}

/// `out` holds one site of `input` for each coordinate that occurs there, and nothing else.
pub open spec fn dedup_of(out: Seq<PlainSite>, input: Seq<PlainSite>) -> bool {
    &&& strictly_sorted(out)
    &&& forall|i: int| 0 <= i < out.len() ==> input.contains(#[trigger] out[i])
    &&& forall|k: int| 0 <= k < input.len() ==> has_coords(out, #[trigger] input[k])
}

/// The sites that lie in the box, in order.
pub open spec fn clip(s: Seq<PlainSite>, b: BoundingBox) -> Seq<PlainSite>
    decreases s.len(),
{
    if s.len() == 0 {
        Seq::empty()
    } else if b.contains(s.last().0 as int, s.last().1 as int) {
        clip(s.drop_last(), b).push(s.last())
    } else {
        clip(s.drop_last(), b)
    }
}

/// The tight box around a nonempty sequence of sites.
pub open spec fn fitted(s: Seq<PlainSite>) -> BoundingBox {
    BoundingBox {
        x_offset: seq_min(s, 0) as isize,
        y_offset: seq_min(s, 1) as isize,
        width: (seq_max(s, 0) - seq_min(s, 0) + 1) as usize,
        height: (seq_max(s, 1) - seq_min(s, 1) + 1) as usize,
    }
}

/// The box a builder resolves to: the one it was given, else the tight fit.
pub open spec fn resolved(bounds: Option<BoundingBox>, s: Seq<PlainSite>) -> BoundingBox {
    match bounds {
        Some(b) => b,
        None => fitted(s),
    }
}

/// The coordinate cell of a site.
pub open spec fn seed(s: PlainSite) -> GridIdx {
    GridIdx(s.0, s.1)
}

/// Collects sites, the metric and the bounds for a tessellation.
pub struct VoronoiBuilder<M: Metric> {
    pub sites: Vec<PlainSite>,
    pub metric: PhantomData<M>,
    pub bounds: Option<BoundingBox>,
}

/// Inserts `s` into a strictly sorted sequence unless its coordinate is already there.
fn insert_unique(out: &mut Vec<PlainSite>, s: PlainSite)
    requires
        strictly_sorted(old(out)@),
    ensures
        strictly_sorted(final(out)@),
        forall|i: int| 0 <= i < final(out)@.len() ==> (#[trigger] final(out)@[i] == s || old(out)@.contains(final(out)@[i])),
        forall|i: int| 0 <= i < old(out)@.len() ==> final(out)@.contains(#[trigger] old(out)@[i]),
        exists|i: int| 0 <= i < final(out)@.len() && same_coords(#[trigger] final(out)@[i], s),
        final(out)@.len() <= old(out)@.len() + 1,
{
    let mut pos: usize = 0;
    while pos < out.len() && key_lt_exec(&out[pos], &s)
        invariant
            pos <= out.len(),
            forall|k: int| 0 <= k < pos ==> key_lt(#[trigger] out@[k], s),
        decreases out.len() - pos,
    {
        pos = pos + 1;
    }
    if pos < out.len() && out[pos].0 == s.0 && out[pos].1 == s.1 {
        assert(same_coords(out@[pos as int], s));
        assert forall|i: int| 0 <= i < out@.len() implies out@.contains(#[trigger] out@[i]) by {}
        return;
    }
    let ghost before = out@;
    out.insert(pos, s);
    assert(out@ == before.insert(pos as int, s));
    assert forall|i: int, j: int| 0 <= i < j < out@.len() implies key_lt(#[trigger] out@[i], #[trigger] out@[j]) by {
        if j < pos {
        } else if j == pos {
        } else if i < pos {
            assert(key_lt(before[j - 1], s) || same_coords(before[j - 1], s) || key_lt(s, before[j - 1]));
            if pos < before.len() {
                assert(key_lt(s, before[pos as int]));
                if j - 1 > pos {
                    assert(key_lt(before[pos as int], before[j - 1]));
                }
            }
        } else if i == pos {
            assert(key_lt(s, before[pos as int]));
            if j - 1 > pos {
                assert(key_lt(before[pos as int], before[j - 1]));
            }
        } else {
            assert(key_lt(before[i - 1], before[j - 1]));
        }
    }
    assert(same_coords(out@[pos as int], s));
    assert forall|i: int| 0 <= i < before.len() implies out@.contains(#[trigger] before[i]) by {
        if i < pos {
            assert(out@[i] == before[i]);
        } else {
            assert(out@[i + 1] == before[i]);
        }
    }
    assert forall|i: int| 0 <= i < out@.len() implies (#[trigger] out@[i] == s || before.contains(out@[i])) by {
        if i < pos {
            assert(out@[i] == before[i]);
        } else if i > pos {
            assert(out@[i] == before[i - 1]);
        }
    }
}

fn key_lt_exec(a: &PlainSite, b: &PlainSite) -> (r: bool)
    ensures
        r == key_lt(*a, *b),
{
    a.0 < b.0 || (a.0 == b.0 && a.1 < b.1)
}

impl VoronoiBuilder<Euclidean> {
    /// Starts from a site list: sorted by coordinates, one site kept per coordinate.
    pub fn new(sites: Vec<PlainSite>) -> (r: Self)
        ensures
            dedup_of(r.sites@, sites@),
            r.sites.len() <= sites.len(),
            r.bounds is None,
    {
        let mut out: Vec<PlainSite> = Vec::new();
        let mut k: usize = 0;
        while k < sites.len()
            invariant
                k <= sites.len(),
                out.len() <= k,
                strictly_sorted(out@),
                forall|i: int| 0 <= i < out@.len() ==> sites@.take(k as int).contains(#[trigger] out@[i]),
                forall|j: int| 0 <= j < k ==> has_coords(out@, #[trigger] sites@[j]),
            decreases sites.len() - k,
        {
            let ghost before = out@;
            insert_unique(&mut out, sites[k]);
            assert forall|i: int| 0 <= i < out@.len() implies sites@.take(k + 1).contains(#[trigger] out@[i]) by {
                if out@[i] == sites@[k as int] {
                    assert(sites@.take(k + 1)[k as int] == sites@[k as int]);
                } else {
                    let m = choose|m: int| 0 <= m < before.len() && before[m] == out@[i];
                    assert(sites@.take(k as int).contains(before[m]));
                    let q = choose|q: int| 0 <= q < k && sites@.take(k as int)[q] == before[m];
                    assert(sites@.take(k + 1)[q] == before[m]);
                }
            }
            assert forall|j: int| 0 <= j < k + 1 implies has_coords(out@, #[trigger] sites@[j]) by {
                if j < k {
                    let i0 = choose|i: int| 0 <= i < before.len() && same_coords(before[i], sites@[j]);
                    assert(out@.contains(before[i0]));
                    let i1 = choose|i: int| 0 <= i < out@.len() && out@[i] == before[i0];
                    assert(same_coords(out@[i1], sites@[j]));
                } else {
                    let i1 = choose|i: int| 0 <= i < out@.len() && same_coords(out@[i], sites@[k as int]);
                    assert(same_coords(out@[i1], sites@[j]));
                }
            }
            k = k + 1;
        }
        assert(sites@.take(k as int) == sites@);
        VoronoiBuilder { sites: out, metric: PhantomData, bounds: None }
    }
}

impl<M: Metric> VoronoiBuilder<M> {
    /// The same builder with another metric.
    pub fn metric<E: Metric>(self) -> (r: VoronoiBuilder<E>)
        ensures
            r.sites == self.sites,
            r.bounds == self.bounds,
    {
        VoronoiBuilder { metric: PhantomData, sites: self.sites, bounds: self.bounds }
    }

    /// The same builder with explicit bounds.
    pub fn bounds(self, bounds: BoundingBox) -> (r: Self)
        ensures
            r.sites == self.sites,
            r.bounds == Some(bounds),
    {
        VoronoiBuilder { metric: PhantomData, sites: self.sites, bounds: Some(bounds) }
    }
}


/// Every owned cell names one of the first `n` sites.
pub open spec fn owners_below(cells: Seq<Cell>, n: int) -> bool {
    forall|k: int| 0 <= k < cells.len() ==> ((#[trigger] cells[k]).owner matches Some(o) ==> o.0 < n)
}

/// Each disputed coordinate lies in the box and names one of the first `n` sites.
pub open spec fn entries_ok(b: BoundingBox, es: Seq<(GridIdx, SiteOwner)>, n: int) -> bool {
    forall|j: int| 0 <= j < es.len() ==> b.contains((#[trigger] es[j]).0.0 as int, es[j].0.1 as int) && es[j].1.0 < n
}

pub proof fn lemma_claim_all_owners(b: BoundingBox, cells: Seq<Cell>, idxs: Seq<GridIdx>, who: SiteOwner, n: int)
    requires
        b.wf(),
        crate::grid::cells_wf(b, cells),
        all_inside(b, idxs),
        owners_below(cells, n),
        who.0 < n,
    ensures
        owners_below(claim_all(b, cells, idxs, who).0, n),
        all_inside(b, claim_all(b, cells, idxs, who).1),
        entries_ok(b, claim_all(b, cells, idxs, who).2, n),
        crate::grid::cells_wf(b, claim_all(b, cells, idxs, who).0),
    decreases idxs.len(),
{
    crate::grid::lemma_claim_all_wf(b, cells, idxs, who);
    if idxs.len() > 0 {
        let prev = idxs.drop_last();
        assert(all_inside(b, prev)) by {
            assert forall|i: int| 0 <= i < prev.len() implies b.contains(#[trigger] prev[i].0 as int, prev[i].1 as int) by {
                assert(prev[i] == idxs[i]);
            }
        }
        lemma_claim_all_owners(b, cells, prev, who, n);
        let p = idxs.last();
        assert(b.contains(idxs[idxs.len() - 1].0 as int, idxs[idxs.len() - 1].1 as int));
        b.lemma_index_of(p.0 as int, p.1 as int);
    }
}

/// The neighbors of every coordinate of `nc`, in order: the next candidates of a site.
pub open spec fn boundary(b: BoundingBox, nc: Seq<GridIdx>) -> Seq<GridIdx>
    decreases nc.len(),
{
    if nc.len() == 0 {
        Seq::empty()
    } else {
        boundary(b, nc.drop_last()) + neighbor_seq(b, nc.last())
    }
}

pub proof fn lemma_boundary_inside(b: BoundingBox, nc: Seq<GridIdx>)
    requires
        b.wf(),
    ensures
        all_inside(b, boundary(b, nc)),
    decreases nc.len(),
{
    if nc.len() > 0 {
        lemma_boundary_inside(b, nc.drop_last());
        let p = nc.last();
        crate::grid::lemma_neighbors_from_inside(b, p.0 as int, p.1 as int, 0);
        let l = boundary(b, nc.drop_last());
        let r = neighbor_seq(b, p);
        assert forall|i: int| 0 <= i < (l + r).len() implies b.contains(#[trigger] (l + r)[i].0 as int, (l + r)[i].1 as int) by {
            if i < l.len() {
                assert((l + r)[i] == l[i]);
            } else {
                assert((l + r)[i] == r[i - l.len()]);
            }
        }
    }
}

/// Cells after settling disputes, and the coordinates the contender won.
pub type ResolveState = (Seq<Cell>, Seq<GridIdx>);

/// Settles one dispute of site `me` against the former owner: the strictly
/// closer site takes the cell; on equal distances it stays disputed and unowned.
pub open spec fn resolve_next<M: Metric>(
    b: BoundingBox,
    sites: Seq<PlainSite>,
    me: int,
    st: ResolveState,
    e: (GridIdx, SiteOwner),
) -> ResolveState {
    let k = b.index_of(e.0.0 as int, e.0.1 as int);
    let c = st.0[k];
    if M::closer(sites[me], sites[e.1.0 as int], e.0) {
        (st.0.update(k, Cell { owner: Some(SiteOwner(me as u32)), ..c }), st.1.push(e.0))
    } else if M::closer(sites[e.1.0 as int], sites[me], e.0) {
        (st.0.update(k, Cell { owner: Some(e.1), ..c }), st.1)
    } else {
        st
    }
}

pub open spec fn resolve_all<M: Metric>(
    b: BoundingBox,
    sites: Seq<PlainSite>,
    me: int,
    cells: Seq<Cell>,
    es: Seq<(GridIdx, SiteOwner)>,
) -> ResolveState
    decreases es.len(),
{
    if es.len() == 0 {
        (cells, Seq::empty())
    } else {
        resolve_next::<M>(b, sites, me, resolve_all::<M>(b, sites, me, cells, es.drop_last()), es.last())
    }
}

/// Cells and the cells each site claimed in its last turn.
pub type RoundState = (Seq<Cell>, Seq<Seq<GridIdx>>);

/// The turn of site `i`: claim the neighbors of its last claims, then settle disputes.
pub open spec fn site_turn<M: Metric>(b: BoundingBox, sites: Seq<PlainSite>, st: RoundState, i: int) -> RoundState {
    let co = claim_all(b, st.0, boundary(b, st.1[i]), SiteOwner(i as u32));
    let rr = resolve_all::<M>(b, sites, i, co.0, co.2);
    (rr.0, st.1.update(i, co.1 + rr.1))
}

/// The first `k` turns of a round.
pub open spec fn round_upto<M: Metric>(b: BoundingBox, sites: Seq<PlainSite>, st: RoundState, k: int) -> RoundState
    decreases k,
{
    if k <= 0 {
        st
    } else {
        site_turn::<M>(b, sites, round_upto::<M>(b, sites, st, k - 1), k - 1)
    }
}

/// One round: every site takes its turn, in ascending order.
pub open spec fn step_spec<M: Metric>(b: BoundingBox, sites: Seq<PlainSite>, st: RoundState) -> RoundState {
    round_upto::<M>(b, sites, st, sites.len() as int)
}

/// `k` rounds.
pub open spec fn iterate<M: Metric>(b: BoundingBox, sites: Seq<PlainSite>, st: RoundState, k: nat) -> RoundState
    decreases k,
{
    if k == 0 {
        st
    } else {
        step_spec::<M>(b, sites, iterate::<M>(b, sites, st, (k - 1) as nat))
    }
}

/// No site claimed anything in its last turn.
pub open spec fn at_rest(st: RoundState) -> bool {
    forall|i: int| 0 <= i < st.1.len() ==> (#[trigger] st.1[i]).len() == 0
}

/// Per-site round state.
#[derive(Debug)]
pub struct SiteWrapper {
    pub id: SiteOwner,
    pub newly_claimed: Vec<GridIdx>,
    pub boundary_chain: Vec<GridIdx>,
    pub site: PlainSite,
}

/// Relies on rayon's `par_iter`, `flat_map` and `Vec::par_extend`: the
/// neighbor lists are joined in the order of the input coordinates.
#[verifier::external_body]
fn expand_frontier(claimed: &Vec<GridIdx>, bounds: &BoundingBox) -> (r: Vec<GridIdx>)
    requires
        bounds.wf(),
    ensures
        r@ == boundary(*bounds, claimed@),
{
    let mut out: Vec<GridIdx> = Vec::new();
    out.par_extend(claimed.par_iter().flat_map(|idx| idx.neighbor_list(bounds)));
    out
}

/// A tessellation in progress: the grid and the round state of every site.
pub struct VoronoiTesselation<M: Metric> {
    pub sites: Vec<SiteWrapper>,
    pub metric: PhantomData<M>,
    pub grid: Grid,
}

impl<M: Metric> VoronoiTesselation<M> {
    pub open spec fn site_list(&self) -> Seq<PlainSite> {
        self.sites@.map_values(|w: SiteWrapper| w.site)
    }

    pub open spec fn fronts(&self) -> Seq<Seq<GridIdx>> {
        self.sites@.map_values(|w: SiteWrapper| w.newly_claimed@)
    }

    pub open spec fn state(&self) -> RoundState {
        (self.grid.data@, self.fronts())
    }

    pub open spec fn wf(&self) -> bool {
        &&& self.grid.wf()
        &&& self.grid.bounds.width <= MAX_EXTENT
        &&& self.grid.bounds.height <= MAX_EXTENT
        &&& self.sites.len() <= u32::MAX
        &&& owners_below(self.grid.data@, self.sites.len() as int)
        &&& forall|i: int| 0 <= i < self.sites.len() ==> {
            &&& (#[trigger] self.sites@[i]).id == SiteOwner(i as u32)
            &&& self.grid.bounds.contains(self.sites@[i].site.0 as int, self.sites@[i].site.1 as int)
            &&& M::admits(self.sites@[i].site.2 as int)
            &&& all_inside(self.grid.bounds, self.sites@[i].newly_claimed@)
        }
    }

    /// The sites that take part, in the order of their identities.
    pub fn sites(&self) -> (r: Vec<PlainSite>)
        ensures
            r@ == self.site_list(),
    {
        let mut out: Vec<PlainSite> = Vec::new();
        let mut i: usize = 0;
        while i < self.sites.len()
            invariant
                i <= self.sites.len(),
                out@ == self.site_list().take(i as int),
            decreases self.sites.len() - i,
        {
            out.push(self.sites[i].site);
            assert(out@ =~= self.site_list().take(i + 1));
            i = i + 1;
        }
        assert(out@ =~= self.site_list());
        out
    }

    pub fn bounds(&self) -> (r: &BoundingBox)
        ensures
            *r == self.grid.bounds,
    {
        self.grid.bounds()
    }

    /// Whether some site claimed a cell in its last turn.
    fn has_newly_claimed(&self) -> (r: bool)
        ensures
            r == !at_rest(self.state()),
    {
        let mut i: usize = 0;
        while i < self.sites.len()
            invariant
                i <= self.sites.len(),
                forall|j: int| 0 <= j < i ==> (#[trigger] self.sites@[j]).newly_claimed@.len() == 0,
            decreases self.sites.len() - i,
        {
            if self.sites[i].newly_claimed.len() > 0 {
                assert(self.fronts()[i as int].len() > 0);
                assert(self.state().1[i as int].len() > 0);
                return true;
            }
            i = i + 1;
        }
        assert forall|j: int| 0 <= j < self.state().1.len() implies (#[trigger] self.state().1[j]).len() == 0 by {
            assert(self.sites@[j].newly_claimed@.len() == 0);
        }
        false
    }

    /// Settles the disputes of site `me`, in order: the strictly closer site
    /// takes the cell, and on equal distances the cell stays disputed with no owner.
    fn handle_conflicts(
        sites: &Vec<SiteWrapper>,
        me: usize,
        contested: &Vec<(GridIdx, SiteOwner)>,
        grid: &mut Grid,
    ) -> (r: Vec<GridIdx>)
        requires
            old(grid).wf(),
            old(grid).bounds.width <= MAX_EXTENT,
            old(grid).bounds.height <= MAX_EXTENT,
            me < sites.len(),
            sites.len() <= u32::MAX,
            owners_below(old(grid).data@, sites.len() as int),
            entries_ok(old(grid).bounds, contested@, sites.len() as int),
            forall|i: int| 0 <= i < sites.len() ==> {
                &&& old(grid).bounds.contains((#[trigger] sites@[i]).site.0 as int, sites@[i].site.1 as int)
                &&& M::admits(sites@[i].site.2 as int)
            },
        ensures
            final(grid).wf(),
            final(grid).bounds == old(grid).bounds,
            owners_below(final(grid).data@, sites.len() as int),
            all_inside(old(grid).bounds, r@),
            (final(grid).data@, r@) == resolve_all::<M>(
                old(grid).bounds,
                sites@.map_values(|w: SiteWrapper| w.site),
                me as int,
                old(grid).data@,
                contested@,
            ),
    {
        let ghost site_seq = sites@.map_values(|w: SiteWrapper| w.site);
        let ghost b = grid.bounds;
        let mut claimed: Vec<GridIdx> = Vec::new();
        let mut j: usize = 0;
        while j < contested.len()
            invariant
                j <= contested.len(),
                grid.wf(),
                grid.bounds == b,
                b.width <= MAX_EXTENT,
                b.height <= MAX_EXTENT,
                me < sites.len(),
                sites.len() <= u32::MAX,
                site_seq == sites@.map_values(|w: SiteWrapper| w.site),
                owners_below(grid.data@, sites.len() as int),
                entries_ok(b, contested@, sites.len() as int),
                all_inside(b, claimed@),
                forall|i: int| 0 <= i < sites.len() ==> {
                    &&& b.contains((#[trigger] sites@[i]).site.0 as int, sites@[i].site.1 as int)
                    &&& M::admits(sites@[i].site.2 as int)
                },
                (grid.data@, claimed@) == resolve_all::<M>(b, site_seq, me as int, old(grid).data@, contested@.take(j as int)),
            decreases contested.len() - j,
        {
            let (idx, old_owner) = contested[j];
            assert(contested@.take(j as int + 1).drop_last() == contested@.take(j as int));
            assert(contested@.take(j as int + 1).last() == contested@[j as int]);
            assert(b.contains(contested@[j as int].0.0 as int, contested@[j as int].0.1 as int));
            let ours = &sites[me].site;
            let theirs = &sites[old_owner.0 as usize].site;
            assert(site_seq[me as int] == *ours);
            assert(site_seq[old_owner.0 as int] == *theirs);
            assert(near(*ours, idx) && near(*theirs, idx));
            let k = grid.index(idx);
            let cell = grid.data[k];
            match M::compare_distances(ours, theirs, &idx) {
                Ordering::Less => {
                    grid.data.set(k, Cell { owner: Some(SiteOwner(me as u32)), ..cell });
                    claimed.push(idx);
                },
                Ordering::Greater => {
                    grid.data.set(k, Cell { owner: Some(old_owner), ..cell });
                },
                Ordering::Equal => {},
            }
            j = j + 1;
        }
        assert(contested@.take(contested.len() as int) == contested@);
        claimed
    }

    /// One turn of site `i`.
    fn site_turn(&mut self, i: usize)
        requires
            old(self).wf(),
            i < old(self).sites.len(),
        ensures
            final(self).wf(),
            final(self).grid.bounds == old(self).grid.bounds,
            final(self).site_list() == old(self).site_list(),
            final(self).sites.len() == old(self).sites.len(),
            final(self).state() == site_turn::<M>(old(self).grid.bounds, old(self).site_list(), old(self).state(), i as int),
    {
        let bounds = self.grid.bounds;
        let ghost n = self.sites.len() as int;
        let chain = expand_frontier(&self.sites[i].newly_claimed, &bounds);
        proof {
            lemma_boundary_inside(bounds, self.sites@[i as int].newly_claimed@);
            lemma_claim_all_owners(bounds, self.grid.data@, chain@, SiteOwner(i as u32), n);
        }
        let (mut claimed, contested) = self.grid.claim_cells(&chain, SiteOwner(i as u32));
        let mut won = Self::handle_conflicts(&self.sites, i, &contested, &mut self.grid);
        claimed.append(&mut won);
        let ghost old_sites = self.sites@;
        let mut w = self.sites.remove(i);
        w.newly_claimed = claimed;
        w.boundary_chain = chain;
        self.sites.insert(i, w);
        assert(self.sites@ == old_sites.update(i as int, w));
        assert(self.site_list() =~= old(self).site_list());
        assert(self.fronts() =~= old(self).fronts().update(i as int, self.sites@[i as int].newly_claimed@));
        assert forall|j: int| 0 <= j < self.sites.len() implies all_inside(self.grid.bounds, (#[trigger] self.sites@[j]).newly_claimed@) by {
            if j == i {
                assert(all_inside(bounds, self.sites@[j].newly_claimed@)) by {
                    let c = self.sites@[j].newly_claimed@;
                    assert forall|q: int| 0 <= q < c.len() implies bounds.contains(#[trigger] c[q].0 as int, c[q].1 as int) by {}
                }
            }
        }
    }

    /// Runs one round: each site, in ascending order, claims the neighbors of
    /// the cells it claimed last round and settles the disputes that arise.
    pub fn step(&mut self)
        requires
            old(self).wf(),
        ensures
            final(self).wf(),
            final(self).grid.bounds == old(self).grid.bounds,
            final(self).site_list() == old(self).site_list(),
            final(self).state() == step_spec::<M>(old(self).grid.bounds, old(self).site_list(), old(self).state()),
    {
        let mut i: usize = 0;
        while i < self.sites.len()
            invariant
                self.wf(),
                i <= self.sites.len(),
                self.sites.len() == old(self).sites.len(),
                self.grid.bounds == old(self).grid.bounds,
                self.site_list() == old(self).site_list(),
                self.state() == round_upto::<M>(old(self).grid.bounds, old(self).site_list(), old(self).state(), i as int),
            decreases self.sites.len() - i,
        {
            self.site_turn(i);
            i = i + 1;
        }
    }

    /// The facts that the progress argument needs hold of a well-formed tessellation.
    proof fn lemma_wf_ready(&self)
        requires
            self.wf(),
        ensures
            crate::progress::progress_ready::<M>(self.grid.bounds, self.site_list(), self.state()),
    {
        assert forall|j: int| 0 <= j < self.sites.len() implies all_inside(self.grid.bounds, #[trigger] self.state().1[j]) by {
            assert(self.state().1[j] == self.sites@[j].newly_claimed@);
        }
        assert forall|t: int| 0 <= t < self.site_list().len() implies M::admits((#[trigger] self.site_list()[t]).2 as int) by {
            assert(self.site_list()[t] == self.sites@[t].site);
        }
    }

    /// Runs rounds until a round in which no site claims a cell. The state it
    /// stops in is the first state at rest that the rounds reach.
    pub fn compute(&mut self)
        requires
            old(self).wf(),
        ensures
            final(self).wf(),
            final(self).grid.bounds == old(self).grid.bounds,
            final(self).site_list() == old(self).site_list(),
            at_rest(final(self).state()),
            exists|k: nat| {
                &&& final(self).state() == iterate::<M>(old(self).grid.bounds, old(self).site_list(), old(self).state(), k)
                &&& forall|m: nat| m < k ==> !at_rest(#[trigger] iterate::<M>(old(self).grid.bounds, old(self).site_list(), old(self).state(), m))
            },
            at_rest(old(self).state()) ==> final(self).state() == old(self).state(),
    {
        let ghost b = self.grid.bounds;
        let ghost sl = self.site_list();
        let ghost start = self.state();
        let ghost mut k: nat = 0;
        while self.has_newly_claimed()
            invariant
                self.wf(),
                self.grid.bounds == b,
                self.site_list() == sl,
                b == old(self).grid.bounds,
                sl == old(self).site_list(),
                start == old(self).state(),
                self.state() == iterate::<M>(b, sl, start, k),
                forall|m: nat| m < k ==> !at_rest(#[trigger] iterate::<M>(b, sl, start, m)),
            decreases crate::progress::potential::<M>(self.site_list(), self.grid.data@)
                + crate::progress::front_total(self.fronts(), self.sites.len() as int),
        {
            let ghost pre = self.state();
            proof {
                self.lemma_wf_ready();
                crate::progress::lemma_step_progress::<M>(b, sl, pre);
                assert(sl.len() == self.sites.len());
                assert(!at_rest(pre));
            }
            self.step();
            proof {
                assert(self.state() == crate::discrete_voronoi::step_spec::<M>(b, sl, pre));
                assert(sl.len() == self.sites.len());
                assert(self.state().0 == self.grid.data@);
                assert(self.state().1 == self.fronts());
                assert(crate::progress::potential::<M>(self.site_list(), self.grid.data@)
                    + crate::progress::front_total(self.fronts(), self.sites.len() as int)
                    < crate::progress::potential::<M>(sl, pre.0) + crate::progress::front_total(pre.1, sl.len() as int));
                k = k + 1;
            }
        }
        proof {
            if k > 0 {
                assert(!at_rest(iterate::<M>(b, sl, start, 0)));
            }
        }
    }

    /// Empties every cell of the grid.
    pub fn reset_grid(&mut self)
        requires
            old(self).wf(),
        ensures
            final(self).wf(),
            final(self).grid.bounds == old(self).grid.bounds,
            final(self).fronts() == old(self).fronts(),
            final(self).site_list() == old(self).site_list(),
            forall|k: int| 0 <= k < final(self).grid.data.len() ==> (#[trigger] final(self).grid.data@[k]).owner is None
                && !final(self).grid.data@[k].contested,
    {
        self.grid.clear();
    }
}


impl<M: Metric> VoronoiTesselation<M> {
    /// Claims for every site its own coordinate cell and records it as the
    /// site's newest claim.
    pub fn init_sites(&mut self)
        requires
            old(self).wf(),
            distinct_coords(old(self).site_list()),
            forall|i: int| 0 <= i < old(self).sites.len() ==> {
                let c = #[trigger] crate::grid::cell_at(old(self).grid.bounds, old(self).grid.data@, seed(old(self).sites@[i].site));
                c.owner is None && !c.contested
            },
        ensures
            final(self).wf(),
            final(self).grid.bounds == old(self).grid.bounds,
            final(self).site_list() == old(self).site_list(),
            forall|i: int| 0 <= i < final(self).sites.len() ==> (#[trigger] final(self).fronts()[i]) == old(self).fronts()[i].push(seed(old(self).site_list()[i])),
            forall|i: int| 0 <= i < final(self).sites.len() ==> (#[trigger] crate::grid::cell_at(final(self).grid.bounds, final(self).grid.data@, seed(old(self).site_list()[i]))).owner == Some(SiteOwner(i as u32))
                && !crate::grid::cell_at(final(self).grid.bounds, final(self).grid.data@, seed(old(self).site_list()[i])).contested,
            forall|k: int| 0 <= k < final(self).grid.data.len() && (forall|i: int| 0 <= i < final(self).sites.len() ==> k != old(self).grid.bounds.index_of(#[trigger] old(self).site_list()[i].0 as int, old(self).site_list()[i].1 as int)) ==> #[trigger] final(self).grid.data@[k] == old(self).grid.data@[k],
    {
        let ghost b = self.grid.bounds;
        let ghost n = self.sites.len() as int;
        let ghost sl = self.site_list();
        let mut i: usize = 0;
        while i < self.sites.len()
            invariant
                self.wf(),
                i <= self.sites.len(),
                self.sites.len() == n,
                self.grid.bounds == b,
                self.site_list() == sl,
                distinct_coords(sl),
                forall|j: int| 0 <= j < n ==> (#[trigger] self.fronts()[j]) == if j < i { old(self).fronts()[j].push(seed(sl[j])) } else { old(self).fronts()[j] },
                forall|j: int| 0 <= j < n ==> {
                    let c = #[trigger] crate::grid::cell_at(b, self.grid.data@, seed(sl[j]));
                    if j < i { c.owner == Some(SiteOwner(j as u32)) && !c.contested } else { c.owner is None && !c.contested }
                },
                forall|k: int| 0 <= k < self.grid.data.len() && (forall|j: int| 0 <= j < n ==> k != b.index_of(#[trigger] sl[j].0 as int, sl[j].1 as int)) ==> #[trigger] self.grid.data@[k] == old(self).grid.data@[k],
            decreases n - i,
        {
            let site = self.sites[i].site;
            let p = GridIdx(site.0, site.1);
            let ghost pre_fronts = self.fronts();
            assert(sl[i as int] == site);
            let mut to_claim: Vec<GridIdx> = Vec::new();
            to_claim.push(p);
            let ghost cells0 = self.grid.data@;
            proof {
                b.lemma_index_of(site.0 as int, site.1 as int);
                assert(to_claim@.drop_last() =~= Seq::<GridIdx>::empty());
            }
            let ghost ki = b.index_of(site.0 as int, site.1 as int);
            assert(cells0[ki].owner is None && !cells0[ki].contested) by {
                assert(crate::grid::cell_at(b, cells0, seed(sl[i as int])) == cells0[ki]);
            }
            assert(claim_all(b, cells0, to_claim@.drop_last(), SiteOwner(i as u32)) == (cells0, Seq::<GridIdx>::empty(), Seq::<(GridIdx, SiteOwner)>::empty()));
            assert(to_claim@.last() == p);
            let (claimed, contested) = self.grid.claim_cells(&to_claim, SiteOwner(i as u32));
            assert(self.grid.data@ == cells0.update(ki, Cell { owner: Some(SiteOwner(i as u32)), ..cells0[ki] }));
            assert forall|j: int| 0 <= j < n && j != i implies b.index_of(#[trigger] sl[j].0 as int, sl[j].1 as int) != ki by {
                b.lemma_index_of(sl[j].0 as int, sl[j].1 as int);
                assert(self.sites@[j].site == sl[j]);
                assert(!same_coords(sl[j], sl[i as int]));
            }
            assert forall|j: int| 0 <= j < n implies {
                let c = #[trigger] crate::grid::cell_at(b, self.grid.data@, seed(sl[j]));
                if j < i + 1 { c.owner == Some(SiteOwner(j as u32)) && !c.contested } else { c.owner is None && !c.contested }
            } by {
                assert(self.sites@[j].site == sl[j]);
                if j != i {
                    assert(b.index_of(sl[j].0 as int, sl[j].1 as int) != ki);
                    assert(self.sites@[j].site == sl[j]);
                    b.lemma_index_of(sl[j].0 as int, sl[j].1 as int);
                    assert(crate::grid::cell_at(b, cells0, seed(sl[j])) == crate::grid::cell_at(b, self.grid.data@, seed(sl[j])));
                } else {
                    assert(b.index_of(seed(sl[j]).0 as int, seed(sl[j]).1 as int) == ki);
                }
            }
            let ghost old_sites = self.sites@;
            let mut w = self.sites.remove(i);
            w.newly_claimed.push(p);
            self.sites.insert(i, w);
            assert(self.sites@ == old_sites.update(i as int, w));
            assert(self.site_list() =~= sl);
            assert forall|j: int| 0 <= j < n implies (#[trigger] self.fronts()[j]) == if j < i + 1 { old(self).fronts()[j].push(seed(sl[j])) } else { old(self).fronts()[j] } by {
                if j == i {
                    assert(seed(sl[j]) == p);
                    assert(pre_fronts[j] == old(self).fronts()[j]);
                    assert(old_sites[j].newly_claimed@ == pre_fronts[j]);
                    assert(self.sites@[j].newly_claimed@ == old_sites[j].newly_claimed@.push(p));
                } else {
                    assert(self.sites@[j] == old_sites[j]);
                    assert(pre_fronts[j] == if j < i { old(self).fronts()[j].push(seed(sl[j])) } else { old(self).fronts()[j] });
                    assert(self.fronts()[j] == pre_fronts[j]);
                }
            }
            assert forall|j: int| 0 <= j < self.sites.len() implies {
                &&& (#[trigger] self.sites@[j]).id == SiteOwner(j as u32)
                &&& b.contains(self.sites@[j].site.0 as int, self.sites@[j].site.1 as int)
                &&& M::admits(self.sites@[j].site.2 as int)
                &&& all_inside(b, self.sites@[j].newly_claimed@)
            } by {
                if j == i {
                    let c = self.sites@[j].newly_claimed@;
                    assert forall|q: int| 0 <= q < c.len() implies b.contains(#[trigger] c[q].0 as int, c[q].1 as int) by {
                        if q == c.len() - 1 {
                            assert(c[q] == p);
                        } else {
                            assert(c[q] == old_sites[j].newly_claimed@[q]);
                        }
                    }
                }
            }
            i = i + 1;
        }
    }
}

impl<M: Metric> VoronoiBuilder<M> {
    /// Resolves the bounds, drops the sites outside them, numbers the rest
    /// from zero and claims each site's own cell.
    pub fn build(self) -> (r: VoronoiTesselation<M>)
        requires
            strictly_sorted(self.sites@),
            self.sites.len() <= u32::MAX,
            forall|k: int| 0 <= k < self.sites.len() ==> M::admits((#[trigger] self.sites@[k]).2 as int),
            self.bounds is None ==> self.sites.len() > 0 && fits_usize(self.sites@),
            self.bounds matches Some(b) ==> b.wf(),
            resolved(self.bounds, self.sites@).width <= MAX_EXTENT,
            resolved(self.bounds, self.sites@).height <= MAX_EXTENT,
        ensures
            r.wf(),
            r.grid.bounds == resolved(self.bounds, self.sites@),
            r.site_list() == clip(self.sites@, r.grid.bounds),
            forall|i: int| 0 <= i < r.sites.len() ==> (#[trigger] r.fronts()[i]) == seq![seed(r.site_list()[i])],
            forall|i: int| 0 <= i < r.sites.len() ==> (#[trigger] crate::grid::cell_at(r.grid.bounds, r.grid.data@, seed(r.site_list()[i]))).owner == Some(SiteOwner(i as u32)),
            forall|k: int| 0 <= k < r.grid.data.len() ==> !(#[trigger] r.grid.data@[k]).contested,
            forall|k: int| 0 <= k < r.grid.data.len() ==> ((#[trigger] r.grid.data@[k]).owner matches Some(o) ==> k == r.grid.bounds.index_of(r.site_list()[o.0 as int].0 as int, r.site_list()[o.0 as int].1 as int)),
            crate::reach::reach_ready(r.grid.bounds, r.sites.len() as int, r.state()),
    {
        let bounds = match self.bounds {
            Some(value) => value,
            None => BoundingBox::fit_to_sites(&self.sites),
        };
        assert(bounds == resolved(self.bounds, self.sites@));
        let mut wrapped: Vec<SiteWrapper> = Vec::new();
        let mut k: usize = 0;
        while k < self.sites.len()
            invariant
                k <= self.sites.len(),
                bounds.wf(),
                strictly_sorted(self.sites@),
                self.sites.len() <= u32::MAX,
                forall|q: int| 0 <= q < self.sites.len() ==> M::admits((#[trigger] self.sites@[q]).2 as int),
                wrapped@.map_values(|w: SiteWrapper| w.site) == clip(self.sites@.take(k as int), bounds),
                wrapped.len() <= k,
                strictly_sorted(wrapped@.map_values(|w: SiteWrapper| w.site)),
                k < self.sites.len() ==> forall|q: int| 0 <= q < wrapped.len() ==> key_lt((#[trigger] wrapped@[q]).site, self.sites@[k as int]),
                forall|q: int| 0 <= q < wrapped.len() ==> {
                    &&& (#[trigger] wrapped@[q]).id == SiteOwner(q as u32)
                    &&& bounds.contains(wrapped@[q].site.0 as int, wrapped@[q].site.1 as int)
                    &&& M::admits(wrapped@[q].site.2 as int)
                    &&& wrapped@[q].newly_claimed@.len() == 0
                },
            decreases self.sites.len() - k,
        {
            let site = self.sites[k];
            assert(self.sites@.take(k as int + 1).drop_last() == self.sites@.take(k as int));
            assert(self.sites@.take(k as int + 1).last() == site);
            let ghost before = wrapped@;
            if GridIdx(site.0, site.1).inside(&bounds) {
                let id = SiteOwner(wrapped.len() as u32);
                wrapped.push(SiteWrapper { id, newly_claimed: Vec::new(), boundary_chain: Vec::new(), site });
                assert(wrapped@.map_values(|w: SiteWrapper| w.site) =~= before.map_values(|w: SiteWrapper| w.site).push(site));
            }
            if k + 1 < self.sites.len() {
                assert(key_lt(self.sites@[k as int], self.sites@[k + 1]));
            }
            k = k + 1;
        }
        assert(self.sites@.take(k as int) == self.sites@);
        let mut tesselation = VoronoiTesselation { sites: wrapped, metric: PhantomData, grid: Grid::new(bounds) };
        assert(tesselation.site_list() == clip(self.sites@, bounds));
        assert forall|i: int| 0 <= i < tesselation.sites.len() implies {
            let c = #[trigger] crate::grid::cell_at(tesselation.grid.bounds, tesselation.grid.data@, seed(tesselation.sites@[i].site));
            c.owner is None && !c.contested
        } by {
            let st = tesselation.sites@[i].site;
            bounds.lemma_index_of(st.0 as int, st.1 as int);
        }
        proof {
            assert forall|i: int| 0 <= i < tesselation.fronts().len() implies (#[trigger] tesselation.fronts()[i]).len() == 0 by {}
        }
        assert(distinct_coords(tesselation.site_list())) by {
            let sl0 = tesselation.site_list();
            assert forall|i: int, j: int| 0 <= i < sl0.len() && 0 <= j < sl0.len() && i != j implies !same_coords(#[trigger] sl0[i], #[trigger] sl0[j]) by {
                if i < j {
                    assert(key_lt(sl0[i], sl0[j]));
                } else {
                    assert(key_lt(sl0[j], sl0[i]));
                }
            }
        }
        let ghost pre = tesselation.fronts();
        let ghost cells0 = tesselation.grid.data@;
        let ghost sl = tesselation.site_list();
        tesselation.init_sites();
        assert forall|k: int| 0 <= k < tesselation.grid.data.len() implies !(#[trigger] tesselation.grid.data@[k]).contested
            && (tesselation.grid.data@[k].owner matches Some(o) ==> k == bounds.index_of(sl[o.0 as int].0 as int, sl[o.0 as int].1 as int)) by {
            if exists|i: int| 0 <= i < sl.len() && k == bounds.index_of(#[trigger] sl[i].0 as int, sl[i].1 as int) {
                let i = choose|i: int| 0 <= i < sl.len() && k == bounds.index_of(#[trigger] sl[i].0 as int, sl[i].1 as int);
                assert(crate::grid::cell_at(bounds, tesselation.grid.data@, seed(sl[i])) == tesselation.grid.data@[k]);
            } else {
                assert(tesselation.grid.data@[k] == cells0[k]);
            }
        }
        assert forall|i: int| 0 <= i < tesselation.sites.len() implies (#[trigger] tesselation.fronts()[i]) == seq![seed(tesselation.site_list()[i])] by {
            assert(pre[i].len() == 0);
            assert(pre[i].push(seed(tesselation.site_list()[i])) =~= seq![seed(tesselation.site_list()[i])]);
        }
        let ghost st = tesselation.state();
        assert forall|j: int| 0 <= j < tesselation.sites.len() implies all_inside(bounds, #[trigger] st.1[j]) by {
            assert(st.1[j] == tesselation.sites@[j].newly_claimed@);
        }
        assert forall|k: int| 0 <= k < st.0.len() implies ((#[trigger] st.0[k]).owner matches Some(o) ==> (
            st.1[o.0 as int].contains(st.0[k].coordinates) || crate::reach::neighbors_touched(bounds, st.0, st.0[k].coordinates))) by {
            if st.0[k].owner is Some {
                let o = st.0[k].owner.unwrap();
                let sp = sl[o.0 as int];
                bounds.lemma_index_of(sp.0 as int, sp.1 as int);
                assert(st.0[k].coordinates.pos() == bounds.coord_at(k));
                assert(st.0[k].coordinates == seed(sp));
                assert(st.1[o.0 as int] == seq![seed(sp)]);
                assert(st.1[o.0 as int][0] == seed(sp));
            }
        }
        tesselation
    }
}


/// A turn of a site that claimed nothing last round changes nothing.
proof fn lemma_idle_turn<M: Metric>(b: BoundingBox, sites: Seq<PlainSite>, st: RoundState, i: int)
    requires
        0 <= i < st.1.len(),
        st.1[i].len() == 0,
    ensures
        site_turn::<M>(b, sites, st, i) == st,
{
    assert(boundary(b, st.1[i]) == Seq::<GridIdx>::empty());
    let co = claim_all(b, st.0, boundary(b, st.1[i]), SiteOwner(i as u32));
    assert(co == (st.0, Seq::<GridIdx>::empty(), Seq::<(GridIdx, SiteOwner)>::empty()));
    assert(resolve_all::<M>(b, sites, i, co.0, co.2) == (st.0, Seq::<GridIdx>::empty()));
    assert(Seq::<GridIdx>::empty() + Seq::<GridIdx>::empty() =~= st.1[i]);
    assert(st.1.update(i, st.1[i]) =~= st.1);
}

/// Rounds keep one claim list per site.
pub proof fn lemma_round_keeps_sites<M: Metric>(b: BoundingBox, sites: Seq<PlainSite>, st: RoundState, k: int)
    requires
        0 <= k <= st.1.len(),
    ensures
        round_upto::<M>(b, sites, st, k).1.len() == st.1.len(),
    decreases k,
{
    if k > 0 {
        lemma_round_keeps_sites::<M>(b, sites, st, k - 1);
    }
}

pub proof fn lemma_iterate_keeps_sites<M: Metric>(b: BoundingBox, sites: Seq<PlainSite>, st: RoundState, k: nat)
    requires
        st.1.len() == sites.len(),
    ensures
        iterate::<M>(b, sites, st, k).1.len() == sites.len(),
    decreases k,
{
    if k > 0 {
        lemma_iterate_keeps_sites::<M>(b, sites, st, (k - 1) as nat);
        lemma_round_keeps_sites::<M>(b, sites, iterate::<M>(b, sites, st, (k - 1) as nat), sites.len() as int);
    }
}

/// Once no site claimed anything, a round leaves every cell and every claim
/// list as it was: running the tessellation again changes nothing.
pub proof fn lemma_round_at_rest<M: Metric>(b: BoundingBox, sites: Seq<PlainSite>, st: RoundState)
    requires
        st.1.len() == sites.len(),
        at_rest(st),
    ensures
        step_spec::<M>(b, sites, st) == st,
{
    assert forall|k: int| 0 <= k <= sites.len() implies #[trigger] round_upto::<M>(b, sites, st, k) == st by {
        lemma_round_at_rest_upto::<M>(b, sites, st, k);
    }
}

proof fn lemma_round_at_rest_upto<M: Metric>(b: BoundingBox, sites: Seq<PlainSite>, st: RoundState, k: int)
    requires
        st.1.len() == sites.len(),
        at_rest(st),
        0 <= k <= sites.len(),
    ensures
        round_upto::<M>(b, sites, st, k) == st,
    decreases k,
{
    if k > 0 {
        lemma_round_at_rest_upto::<M>(b, sites, st, k - 1);
        assert(st.1[k - 1].len() == 0);
        lemma_idle_turn::<M>(b, sites, st, k - 1);
    }
}

/// Every number of further rounds from a state at rest gives that state back.
pub proof fn lemma_rest_is_fixpoint<M: Metric>(b: BoundingBox, sites: Seq<PlainSite>, st: RoundState, k: nat)
    requires
        st.1.len() == sites.len(),
        at_rest(st),
    ensures
        iterate::<M>(b, sites, st, k) == st,
    decreases k,
{
    if k > 0 {
        lemma_rest_is_fixpoint::<M>(b, sites, st, (k - 1) as nat);
        lemma_round_at_rest::<M>(b, sites, st);
    }
}

proof fn lemma_iterate_add<M: Metric>(b: BoundingBox, sites: Seq<PlainSite>, st: RoundState, j: nat, k: nat)
    ensures
        iterate::<M>(b, sites, st, j + k) == iterate::<M>(b, sites, iterate::<M>(b, sites, st, j), k),
    decreases k,
{
    if k > 0 {
        lemma_iterate_add::<M>(b, sites, st, j, (k - 1) as nat);
        assert((j + k) - 1 == j + (k - 1) as nat);
    }
}

/// From one state, the rounds reach at most one state at rest: two runs on
/// the same sites, metric and bounds end with the same ownership of every cell.
pub proof fn lemma_rest_state_unique<M: Metric>(
    b: BoundingBox,
    sites: Seq<PlainSite>,
    st: RoundState,
    k1: nat,
    k2: nat,
)
    requires
        st.1.len() == sites.len(),
        at_rest(iterate::<M>(b, sites, st, k1)),
        at_rest(iterate::<M>(b, sites, st, k2)),
    ensures
        iterate::<M>(b, sites, st, k1) == iterate::<M>(b, sites, st, k2),
{
    if k1 <= k2 {
        let first = iterate::<M>(b, sites, st, k1);
        lemma_iterate_keeps_sites::<M>(b, sites, st, k1);
        lemma_iterate_add::<M>(b, sites, st, k1, (k2 - k1) as nat);
        lemma_rest_is_fixpoint::<M>(b, sites, first, (k2 - k1) as nat);
        assert(k1 + (k2 - k1) as nat == k2);
    } else {
        let first = iterate::<M>(b, sites, st, k2);
        lemma_iterate_keeps_sites::<M>(b, sites, st, k2);
        lemma_iterate_add::<M>(b, sites, st, k2, (k1 - k2) as nat);
        lemma_rest_is_fixpoint::<M>(b, sites, first, (k1 - k2) as nat);
        assert(k2 + (k1 - k2) as nat == k1);
    }
}


/// The cells owned by site `i`, in row-major order.
pub open spec fn cells_of(cells: Seq<Cell>, i: int) -> Seq<Cell>
    decreases cells.len(),
{
    if cells.len() == 0 {
        Seq::empty()
    } else if cells.last().owner == Some(SiteOwner(i as u32)) {
        cells_of(cells.drop_last(), i).push(cells.last())
    } else {
        cells_of(cells.drop_last(), i)
    }
}

/// The regions of the first `i` sites: each site that owns a cell, with its cells.
pub open spec fn regions_upto(cells: Seq<Cell>, sl: Seq<PlainSite>, i: int) -> Seq<(PlainSite, Seq<Cell>)>
    decreases i,
{
    if i <= 0 {
        Seq::empty()
    } else if cells_of(cells, i - 1).len() > 0 {
        regions_upto(cells, sl, i - 1).push((sl[i - 1], cells_of(cells, i - 1)))
    } else {
        regions_upto(cells, sl, i - 1)
    }
}

/// A list of regions with each cell list seen as a sequence.
pub open spec fn region_view(r: Seq<(PlainSite, Vec<Cell>)>) -> Seq<(PlainSite, Seq<Cell>)> {
    r.map_values(|e: (PlainSite, Vec<Cell>)| (e.0, e.1@))
}

impl<M: Metric> VoronoiTesselation<M> {
    /// The site that owns the cell at row-major position `k`, if any.
    pub open spec fn owner_site(&self, k: int) -> Option<&PlainSite> {
        match self.grid.data@[k].owner {
            Some(o) => Some(&self.sites@[o.0 as int].site),
            None => None,
        }
    }

    /// Maps every cell, with the site that owns it, through `map`, in row-major order.
    pub fn into_buffer<F, T>(self, map: F) -> (r: Vec<T>)
        where
            F: Fn(&Cell, Option<&PlainSite>) -> T,
        requires
            self.wf(),
            forall|c: &Cell, s: Option<&PlainSite>| #[trigger] map.requires((c, s)),
        ensures
            r.len() == self.grid.data.len(),
            forall|k: int| 0 <= k < r.len() ==> map.ensures((&self.grid.data@[k], self.owner_site(k)), #[trigger] r@[k]),
    {
        let mut out: Vec<T> = Vec::new();
        let mut k: usize = 0;
        while k < self.grid.data.len()
            invariant
                self.wf(),
                k <= self.grid.data.len(),
                out.len() == k,
                forall|c: &Cell, s: Option<&PlainSite>| #[trigger] map.requires((c, s)),
                forall|q: int| 0 <= q < k ==> map.ensures((&self.grid.data@[q], self.owner_site(q)), #[trigger] out@[q]),
            decreases self.grid.data.len() - k,
        {
            let cell = &self.grid.data[k];
            let v = match cell.owner {
                Some(o) => {
                    assert(self.grid.data@[k as int].owner == Some(o));
                    let site = &self.sites[o.0 as usize].site;
                    assert(self.owner_site(k as int) == Some(site));
                    map(cell, Some(site))
                },
                None => map(cell, None),
            };
            out.push(v);
            k = k + 1;
        }
        out
    }

    /// Groups the owned cells by owning site: one entry for each site that owns
    /// a cell, in ascending order of identities, with its cells in row-major order.
    pub fn into_regions(self) -> (r: Vec<(PlainSite, Vec<Cell>)>)
        requires
            self.wf(),
        ensures
            region_view(r@) == regions_upto(self.grid.data@, self.site_list(), self.sites.len() as int),
    {
        let mut regions: Vec<(PlainSite, Vec<Cell>)> = Vec::new();
        let mut i: usize = 0;
        while i < self.sites.len()
            invariant
                i <= self.sites.len(),
                self.sites.len() <= u32::MAX,
                region_view(regions@) == regions_upto(self.grid.data@, self.site_list(), i as int),
            decreases self.sites.len() - i,
        {
            let mut mine: Vec<Cell> = Vec::new();
            let mut k: usize = 0;
            while k < self.grid.data.len()
                invariant
                    k <= self.grid.data.len(),
                    i < self.sites.len(),
                    self.sites.len() <= u32::MAX,
                    mine@ == cells_of(self.grid.data@.take(k as int), i as int),
                decreases self.grid.data.len() - k,
            {
                let cell = self.grid.data[k];
                assert(self.grid.data@.take(k + 1).drop_last() == self.grid.data@.take(k as int));
                assert(self.grid.data@.take(k + 1).last() == cell);
                match cell.owner {
                    Some(o) => {
                        if o.0 as usize == i {
                            mine.push(cell);
                        }
                    },
                    None => {},
                }
                k = k + 1;
            }
            assert(self.grid.data@.take(k as int) == self.grid.data@);
            assert(self.site_list()[i as int] == self.sites@[i as int].site);
            if mine.len() > 0 {
                let ghost before = regions@;
                regions.push((self.sites[i].site, mine));
                assert(region_view(regions@) =~= region_view(before).push((self.site_list()[i as int], cells_of(self.grid.data@, i as int))));
            }
            i = i + 1;
        }
        regions
    }
}

} // verus!
