use vstd::prelude::*;
use vstd::arithmetic::div_mod::lemma_fundamental_div_mod_converse;

use crate::discrete_voronoi::SiteOwner;
use crate::site::{PlainSite, Point};

verus! {

/// Largest width or height of a grid on which distances are compared exactly:
/// every squared distance then fits the 128-bit intermediates of the metrics.
pub const MAX_EXTENT: usize = 1073741824;

/// The finite coordinate domain: `width` columns from `x_offset` and `height`
/// rows from `y_offset`.
#[derive(Debug, Clone, Copy, PartialEq, Eq, Structural)]
pub struct BoundingBox {
    pub height: usize,
    pub width: usize,
    pub x_offset: isize,
    pub y_offset: isize,
}

impl BoundingBox {
    /// Nonempty, every coordinate inside is representable, and the cell count fits `usize`.
    pub open spec fn wf(self) -> bool {
        &&& self.width >= 1
        &&& self.height >= 1
        &&& self.x_offset + self.width - 1 <= isize::MAX
        &&& self.y_offset + self.height - 1 <= isize::MAX
        &&& self.width * self.height <= usize::MAX
    }

    pub open spec fn contains(self, x: int, y: int) -> bool {
        &&& self.x_offset <= x < self.x_offset + self.width
        &&& self.y_offset <= y < self.y_offset + self.height
    }

    pub open spec fn cell_count(self) -> int {
        self.width * self.height
    }

    /// Row-major position of a coordinate.
    pub open spec fn index_of(self, x: int, y: int) -> int {
        (x - self.x_offset) + (y - self.y_offset) * self.width
    }

    /// The coordinate at a row-major position.
    pub open spec fn coord_at(self, i: int) -> (int, int) {
        (self.x_offset + i % (self.width as int), self.y_offset + i / (self.width as int))
    }

    pub proof fn lemma_index_of(self, x: int, y: int)
        requires
            self.wf(),
            self.contains(x, y),
        ensures
            0 <= self.index_of(x, y) < self.cell_count(),
            self.coord_at(self.index_of(x, y)) == (x, y),
    {
        let dx = x - self.x_offset;
        let dy = y - self.y_offset;
        let w = self.width as int;
        let h = self.height as int;
        assert(0 <= dy * w <= (h - 1) * w) by (nonlinear_arith)
            requires 0 <= dy < h, w >= 1;
        assert((h - 1) * w + w == h * w) by (nonlinear_arith);
        lemma_fundamental_div_mod_converse(dx + dy * w, w, dy, dx);
    }

    pub proof fn lemma_coord_at(self, i: int)
        requires
            self.wf(),
            0 <= i < self.cell_count(),
        ensures
            self.contains(self.coord_at(i).0, self.coord_at(i).1),
            self.index_of(self.coord_at(i).0, self.coord_at(i).1) == i,
    {
        let w = self.width as int;
        let h = self.height as int;
        assert(i == (i / w) * w + i % w && 0 <= i % w < w) by (nonlinear_arith)
            requires w >= 1;
        assert(0 <= i / w < h) by (nonlinear_arith)
            requires w >= 1, 0 <= i < h * w;
    }

    pub fn new(x_offset: isize, y_offset: isize, width: usize, height: usize) -> (r: Self)
        requires
            width >= 1,
            height >= 1,
            x_offset + width - 1 <= isize::MAX,
            y_offset + height - 1 <= isize::MAX,
            width * height <= usize::MAX,
        ensures
            r == (BoundingBox { height, width, x_offset, y_offset }),
            r.wf(),
    {
        BoundingBox { x_offset, y_offset, height, width }
    }

    /// The tight box around every site.
    pub fn fit_to_sites(sites: &Vec<PlainSite>) -> (r: Self)
        requires
            sites.len() > 0,
            fits_usize(sites@),
        ensures
            r.wf(),
            r.x_offset == seq_min(sites@, 0),
            r.y_offset == seq_min(sites@, 1),
            r.width == seq_max(sites@, 0) - seq_min(sites@, 0) + 1,
            r.height == seq_max(sites@, 1) - seq_min(sites@, 1) + 1,
    {
        let mut min_x = sites[0].0;
        let mut max_x = sites[0].0;
        let mut min_y = sites[0].1;
        let mut max_y = sites[0].1;
        let mut i: usize = 1;
        while i < sites.len()
            invariant
                1 <= i <= sites.len(),
                min_x == seq_min(sites@.take(i as int), 0),
                max_x == seq_max(sites@.take(i as int), 0),
                min_y == seq_min(sites@.take(i as int), 1),
                max_y == seq_max(sites@.take(i as int), 1),
            decreases sites.len() - i,
        {
            let (x, y) = (sites[i].0, sites[i].1);
            assert(sites@.take(i as int + 1).drop_last() == sites@.take(i as int));
            if x > max_x {
                max_x = x;
            }
            if x < min_x {
                min_x = x;
            }
            if y > max_y {
                max_y = y;
            }
            if y < min_y {
                min_y = y;
            }
            i = i + 1;
        }
        assert(sites@.take(sites.len() as int) == sites@);
        proof {
            lemma_seq_bounds(sites@, 0);
            lemma_seq_bounds(sites@, 1);
            let wx = seq_max(sites@, 0) - seq_min(sites@, 0) + 1;
            let wy = seq_max(sites@, 1) - seq_min(sites@, 1) + 1;
            assert(wx <= usize::MAX && wy <= usize::MAX) by (nonlinear_arith)
                requires wx >= 1, wy >= 1, wx * wy <= usize::MAX;
        }
        let width = (max_x as i128 - min_x as i128 + 1) as usize;
        let height = (max_y as i128 - min_y as i128 + 1) as usize;
        BoundingBox { height, width, x_offset: min_x, y_offset: min_y }
    }

    /// Zero-based column and row of a coordinate inside the box.
    pub fn translate_idx(&self, idx: GridIdx) -> (r: (usize, usize))
        requires
            self.wf(),
            self.contains(idx.0 as int, idx.1 as int),
        ensures
            r.0 == idx.0 - self.x_offset,
            r.1 == idx.1 - self.y_offset,
    {
        let x = (idx.0 as i128 - self.x_offset as i128) as usize;
        let y = (idx.1 as i128 - self.y_offset as i128) as usize;
        (x, y)
    }

    pub fn dimensions(&self) -> (r: (usize, usize))
        ensures
            r == (self.width, self.height),
    {
        (self.width, self.height)
    }

    /// Every coordinate of the box in row-major order, x varying fastest.
    pub fn coordinates_iter(&self) -> (r: BoundedCoordinatesIter)
        requires
            self.wf(),
        ensures
            r.wf(),
            r.bounds == *self,
            r.position() == 0,
    {
        proof {
            self.lemma_index_of(self.x_offset as int, self.y_offset as int);
        }
        BoundedCoordinatesIter { bounds: *self, cursor: Some(GridIdx(self.x_offset, self.y_offset)) }
    }
}

/// One coordinate of a site: x for axis 0, y otherwise.
pub open spec fn axis(p: PlainSite, a: int) -> int {
    if a == 0 {
        p.0 as int
    } else {
        p.1 as int
    }
}

/// The least coordinate along an axis over a nonempty sequence of sites.
pub open spec fn seq_min(s: Seq<PlainSite>, a: int) -> int
    decreases s.len(),
{
    if s.len() <= 1 {
        axis(s[0], a)
    } else if axis(s.last(), a) < seq_min(s.drop_last(), a) {
        axis(s.last(), a)
    } else {
        seq_min(s.drop_last(), a)
    }
}

/// The greatest coordinate along an axis over a nonempty sequence of sites.
pub open spec fn seq_max(s: Seq<PlainSite>, a: int) -> int
    decreases s.len(),
{
    if s.len() <= 1 {
        axis(s[0], a)
    } else if axis(s.last(), a) > seq_max(s.drop_last(), a) {
        axis(s.last(), a)
    } else {
        seq_max(s.drop_last(), a)
    }
}

/// The tight box around the sites has a cell count that fits `usize`.
pub open spec fn fits_usize(s: Seq<PlainSite>) -> bool {
    (seq_max(s, 0) - seq_min(s, 0) + 1) * (seq_max(s, 1) - seq_min(s, 1) + 1) <= usize::MAX
}

pub proof fn lemma_seq_bounds(s: Seq<PlainSite>, a: int)
    requires
        s.len() > 0,
    ensures
        forall|i: int| 0 <= i < s.len() ==> seq_min(s, a) <= #[trigger] axis(s[i], a) <= seq_max(s, a),
        exists|i: int| 0 <= i < s.len() && axis(s[i], a) == seq_min(s, a),
        exists|i: int| 0 <= i < s.len() && axis(s[i], a) == seq_max(s, a),
        isize::MIN <= seq_min(s, a) <= seq_max(s, a) <= isize::MAX,
    decreases s.len(),
{
    if s.len() > 1 {
        lemma_seq_bounds(s.drop_last(), a);
        assert forall|i: int| 0 <= i < s.len() - 1 implies #[trigger] axis(s[i], a) == axis(
            s.drop_last()[i],
            a,
        ) by {}
        let j = choose|i: int| 0 <= i < s.len() - 1 && axis(s.drop_last()[i], a) == seq_min(s.drop_last(), a);
        let k = choose|i: int| 0 <= i < s.len() - 1 && axis(s.drop_last()[i], a) == seq_max(s.drop_last(), a);
        assert(axis(s[j], a) == axis(s.drop_last()[j], a));
        assert(axis(s[k], a) == axis(s.drop_last()[k], a));
        assert(axis(s[s.len() - 1], a) == axis(s.last(), a));
    } else {
        assert(axis(s[0], a) == seq_min(s, a));
    }
}

/// Walks the coordinates of a box in row-major order.
#[derive(Debug, Clone, Copy)]
pub struct BoundedCoordinatesIter {
    pub bounds: BoundingBox,
    pub cursor: Option<GridIdx>,
}

impl BoundedCoordinatesIter {
    pub open spec fn wf(self) -> bool {
        &&& self.bounds.wf()
        &&& self.cursor matches Some(p) ==> self.bounds.contains(p.0 as int, p.1 as int)
    }

    /// How many coordinates have been handed out.
    pub open spec fn position(self) -> int {
        match self.cursor {
            Some(p) => self.bounds.index_of(p.0 as int, p.1 as int),
            None => self.bounds.cell_count(),
        }
    }

    pub fn next(&mut self) -> (r: Option<GridIdx>)
        requires
            old(self).wf(),
        ensures
            final(self).wf(),
            final(self).bounds == old(self).bounds,
            old(self).position() < old(self).bounds.cell_count() ==> {
                &&& r matches Some(p)
                &&& p.pos() == old(self).bounds.coord_at(old(self).position())
                &&& final(self).position() == old(self).position() + 1
            },
            old(self).position() >= old(self).bounds.cell_count() ==> {
                &&& r is None
                &&& final(self).position() == old(self).position()
            },
    {
        let last = self.cursor;
        if let Some(last_idx) = self.cursor {
            proof {
                self.bounds.lemma_index_of(last_idx.0 as int, last_idx.1 as int);
            }
            let (adjusted_x, adjusted_y) = self.bounds.translate_idx(last_idx);
            let ghost w = self.bounds.width as int;
            let ghost h = self.bounds.height as int;
            proof {
                assert(self.bounds.index_of(last_idx.0 as int, last_idx.1 as int) == adjusted_x
                    + adjusted_y * w);
            }
            if adjusted_x + 1 >= self.bounds.width {
                if adjusted_y + 1 >= self.bounds.height {
                    proof {
                        assert(adjusted_y * w + (w - 1) + 1 == w * h) by (nonlinear_arith)
                            requires adjusted_y == h - 1;
                    }
                    self.cursor = None;
                } else {
                    let next = GridIdx(self.bounds.x_offset, last_idx.1 + 1);
                    proof {
                        assert(adjusted_y * w + w == (adjusted_y + 1) * w) by (nonlinear_arith);
                        assert(self.bounds.index_of(next.0 as int, next.1 as int) == (adjusted_y
                            + 1) * w);
                    }
                    self.cursor = Some(next);
                }
            } else {
                let next = GridIdx(last_idx.0 + 1, last_idx.1);
                assert(self.bounds.index_of(next.0 as int, next.1 as int) == adjusted_x + 1
                    + adjusted_y * w);
                self.cursor = Some(next);
            }
        }
        last
    }

    /// The number of coordinates still to come, as a lower and an upper bound.
    pub fn size_hint(&self) -> (r: (usize, Option<usize>))
        requires
            self.wf(),
        ensures
            r.0 == self.bounds.cell_count() - self.position(),
            r.1 == Some(r.0),
    {
        let total_cells = self.bounds.width * self.bounds.height;
        if let Some(last_idx) = self.cursor {
            proof {
                self.bounds.lemma_index_of(last_idx.0 as int, last_idx.1 as int);
            }
            let (x, y) = self.bounds.translate_idx(last_idx);
            assert(self.bounds.index_of(last_idx.0 as int, last_idx.1 as int) == x + y
                * self.bounds.width);
            let index = x + y * self.bounds.width;
            (total_cells - index, Some(total_cells - index))
        } else {
            (0, Some(0))
        }
    }
}

/// A grid coordinate, also used as the address of a cell.
#[derive(Debug, Clone, Copy, PartialEq, Eq, Structural, PartialOrd, Ord, Hash)]
pub struct GridIdx(pub isize, pub isize);

/// The four axis-aligned candidates around `(x, y)`: north, east, south, west.
pub open spec fn candidate(x: int, y: int, k: int) -> (int, int) {
    if k == 0 {
        (x, y + 1)
    } else if k == 1 {
        (x + 1, y)
    } else if k == 2 {
        (x, y - 1)
    } else {
        (x - 1, y)
    }
}

/// The candidates from direction `k` on that lie in the box, in direction order.
pub open spec fn neighbors_from(b: BoundingBox, x: int, y: int, k: int) -> Seq<GridIdx>
    decreases 4 - k,
{
    if k < 0 || k >= 4 {
        Seq::empty()
    } else {
        let c = candidate(x, y, k);
        let rest = neighbors_from(b, x, y, k + 1);
        if b.contains(c.0, c.1) {
            seq![GridIdx(c.0 as isize, c.1 as isize)].add(rest)
        } else {
            rest
        }
    }
}

/// The in-bounds neighbors of a coordinate in the order north, east, south, west.
pub open spec fn neighbor_seq(b: BoundingBox, p: GridIdx) -> Seq<GridIdx> {
    neighbors_from(b, p.0 as int, p.1 as int, 0)
}

pub proof fn lemma_neighbors_from_inside(b: BoundingBox, x: int, y: int, k: int)
    requires
        b.wf(),
    ensures
        forall|i: int|
            0 <= i < neighbors_from(b, x, y, k).len() ==> b.contains(
                #[trigger] neighbors_from(b, x, y, k)[i].0 as int,
                neighbors_from(b, x, y, k)[i].1 as int,
            ),
    decreases 4 - k,
{
    if 0 <= k < 4 {
        lemma_neighbors_from_inside(b, x, y, k + 1);
        let c = candidate(x, y, k);
        let rest = neighbors_from(b, x, y, k + 1);
        let all = neighbors_from(b, x, y, k);
        if b.contains(c.0, c.1) {
            assert forall|i: int| 0 <= i < all.len() implies b.contains(
                #[trigger] all[i].0 as int,
                all[i].1 as int,
            ) by {
                if i > 0 {
                    assert(all[i] == rest[i - 1]);
                }
            }
        }
    }
}

impl GridIdx {
    pub open spec fn pos(self) -> (int, int) {
        (self.0 as int, self.1 as int)
    }

    pub fn neighbors(&self, bounds: &BoundingBox) -> (r: GridIdxNeighborIter)
        ensures
            r.origin == *self,
            r.direction == 0,
            r.bounds == *bounds,
            r.remaining() == neighbor_seq(*bounds, *self),
    {
        GridIdxNeighborIter { origin: *self, direction: 0, bounds: *bounds }
    }

    pub fn inside(&self, bounds: &BoundingBox) -> (r: bool)
        ensures
            r == bounds.contains(self.0 as int, self.1 as int),
    {
        let adjusted_x = self.0 as i128 - bounds.x_offset as i128;
        let adjusted_y = self.1 as i128 - bounds.y_offset as i128;
        0 <= adjusted_x && adjusted_x < bounds.width as i128 && 0 <= adjusted_y && adjusted_y
            < bounds.height as i128
    }

    /// The in-bounds neighbors, collected.
    pub fn neighbor_list(&self, bounds: &BoundingBox) -> (r: Vec<GridIdx>)
        requires
            bounds.wf(),
        ensures
            r@ == neighbor_seq(*bounds, *self),
    {
        let mut it = self.neighbors(bounds);
        let mut out: Vec<GridIdx> = Vec::new();
        loop
            invariant
                bounds.wf(),
                it.origin == *self,
                it.bounds == *bounds,
                it.direction <= 4,
                out@ + it.remaining() == neighbor_seq(*bounds, *self),
            decreases 4 - it.direction,
        {
            let ghost before = it.remaining();
            match it.next() {
                Some(n) => {
                    out.push(n);
                    assert(out@ + it.remaining() == neighbor_seq(*bounds, *self)) by {
                        assert(before == seq![n] + it.remaining());
                        assert(out@ =~= out@.drop_last() + seq![n]);
                        assert(out@ + it.remaining() =~= out@.drop_last() + before);
                    }
                },
                None => {
                    assert(out@ =~= neighbor_seq(*bounds, *self));
                    return out;
                },
            }
        }
    }
}

impl Point for GridIdx {
    open spec fn point_coords(&self) -> (int, int) {
        (self.0 as int, self.1 as int)
    }

    fn coordinates(&self) -> (r: (isize, isize)) {
        (self.0, self.1)
    }
}

impl From<(isize, isize)> for GridIdx {
    fn from(src: (isize, isize)) -> (r: GridIdx) {
        GridIdx(src.0, src.1)
    }
}

impl vstd::std_specs::convert::FromSpecImpl<(isize, isize)> for GridIdx {
    open spec fn obeys_from_spec() -> bool {
        true
    }

    open spec fn from_spec(v: (isize, isize)) -> GridIdx {
        GridIdx(v.0, v.1)
    }
}

/// Walks the in-bounds neighbors of a coordinate: north, east, south, west.
#[derive(Debug, Clone, Copy)]
pub struct GridIdxNeighborIter {
    pub origin: GridIdx,
    pub direction: u8,
    pub bounds: BoundingBox,
}

impl GridIdxNeighborIter {
    /// The neighbors still to come.
    pub open spec fn remaining(self) -> Seq<GridIdx> {
        neighbors_from(self.bounds, self.origin.0 as int, self.origin.1 as int, self.direction as int)
    }

    /// The candidate in direction `k`, where it is representable.
    fn candidate_at(&self, k: u8) -> (r: Option<GridIdx>)
        requires
            k < 4,
            self.bounds.wf(),
        ensures
            r matches Some(c) ==> c.pos() == candidate(self.origin.0 as int, self.origin.1 as int, k as int),
            r is None ==> !self.bounds.contains(
                candidate(self.origin.0 as int, self.origin.1 as int, k as int).0,
                candidate(self.origin.0 as int, self.origin.1 as int, k as int).1,
            ),
    {
        let x = self.origin.0;
        let y = self.origin.1;
        if k == 0 {
            if y < isize::MAX { Some(GridIdx(x, y + 1)) } else { None }
        } else if k == 1 {
            if x < isize::MAX { Some(GridIdx(x + 1, y)) } else { None }
        } else if k == 2 {
            if y > isize::MIN { Some(GridIdx(x, y - 1)) } else { None }
        } else {
            if x > isize::MIN { Some(GridIdx(x - 1, y)) } else { None }
        }
    }

    pub fn next(&mut self) -> (r: Option<GridIdx>)
        requires
            old(self).bounds.wf(),
            old(self).direction <= 4,
        ensures
            final(self).origin == old(self).origin,
            final(self).bounds == old(self).bounds,
            final(self).direction <= 4,
            old(self).remaining().len() == 0 ==> r is None && final(self).remaining().len() == 0,
            old(self).remaining().len() > 0 ==> {
                &&& r == Some(old(self).remaining()[0])
                &&& final(self).remaining() == old(self).remaining().drop_first()
                &&& final(self).direction > old(self).direction
            },
    {
        while self.direction < 4
            invariant
                self.origin == old(self).origin,
                self.bounds == old(self).bounds,
                self.bounds.wf(),
                old(self).direction <= self.direction <= 4,
                self.remaining() == old(self).remaining(),
            decreases 4 - self.direction,
        {
            let k = self.direction;
            let possible = self.candidate_at(k);
            self.direction = self.direction + 1;
            if let Some(c) = possible {
                if c.inside(&self.bounds) {
                    assert(old(self).remaining() == seq![c] + self.remaining());
                    assert(self.remaining() == old(self).remaining().drop_first());
                    return Some(c);
                }
            }
        }
        None
    }

    /// Bounds on the number of neighbors still to come.
    pub fn size_hint(&self) -> (r: (usize, Option<usize>))
        requires
            self.direction <= 4,
        ensures
            r == (0usize, Some((4 - self.direction) as usize)),
    {
        (0, Some((4 - self.direction) as usize))
    }
}

} // verus!

verus! {

/// One grid cell: its coordinate, whether a claim on it was ever disputed,
/// and the site that holds it.
#[derive(Debug, Clone, Copy)]
pub struct Cell {
    pub coordinates: GridIdx,
    pub contested: bool,
    pub owner: Option<SiteOwner>,
}

impl Cell {
    fn new(coordinates: GridIdx) -> (r: Self)
        ensures
            r == (Cell { coordinates, contested: false, owner: None }),
    {
        Cell { coordinates, contested: false, owner: None }
    }

    pub fn set_owner(&mut self, new_owner: SiteOwner)
        ensures
            *final(self) == (Cell { owner: Some(new_owner), ..*old(self) }),
    {
        self.owner = Some(new_owner);
    }

    pub fn owner(&self) -> (r: &Option<SiteOwner>)
        ensures
            *r == self.owner,
    {
        &self.owner
    }

    pub fn contested(&self) -> (r: bool)
        ensures
            r == self.contested,
    {
        self.contested
    }
}

/// Cells laid out in row-major order over a box, each holding its own coordinate.
pub open spec fn cells_wf(b: BoundingBox, cells: Seq<Cell>) -> bool {
    &&& cells.len() == b.cell_count()
    &&& forall|i: int| 0 <= i < cells.len() ==> (#[trigger] cells[i]).coordinates.pos() == b.coord_at(i)
}

/// The cell at a coordinate.
pub open spec fn cell_at(b: BoundingBox, cells: Seq<Cell>, p: GridIdx) -> Cell {
    cells[b.index_of(p.0 as int, p.1 as int)]
}

/// Cells after a claim, the coordinates won outright, and the coordinates
/// disputed together with the site that held each.
pub type ClaimState = (Seq<Cell>, Seq<GridIdx>, Seq<(GridIdx, SiteOwner)>);

/// One claim of `who` on the cell at `p`.
pub open spec fn claim_next(b: BoundingBox, st: ClaimState, p: GridIdx, who: SiteOwner) -> ClaimState {
    let k = b.index_of(p.0 as int, p.1 as int);
    let c = st.0[k];
    if c.owner == Some(who) {
        st
    } else if c.owner is None && !c.contested {
        (st.0.update(k, Cell { owner: Some(who), ..c }), st.1.push(p), st.2)
    } else if c.owner is Some {
        (st.0.update(k, Cell { owner: None, contested: true, ..c }), st.1, st.2.push((p, c.owner.unwrap())))
    } else {
        st
    }
}

/// The claims of `who` on every coordinate of `idxs`, in order.
pub open spec fn claim_all(b: BoundingBox, cells: Seq<Cell>, idxs: Seq<GridIdx>, who: SiteOwner) -> ClaimState
    decreases idxs.len(),
{
    if idxs.len() == 0 {
        (cells, Seq::empty(), Seq::empty())
    } else {
        claim_next(b, claim_all(b, cells, idxs.drop_last(), who), idxs.last(), who)
    }
}

/// Every coordinate of the sequence lies in the box.
pub open spec fn all_inside(b: BoundingBox, idxs: Seq<GridIdx>) -> bool {
    forall|i: int| 0 <= i < idxs.len() ==> b.contains(#[trigger] idxs[i].0 as int, idxs[i].1 as int)
}

pub proof fn lemma_claim_all_wf(b: BoundingBox, cells: Seq<Cell>, idxs: Seq<GridIdx>, who: SiteOwner)
    requires
        b.wf(),
        cells_wf(b, cells),
        all_inside(b, idxs),
    ensures
        cells_wf(b, claim_all(b, cells, idxs, who).0),
    decreases idxs.len(),
{
    if idxs.len() > 0 {
        let prev = idxs.drop_last();
        assert(all_inside(b, prev)) by {
            assert forall|i: int| 0 <= i < prev.len() implies b.contains(#[trigger] prev[i].0 as int, prev[i].1 as int) by {
                assert(prev[i] == idxs[i]);
            }
        }
        lemma_claim_all_wf(b, cells, prev, who);
        let p = idxs.last();
        assert(b.contains(idxs[idxs.len() - 1].0 as int, idxs[idxs.len() - 1].1 as int));
        b.lemma_index_of(p.0 as int, p.1 as int);
    }
}

/// The sole owner of cell ownership over a box.
#[derive(Debug)]
pub struct Grid {
    pub bounds: BoundingBox,
    pub data: Vec<Cell>,
}

impl Grid {
    pub open spec fn wf(&self) -> bool {
        &&& self.bounds.wf()
        &&& cells_wf(self.bounds, self.data@)
    }

    pub fn new(bounds: BoundingBox) -> (r: Self)
        requires
            bounds.wf(),
        ensures
            r.wf(),
            r.bounds == bounds,
            forall|i: int| 0 <= i < r.data.len() ==> (#[trigger] r.data@[i]).owner is None && !r.data@[i].contested,
    {
        let mut data: Vec<Cell> = Vec::new();
        let mut coords = bounds.coordinates_iter();
        loop
            invariant
                coords.wf(),
                coords.bounds == bounds,
                data.len() == coords.position(),
                coords.position() <= bounds.cell_count(),
                forall|j: int| 0 <= j < data.len() ==> (#[trigger] data@[j]).coordinates.pos() == bounds.coord_at(j)
                    && data@[j].owner is None && !data@[j].contested,
            ensures
                data.len() == bounds.cell_count(),
                forall|j: int| 0 <= j < data.len() ==> (#[trigger] data@[j]).coordinates.pos() == bounds.coord_at(j)
                    && data@[j].owner is None && !data@[j].contested,
            decreases bounds.cell_count() - coords.position(),
        {
            match coords.next() {
                Some(coord) => {
                    data.push(Cell::new(coord));
                },
                None => {
                    break;
                },
            }
        }
        Grid { bounds, data }
    }

    /// Makes every cell unowned and undisputed.
    pub fn clear(&mut self)
        requires
            old(self).wf(),
        ensures
            final(self).wf(),
            final(self).bounds == old(self).bounds,
            final(self).data.len() == old(self).data.len(),
            forall|i: int| 0 <= i < final(self).data.len() ==> #[trigger] final(self).data@[i] == (Cell {
                coordinates: old(self).data@[i].coordinates,
                contested: false,
                owner: None,
            }),
    {
        let mut i: usize = 0;
        while i < self.data.len()
            invariant
                self.bounds == old(self).bounds,
                self.data.len() == old(self).data.len(),
                forall|j: int| i <= j < self.data.len() ==> #[trigger] self.data@[j] == old(self).data@[j],
                forall|j: int| 0 <= j < i ==> #[trigger] self.data@[j] == (Cell {
                    coordinates: old(self).data@[j].coordinates,
                    contested: false,
                    owner: None,
                }),
            decreases self.data.len() - i,
        {
            let coordinates = self.data[i].coordinates;
            self.data[i] = Cell { coordinates, contested: false, owner: None };
            i = i + 1;
        }
    }

    pub fn bounds(&self) -> (r: &BoundingBox)
        ensures
            *r == self.bounds,
    {
        &self.bounds
    }

    /// Row-major position of a coordinate inside the box.
    pub fn index(&self, idx: GridIdx) -> (r: usize)
        requires
            self.wf(),
            self.bounds.contains(idx.0 as int, idx.1 as int),
        ensures
            r == self.bounds.index_of(idx.0 as int, idx.1 as int),
            r < self.data.len(),
    {
        proof {
            self.bounds.lemma_index_of(idx.0 as int, idx.1 as int);
        }
        let (x, y) = self.bounds.translate_idx(idx);
        assert(self.bounds.index_of(idx.0 as int, idx.1 as int) == x + y * self.bounds.width);
        x + y * self.bounds.width
    }

    /// Claims each coordinate of `indices` for `claimant`, in order: an unowned,
    /// undisputed cell is won; a cell held by another site is disputed and left
    /// without owner; a cell that claimant holds, or that is disputed and
    /// unowned, is left as it is.
    pub fn claim_cells(&mut self, indices: &Vec<GridIdx>, claimant: SiteOwner) -> (r: (Vec<GridIdx>, Vec<(GridIdx, SiteOwner)>))
        requires
            old(self).wf(),
            all_inside(old(self).bounds, indices@),
        ensures
            final(self).wf(),
            final(self).bounds == old(self).bounds,
            (final(self).data@, r.0@, r.1@) == claim_all(old(self).bounds, old(self).data@, indices@, claimant),
    {
        let mut contested_cells: Vec<(GridIdx, SiteOwner)> = Vec::new();
        let mut claimed_cells: Vec<GridIdx> = Vec::new();
        let mut i: usize = 0;
        while i < indices.len()
            invariant
                i <= indices.len(),
                self.bounds == old(self).bounds,
                self.wf(),
                all_inside(self.bounds, indices@),
                (self.data@, claimed_cells@, contested_cells@) == claim_all(self.bounds, old(self).data@, indices@.take(i as int), claimant),
            decreases indices.len() - i,
        {
            let idx = indices[i];
            assert(indices@.take(i as int + 1).drop_last() == indices@.take(i as int));
            assert(indices@.take(i as int + 1).last() == idx);
            assert(self.bounds.contains(indices@[i as int].0 as int, indices@[i as int].1 as int));
            let k = self.index(idx);
            let cell = self.data[k];
            match cell.owner {
                Some(o) => {
                    if o != claimant {
                        self.data[k] = Cell { coordinates: cell.coordinates, contested: true, owner: None };
                        contested_cells.push((idx, o));
                    }
                },
                None => {
                    if !cell.contested {
                        self.data[k] = Cell { coordinates: cell.coordinates, contested: false, owner: Some(claimant) };
                        claimed_cells.push(idx);
                    }
                },
            }
            i = i + 1;
        }
        assert(indices@.take(indices.len() as int) == indices@);
        (claimed_cells, contested_cells)
    }

    pub fn into_raw(self) -> (r: Vec<Cell>)
        ensures
            r == self.data,
    {
        self.data
    }
}

} // verus!
