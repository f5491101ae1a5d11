use vstd::prelude::*;

verus! {

/// A site as the tessellation stores it: coordinates and an integer weight.
pub type PlainSite = (isize, isize, i32);

/// Something with integer coordinates on the plane.
pub trait Point {
    spec fn point_coords(&self) -> (int, int);

    fn coordinates(&self) -> (r: (isize, isize))
        ensures
            (r.0 as int, r.1 as int) == self.point_coords(),
    ;
}

/// A point that carries a weight.
pub trait Site: Point {
    spec fn site_weight(&self) -> int;

    fn weight(&self) -> (r: i32)
        ensures
            r as int == self.site_weight(),
    ;
}

impl Point for (isize, isize, i32) {
    open spec fn point_coords(&self) -> (int, int) {
        (self.0 as int, self.1 as int)
    }

    fn coordinates(&self) -> (r: (isize, isize)) {
        (self.0, self.1)
    }
}

impl Site for (isize, isize, i32) {
    open spec fn site_weight(&self) -> int {
        self.2 as int
    }

    fn weight(&self) -> (r: i32) {
        self.2
    }
}

} // verus!
