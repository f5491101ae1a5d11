use std::cmp::Ordering;

use discrete_voronoi::metric::{
    AdditiveWeightedEuclidean, Euclidean, Manhattan, Metric, MultWeightedEuclidean, PowerEuclidean,
};
use discrete_voronoi::{BoundingBox, Grid, GridIdx, Point, Site, SiteOwner, VoronoiBuilder, VoronoiTesselation};

fn owners<M: Metric>(tess: &VoronoiTesselation<M>) -> Vec<Option<SiteOwner>> {
    tess.grid.data.iter().map(|c| c.owner).collect()
}

fn count_owned<M: Metric>(tess: &VoronoiTesselation<M>, id: u32) -> usize {
    tess.grid.data.iter().filter(|c| c.owner == Some(SiteOwner(id))).count()
}

#[test]
fn build_voronoi_tesselation() {
    let sites: Vec<(isize, isize, i32)> = vec![(1, 1, 1), (2, 2, 2), (3, 3, 3), (4, 4, 4), (5, 5, 5), (6, 6, 6)];
    let tess = VoronoiBuilder::new(sites).build();
    assert_eq!(tess.sites().len(), 6);
}

#[test]
fn build_voronoi_clip_sites() {
    let sites: Vec<(isize, isize, i32)> = vec![(1, 1, 1), (2, 2, 2), (3, 3, 3), (4, 4, 4), (5, 5, 5), (6, 6, 6)];
    let builder = VoronoiBuilder::new(sites).bounds(BoundingBox::new(2, 2, 3, 3));
    let tess = builder.build();
    assert_eq!(tess.sites().len(), 3);
}

#[test]
fn compute_discrete_voronoi() {
    let sites: Vec<(isize, isize, i32)> = vec![(0, 0, 1), (1, 1, 1), (2, 2, 1), (3, 3, 1), (4, 4, 1), (5, 5, 1), (6, 6, 1)];
    let mut tess = VoronoiBuilder::new(sites).build();
    tess.compute();
}

#[test]
fn compute_large_bounding_box_voronoi() {
    let sites: Vec<(isize, isize, i32)> = vec![(2, 4, 8), (9, 11, 1), (4, 9, 8), (9, 4, 1)];
    let mut tess = VoronoiBuilder::new(sites)
        .metric::<MultWeightedEuclidean>()
        .bounds(BoundingBox::new(0, 0, 14, 14))
        .build();
    tess.compute();
}

#[test]
fn dedup_keeps_one_site_per_coordinate() {
    let sites: Vec<(isize, isize, i32)> = vec![(1, 1, 1), (1, 1, 2), (2, 2, 1)];
    let tess = VoronoiBuilder::new(sites).build();
    assert_eq!(tess.sites().len(), 2);
}

#[test]
fn builder_sorts_sites_by_coordinates() {
    let sites: Vec<(isize, isize, i32)> = vec![(3, 0, 1), (1, 5, 1), (1, 2, 1)];
    let builder = VoronoiBuilder::new(sites);
    assert_eq!(builder.sites, vec![(1, 2, 1), (1, 5, 1), (3, 0, 1)]);
}

#[test]
fn fitted_bounds_are_tight() {
    let sites: Vec<(isize, isize, i32)> = vec![(-2, 3, 1), (4, -1, 1), (0, 0, 1)];
    let b = BoundingBox::fit_to_sites(&sites);
    assert_eq!(b, BoundingBox::new(-2, -1, 7, 5));
    assert_eq!(b.dimensions(), (7, 5));
}

#[test]
fn seeds_are_claimed_at_build() {
    let sites: Vec<(isize, isize, i32)> = vec![(0, 0, 1), (2, 1, 1)];
    let tess = VoronoiBuilder::new(sites).bounds(BoundingBox::new(0, 0, 3, 2)).build();
    let o = owners(&tess);
    assert_eq!(o[0], Some(SiteOwner(0)));
    assert_eq!(o[5], Some(SiteOwner(1)));
    assert_eq!(o.iter().filter(|x| x.is_none()).count(), 4);
}

#[test]
fn metric_distances_exact() {
    let s = (0isize, 0isize, 1i32);
    let p = GridIdx(3, 4);
    assert_eq!(Euclidean::magnitude(&s, &p), 25);
    assert_eq!((Euclidean::magnitude(&s, &p) as f64).sqrt(), 5.0);
    assert_eq!(Manhattan::distance(&s, &p), 7);
    assert_eq!(Manhattan::distance(&s, &p) as f64, 7.0);
}

#[test]
fn metric_orderings() {
    let p = GridIdx(0, 0);
    let near = (1isize, 0isize, 1i32);
    let far = (3isize, 0isize, 1i32);
    assert_eq!(Euclidean::compare_distances(&near, &far, &p), Ordering::Less);
    assert_eq!(Manhattan::compare_distances(&far, &near, &p), Ordering::Greater);
    // weight 4 at distance 3 gives 0.75, weight 1 at distance 1 gives 1
    let heavy = (3isize, 0isize, 4i32);
    assert_eq!(MultWeightedEuclidean::compare_distances(&heavy, &near, &p), Ordering::Less);
    // 3 - 2 = 1 and 1 - 0 = 1
    let a = (3isize, 0isize, 2i32);
    let b = (0isize, 1isize, 0i32);
    assert_eq!(AdditiveWeightedEuclidean::compare_distances(&a, &b, &p), Ordering::Equal);
    // sqrt(2) - 0 against 1 - 0
    let c = (1isize, 1isize, 0i32);
    assert_eq!(AdditiveWeightedEuclidean::compare_distances(&c, &b, &p), Ordering::Greater);
    // 9 - 9 = 0 against 1 - 0 = 1
    let d = (3isize, 0isize, 3i32);
    assert_eq!(PowerEuclidean::compare_distances(&d, &b, &p), Ordering::Less);
}

#[test]
fn symmetric_split_leaves_midpoint_disputed() {
    let sites: Vec<(isize, isize, i32)> = vec![(0, 0, 1), (4, 0, 1)];
    let mut tess = VoronoiBuilder::new(sites).bounds(BoundingBox::new(0, 0, 5, 1)).build();
    tess.compute();
    assert_eq!(count_owned(&tess, 0), 2);
    assert_eq!(count_owned(&tess, 1), 2);
    assert_eq!(tess.grid.data[2].owner, None);
    assert!(tess.grid.data[2].contested);
}

#[test]
fn heavier_site_claims_larger_region() {
    let sites: Vec<(isize, isize, i32)> = vec![(2, 4, 8), (9, 11, 1), (4, 9, 8), (9, 4, 1)];
    let mut tess = VoronoiBuilder::new(sites)
        .metric::<MultWeightedEuclidean>()
        .bounds(BoundingBox::new(0, 0, 14, 14))
        .build();
    tess.compute();
    let listed = tess.sites();
    let heavy: Vec<usize> = (0..4).filter(|&i| listed[i].2 == 8).map(|i| count_owned(&tess, i as u32)).collect();
    let light: Vec<usize> = (0..4).filter(|&i| listed[i].2 == 1).map(|i| count_owned(&tess, i as u32)).collect();
    for h in &heavy {
        for l in &light {
            assert!(h > l);
        }
    }
}

#[test]
fn every_cell_owned_without_ties() {
    // no cell is equally far from both sites: 10x + 4y = 29 has no integer solution
    let sites: Vec<(isize, isize, i32)> = vec![(0, 0, 1), (5, 2, 1)];
    let mut tess = VoronoiBuilder::new(sites).bounds(BoundingBox::new(0, 0, 6, 3)).build();
    tess.compute();
    assert!(tess.grid.data.iter().all(|c| c.owner.is_some()));
    assert_eq!(count_owned(&tess, 0) + count_owned(&tess, 1), 18);
}

#[test]
fn every_cell_reached_with_ties() {
    let sites: Vec<(isize, isize, i32)> = vec![(0, 0, 1), (2, 2, 1), (4, 0, 1)];
    let mut tess = VoronoiBuilder::new(sites).bounds(BoundingBox::new(0, 0, 5, 5)).build();
    tess.compute();
    assert!(tess.grid.data.iter().all(|c| c.owner.is_some() || c.contested));
}

#[test]
fn compute_again_changes_nothing() {
    let sites: Vec<(isize, isize, i32)> = vec![(0, 0, 1), (3, 3, 2), (6, 1, 1)];
    let mut tess = VoronoiBuilder::new(sites).bounds(BoundingBox::new(0, 0, 8, 8)).build();
    tess.compute();
    let before = owners(&tess);
    tess.compute();
    tess.step();
    assert_eq!(owners(&tess), before);
    assert!(tess.sites.iter().all(|w| w.newly_claimed.is_empty()));
}

#[test]
fn repeated_runs_agree() {
    let make = || {
        let sites: Vec<(isize, isize, i32)> = vec![(1, 1, 1), (6, 2, 1), (3, 7, 1), (8, 8, 1)];
        let mut tess = VoronoiBuilder::new(sites).metric::<Manhattan>().bounds(BoundingBox::new(0, 0, 10, 10)).build();
        tess.compute();
        owners(&tess)
    };
    assert_eq!(make(), make());
}

#[test]
fn one_step_claims_neighbors_of_seed() {
    let sites: Vec<(isize, isize, i32)> = vec![(1, 1, 1)];
    let mut tess = VoronoiBuilder::new(sites).bounds(BoundingBox::new(0, 0, 3, 3)).build();
    tess.step();
    assert_eq!(tess.sites[0].newly_claimed, vec![GridIdx(1, 2), GridIdx(2, 1), GridIdx(1, 0), GridIdx(0, 1)]);
}

#[test]
fn coordinates_in_row_major_order() {
    let b = BoundingBox::new(1, 1, 2, 2);
    let mut it = b.coordinates_iter();
    assert_eq!(it.size_hint(), (4, Some(4)));
    let mut seen = Vec::new();
    while let Some(p) = it.next() {
        seen.push(p);
    }
    assert_eq!(seen, vec![GridIdx(1, 1), GridIdx(2, 1), GridIdx(1, 2), GridIdx(2, 2)]);
    assert_eq!(it.size_hint(), (0, Some(0)));
}

#[test]
fn neighbors_are_filtered_and_ordered() {
    let b = BoundingBox::new(0, 0, 3, 3);
    assert_eq!(GridIdx(0, 0).neighbor_list(&b), vec![GridIdx(0, 1), GridIdx(1, 0)]);
    assert_eq!(GridIdx(1, 1).neighbor_list(&b), vec![GridIdx(1, 2), GridIdx(2, 1), GridIdx(1, 0), GridIdx(0, 1)]);
    assert!(GridIdx(2, 2).inside(&b));
    assert!(!GridIdx(3, 0).inside(&b));
    assert_eq!(b.translate_idx(GridIdx(2, 1)), (2, 1));
}

#[test]
fn reset_grid_empties_cells() {
    let sites: Vec<(isize, isize, i32)> = vec![(0, 0, 1)];
    let mut tess = VoronoiBuilder::new(sites).bounds(BoundingBox::new(0, 0, 2, 2)).build();
    tess.compute();
    tess.reset_grid();
    assert!(tess.grid.data.iter().all(|c| c.owner.is_none() && !c.contested));
}

#[test]
fn buffer_maps_cells_with_their_sites() {
    let sites: Vec<(isize, isize, i32)> = vec![(0, 0, 1), (2, 0, 5)];
    let tess = VoronoiBuilder::new(sites).bounds(BoundingBox::new(0, 0, 3, 1)).build();
    let buf = tess.into_buffer(|c, s| s.map(|x| x.2).unwrap_or(0) + c.coordinates.0 as i32 * 100);
    assert_eq!(buf, vec![1, 100, 205]);
}

#[test]
fn regions_group_cells_by_site() {
    let sites: Vec<(isize, isize, i32)> = vec![(4, 0, 1), (0, 0, 1)];
    let mut tess = VoronoiBuilder::new(sites).bounds(BoundingBox::new(0, 0, 5, 1)).build();
    tess.compute();
    let regions = tess.into_regions();
    assert_eq!(regions.len(), 2);
    assert_eq!(regions[0].0, (0, 0, 1));
    let left: Vec<GridIdx> = regions[0].1.iter().map(|c| c.coordinates).collect();
    let right: Vec<GridIdx> = regions[1].1.iter().map(|c| c.coordinates).collect();
    assert_eq!(left, vec![GridIdx(0, 0), GridIdx(1, 0)]);
    assert_eq!(right, vec![GridIdx(3, 0), GridIdx(4, 0)]);
}

#[test]
fn claim_cells_wins_disputes_and_skips() {
    let mut grid = Grid::new(BoundingBox::new(0, 0, 3, 1));
    let (won, disputed) = grid.claim_cells(&vec![GridIdx(0, 0), GridIdx(1, 0), GridIdx(0, 0)], SiteOwner(0));
    assert_eq!(won, vec![GridIdx(0, 0), GridIdx(1, 0)]);
    assert!(disputed.is_empty());
    let (won, disputed) = grid.claim_cells(&vec![GridIdx(1, 0), GridIdx(2, 0), GridIdx(1, 0)], SiteOwner(1));
    assert_eq!(won, vec![GridIdx(2, 0)]);
    assert_eq!(disputed, vec![(GridIdx(1, 0), SiteOwner(0))]);
    let cells = grid.into_raw();
    assert_eq!(*cells[1].owner(), None);
    assert!(cells[1].contested());
    assert_eq!(*cells[2].owner(), Some(SiteOwner(1)));
    assert!(!cells[0].contested());
}

#[test]
fn clear_and_set_owner() {
    let mut grid = Grid::new(BoundingBox::new(-1, -1, 2, 2));
    grid.claim_cells(&vec![GridIdx(-1, -1)], SiteOwner(3));
    assert_eq!(*grid.bounds(), BoundingBox::new(-1, -1, 2, 2));
    grid.clear();
    let mut cells = grid.into_raw();
    assert!(cells.iter().all(|c| c.owner().is_none()));
    cells[3].set_owner(SiteOwner(2));
    assert_eq!(*cells[3].owner(), Some(SiteOwner(2)));
    assert_eq!(cells[3].coordinates, GridIdx(0, 0));
}

#[test]
fn site_and_point_capabilities() {
    let s: (isize, isize, i32) = (4, -2, 9);
    assert_eq!(s.coordinates(), (4, -2));
    assert_eq!(s.weight(), 9);
    assert_eq!(GridIdx(7, 8).coordinates(), (7, 8));
    assert_eq!(GridIdx::from((1, 2)), GridIdx(1, 2));
}

#[test]
fn neighbor_iterator_walks_directions() {
    let b = BoundingBox::new(0, 0, 2, 2);
    let mut it = GridIdx(0, 1).neighbors(&b);
    assert_eq!(it.size_hint(), (0, Some(4)));
    assert_eq!(it.next(), Some(GridIdx(1, 1)));
    assert_eq!(it.next(), Some(GridIdx(0, 0)));
    assert_eq!(it.next(), None);
}

#[test]
fn regions_skip_sites_without_cells() {
    let sites: Vec<(isize, isize, i32)> = vec![(0, 0, 1), (2, 0, 1)];
    let mut tess = VoronoiBuilder::new(sites).bounds(BoundingBox::new(0, 0, 3, 1)).build();
    tess.reset_grid();
    assert!(tess.into_regions().is_empty());
}

#[test]
fn regions_list_only_owning_sites() {
    // the heavy site wins the light site's own cell under the power metric
    let sites: Vec<(isize, isize, i32)> = vec![(0, 0, 10), (1, 0, 0)];
    let mut tess = VoronoiBuilder::new(sites)
        .metric::<PowerEuclidean>()
        .bounds(BoundingBox::new(0, 0, 2, 1))
        .build();
    tess.compute();
    let regions = tess.into_regions();
    assert_eq!(regions.len(), 1);
    assert_eq!(regions[0].0, (0, 0, 10));
    assert_eq!(regions[0].1.len(), 2);
}

fn four_connected(cells: &[GridIdx]) -> bool {
    if cells.is_empty() {
        return true;
    }
    let mut seen = vec![false; cells.len()];
    let mut stack = vec![0usize];
    seen[0] = true;
    while let Some(i) = stack.pop() {
        for j in 0..cells.len() {
            let d = (cells[i].0 - cells[j].0).abs() + (cells[i].1 - cells[j].1).abs();
            if !seen[j] && d == 1 {
                seen[j] = true;
                stack.push(j);
            }
        }
    }
    seen.iter().all(|s| *s)
}

#[test]
fn heavy_regions_are_contiguous() {
    let sites: Vec<(isize, isize, i32)> = vec![(2, 4, 8), (9, 11, 1), (4, 9, 8), (9, 4, 1)];
    let mut tess = VoronoiBuilder::new(sites)
        .metric::<MultWeightedEuclidean>()
        .bounds(BoundingBox::new(0, 0, 14, 14))
        .build();
    tess.compute();
    let regions = tess.into_regions();
    let heavy: Vec<&((isize, isize, i32), Vec<discrete_voronoi::Cell>)> = regions.iter().filter(|r| r.0 .2 == 8).collect();
    assert_eq!(heavy.len(), 2);
    for r in heavy {
        let coords: Vec<GridIdx> = r.1.iter().map(|c| c.coordinates).collect();
        assert!(four_connected(&coords));
    }
}
