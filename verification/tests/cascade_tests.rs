use point_cloud::cascade::{Cascade, CascadeStep};
use point_cloud::cell::{CellId, CellIndex};
use point_cloud::point::Point;
use rustc_hash::FxHashMap;

fn idx(x: i32) -> CellIndex {
    CellIndex { x, y: 0, z: 0 }
}

fn pts(n: usize) -> Vec<Point> {
    (0..n).map(|i| Point::new(i as u32, 0, 0, [0, 0, 0, 255])).collect()
}

#[test]
fn cascade_fills_each_cell_then_goes_down_a_level() {
    let mut groups = FxHashMap::default();
    groups.insert(idx(1), pts(2));
    groups.insert(idx(2), pts(3));
    let mut cascade = Cascade::new(0, groups);
    assert_eq!(cascade.level(), 0);

    let mut filled = Vec::new();
    for _ in 0..2 {
        match cascade.step() {
            CascadeStep::Fill(id, points) => {
                assert_eq!(id.hierarchy, 0);
                filled.push((id.index.x, points.len()));
                // each cell hands one point on to the cell below
                let mut rest = FxHashMap::default();
                rest.insert(idx(7), pts(1));
                cascade.hand_on(rest);
            }
            CascadeStep::Done => panic!("cells of level 0 remain"),
        }
    }
    filled.sort();
    assert_eq!(filled, vec![(1, 2), (2, 3)]);

    // the points handed on, merged, fill one cell of level 1
    assert!(cascade.can_step());
    match cascade.step() {
        CascadeStep::Fill(id, points) => {
            assert_eq!(id, CellId { hierarchy: 1, index: idx(7) });
            assert_eq!(points.len(), 2);
        }
        CascadeStep::Done => panic!("level 1 has a cell to fill"),
    }
    assert_eq!(cascade.level(), 1);
    assert!(matches!(cascade.step(), CascadeStep::Done));
}

#[test]
fn cascade_of_nothing_is_done() {
    let mut cascade = Cascade::new(3, FxHashMap::default());
    assert!(matches!(cascade.step(), CascadeStep::Done));
    assert_eq!(cascade.level(), 3);
}
