use point_cloud::cell::{CellId, CellIndex};
use point_cloud::sorted::{CellSortValue, SortedCells};
use point_cloud::source::SourceError;
use point_cloud::stream::{LoadedCells, MissingCells};
use point_cloud::visible::{
    cleanup_cells, enqueue_cells_to_load, receive_cell, update_cells, CellAction, CellEvent,
    LoadingCells, VisibleCells,
};

fn idx(x: i32) -> CellIndex {
    CellIndex { x, y: 0, z: 0 }
}

fn id(hierarchy: u32, x: i32) -> CellId {
    CellId { hierarchy, index: idx(x) }
}

struct Streamer {
    visible: VisibleCells,
    loaded: LoadedCells,
    missing: MissingCells,
    loading: LoadingCells,
}

impl Streamer {
    fn new() -> Self {
        Streamer {
            visible: VisibleCells::new(),
            loaded: LoadedCells::new(),
            missing: MissingCells::new(),
            loading: LoadingCells::new(),
        }
    }

    fn update(&mut self, frustums: Vec<Vec<(CellIndex, u32)>>) -> Vec<(CellId, u64)> {
        update_cells(&mut self.visible, &mut self.loaded, &mut self.missing, &mut self.loading, &frustums)
    }

    fn enqueue(&mut self) -> Vec<CellId> {
        enqueue_cells_to_load(&mut self.loading)
    }

    fn receive(&mut self, event: CellEvent) -> CellAction {
        receive_cell(&self.visible, &self.loaded, &mut self.missing, &mut self.loading, event)
    }
}

#[test]
fn sorted_cells_hand_out_smallest_value_first() {
    let mut m = SortedCells::new();
    m.insert(id(1, 0), CellSortValue { hierarchy: 1, distance_to_camera: 0 });
    m.insert(id(0, 5), CellSortValue { hierarchy: 0, distance_to_camera: 9 });
    m.insert(id(0, 3), CellSortValue { hierarchy: 0, distance_to_camera: 9 });
    m.insert(id(0, 7), CellSortValue { hierarchy: 0, distance_to_camera: 50 });
    // Setting a new value moves the cell.
    m.insert(id(0, 7), CellSortValue { hierarchy: 0, distance_to_camera: 1 });
    assert_eq!(m.len(), 4);
    assert_eq!(m.pop_first().unwrap().0, id(0, 7));
    assert_eq!(m.pop_first().unwrap().0, id(0, 3));
    assert_eq!(m.pop_first().unwrap().0, id(0, 5));
    assert_eq!(m.remove(&id(1, 0)), Some(CellSortValue { hierarchy: 1, distance_to_camera: 0 }));
    assert!(m.pop_first().is_none());
}

#[test]
fn cells_coming_into_view_wait_coarsest_and_nearest_first() {
    let mut s = Streamer::new();
    let despawn = s.update(vec![vec![(idx(1), 50), (idx(2), 10)], vec![(idx(3), 0)]]);
    assert!(despawn.is_empty());
    assert_eq!(s.loading.waiting_len(), 3);
    assert!(s.visible.contains(&id(0, 1)));
    assert!(s.visible.contains(&id(1, 3)));
    assert!(!s.visible.contains(&id(2, 3)));
    assert_eq!(s.enqueue(), vec![id(0, 2), id(0, 1), id(1, 3)]);
    assert_eq!(s.loading.loading_len(), 3);
    assert_eq!(s.loading.waiting_len(), 0);
}

#[test]
fn loaded_cell_is_drawn_and_despawned_when_it_leaves_view() {
    let mut s = Streamer::new();
    s.update(vec![vec![(idx(1), 4), (idx(2), 8)]]);
    s.enqueue();
    assert_eq!(s.receive(CellEvent::Loaded(id(0, 1))), CellAction::Spawn { despawn_replaced: true });
    assert_eq!(s.loaded.insert(id(0, 1), 41), None);
    assert_eq!(s.receive(CellEvent::Loaded(id(0, 1))), CellAction::Nothing);
    assert_eq!(s.receive(CellEvent::Changed(id(0, 1))), CellAction::Reload(41));
    // Cell 1 leaves the view: it is despawned; cell 2 leaves it while loading.
    let despawn = s.update(vec![vec![(idx(9), 1)]]);
    assert_eq!(despawn, vec![(id(0, 1), 41)]);
    assert_eq!(s.loaded.len(), 0);
    assert!(!s.loading.is_loading(&id(0, 2)));
    assert_eq!(s.receive(CellEvent::Loaded(id(0, 2))), CellAction::Nothing);
}

#[test]
fn waiting_cell_that_leaves_view_stops_waiting() {
    let mut s = Streamer::new();
    s.update(vec![vec![(idx(1), 4), (idx(2), 8)]]);
    s.update(vec![vec![(idx(2), 8)]]);
    assert_eq!(s.loading.waiting_len(), 1);
    assert_eq!(s.enqueue(), vec![id(0, 2)]);
}

#[test]
fn missing_cell_in_view_again_does_not_wait() {
    let mut s = Streamer::new();
    s.update(vec![vec![(idx(1), 4)]]);
    s.enqueue();
    let action = s.receive(CellEvent::LoadFailed(id(0, 1), SourceError::NotFound("gone".to_string())));
    assert_eq!(action, CellAction::Missing);
    assert_eq!(s.missing.len(), 1);
    s.update(vec![vec![]]);
    s.update(vec![vec![(idx(1), 4)]]);
    assert_eq!(s.loading.waiting_len(), 0);
    // Once made by the caller, it is no longer missing and is drawn.
    assert_eq!(s.receive(CellEvent::Created(id(0, 1))), CellAction::Spawn { despawn_replaced: false });
    assert_eq!(s.missing.len(), 0);
}

#[test]
fn other_load_failures() {
    let mut s = Streamer::new();
    s.update(vec![vec![(idx(1), 4), (idx(2), 5)]]);
    s.enqueue();
    assert_eq!(s.receive(CellEvent::LoadFailed(id(0, 1), SourceError::NoSource)), CellAction::Nothing);
    let other = SourceError::Other { message: "bad".to_string(), name: "other".to_string() };
    assert_eq!(s.receive(CellEvent::LoadFailed(id(0, 2), other)), CellAction::Failed);
    assert_eq!(s.missing.len(), 0);
    assert_eq!(s.loading.loading_len(), 0);
}

#[test]
fn created_cell_out_of_view_is_not_drawn() {
    let mut s = Streamer::new();
    assert_eq!(s.receive(CellEvent::Created(id(0, 1))), CellAction::Nothing);
    s.update(vec![vec![(idx(1), 3)]]);
    assert_eq!(s.loading.waiting_len(), 1);
    assert_eq!(s.receive(CellEvent::Created(id(0, 1))), CellAction::Spawn { despawn_replaced: false });
    assert_eq!(s.loading.waiting_len(), 0);
}

#[test]
fn fewer_frustums_forget_finer_hierarchies() {
    let mut s = Streamer::new();
    s.update(vec![vec![(idx(1), 1)], vec![(idx(1), 1)]]);
    s.update(vec![vec![(idx(1), 1)]]);
    assert!(!s.visible.contains(&id(1, 1)));
    assert!(s.visible.contains(&id(0, 1)));
    // The finer cell still waits: only changed hierarchies are looked at.
    assert_eq!(s.loading.waiting_len(), 2);
}

#[test]
fn cleanup_forgets_cells_in_view_too() {
    let mut s = Streamer::new();
    s.update(vec![vec![(idx(1), 1), (idx(2), 2)]]);
    s.enqueue();
    s.receive(CellEvent::Loaded(id(0, 1)));
    s.loaded.insert(id(0, 1), 3);
    cleanup_cells(&mut s.visible, &mut s.loaded, &mut s.missing, &mut s.loading);
    assert!(!s.visible.contains(&id(0, 2)));
    assert_eq!(s.loaded.len(), 0);
    assert_eq!(s.loading.loading_len(), 0);
    assert_eq!(s.loading.waiting_len(), 0);
}
