use point_cloud::cell::{CellId, CellIndex};
use point_cloud::cellbuffer::{sort_cells, update_loaded_cells_buffer, update_visible_cells_buffer};
use point_cloud::queue::{CellToLoad, LoadQueue};
use point_cloud::report::{benchmark_report, BenchmarkSample};
use point_cloud::stream::{
    cleanup_cells, count_points, enqueue_cells_to_load, receive_cell, update_cells, Candidate,
    LoadOutcome, LoadedCells, LoadingCells, MissingCells, Received, MAX_LOADING_SIZE,
};

fn id(hierarchy: u32, x: i32) -> CellId {
    CellId { hierarchy, index: CellIndex { x, y: 0, z: 0 } }
}

fn seen(id: CellId, priority: u32) -> Candidate {
    Candidate { id, in_view: true, priority }
}

fn culled(id: CellId, priority: u32) -> Candidate {
    Candidate { id, in_view: false, priority }
}

struct Streamer {
    loaded: LoadedCells,
    missing: MissingCells,
    loading: LoadingCells,
}

impl Streamer {
    fn new() -> Self {
        Streamer { loaded: LoadedCells::new(), missing: MissingCells::new(), loading: LoadingCells::new() }
    }

    fn update(&mut self, candidates: Vec<Candidate>) -> Vec<(CellId, u64)> {
        update_cells(&mut self.loaded, &mut self.missing, &mut self.loading, &candidates)
    }

    fn enqueue(&mut self) -> Vec<CellId> {
        enqueue_cells_to_load(&mut self.loading)
    }

    fn receive(&mut self, id: CellId, outcome: LoadOutcome) -> Received {
        receive_cell(&mut self.missing, &mut self.loading, id, outcome)
    }
}

#[test]
fn queue_orders_by_hierarchy_then_priority() {
    let mut q = LoadQueue::new();
    assert!(q.insert(CellToLoad { id: id(1, 0), priority: 0 }));
    assert!(q.insert(CellToLoad { id: id(0, 1), priority: 9 }));
    assert!(q.insert(CellToLoad { id: id(0, 2), priority: 3 }));
    assert_eq!(q.len(), 3);
    assert_eq!(q.pop_first().unwrap().id, id(0, 2));
    assert_eq!(q.pop_first().unwrap().id, id(0, 1));
    assert_eq!(q.pop_first().unwrap().id, id(1, 0));
    assert!(q.pop_first().is_none());
}

#[test]
fn queue_keeps_one_entry_per_cell() {
    let mut q = LoadQueue::new();
    assert!(q.insert(CellToLoad { id: id(0, 2), priority: 4 }));
    // Another cell of the same hierarchy and priority is a new entry.
    assert!(q.insert(CellToLoad { id: id(0, 1), priority: 4 }));
    // The same cell again is not.
    assert!(!q.insert(CellToLoad { id: id(0, 1), priority: 9 }));
    assert_eq!(q.len(), 2);
    // Removal takes out the entry of that cell only.
    assert!(q.remove(&CellToLoad { id: id(0, 2), priority: 4 }));
    assert_eq!(q.len(), 1);
    assert!(!q.remove(&CellToLoad { id: id(0, 2), priority: 4 }));
    assert_eq!(q.pop_first().unwrap().id, id(0, 1));
}

#[test]
fn visible_cells_are_loaded_nearest_first() {
    let mut s = Streamer::new();
    let despawn = s.update(vec![
        seen(id(0, 1), 50),
        seen(id(0, 2), 10),
        culled(id(0, 3), 1),
        seen(id(1, 4), 0),
    ]);
    assert!(despawn.is_empty());
    assert_eq!(s.loading.waiting_len(), 3);
    assert_eq!(s.enqueue(), vec![id(0, 2), id(0, 1), id(1, 4)]);
    assert_eq!(s.loading.waiting_len(), 0);
    assert_eq!(s.loading.loading_len(), 3);
    assert!(s.loading.is_loading(&id(0, 1)));
    assert!(!s.loading.is_loading(&id(0, 3)));
}

#[test]
fn at_most_ten_cells_load_at_once() {
    let mut s = Streamer::new();
    let candidates: Vec<Candidate> = (0..12).map(|x| seen(id(0, x), x as u32)).collect();
    s.update(candidates);
    let sent = s.enqueue();
    assert_eq!(sent.len(), MAX_LOADING_SIZE);
    assert_eq!(sent[0], id(0, 0));
    assert_eq!(sent[9], id(0, 9));
    assert_eq!(s.loading.waiting_len(), 2);
    assert!(s.enqueue().is_empty());
    assert_eq!(s.receive(id(0, 0), LoadOutcome::Found), Received::Spawn);
    assert_eq!(s.enqueue(), vec![id(0, 10)]);
}

#[test]
fn received_cell_is_spawned_and_later_despawned() {
    let mut s = Streamer::new();
    s.update(vec![seen(id(0, 1), 3), seen(id(0, 2), 4)]);
    s.enqueue();
    assert_eq!(s.receive(id(0, 1), LoadOutcome::Found), Received::Spawn);
    assert_eq!(s.loaded.insert(id(0, 1), 77), None);
    assert_eq!(s.loaded.get(&id(0, 1)), Some(77));
    assert!(!s.loading.is_loading(&id(0, 1)));
    // Still shown: kept.
    assert!(s.update(vec![seen(id(0, 1), 3)]).is_empty());
    assert_eq!(s.loaded.len(), 1);
    // No longer shown: despawned.
    assert_eq!(s.update(vec![culled(id(0, 1), 3)]), vec![(id(0, 1), 77)]);
    assert_eq!(s.loaded.len(), 0);
    assert_eq!(s.loaded.get(&id(0, 1)), None);
}

#[test]
fn cell_no_longer_loading_is_not_needed() {
    let mut s = Streamer::new();
    assert_eq!(s.receive(id(0, 1), LoadOutcome::Found), Received::NotNeeded);
    assert_eq!(s.receive(id(0, 1), LoadOutcome::Missing), Received::NotNeeded);
    assert_eq!(s.missing.len(), 0);
}

#[test]
fn missing_cell_is_not_asked_for_again() {
    let mut s = Streamer::new();
    s.update(vec![seen(id(2, 5), 1)]);
    assert_eq!(s.enqueue(), vec![id(2, 5)]);
    assert_eq!(s.receive(id(2, 5), LoadOutcome::Missing), Received::Missing);
    assert_eq!(s.missing.len(), 1);
    s.update(vec![seen(id(2, 5), 1)]);
    assert_eq!(s.loading.waiting_len(), 0);
    assert!(s.enqueue().is_empty());
}

#[test]
fn failed_cell_may_be_asked_for_again() {
    let mut s = Streamer::new();
    s.update(vec![seen(id(0, 7), 1)]);
    s.enqueue();
    assert_eq!(s.receive(id(0, 7), LoadOutcome::Failed), Received::Failed);
    assert_eq!(s.missing.len(), 0);
    s.update(vec![seen(id(0, 7), 1)]);
    assert_eq!(s.enqueue(), vec![id(0, 7)]);
}

#[test]
fn loading_cell_does_not_wait_again() {
    let mut s = Streamer::new();
    s.update(vec![seen(id(0, 1), 1)]);
    s.enqueue();
    s.update(vec![seen(id(0, 1), 1)]);
    assert_eq!(s.loading.waiting_len(), 0);
}

#[test]
fn waiting_cells_out_of_view_stop_waiting() {
    let mut s = Streamer::new();
    s.update(vec![seen(id(0, 1), 1), seen(id(0, 2), 2)]);
    assert_eq!(s.loading.waiting_len(), 2);
    s.update(vec![seen(id(0, 2), 2)]);
    assert_eq!(s.loading.waiting_len(), 1);
    assert_eq!(s.enqueue(), vec![id(0, 2)]);
}

#[test]
fn cells_of_equal_hierarchy_and_priority_both_wait() {
    let mut s = Streamer::new();
    s.update(vec![seen(id(0, 2), 6), seen(id(0, 1), 6)]);
    assert_eq!(s.loading.waiting_len(), 2);
    assert_eq!(s.enqueue(), vec![id(0, 1), id(0, 2)]);
}

#[test]
fn cleanup_forgets_everything() {
    let mut s = Streamer::new();
    s.update(vec![seen(id(0, 1), 1), seen(id(0, 2), 2), seen(id(0, 3), 3)]);
    s.enqueue();
    s.receive(id(0, 1), LoadOutcome::Found);
    s.loaded.insert(id(0, 1), 5);
    s.receive(id(0, 2), LoadOutcome::Missing);
    cleanup_cells(&mut s.loaded, &mut s.missing, &mut s.loading);
    assert_eq!(s.loaded.len(), 0);
    assert_eq!(s.missing.len(), 0);
    assert_eq!(s.loading.waiting_len(), 0);
    assert_eq!(s.loading.loading_len(), 0);
}

#[test]
fn count_points_sums_and_sizes() {
    let stats = count_points(&vec![3, 4, 5]);
    assert_eq!(stats.loaded_points, 12);
    assert_eq!(stats.loaded_points_byte_size, 192);
    let none = count_points(&vec![]);
    assert_eq!(none.loaded_points, 0);
    assert_eq!(none.loaded_points_byte_size, 0);
}

fn sample(fps: &str, loaded_points: u64, loaded_cells: u32, should_load: u32, loading_cells: u32) -> BenchmarkSample {
    BenchmarkSample {
        fps: fps.to_string(),
        cpu: "0".to_string(),
        loaded_points,
        loaded_cells,
        should_load,
        loading_cells,
    }
}

#[test]
fn benchmark_report_lists_each_quantity() {
    let report = benchmark_report(&vec![sample("60", 1200, 3, 7, 10), sample("59", 0, 0, 0, 2)]);
    assert_eq!(
        report,
        "fps:(60,59),\ncpu:(0,0),\nloaded_points:(1200,0),\nloaded_cells:(3,0),\nloading_cells:(10,2),\nshould_load:(7,0),\n"
    );
}

#[test]
fn benchmark_report_without_samples() {
    assert_eq!(
        benchmark_report(&vec![]),
        "fps:(),\ncpu:(),\nloaded_points:(),\nloaded_cells:(),\nloading_cells:(),\nshould_load:(),\n"
    );
}

fn cell3(hierarchy: u32, x: i32, y: i32, z: i32) -> CellId {
    CellId { hierarchy, index: CellIndex { x, y, z } }
}

#[test]
fn cells_sort_by_hierarchy_then_index() {
    let cells = vec![
        cell3(1, 0, 0, 0),
        cell3(0, 2, 0, 0),
        cell3(0, -1, 5, 0),
        cell3(0, -1, 4, 9),
        cell3(0, -1, 4, 1),
    ];
    assert_eq!(
        sort_cells(&cells),
        vec![cell3(0, -1, 4, 1), cell3(0, -1, 4, 9), cell3(0, -1, 5, 0), cell3(0, 2, 0, 0), cell3(1, 0, 0, 0)]
    );
}

#[test]
fn loaded_cells_buffer_layout() {
    let u = update_loaded_cells_buffer(&vec![cell3(2, -1, 0, 3), cell3(1, 7, 8, 9)], 1);
    assert_eq!(u.new_capacity, Some(52));
    assert_eq!(
        u.bytes,
        vec![
            2, 0, 0, 0, // count
            1, 0, 0, 0, 7, 0, 0, 0, 8, 0, 0, 0, 9, 0, 0, 0, // first cell
            2, 0, 0, 0, 255, 255, 255, 255, 0, 0, 0, 0, 3, 0, 0, 0, // second cell
        ]
    );
    let fits = update_loaded_cells_buffer(&vec![cell3(0, 0, 0, 0)], 1);
    assert_eq!(fits.new_capacity, None);
    assert_eq!(fits.bytes.len(), 4 + 16);
}

#[test]
fn visible_cells_buffer_puts_coarse_cells_first() {
    let u = update_visible_cells_buffer(&vec![cell3(3, 0, 0, 0), cell3(0, 0, 0, 0)], 10);
    assert_eq!(u.new_capacity, None);
    assert_eq!(&u.bytes[0..8], &[2, 0, 0, 0, 0, 0, 0, 0]);
    assert_eq!(&u.bytes[20..24], &[3, 0, 0, 0]);
}
