use point_cloud::assets::{
    AssetBook, AssetChangeStatus, AssetLoadStatus, FreedAsset, LoadRequest, LoadedEvent,
    RefCountChange,
};
use point_cloud::cell::{Cell, CellId, CellIndex};
use point_cloud::source::{AssetSource, SourceError};

fn id(x: i32) -> CellId {
    CellId { hierarchy: 0, index: CellIndex { x, y: 0, z: 0 } }
}

fn path(name: &str) -> AssetSource {
    AssetSource::Path(name.to_string())
}

fn cell(x: i32) -> Cell {
    Cell::new(id(x), 96, 1000.0f32.to_bits(), [0, 0, 0], 4)
}

fn saved(freed: &[FreedAsset]) -> Vec<(CellId, bool)> {
    freed.iter().map(|(id, s)| (*id, s.is_some())).collect()
}

fn load(book: &mut AssetBook, x: i32) {
    book.request_load(id(x), path("c"));
    book.finish_load(id(x), Ok(cell(x)));
}

#[test]
fn first_request_starts_loading_later_ones_wait() {
    let mut book = AssetBook::new();
    assert_eq!(book.request_load(id(1), path("first")), LoadRequest::StartLoading);
    let status = book.status(&id(1)).unwrap();
    assert_eq!(status.load_status, AssetLoadStatus::Loading);
    assert_eq!(status.change_status, AssetChangeStatus::UnChanged);
    assert!(book.asset(&id(1)).is_none());
    // A second request keeps the source the load was started with.
    assert_eq!(book.request_load(id(1), path("second")), LoadRequest::WaitForLoad);
    assert!(matches!(book.source(&id(1)), Some(AssetSource::Path(p)) if p == "first"));
    let event = book.finish_load(id(1), Ok(cell(1)));
    assert!(matches!(event, LoadedEvent::Success(i) if i == id(1)));
    assert_eq!(book.status(&id(1)).unwrap().load_status, AssetLoadStatus::Loaded);
    assert_eq!(book.asset(&id(1)).unwrap().header().id, id(1));
    assert_eq!(book.ref_count(&id(1)), Some(0));
    assert_eq!(book.request_load(id(1), path("third")), LoadRequest::AlreadyLoaded);
}

#[test]
fn failed_load_leaves_the_book() {
    let mut book = AssetBook::new();
    book.request_load(id(2), path("c"));
    let event = book.finish_load(id(2), Err(SourceError::NotFound("c".to_string())));
    assert!(matches!(event, LoadedEvent::Error(i, SourceError::NotFound(m)) if i == id(2) && m == "c"));
    assert!(book.status(&id(2)).is_none());
    assert!(book.source(&id(2)).is_none());
    assert!(book.ref_count(&id(2)).is_none());
    assert_eq!(book.request_load(id(2), path("c")), LoadRequest::StartLoading);
}

#[test]
fn inserted_asset_is_loaded_and_changed() {
    let mut book = AssetBook::new();
    book.insert(id(3), cell(3), path("made"));
    assert!(matches!(book.source(&id(3)), Some(AssetSource::Path(p)) if p == "made"));
    assert!(book.asset(&id(3)).is_some());
    let status = book.status(&id(3)).unwrap();
    assert_eq!(status.load_status, AssetLoadStatus::Loaded);
    assert_eq!(status.change_status, AssetChangeStatus::Changed);
    assert_eq!(book.ref_count(&id(3)), Some(0));
}

#[test]
fn asset_without_handles_is_freed_and_saved_if_changed() {
    let mut book = AssetBook::new();
    book.insert(id(1), cell(1), path("one"));
    load(&mut book, 2);
    let changes = vec![
        RefCountChange::Increase(id(1)),
        RefCountChange::Increase(id(2)),
        RefCountChange::Increase(id(2)),
        RefCountChange::Decrease(id(1)),
        RefCountChange::Decrease(id(2)),
    ];
    let freed = book.release(&changes);
    assert_eq!(saved(&freed), vec![(id(1), true)]);
    let (cell1, source1) = freed[0].1.as_ref().unwrap();
    assert_eq!(cell1.header().id, id(1));
    assert!(matches!(source1, AssetSource::Path(p) if p == "one"));
    assert!(book.asset(&id(1)).is_none());
    assert!(book.status(&id(1)).is_none());
    assert_eq!(book.ref_count(&id(1)), Some(0));
    assert_eq!(book.ref_count(&id(2)), Some(1));
    assert!(book.status(&id(2)).is_some());
}

#[test]
fn unchanged_asset_is_freed_without_saving() {
    let mut book = AssetBook::new();
    load(&mut book, 4);
    let freed = book.release(&vec![RefCountChange::Increase(id(4)), RefCountChange::Decrease(id(4))]);
    assert_eq!(saved(&freed), vec![(id(4), false)]);
    assert!(book.asset(&id(4)).is_none());
}

#[test]
fn changed_asset_is_saved_when_freed() {
    let mut book = AssetBook::new();
    load(&mut book, 5);
    book.mark_changed(id(5));
    assert_eq!(book.status(&id(5)).unwrap().change_status, AssetChangeStatus::Changed);
    let freed = book.release(&vec![RefCountChange::Increase(id(5)), RefCountChange::Decrease(id(5))]);
    assert_eq!(saved(&freed), vec![(id(5), true)]);
}

#[test]
fn handle_made_again_in_the_same_batch_keeps_the_asset() {
    let mut book = AssetBook::new();
    book.insert(id(6), cell(6), path("six"));
    let freed = book.release(&vec![
        RefCountChange::Increase(id(6)),
        RefCountChange::Decrease(id(6)),
        RefCountChange::Increase(id(6)),
    ]);
    assert!(freed.is_empty());
    assert_eq!(book.ref_count(&id(6)), Some(1));
    assert!(book.status(&id(6)).is_some());
}

#[test]
fn no_source_gives_no_source_error() {
    assert!(matches!(AssetSource::Nowhere.location(), Err(SourceError::NoSource)));
    assert_eq!(path("a/b").location().unwrap(), "a/b");
    assert_eq!(AssetSource::Url("http://x".to_string()).location().unwrap(), "http://x");
}
