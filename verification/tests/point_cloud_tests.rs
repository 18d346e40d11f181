use point_cloud::bits::Bits;
use point_cloud::bytes::{ByteReader, ReadError};
use point_cloud::cell::{
    group_points, merge_point_maps, Cell, CellId, CellIndex, Header, MetadataConfig,
};
use point_cloud::format::read_cell_record;
use point_cloud::hex::{AxialIndex, OffsetIndex};
use point_cloud::naming::hierarchy_string;
use point_cloud::point::{point_field, Point, PointField};
use point_cloud::render::{distance_bucket, distance_groups, VertexBuffer};
use point_cloud::source::{handle_response_from_url, HttpResponse, SourceError};
use rustc_hash::FxHashMap;

fn point(x: f32, y: f32, z: f32, color: [u8; 4]) -> Point {
    Point::new(x.to_bits(), y.to_bits(), z.to_bits(), color)
}

fn cell_id(hierarchy: u32, x: i32, y: i32, z: i32) -> CellId {
    CellId { hierarchy, index: CellIndex { x, y, z } }
}

fn offset(x: i32, y: i32, z: i32) -> OffsetIndex {
    OffsetIndex { x, y, z }
}

fn new_cell() -> Cell {
    Cell::new(cell_id(0, 1, 2, 3), 96, 1000.0f32.to_bits(), [0, 0, 0], 16)
}

// ---------------------------------------------------------------- bits

#[test]
fn bits_new_rounds_up_to_whole_words() {
    assert_eq!(Bits::new(0).len(), 0);
    assert_eq!(Bits::new(1).len(), 32);
    assert_eq!(Bits::new(32).len(), 32);
    assert_eq!(Bits::new(33).len(), 64);
    let bits = Bits::new(100);
    for i in 0..bits.len() {
        assert!(!bits.is_bit_set(i));
    }
}

#[test]
fn bits_set_reports_whether_unset_before() {
    let mut bits = Bits::new(64);
    assert!(bits.set_bit(5));
    assert!(!bits.set_bit(5));
    assert!(bits.is_bit_set(5));
    assert!(!bits.is_bit_set(4));
    assert!(!bits.is_bit_set(6));
    assert!(bits.set_bit(63));
    assert!(bits.is_bit_set(63));
    assert!(bits.set_bit(32));
    assert!(bits.is_bit_set(32));
    assert!(!bits.is_bit_set(31));
}

#[test]
fn bits_unset_clears_only_that_bit() {
    let mut bits = Bits::new(40);
    bits.set_bit(3);
    bits.set_bit(4);
    bits.unset_bit(3);
    assert!(!bits.is_bit_set(3));
    assert!(bits.is_bit_set(4));
    bits.unset_bit(3);
    assert!(!bits.is_bit_set(3));
    assert!(bits.set_bit(3));
}

#[test]
fn bits_write_is_big_endian_words() {
    let mut bits = Bits::new(64);
    bits.set_bit(0);
    bits.set_bit(33);
    let mut out = Vec::new();
    bits.write_to(&mut out);
    assert_eq!(out, vec![0, 0, 0, 1, 0, 0, 0, 2]);
}

#[test]
fn bits_write_then_read_gives_same_bits() {
    let mut bits = Bits::new(70);
    for i in [0usize, 7, 31, 32, 45, 69, 95] {
        bits.set_bit(i);
    }
    let mut out = Vec::new();
    bits.write_to(&mut out);
    out.push(42);
    let mut reader = ByteReader::new(out);
    let read = Bits::read_from(&mut reader, 70).unwrap();
    assert_eq!(read.len(), bits.len());
    for i in 0..bits.len() {
        assert_eq!(read.is_bit_set(i), bits.is_bit_set(i));
    }
    assert_eq!(reader.remaining(), 1);
}

#[test]
fn bits_read_fails_on_short_input() {
    let mut reader = ByteReader::new(vec![0, 0, 0, 0, 0, 0, 0]);
    assert!(matches!(Bits::read_from(&mut reader, 64), Err(ReadError::UnexpectedEof)));
}

// ---------------------------------------------------------------- hex

#[test]
fn hex_offset_to_axial() {
    assert_eq!(offset(3, 5, 1).to_axial(), AxialIndex { q: 1, r: 5, h: 1 });
    assert_eq!(offset(3, 4, -1).to_axial(), AxialIndex { q: 1, r: 4, h: -1 });
    assert_eq!(offset(0, -3, 0).to_axial(), AxialIndex { q: 2, r: -3, h: 0 });
    assert_eq!(offset(0, -1, 0).to_axial(), AxialIndex { q: 1, r: -1, h: 0 });
    assert_eq!(offset(7, 0, 2).to_axial(), AxialIndex { q: 7, r: 0, h: 2 });
}

#[test]
fn hex_axial_to_offset() {
    assert_eq!(AxialIndex { q: 1, r: 5, h: 1 }.to_offset(), offset(3, 5, 1));
    assert_eq!(AxialIndex { q: 2, r: -3, h: 0 }.to_offset(), offset(0, -3, 0));
}

#[test]
fn hex_roundtrip() {
    for x in -5..5 {
        for y in -5..5 {
            let o = offset(x, y, x * y);
            assert_eq!(o.to_axial().to_offset(), o);
            let a = AxialIndex { q: x, r: y, h: 3 };
            assert_eq!(a.to_offset().to_axial(), a);
        }
    }
    let big = offset(i32::MAX, i32::MIN, 0);
    assert_eq!(big.to_axial().to_offset(), big);
}

// ---------------------------------------------------------------- point

#[test]
fn point_default_is_opaque_black_origin() {
    let p = Point::default();
    assert_eq!(p.pos, [0, 0, 0]);
    assert_eq!(p.color, [0, 0, 0, 255]);
}

#[test]
fn point_record_layout() {
    let p = point(1.0, -2.0, 0.5, [1, 2, 3, 4]);
    let mut out = Vec::new();
    p.write_to(&mut out);
    assert_eq!(out.len(), 16);
    assert_eq!(&out[0..4], &1.0f32.to_be_bytes());
    assert_eq!(&out[4..8], &(-2.0f32).to_be_bytes());
    assert_eq!(&out[8..12], &0.5f32.to_be_bytes());
    assert_eq!(&out[12..16], &[1, 2, 3, 4]);
}

#[test]
fn point_write_then_read() {
    let p = point(12.25, 0.0, -7.5, [9, 8, 7, 6]);
    let mut out = Vec::new();
    p.write_to(&mut out);
    let mut reader = ByteReader::new(out);
    let q = Point::read_from(&mut reader).unwrap();
    assert_eq!(q.pos, p.pos);
    assert_eq!(q.color, p.color);
    assert_eq!(reader.remaining(), 0);
    assert!(matches!(Point::read_from(&mut reader), Err(ReadError::UnexpectedEof)));
}

// ---------------------------------------------------------------- header

#[test]
fn header_new_has_no_points() {
    let h = Header::new(cell_id(2, -1, 0, 1), 96, 10.0f32.to_bits(), [1, 2, 3]);
    assert_eq!(h.total_number_of_points, 0);
    assert_eq!(h.number_of_points, 0);
    assert_eq!(h.number_of_overflow_points, 0);
    assert_eq!(h.sub_grid_dimension, 96);
    assert_eq!(h.id, cell_id(2, -1, 0, 1));
}

#[test]
fn header_write_then_read() {
    let mut h = Header::new(cell_id(7, -3, 4, -5), 64, 250.0f32.to_bits(), [
        1.5f32.to_bits(),
        (-2.5f32).to_bits(),
        3.0f32.to_bits(),
    ]);
    h.total_number_of_points = 12;
    h.number_of_points = 10;
    h.number_of_overflow_points = 2;
    let mut out = Vec::new();
    h.write_to(&mut out);
    assert_eq!(out.len(), 48);
    assert_eq!(&out[0..4], &7u32.to_le_bytes());
    assert_eq!(&out[4..8], &(-3i32).to_le_bytes());
    let mut reader = ByteReader::new(out);
    let r = Header::read_from(&mut reader).unwrap();
    assert_eq!(r.id, h.id);
    assert_eq!(r.total_number_of_points, 12);
    assert_eq!(r.number_of_points, 10);
    assert_eq!(r.number_of_overflow_points, 2);
    assert_eq!(r.sub_grid_dimension, 64);
    assert_eq!(r.size, 250.0f32.to_bits());
    assert_eq!(r.pos, h.pos);
}

#[test]
fn header_read_fails_on_short_input() {
    let mut reader = ByteReader::new(vec![0; 47]);
    assert!(matches!(Header::read_from(&mut reader), Err(ReadError::UnexpectedEof)));
    assert_eq!(reader.remaining(), 47);
}

// ---------------------------------------------------------------- config

#[test]
fn metadata_config_default() {
    let c = MetadataConfig::default();
    assert_eq!(c.sub_grid_dimension, 96);
    assert_eq!(c.cell_point_overflow_limit, 5000);
    assert_eq!(f32::from_bits(c.max_cell_size), 1000.0);
}

// ---------------------------------------------------------------- cell

#[test]
fn cell_add_point_to_free_slot() {
    let mut cell = new_cell();
    let p = point(1.0, 1.0, 1.0, [1, 1, 1, 255]);
    assert!(cell.add_point(p, offset(0, 0, 0), false).is_none());
    assert_eq!(cell.header().number_of_points, 1);
    assert_eq!(cell.header().total_number_of_points, 1);
    assert_eq!(cell.number_of_grid_points(), 1);
    assert_eq!(cell.point_at(&offset(0, 0, 0)).unwrap().pos, p.pos);
}

#[test]
fn cell_add_point_closer_replaces() {
    let mut cell = new_cell();
    let far = point(1.0, 1.0, 1.0, [1, 1, 1, 255]);
    let near = point(0.0, 0.0, 0.0, [2, 2, 2, 255]);
    cell.add_point(far, offset(0, 0, 0), false);
    let out = cell.add_point(near, offset(0, 0, 0), true).unwrap();
    assert_eq!(out.pos, far.pos);
    assert_eq!(cell.point_at(&offset(0, 0, 0)).unwrap().pos, near.pos);
    assert_eq!(cell.header().number_of_points, 1);
    assert_eq!(cell.header().total_number_of_points, 1);
}

#[test]
fn cell_add_point_farther_is_returned() {
    let mut cell = new_cell();
    let near = point(0.0, 0.0, 0.0, [2, 2, 2, 255]);
    let far = point(1.0, 1.0, 1.0, [1, 1, 1, 255]);
    cell.add_point(near, offset(0, 0, 0), false);
    let out = cell.add_point(far, offset(0, 0, 0), false).unwrap();
    assert_eq!(out.pos, far.pos);
    assert_eq!(cell.point_at(&offset(0, 0, 0)).unwrap().pos, near.pos);
    assert_eq!(cell.header().number_of_points, 1);
}

fn groups(entries: Vec<(CellIndex, usize)>) -> FxHashMap<CellIndex, Vec<Point>> {
    let mut m = FxHashMap::default();
    for (k, n) in entries {
        let ps: Vec<Point> = (0..n).map(|i| point(i as f32, 0.0, 0.0, [0, 0, 0, 255])).collect();
        m.insert(k, ps);
    }
    m
}

fn limit(l: u32) -> MetadataConfig {
    MetadataConfig { cell_point_overflow_limit: l, ..MetadataConfig::default() }
}

#[test]
fn overflow_new_child_within_limit_is_kept() {
    let mut cell = new_cell();
    let k = CellIndex { x: 0, y: 0, z: 0 };
    let rest = cell.add_points_in_overflow(groups(vec![(k, 3)]), &limit(3));
    assert!(rest.is_empty());
    assert_eq!(cell.header().number_of_overflow_points, 3);
    assert_eq!(cell.header().total_number_of_points, 3);
    assert_eq!(cell.overflow_points().len(), 3);
}

#[test]
fn overflow_new_child_over_limit_is_handed_on() {
    let mut cell = new_cell();
    let k = CellIndex { x: 0, y: 0, z: 0 };
    let rest = cell.add_points_in_overflow(groups(vec![(k, 4)]), &limit(3));
    assert_eq!(rest.get(&k).unwrap().len(), 4);
    assert_eq!(cell.header().number_of_overflow_points, 0);
    // The child is now closed: later points are handed on as well.
    let rest = cell.add_points_in_overflow(groups(vec![(k, 1)]), &limit(3));
    assert_eq!(rest.get(&k).unwrap().len(), 1);
    assert_eq!(cell.header().total_number_of_points, 0);
}

#[test]
fn overflow_existing_child_grows_then_overflows() {
    let mut cell = new_cell();
    let k = CellIndex { x: 1, y: 0, z: 0 };
    let other = CellIndex { x: 0, y: 1, z: 0 };
    cell.add_points_in_overflow(groups(vec![(k, 2), (other, 1)]), &limit(5));
    assert_eq!(cell.header().number_of_overflow_points, 3);
    let rest = cell.add_points_in_overflow(groups(vec![(k, 2)]), &limit(5));
    assert!(rest.is_empty());
    assert_eq!(cell.header().number_of_overflow_points, 5);
    // 4 + 1 reaches the limit: the child can still hold them.
    let rest = cell.add_points_in_overflow(groups(vec![(k, 1)]), &limit(5));
    assert!(rest.is_empty());
    assert_eq!(cell.header().number_of_overflow_points, 6);
    // One more exceeds it: all six points of the child are handed on.
    let rest = cell.add_points_in_overflow(groups(vec![(k, 1)]), &limit(5));
    assert_eq!(rest.get(&k).unwrap().len(), 6);
    assert_eq!(cell.header().number_of_overflow_points, 1);
    assert_eq!(cell.header().total_number_of_points, 1);
    assert_eq!(cell.overflow_points().len(), 1);
}

#[test]
fn overflow_fits_counts_only_kept_points() {
    let cell = new_cell();
    let k = CellIndex { x: 0, y: 0, z: 0 };
    assert!(cell.overflow_fits(&groups(vec![(k, 3)]), &limit(3)));
    assert!(cell.overflow_fits(&groups(vec![(k, 4)]), &limit(3)));
}

#[test]
fn overflow_points_are_kept_or_handed_on() {
    let mut cell = new_cell();
    let k = CellIndex { x: 2, y: 0, z: 0 };
    let other = CellIndex { x: 0, y: 0, z: 2 };
    cell.add_points_in_overflow(groups(vec![(k, 2)]), &limit(4));
    let rest = cell.add_points_in_overflow(groups(vec![(k, 3), (other, 1)]), &limit(4));
    // The two kept points of `k` and its three new ones are all handed on.
    assert_eq!(rest.get(&k).unwrap().len(), 5);
    assert!(rest.get(&other).is_none());
    assert_eq!(cell.overflow_points().len(), 1);
}

#[test]
fn add_point_loses_no_point() {
    let mut cell = new_cell();
    let a = point(1.0, 0.0, 0.0, [1, 0, 0, 255]);
    let b = point(2.0, 0.0, 0.0, [2, 0, 0, 255]);
    let c = point(3.0, 0.0, 0.0, [3, 0, 0, 255]);
    assert!(cell.add_point(a, offset(0, 0, 0), false).is_none());
    assert!(cell.add_point(b, offset(1, 0, 0), false).is_none());
    let out = cell.add_point(c, offset(0, 0, 0), true).unwrap();
    // The grid's points and the one returned are the old points and the new one.
    let mut xs: Vec<u32> = cell.points().iter().map(|p| p.pos[0]).collect();
    xs.push(out.pos[0]);
    xs.sort();
    let mut expected = vec![a.pos[0], b.pos[0], c.pos[0]];
    expected.sort();
    assert_eq!(xs, expected);
}

#[test]
fn overflow_accounts_for_every_point() {
    let mut cell = new_cell();
    let kept = CellIndex { x: 0, y: 0, z: 1 };
    let grows = CellIndex { x: 1, y: 1, z: 0 };
    let spills = CellIndex { x: 2, y: 2, z: 2 };
    cell.add_points_in_overflow(groups(vec![(grows, 2), (spills, 9)]), &limit(4));
    let before = cell.overflow_points().len();
    let rest = cell.add_points_in_overflow(groups(vec![(kept, 1), (grows, 3), (spills, 2)]), &limit(4));
    let handed: usize = rest.values().map(|v| v.len()).sum();
    // Kept afterwards plus handed on is kept before plus the six points given.
    assert_eq!(cell.overflow_points().len() + handed, before + 6);
    // The overflowed child stays closed and gets all its new points handed on,
    // the child that outgrew the limit is closed now, the new child keeps its one.
    assert_eq!(rest.get(&spills).unwrap().len(), 2);
    assert_eq!(rest.get(&grows).unwrap().len(), 5);
    assert!(rest.get(&kept).is_none());
    assert_eq!(cell.overflow_points().len(), 1);
    assert_eq!(cell.header().number_of_overflow_points, 1);
    assert!(cell.has_consistent_overflow_counts());
    assert!(cell.has_consistent_counts());
}

#[test]
fn group_points_by_index() {
    let a = CellIndex { x: 0, y: 0, z: 0 };
    let b = CellIndex { x: -1, y: 2, z: 0 };
    let ps = vec![
        point(1.0, 0.0, 0.0, [0; 4]),
        point(2.0, 0.0, 0.0, [0; 4]),
        point(3.0, 0.0, 0.0, [0; 4]),
    ];
    let g = group_points(ps, &vec![a, b, a]);
    assert_eq!(g.len(), 2);
    let ga = g.get(&a).unwrap();
    assert_eq!(ga.len(), 2);
    assert_eq!(f32::from_bits(ga[0].pos[0]), 1.0);
    assert_eq!(f32::from_bits(ga[1].pos[0]), 3.0);
    assert_eq!(g.get(&b).unwrap().len(), 1);
}

#[test]
fn merge_point_maps_appends() {
    let a = CellIndex { x: 0, y: 0, z: 0 };
    let b = CellIndex { x: 5, y: 0, z: 0 };
    let mut left = groups(vec![(a, 2)]);
    let right = groups(vec![(a, 3), (b, 1)]);
    merge_point_maps(&mut left, right);
    assert_eq!(left.get(&a).unwrap().len(), 5);
    assert_eq!(left.get(&b).unwrap().len(), 1);
}

#[test]
fn cell_write_then_read() {
    let mut cell = new_cell();
    let p0 = point(1.0, 2.0, 3.0, [1, 2, 3, 4]);
    let p1 = point(-1.0, 2.5, 0.0, [5, 6, 7, 8]);
    cell.add_point(p0, offset(0, 0, 0), false);
    cell.add_point(p1, offset(1, -1, 0), false);
    let k = CellIndex { x: 2, y: 3, z: -4 };
    let closed = CellIndex { x: 0, y: 0, z: 1 };
    cell.add_points_in_overflow(groups(vec![(k, 2), (closed, 9)]), &limit(5));

    let mut out = Vec::new();
    cell.write_to(&mut out);
    let mut reader = ByteReader::new(out);
    let record = read_cell_record(&mut reader).unwrap();
    assert_eq!(reader.remaining(), 0);
    assert_eq!(record.header.number_of_points, 2);
    assert_eq!(record.header.number_of_overflow_points, 2);
    assert_eq!(record.points.len(), 2);
    assert_eq!(record.overflow.len(), 2);
    for (key, points) in &record.overflow {
        if *key == k {
            assert_eq!(points.as_ref().unwrap().len(), 2);
        } else {
            assert_eq!(*key, closed);
            assert!(points.is_none());
        }
    }
    let indices: Vec<OffsetIndex> = record
        .points
        .iter()
        .map(|p| if p.pos == p0.pos { offset(0, 0, 0) } else { offset(1, -1, 0) })
        .collect();
    let back = Cell::from_record(record, &indices);
    assert_eq!(back.number_of_grid_points(), 2);
    assert_eq!(back.point_at(&offset(1, -1, 0)).unwrap().color, [5, 6, 7, 8]);
    assert_eq!(back.overflow_points().len(), 2);
    assert_eq!(back.all_points().len(), 4);
}

#[test]
fn cell_read_fails_on_truncated_file() {
    let mut cell = new_cell();
    cell.add_point(point(1.0, 2.0, 3.0, [1, 2, 3, 4]), offset(0, 0, 0), false);
    let mut out = Vec::new();
    cell.write_to(&mut out);
    out.pop();
    let mut reader = ByteReader::new(out);
    assert!(matches!(read_cell_record(&mut reader), Err(ReadError::UnexpectedEof)));
}

// ---------------------------------------------------------------- naming

#[test]
fn naming_hierarchy_and_cell_paths() {
    assert_eq!(hierarchy_string(0), "h_0");
    assert_eq!(hierarchy_string(1234), "h_1234");
    let id = cell_id(3, 1, -20, 0);
    assert_eq!(id.index_string(), "c_1_-20_0");
    let (dir, file) = id.path();
    assert_eq!(dir, "h_3");
    assert_eq!(file, "c_1_-20_0.bin");
    assert_eq!(cell_id(0, i32::MIN, i32::MAX, -1).index_string(), "c_-2147483648_2147483647_-1");
}

#[test]
fn distinct_cells_get_distinct_paths() {
    let ids = vec![
        cell_id(0, 1, 12, 0),
        cell_id(0, 11, 2, 0),
        cell_id(0, 1, -2, 0),
        cell_id(0, -1, 2, 0),
        cell_id(1, 1, 12, 0),
        cell_id(11, 1, 12, 0),
    ];
    for (i, a) in ids.iter().enumerate() {
        for (j, b) in ids.iter().enumerate() {
            assert_eq!(a.path() == b.path(), i == j);
        }
    }
}

// ---------------------------------------------------------------- source

#[test]
fn source_error_messages() {
    assert_eq!(SourceError::NotFound("x".to_string()).message(), "x");
    assert_eq!(SourceError::NoSource.message(), "no source provided");
    let other = SourceError::Other { message: "boom".to_string(), name: "other".to_string() };
    assert_eq!(other.message(), "boom");
}

fn reply(status: u16) -> HttpResponse {
    HttpResponse { status, status_text: format!("status {}", status), bytes: vec![1, 2, 3] }
}

#[test]
fn response_success_gives_body() {
    let r = handle_response_from_url("http://h/c".to_string(), Ok(reply(200)));
    assert_eq!(r.unwrap(), vec![1, 2, 3]);
    let r = handle_response_from_url("http://h/c".to_string(), Ok(reply(299)));
    assert!(r.is_ok());
}

#[test]
fn response_404_is_not_found_with_url() {
    match handle_response_from_url("http://h/c".to_string(), Ok(reply(404))) {
        Err(SourceError::NotFound(url)) => assert_eq!(url, "http://h/c"),
        other => panic!("unexpected {:?}", other),
    }
}

#[test]
fn response_other_status_is_other() {
    match handle_response_from_url("u".to_string(), Ok(reply(500))) {
        Err(SourceError::Other { message, name }) => {
            assert_eq!(message, "status 500");
            assert_eq!(name, "Unsupported HTTP Status");
        },
        other => panic!("unexpected {:?}", other),
    }
    assert!(matches!(
        handle_response_from_url("u".to_string(), Ok(reply(300))),
        Err(SourceError::Other { .. })
    ));
    assert!(matches!(
        handle_response_from_url("u".to_string(), Ok(reply(199))),
        Err(SourceError::Other { .. })
    ));
}

#[test]
fn response_failed_request_is_other() {
    match handle_response_from_url("u".to_string(), Err("timeout".to_string())) {
        Err(SourceError::Other { message, name }) => {
            assert_eq!(message, "timeout");
            assert_eq!(name, "Request failed");
        },
        other => panic!("unexpected {:?}", other),
    }
}

// ---------------------------------------------------------------- render

#[test]
fn vertex_buffer_len() {
    let v = VertexBuffer::from_buffer("handle", 7);
    assert_eq!(v.len(), 7);
    assert_eq!(v.buffer, "handle");
    let w = VertexBuffer::from_buffer((), (u32::MAX as usize) + 3);
    assert_eq!(w.len(), 2);
}

#[test]
fn distance_bucket_is_floor_log2() {
    assert_eq!(distance_bucket(0), 0);
    assert_eq!(distance_bucket(1), 0);
    assert_eq!(distance_bucket(2), 1);
    assert_eq!(distance_bucket(3), 1);
    assert_eq!(distance_bucket(4), 2);
    assert_eq!(distance_bucket(1023), 9);
    assert_eq!(distance_bucket(1024), 10);
    assert_eq!(distance_bucket(u32::MAX), 31);
}

#[test]
fn distance_groups_sort_and_cut_by_bucket() {
    let distances = vec![9, 0, 3, 1, 8, 100, 2];
    let groups = distance_groups(&distances);
    // buckets: 0 -> {0, 1}, 1 -> {2, 3}, 3 -> {8, 9}, 6 -> {100}
    assert_eq!(groups, vec![vec![1, 3], vec![6, 2], vec![4, 0], vec![5]]);
    assert!(distance_groups(&vec![]).is_empty());
}

#[test]
fn ply_property_names_select_fields() {
    assert_eq!(point_field(b"x"), Some(PointField::Position(0)));
    assert_eq!(point_field(b"y"), Some(PointField::Position(1)));
    assert_eq!(point_field(b"z"), Some(PointField::Position(2)));
    assert_eq!(point_field(b"red"), Some(PointField::Color(0)));
    assert_eq!(point_field(b"r"), Some(PointField::Color(0)));
    assert_eq!(point_field(b"green"), Some(PointField::Color(1)));
    assert_eq!(point_field(b"g"), Some(PointField::Color(1)));
    assert_eq!(point_field(b"blue"), Some(PointField::Color(2)));
    assert_eq!(point_field(b"b"), Some(PointField::Color(2)));
    assert_eq!(point_field(b"alpha"), Some(PointField::Color(3)));
    assert_eq!(point_field(b"a"), Some(PointField::Color(3)));
    assert_eq!(point_field(b"nx"), None);
    assert_eq!(point_field(b"reds"), None);
    assert_eq!(point_field(b""), None);
}
