use temporal_lens_server::common::{FrameData, LitePlotData, LiteZoneData};
use temporal_lens_server::memdb::{binary_search, MemDB, Time, TimeData, SWAP_THRESHOLD};

const SEC: Time = 1_000_000_000;

fn zone(duration: u64, depth: u32) -> LiteZoneData {
    LiteZoneData { uid: 0, color: [0, 0, 0, 255], duration, depth, name: 1, thread: 2 }
}

fn frame_db_with(times: &[Time]) -> MemDB<FrameData> {
    let mut db = MemDB::new();
    for &t in times {
        db.push(TimeData { time: t, data: FrameData { end: t } }, 0);
    }
    db
}

fn times_of<T: Copy>(rows: &[(u64, TimeData<T>)]) -> Vec<Time> {
    rows.iter().map(|r| r.1.time).collect()
}

#[test]
fn sealing_one_full_chunk() {
    let times: Vec<Time> = (1..=SWAP_THRESHOLD as i64).map(|i| i * SEC).collect();
    let db = frame_db_with(&times);
    assert_eq!(db.chunk_count(), 1);
    assert_eq!(db.chunk_bounds(0), Some((SEC, 32768 * SEC)));
    assert_eq!(db.current_len(), 0);
    assert_eq!(db.get_stats(), (2, 2));
    assert_eq!(db.get_max_time(), 32768 * SEC);
}

#[test]
fn range_query_on_zones() {
    let mut db = MemDB::new();
    for i in 0..100i64 {
        db.push(TimeData { time: i * SEC, data: zone(0, 0) }, 0);
    }
    let rows = db.query(10 * SEC, Some(20 * SEC));
    let expected: Vec<Time> = (10..=20i64).map(|i| i * SEC).collect();
    assert_eq!(times_of(&rows), expected);
    assert_eq!(rows.len(), 11);
}

#[test]
fn relative_min_counts_back_from_latest() {
    let mut db = MemDB::new();
    for i in 0..100i64 {
        db.push(TimeData { time: i * SEC, data: zone(0, 0) }, 0);
    }
    // -5 s past the latest time, 99 s, is 94 s.
    let rows = db.query(-5 * SEC, None);
    let expected: Vec<Time> = (94..=99i64).map(|i| i * SEC).collect();
    assert_eq!(times_of(&rows), expected);
}

#[test]
fn zone_terminator_keeps_running_spans() {
    let mut db = MemDB::new();
    db.push(TimeData { time: 10 * SEC, data: zone(5 * SEC as u64, 0) }, 0);
    db.push(TimeData { time: 11 * SEC, data: zone(0, 0) }, 0);
    let rows = db.query(0, Some(9 * SEC));
    assert_eq!(times_of(&rows), vec![10 * SEC]);
    assert_eq!(rows[0].0, 0);
}

#[test]
fn nested_zone_past_window_does_not_stop_scan() {
    let mut db = MemDB::new();
    db.push(TimeData { time: 10 * SEC, data: zone(0, 1) }, 0);
    db.push(TimeData { time: 11 * SEC, data: zone(0, 0) }, 0);
    db.push(TimeData { time: 12 * SEC, data: zone(0, 1) }, 0);
    let rows = db.query(0, Some(9 * SEC));
    assert_eq!(times_of(&rows), vec![10 * SEC]);
}

#[test]
fn plot_query_stops_past_max() {
    let mut db = MemDB::new();
    for i in 0..10i64 {
        db.push(TimeData { time: i, data: LitePlotData { color: 1, value_bits: 0, name: 3 } }, 0);
    }
    let rows = db.query(3, Some(5));
    assert_eq!(times_of(&rows), vec![3, 4, 5]);
}

#[test]
fn entry_ids_name_chunk_and_offset() {
    let n = SWAP_THRESHOLD as i64 + 3;
    let times: Vec<Time> = (0..n).collect();
    let db = frame_db_with(&times);
    let rows = db.query(SWAP_THRESHOLD as i64 - 1, Some(SWAP_THRESHOLD as i64 + 1));
    assert_eq!(rows.len(), 3);
    assert_eq!(rows[0].0, (SWAP_THRESHOLD - 1) as u64);
    assert_eq!(rows[1].0, 1u64 << 32);
    assert_eq!(rows[2].0, (1u64 << 32) | 1);
}

#[test]
fn query_everything_returns_pushed_sequence() {
    let n = SWAP_THRESHOLD as i64 * 2 + 10;
    let times: Vec<Time> = (0..n).map(|i| i / 3).collect();
    let db = frame_db_with(&times);
    let rows = db.query(i64::MIN, Some(i64::MAX));
    assert_eq!(times_of(&rows), times);
}

#[test]
fn stale_push_is_dropped() {
    let mut db = frame_db_with(&[5, 7]);
    db.push(TimeData { time: 6, data: FrameData { end: 6 } }, 0);
    assert_eq!(db.get_max_time(), 7);
    assert_eq!(times_of(&db.query(i64::MIN, Some(i64::MAX))), vec![5, 7]);
    db.push(TimeData { time: 7, data: FrameData { end: 7 } }, 0);
    assert_eq!(times_of(&db.query(i64::MIN, Some(i64::MAX))), vec![5, 7, 7]);
}

#[test]
fn negative_first_time_is_kept() {
    let db = frame_db_with(&[-1, 0]);
    assert_eq!(times_of(&db.query(i64::MIN, Some(i64::MAX))), vec![-1, 0]);
    let db = frame_db_with(&[-1, -2, -1]);
    assert_eq!(times_of(&db.query(i64::MIN, Some(i64::MAX))), vec![-1, -1]);
    assert_eq!(db.get_max_time(), -1);
}

#[test]
fn relative_min_saturates() {
    let db = frame_db_with(&[-10, -5]);
    assert_eq!(times_of(&db.query(i64::MIN + 1, None)), vec![-10, -5]);
    assert_eq!(times_of(&db.query(-3, None)), vec![-5]);
    assert_eq!(times_of(&db.query(-6, Some(-6))), vec![-10]);
}

#[test]
fn spill_round_trip() {
    let times: Vec<Time> = (0..SWAP_THRESHOLD as i64 + 2).collect();
    let mut db = frame_db_with(&times);
    assert_eq!(db.unload_old_chunks(59), Vec::<usize>::new());
    let evict = db.unload_old_chunks(60);
    assert_eq!(evict, vec![0]);
    let saved: Vec<TimeData<FrameData>> = db.chunk_data(0).unwrap().clone();
    assert!(db.mark_unloaded(0));
    assert!(db.chunk_data(0).is_none());
    assert_eq!(db.get_stats(), (1, 2));
    // Spilled chunks are skipped until they are loaded back.
    assert_eq!(db.query(i64::MIN, Some(i64::MAX)).len(), 2);
    let missing = db.prepare_query(i64::MIN, Some(i64::MAX), 100);
    assert_eq!(missing, vec![0]);
    assert!(db.reload_chunk(0, saved));
    assert_eq!(db.get_stats(), (2, 2));
    assert!(db.chunk_data(0).is_some());
    assert_eq!(times_of(&db.query(i64::MIN, Some(i64::MAX))), times);
    // The query touched the chunk: it is not idle any more.
    assert_eq!(db.unload_old_chunks(120), Vec::<usize>::new());
    assert_eq!(db.unload_old_chunks(160), vec![0]);
}

#[test]
fn reload_refuses_foreign_data() {
    let times: Vec<Time> = (0..SWAP_THRESHOLD as i64).collect();
    let mut db = frame_db_with(&times);
    assert!(!db.reload_chunk(0, vec![TimeData { time: 0, data: FrameData { end: 0 } }]));
    assert!(db.mark_unloaded(0));
    assert!(!db.mark_unloaded(0));
    assert!(!db.reload_chunk(0, vec![TimeData { time: 0, data: FrameData { end: 0 } }]));
    assert!(!db.reload_chunk(1, Vec::new()));
    let unsorted = vec![
        TimeData { time: 0, data: FrameData { end: 0 } },
        TimeData { time: 40000, data: FrameData { end: 40000 } },
        TimeData { time: SWAP_THRESHOLD as i64 - 1, data: FrameData { end: 0 } },
    ];
    assert!(!db.reload_chunk(0, unsorted));
    assert_eq!(db.get_stats(), (1, 2));
}

#[test]
fn prepare_query_touches_only_window() {
    let times: Vec<Time> = (0..SWAP_THRESHOLD as i64 * 3).collect();
    let mut db = frame_db_with(&times);
    let t = SWAP_THRESHOLD as i64;
    assert_eq!(db.prepare_query(t + 5, Some(t + 10), 50), Vec::<usize>::new());
    let mut evict = db.unload_old_chunks(60);
    evict.sort();
    assert_eq!(evict, vec![0, 2]);
    assert!(db.mark_unloaded(0));
    assert!(db.mark_unloaded(2));
    let mut missing = db.prepare_query(0, None, 70);
    missing.sort();
    assert_eq!(missing, vec![0, 2]);
}

#[test]
fn query_previous_finds_predecessor() {
    let times: Vec<Time> = (0..SWAP_THRESHOLD as i64 + 10).map(|i| i * 2).collect();
    let db = frame_db_with(&times);
    assert_eq!(db.query_previous(0), None);
    assert_eq!(db.query_previous(1).map(|e| e.time), Some(0));
    assert_eq!(db.query_previous(7).map(|e| e.time), Some(6));
    assert_eq!(db.query_previous(8).map(|e| e.time), Some(6));
    let edge = 2 * SWAP_THRESHOLD as i64;
    assert_eq!(db.query_previous(edge).map(|e| e.time), Some(edge - 2));
    assert_eq!(db.query_previous(edge + 1).map(|e| e.time), Some(edge));
    assert_eq!(db.query_previous(i64::MAX).map(|e| e.time), times.last().copied());
}

#[test]
fn query_count_centers_window() {
    let times: Vec<Time> = (0..100).collect();
    let db = frame_db_with(&times);
    let r: Vec<Time> = db.query_count(50, 10).iter().map(|e| e.time).collect();
    assert_eq!(r, (45..55).collect::<Vec<Time>>());
    let r: Vec<Time> = db.query_count(2, 10).iter().map(|e| e.time).collect();
    assert_eq!(r, (0..10).collect::<Vec<Time>>());
    let r: Vec<Time> = db.query_count(98, 10).iter().map(|e| e.time).collect();
    assert_eq!(r, (90..100).collect::<Vec<Time>>());
    let r: Vec<Time> = db.query_count(50, 1000).iter().map(|e| e.time).collect();
    assert_eq!(r, times);
    assert_eq!(db.query_count(50, 0).len(), 0);
    let r: Vec<Time> = db.query_count(50, 3).iter().map(|e| e.time).collect();
    assert_eq!(r, vec![49, 50, 51]);
}

#[test]
fn query_count_across_chunks() {
    let n = SWAP_THRESHOLD as i64 + 100;
    let times: Vec<Time> = (0..n).collect();
    let db = frame_db_with(&times);
    let t = SWAP_THRESHOLD as i64;
    let r: Vec<Time> = db.query_count(t, 6).iter().map(|e| e.time).collect();
    assert_eq!(r, vec![t - 3, t - 2, t - 1, t, t + 1, t + 2]);
}

#[test]
fn binary_search_finds_boundary() {
    let data: Vec<TimeData<u8>> = [1, 3, 3, 5, 8].iter().map(|&t| TimeData { time: t, data: 0 }).collect();
    assert_eq!(binary_search(&data, 2), 1);
    assert_eq!(binary_search(&data, 3), 1);
    assert_eq!(binary_search(&data, 4), 3);
    assert_eq!(binary_search(&data, 8), 4);
}

#[test]
fn prepare_previous_names_spilled_chunk() {
    let n = SWAP_THRESHOLD as i64 * 2;
    let times: Vec<Time> = (0..n).collect();
    let mut db = frame_db_with(&times);
    let saved: Vec<TimeData<FrameData>> = db.chunk_data(0).unwrap().clone();
    assert!(db.mark_unloaded(0));
    let t = SWAP_THRESHOLD as i64;
    // The predecessor of `t` lies in the spilled chunk 0.
    assert_eq!(db.query_previous(t).map(|e| e.time), None);
    assert_eq!(db.prepare_previous(t, 5), vec![0]);
    assert!(db.reload_chunk(0, saved));
    assert_eq!(db.query_previous(t).map(|e| e.time), Some(t - 1));
    assert_eq!(db.prepare_previous(t, 5), Vec::<usize>::new());
    assert_eq!(db.prepare_previous(0, 5), Vec::<usize>::new());
}

#[test]
fn prepare_count_names_spilled_neighbours() {
    let n = SWAP_THRESHOLD as i64 * 4;
    let times: Vec<Time> = (0..n).collect();
    let mut db = frame_db_with(&times);
    let saved: Vec<TimeData<FrameData>> = db.chunk_data(0).unwrap().clone();
    assert!(db.mark_unloaded(0));
    assert!(db.mark_unloaded(3));
    let t = SWAP_THRESHOLD as i64;
    // With chunk 0 spilled, memory holds nothing older than `t`.
    let r: Vec<Time> = db.query_count(t, 4).iter().map(|e| e.time).collect();
    assert_eq!(r, vec![t, t + 1, t + 2, t + 3]);
    let mut missing = db.prepare_count(t, 4, 5);
    missing.sort();
    assert_eq!(missing, vec![0]);
    assert!(db.reload_chunk(0, saved));
    let r: Vec<Time> = db.query_count(t, 4).iter().map(|e| e.time).collect();
    assert_eq!(r, vec![t - 2, t - 1, t, t + 1]);
    let mut wide = db.prepare_count(t, 2 * SWAP_THRESHOLD, 5);
    wide.sort();
    assert_eq!(wide, vec![3]);
}
