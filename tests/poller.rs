use temporal_lens_server::common::{FrameData, InlineString, PlotData, ZoneData};
use temporal_lens_server::memdb::MemDB;
use temporal_lens_server::shmem_poller::{stop, update_keep_alive, Backoff, KeepAlive, Poller};
use temporal_lens_server::stoppable_thread::StoppableThread;
use temporal_lens_server::string_collection::{Key, StringCollection};

fn inline(key: usize, contents: Option<&str>) -> InlineString<'_> {
    InlineString { key, contents }
}

fn zone_record<'a>(end: i64, name: InlineString<'a>, thread: InlineString<'a>) -> ZoneData<'a> {
    ZoneData { uid: 7, color: [1, 2, 3, 4], end, duration: 0, depth: 0, name, thread }
}

#[test]
fn string_intern_first_payload_wins() {
    let mut poller = Poller::new();
    let mut strings = StringCollection::new();
    let mut zone_db = MemDB::new();
    let zones = vec![
        zone_record(1, inline(42, Some("hot")), inline(1, Some("main"))),
        zone_record(2, inline(42, None), inline(1, None)),
    ];
    poller.ingest_zones(&zones, &mut strings, &mut zone_db, 0);
    assert_eq!(strings.get(Key::StaticString(42)), Some("hot"));
    assert_eq!(strings.get(Key::ThreadName(1)), Some("main"));
    assert_eq!(strings.get(Key::ThreadName(42)), None);
    let rows = zone_db.query(i64::MIN, Some(i64::MAX));
    assert_eq!(rows.len(), 2);
    assert_eq!(rows[0].1.data.name, 42);
    assert_eq!(rows[1].1.data.thread, 1);
    assert_eq!(rows[0].1.data.uid, 7);
    let later = vec![zone_record(3, inline(42, Some("cold")), inline(1, None))];
    poller.ingest_zones(&later, &mut strings, &mut zone_db, 0);
    assert_eq!(strings.get(Key::StaticString(42)), Some("hot"));
}

#[test]
fn zone_end_is_held_back_to_previous_end() {
    let mut poller = Poller::new();
    let mut strings = StringCollection::new();
    let mut zone_db = MemDB::new();
    let zones = vec![
        zone_record(10, inline(1, None), inline(2, None)),
        zone_record(8, inline(1, None), inline(2, None)),
        zone_record(9, inline(1, None), inline(2, None)),
    ];
    poller.ingest_zones(&zones, &mut strings, &mut zone_db, 0);
    let times: Vec<i64> = zone_db.query(i64::MIN, Some(i64::MAX)).iter().map(|r| r.1.time).collect();
    // The second is held back to 10; the third, held back only to 8, is
    // older than the latest time and dropped.
    assert_eq!(times, vec![10, 10]);
    assert_eq!(poller.last_time, 9);
}

#[test]
fn frames_and_plots_are_keyed_by_their_time() {
    let poller = Poller::new();
    let mut strings = StringCollection::new();
    let mut frame_db = MemDB::new();
    let mut plot_db = MemDB::new();
    poller.ingest_frames(&vec![FrameData { end: 3 }, FrameData { end: 5 }], &mut frame_db, 0);
    let plots = vec![
        PlotData { time: 4, color: 9, value_bits: 1.5f64.to_bits(), name: inline(5, Some("fps")) },
        PlotData { time: 6, color: 9, value_bits: 2.5f64.to_bits(), name: inline(5, None) },
    ];
    poller.ingest_plots(&plots, &mut strings, &mut plot_db, 0);
    let f: Vec<i64> = frame_db.query(i64::MIN, Some(i64::MAX)).iter().map(|r| r.1.time).collect();
    assert_eq!(f, vec![3, 5]);
    let p = plot_db.query(i64::MIN, Some(i64::MAX));
    assert_eq!(p.len(), 2);
    assert_eq!(p[1].1.time, 6);
    assert_eq!(f64::from_bits(p[1].1.data.value_bits), 2.5);
    assert_eq!(strings.get(Key::StaticString(5)), Some("fps"));
}

#[test]
fn keep_alive_expires_after_thirty_seconds() {
    let mut keep_alive = KeepAlive::new();
    assert!(!keep_alive.expired(29));
    assert!(keep_alive.expired(30));
    update_keep_alive(&mut keep_alive, 20);
    assert!(!keep_alive.expired(49));
    assert!(keep_alive.expired(50));
    assert!(!keep_alive.expired(10));
}

#[test]
fn backoff_sleeps_when_idle_and_yields_when_busy() {
    let mut poller = Poller::new();
    assert_eq!(poller.backoff(0), Backoff::Sleep);
    assert_eq!(poller.backoff(3), Backoff::Continue);
    assert_eq!(poller.backoff(3), Backoff::Continue);
    assert_eq!(poller.backoff(3), Backoff::Continue);
    assert_eq!(poller.backoff(3), Backoff::Yield);
    assert_eq!(poller.counter, 0);
    assert_eq!(poller.backoff(1), Backoff::Continue);
    assert_eq!(poller.backoff(0), Backoff::Sleep);
    assert_eq!(poller.counter, 0);
}

#[test]
fn stoppable_thread_starts_and_stops_once() {
    let mut t = StoppableThread::new("shmem_poller");
    assert!(!t.running());
    assert!(!stop(&mut t));
    assert!(t.start());
    assert!(t.running());
    assert!(!t.start());
    assert!(stop(&mut t));
    assert!(!t.running());
    assert!(!t.stop());
    assert_eq!(t.name(), "shmem_poller");
}

#[test]
fn over_long_payload_leaves_key_unbound() {
    let mut poller = Poller::new();
    let mut strings = StringCollection::new();
    let mut zone_db = MemDB::new();
    let long = "z".repeat(8192);
    let zones = vec![
        zone_record(1, inline(9, Some(&long)), inline(1, None)),
        zone_record(2, inline(9, Some("short")), inline(1, None)),
    ];
    poller.ingest_zones(&zones, &mut strings, &mut zone_db, 0);
    assert_eq!(strings.get(Key::StaticString(9)), Some("short"));
}
