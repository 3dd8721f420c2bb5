use temporal_lens_server::common::{reconstruct_zones, FrameData, LitePlotData, LiteZoneData, ReconstructedPlotData};
use temporal_lens_server::memdb::{ShouldStopQuery, TimeData};
use temporal_lens_server::server_info::{port_validator, version_string, TEMPORAL_LENS_VERSION};
use temporal_lens_server::string_collection::{Key, StringCollection, POOL_SIZE};

#[test]
fn strings_are_write_once() {
    let mut s = StringCollection::new();
    s.insert(Key::StaticString(1), "first");
    s.insert(Key::StaticString(1), "second");
    s.insert(Key::ThreadName(1), "thread");
    assert_eq!(s.get(Key::StaticString(1)), Some("first"));
    assert_eq!(s.get(Key::ThreadName(1)), Some("thread"));
    assert_eq!(s.get(Key::StaticString(2)), None);
    assert_eq!(s.index(Key::StaticString(2)), "????");
    assert_eq!(s.index(Key::StaticString(1)), "first");
}

#[test]
fn over_long_string_is_refused() {
    let mut s = StringCollection::new();
    let long = "x".repeat(POOL_SIZE);
    s.insert(Key::StaticString(3), &long);
    assert_eq!(s.get(Key::StaticString(3)), None);
    let fits = "y".repeat(POOL_SIZE - 1);
    s.insert(Key::StaticString(3), &fits);
    assert_eq!(s.get(Key::StaticString(3)).map(|v| v.len()), Some(POOL_SIZE - 1));
}

#[test]
fn version_strings() {
    assert_eq!(version_string(TEMPORAL_LENS_VERSION), "0.1.0");
    assert_eq!(version_string(0x0203_0405), "2.3.1029");
    assert_eq!(version_string(0xFF00_FFFF), "255.0.65535");
}

#[test]
fn port_numbers() {
    assert_eq!(port_validator("61234".to_string()), Ok(()));
    assert_eq!(port_validator("+80".to_string()), Ok(()));
    assert_eq!(port_validator("65535".to_string()), Ok(()));
    assert_eq!(port_validator("65536".to_string()), Err("Not a valid port number".to_string()));
    assert_eq!(port_validator("".to_string()), Err("Not a valid port number".to_string()));
    assert_eq!(port_validator("-1".to_string()), Err("Not a valid port number".to_string()));
    assert_eq!(port_validator("8o".to_string()), Err("Not a valid port number".to_string()));
}

#[test]
fn zone_and_plot_reconstruction() {
    let z = LiteZoneData { uid: 4, color: [9, 8, 7, 6], duration: 11, depth: 2, name: 5, thread: 6 };
    let r = z.reconstruct(100, 77);
    assert_eq!(r.entry_id, 77);
    assert_eq!(r.zone_uid, 4);
    assert_eq!(r.end, 100);
    assert_eq!(r.duration, 11);
    assert_eq!(r.depth, 2);
    assert_eq!((r.name, r.thread), (5, 6));
    assert_eq!(r.color, [9, 8, 7, 6]);
    let p = LitePlotData { color: 3, value_bits: 0.25f64.to_bits(), name: 8 };
    assert_eq!(
        p.reconstruct(42),
        ReconstructedPlotData { time: 42, color: 3, value_bits: 0.25f64.to_bits(), name: 8 }
    );
}

#[test]
fn stop_rules() {
    let top = LiteZoneData { uid: 0, color: [0; 4], duration: 5, depth: 0, name: 0, thread: 0 };
    let nested = LiteZoneData { depth: 1, ..top };
    assert!(!top.should_stop_query(14, 9));
    assert!(top.should_stop_query(15, 9));
    assert!(!nested.should_stop_query(100, 9));
    let p = LitePlotData { color: 0, value_bits: 0, name: 0 };
    assert!(!p.should_stop_query(9, 9));
    assert!(p.should_stop_query(10, 9));
    let f = FrameData { end: 0 };
    assert!(f.should_stop_query(10, 9));
    assert!(!f.should_stop_query(9, 9));
}

#[test]
fn zone_rows_reconstructed_in_order() {
    let z = LiteZoneData { uid: 1, color: [0; 4], duration: 3, depth: 0, name: 2, thread: 3 };
    let rows = vec![(5u64, TimeData { time: 10, data: z }), (6u64, TimeData { time: 12, data: LiteZoneData { uid: 9, ..z } })];
    let r = reconstruct_zones(&rows);
    assert_eq!(r.len(), 2);
    assert_eq!((r[0].entry_id, r[0].end, r[0].zone_uid), (5, 10, 1));
    assert_eq!((r[1].entry_id, r[1].end, r[1].zone_uid), (6, 12, 9));
}
