//! The records that the store keeps for each stream, as they arrive from the
//! producer and as they are handed back to readers.
use vstd::prelude::*;
use crate::memdb::{ShouldStopQuery, Time, TimeData};

verus! {

/// An RGBA color.
pub type Color = [u8; 4];

/// A span length, in nanoseconds.
pub type Duration = u64;

/// A producer-level frame boundary, keyed by its end.
#[derive(Debug, Clone, Copy, PartialEq, Eq)]
pub struct FrameData {
    pub end: Time,
}

/// A zone as the store keeps it: its strings replaced by their keys in the
/// string pool. Its time key is its end.
#[derive(Debug, Clone, Copy, PartialEq, Eq)]
pub struct LiteZoneData {
    pub uid: usize,
    pub color: Color,
    pub duration: Duration,
    pub depth: u32,
    pub name: usize,
    pub thread: usize,
}

/// A plot sample as the store keeps it. `value_bits` holds the bit pattern
/// of the sample's IEEE-754 double value.
#[derive(Debug, Clone, Copy, PartialEq, Eq)]
pub struct LitePlotData {
    pub color: u32,
    pub value_bits: u64,
    pub name: usize,
}

/// A zone as handed to readers, with its identifier and end time.
#[derive(Debug, Clone, Copy, PartialEq, Eq)]
pub struct ReconstructedZoneData {
    pub entry_id: u64,
    pub zone_uid: usize,
    pub color: Color,
    pub end: Time,
    pub duration: Duration,
    pub depth: u32,
    pub name: usize,
    pub thread: usize,
}

/// A plot sample as handed to readers, with its time.
#[derive(Debug, Clone, Copy, PartialEq, Eq)]
pub struct ReconstructedPlotData {
    pub time: Time,
    pub color: u32,
    pub value_bits: u64,
    pub name: usize,
}

/// A string field of a producer record: the key of the string, and its
/// contents the first time the producer sends that key.
#[derive(Debug, Clone, Copy, PartialEq, Eq)]
pub struct InlineString<'a> {
    pub key: usize,
    pub contents: Option<&'a str>,
}

impl<'a> InlineString<'a> {
    pub fn get_key(&self) -> (r: usize)
        ensures
            r == self.key,
    {
        self.key
    }

    /// The contents, when this record carries them.
    pub fn make_str(&self) -> (r: Option<&'a str>)
        ensures
            r == self.contents,
    {
        self.contents
    }
}

/// A zone as the producer sends it.
#[derive(Debug, Clone, Copy, PartialEq, Eq)]
pub struct ZoneData<'a> {
    pub uid: usize,
    pub color: Color,
    pub end: Time,
    pub duration: Duration,
    pub depth: u32,
    pub name: InlineString<'a>,
    pub thread: InlineString<'a>,
}

/// A plot sample as the producer sends it.
#[derive(Debug, Clone, Copy, PartialEq, Eq)]
pub struct PlotData<'a> {
    pub time: Time,
    pub color: u32,
    pub value_bits: u64,
    pub name: InlineString<'a>,
}

impl LiteZoneData {
    /// The zone with the end time and identifier under which it was stored.
    pub fn reconstruct(&self, end: Time, entry_id: u64) -> (r: ReconstructedZoneData)
        ensures
            r == (ReconstructedZoneData {
                entry_id,
                zone_uid: self.uid,
                color: self.color,
                end,
                duration: self.duration,
                depth: self.depth,
                name: self.name,
                thread: self.thread,
            }),
    {
        ReconstructedZoneData {
            entry_id,
            zone_uid: self.uid,
            color: self.color,
            end,
            duration: self.duration,
            depth: self.depth,
            name: self.name,
            thread: self.thread,
        }
    }
}

impl LitePlotData {
    /// The sample with the time under which it was stored.
    pub fn reconstruct(&self, time: Time) -> (r: ReconstructedPlotData)
        ensures
            r == (ReconstructedPlotData {
                time,
                color: self.color,
                value_bits: self.value_bits,
                name: self.name,
            }),
    {
        ReconstructedPlotData { time, color: self.color, value_bits: self.value_bits, name: self.name }
    }
}

/// A frame stops a scan once it ends past the window.
impl ShouldStopQuery for FrameData {
    open spec fn stops(&self, t: Time, query_max: Time) -> bool {
        t > query_max
    }

    proof fn lemma_no_stop_in_window(&self, t: Time, query_max: Time) {
    }

    fn should_stop_query(&self, t: Time, query_max: Time) -> (r: bool) {
        t > query_max
    }
}

/// A top-level zone stops a scan once it starts past the window: nothing
/// after it can still be running inside the window.
impl ShouldStopQuery for LiteZoneData {
    open spec fn stops(&self, t: Time, query_max: Time) -> bool {
        self.depth == 0 && t - self.duration > query_max
    }

    proof fn lemma_no_stop_in_window(&self, t: Time, query_max: Time) {
    }

    fn should_stop_query(&self, t: Time, query_max: Time) -> (r: bool) {
        self.depth == 0 && (t as i128) - (self.duration as i128) > query_max as i128
    }
}

/// A plot sample stops a scan once it lies past the window.
impl ShouldStopQuery for LitePlotData {
    open spec fn stops(&self, t: Time, query_max: Time) -> bool {
        t > query_max
    }

    proof fn lemma_no_stop_in_window(&self, t: Time, query_max: Time) {
    }

    fn should_stop_query(&self, t: Time, query_max: Time) -> (r: bool) {
        t > query_max
    }
}

/// The zone of a query row, with the row's identifier and time.
pub open spec fn reconstructed_zone(row: (u64, TimeData<LiteZoneData>)) -> ReconstructedZoneData {
    ReconstructedZoneData {
        entry_id: row.0,
        zone_uid: row.1.data.uid,
        color: row.1.data.color,
        end: row.1.time,
        duration: row.1.data.duration,
        depth: row.1.data.depth,
        name: row.1.data.name,
        thread: row.1.data.thread,
    }
}

/// The zones of the rows of a zone query, in order, as handed to readers.
pub fn reconstruct_zones(rows: &Vec<(u64, TimeData<LiteZoneData>)>) -> (r: Vec<ReconstructedZoneData>)
    ensures
        r@ == rows@.map_values(|row: (u64, TimeData<LiteZoneData>)| reconstructed_zone(row)),
{
    let mut r: Vec<ReconstructedZoneData> = Vec::new();
    let mut i: usize = 0;
    while i < rows.len()
        invariant
            i <= rows.len(),
            r@ == rows@.subrange(0, i as int).map_values(
                |row: (u64, TimeData<LiteZoneData>)| reconstructed_zone(row),
            ),
        decreases rows.len() - i,
    {
        let row = rows[i];
        r.push(row.1.data.reconstruct(row.1.time, row.0));
        proof {
            assert(rows@.subrange(0, i + 1).map_values(
                |row: (u64, TimeData<LiteZoneData>)| reconstructed_zone(row),
            ) =~= rows@.subrange(0, i as int).map_values(
                |row: (u64, TimeData<LiteZoneData>)| reconstructed_zone(row),
            ).push(reconstructed_zone(rows@[i as int])));
        }
        i += 1;
    }
    assert(rows@.subrange(0, i as int) =~= rows@);
    r
}

} // verus!
