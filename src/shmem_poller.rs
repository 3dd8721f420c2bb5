//! The decisions of the thread that drains the producer's rings into the
//! stores: what each record becomes, when to give up on a silent client, and
//! how long to pause between rounds.
use vstd::prelude::*;
use crate::common::{FrameData, LitePlotData, LiteZoneData, PlotData, ZoneData};
use crate::memdb::{MemDB, Time, TimeData};
use crate::memdb_lemmas::pushed_all;
use crate::stoppable_thread::StoppableThread;
use crate::string_collection::{Key, StringCollection, POOL_SIZE};

verus! {

/// Seconds without a keep-alive after which the server shuts down.
pub const KEEP_ALIVE_TIMEOUT: u64 = 30;

/// After this many busy rounds in a row the poller yields once.
pub const BUSY_ROUNDS_BEFORE_YIELD: u32 = 4;

/// The time of the last keep-alive, in seconds since start.
pub struct KeepAlive {
    pub last: u64,
}

impl KeepAlive {
    /// No keep-alive yet: the clock runs from start.
    pub fn new() -> (r: Self)
        ensures
            r.last == 0,
    {
        KeepAlive { last: 0 }
    }

    /// Whether `elapsed` seconds since start is `KEEP_ALIVE_TIMEOUT` or more
    /// past the last keep-alive.
    pub fn expired(&self, elapsed: u64) -> (r: bool)
        ensures
            r == (elapsed - self.last >= KEEP_ALIVE_TIMEOUT),
    {
        elapsed >= self.last && elapsed - self.last >= KEEP_ALIVE_TIMEOUT
    }
}

/// Records a keep-alive at `t` seconds since start.
pub fn update_keep_alive(keep_alive: &mut KeepAlive, t: u64)
    ensures
        final(keep_alive).last == t,
{
    keep_alive.last = t;
}

/// Stops the poller; true only for the call that did so.
pub fn stop(poller: &mut StoppableThread) -> (r: bool)
    ensures
        r == old(poller).is_running(),
        !final(poller).is_running(),
        final(poller).is_started() == old(poller).is_started(),
{
    poller.stop()
}

/// What the poller does before its next round.
#[derive(Debug, Clone, Copy, PartialEq, Eq)]
pub enum Backoff {
    /// Nothing came in: sleep a little.
    Sleep,
    /// A run of busy rounds: let other threads in.
    Yield,
    /// Go on at once.
    Continue,
}

/// A frame as the store keeps it.
pub open spec fn frame_entry(f: FrameData) -> TimeData<FrameData> {
    TimeData { time: f.end, data: f }
}

/// The zone with its strings replaced by their keys.
pub open spec fn lite_zone<'a>(z: ZoneData<'a>) -> LiteZoneData {
    LiteZoneData {
        uid: z.uid,
        color: z.color,
        duration: z.duration,
        depth: z.depth,
        name: z.name.key,
        thread: z.thread.key,
    }
}

/// The zone as the store keeps it, its time held back to `last` should the
/// producer have sent it out of order.
pub open spec fn zone_entry<'a>(z: ZoneData<'a>, last: Time) -> TimeData<LiteZoneData> {
    TimeData {
        time: if z.end < last {
            last
        } else {
            z.end
        },
        data: lite_zone(z),
    }
}

/// The end of the zone before the `i`th of `zs`, or `last` for the first.
pub open spec fn end_before<'a>(last: Time, zs: Seq<ZoneData<'a>>, i: int) -> Time {
    if i == 0 {
        last
    } else {
        zs[i - 1].end
    }
}

/// The zones as the store keeps them, after a zone that ended at `last`.
pub open spec fn zone_entries<'a>(last: Time, zs: Seq<ZoneData<'a>>) -> Seq<TimeData<LiteZoneData>> {
    Seq::new(zs.len(), |i: int| zone_entry(zs[i], end_before(last, zs, i)))
}

/// A plot sample as the store keeps it.
pub open spec fn plot_entry<'a>(p: PlotData<'a>) -> TimeData<LitePlotData> {
    TimeData {
        time: p.time,
        data: LitePlotData { color: p.color, value_bits: p.value_bits, name: p.name.key },
    }
}

/// The pool after interning `payload`, if any, under `k`, as
/// `StringCollection::insert` does: a key is bound once, to contents under
/// `POOL_SIZE` bytes.
pub open spec fn interned(m: Map<Key, Seq<char>>, k: Key, payload: Option<&str>) -> Map<
    Key,
    Seq<char>,
> {
    match payload {
        Some(p) => if p.len() >= POOL_SIZE || m.contains_key(k) {
            m
        } else {
            m.insert(k, p@)
        },
        None => m,
    }
}

/// The pool after interning, in order, the name and thread of the first `n` zones.
pub open spec fn zone_strings<'a>(m: Map<Key, Seq<char>>, zs: Seq<ZoneData<'a>>, n: int) -> Map<
    Key,
    Seq<char>,
>
    decreases n,
{
    if n <= 0 {
        m
    } else {
        let z = zs[n - 1];
        interned(
            interned(zone_strings(m, zs, n - 1), Key::StaticString(z.name.key), z.name.contents),
            Key::ThreadName(z.thread.key),
            z.thread.contents,
        )
    }
}

/// The pool after interning, in order, the names of the first `n` samples.
pub open spec fn plot_strings<'a>(m: Map<Key, Seq<char>>, ps: Seq<PlotData<'a>>, n: int) -> Map<
    Key,
    Seq<char>,
>
    decreases n,
{
    if n <= 0 {
        m
    } else {
        interned(
            plot_strings(m, ps, n - 1),
            Key::StaticString(ps[n - 1].name.key),
            ps[n - 1].name.contents,
        )
    }
}

/// Binds `k` to `payload`, when there is one, as `StringCollection::insert` does.
fn intern(strings: &mut StringCollection, k: Key, payload: Option<&str>)
    ensures
        final(strings)@ == interned(old(strings)@, k, payload),
{
    match payload {
        Some(p) => strings.insert(k, p),
        None => {},
    }
}

/// The state that the poller carries from one round to the next.
pub struct Poller {
    /// The end of the last zone received.
    pub last_time: Time,
    /// Busy rounds in a row since the last pause.
    pub counter: u32,
}

impl Poller {
    pub fn new() -> (r: Self)
        ensures
            r.last_time == 0,
            r.counter == 0,
    {
        Poller { last_time: 0, counter: 0 }
    }

    /// Pushes each frame into `frame_db`, keyed by its end.
    pub fn ingest_frames(&self, frames: &Vec<FrameData>, frame_db: &mut MemDB<FrameData>, now: u64)
        requires
            old(frame_db).wf(),
        ensures
            final(frame_db).wf(),
            final(frame_db)@ == pushed_all(
                old(frame_db)@,
                frames@.map_values(|f: FrameData| frame_entry(f)),
                now,
            ),
    {
        let mut i: usize = 0;
        while i < frames.len()
            invariant
                i <= frames.len(),
                frame_db.wf(),
                frame_db@ == pushed_all(
                    old(frame_db)@,
                    frames@.subrange(0, i as int).map_values(|f: FrameData| frame_entry(f)),
                    now,
                ),
            decreases frames.len() - i,
        {
            let f = frames[i];
            frame_db.push(TimeData { time: f.end, data: f }, now);
            proof {
                let es = frames@.subrange(0, i + 1).map_values(|f: FrameData| frame_entry(f));
                assert(es.drop_last() =~= frames@.subrange(0, i as int).map_values(
                    |f: FrameData| frame_entry(f),
                ));
            }
            i += 1;
        }
        assert(frames@.subrange(0, i as int) =~= frames@);
    }

    /// Interns the strings that the zones carry, and pushes each zone into
    /// `zone_db` keyed by its end, held back to the end of the zone before it.
    pub fn ingest_zones(
        &mut self,
        zones: &Vec<ZoneData<'_>>,
        strings: &mut StringCollection,
        zone_db: &mut MemDB<LiteZoneData>,
        now: u64,
    )
        requires
            old(zone_db).wf(),
        ensures
            final(zone_db).wf(),
            final(zone_db)@ == pushed_all(
                old(zone_db)@,
                zone_entries(old(self).last_time, zones@),
                now,
            ),
            final(self).last_time == end_before(old(self).last_time, zones@, zones@.len() as int),
            final(self).counter == old(self).counter,
            final(strings)@ == zone_strings(old(strings)@, zones@, zones@.len() as int),
    {
        let ghost last0 = self.last_time;
        let mut i: usize = 0;
        while i < zones.len()
            invariant
                i <= zones.len(),
                zone_db.wf(),
                zone_db@ == pushed_all(
                    old(zone_db)@,
                    zone_entries(last0, zones@).subrange(0, i as int),
                    now,
                ),
                self.last_time == end_before(last0, zones@, i as int),
                self.counter == old(self).counter,
                strings@ == zone_strings(old(strings)@, zones@, i as int),
            decreases zones.len() - i,
        {
            let z = &zones[i];
            intern(strings, Key::StaticString(z.name.get_key()), z.name.make_str());
            intern(strings, Key::ThreadName(z.thread.get_key()), z.thread.make_str());
            let end = z.end;
            let time = if end < self.last_time {
                self.last_time
            } else {
                end
            };
            let entry = TimeData {
                time,
                data: LiteZoneData {
                    uid: z.uid,
                    color: z.color,
                    duration: z.duration,
                    depth: z.depth,
                    name: z.name.get_key(),
                    thread: z.thread.get_key(),
                },
            };
            assert(entry == zone_entries(last0, zones@)[i as int]);
            self.last_time = end;
            zone_db.push(entry, now);
            proof {
                let es = zone_entries(last0, zones@).subrange(0, i + 1);
                assert(es.drop_last() =~= zone_entries(last0, zones@).subrange(0, i as int));
            }
            i += 1;
        }
        assert(zone_entries(last0, zones@).subrange(0, i as int) =~= zone_entries(last0, zones@));
    }

    /// Interns the names that the samples carry, and pushes each sample into
    /// `plot_db` keyed by its time.
    pub fn ingest_plots(
        &self,
        plots: &Vec<PlotData<'_>>,
        strings: &mut StringCollection,
        plot_db: &mut MemDB<LitePlotData>,
        now: u64,
    )
        requires
            old(plot_db).wf(),
        ensures
            final(plot_db).wf(),
            final(plot_db)@ == pushed_all(
                old(plot_db)@,
                plots@.map_values(|p: PlotData<'_>| plot_entry(p)),
                now,
            ),
            final(strings)@ == plot_strings(old(strings)@, plots@, plots@.len() as int),
    {
        let mut i: usize = 0;
        while i < plots.len()
            invariant
                i <= plots.len(),
                plot_db.wf(),
                plot_db@ == pushed_all(
                    old(plot_db)@,
                    plots@.subrange(0, i as int).map_values(|p: PlotData<'_>| plot_entry(p)),
                    now,
                ),
                strings@ == plot_strings(old(strings)@, plots@, i as int),
            decreases plots.len() - i,
        {
            let p = &plots[i];
            intern(strings, Key::StaticString(p.name.get_key()), p.name.make_str());
            let entry = TimeData {
                time: p.time,
                data: LitePlotData { color: p.color, value_bits: p.value_bits, name: p.name.get_key() },
            };
            plot_db.push(entry, now);
            proof {
                let es = plots@.subrange(0, i + 1).map_values(|p: PlotData<'_>| plot_entry(p));
                assert(es.drop_last() =~= plots@.subrange(0, i as int).map_values(
                    |p: PlotData<'_>| plot_entry(p),
                ));
            }
            i += 1;
        }
        assert(plots@.subrange(0, i as int) =~= plots@);
    }

    /// What to do after a round that drained `drained` records: sleep after
    /// an empty round, yield after every `BUSY_ROUNDS_BEFORE_YIELD` busy ones
    /// in a row, else go on.
    pub fn backoff(&mut self, drained: usize) -> (r: Backoff)
        requires
            old(self).counter < BUSY_ROUNDS_BEFORE_YIELD,
        ensures
            final(self).last_time == old(self).last_time,
            final(self).counter < BUSY_ROUNDS_BEFORE_YIELD,
            drained == 0 ==> r == Backoff::Sleep && final(self).counter == 0,
            drained > 0 && old(self).counter + 1 >= BUSY_ROUNDS_BEFORE_YIELD ==> r == Backoff::Yield
                && final(self).counter == 0,
            drained > 0 && old(self).counter + 1 < BUSY_ROUNDS_BEFORE_YIELD ==> r == Backoff::Continue
                && final(self).counter == old(self).counter + 1,
    {
        if drained == 0 {
            self.counter = 0;
            Backoff::Sleep
        } else {
            self.counter = self.counter + 1;
            if self.counter >= BUSY_ROUNDS_BEFORE_YIELD {
                self.counter = 0;
                Backoff::Yield
            } else {
                Backoff::Continue
            }
        }
    }
}

} // verus!
