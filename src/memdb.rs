//! The time-indexed chunked store: an append-only sequence of entries keyed
//! by non-decreasing times, cut into fixed-size chunks that can be spilled to
//! disk and loaded back, with range, count and predecessor queries.
use vstd::prelude::*;
use crate::memdb_lemmas::{
    lemma_count_below_at, lemma_count_below_concat, lemma_count_below_split, lemma_has_stop_concat,
    lemma_loaded_entries_len, lemma_loaded_entries_split, lemma_loaded_len, lemma_old_rows_after,
    lemma_old_rows_before, lemma_old_rows_prefix, lemma_skip_sorted, lemma_subrange_concat,
    lemma_take_concat, lemma_take_no_stop, lemma_wf_same_contents,
};

verus! {

/// A time stamp, in nanoseconds.
pub type Time = i64;

/// One stored entry: a value keyed by its time.
#[derive(Clone, Copy, Debug, PartialEq, Eq)]
pub struct TimeData<T> {
    pub time: Time,
    pub data: T,
}

/// A sealed chunk holds this many entries.
pub const SWAP_THRESHOLD: usize = 32768;

/// Seconds without access after which a loaded chunk may be spilled.
pub const UNLOAD_THRESHOLD: u64 = 60;

/// The rule by which a forward scan of a query may stop: an entry for which
/// it holds, and everything after it, lies past the query window.
pub trait ShouldStopQuery {
    spec fn stops(&self, t: Time, query_max: Time) -> bool;

    /// An entry inside the window never stops a scan.
    proof fn lemma_no_stop_in_window(&self, t: Time, query_max: Time)
        requires
            t <= query_max,
        ensures
            !self.stops(t, query_max),
    ;

    fn should_stop_query(&self, t: Time, query_max: Time) -> (r: bool)
        ensures
            r == self.stops(t, query_max),
    ;
}

/// The times of `s` never decrease.
pub open spec fn is_sorted<T>(s: Seq<TimeData<T>>) -> bool {
    forall|i: int, j: int| 0 <= i <= j < s.len() ==> s[i].time <= s[j].time
}

/// Abstract state of one sealed chunk.
pub struct ChunkView<T> {
    /// The entries, or `None` while the chunk is spilled to disk.
    pub data: Option<Seq<TimeData<T>>>,
    pub min: Time,
    pub max: Time,
    /// Seconds since start of the last access.
    pub last_access: u64,
}

/// Abstract state of a store.
#[verifier::ext_equal]
pub struct MemDBView<T> {
    pub chunks: Seq<ChunkView<T>>,
    pub current: Seq<TimeData<T>>,
    /// The time of the last accepted entry; zero, and of no effect on
    /// pushes, while the store is empty.
    pub max: Time,
    /// Indices of the chunks held in memory.
    pub loaded: Seq<usize>,
}

impl<T> ChunkView<T> {
    pub open spec fn wf(self) -> bool {
        &&& self.min <= self.max
        &&& match self.data {
            Some(d) => {
                &&& 0 < d.len() <= SWAP_THRESHOLD
                &&& is_sorted(d)
                &&& d[0].time == self.min
                &&& d.last().time == self.max
            },
            None => true,
        }
    }

    pub open spec fn is_loaded(self) -> bool {
        self.data is Some
    }
}

impl<T> MemDBView<T> {
    pub open spec fn wf(self) -> bool {
        &&& forall|k: int| 0 <= k < self.chunks.len() ==> (#[trigger] self.chunks[k]).wf()
        &&& forall|k: int, l: int|
            0 <= k < l < self.chunks.len() ==> self.chunks[k].max <= self.chunks[l].min
        &&& is_sorted(self.current)
        &&& self.current.len() < SWAP_THRESHOLD
        &&& forall|k: int, j: int|
            0 <= k < self.chunks.len() && 0 <= j < self.current.len() ==> self.chunks[k].max
                <= self.current[j].time
        &&& forall|j: int| 0 <= j < self.current.len() ==> self.current[j].time <= self.max
        &&& forall|k: int| 0 <= k < self.chunks.len() ==> self.chunks[k].max <= self.max
        &&& self.loaded.no_duplicates()
        &&& forall|j: int| 0 <= j < self.loaded.len() ==> self.loaded[j] < self.chunks.len()
        &&& forall|k: int|
            0 <= k < self.chunks.len() ==> (self.loaded.contains(k as usize) <==> (
            #[trigger] self.chunks[k]).is_loaded())
    }

    /// Whether any entry was ever accepted: entries are never removed, and a
    /// sealed chunk is never empty.
    pub open spec fn holds_any(self) -> bool {
        self.chunks.len() > 0 || self.current.len() > 0
    }

    /// The store after `push(e)` at time `now`: the entry is dropped only when
    /// it is older than the latest accepted one.
    pub open spec fn pushed(self, e: TimeData<T>, now: u64) -> MemDBView<T> {
        if self.holds_any() && e.time < self.max {
            self
        } else {
            let cur = self.current.push(e);
            if cur.len() >= SWAP_THRESHOLD {
                MemDBView {
                    chunks: self.chunks.push(
                        ChunkView {
                            data: Some(cur),
                            min: cur[0].time,
                            max: cur.last().time,
                            last_access: now,
                        },
                    ),
                    current: Seq::empty(),
                    max: e.time,
                    loaded: self.loaded.push(self.chunks.len() as usize),
                }
            } else {
                MemDBView { current: cur, max: e.time, ..self }
            }
        }
    }
}

/// The first sealed chunk whose maximum is at or after `t`, or the number of
/// chunks when there is none: the chunk where `t` falls.
pub open spec fn count_chunk<T>(v: MemDBView<T>, t: Time) -> int {
    choose|c: int|
        0 <= c <= v.chunks.len() && (forall|k: int| 0 <= k < c ==> #[trigger] v.chunks[k].max < t) && (c
            < v.chunks.len() ==> v.chunks[c].max >= t)
}

/// The empty store.
pub open spec fn empty_view<T>() -> MemDBView<T> {
    MemDBView { chunks: Seq::empty(), current: Seq::empty(), max: 0, loaded: Seq::empty() }
}

/// Whether chunk `c` has gone unaccessed for `UNLOAD_THRESHOLD` seconds at `now`.
pub open spec fn is_idle<T>(c: ChunkView<T>, now: u64) -> bool {
    now - c.last_access >= UNLOAD_THRESHOLD
}

impl<T> MemDBView<T> {
    /// Whether `d` may stand for the entries of spilled chunk `i`: it has the
    /// chunk's bounds and is in order.
    pub open spec fn can_reload(self, i: int, d: Seq<TimeData<T>>) -> bool {
        &&& 0 <= i < self.chunks.len()
        &&& !self.chunks[i].is_loaded()
        &&& 0 < d.len() <= SWAP_THRESHOLD
        &&& is_sorted(d)
        &&& d[0].time == self.chunks[i].min
        &&& d.last().time == self.chunks[i].max
    }

    /// The store once chunk `i` holds `d` in memory again.
    pub open spec fn reloaded(self, i: int, d: Seq<TimeData<T>>) -> MemDBView<T> {
        MemDBView {
            chunks: self.chunks.update(i, ChunkView { data: Some(d), ..self.chunks[i] }),
            loaded: self.loaded.push(i as usize),
            ..self
        }
    }

    /// The store once chunk `i` has released its entries.
    pub open spec fn unloaded(self, i: int) -> MemDBView<T> {
        MemDBView {
            chunks: self.chunks.update(i, ChunkView { data: None, ..self.chunks[i] }),
            loaded: self.loaded.remove_value(i as usize),
            ..self
        }
    }
}

/// Whether a sealed chunk meets the window `[amin, amax]`.
pub open spec fn in_window<T>(c: ChunkView<T>, amin: Time, amax: Time) -> bool {
    c.max >= amin && c.min <= amax
}

impl<T> MemDBView<T> {
    /// A negative lower bound counts back from the latest time, saturating
    /// at `i64::MIN`; `i64::MIN` itself stands for no lower bound.
    pub open spec fn abs_min(self, min: Time) -> Time {
        if min == i64::MIN {
            min
        } else if min < 0 {
            if min + self.max < i64::MIN {
                i64::MIN
            } else {
                (min + self.max) as Time
            }
        } else {
            min
        }
    }

    /// A missing upper bound is the latest time.
    pub open spec fn abs_max(self, max: Option<Time>) -> Time {
        match max {
            Some(m) => m,
            None => self.max,
        }
    }

    /// Every row that a scan over `[amin, amax]` visits, in order.
    pub open spec fn candidates(self, amin: Time, amax: Time) -> Seq<(u64, TimeData<T>)> {
        old_rows(self.chunks, self.chunks.len() as int, amin, amax) + skip_below(
            rows_of(self.chunks.len() as int, self.current),
            amin,
        )
    }

    /// The chunks after those at indices `lo` up to `hi` were marked accessed at `now`.
    pub open spec fn touched_range(self, lo: int, hi: int, now: u64) -> MemDBView<T> {
        MemDBView {
            chunks: Seq::new(
                self.chunks.len(),
                |k: int|
                    if lo <= k < hi {
                        ChunkView { last_access: now, ..self.chunks[k] }
                    } else {
                        self.chunks[k]
                    },
            ),
            ..self
        }
    }

    /// Whether `k` is the last sealed chunk that starts before `t` (`-1`:
    /// none does). It holds the latest entry older than `t` unless the
    /// current chunk holds one.
    pub open spec fn is_previous_chunk(self, t: Time, k: int) -> bool {
        &&& -1 <= k < self.chunks.len()
        &&& k >= 0 ==> self.chunks[k].min < t
        &&& forall|j: int| k < j < self.chunks.len() ==> #[trigger] self.chunks[j].min >= t
    }

    /// The chunks after a query over `[amin, amax]` at time `now` marked them accessed.
    pub open spec fn touched(self, amin: Time, amax: Time, now: u64) -> MemDBView<T> {
        MemDBView {
            chunks: Seq::new(
                self.chunks.len(),
                |k: int|
                    if in_window(self.chunks[k], amin, amax) {
                        ChunkView { last_access: now, ..self.chunks[k] }
                    } else {
                        self.chunks[k]
                    },
            ),
            ..self
        }
    }
}

/// The identifier of entry `j` of chunk `ci`: the chunk in the high half, the
/// offset in the low half.
pub open spec fn entry_id(ci: int, j: int) -> u64 {
    ((ci as u64) << 32u64) | (j as u64)
}

/// The entries of chunk `ci`, each with its identifier.
pub open spec fn rows_of<T>(ci: int, d: Seq<TimeData<T>>) -> Seq<(u64, TimeData<T>)> {
    Seq::new(d.len(), |j: int| (entry_id(ci, j), d[j]))
}

/// `rows` without its leading rows older than `min`.
pub open spec fn skip_below<T>(rows: Seq<(u64, TimeData<T>)>, min: Time) -> Seq<(u64, TimeData<T>)>
    decreases rows.len(),
{
    if rows.len() == 0 {
        rows
    } else if rows[0].1.time < min {
        skip_below(rows.drop_first(), min)
    } else {
        rows
    }
}

/// Whether some row of `rows` stops a scan bounded by `max`.
pub open spec fn has_stop<T: ShouldStopQuery>(rows: Seq<(u64, TimeData<T>)>, max: Time) -> bool {
    exists|j: int| 0 <= j < rows.len() && #[trigger] rows[j].1.data.stops(rows[j].1.time, max)
}

/// The rows of `rows` before the first one that stops a scan bounded by `max`.
pub open spec fn take_until_stop<T: ShouldStopQuery>(rows: Seq<(u64, TimeData<T>)>, max: Time) -> Seq<
    (u64, TimeData<T>),
>
    decreases rows.len(),
{
    if rows.len() == 0 {
        rows
    } else if rows[0].1.data.stops(rows[0].1.time, max) {
        Seq::empty()
    } else {
        seq![rows[0]] + take_until_stop(rows.drop_first(), max)
    }
}

/// What sealed chunk `k` offers to a query over `[amin, amax]`: nothing when it
/// is spilled or starts after `amax`, else its rows from the first at or after `amin`.
pub open spec fn chunk_rows<T>(chunks: Seq<ChunkView<T>>, k: int, amin: Time, amax: Time) -> Seq<
    (u64, TimeData<T>),
> {
    match chunks[k].data {
        Some(d) => if chunks[k].min <= amax {
            skip_below(rows_of(k, d), amin)
        } else {
            Seq::empty()
        },
        None => Seq::empty(),
    }
}

/// What the first `n` sealed chunks offer to a query over `[amin, amax]`, in order.
pub open spec fn old_rows<T>(chunks: Seq<ChunkView<T>>, n: int, amin: Time, amax: Time) -> Seq<
    (u64, TimeData<T>),
>
    decreases n,
{
    if n <= 0 {
        Seq::empty()
    } else {
        old_rows(chunks, n - 1, amin, amax) + chunk_rows(chunks, n - 1, amin, amax)
    }
}

impl<T: ShouldStopQuery> MemDBView<T> {
    /// The rows that `query(min, max)` returns.
    pub open spec fn query_rows(self, min: Time, max: Option<Time>) -> Seq<(u64, TimeData<T>)> {
        take_until_stop(
            self.candidates(self.abs_min(min), self.abs_max(max)),
            self.abs_max(max),
        )
    }
}

/// The entries held in memory by the first `n` sealed chunks, in order.
pub open spec fn loaded_entries<T>(chunks: Seq<ChunkView<T>>, n: int) -> Seq<TimeData<T>>
    decreases n,
{
    if n <= 0 {
        Seq::empty()
    } else {
        loaded_entries(chunks, n - 1) + match chunks[n - 1].data {
            Some(d) => d,
            None => Seq::empty(),
        }
    }
}

/// The number of leading entries of `s` older than `t`.
pub open spec fn count_below<T>(s: Seq<TimeData<T>>, t: Time) -> nat
    decreases s.len(),
{
    if s.len() == 0 {
        0
    } else if s[0].time < t {
        1 + count_below(s.drop_first(), t)
    } else {
        0
    }
}

/// How many entries `query_count` takes before and after the split point,
/// given `before` entries older than the center, `after` others, and a
/// budget of `n`: half of the budget on each side, a side's unused share
/// going to the other.
pub open spec fn count_window(before: nat, after: nat, n: nat) -> (nat, nat) {
    let left = n / 2;
    let right = (n - left) as nat;
    if before < left {
        (before, if after < n - before { after } else { (n - before) as nat })
    } else if after < right {
        (if before < n - after { before } else { (n - after) as nat }, after)
    } else {
        (left, right)
    }
}

impl<T> MemDBView<T> {
    /// Every entry held in memory, in order.
    pub open spec fn entries(self) -> Seq<TimeData<T>> {
        loaded_entries(self.chunks, self.chunks.len() as int) + self.current
    }

    /// The entries that `query_count(t, n)` returns.
    pub open spec fn count_rows(self, t: Time, n: nat) -> Seq<TimeData<T>> {
        let s = self.entries();
        let p = count_below(s, t);
        let w = count_window(p, (s.len() - p) as nat, n);
        s.subrange(p - w.0, (p + w.1) as int)
    }

    /// The entry that `query_previous(t)` returns.
    pub open spec fn previous(self, t: Time) -> Option<TimeData<T>> {
        let s = self.entries();
        let p = count_below(s, t);
        if p > 0 {
            Some(s[p - 1])
        } else {
            None
        }
    }
}

/// `x` brought into `[0, len]`.
pub open spec fn clip(x: int, len: int) -> int {
    if x < 0 {
        0
    } else if x > len {
        len
    } else {
        x
    }
}

/// Returns `i` such that `data[i].time >= min` and `data[i - 1].time < min`.
/// The target must lie strictly after the first element and no later than the last.
pub fn binary_search<T>(data: &Vec<TimeData<T>>, min: Time) -> (r: usize)
    requires
        data.len() > 0,
        data@[0].time < min <= data@[data.len() - 1].time,
    ensures
        0 < r < data.len(),
        data@[r as int].time >= min,
        data@[r - 1].time < min,
{
    let mut a: usize = 0;
    let mut b: usize = data.len();
    loop
        invariant
            a < b <= data.len(),
            data@[a as int].time < min,
            data@[b - 1].time >= min,
        decreases b - a,
    {
        let half = a + (b - a) / 2;
        if data[half].time >= min {
            if data[half - 1].time < min {
                return half;
            }
            b = half;
        } else {
            a = half;
        }
    }
}

/// Returns `i` such that `data[i].max >= min` and `data[i - 1].max < min`.
/// The target must lie strictly after the first chunk's maximum and no later
/// than the last chunk's.
fn binary_search_chunk<T>(data: &Vec<Chunk<T>>, min: Time) -> (r: usize)
    requires
        data.len() > 0,
        data@[0].max < min <= data@[data.len() - 1].max,
    ensures
        0 < r < data.len(),
        data@[r as int].max >= min,
        data@[r - 1].max < min,
{
    let mut a: usize = 0;
    let mut b: usize = data.len();
    loop
        invariant
            a < b <= data.len(),
            data@[a as int].max < min,
            data@[b - 1].max >= min,
        decreases b - a,
    {
        let half = a + (b - a) / 2;
        if data[half].max >= min {
            if data[half - 1].max < min {
                return half;
            }
            b = half;
        } else {
            a = half;
        }
    }
}

/// Appends the rows of chunk `ci` from offset `start` to `out`, up to the
/// first one that stops a scan bounded by `max`; tells whether one did.
fn append_rows<T: Copy + ShouldStopQuery>(
    d: &Vec<TimeData<T>>,
    ci: usize,
    start: usize,
    max: Time,
    out: &mut Vec<(u64, TimeData<T>)>,
) -> (stopped: bool)
    requires
        start <= d.len(),
    ensures
        stopped == has_stop(rows_of(ci as int, d@).subrange(start as int, d@.len() as int), max),
        final(out)@ == old(out)@ + take_until_stop(
            rows_of(ci as int, d@).subrange(start as int, d@.len() as int),
            max,
        ),
{
    let ghost rows = rows_of(ci as int, d@).subrange(start as int, d@.len() as int);
    let mut j = start;
    while j < d.len()
        invariant
            start <= j <= d.len(),
            rows == rows_of(ci as int, d@).subrange(start as int, d@.len() as int),
            out@ == old(out)@ + rows.subrange(0, j - start),
            !has_stop(rows.subrange(0, j - start), max),
        decreases d.len() - j,
    {
        let e = d[j];
        if e.data.should_stop_query(e.time, max) {
            proof {
                let pre = rows.subrange(0, j - start);
                let post = rows.subrange(j - start, rows.len() as int);
                assert(rows =~= pre + post);
                assert(post[0] == rows[j - start]);
                assert(has_stop(rows, max)) by {
                    assert(rows[j - start].1.data.stops(rows[j - start].1.time, max));
                }
                lemma_take_concat(pre, post, max);
                lemma_take_no_stop(pre, max);
                assert(take_until_stop(post, max) =~= Seq::<(u64, TimeData<T>)>::empty());
                assert(pre + Seq::<(u64, TimeData<T>)>::empty() =~= pre);
            }
            return true;
        }
        let id = ((ci as u64) << 32u64) | (j as u64);
        out.push((id, e));
        proof {
            let pre = rows.subrange(0, j - start);
            let next = rows.subrange(0, j + 1 - start);
            assert(next =~= pre.push(rows[j - start]));
            lemma_has_stop_concat(pre, seq![rows[j - start]], max);
            assert(pre.push(rows[j - start]) =~= pre + seq![rows[j - start]]);
            if has_stop(seq![rows[j - start]], max) {
                let k = choose|k: int| 0 <= k < 1 && #[trigger] seq![rows[j - start]][k].1.data.stops(
                    seq![rows[j - start]][k].1.time,
                    max,
                );
                assert(seq![rows[j - start]][k] == rows[j - start]);
            }
        }
        j += 1;
    }
    proof {
        assert(rows.subrange(0, j - start) =~= rows);
        lemma_take_no_stop(rows, max);
    }
    false
}

/// Appends `d[a..b]` to `out`.
fn push_range<T: Copy>(d: &Vec<TimeData<T>>, a: usize, b: usize, out: &mut Vec<TimeData<T>>)
    requires
        a <= b <= d.len(),
    ensures
        final(out)@ == old(out)@ + d@.subrange(a as int, b as int),
{
    let mut j = a;
    while j < b
        invariant
            a <= j <= b <= d.len(),
            out@ == old(out)@ + d@.subrange(a as int, j as int),
        decreases b - j,
    {
        out.push(d[j]);
        assert(d@.subrange(a as int, j + 1) =~= d@.subrange(a as int, j as int).push(d@[j as int]));
        j += 1;
    }
}

/// The number of leading entries of sorted `d` older than `t`.
fn count_below_in<T>(d: &Vec<TimeData<T>>, t: Time) -> (r: usize)
    requires
        is_sorted(d@),
    ensures
        r == count_below(d@, t),
{
    let len = d.len();
    if len == 0 || d[0].time >= t {
        proof {
            lemma_count_below_at(d@, 0, t);
        }
        0
    } else if d[len - 1].time < t {
        proof {
            lemma_count_below_at(d@, len as int, t);
        }
        len
    } else {
        let i = binary_search(d, t);
        proof {
            lemma_count_below_at(d@, i as int, t);
        }
        i
    }
}

struct Chunk<T> {
    data: Option<Vec<TimeData<T>>>,
    min: Time,
    max: Time,
    last_access: u64,
}

spec fn chunk_view<T>(c: Chunk<T>) -> ChunkView<T> {
    ChunkView {
        data: match c.data {
            Some(v) => Some(v@),
            None => None,
        },
        min: c.min,
        max: c.max,
        last_access: c.last_access,
    }
}

/// An append-only store of entries keyed by non-decreasing times.
///
/// Entries fill a current chunk; a full chunk is sealed into the list of old
/// chunks, which may be spilled to disk by their owner and loaded back later.
pub struct MemDB<T> {
    old_chunks: Vec<Chunk<T>>,
    current_chunk: Vec<TimeData<T>>,
    max: Time,
    loaded_chunks: Vec<usize>,
}

impl<T> View for MemDB<T> {
    type V = MemDBView<T>;

    closed spec fn view(&self) -> MemDBView<T> {
        MemDBView {
            chunks: Seq::new(self.old_chunks.len() as nat, |k: int| chunk_view(self.old_chunks@[k])),
            current: self.current_chunk@,
            max: self.max,
            loaded: self.loaded_chunks@,
        }
    }
}

impl<T: Copy> MemDB<T> {
    pub open spec fn wf(&self) -> bool {
        self@.wf()
    }

    /// The absolute lower bound of a query from `min`.
    fn abs_min_of(&self, min: Time) -> (r: Time)
        ensures
            r == self@.abs_min(min),
    {
        if min == i64::MIN {
            min
        } else if min < 0 {
            if self.max < 0 && min < i64::MIN - self.max {
                i64::MIN
            } else {
                min + self.max
            }
        } else {
            min
        }
    }

    /// An empty store.
    pub fn new() -> (r: Self)
        ensures
            r.wf(),
            r@ == empty_view::<T>(),
    {
        let r = MemDB {
            old_chunks: Vec::new(),
            current_chunk: Vec::new(),
            max: 0,
            loaded_chunks: Vec::new(),
        };
        assert(r@.chunks =~= Seq::<ChunkView<T>>::empty());
        r
    }

    /// Appends `entry`, unless its time is older than the last accepted one
    /// (the first entry is always accepted);
    /// seals the current chunk once it is full. `now` is the time of the
    /// call, in seconds since start.
    pub fn push(&mut self, entry: TimeData<T>, now: u64)
        requires
            old(self).wf(),
        ensures
            final(self).wf(),
            final(self)@ == old(self)@.pushed(entry, now),
    {
        if (self.old_chunks.len() > 0 || self.current_chunk.len() > 0) && entry.time < self.max {
            return;
        }
        self.max = entry.time;
        self.current_chunk.push(entry);
        if self.current_chunk.len() >= SWAP_THRESHOLD {
            let mut vec: Vec<TimeData<T>> = Vec::new();
            std::mem::swap(&mut self.current_chunk, &mut vec);
            let ghost prev = self.old_chunks@;
            let index = self.old_chunks.len();
            let chunk = Chunk {
                min: vec[0].time,
                max: vec[vec.len() - 1].time,
                data: Some(vec),
                last_access: now,
            };
            self.old_chunks.push(chunk);
            self.loaded_chunks.push(index);
            proof {
                let v = self@;
                let o = old(self)@;
                assert(v.chunks =~= o.chunks.push(chunk_view(chunk)));
                assert forall|k: int| 0 <= k < v.chunks.len() implies (v.loaded.contains(k as usize) <==> (
                #[trigger] v.chunks[k]).is_loaded()) by {
                    if k < o.chunks.len() {
                        assert(o.chunks[k] == v.chunks[k]);
                        if v.loaded.contains(k as usize) {
                            let j = choose|j: int| 0 <= j < v.loaded.len() && v.loaded[j] == k as usize;
                            if j < o.loaded.len() {
                                assert(o.loaded[j] == k as usize);
                            }
                        }
                        if o.loaded.contains(k as usize) {
                            let j = choose|j: int| 0 <= j < o.loaded.len() && o.loaded[j] == k as usize;
                            assert(v.loaded[j] == k as usize);
                        }
                    } else {
                        assert(v.loaded[v.loaded.len() - 1] == k as usize);
                    }
                }
                assert(v.loaded.no_duplicates()) by {
                    assert forall|j: int| 0 <= j < o.loaded.len() implies v.loaded[j] != index by {
                        assert(v.loaded[j] == o.loaded[j]);
                    }
                }
            }
        } else {
            proof {
                let v = self@;
                let o = old(self)@;
                assert(v.chunks =~= o.chunks);
            }
        }
    }
}

impl<T: Copy + ShouldStopQuery> MemDB<T> {
    /// Returns the entries whose time lies in `[min, max]`, each with its
    /// identifier, in time order; a scan stops at the first entry that lies
    /// wholly past `max` by the rule of `T`. A negative `min` counts back from
    /// the latest time; a missing `max` is the latest time. Spilled chunks are
    /// skipped: `prepare_query` names them so that they can be loaded first.
    pub fn query(&self, min: Time, max: Option<Time>) -> (r: Vec<(u64, TimeData<T>)>)
        requires
            self.wf(),
        ensures
            r@ == self@.query_rows(min, max),
    {
        let amin = self.abs_min_of(min);
        let amax = match max {
            Some(m) => m,
            None => self.max,
        };
        let ghost v = self@;
        let ghost cands = v.candidates(amin, amax);
        assert(amin == v.abs_min(min) && amax == v.abs_max(max));
        let mut out: Vec<(u64, TimeData<T>)> = Vec::new();
        let n = self.old_chunks.len();
        let first = self.first_chunk_at(amin);
        proof {
            assert forall|k: int| 0 <= k < first implies (#[trigger] v.chunks[k]).wf() && v.chunks[k].max
                < amin by {}
            lemma_old_rows_before(v.chunks, first as int, amin, amax);
            assert(out@ =~= old_rows(v.chunks, first as int, amin, amax));
        }
        let mut i = first;
        while i < n && self.old_chunks[i].min <= amax
            invariant
                first <= i <= n,
                n == v.chunks.len(),
                v == self@,
                self.wf(),
                first < n ==> v.chunks[first as int].max >= amin,
                out@ == old_rows(v.chunks, i as int, amin, amax),
                !has_stop(out@, amax),
                cands == v.candidates(amin, amax),
                amin == v.abs_min(min),
                amax == v.abs_max(max),
            decreases n - i,
        {
            let chunk = &self.old_chunks[i];
            assert(v.chunks[i as int] == chunk_view(*chunk));
            assert(v.chunks[i as int].wf());
            let ghost prev = out@;
            match &chunk.data {
                Some(d) => {
                    proof {
                        if i > first {
                            assert(v.chunks[first as int].max <= v.chunks[i as int].min);
                        }
                    }
                    let start = if chunk.min < amin {
                        binary_search(d, amin)
                    } else {
                        0
                    };
                    proof {
                        lemma_skip_sorted(i as int, d@, start as int, amin);
                        assert(chunk_rows(v.chunks, i as int, amin, amax) == rows_of(i as int, d@).subrange(
                            start as int,
                            d@.len() as int,
                        ));
                    }
                    let stopped = append_rows(d, i, start, amax, &mut out);
                    if stopped {
                        proof {
                            let cr = chunk_rows(v.chunks, i as int, amin, amax);
                            let a = old_rows(v.chunks, i + 1, amin, amax);
                            assert(a == prev + cr);
                            lemma_has_stop_concat(prev, cr, amax);
                            lemma_old_rows_prefix(v.chunks, i + 1, n as int, amin, amax);
                            let rest = old_rows(v.chunks, n as int, amin, amax).subrange(
                                a.len() as int,
                                old_rows(v.chunks, n as int, amin, amax).len() as int,
                            );
                            let cur = skip_below(rows_of(n as int, v.current), amin);
                            assert(cands =~= a + (rest + cur));
                            lemma_take_concat(a, rest + cur, amax);
                            lemma_take_concat(prev, cr, amax);
                            lemma_take_no_stop(prev, amax);
                        }
                        return out;
                    }
                    proof {
                        lemma_has_stop_concat(prev, chunk_rows(v.chunks, i as int, amin, amax), amax);
                        lemma_take_no_stop(chunk_rows(v.chunks, i as int, amin, amax), amax);
                    }
                },
                None => {
                    assert(out@ =~= old_rows(v.chunks, i + 1, amin, amax));
                },
            }
            i += 1;
        }
        proof {
            if i < n {
                assert forall|k: int| i <= k < n implies (#[trigger] v.chunks[k]).min > amax by {
                    assert(v.chunks[i as int] == chunk_view(self.old_chunks@[i as int]));
                    if k > i {
                        assert(v.chunks[i as int].wf());
                        assert(v.chunks[i as int].max <= v.chunks[k].min);
                    }
                }
            }
            lemma_old_rows_after(v.chunks, i as int, n as int, amin, amax);
        }
        let ghost prev = out@;
        let cur = &self.current_chunk;
        let len = cur.len();
        if len > 0 && amin <= cur[len - 1].time {
            let start = if cur[0].time < amin {
                binary_search(cur, amin)
            } else {
                0
            };
            proof {
                lemma_skip_sorted(n as int, cur@, start as int, amin);
            }
            let _ = append_rows(cur, n, start, amax, &mut out);
        } else {
            proof {
                if len > 0 {
                    assert forall|j: int| 0 <= j < len implies cur@[j].time < amin by {
                        assert(cur@[j].time <= cur@[len - 1].time);
                    }
                }
                lemma_skip_sorted(n as int, cur@, len as int, amin);
                assert(rows_of(n as int, cur@).subrange(len as int, len as int) =~= Seq::<
                    (u64, TimeData<T>),
                >::empty());
                assert(take_until_stop(Seq::<(u64, TimeData<T>)>::empty(), amax) =~= Seq::<
                    (u64, TimeData<T>),
                >::empty());
                assert(out@ =~= prev + Seq::<(u64, TimeData<T>)>::empty());
            }
        }
        proof {
            lemma_take_concat(prev, skip_below(rows_of(n as int, v.current), amin), amax);
        }
        out
    }
}

impl<T: Copy> MemDB<T> {
    /// The loaded chunks that have gone unaccessed for `UNLOAD_THRESHOLD`
    /// seconds at `now`: those to spill. The owner writes each to disk and
    /// then calls `mark_unloaded`; a chunk that could not be written stays loaded.
    pub fn unload_old_chunks(&self, now: u64) -> (r: Vec<usize>)
        requires
            self.wf(),
        ensures
            r@.no_duplicates(),
            forall|i: usize|
                r@.contains(i) <==> (self@.loaded.contains(i) && is_idle(self@.chunks[i as int], now)),
    {
        let mut r: Vec<usize> = Vec::new();
        let mut j: usize = 0;
        while j < self.loaded_chunks.len()
            invariant
                self.wf(),
                j <= self.loaded_chunks.len(),
                r@.no_duplicates(),
                forall|x: usize|
                    r@.contains(x) <==> (exists|k: int| 0 <= k < j && self@.loaded[k] == x) && is_idle(
                        self@.chunks[x as int],
                        now,
                    ),
            decreases self.loaded_chunks.len() - j,
        {
            let index = self.loaded_chunks[j];
            assert(self@.loaded[j as int] == index);
            assert(self@.chunks[index as int] == chunk_view(self.old_chunks@[index as int]));
            let last = self.old_chunks[index].last_access;
            if now >= last && now - last >= UNLOAD_THRESHOLD {
                proof {
                    assert(!r@.contains(index)) by {
                        if r@.contains(index) {
                            let k = choose|k: int| 0 <= k < j && self@.loaded[k] == index;
                            assert(self@.loaded[k] == self@.loaded[j as int]);
                        }
                    }
                }
                let ghost old_r = r@;
                r.push(index);
                proof {
                    assert forall|x: usize| r@.contains(x) <==> (exists|k: int|
                        0 <= k < j + 1 && self@.loaded[k] == x) && is_idle(self@.chunks[x as int], now) by {
                        if x == index {
                            assert(r@[r@.len() - 1] == x);
                            assert(self@.loaded[j as int] == x);
                        } else {
                            if r@.contains(x) {
                                let m = choose|m: int| 0 <= m < r@.len() && r@[m] == x;
                                assert(old_r[m] == x);
                                assert(old_r.contains(x));
                                let k = choose|k: int| 0 <= k < j && self@.loaded[k] == x;
                                assert(0 <= k < j + 1 && self@.loaded[k] == x);
                            }
                            if (exists|k: int| 0 <= k < j + 1 && self@.loaded[k] == x) && is_idle(
                                self@.chunks[x as int],
                                now,
                            ) {
                                let k = choose|k: int| 0 <= k < j + 1 && self@.loaded[k] == x;
                                assert(k < j);
                                assert(old_r.contains(x));
                                let m = choose|m: int| 0 <= m < old_r.len() && old_r[m] == x;
                                assert(r@[m] == x);
                            }
                        }
                    }
                }
            } else {
                proof {
                    assert forall|x: usize| r@.contains(x) <==> (exists|k: int|
                        0 <= k < j + 1 && self@.loaded[k] == x) && is_idle(self@.chunks[x as int], now) by {
                        if x != index && (exists|k: int| 0 <= k < j + 1 && self@.loaded[k] == x) {
                            let k = choose|k: int| 0 <= k < j + 1 && self@.loaded[k] == x;
                            assert(k < j);
                        }
                    }
                }
            }
            j += 1;
        }
        r
    }

    /// Releases the entries of chunk `i` once its owner has written them to
    /// disk. Returns false, changing nothing, when `i` names no loaded chunk.
    pub fn mark_unloaded(&mut self, i: usize) -> (r: bool)
        requires
            old(self).wf(),
        ensures
            final(self).wf(),
            r == (i < old(self)@.chunks.len() && old(self)@.chunks[i as int].is_loaded()),
            final(self)@ == if r {
                old(self)@.unloaded(i as int)
            } else {
                old(self)@
            },
    {
        if i >= self.old_chunks.len() || self.old_chunks[i].data.is_none() {
            proof {
                if i < self.old_chunks.len() {
                    assert(self@.chunks[i as int] == chunk_view(self.old_chunks@[i as int]));
                }
            }
            return false;
        }
        let ghost o = self@;
        assert(o.chunks[i as int] == chunk_view(self.old_chunks@[i as int]));
        assert(o.loaded.contains(i));
        let mut pos: usize = 0;
        while self.loaded_chunks[pos] != i
            invariant
                self@ == o,
                o.wf(),
                o.loaded.contains(i),
                pos < self.loaded_chunks.len(),
                forall|k: int| 0 <= k < pos ==> o.loaded[k] != i,
            decreases self.loaded_chunks.len() - pos,
        {
            pos += 1;
            proof {
                if pos == self.loaded_chunks.len() {
                    let k = choose|k: int| 0 <= k < o.loaded.len() && o.loaded[k] == i;
                    assert(false);
                }
            }
        }
        proof {
            o.loaded.index_of_first_ensures(i);
            if o.loaded.index_of_first(i) != Some(pos as int) {
                let f = o.loaded.index_of_first(i).unwrap();
                assert(o.loaded[f] == o.loaded[pos as int]);
            }
        }
        self.loaded_chunks.remove(pos);
        self.old_chunks[i].data = None;
        proof {
            let v = self@;
            assert(v.chunks =~= o.chunks.update(i as int, ChunkView { data: None, ..o.chunks[i as int] }));
            assert(v.loaded =~= o.loaded.remove_value(i));
            assert forall|k: int| 0 <= k < v.chunks.len() implies (v.loaded.contains(k as usize) <==> (
            #[trigger] v.chunks[k]).is_loaded()) by {
                if v.loaded.contains(k as usize) {
                    let m = choose|m: int| 0 <= m < v.loaded.len() && v.loaded[m] == k as usize;
                    if m < pos {
                        assert(o.loaded[m] == k as usize);
                    } else {
                        assert(o.loaded[m + 1] == k as usize);
                    }
                }
                if k != i && o.loaded.contains(k as usize) {
                    let m = choose|m: int| 0 <= m < o.loaded.len() && o.loaded[m] == k as usize;
                    if m < pos {
                        assert(v.loaded[m] == k as usize);
                    } else {
                        assert(v.loaded[m - 1] == k as usize);
                    }
                }
            }
            assert forall|a: int, b: int| 0 <= a < b < v.loaded.len() implies v.loaded[a] != v.loaded[b] by {
                let a2 = if a < pos { a } else { a + 1 };
                let b2 = if b < pos { b } else { b + 1 };
                assert(v.loaded[a] == o.loaded[a2]);
                assert(v.loaded[b] == o.loaded[b2]);
            }
            assert forall|j: int| 0 <= j < v.loaded.len() implies v.loaded[j] < v.chunks.len() by {
                let j2 = if j < pos { j } else { j + 1 };
                assert(v.loaded[j] == o.loaded[j2]);
            }
        }
        true
    }

    /// Hands chunk `i` its entries back, read from disk. Accepts them, and
    /// returns true, only when `i` names a spilled chunk and `data` has that
    /// chunk's bounds and is in order; else changes nothing.
    pub fn reload_chunk(&mut self, i: usize, data: Vec<TimeData<T>>) -> (r: bool)
        requires
            old(self).wf(),
        ensures
            final(self).wf(),
            r == old(self)@.can_reload(i as int, data@),
            final(self)@ == if r {
                old(self)@.reloaded(i as int, data@)
            } else {
                old(self)@
            },
    {
        let ghost o = self@;
        if i >= self.old_chunks.len() {
            return false;
        }
        assert(o.chunks[i as int] == chunk_view(self.old_chunks@[i as int]));
        if self.old_chunks[i].data.is_some() {
            return false;
        }
        let len = data.len();
        if len == 0 || len > SWAP_THRESHOLD || data[0].time != self.old_chunks[i].min || data[len
            - 1].time != self.old_chunks[i].max {
            return false;
        }
        let mut j: usize = 1;
        while j < len
            invariant
                1 <= j <= len,
                len == data.len(),
                self@ == o,
                o.wf(),
                forall|a: int, b: int| 0 <= a <= b < j ==> data@[a].time <= data@[b].time,
            decreases len - j,
        {
            if data[j - 1].time > data[j].time {
                proof {
                    assert(!is_sorted(data@)) by {
                        assert(data@[j - 1].time > data@[j as int].time);
                    }
                }
                return false;
            }
            j += 1;
        }
        let ghost d = data@;
        self.old_chunks[i].data = Some(data);
        self.loaded_chunks.push(i);
        proof {
            let v = self@;
            assert(v.chunks =~= o.chunks.update(i as int, ChunkView { data: Some(d), ..o.chunks[i as int] }));
            assert(v.chunks[i as int].wf());
            assert forall|k: int| 0 <= k < v.chunks.len() implies (v.loaded.contains(k as usize) <==> (
            #[trigger] v.chunks[k]).is_loaded()) by {
                if v.loaded.contains(k as usize) && k != i {
                    let m = choose|m: int| 0 <= m < v.loaded.len() && v.loaded[m] == k as usize;
                    assert(o.loaded[m] == k as usize);
                }
                if o.loaded.contains(k as usize) {
                    let m = choose|m: int| 0 <= m < o.loaded.len() && o.loaded[m] == k as usize;
                    assert(v.loaded[m] == k as usize);
                }
                if k == i {
                    assert(v.loaded[v.loaded.len() - 1] == i);
                }
            }
            assert(!o.loaded.contains(i));
            assert forall|a: int, b: int| 0 <= a < b < v.loaded.len() implies v.loaded[a] != v.loaded[b] by {
                if b == v.loaded.len() - 1 {
                    assert(v.loaded[a] == o.loaded[a]);
                }
            }
        }
        true
    }

    /// The latest time accepted.
    pub fn get_max_time(&self) -> (r: Time)
        requires
            self.wf(),
        ensures
            r == self@.max,
    {
        self.max
    }

    /// The number of loaded chunks and of all chunks, each counting the
    /// current chunk as one more.
    pub fn get_stats(&self) -> (r: (usize, usize))
        requires
            self.wf(),
            self@.chunks.len() < usize::MAX,
        ensures
            r.0 == self@.loaded.len() + 1,
            r.1 == self@.chunks.len() + 1,
    {
        proof {
            lemma_loaded_len(self@);
        }
        (self.loaded_chunks.len() + 1, self.old_chunks.len() + 1)
    }
}

impl<T: Copy> MemDB<T> {
    /// The first sealed chunk whose maximum is at or after `t`.
    fn first_chunk_at(&self, t: Time) -> (r: usize)
        requires
            self.wf(),
        ensures
            r <= self@.chunks.len(),
            forall|k: int| 0 <= k < r ==> #[trigger] self@.chunks[k].max < t,
            r < self@.chunks.len() ==> self@.chunks[r as int].max >= t,
    {
        let n = self.old_chunks.len();
        proof {
            assert forall|k: int, l: int| 0 <= k <= l < n implies self@.chunks[k].max
                <= self@.chunks[l].max by {
                assert(self@.chunks[l].wf());
                if k < l {
                    assert(self@.chunks[k].max <= self@.chunks[l].min);
                }
            }
            assert forall|k: int| 0 <= k < n implies self@.chunks[k] == chunk_view(self.old_chunks@[k]) by {}
        }
        if n == 0 || t <= self.old_chunks[0].max {
            0
        } else if t > self.old_chunks[n - 1].max {
            proof {
                assert forall|k: int| 0 <= k < n implies #[trigger] self@.chunks[k].max < t by {
                    assert(self@.chunks[k].max <= self@.chunks[n - 1].max);
                }
            }
            n
        } else {
            let r = binary_search_chunk(&self.old_chunks, t);
            proof {
                assert forall|k: int| 0 <= k < r implies #[trigger] self@.chunks[k].max < t by {
                    assert(self@.chunks[k].max <= self@.chunks[r - 1].max);
                }
            }
            r
        }
    }

    /// Marks accessed at `now` every sealed chunk that meets the window of a
    /// query over `[min, max]` (bounds as in `query`), and returns those of
    /// them that are spilled: the chunks to load back before the query runs.
    pub fn prepare_query(&mut self, min: Time, max: Option<Time>, now: u64) -> (r: Vec<usize>)
        requires
            old(self).wf(),
        ensures
            final(self).wf(),
            final(self)@ == old(self)@.touched(old(self)@.abs_min(min), old(self)@.abs_max(max), now),
            r@.no_duplicates(),
            forall|i: usize|
                r@.contains(i) <==> (i < old(self)@.chunks.len() && in_window(
                    old(self)@.chunks[i as int],
                    old(self)@.abs_min(min),
                    old(self)@.abs_max(max),
                ) && !old(self)@.chunks[i as int].is_loaded()),
    {
        let ghost o = self@;
        let amin = self.abs_min_of(min);
        let amax = match max {
            Some(m) => m,
            None => self.max,
        };
        let n = self.old_chunks.len();
        let first = self.first_chunk_at(amin);
        let mut r: Vec<usize> = Vec::new();
        let mut i = first;
        proof {
            assert(self@.chunks =~= Seq::new(
                n as nat,
                |k: int|
                    if first <= k < i {
                        ChunkView { last_access: now, ..o.chunks[k] }
                    } else {
                        o.chunks[k]
                    },
            ));
        }
        while i < n && self.old_chunks[i].min <= amax
            invariant
                first <= i <= n,
                n == o.chunks.len(),
                n == self.old_chunks.len(),
                o.wf(),
                amin == o.abs_min(min),
                amax == o.abs_max(max),
                forall|k: int| 0 <= k < first ==> #[trigger] o.chunks[k].max < amin,
                first < n ==> o.chunks[first as int].max >= amin,
                self@.chunks =~= Seq::new(
                    n as nat,
                    |k: int|
                        if first <= k < i {
                            ChunkView { last_access: now, ..o.chunks[k] }
                        } else {
                            o.chunks[k]
                        },
                ),
                self@.current == o.current,
                self@.max == o.max,
                self@.loaded == o.loaded,
                forall|k: int| first <= k < i ==> in_window(#[trigger] o.chunks[k], amin, amax),
                r@.no_duplicates(),
                forall|x: usize|
                    r@.contains(x) <==> (first <= x < i && !o.chunks[x as int].is_loaded()),
            decreases n - i,
        {
            proof {
                assert(self@.chunks[i as int] == chunk_view(self.old_chunks@[i as int]));
                assert(self@.chunks[i as int] == o.chunks[i as int]);
                if i > first {
                    assert(o.chunks[first as int].max <= o.chunks[i as int].min);
                    assert(o.chunks[i as int].wf());
                }
            }
            let unloaded = self.old_chunks[i].data.is_none();
            assert(unloaded == !o.chunks[i as int].is_loaded());
            let ghost prev_view = self@.chunks;
            self.old_chunks[i].last_access = now;
            proof {
                assert forall|k: int| 0 <= k < n implies #[trigger] self@.chunks[k] == (if k == i {
                    ChunkView { last_access: now, ..prev_view[k] }
                } else {
                    prev_view[k]
                }) by {
                    assert(self@.chunks[k] == chunk_view(self.old_chunks@[k]));
                }
            }
            if unloaded {
                let ghost old_r = r@;
                r.push(i);
                proof {
                    assert forall|x: usize| r@.contains(x) <==> (first <= x < i + 1
                        && !o.chunks[x as int].is_loaded()) by {
                        if r@.contains(x) && x != i {
                            let m = choose|m: int| 0 <= m < r@.len() && r@[m] == x;
                            assert(old_r[m] == x);
                            assert(old_r.contains(x));
                        }
                        if x != i && first <= x < i && !o.chunks[x as int].is_loaded() {
                            assert(old_r.contains(x));
                            let m = choose|m: int| 0 <= m < old_r.len() && old_r[m] == x;
                            assert(r@[m] == x);
                        }
                        if x == i {
                            assert(r@[r@.len() - 1] == x);
                        }
                    }
                    assert forall|a: int, b: int| 0 <= a < b < r@.len() implies r@[a] != r@[b] by {
                        if b == r@.len() - 1 {
                            assert(old_r.contains(r@[a]));
                        }
                    }
                }
            }
            i += 1;
            proof {
                assert(self@.chunks =~= Seq::new(
                    n as nat,
                    |k: int|
                        if first <= k < i {
                            ChunkView { last_access: now, ..o.chunks[k] }
                        } else {
                            o.chunks[k]
                        },
                ));
            }
        }
        proof {
            assert forall|k: int| i <= k < n implies !in_window(#[trigger] o.chunks[k], amin, amax) by {
                assert(self@.chunks[i as int] == chunk_view(self.old_chunks@[i as int]));
                assert(o.chunks[i as int].min > amax);
                if k > i {
                    assert(o.chunks[i as int].wf());
                    assert(o.chunks[i as int].max <= o.chunks[k].min);
                }
            }
            assert(self@.chunks =~= o.touched(amin, amax, now).chunks);
            lemma_wf_same_contents(o, self@);
            assert(self@ =~= o.touched(amin, amax, now));
        }
        r
    }

    /// Marks accessed at `now` the sealed chunks at indices `lo` up to `hi`
    /// and returns those of them that are spilled.
    fn touch_range(&mut self, lo: usize, hi: usize, now: u64) -> (r: Vec<usize>)
        requires
            old(self).wf(),
            lo <= hi <= old(self)@.chunks.len(),
        ensures
            final(self).wf(),
            final(self)@ == old(self)@.touched_range(lo as int, hi as int, now),
            r@.no_duplicates(),
            forall|i: usize|
                r@.contains(i) <==> (lo <= i < hi && !old(self)@.chunks[i as int].is_loaded()),
    {
        let ghost o = self@;
        let mut r: Vec<usize> = Vec::new();
        let mut i = lo;
        while i < hi
            invariant
                lo <= i <= hi <= o.chunks.len(),
                o.chunks.len() == self.old_chunks.len(),
                o.wf(),
                self@ =~= o.touched_range(lo as int, i as int, now),
                r@.no_duplicates(),
                forall|x: usize| r@.contains(x) <==> (lo <= x < i && !o.chunks[x as int].is_loaded()),
            decreases hi - i,
        {
            proof {
                assert(self@.chunks[i as int] == chunk_view(self.old_chunks@[i as int]));
            }
            let unloaded = self.old_chunks[i].data.is_none();
            assert(unloaded == !o.chunks[i as int].is_loaded());
            let ghost prev_view = self@.chunks;
            self.old_chunks[i].last_access = now;
            proof {
                assert forall|k: int| 0 <= k < o.chunks.len() implies #[trigger] self@.chunks[k] == (if k
                    == i {
                    ChunkView { last_access: now, ..prev_view[k] }
                } else {
                    prev_view[k]
                }) by {
                    assert(self@.chunks[k] == chunk_view(self.old_chunks@[k]));
                }
            }
            if unloaded {
                let ghost old_r = r@;
                r.push(i);
                proof {
                    assert forall|x: usize| r@.contains(x) <==> (lo <= x < i + 1
                        && !o.chunks[x as int].is_loaded()) by {
                        if r@.contains(x) && x != i {
                            let m = choose|m: int| 0 <= m < r@.len() && r@[m] == x;
                            assert(old_r[m] == x);
                            assert(old_r.contains(x));
                        }
                        if x != i && lo <= x < i && !o.chunks[x as int].is_loaded() {
                            assert(old_r.contains(x));
                            let m = choose|m: int| 0 <= m < old_r.len() && old_r[m] == x;
                            assert(r@[m] == x);
                        }
                        if x == i {
                            assert(r@[r@.len() - 1] == x);
                        }
                    }
                    assert forall|a: int, b: int| 0 <= a < b < r@.len() implies r@[a] != r@[b] by {
                        if b == r@.len() - 1 {
                            assert(old_r.contains(r@[a]));
                        }
                    }
                }
            }
            i += 1;
            assert(self@ =~= o.touched_range(lo as int, i as int, now));
        }
        proof {
            lemma_wf_same_contents(o, self@);
        }
        r
    }

    /// Marks accessed at `now` the sealed chunks that a count query around
    /// `t` may reach, and returns the spilled ones: the chunk where `t`
    /// falls and `count / SWAP_THRESHOLD + 1` chunks on each side of it. The
    /// owner loads them back before calling `query_count`.
    pub fn prepare_count(&mut self, t: Time, count: usize, now: u64) -> (r: Vec<usize>)
        requires
            old(self).wf(),
        ensures
            final(self).wf(),
            ({
                let c = count_chunk(old(self)@, t);
                let reach = count / SWAP_THRESHOLD + 1;
                let lo = if c >= reach { c - reach } else { 0 };
                let hi = if c + reach + 1 <= old(self)@.chunks.len() {
                    c + reach + 1
                } else {
                    old(self)@.chunks.len() as int
                };
                &&& final(self)@ == old(self)@.touched_range(lo, hi, now)
                &&& r@.no_duplicates()
                &&& forall|i: usize|
                    r@.contains(i) <==> (lo <= i < hi && !old(self)@.chunks[i as int].is_loaded())
            }),
    {
        let c = self.first_chunk_at(t);
        let n = self.old_chunks.len();
        let reach = count / SWAP_THRESHOLD + 1;
        let lo = if c >= reach {
            c - reach
        } else {
            0
        };
        let hi = if reach < n - c {
            c + reach + 1
        } else {
            n
        };
        self.touch_range(lo, hi, now)
    }

    /// Marks accessed at `now` the sealed chunk that holds the latest entry
    /// older than `t`, and returns it when it is spilled. No chunk is named
    /// when the current chunk holds such an entry.
    pub fn prepare_previous(&mut self, t: Time, now: u64) -> (r: Vec<usize>)
        requires
            old(self).wf(),
        ensures
            final(self).wf(),
            old(self)@.current.len() > 0 && old(self)@.current[0].time < t ==> final(self)@ == old(
                self,
            )@ && r@.len() == 0,
            !(old(self)@.current.len() > 0 && old(self)@.current[0].time < t) ==> exists|k: int|
                old(self)@.is_previous_chunk(t, k) && final(self)@ == old(self)@.touched_range(
                    k,
                    k + 1,
                    now,
                ) && r@ == (if k >= 0 && !old(self)@.chunks[k].is_loaded() {
                    seq![k as usize]
                } else {
                    Seq::<usize>::empty()
                }),
    {
        let ghost o = self@;
        if self.current_chunk.len() > 0 && self.current_chunk[0].time < t {
            return Vec::new();
        }
        let c = self.first_chunk_at(t);
        let n = self.old_chunks.len();
        proof {
            assert forall|j: int| c < j < n implies #[trigger] o.chunks[j].min >= t by {
                assert(o.chunks[c as int].max <= o.chunks[j].min);
            }
        }
        let k: usize = if c < n && self.old_chunks[c].min < t {
            assert(o.chunks[c as int] == chunk_view(self.old_chunks@[c as int]));
            c
        } else if c > 0 {
            proof {
                assert(o.chunks[c - 1].wf());
                if c < n {
                    assert(o.chunks[c as int] == chunk_view(self.old_chunks@[c as int]));
                    assert(o.chunks[c as int].min >= t);
                }
            }
            c - 1
        } else {
            proof {
                if c < n {
                    assert(o.chunks[c as int] == chunk_view(self.old_chunks@[c as int]));
                }
                assert(o.is_previous_chunk(t, -1));
                assert(o.touched_range(-1, 0, now) =~= o);
            }
            return Vec::new();
        };
        let r = self.touch_range(k, k + 1, now);
        proof {
            assert(o.is_previous_chunk(t, k as int));
            if !o.chunks[k as int].is_loaded() {
                assert(r@.contains(k));
                assert forall|j: int| 0 <= j < r@.len() implies r@[j] == k by {
                    assert(r@.contains(r@[j]));
                }
                if r@.len() > 1 {
                    assert(r@[0] == r@[1]);
                }
                assert(r@ =~= seq![k]);
            } else {
                if r@.len() > 0 {
                    assert(r@.contains(r@[0]));
                }
                assert(r@ =~= Seq::<usize>::empty());
            }
        }
        r
    }

    /// The number of entries held in memory.
    fn total_entries(&self) -> (r: u128)
        requires
            self.wf(),
        ensures
            r == self@.entries().len(),
    {
        let ghost v = self@;
        let n = self.old_chunks.len();
        let mut total: u128 = 0;
        let mut k: usize = 0;
        while k < n
            invariant
                k <= n,
                n == v.chunks.len(),
                v == self@,
                v.wf(),
                total == loaded_entries(v.chunks, k as int).len(),
            decreases n - k,
        {
            proof {
                lemma_loaded_entries_len(v.chunks, k as int);
                assert(v.chunks[k as int] == chunk_view(self.old_chunks@[k as int]));
                assert(v.chunks[k as int].wf());
            }
            match &self.old_chunks[k].data {
                Some(d) => {
                    total = total + d.len() as u128;
                },
                None => {},
            }
            k += 1;
        }
        proof {
            lemma_loaded_entries_len(v.chunks, n as int);
        }
        total + self.current_chunk.len() as u128
    }

    /// The number of leading entries held in memory that are older than `t`.
    #[verifier::rlimit(60)]
    fn count_before(&self, t: Time) -> (r: u128)
        requires
            self.wf(),
        ensures
            r == count_below(self@.entries(), t),
    {
        let ghost v = self@;
        let n = self.old_chunks.len();
        let first = self.first_chunk_at(t);
        let mut p: u128 = 0;
        let mut k: usize = 0;
        while k < first
            invariant
                k <= first <= n,
                n == v.chunks.len(),
                v == self@,
                v.wf(),
                forall|j: int| 0 <= j < first ==> #[trigger] v.chunks[j].max < t,
                p == loaded_entries(v.chunks, k as int).len(),
                count_below(loaded_entries(v.chunks, k as int), t) == p,
            decreases first - k,
        {
            proof {
                lemma_loaded_entries_len(v.chunks, k as int);
                assert(v.chunks[k as int] == chunk_view(self.old_chunks@[k as int]));
                assert(v.chunks[k as int].wf());
            }
            let ghost before = loaded_entries(v.chunks, k as int);
            match &self.old_chunks[k].data {
                Some(d) => {
                    proof {
                        assert forall|j: int| 0 <= j < d@.len() implies #[trigger] d@[j].time < t by {
                            assert(d@[j].time <= d@[d@.len() - 1].time);
                        }
                        lemma_count_below_at(d@, d@.len() as int, t);
                        lemma_count_below_concat(before, d@, t);
                    }
                    p = p + d.len() as u128;
                },
                None => {
                    assert(loaded_entries(v.chunks, k + 1) =~= before);
                },
            }
            k += 1;
        }
        let ghost pre = loaded_entries(v.chunks, first as int);
        let ghost all = loaded_entries(v.chunks, n as int);
        proof {
            lemma_loaded_entries_len(v.chunks, first as int);
            lemma_count_below_concat(pre, all.subrange(pre.len() as int, all.len() as int) + v.current, t);
            lemma_loaded_entries_split(v.chunks, first as int, n as int, t);
            assert(v.entries() =~= pre + (all.subrange(pre.len() as int, all.len() as int) + v.current));
        }
        if first < n {
            let ghost mid = loaded_entries(v.chunks, first + 1);
            let ghost rest = all.subrange(mid.len() as int, all.len() as int) + v.current;
            proof {
                lemma_loaded_entries_split(v.chunks, first + 1, n as int, t);
                assert forall|j: int| first + 1 <= j < n implies #[trigger] v.chunks[j].min >= t by {
                    assert(v.chunks[first as int].max <= v.chunks[j].min);
                }
                assert(rest.len() == 0 || rest[0].time >= t) by {
                    if all.len() > mid.len() {
                        assert(rest[0] == all[mid.len() as int]);
                    } else if v.current.len() > 0 {
                        assert(rest[0] == v.current[0]);
                        assert(v.chunks[first as int].max <= v.current[0].time);
                    }
                }
                assert(count_below(rest, t) == 0);
                assert(v.chunks[first as int] == chunk_view(self.old_chunks@[first as int]));
                assert(v.chunks[first as int].wf());
                assert(all.subrange(pre.len() as int, all.len() as int) + v.current =~= mid.subrange(
                    pre.len() as int,
                    mid.len() as int,
                ) + rest);
            }
            match &self.old_chunks[first].data {
                Some(d) => {
                    let i = count_below_in(d, t);
                    proof {
                        assert(mid == pre + d@);
                        assert(mid.subrange(pre.len() as int, mid.len() as int) =~= d@);
                        lemma_count_below_split(d@, t);
                        assert(d@[d@.len() - 1].time >= t);
                        lemma_count_below_concat(d@, rest, t);
                    }
                    p + i as u128
                },
                None => {
                    proof {
                        assert(mid =~= pre);
                        assert(mid.subrange(pre.len() as int, mid.len() as int) + rest =~= rest);
                    }
                    p
                },
            }
        } else {
            let i = count_below_in(&self.current_chunk, t);
            proof {
                assert(all.subrange(pre.len() as int, all.len() as int) + v.current =~= v.current);
            }
            p + i as u128
        }
    }

    /// The entries held in memory at positions `lo` up to `hi`.
    fn collect_range(&self, lo: u128, hi: u128) -> (r: Vec<TimeData<T>>)
        requires
            self.wf(),
            lo <= hi <= self@.entries().len(),
        ensures
            r@ == self@.entries().subrange(lo as int, hi as int),
    {
        let ghost v = self@;
        let n = self.old_chunks.len();
        let mut out: Vec<TimeData<T>> = Vec::new();
        let mut off: u128 = 0;
        let mut k: usize = 0;
        while k < n
            invariant
                k <= n,
                n == v.chunks.len(),
                v == self@,
                v.wf(),
                lo <= hi,
                off == loaded_entries(v.chunks, k as int).len(),
                out@ == loaded_entries(v.chunks, k as int).subrange(
                    clip(lo as int, off as int),
                    clip(hi as int, off as int),
                ),
            decreases n - k,
        {
            proof {
                lemma_loaded_entries_len(v.chunks, k as int);
                assert(v.chunks[k as int] == chunk_view(self.old_chunks@[k as int]));
                assert(v.chunks[k as int].wf());
            }
            let ghost before = loaded_entries(v.chunks, k as int);
            match &self.old_chunks[k].data {
                Some(d) => {
                    let len = d.len() as u128;
                    let a: u128 = if lo <= off {
                        0
                    } else if lo - off > len {
                        len
                    } else {
                        lo - off
                    };
                    let b: u128 = if hi <= off {
                        0
                    } else if hi - off > len {
                        len
                    } else {
                        hi - off
                    };
                    push_range(d, a as usize, b as usize, &mut out);
                    proof {
                        lemma_subrange_concat(before, d@, lo as int, hi as int);
                    }
                    off = off + len;
                },
                None => {
                    assert(loaded_entries(v.chunks, k + 1) =~= before);
                },
            }
            k += 1;
        }
        proof {
            lemma_loaded_entries_len(v.chunks, n as int);
        }
        let ghost before = loaded_entries(v.chunks, n as int);
        let len = self.current_chunk.len() as u128;
        let a: u128 = if lo <= off {
            0
        } else if lo - off > len {
            len
        } else {
            lo - off
        };
        let b: u128 = if hi <= off {
            0
        } else if hi - off > len {
            len
        } else {
            hi - off
        };
        push_range(&self.current_chunk, a as usize, b as usize, &mut out);
        proof {
            lemma_subrange_concat(before, v.current, lo as int, hi as int);
        }
        out
    }

    /// The latest entry held in memory older than `t`, if any.
    pub fn query_previous(&self, t: Time) -> (r: Option<TimeData<T>>)
        requires
            self.wf(),
        ensures
            r == self@.previous(t),
    {
        let p = self.count_before(t);
        if p == 0 {
            None
        } else {
            proof {
                lemma_count_below_split(self@.entries(), t);
            }
            let v = self.collect_range(p - 1, p);
            Some(v[0])
        }
    }

    /// Up to `count` entries held in memory around time `t`, in time order:
    /// half of `count` older than `t` and the rest not, a side's unused
    /// share going to the other.
    pub fn query_count(&self, t: Time, count: usize) -> (r: Vec<TimeData<T>>)
        requires
            self.wf(),
        ensures
            r@ == self@.count_rows(t, count as nat),
    {
        let p = self.count_before(t);
        let total = self.total_entries();
        proof {
            lemma_count_below_split(self@.entries(), t);
        }
        let n = count as u128;
        let after = total - p;
        let left = n / 2;
        let right = n - left;
        let (a, b) = if p < left {
            (p, if after < n - p { after } else { n - p })
        } else if after < right {
            (if p < n - after { p } else { n - after }, after)
        } else {
            (left, right)
        };
        self.collect_range(p - a, p + b)
    }
}

impl<T: Copy> MemDB<T> {
    /// The number of sealed chunks.
    pub fn chunk_count(&self) -> (r: usize)
        ensures
            r == self@.chunks.len(),
    {
        self.old_chunks.len()
    }

    /// The number of entries in the current chunk.
    pub fn current_len(&self) -> (r: usize)
        ensures
            r == self@.current.len(),
    {
        self.current_chunk.len()
    }

    /// The first and last time of sealed chunk `i`, if there is one.
    pub fn chunk_bounds(&self, i: usize) -> (r: Option<(Time, Time)>)
        ensures
            r == if i < self@.chunks.len() {
                Some((self@.chunks[i as int].min, self@.chunks[i as int].max))
            } else {
                None
            },
    {
        if i < self.old_chunks.len() {
            assert(self@.chunks[i as int] == chunk_view(self.old_chunks@[i as int]));
            Some((self.old_chunks[i].min, self.old_chunks[i].max))
        } else {
            None
        }
    }

    /// The entries of sealed chunk `i`, when it exists and is loaded: what its
    /// owner writes to disk before calling `mark_unloaded`.
    pub fn chunk_data(&self, i: usize) -> (r: Option<&Vec<TimeData<T>>>)
        ensures
            match r {
                Some(d) => i < self@.chunks.len() && self@.chunks[i as int].data == Some(d@),
                None => i >= self@.chunks.len() || !self@.chunks[i as int].is_loaded(),
            },
    {
        if i < self.old_chunks.len() {
            assert(self@.chunks[i as int] == chunk_view(self.old_chunks@[i as int]));
            match &self.old_chunks[i].data {
                Some(d) => Some(d),
                None => None,
            }
        } else {
            None
        }
    }
}

} // verus!
