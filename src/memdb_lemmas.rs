//! What holds of the store across several operations, and the lemmas that
//! the store's own proofs rest on.
use vstd::prelude::*;
use crate::memdb::{
    ChunkView, MemDBView, ShouldStopQuery, Time, TimeData, SWAP_THRESHOLD, chunk_rows, clip,
    count_below, count_window, empty_view, has_stop, is_idle, is_sorted, loaded_entries,
    old_rows, rows_of, skip_below, take_until_stop,
};

verus! {

/// The store after pushing each of `es` in turn, all at time `now`.
pub open spec fn pushed_all<T>(v: MemDBView<T>, es: Seq<TimeData<T>>, now: u64) -> MemDBView<T>
    decreases es.len(),
{
    if es.len() == 0 {
        v
    } else {
        pushed_all(v, es.drop_last(), now).pushed(es.last(), now)
    }
}

/// A push keeps the store well formed.
pub proof fn lemma_pushed_wf<T>(v: MemDBView<T>, e: TimeData<T>, now: u64)
    requires
        v.wf(),
        v.chunks.len() < usize::MAX,
    ensures
        v.pushed(e, now).wf(),
        v.pushed(e, now).chunks.len() <= v.chunks.len() + 1,
{
    let w = v.pushed(e, now);
    if !(v.holds_any() && e.time < v.max) {
        let cur = v.current.push(e);
        assert(is_sorted(cur)) by {
            assert forall|i: int, j: int| 0 <= i <= j < cur.len() implies cur[i].time <= cur[j].time by {
                if j == cur.len() - 1 && i < j {
                    assert(cur[i] == v.current[i]);
                }
            }
        }
        if cur.len() >= SWAP_THRESHOLD {
            let c = w.chunks[v.chunks.len() as int];
            assert(c.wf());
            assert forall|k: int, l: int| 0 <= k < l < w.chunks.len() implies w.chunks[k].max
                <= w.chunks[l].min by {
                if l == v.chunks.len() {
                    assert(w.chunks[k] == v.chunks[k]);
                    if v.current.len() > 0 {
                        assert(cur[0] == v.current[0]);
                    }
                }
            }
            assert forall|k: int| 0 <= k < w.chunks.len() implies (#[trigger] w.chunks[k]).wf() by {
                if k < v.chunks.len() {
                    assert(w.chunks[k] == v.chunks[k]);
                }
            }
            assert forall|k: int| 0 <= k < w.chunks.len() implies w.chunks[k].max <= w.max by {
                if k < v.chunks.len() {
                    assert(w.chunks[k] == v.chunks[k]);
                }
            }
            assert forall|k: int| 0 <= k < w.chunks.len() implies (w.loaded.contains(k as usize) <==> (
            #[trigger] w.chunks[k]).is_loaded()) by {
                if k < v.chunks.len() {
                    assert(v.chunks[k] == w.chunks[k]);
                    if w.loaded.contains(k as usize) {
                        let j = choose|j: int| 0 <= j < w.loaded.len() && w.loaded[j] == k as usize;
                        if j < v.loaded.len() {
                            assert(v.loaded[j] == k as usize);
                        }
                    }
                    if v.loaded.contains(k as usize) {
                        let j = choose|j: int| 0 <= j < v.loaded.len() && v.loaded[j] == k as usize;
                        assert(w.loaded[j] == k as usize);
                    }
                } else {
                    assert(w.loaded[w.loaded.len() - 1] == k as usize);
                }
            }
            assert(w.loaded.no_duplicates()) by {
                assert forall|j: int| 0 <= j < v.loaded.len() implies w.loaded[j] != v.chunks.len() as usize by {
                    assert(w.loaded[j] == v.loaded[j]);
                }
            }
            assert forall|j: int| 0 <= j < w.loaded.len() implies w.loaded[j] < w.chunks.len() by {
                if j < v.loaded.len() {
                    assert(w.loaded[j] == v.loaded[j]);
                }
            }
        }
    }
}

/// An accepted push appends its entry to what the store holds in memory.
pub proof fn lemma_pushed_entries<T>(v: MemDBView<T>, e: TimeData<T>, now: u64)
    requires
        v.wf(),
        !(v.holds_any() && e.time < v.max),
    ensures
        v.pushed(e, now).entries() == v.entries().push(e),
{
    let w = v.pushed(e, now);
    let n = v.chunks.len() as int;
    let cur = v.current.push(e);
    if cur.len() >= SWAP_THRESHOLD {
        assert forall|k: int| 0 <= k < n implies w.chunks[k] == v.chunks[k] by {}
        lemma_loaded_entries_same(v.chunks, w.chunks, n);
        assert(w.chunks[n].data == Some(cur));
        assert(loaded_entries(w.chunks, n + 1) == loaded_entries(w.chunks, n) + cur);
        assert(w.entries() =~= v.entries().push(e));
    } else {
        assert(w.entries() =~= v.entries().push(e));
    }
}

proof fn lemma_loaded_entries_same<T>(a: Seq<ChunkView<T>>, b: Seq<ChunkView<T>>, n: int)
    requires
        0 <= n <= a.len(),
        n <= b.len(),
        forall|k: int| 0 <= k < n ==> a[k] == b[k],
    ensures
        loaded_entries(a, n) == loaded_entries(b, n),
    decreases n,
{
    if n > 0 {
        lemma_loaded_entries_same(a, b, n - 1);
        assert(a[n - 1] == b[n - 1]);
    }
}

/// A push older than the latest accepted time leaves the store as it was.
pub proof fn lemma_stale_push_ignored<T>(v: MemDBView<T>, e: TimeData<T>, now: u64)
    requires
        v.holds_any(),
        e.time < v.max,
    ensures
        v.pushed(e, now) == v,
{
}

/// Pushing entries in time order onto an empty store keeps it well formed
/// and holds exactly those entries. (Fewer than
/// `usize::MAX` entries: a count of chunks must fit in a `usize`.)
pub proof fn lemma_pushed_all<T>(es: Seq<TimeData<T>>, now: u64)
    requires
        is_sorted(es),
        es.len() < usize::MAX,
    ensures
        pushed_all(empty_view(), es, now).chunks.len() <= es.len(),
        pushed_all(empty_view(), es, now).wf(),
        pushed_all(empty_view(), es, now).entries() == es,
        es.len() > 0 ==> pushed_all(empty_view(), es, now).max == es.last().time,
    decreases es.len(),
{
    if es.len() == 0 {
        let v = empty_view::<T>();
        assert(v.entries() =~= es);
    } else {
        let init = es.drop_last();
        assert forall|i: int, j: int| 0 <= i <= j < init.len() implies init[i].time <= init[j].time by {
            assert(init[i] == es[i] && init[j] == es[j]);
        }
        if init.len() > 0 {
            assert(init[0] == es[0]);
        }
        lemma_pushed_all(init, now);
        let v = pushed_all(empty_view(), init, now);
        if init.len() > 0 {
            assert(es[init.len() - 1].time <= es.last().time);
        }
        lemma_pushed_wf(v, es.last(), now);
        lemma_pushed_entries(v, es.last(), now);
        assert(init.push(es.last()) =~= es);
    }
}

proof fn lemma_old_rows_all<T: ShouldStopQuery>(
    chunks: Seq<ChunkView<T>>,
    n: int,
    amin: Time,
    amax: Time,
)
    requires
        0 <= n <= chunks.len(),
        forall|k: int| 0 <= k < chunks.len() ==> (#[trigger] chunks[k]).wf() && chunks[k].max <= amax,
        forall|j: int|
            0 <= j < loaded_entries(chunks, n).len() ==> #[trigger] loaded_entries(chunks, n)[j].time
                >= amin,
    ensures
        old_rows(chunks, n, amin, amax).map_values(|r: (u64, TimeData<T>)| r.1) == loaded_entries(
            chunks,
            n,
        ),
    decreases n,
{
    if n > 0 {
        let a = loaded_entries(chunks, n - 1);
        let c = chunks[n - 1];
        assert(c.wf());
        let d = match c.data {
            Some(d) => d,
            None => Seq::empty(),
        };
        assert(loaded_entries(chunks, n) == a + d);
        assert forall|j: int| 0 <= j < a.len() implies #[trigger] a[j].time >= amin by {
            assert((a + d)[j] == a[j]);
        }
        lemma_old_rows_all(chunks, n - 1, amin, amax);
        let cr = chunk_rows(chunks, n - 1, amin, amax);
        match c.data {
            Some(dd) => {
                assert((a + d)[a.len() as int] == d[0]);
                lemma_skip_none(rows_of(n - 1, dd), amin);
                assert(cr.map_values(|r: (u64, TimeData<T>)| r.1) =~= d);
            },
            None => {
                assert(cr.map_values(|r: (u64, TimeData<T>)| r.1) =~= d);
            },
        }
        assert(old_rows(chunks, n, amin, amax) == old_rows(chunks, n - 1, amin, amax) + cr);
        assert(old_rows(chunks, n, amin, amax).map_values(|r: (u64, TimeData<T>)| r.1) =~= a + d);
    }
}

proof fn lemma_skip_none<T>(rows: Seq<(u64, TimeData<T>)>, min: Time)
    requires
        rows.len() > 0 ==> rows[0].1.time >= min,
    ensures
        skip_below(rows, min) == rows,
{
}

/// A query over all time returns, in order, every entry held in memory.
pub proof fn lemma_query_all<T: ShouldStopQuery>(v: MemDBView<T>)
    requires
        v.wf(),
    ensures
        v.query_rows(i64::MIN, Some(i64::MAX)).map_values(|r: (u64, TimeData<T>)| r.1) == v.entries(),
{
    let amin = v.abs_min(i64::MIN);
    let amax = i64::MAX;
    let n = v.chunks.len() as int;
    let le = loaded_entries(v.chunks, n);
    assert forall|j: int| 0 <= j < le.len() implies #[trigger] le[j].time >= amin by {
        assert(v.entries()[j] == le[j]);
    }
    lemma_old_rows_all(v.chunks, n, amin, amax);
    let cur_rows = rows_of(n, v.current);
    if v.current.len() > 0 {
        assert(v.entries()[le.len() as int] == v.current[0]);
    }
    lemma_skip_none(cur_rows, amin);
    let cands = v.candidates(amin, amax);
    assert(cands.map_values(|r: (u64, TimeData<T>)| r.1) =~= v.entries());
    assert forall|j: int| 0 <= j < cands.len() implies !#[trigger] cands[j].1.data.stops(cands[j].1.time, amax) by {
        cands[j].1.data.lemma_no_stop_in_window(cands[j].1.time, amax);
    }
    lemma_take_no_stop(cands, amax);
}

/// Entries pushed in time order onto an empty store come back from a query
/// over all time exactly and in order.
pub proof fn lemma_query_returns_pushed<T: ShouldStopQuery>(es: Seq<TimeData<T>>, now: u64)
    requires
        is_sorted(es),
        es.len() < usize::MAX,
    ensures
        pushed_all(empty_view(), es, now).query_rows(i64::MIN, Some(i64::MAX)).map_values(
            |r: (u64, TimeData<T>)| r.1,
        ) == es,
{
    lemma_pushed_all(es, now);
    lemma_query_all(pushed_all(empty_view(), es, now));
}

/// Spilling a loaded chunk and loading back the entries it held is the
/// identity on the chunks, on what a query returns and on what is held in memory.
pub proof fn lemma_spill_round_trip<T: ShouldStopQuery>(v: MemDBView<T>, i: int, min: Time, max: Option<Time>)
    requires
        v.wf(),
        0 <= i < v.chunks.len(),
        v.chunks[i].is_loaded(),
    ensures
        v.unloaded(i).can_reload(i, v.chunks[i].data.unwrap()),
        v.unloaded(i).reloaded(i, v.chunks[i].data.unwrap()).chunks == v.chunks,
        v.unloaded(i).reloaded(i, v.chunks[i].data.unwrap()).query_rows(min, max) == v.query_rows(min, max),
        v.unloaded(i).reloaded(i, v.chunks[i].data.unwrap()).entries() == v.entries(),
{
    let d = v.chunks[i].data.unwrap();
    assert(v.chunks[i].wf());
    let w = v.unloaded(i).reloaded(i, d);
    assert(w.chunks =~= v.chunks);
}

/// A loaded chunk idle for `UNLOAD_THRESHOLD` seconds is among those to spill;
/// spilling it leaves one chunk fewer loaded, and loading it back for a
/// query brings the count back.
pub proof fn lemma_eviction_cycle<T>(v: MemDBView<T>, i: int, now: u64)
    requires
        v.wf(),
        0 <= i < v.chunks.len(),
        v.chunks[i].is_loaded(),
        is_idle(v.chunks[i], now),
    ensures
        v.loaded.contains(i as usize),
        v.unloaded(i).loaded.len() + 1 == v.loaded.len(),
        !v.unloaded(i).chunks[i].is_loaded(),
        v.unloaded(i).can_reload(i, v.chunks[i].data.unwrap()),
        v.unloaded(i).reloaded(i, v.chunks[i].data.unwrap()).loaded.len() == v.loaded.len(),
{
    assert(v.chunks[i].wf());
    v.loaded.index_of_first_ensures(i as usize);
}

/// `query_previous(t)` returns the entry just before `t`: the latest one
/// older than `t`, whose successor, if any, is not older than `t`; it returns
/// nothing only when no entry is older than `t`.
pub proof fn lemma_previous_is_predecessor<T>(v: MemDBView<T>, t: Time)
    requires
        v.wf(),
    ensures
        match v.previous(t) {
            Some(e) => exists|j: int|
                0 <= j < v.entries().len() && #[trigger] v.entries()[j] == e && e.time < t && (j + 1
                    == v.entries().len() || v.entries()[j + 1].time >= t),
            None => forall|j: int| 0 <= j < v.entries().len() ==> #[trigger] v.entries()[j].time >= t,
        },
{
    let s = v.entries();
    lemma_entries_sorted(v);
    lemma_count_below_split(s, t);
    let p = count_below(s, t) as int;
    if p > 0 {
        assert(0 <= p - 1 < s.len() && s[p - 1] == s[p - 1] && s[p - 1].time < t);
    } else {
        assert forall|j: int| 0 <= j < s.len() implies #[trigger] s[j].time >= t by {
            assert(s[0].time <= s[j].time);
        }
    }
}

/// `query_count(t, n)` returns at most `n` entries, in time order, a run of
/// consecutive entries held in memory; exactly `n` when memory holds that many.
pub proof fn lemma_count_window<T>(v: MemDBView<T>, t: Time, n: nat)
    requires
        v.wf(),
    ensures
        v.count_rows(t, n).len() <= n,
        is_sorted(v.count_rows(t, n)),
        exists|lo: int|
            0 <= lo && lo + v.count_rows(t, n).len() <= v.entries().len() && v.count_rows(t, n)
                == #[trigger] v.entries().subrange(lo, lo + v.count_rows(t, n).len()),
        v.entries().len() >= n ==> v.count_rows(t, n).len() == n,
{
    let s = v.entries();
    lemma_entries_sorted(v);
    lemma_count_below_split(s, t);
    let p = count_below(s, t);
    let w = count_window(p, (s.len() - p) as nat, n);
    let r = v.count_rows(t, n);
    assert(r == s.subrange(p - w.0, (p + w.1) as int));
    assert forall|i: int, j: int| 0 <= i <= j < r.len() implies r[i].time <= r[j].time by {
        assert(r[i] == s[p - w.0 + i] && r[j] == s[p - w.0 + j]);
    }
    assert(0 <= p - w.0 && (p - w.0) + r.len() <= s.len() && r == s.subrange(p - w.0, (p - w.0) + r.len()));
}


/// Once the chunk that `prepare_previous(t)` names is loaded, `query_previous(t)`
/// returns the latest entry older than `t` of the whole store, spilled chunks
/// included: an entry of the current chunk, or else of that chunk `k`, whose
/// successor is not older than `t`; every later chunk starts at or after `t`.
/// It returns nothing only when no stored entry is older than `t`.
pub proof fn lemma_previous_when_ready<T>(v: MemDBView<T>, t: Time, k: int)
    requires
        v.wf(),
        v.is_previous_chunk(t, k),
        k >= 0 ==> v.chunks[k].is_loaded(),
    ensures
        match v.previous(t) {
            Some(e) => e.time < t && ((exists|j: int|
                0 <= j < v.current.len() && #[trigger] v.current[j] == e && (j + 1 == v.current.len()
                    || v.current[j + 1].time >= t)) || (k >= 0 && (forall|j: int|
                0 <= j < v.current.len() ==> #[trigger] v.current[j].time >= t) && exists|j: int|
                0 <= j < v.chunks[k].data.unwrap().len() && #[trigger] v.chunks[k].data.unwrap()[j]
                    == e && (j + 1 == v.chunks[k].data.unwrap().len() || v.chunks[k].data.unwrap()[j
                    + 1].time >= t))),
            None => k == -1 && forall|j: int| 0 <= j < v.current.len() ==> #[trigger] v.current[j].time >= t,
        },
{
    let n = v.chunks.len() as int;
    let le = loaded_entries(v.chunks, n);
    let s = v.entries();
    lemma_loaded_entries_bounds(v.chunks, n);
    lemma_entries_sorted(v);
    lemma_count_below_split(s, t);
    lemma_count_below_concat(le, v.current, t);
    if v.current.len() > 0 && v.current[0].time < t {
        if n > 0 {
            assert forall|j: int| 0 <= j < le.len() implies #[trigger] le[j].time < t by {
                assert(le[j].time <= v.chunks[n - 1].max);
                assert(v.chunks[n - 1].max <= v.current[0].time);
            }
            lemma_count_below_at(le, le.len() as int, t);
        } else {
            assert(le.len() == 0);
        }
        lemma_count_below_split(v.current, t);
        let q = count_below(v.current, t) as int;
        assert(q >= 1);
        let p = count_below(s, t) as int;
        assert(p == le.len() + q);
        assert(s[p - 1] == v.current[q - 1]);
        if q < v.current.len() {
            assert(s[p] == v.current[q]);
        }
    } else {
        assert forall|j: int| 0 <= j < v.current.len() implies #[trigger] v.current[j].time >= t by {
            assert(v.current[0].time <= v.current[j].time);
        }
        lemma_loaded_entries_split(v.chunks, k + 1, n, t);
        let pre = loaded_entries(v.chunks, k + 1);
        let rest = le.subrange(pre.len() as int, le.len() as int) + v.current;
        assert(s =~= pre + rest);
        assert(rest.len() == 0 || rest[0].time >= t) by {
            if le.len() > pre.len() {
                assert(rest[0] == le[pre.len() as int]);
            } else if v.current.len() > 0 {
                assert(rest[0] == v.current[0]);
            }
        }
        assert(count_below(rest, t) == 0);
        lemma_count_below_concat(pre, rest, t);
        if k >= 0 {
            let d = v.chunks[k].data.unwrap();
            assert(v.chunks[k].wf());
            let before = loaded_entries(v.chunks, k);
            assert(pre == before + d);
            lemma_loaded_entries_bounds(v.chunks, k);
            if k > 0 {
                assert forall|j: int| 0 <= j < before.len() implies #[trigger] before[j].time < t by {
                    assert(before[j].time <= v.chunks[k - 1].max);
                    assert(v.chunks[k - 1].max <= v.chunks[k].min);
                }
            }
            lemma_count_below_at(before, before.len() as int, t);
            lemma_count_below_concat(before, d, t);
            lemma_count_below_split(d, t);
            let q = count_below(d, t) as int;
            assert(d[0].time < t);
            assert(q >= 1);
            let p = count_below(s, t) as int;
            assert(p == before.len() + q);
            assert(s[p - 1] == pre[p - 1]);
            assert(pre[p - 1] == d[q - 1]);
            if q < d.len() {
                assert(s[p] == d[q]);
            }
        } else {
            assert(pre.len() == 0);
            assert(count_below(s, t) == 0);
        }
    }
}

/// One step in the life of a store: a push, or a chunk spilled to disk and
/// loaded back with the entries it held.
pub enum StoreStep<T> {
    Push(TimeData<T>),
    SpillAndReload(int),
}

/// The store after `steps`, pushes all at time `now`. A spill of a chunk
/// that is not loaded does nothing.
pub open spec fn after_steps<T>(v: MemDBView<T>, steps: Seq<StoreStep<T>>, now: u64) -> MemDBView<T>
    decreases steps.len(),
{
    if steps.len() == 0 {
        v
    } else {
        let w = after_steps(v, steps.drop_last(), now);
        match steps.last() {
            StoreStep::Push(e) => w.pushed(e, now),
            StoreStep::SpillAndReload(i) => if 0 <= i < w.chunks.len() && w.chunks[i].is_loaded() {
                w.unloaded(i).reloaded(i, w.chunks[i].data.unwrap())
            } else {
                w
            },
        }
    }
}

/// The entries that `steps` push, in order.
pub open spec fn pushes_of<T>(steps: Seq<StoreStep<T>>) -> Seq<TimeData<T>>
    decreases steps.len(),
{
    if steps.len() == 0 {
        Seq::empty()
    } else {
        match steps.last() {
            StoreStep::Push(e) => pushes_of(steps.drop_last()).push(e),
            StoreStep::SpillAndReload(_) => pushes_of(steps.drop_last()),
        }
    }
}

/// Spilling a loaded chunk and loading back what it held keeps the store
/// well formed and its chunks, current chunk and latest time unchanged.
pub proof fn lemma_spill_cycle_wf<T>(v: MemDBView<T>, i: int)
    requires
        v.wf(),
        v.chunks.len() <= usize::MAX,
        0 <= i < v.chunks.len(),
        v.chunks[i].is_loaded(),
    ensures
        v.unloaded(i).reloaded(i, v.chunks[i].data.unwrap()).wf(),
        v.unloaded(i).reloaded(i, v.chunks[i].data.unwrap()).chunks == v.chunks,
        v.unloaded(i).reloaded(i, v.chunks[i].data.unwrap()).current == v.current,
        v.unloaded(i).reloaded(i, v.chunks[i].data.unwrap()).max == v.max,
{
    let w = v.unloaded(i).reloaded(i, v.chunks[i].data.unwrap());
    assert(w.chunks =~= v.chunks);
    let x = i as usize;
    assert(v.loaded.contains(x));
    v.loaded.index_of_first_ensures(x);
    let f = v.loaded.index_of_first(x).unwrap();
    let r = v.loaded.remove(f);
    assert(w.loaded == r.push(x));
    assert forall|a: int| 0 <= a < r.len() implies r[a] != x && #[trigger] r[a] == v.loaded[if a < f {
        a
    } else {
        a + 1
    }] by {
        if a >= f {
            assert(v.loaded[a + 1] != v.loaded[f]);
        } else {
            assert(v.loaded[a] != v.loaded[f]);
        }
    }
    assert forall|a: int, b: int| 0 <= a < b < w.loaded.len() implies w.loaded[a] != w.loaded[b] by {
        let a2 = if a < f { a } else { a + 1 };
        let b2 = if b < f { b } else { b + 1 };
        assert(r[a] == v.loaded[a2]);
        if b < r.len() {
            assert(r[b] == v.loaded[b2]);
        }
    }
    assert forall|j: int| 0 <= j < w.loaded.len() implies w.loaded[j] < w.chunks.len() by {
        if j < r.len() {
            assert(r[j] == v.loaded[if j < f { j } else { j + 1 }]);
        }
    }
    assert forall|k: int| 0 <= k < w.chunks.len() implies (w.loaded.contains(k as usize) <==> (
    #[trigger] w.chunks[k]).is_loaded()) by {
        if k == i {
            assert(w.loaded[r.len() as int] == x);
        } else {
            if v.loaded.contains(k as usize) {
                let m = choose|m: int| 0 <= m < v.loaded.len() && v.loaded[m] == k as usize;
                assert(m != f);
                let m2 = if m < f { m } else { m - 1 };
                assert(r[m2] == v.loaded[m]);
                assert(w.loaded[m2] == k as usize);
            }
            if w.loaded.contains(k as usize) {
                let m = choose|m: int| 0 <= m < w.loaded.len() && w.loaded[m] == k as usize;
                assert(m < r.len());
                assert(r[m] == v.loaded[if m < f { m } else { m + 1 }]);
            }
        }
    }
}

/// Pushes in time order onto an empty store, interleaved with any number of
/// chunks spilled to disk and loaded back with the entries they held, come
/// back from a query over all time exactly and in order: spilling and
/// reloading is the identity on what queries return.
pub proof fn lemma_steps_query_returns_pushed<T: ShouldStopQuery>(steps: Seq<StoreStep<T>>, now: u64)
    requires
        is_sorted(pushes_of(steps)),
        steps.len() < usize::MAX,
    ensures
        after_steps(empty_view(), steps, now).wf(),
        after_steps(empty_view(), steps, now).query_rows(i64::MIN, Some(i64::MAX)).map_values(
            |r: (u64, TimeData<T>)| r.1,
        ) == pushes_of(steps),
{
    lemma_steps(steps, now);
    lemma_query_all(after_steps(empty_view(), steps, now));
}

proof fn lemma_steps<T>(steps: Seq<StoreStep<T>>, now: u64)
    requires
        is_sorted(pushes_of(steps)),
        steps.len() < usize::MAX,
    ensures
        after_steps(empty_view(), steps, now).wf(),
        after_steps(empty_view(), steps, now).entries() == pushes_of(steps),
        after_steps(empty_view(), steps, now).chunks.len() <= steps.len(),
        after_steps(empty_view(), steps, now).holds_any() == (pushes_of(steps).len() > 0),
        pushes_of(steps).len() > 0 ==> after_steps(empty_view(), steps, now).max == pushes_of(
            steps,
        ).last().time,
    decreases steps.len(),
{
    if steps.len() == 0 {
        assert(empty_view::<T>().entries() =~= Seq::<TimeData<T>>::empty());
    } else {
        let init = steps.drop_last();
        let es = pushes_of(steps);
        let ps = pushes_of(init);
        match steps.last() {
            StoreStep::Push(e) => {
                assert(es == ps.push(e));
                assert forall|i: int, j: int| 0 <= i <= j < ps.len() implies ps[i].time <= ps[j].time by {
                    assert(ps[i] == es[i] && ps[j] == es[j]);
                }
            },
            StoreStep::SpillAndReload(_) => {
                assert(es == ps);
            },
        }
        lemma_steps(init, now);
        let w = after_steps(empty_view(), init, now);
        match steps.last() {
            StoreStep::Push(e) => {
                if ps.len() > 0 {
                    assert(es[ps.len() - 1] == ps.last());
                    assert(es[ps.len() - 1].time <= es[ps.len() as int].time);
                }
                lemma_pushed_wf(w, e, now);
                lemma_pushed_entries(w, e, now);
            },
            StoreStep::SpillAndReload(i) => {
                if 0 <= i < w.chunks.len() && w.chunks[i].is_loaded() {
                    lemma_spill_cycle_wf(w, i);
                    let u = w.unloaded(i).reloaded(i, w.chunks[i].data.unwrap());
                    assert(u.entries() == w.entries());
                }
            },
        }
    }
}

// Lemmas on the spec functions of the store, used by its proofs.

/// A concatenation holds a stopping row exactly when one of its parts does.
pub proof fn lemma_has_stop_concat<T: ShouldStopQuery>(
    a: Seq<(u64, TimeData<T>)>,
    b: Seq<(u64, TimeData<T>)>,
    max: Time,
)
    ensures
        has_stop(a + b, max) == (has_stop(a, max) || has_stop(b, max)),
{
    let c = a + b;
    if has_stop(a, max) {
        let j = choose|j: int| 0 <= j < a.len() && #[trigger] a[j].1.data.stops(a[j].1.time, max);
        assert(c[j] == a[j]);
    }
    if has_stop(b, max) {
        let j = choose|j: int| 0 <= j < b.len() && #[trigger] b[j].1.data.stops(b[j].1.time, max);
        assert(c[a.len() + j] == b[j]);
    }
    if has_stop(c, max) {
        let j = choose|j: int| 0 <= j < c.len() && #[trigger] c[j].1.data.stops(c[j].1.time, max);
        if j < a.len() {
            assert(c[j] == a[j]);
        } else {
            assert(c[j] == b[j - a.len()]);
        }
    }
}

/// A scan over `a + b` ends inside `a` when `a` holds a stopping row, and
/// else goes on into `b`.
pub proof fn lemma_take_concat<T: ShouldStopQuery>(
    a: Seq<(u64, TimeData<T>)>,
    b: Seq<(u64, TimeData<T>)>,
    max: Time,
)
    ensures
        take_until_stop(a + b, max) == if has_stop(a, max) {
            take_until_stop(a, max)
        } else {
            a + take_until_stop(b, max)
        },
    decreases a.len(),
{
    if a.len() == 0 {
        assert(a + b =~= b);
    } else {
        let c = a + b;
        assert(c[0] == a[0]);
        if a[0].1.data.stops(a[0].1.time, max) {
            assert(has_stop(a, max));
        } else {
            assert(c.drop_first() =~= a.drop_first() + b);
            lemma_take_concat(a.drop_first(), b, max);
            if has_stop(a, max) {
                let j = choose|j: int| 0 <= j < a.len() && #[trigger] a[j].1.data.stops(a[j].1.time, max);
                assert(a.drop_first()[j - 1] == a[j]);
            } else {
                assert forall|j: int| 0 <= j < a.drop_first().len() implies !#[trigger] a.drop_first()[j].1.data.stops(
                    a.drop_first()[j].1.time,
                    max,
                ) by {
                    assert(a.drop_first()[j] == a[j + 1]);
                }
                assert(seq![a[0]] + (a.drop_first() + take_until_stop(b, max)) =~= a + take_until_stop(b, max));
            }
        }
    }
}

/// A scan over rows none of which stops takes them all.
pub proof fn lemma_take_no_stop<T: ShouldStopQuery>(a: Seq<(u64, TimeData<T>)>, max: Time)
    requires
        !has_stop(a, max),
    ensures
        take_until_stop(a, max) == a,
{
    lemma_take_concat(a, Seq::empty(), max);
    assert(a + Seq::<(u64, TimeData<T>)>::empty() =~= a);
}

/// Skipping the leading rows older than `min` leaves the rows from `start`
/// when exactly those before `start` are older.
pub proof fn lemma_skip_at<T>(rows: Seq<(u64, TimeData<T>)>, start: int, min: Time)
    requires
        0 <= start <= rows.len(),
        forall|j: int| 0 <= j < start ==> #[trigger] rows[j].1.time < min,
        start < rows.len() ==> rows[start].1.time >= min,
    ensures
        skip_below(rows, min) == rows.subrange(start, rows.len() as int),
    decreases start,
{
    if start == 0 {
        assert(rows.subrange(0, rows.len() as int) =~= rows);
    } else {
        assert(rows[0].1.time < min);
        let r = rows.drop_first();
        assert forall|j: int| 0 <= j < start - 1 implies #[trigger] r[j].1.time < min by {
            assert(r[j] == rows[j + 1]);
        }
        lemma_skip_at(r, start - 1, min);
        assert(r.subrange(start - 1, r.len() as int) =~= rows.subrange(start, rows.len() as int));
    }
}

/// In sorted `d`, skipping the rows older than `min` leaves those from
/// `start`, the first offset not older than `min`.
pub proof fn lemma_skip_sorted<T>(ci: int, d: Seq<TimeData<T>>, start: int, min: Time)
    requires
        is_sorted(d),
        0 <= start <= d.len(),
        start > 0 ==> d[start - 1].time < min,
        start < d.len() ==> d[start].time >= min,
    ensures
        skip_below(rows_of(ci, d), min) == rows_of(ci, d).subrange(start, d.len() as int),
{
    let rows = rows_of(ci, d);
    assert forall|j: int| 0 <= j < start implies #[trigger] rows[j].1.time < min by {
        assert(d[j].time <= d[start - 1].time);
    }
    lemma_skip_at(rows, start, min);
}

/// What the first `m` chunks offer to a query is a prefix of what the first `n` offer.
pub proof fn lemma_old_rows_prefix<T>(chunks: Seq<ChunkView<T>>, m: int, n: int, amin: Time, amax: Time)
    requires
        0 <= m <= n,
    ensures
        old_rows(chunks, m, amin, amax).len() <= old_rows(chunks, n, amin, amax).len(),
        old_rows(chunks, n, amin, amax) == old_rows(chunks, m, amin, amax) + old_rows(
            chunks,
            n,
            amin,
            amax,
        ).subrange(old_rows(chunks, m, amin, amax).len() as int, old_rows(chunks, n, amin, amax).len() as int),
    decreases n - m,
{
    let a = old_rows(chunks, m, amin, amax);
    let c = old_rows(chunks, n, amin, amax);
    if m == n {
        assert(c.subrange(a.len() as int, c.len() as int) =~= Seq::<(u64, TimeData<T>)>::empty());
        assert(c =~= a + Seq::<(u64, TimeData<T>)>::empty());
    } else {
        lemma_old_rows_prefix(chunks, m, n - 1, amin, amax);
        let b = old_rows(chunks, n - 1, amin, amax);
        assert(c == b + chunk_rows(chunks, n - 1, amin, amax));
        assert(c =~= a + c.subrange(a.len() as int, c.len() as int));
    }
}

/// Chunks that end before the window offer nothing to a query.
pub proof fn lemma_old_rows_before<T>(chunks: Seq<ChunkView<T>>, n: int, amin: Time, amax: Time)
    requires
        0 <= n <= chunks.len(),
        forall|k: int| 0 <= k < n ==> (#[trigger] chunks[k]).wf() && chunks[k].max < amin,
    ensures
        old_rows(chunks, n, amin, amax) == Seq::<(u64, TimeData<T>)>::empty(),
    decreases n,
{
    if n > 0 {
        lemma_old_rows_before(chunks, n - 1, amin, amax);
        let c = chunks[n - 1];
        assert(c.wf());
        match c.data {
            Some(d) => {
                assert(d.last().time == c.max);
                lemma_skip_sorted(n - 1, d, d.len() as int, amin);
                assert(chunk_rows(chunks, n - 1, amin, amax) =~= Seq::<(u64, TimeData<T>)>::empty());
            },
            None => {},
        }
        assert(old_rows(chunks, n, amin, amax) =~= Seq::<(u64, TimeData<T>)>::empty());
    }
}

/// Chunks that start after the window offer nothing to a query.
pub proof fn lemma_old_rows_after<T>(chunks: Seq<ChunkView<T>>, i: int, n: int, amin: Time, amax: Time)
    requires
        0 <= i <= n <= chunks.len(),
        forall|k: int| i <= k < n ==> (#[trigger] chunks[k]).min > amax,
    ensures
        old_rows(chunks, n, amin, amax) == old_rows(chunks, i, amin, amax),
    decreases n - i,
{
    if n > i {
        lemma_old_rows_after(chunks, i, n - 1, amin, amax);
        assert(chunks[n - 1].min > amax);
        assert(chunk_rows(chunks, n - 1, amin, amax) =~= Seq::<(u64, TimeData<T>)>::empty());
        assert(old_rows(chunks, n, amin, amax) =~= old_rows(chunks, n - 1, amin, amax));
    }
}

/// No more chunks are loaded than exist.
pub proof fn lemma_loaded_len<T>(v: MemDBView<T>)
    requires
        v.wf(),
    ensures
        v.loaded.len() <= v.chunks.len(),
{
    let li = v.loaded.map_values(|x: usize| x as int);
    assert forall|a: int, b: int| 0 <= a < b < li.len() implies li[a] != li[b] by {
        assert(v.loaded[a] != v.loaded[b]);
    }
    let range = vstd::set_lib::set_int_range(0, v.chunks.len() as int);
    vstd::set_lib::lemma_int_range(0, v.chunks.len() as int);
    assert forall|x: int| li.to_set().contains(x) implies range.contains(x) by {
        let j = choose|j: int| 0 <= j < li.len() && li[j] == x;
        assert(v.loaded[j] < v.chunks.len());
    }
    vstd::set_lib::lemma_len_subset(li.to_set(), range);
    li.unique_seq_to_set();
}

/// How the leading entries older than `t` of `a + b` split between the parts.
pub proof fn lemma_count_below_concat<T>(a: Seq<TimeData<T>>, b: Seq<TimeData<T>>, t: Time)
    ensures
        count_below(a, t) <= a.len(),
        count_below(a + b, t) == if count_below(a, t) == a.len() {
            a.len() + count_below(b, t)
        } else {
            count_below(a, t)
        },
    decreases a.len(),
{
    if a.len() == 0 {
        assert(a + b =~= b);
    } else {
        assert((a + b)[0] == a[0]);
        assert((a + b).drop_first() =~= a.drop_first() + b);
        lemma_count_below_concat(a.drop_first(), b, t);
    }
}

/// In sorted `d`, the leading entries older than `t` end where `t` would go.
pub proof fn lemma_count_below_at<T>(d: Seq<TimeData<T>>, i: int, t: Time)
    requires
        is_sorted(d),
        0 <= i <= d.len(),
        i > 0 ==> d[i - 1].time < t,
        i < d.len() ==> d[i].time >= t,
    ensures
        count_below(d, t) == i,
    decreases i,
{
    if i > 0 {
        assert(d[0].time <= d[i - 1].time);
        let r = d.drop_first();
        assert forall|a: int, b: int| 0 <= a <= b < r.len() implies r[a].time <= r[b].time by {
            assert(r[a] == d[a + 1] && r[b] == d[b + 1]);
        }
        if i - 1 > 0 {
            assert(r[i - 2] == d[i - 1]);
        }
        if i - 1 < r.len() {
            assert(r[i - 1] == d[i]);
        }
        lemma_count_below_at(r, i - 1, t);
    }
}

/// The leading entries older than `t` are older than `t`, and the next is not.
pub proof fn lemma_count_below_split<T>(s: Seq<TimeData<T>>, t: Time)
    ensures
        count_below(s, t) <= s.len(),
        forall|j: int| 0 <= j < count_below(s, t) ==> #[trigger] s[j].time < t,
        count_below(s, t) < s.len() ==> s[count_below(s, t) as int].time >= t,
    decreases s.len(),
{
    if s.len() > 0 && s[0].time < t {
        let r = s.drop_first();
        lemma_count_below_split(r, t);
        assert forall|j: int| 0 <= j < count_below(s, t) implies #[trigger] s[j].time < t by {
            if j > 0 {
                assert(s[j] == r[j - 1]);
            }
        }
        if count_below(s, t) < s.len() {
            assert(s[count_below(s, t) as int] == r[count_below(r, t) as int]);
        }
    }
}

/// The entries of the first `n` chunks are in time order and end no later
/// than the last of those chunks.
pub proof fn lemma_loaded_entries_bounds<T>(chunks: Seq<ChunkView<T>>, n: int)
    requires
        0 <= n <= chunks.len(),
        forall|k: int| 0 <= k < chunks.len() ==> (#[trigger] chunks[k]).wf(),
        forall|k: int, l: int| 0 <= k < l < chunks.len() ==> chunks[k].max <= chunks[l].min,
    ensures
        is_sorted(loaded_entries(chunks, n)),
        n > 0 ==> forall|j: int|
            0 <= j < loaded_entries(chunks, n).len() ==> #[trigger] loaded_entries(chunks, n)[j].time
                <= chunks[n - 1].max,
    decreases n,
{
    if n > 0 {
        lemma_loaded_entries_bounds(chunks, n - 1);
        let a = loaded_entries(chunks, n - 1);
        let c = chunks[n - 1];
        assert(c.wf());
        let d = match c.data {
            Some(d) => d,
            None => Seq::empty(),
        };
        let e = a + d;
        assert(e == loaded_entries(chunks, n));
        assert forall|j: int| 0 <= j < d.len() implies c.min <= #[trigger] d[j].time <= c.max by {
            assert(d[0].time <= d[j].time <= d[d.len() - 1].time);
        }
        if n > 1 {
            assert(chunks[n - 2].max <= c.min);
        }
        assert forall|j: int| 0 <= j < e.len() implies #[trigger] e[j].time <= c.max by {
            if j < a.len() {
                assert(e[j] == a[j]);
                assert(chunks[n - 2].max <= c.min);
            } else {
                assert(e[j] == d[j - a.len()]);
            }
        }
        assert forall|i: int, j: int| 0 <= i <= j < e.len() implies e[i].time <= e[j].time by {
            if j < a.len() {
                assert(e[i] == a[i] && e[j] == a[j]);
            } else if i >= a.len() {
                assert(e[i] == d[i - a.len()] && e[j] == d[j - a.len()]);
            } else {
                assert(e[i] == a[i] && e[j] == d[j - a.len()]);
                assert(chunks[n - 2].max <= c.min);
            }
        }
    }
}

/// Everything held in memory is in time order.
pub proof fn lemma_entries_sorted<T>(v: MemDBView<T>)
    requires
        v.wf(),
    ensures
        is_sorted(v.entries()),
{
    let n = v.chunks.len() as int;
    lemma_loaded_entries_bounds(v.chunks, n);
    let a = loaded_entries(v.chunks, n);
    let e = a + v.current;
    assert forall|i: int, j: int| 0 <= i <= j < e.len() implies e[i].time <= e[j].time by {
        if j < a.len() {
            assert(e[i] == a[i] && e[j] == a[j]);
        } else if i >= a.len() {
            assert(e[i] == v.current[i - a.len()] && e[j] == v.current[j - a.len()]);
        } else {
            assert(e[i] == a[i] && e[j] == v.current[j - a.len()]);
            assert(a[i].time <= v.chunks[n - 1].max);
        }
    }
}

/// A loaded chunk holds at most `SWAP_THRESHOLD` entries.
pub proof fn lemma_loaded_entries_len<T>(chunks: Seq<ChunkView<T>>, n: int)
    requires
        0 <= n <= chunks.len(),
        forall|k: int| 0 <= k < chunks.len() ==> (#[trigger] chunks[k]).wf(),
    ensures
        loaded_entries(chunks, n).len() <= n * SWAP_THRESHOLD,
    decreases n,
{
    if n > 0 {
        lemma_loaded_entries_len(chunks, n - 1);
        assert(chunks[n - 1].wf());
    }
}

/// A window of positions over `a + b` is the matching windows over `a` and `b`.
pub proof fn lemma_subrange_concat<A>(a: Seq<A>, b: Seq<A>, lo: int, hi: int)
    requires
        lo <= hi,
    ensures
        (a + b).subrange(clip(lo, (a + b).len() as int), clip(hi, (a + b).len() as int)) =~= a.subrange(
            clip(lo, a.len() as int),
            clip(hi, a.len() as int),
        ) + b.subrange(clip(lo - a.len(), b.len() as int), clip(hi - a.len(), b.len() as int)),
{
}

/// The entries of the first `k` chunks are a prefix of those of the first `n`;
/// the rest start no earlier than the chunks they come from.
pub proof fn lemma_loaded_entries_split<T>(chunks: Seq<ChunkView<T>>, k: int, n: int, t: Time)
    requires
        0 <= k <= n <= chunks.len(),
        forall|j: int| 0 <= j < chunks.len() ==> (#[trigger] chunks[j]).wf(),
    ensures
        loaded_entries(chunks, k).len() <= loaded_entries(chunks, n).len(),
        loaded_entries(chunks, n) == loaded_entries(chunks, k) + loaded_entries(chunks, n).subrange(
            loaded_entries(chunks, k).len() as int,
            loaded_entries(chunks, n).len() as int,
        ),
        (forall|j: int| k <= j < n ==> #[trigger] chunks[j].min >= t) ==> forall|i: int|
            loaded_entries(chunks, k).len() <= i < loaded_entries(chunks, n).len()
                ==> #[trigger] loaded_entries(chunks, n)[i].time >= t,
    decreases n - k,
{
    let a = loaded_entries(chunks, k);
    let c = loaded_entries(chunks, n);
    if k == n {
        assert(c =~= a + c.subrange(a.len() as int, c.len() as int));
    } else {
        lemma_loaded_entries_split(chunks, k, n - 1, t);
        let b = loaded_entries(chunks, n - 1);
        let ch = chunks[n - 1];
        assert(ch.wf());
        let d = match ch.data {
            Some(d) => d,
            None => Seq::empty(),
        };
        assert(c == b + d);
        assert(c =~= a + c.subrange(a.len() as int, c.len() as int));
        if forall|j: int| k <= j < n ==> #[trigger] chunks[j].min >= t {
            assert(chunks[n - 1].min >= t);
            assert forall|i: int| a.len() <= i < c.len() implies #[trigger] c[i].time >= t by {
                if i < b.len() {
                    assert(c[i] == b[i]);
                } else {
                    assert(c[i] == d[i - b.len()]);
                    assert(d[0].time <= d[i - b.len()].time);
                }
            }
        }
    }
}

/// Access times play no part in well-formedness.
pub proof fn lemma_wf_same_contents<T>(o: MemDBView<T>, v: MemDBView<T>)
    requires
        o.wf(),
        v.chunks.len() == o.chunks.len(),
        v.current == o.current,
        v.max == o.max,
        v.loaded == o.loaded,
        forall|k: int|
            0 <= k < o.chunks.len() ==> (#[trigger] v.chunks[k]).data == o.chunks[k].data
                && v.chunks[k].min == o.chunks[k].min && v.chunks[k].max == o.chunks[k].max,
    ensures
        v.wf(),
{
    assert forall|k: int| 0 <= k < v.chunks.len() implies (#[trigger] v.chunks[k]).wf() by {
        assert(o.chunks[k].wf());
    }
    assert forall|k: int, l: int| 0 <= k < l < v.chunks.len() implies v.chunks[k].max <= v.chunks[l].min by {
        assert(v.chunks[k].max == o.chunks[k].max);
        assert(v.chunks[l].min == o.chunks[l].min);
    }
    assert forall|k: int, j: int|
        0 <= k < v.chunks.len() && 0 <= j < v.current.len() implies v.chunks[k].max <= v.current[j].time by {
        assert(v.chunks[k].max == o.chunks[k].max);
    }
    assert forall|k: int| 0 <= k < v.chunks.len() implies v.chunks[k].max <= v.max by {
        assert(v.chunks[k].max == o.chunks[k].max);
    }
    assert forall|k: int| 0 <= k < v.chunks.len() implies (v.loaded.contains(k as usize) <==> (
    #[trigger] v.chunks[k]).is_loaded()) by {
        assert(v.chunks[k].data == o.chunks[k].data);
        assert(o.loaded.contains(k as usize) <==> o.chunks[k].is_loaded());
    }
}

} // verus!
