//! The time-series engine: for every tag-set identity a list of slabs, each
//! slab a window of time with the samples that were appended to it.
use vstd::prelude::*;
use vstd::hash_map::StringHashMap;
use chrono::{DateTime, Utc};
use crate::identity::{canonical_id, lemma_id_tells_plain_tags_apart, plain};
use crate::series::{
    ascending, lemma_sorted_by_time, lemma_sorted_distinct_times, sort_by_time,
    sorted_by_time, strictly_ascending, times_of, unzip, values_of,
};
use crate::tags::TagSet;

verus! {

/// The settings of an engine.
pub struct Config {
    /// The width of the window of every slab that the engine creates.
    pub slab_duration: i64,
}

/// A slab as a plain value: its window `[start_time, start_time + duration)`,
/// its points in the order in which they were appended, and the clock
/// reading of its last write.
pub struct SlabModel<T> {
    pub start_time: i64,
    pub duration: i64,
    pub points: Seq<(i64, T)>,
    pub last_modified: Option<i64>,
}

/// What an engine holds: for each identity its slabs, in the order in which
/// they were created.
pub type State<T> = Map<Seq<char>, Seq<SlabModel<T>>>;

/// A slab without points.
pub open spec fn fresh_slab<T>(start_time: i64, duration: i64, now: Option<i64>) -> SlabModel<T> {
    SlabModel { start_time, duration, points: Seq::empty(), last_modified: now }
}

/// The slab after one more point was appended at the clock reading `now`.
pub open spec fn appended<T>(slab: SlabModel<T>, time: i64, value: T, now: Option<i64>)
    -> SlabModel<T> {
    SlabModel {
        start_time: slab.start_time,
        duration: slab.duration,
        points: slab.points.push((time, value)),
        last_modified: now,
    }
}

/// Whether a write at `time` goes into this slab: the slab has started, and
/// its window has ended before `time`.
pub open spec fn accepts<T>(slab: SlabModel<T>, time: i64) -> bool {
    slab.start_time <= time && slab.start_time + slab.duration < time
}

/// The position of the first slab at or after `from` that accepts `time`;
/// the number of slabs where none does.
pub open spec fn first_accepting<T>(slabs: Seq<SlabModel<T>>, time: i64, from: int) -> int
    decreases slabs.len() - from,
{
    if from < 0 || from >= slabs.len() {
        slabs.len() as int
    } else if accepts(slabs[from], time) {
        from
    } else {
        first_accepting(slabs, time, from + 1)
    }
}

/// The slabs of one identity after a write: the point goes into the first
/// slab that accepts its time, or into a new slab that starts at its time.
pub open spec fn slabs_written<T>(
    slabs: Seq<SlabModel<T>>,
    duration: i64,
    time: i64,
    value: T,
    now: Option<i64>,
) -> Seq<SlabModel<T>> {
    let k = first_accepting(slabs, time, 0);
    if k < slabs.len() {
        slabs.update(k, appended(slabs[k], time, value, now))
    } else {
        slabs.push(appended(fresh_slab(time, duration, now), time, value, now))
    }
}

/// The slab that a write at `time` goes into, before the write: the first
/// one that accepts the time, or a new one.
pub open spec fn taking_slab<T>(slabs: Seq<SlabModel<T>>, duration: i64, time: i64) -> SlabModel<
    T,
> {
    let k = first_accepting(slabs, time, 0);
    if k < slabs.len() {
        slabs[k]
    } else {
        fresh_slab(time, duration, None)
    }
}

/// The slabs of an identity; none for an identity that was never written.
pub open spec fn slabs_of<T>(state: State<T>, id: Seq<char>) -> Seq<SlabModel<T>> {
    if state.contains_key(id) {
        state[id]
    } else {
        Seq::empty()
    }
}

/// The state after a write to the identity `id`.
pub open spec fn written<T>(
    state: State<T>,
    duration: i64,
    id: Seq<char>,
    time: i64,
    value: T,
    now: Option<i64>,
) -> State<T> {
    state.insert(id, slabs_written(slabs_of(state, id), duration, time, value, now))
}

/// Whether the window of a slab overlaps the window `[start, stop)` of a
/// read.
pub open spec fn overlaps<T>(slab: SlabModel<T>, start: i64, stop: i64) -> bool {
    !(slab.start_time >= stop || slab.start_time + slab.duration <= start)
}

/// Whether a point lies in the window `[start, stop)`, as a predicate.
pub open spec fn in_window<T>(start: i64, stop: i64) -> spec_fn((i64, T)) -> bool {
    |p: (i64, T)| start <= p.0 < stop
}

/// What a read takes from one slab: nothing if the slab does not overlap
/// the window, else its points that lie in the window.
pub open spec fn slab_window<T>(slab: SlabModel<T>, start: i64, stop: i64) -> Seq<(i64, T)> {
    if overlaps(slab, start, stop) {
        slab.points.filter(in_window(start, stop))
    } else {
        Seq::empty()
    }
}

/// What a read takes from the slabs of one identity, slab after slab.
pub open spec fn window_points<T>(slabs: Seq<SlabModel<T>>, start: i64, stop: i64) -> Seq<
    (i64, T),
>
    decreases slabs.len(),
{
    if slabs.len() == 0 {
        Seq::empty()
    } else {
        window_points(slabs.drop_last(), start, stop) + slab_window(slabs.last(), start, stop)
    }
}

/// The series that a read of the window `[start, stop)` returns for the
/// identity `id`: the points taken from its slabs, sorted by time.
pub open spec fn series<T>(state: State<T>, id: Seq<char>, start: i64, stop: i64) -> Seq<
    (i64, T),
> {
    sorted_by_time(window_points(slabs_of(state, id), start, stop))
}

/// Reads the wall clock with `SystemTime::now`, makes a date of the reading
/// with chrono's `From<SystemTime>` for `DateTime<Utc>`, and turns the date
/// into nanoseconds since the Unix epoch with `DateTime::timestamp_nanos_opt`,
/// which gives `None` for a date that an `i64` of nanoseconds cannot hold.
/// The reading depends on the moment of the call, so nothing is claimed of
/// it. A clock that stands before the Unix epoch gives a date before 1970
/// like any other; the conversion fails only for a clock beyond the years
/// that chrono can count, some 262,000 to either side of the epoch.
#[verifier::external_body]
fn clock_nanos() -> (reading: Option<i64>) {
    DateTime::<Utc>::from(std::time::SystemTime::now()).timestamp_nanos_opt()
}

/// A window of time for one identity, with the samples appended to it: two
/// sequences of one length, the value at a position belonging to the
/// timestamp at that position.
pub struct Slab<T> {
    start_time: i64,
    duration: i64,
    times: Vec<i64>,
    values: Vec<T>,
    last_modified_time: Option<i64>,
}

impl<T> View for Slab<T> {
    type V = SlabModel<T>;

    closed spec fn view(&self) -> SlabModel<T> {
        SlabModel {
            start_time: self.start_time,
            duration: self.duration,
            points: Seq::new(self.times.len() as nat, |i: int| (self.times[i], self.values[i])),
            last_modified: self.last_modified_time,
        }
    }
}

impl<T> Slab<T> {
    /// There are as many values as timestamps.
    pub closed spec fn wf(&self) -> bool {
        self.times.len() == self.values.len()
    }

    /// A slab without samples, made at the clock reading `now`.
    pub fn new(start_time: i64, duration: i64, now: Option<i64>) -> (slab: Slab<T>)
        ensures
            slab.wf(),
            slab@ == fresh_slab::<T>(start_time, duration, now),
    {
        let slab = Slab {
            start_time,
            duration,
            times: Vec::new(),
            values: Vec::new(),
            last_modified_time: now,
        };
        assert(slab@.points =~= Seq::<(i64, T)>::empty());
        slab
    }

    /// Appends a sample, at the clock reading `now`.
    pub fn write(&mut self, time: i64, value: T, now: Option<i64>)
        requires
            old(self).wf(),
        ensures
            final(self).wf(),
            final(self)@ == appended(old(self)@, time, value, now),
    {
        self.times.push(time);
        self.values.push(value);
        self.last_modified_time = now;
        assert(self@.points =~= old(self)@.points.push((time, value)));
    }

    /// Whether a write at `time` goes into this slab.
    pub fn accepts(&self, time: i64) -> (r: bool)
        ensures
            r == accepts(self@, time),
    {
        self.start_time <= time && (self.start_time as i128) + (self.duration as i128) < (
        time as i128)
    }

    /// Whether the window of this slab overlaps the window `[start, stop)`.
    pub fn overlaps(&self, start: i64, stop: i64) -> (r: bool)
        ensures
            r == overlaps(self@, start, stop),
    {
        !(self.start_time >= stop || (self.start_time as i128) + (self.duration as i128) <= (
        start as i128))
    }
}

impl<T: Copy> Slab<T> {
    /// Appends to `points` what a read of the window `[start, stop)` takes
    /// from this slab.
    pub fn collect(&self, start: i64, stop: i64, points: &mut Vec<(i64, T)>)
        requires
            self.wf(),
        ensures
            final(points)@ == old(points)@ + slab_window(self@, start, stop),
    {
        broadcast use Seq::lemma_filter_push;

        if !self.overlaps(start, stop) {
            assert(points@ =~= old(points)@ + Seq::<(i64, T)>::empty());
            return ;
        }
        let ghost all = self@.points;
        let ghost pred = in_window::<T>(start, stop);
        let mut i: usize = 0;
        assert(all.take(0) =~= Seq::<(i64, T)>::empty());
        assert(all.take(0).filter(pred) =~= Seq::<(i64, T)>::empty()) by {
            all.take(0).lemma_filter_len(pred);
        }
        assert(points@ =~= old(points)@ + all.take(0).filter(pred));
        while i < self.times.len()
            invariant
                self.wf(),
                0 <= i <= self.times.len(),
                all == self@.points,
                pred == in_window::<T>(start, stop),
                points@ == old(points)@ + all.take(i as int).filter(pred),
            decreases self.times.len() - i,
        {
            let time = self.times[i];
            proof {
                assert(all[i as int] == (time, self.values[i as int]));
                assert(all.take(i + 1) =~= all.take(i as int).push(all[i as int]));
                all.take(i as int).lemma_filter_push(all[i as int], pred);
                assert(pred(all[i as int]) == (start <= time < stop));
            }
            if time >= start && time < stop {
                points.push((time, self.values[i]));
            }
            assert(points@ =~= old(points)@ + all.take(i + 1).filter(pred));
            i += 1;
        }
        assert(all.take(self.times.len() as int) =~= all);
    }
}

/// The slabs of a list as plain values.
pub open spec fn models<T>(slabs: Seq<Slab<T>>) -> Seq<SlabModel<T>> {
    slabs.map_values(|slab: Slab<T>| slab@)
}

/// The engine. `T` is the type of the values of the samples, which the
/// engine stores and hands back, and never looks into.
pub struct DB<T> {
    config: Config,
    /// For each identity, the position of its slabs in `series`.
    index: StringHashMap<usize>,
    series: Vec<Vec<Slab<T>>>,
}

/// The engine under the name of the crate.
pub type TinyTSDB<T> = DB<T>;

impl<T> View for DB<T> {
    type V = State<T>;

    closed spec fn view(&self) -> State<T> {
        Map::new(
            |id: Seq<char>| self.index@.contains_key(id),
            |id: Seq<char>| models(self.series@[self.index@[id] as int]@),
        )
    }
}

impl<T: Copy> DB<T> {
    /// Every identity has slabs of its own, and every slab is well formed.
    pub closed spec fn wf(&self) -> bool {
        &&& forall|id: Seq<char>| #[trigger]
            self.index@.contains_key(id) ==> self.index@[id] < self.series.len()
        &&& forall|a: Seq<char>, b: Seq<char>|
            #![trigger self.index@[a], self.index@[b]]
            self.index@.contains_key(a) && self.index@.contains_key(b) && self.index@[a]
                == self.index@[b] ==> a == b
        &&& forall|i: int, j: int|
            0 <= i < self.series.len() && 0 <= j < self.series[i].len() ==> (
            #[trigger] self.series[i][j]).wf()
    }

    /// The width of the window of the slabs that this engine creates.
    pub closed spec fn slab_duration(&self) -> i64 {
        self.config.slab_duration
    }

    /// An engine that holds nothing.
    pub fn new(config: Config) -> (db: DB<T>)
        ensures
            db.wf(),
            db.slab_duration() == config.slab_duration,
            db@ == Map::<Seq<char>, Seq<SlabModel<T>>>::empty(),
    {
        let db = DB { config, index: StringHashMap::new(), series: Vec::new() };
        assert(db@ =~= Map::<Seq<char>, Seq<SlabModel<T>>>::empty());
        db
    }

    /// Finds the slabs of an identity, and gives it an empty list of slabs
    /// if it has none.
    fn locate(&mut self, id: String) -> (at: usize)
        requires
            old(self).wf(),
        ensures
            final(self).wf(),
            final(self).slab_duration() == old(self).slab_duration(),
            final(self).index@.contains_key(id@),
            final(self).index@[id@] == at,
            final(self)@ == old(self)@.insert(id@, slabs_of(old(self)@, id@)),
    {
        let ghost before = *self;
        match self.index.get(id.as_str()) {
            Some(at) => {
                assert(self@ =~= before@.insert(id@, slabs_of(before@, id@)));
                *at
            },
            None => {
                let at = self.series.len();
                let ghost key = id@;
                self.series.push(Vec::new());
                self.index.insert(id, at);
                proof {
                    assert(models(self.series@[at as int]@) =~= Seq::<SlabModel<T>>::empty());
                    assert forall|other: Seq<char>| self@.contains_key(other) implies self@[other]
                        == before@.insert(key, slabs_of(before@, key))[other] by {
                        if other != key {
                            assert(before.index@.contains_key(other));
                            assert(self.series@[before.index@[other] as int]
                                == before.series@[before.index@[other] as int]);
                        }
                    }
                    assert(self@ =~= before@.insert(key, slabs_of(before@, key)));
                }
                at
            },
        }
    }

    /// Appends a sample to the slabs at position `at`, which are those of
    /// the identity `key`.
    fn store(&mut self, Ghost(key): Ghost<Seq<char>>, at: usize, time: i64, value: T, now: Option<
        i64,
    >)
        requires
            old(self).wf(),
            old(self).index@.contains_key(key),
            old(self).index@[key] == at,
        ensures
            final(self).wf(),
            final(self).slab_duration() == old(self).slab_duration(),
            final(self)@ == old(self)@.insert(
                key,
                slabs_written(old(self)@[key], old(self).slab_duration(), time, value, now),
            ),
    {
        let ghost before = *self;
        let ghost slabs = models(self.series@[at as int]@);
        let n = self.series[at].len();
        let mut k: usize = 0;
        while k < n && !self.series[at][k].accepts(time)
            invariant
                *self == before,
                at < self.series.len(),
                n == self.series[at as int].len(),
                slabs == models(self.series@[at as int]@),
                0 <= k <= n,
                first_accepting(slabs, time, 0) == first_accepting(slabs, time, k as int),
            decreases n - k,
        {
            k += 1;
        }
        if k < n {
            self.series[at][k].write(time, value, now);
        } else {
            let mut slab = Slab::new(time, self.config.slab_duration, now);
            slab.write(time, value, now);
            self.series[at].push(slab);
        }
        proof {
            let after = slabs_written(slabs, before.slab_duration(), time, value, now);
            assert(models(self.series@[at as int]@) =~= after);
            assert forall|other: Seq<char>| self@.contains_key(other) implies self@[other]
                == before@.insert(key, after)[other] by {
                if other != key {
                    assert(before.index@[other] != before.index@[key]);
                    assert(self.series@[before.index@[other] as int]
                        == before.series@[before.index@[other] as int]);
                }
            }
            assert(self@ =~= before@.insert(key, after));
        }
    }

    /// Appends a sample to the slabs of a tag set, at the clock reading
    /// `now`: into the first slab that accepts its time, or into a new slab
    /// that starts at its time.
    pub fn write_at(&mut self, tag_set: &TagSet, time: i64, value: T, now: Option<i64>)
        requires
            old(self).wf(),
            tag_set.wf(),
        ensures
            final(self).wf(),
            final(self).slab_duration() == old(self).slab_duration(),
            final(self)@ == written(
                old(self)@,
                old(self).slab_duration(),
                canonical_id(tag_set@),
                time,
                value,
                now,
            ),
    {
        let ghost before = *self;
        let id = tag_set.id();
        let ghost key = id@;
        let at = self.locate(id);
        let ghost located = *self;
        self.store(Ghost(key), at, time, value, now);
        proof {
            let after = slabs_written(
                slabs_of(before@, key),
                before.slab_duration(),
                time,
                value,
                now,
            );
            assert(located@[key] == slabs_of(before@, key));
            assert(self@ =~= before@.insert(key, after));
        }
    }

    /// Appends a sample to the slabs of a tag set, and stamps the slab with
    /// the time of the wall clock.
    pub fn write(&mut self, tag_set: &TagSet, time: i64, value: T)
        requires
            old(self).wf(),
            tag_set.wf(),
        ensures
            final(self).wf(),
            final(self).slab_duration() == old(self).slab_duration(),
            exists|now: Option<i64>|
                final(self)@ == written(
                    old(self)@,
                    old(self).slab_duration(),
                    canonical_id(tag_set@),
                    time,
                    value,
                    now,
                ),
    {
        let now = clock_nanos();
        self.write_at(tag_set, time, value, now);
    }

    /// The series of a tag set in the window `[start_time, stop_time)`: the
    /// timestamps in ascending order, and the value of each.
    pub fn read(&self, tag_set: &TagSet, start_time: i64, stop_time: i64) -> (r: (Vec<i64>, Vec<T>))
        requires
            self.wf(),
            tag_set.wf(),
        ensures
            r.0@ == times_of(series(self@, canonical_id(tag_set@), start_time, stop_time)),
            r.1@ == values_of(series(self@, canonical_id(tag_set@), start_time, stop_time)),
            r.0.len() == r.1.len(),
            ascending(r.0@),
            !self@.contains_key(canonical_id(tag_set@)) ==> r.0.len() == 0,
    {
        let id = tag_set.id();
        let ghost wanted = window_points(slabs_of(self@, id@), start_time, stop_time);
        proof {
            lemma_sorted_by_time(wanted);
        }
        let at = match self.index.get(id.as_str()) {
            Some(at) => *at,
            None => {
                let times: Vec<i64> = Vec::new();
                let values: Vec<T> = Vec::new();
                assert(times@ =~= times_of(sorted_by_time(wanted)));
                assert(values@ =~= values_of(sorted_by_time(wanted)));
                return (times, values);
            },
        };
        let slabs = &self.series[at];
        let ghost listed = models(slabs@);
        let mut points: Vec<(i64, T)> = Vec::new();
        let mut i: usize = 0;
        assert(listed.take(0) =~= Seq::<SlabModel<T>>::empty());
        while i < slabs.len()
            invariant
                0 <= i <= slabs.len(),
                listed == models(slabs@),
                forall|j: int| 0 <= j < slabs.len() ==> (#[trigger] slabs[j]).wf(),
                points@ == window_points(listed.take(i as int), start_time, stop_time),
            decreases slabs.len() - i,
        {
            assert(listed.take(i + 1).drop_last() =~= listed.take(i as int));
            slabs[i].collect(start_time, stop_time, &mut points);
            i += 1;
        }
        assert(listed.take(slabs.len() as int) =~= listed);
        let sorted = sort_by_time(&points);
        unzip(&sorted)
    }

    /// Does nothing: the engine keeps its state in memory only.
    pub fn flush(&self) {
    }
}

/// A write to one identity leaves the series of every other identity as it
/// was, whatever the window.
pub proof fn lemma_write_leaves_other_series<T>(
    state: State<T>,
    duration: i64,
    id: Seq<char>,
    time: i64,
    value: T,
    now: Option<i64>,
    other: Seq<char>,
    start: i64,
    stop: i64,
)
    requires
        other != id,
    ensures
        series(written(state, duration, id, time, value, now), other, start, stop) == series(
            state,
            other,
            start,
            stop,
        ),
{
    assert(slabs_of(written(state, duration, id, time, value, now), other) == slabs_of(
        state,
        other,
    ));
}

/// The first accepting slab, if there is one, stands at or after `from`.
pub proof fn lemma_first_accepting_bounds<T>(slabs: Seq<SlabModel<T>>, time: i64, from: int)
    requires
        0 <= from <= slabs.len(),
    ensures
        from <= first_accepting(slabs, time, from) <= slabs.len(),
    decreases slabs.len() - from,
{
    if from < slabs.len() && !accepts(slabs[from], time) {
        lemma_first_accepting_bounds(slabs, time, from + 1);
    }
}

/// What a read takes from one slab is among what it takes from all.
proof fn lemma_slab_window_is_taken<T>(
    slabs: Seq<SlabModel<T>>,
    k: int,
    start: i64,
    stop: i64,
    p: (i64, T),
)
    requires
        0 <= k < slabs.len(),
        slab_window(slabs[k], start, stop).contains(p),
    ensures
        window_points(slabs, start, stop).contains(p),
    decreases slabs.len(),
{
    let head = window_points(slabs.drop_last(), start, stop);
    let tail = slab_window(slabs.last(), start, stop);
    if k == slabs.len() - 1 {
        let j = tail.index_of(p);
        assert((head + tail)[head.len() + j] == p);
    } else {
        assert(slabs.drop_last()[k] == slabs[k]);
        lemma_slab_window_is_taken(slabs.drop_last(), k, start, stop, p);
        let j = head.index_of(p);
        assert((head + tail)[j] == p);
    }
}

/// A point that was written is read back by every read whose window holds
/// the time of the point and overlaps the window of the slab that the point
/// went into.
pub proof fn lemma_written_point_is_read<T>(
    state: State<T>,
    duration: i64,
    id: Seq<char>,
    time: i64,
    value: T,
    now: Option<i64>,
    start: i64,
    stop: i64,
)
    requires
        start <= time < stop,
        overlaps(taking_slab(slabs_of(state, id), duration, time), start, stop),
    ensures
        series(written(state, duration, id, time, value, now), id, start, stop).contains(
            (time, value),
        ),
{
    broadcast use Seq::lemma_filter_push;

    let before = slabs_of(state, id);
    let after = slabs_written(before, duration, time, value, now);
    let k = first_accepting(before, time, 0);
    lemma_first_accepting_bounds(before, time, 0);
    let slab = after[k];
    let p = (time, value);
    let pred = in_window::<T>(start, stop);
    assert(slab.points == taking_slab(before, duration, time).points.push(p));
    assert(pred(p));
    let kept = slab.points.filter(pred);
    assert(kept[kept.len() - 1] == p);
    assert(slab_window(slab, start, stop).contains(p));
    lemma_slab_window_is_taken(after, k, start, stop, p);
    let taken = window_points(after, start, stop);
    lemma_sorted_by_time(taken);
    taken.to_multiset_ensures();
    sorted_by_time(taken).to_multiset_ensures();
    assert(taken.to_multiset().count(p) > 0);
}

/// A write to one tag set leaves the series of every other tag set as it
/// was, where the two are plain: no equals sign in a key, no comma in a key
/// or a value.
pub proof fn lemma_write_leaves_other_tag_sets<T>(
    state: State<T>,
    duration: i64,
    tags: Map<Seq<char>, Seq<char>>,
    time: i64,
    value: T,
    now: Option<i64>,
    others: Map<Seq<char>, Seq<char>>,
    start: i64,
    stop: i64,
)
    requires
        tags.dom().finite(),
        others.dom().finite(),
        plain(tags),
        plain(others),
        others != tags,
    ensures
        series(
            written(state, duration, canonical_id(tags), time, value, now),
            canonical_id(others),
            start,
            stop,
        ) == series(state, canonical_id(others), start, stop),
{
    if canonical_id(others) == canonical_id(tags) {
        lemma_id_tells_plain_tags_apart(others, tags);
    }
    lemma_write_leaves_other_series(
        state,
        duration,
        canonical_id(tags),
        time,
        value,
        now,
        canonical_id(others),
        start,
        stop,
    );
}

/// An identity that was never written reads as the empty series, whatever
/// the window.
pub proof fn lemma_unknown_identity_reads_empty<T>(
    state: State<T>,
    id: Seq<char>,
    start: i64,
    stop: i64,
)
    requires
        !state.contains_key(id),
    ensures
        series(state, id, start, stop) == Seq::<(i64, T)>::empty(),
{
}

/// Every point that a read takes from the slabs lies in the window of the
/// read and stands in one of the slabs.
pub proof fn lemma_window_points_are_stored<T>(slabs: Seq<SlabModel<T>>, start: i64, stop: i64)
    ensures
        forall|i: int|
            0 <= i < window_points(slabs, start, stop).len() ==> {
                let p = #[trigger] window_points(slabs, start, stop)[i];
                &&& start <= p.0 < stop
                &&& exists|k: int| 0 <= k < slabs.len() && #[trigger] slabs[k].points.contains(p)
            },
    decreases slabs.len(),
{
    broadcast use Seq::lemma_filter_pred;
    broadcast use Seq::lemma_filter_contains_rev;

    if slabs.len() > 0 {
        let front = slabs.drop_last();
        let last = slabs.last();
        lemma_window_points_are_stored(front, start, stop);
        let head = window_points(front, start, stop);
        let tail = slab_window(last, start, stop);
        assert forall|i: int| 0 <= i < window_points(slabs, start, stop).len() implies {
            let p = #[trigger] window_points(slabs, start, stop)[i];
            &&& start <= p.0 < stop
            &&& exists|k: int| 0 <= k < slabs.len() && #[trigger] slabs[k].points.contains(p)
        } by {
            let p = window_points(slabs, start, stop)[i];
            if i < head.len() {
                assert(p == head[i]);
                let k = choose|k: int| 0 <= k < front.len() && #[trigger] front[k].points.contains(p);
                assert(slabs[k].points.contains(p));
            } else {
                let j = i - head.len();
                assert(p == tail[j]);
                assert(overlaps(last, start, stop));
                assert(in_window::<T>(start, stop)(last.points.filter(in_window(start, stop))[j]));
                assert(tail.contains(p));
                assert(slabs[slabs.len() - 1].points.contains(p));
            }
        }
    }
}

/// Every point of a series lies in the window that was read.
pub proof fn lemma_series_in_window<T>(state: State<T>, id: Seq<char>, start: i64, stop: i64)
    ensures
        forall|i: int|
            0 <= i < series(state, id, start, stop).len() ==> start <= (#[trigger] series(
                state,
                id,
                start,
                stop,
            )[i]).0 < stop,
{
    let taken = window_points(slabs_of(state, id), start, stop);
    let sorted = series(state, id, start, stop);
    lemma_sorted_by_time(taken);
    lemma_window_points_are_stored(slabs_of(state, id), start, stop);
    taken.to_multiset_ensures();
    sorted.to_multiset_ensures();
    assert forall|i: int| 0 <= i < sorted.len() implies start <= (#[trigger] sorted[i]).0
        < stop by {
        assert(sorted.contains(sorted[i]));
        assert(sorted.to_multiset().count(sorted[i]) > 0);
        assert(taken.contains(sorted[i]));
        let j = choose|j: int| 0 <= j < taken.len() && taken[j] == sorted[i];
        assert(start <= taken[j].0 < stop);
    }
}

/// A window in which no stored point of the identity lies reads as the
/// empty series.
pub proof fn lemma_window_without_data_reads_empty<T>(
    state: State<T>,
    id: Seq<char>,
    start: i64,
    stop: i64,
)
    requires
        forall|k: int, i: int|
            0 <= k < slabs_of(state, id).len() && 0 <= i < slabs_of(state, id)[k].points.len()
                ==> !(start <= (#[trigger] slabs_of(state, id)[k].points[i]).0 < stop),
    ensures
        series(state, id, start, stop) == Seq::<(i64, T)>::empty(),
{
    let taken = window_points(slabs_of(state, id), start, stop);
    lemma_window_points_are_stored(slabs_of(state, id), start, stop);
    if taken.len() > 0 {
        let p = taken[0];
        let k = choose|k: int|
            0 <= k < slabs_of(state, id).len() && #[trigger] slabs_of(state, id)[k].points.contains(
                p,
            );
        let i = choose|i: int|
            0 <= i < slabs_of(state, id)[k].points.len() && slabs_of(state, id)[k].points[i] == p;
        assert(!(start <= slabs_of(state, id)[k].points[i].0 < stop));
    }
    assert(taken =~= Seq::<(i64, T)>::empty());
}

/// A window that ends where it starts, or before, reads as the empty
/// series.
pub proof fn lemma_empty_window_reads_empty<T>(
    state: State<T>,
    id: Seq<char>,
    start: i64,
    stop: i64,
)
    requires
        start >= stop,
    ensures
        series(state, id, start, stop) == Seq::<(i64, T)>::empty(),
{
    lemma_series_in_window(state, id, start, stop);
    let sorted = series(state, id, start, stop);
    if sorted.len() > 0 {
        assert(start <= sorted[0].0 < stop);
    }
    assert(sorted =~= Seq::<(i64, T)>::empty());
}

/// The timestamps of a series ascend, from however many slabs its points
/// come and in whatever order these were filled.
pub proof fn lemma_series_ascending<T>(state: State<T>, id: Seq<char>, start: i64, stop: i64)
    ensures
        ascending(times_of(series(state, id, start, stop))),
{
    lemma_sorted_by_time(window_points(slabs_of(state, id), start, stop));
}

/// Where no two of the points taken have the same timestamp, the
/// timestamps of the series ascend strictly.
pub proof fn lemma_series_strictly_ascending<T>(
    state: State<T>,
    id: Seq<char>,
    start: i64,
    stop: i64,
)
    requires
        times_of(window_points(slabs_of(state, id), start, stop)).no_duplicates(),
    ensures
        strictly_ascending(times_of(series(state, id, start, stop))),
{
    lemma_sorted_distinct_times(window_points(slabs_of(state, id), start, stop));
}

} // verus!
