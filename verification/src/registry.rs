//! The registry: one exported gauge series and one last-known state per
//! sensor, keyed by sensor id, created on first sight and updated in place.
//!
//! The registry owns both maps; all access goes through its methods, and a
//! snapshot is a full point-in-time copy, never a live view.

use vstd::prelude::*;

use crate::assoc;
use crate::assoc::{find_key, has_key, idx_of, keys, lookup, put, uniq_keys};
use crate::devices::{is_sensor_name, spec_is_sensor_name};
use crate::reading::{parse_reading, reading_of};
use crate::render::{format_millis, render_lines, spec_render};

verus! {

/// One exported gauge time series: the current millidegree value for one
/// sensor id.
pub struct MetricSeries {
    pub id: String,
    pub millis: i64,
}

impl View for MetricSeries {
    type V = (Seq<char>, int);

    open spec fn view(&self) -> (Seq<char>, int) {
        (self.id@, self.millis as int)
    }
}

/// The last known state of one sensor: its latest reading and when it was
/// taken.
pub struct SensorSample {
    pub id: String,
    pub millis: i64,
    pub last_updated: u64,
}

impl View for SensorSample {
    type V = (Seq<char>, (int, int));

    open spec fn view(&self) -> (Seq<char>, (int, int)) {
        (self.id@, (self.millis as int, self.last_updated as int))
    }
}

/// One device observed during a sampling cycle: the entry name and the raw
/// status file content, or `None` if the file could not be read.
pub struct DevicePoll {
    pub name: String,
    pub content: Option<String>,
}

impl View for DevicePoll {
    type V = (Seq<char>, Option<Seq<char>>);

    open spec fn view(&self) -> (Seq<char>, Option<Seq<char>>) {
        (
            self.name@,
            match self.content {
                Some(ref c) => Some(c@),
                None => None,
            },
        )
    }
}

/// The registry of exported series and sensor states.
pub struct Registry {
    metrics: Vec<MetricSeries>,
    states: Vec<SensorSample>,
}

impl Registry {
    /// The exported series, as ordered id/value pairs.
    pub closed spec fn metrics_view(&self) -> Seq<(Seq<char>, int)> {
        self.metrics@.map_values(|m: MetricSeries| m@)
    }

    /// The sensor states, as ordered id/(value, timestamp) pairs.
    pub closed spec fn states_view(&self) -> Seq<(Seq<char>, (int, int))> {
        self.states@.map_values(|e: SensorSample| e@)
    }

    /// Each map holds at most one entry per sensor id.
    pub open spec fn wf(&self) -> bool {
        uniq_keys(self.metrics_view()) && uniq_keys(self.states_view())
    }

    pub open spec fn has_metric(&self, id: Seq<char>) -> bool {
        has_key(self.metrics_view(), id)
    }

    pub open spec fn has_state(&self, id: Seq<char>) -> bool {
        has_key(self.states_view(), id)
    }

    /// A registry with no series and no states.
    pub fn new() -> (r: Registry)
        ensures
            r.wf(),
            r.metrics_view() == Seq::<(Seq<char>, int)>::empty(),
            r.states_view() == Seq::<(Seq<char>, (int, int))>::empty(),
    {
        let r = Registry { metrics: Vec::new(), states: Vec::new() };
        proof {
            assert(r.metrics_view() =~= Seq::<(Seq<char>, int)>::empty());
            assert(r.states_view() =~= Seq::<(Seq<char>, (int, int))>::empty());
        }
        r
    }

    /// Number of registered series.
    pub fn metric_count(&self) -> (n: usize)
        ensures
            n == self.metrics_view().len(),
    {
        self.metrics.len()
    }

    /// Number of sensors with a recorded state.
    pub fn state_count(&self) -> (n: usize)
        ensures
            n == self.states_view().len(),
    {
        self.states.len()
    }

    /// Index of the series for `id`, if one is registered.
    fn find_metric(&self, id: &String) -> (o: Option<usize>)
        ensures
            match o {
                Some(h) => h as int == idx_of(self.metrics_view(), id@) && h
                    < self.metrics_view().len(),
                None => !self.has_metric(id@),
            },
    {
        let ghost mv = self.metrics_view();
        let mut ix: usize = 0;
        loop
            invariant
                mv == self.metrics_view(),
                0 <= ix <= self.metrics.len(),
                mv.len() == self.metrics.len(),
                find_key(mv, id@, 0) == find_key(mv, id@, ix as int),
            ensures
                0 <= ix <= mv.len(),
                ix < mv.len() ==> idx_of(mv, id@) == ix as int,
                ix == mv.len() ==> !has_key(mv, id@),
            decreases self.metrics.len() - ix,
        {
            if ix >= self.metrics.len() {
                break;
            }
            assert(mv[ix as int] == self.metrics@[ix as int]@);
            if self.metrics[ix].id == *id {
                break;
            }
            ix += 1;
        }
        if ix < self.metrics.len() {
            Some(ix)
        } else {
            None
        }
    }

    /// Index of the state entry for `id`, if one exists.
    fn find_state(&self, id: &String) -> (o: Option<usize>)
        ensures
            match o {
                Some(h) => h as int == idx_of(self.states_view(), id@) && h
                    < self.states_view().len(),
                None => !self.has_state(id@),
            },
    {
        let ghost sv = self.states_view();
        let mut ix: usize = 0;
        loop
            invariant
                sv == self.states_view(),
                0 <= ix <= self.states.len(),
                sv.len() == self.states.len(),
                find_key(sv, id@, 0) == find_key(sv, id@, ix as int),
            ensures
                0 <= ix <= sv.len(),
                ix < sv.len() ==> idx_of(sv, id@) == ix as int,
                ix == sv.len() ==> !has_key(sv, id@),
            decreases self.states.len() - ix,
        {
            if ix >= self.states.len() {
                break;
            }
            assert(sv[ix as int] == self.states@[ix as int]@);
            if self.states[ix].id == *id {
                break;
            }
            ix += 1;
        }
        if ix < self.states.len() {
            Some(ix)
        } else {
            None
        }
    }

    /// Return the handle of the series for `id`, registering a fresh series
    /// with value 0 first if `id` was never seen.  Registration is
    /// idempotent: an already-registered id leaves the registry unchanged.
    pub fn get_or_create_metric(&mut self, id: &String) -> (h: usize)
        requires
            old(self).wf(),
        ensures
            final(self).wf(),
            final(self).states_view() == old(self).states_view(),
            h < final(self).metrics_view().len(),
            final(self).metrics_view()[h as int].0 == id@,
            old(self).has_metric(id@) ==> final(self).metrics_view() == old(
                self,
            ).metrics_view() && h as int == idx_of(old(self).metrics_view(), id@),
            !old(self).has_metric(id@) ==> final(self).metrics_view() == old(
                self,
            ).metrics_view().push((id@, 0)) && h as int == old(self).metrics_view().len(),
            (final(self).metrics_view(), h as int) == register_metric(
                old(self).metrics_view(),
                id@,
            ),
    {
        let ghost mv = old(self).metrics_view();
        proof {
            assoc::lemma_find_key_props(mv, id@, 0);
        }
        match self.find_metric(id) {
            Some(h) => h,
            None => {
                let h = self.metrics.len();
                self.metrics.push(MetricSeries { id: id.clone(), millis: 0 });
                proof {
                    assert(self.metrics_view() =~= mv.push((id@, 0)));
                    assert(forall|m: int| 0 <= m < mv.len() ==> (#[trigger] mv[m]).0 != id@);
                    assert(uniq_keys(self.metrics_view()));
                }
                h
            },
        }
    }

    /// Set the current value of the series behind `h`; last write wins.
    pub fn set_value(&mut self, h: usize, millis: i64)
        requires
            old(self).wf(),
            h < old(self).metrics_view().len(),
        ensures
            final(self).wf(),
            final(self).states_view() == old(self).states_view(),
            final(self).metrics_view() == old(self).metrics_view().update(
                h as int,
                (old(self).metrics_view()[h as int].0, millis as int),
            ),
    {
        let ghost mv = old(self).metrics_view();
        self.metrics[h].millis = millis;
        proof {
            assert(self.metrics_view() =~= mv.update(h as int, (mv[h as int].0, millis as int)));
            assert(forall|m: int|
                0 <= m < self.metrics_view().len() ==> (#[trigger] self.metrics_view()[m]).0
                    == mv[m].0);
            assoc::lemma_find_key_same_keys(self.metrics_view(), mv, Seq::<char>::empty(), 0);
            assert(uniq_keys(self.metrics_view()));
        }
    }

    /// Store the latest reading for `id`: update its state in place if one
    /// exists, else append a fresh state.  States are never dropped.
    pub fn upsert(&mut self, id: &String, millis: i64, timestamp: u64)
        requires
            old(self).wf(),
        ensures
            final(self).wf(),
            final(self).metrics_view() == old(self).metrics_view(),
            final(self).states_view() == put(
                old(self).states_view(),
                id@,
                (millis as int, timestamp as int),
            ),
    {
        let ghost sv = old(self).states_view();
        proof {
            assoc::lemma_find_key_props(sv, id@, 0);
            assoc::lemma_put_uniq(sv, id@, (millis as int, timestamp as int));
        }
        match self.find_state(id) {
            Some(h) => {
                self.states[h].millis = millis;
                self.states[h].last_updated = timestamp;
                proof {
                    assert(self.states_view() =~= put(
                        sv,
                        id@,
                        (millis as int, timestamp as int),
                    ));
                }
            },
            None => {
                self.states.push(SensorSample { id: id.clone(), millis, last_updated: timestamp });
                proof {
                    assert(self.states_view() =~= put(
                        sv,
                        id@,
                        (millis as int, timestamp as int),
                    ));
                }
            },
        }
    }

    /// Record one successful reading: make sure the series exists, set its
    /// value, and upsert the sensor state.  Both maps change as by `put`.
    pub fn record_reading(&mut self, id: &String, millis: i64, timestamp: u64)
        requires
            old(self).wf(),
        ensures
            final(self).wf(),
            final(self).metrics_view() == put(old(self).metrics_view(), id@, millis as int),
            final(self).states_view() == put(
                old(self).states_view(),
                id@,
                (millis as int, timestamp as int),
            ),
    {
        let ghost mv = old(self).metrics_view();
        proof {
            assoc::lemma_find_key_props(mv, id@, 0);
        }
        let h = self.get_or_create_metric(id);
        self.set_value(h, millis);
        proof {
            if has_key(mv, id@) {
                assert(mv[idx_of(mv, id@)].0 == id@);
                assert(self.metrics_view() =~= put(mv, id@, millis as int));
            } else {
                assoc::lemma_find_key_push(mv, (id@, 0), id@, 0);
                assert(self.metrics_view() =~= put(mv, id@, millis as int));
            }
        }
        self.upsert(id, millis, timestamp);
    }

    /// A consistent point-in-time copy of every sensor state, in insertion
    /// order.  Concurrent readers holding such a copy can never observe a
    /// torn or partially-updated entry.
    pub fn snapshot(&self) -> (out: Vec<SensorSample>)
        ensures
            out@.map_values(|e: SensorSample| e@) == self.states_view(),
            out@.len() == self.states_view().len(),
    {
        let mut out: Vec<SensorSample> = Vec::new();
        let mut ix: usize = 0;
        while ix < self.states.len()
            invariant
                0 <= ix <= self.states.len(),
                out@.len() == ix,
                out@.map_values(|e: SensorSample| e@) == self.states_view().subrange(
                    0,
                    ix as int,
                ),
            decreases self.states.len() - ix,
        {
            let e = &self.states[ix];
            out.push(SensorSample { id: e.id.clone(), millis: e.millis, last_updated: e.last_updated });
            proof {
                assert(out@.map_values(|e: SensorSample| e@) =~= self.states_view().subrange(
                    0,
                    ix + 1,
                ));
            }
            ix += 1;
        }
        proof {
            assert(self.states_view().subrange(0, self.states@.len() as int) =~= self.states_view());
        }
        out
    }

    /// Run one sampling cycle: for each polled device in order, if its entry
    /// names a sensor and its content parses, record the reading; a device
    /// whose file is unreadable or malformed is skipped and never blocks the
    /// others.
    pub fn run_cycle(&mut self, polls: &Vec<DevicePoll>, timestamp: u64)
        requires
            old(self).wf(),
        ensures
            final(self).wf(),
            final(self).metrics_view() == cycle_metrics(
                old(self).metrics_view(),
                polls@.map_values(|p: DevicePoll| p@),
            ),
            final(self).states_view() == cycle_states(
                old(self).states_view(),
                polls@.map_values(|p: DevicePoll| p@),
                timestamp as int,
            ),
    {
        let ghost pv = polls@.map_values(|p: DevicePoll| p@);
        let ghost mv0 = old(self).metrics_view();
        let ghost sv0 = old(self).states_view();
        let mut ix: usize = 0;
        while ix < polls.len()
            invariant
                0 <= ix <= polls.len(),
                pv == polls@.map_values(|p: DevicePoll| p@),
                pv.len() == polls@.len(),
                self.wf(),
                self.metrics_view() == cycle_metrics(mv0, pv.subrange(0, ix as int)),
                self.states_view() == cycle_states(sv0, pv.subrange(0, ix as int), timestamp as int),
            decreases polls.len() - ix,
        {
            proof {
                assert(pv.subrange(0, ix + 1).drop_last() =~= pv.subrange(0, ix as int));
                assert(pv.subrange(0, ix + 1).last() == pv[ix as int]);
                assert(pv[ix as int] == polls@[ix as int]@);
            }
            let p = &polls[ix];
            if is_sensor_name(p.name.as_str()) {
                match &p.content {
                    Some(c) => {
                        match parse_reading(c.as_str()) {
                            Ok(v) => {
                                assert(poll_value(pv[ix as int]) == Some(v as int));
                                self.record_reading(&p.name, v, timestamp);
                            },
                            Err(_) => {
                                assert(poll_value(pv[ix as int]) is None);
                            },
                        }
                    },
                    None => {
                        assert(poll_value(pv[ix as int]) is None);
                    },
                }
            } else {
                assert(poll_value(pv[ix as int]) is None);
            }
            ix += 1;
        }
        proof {
            assert(pv.subrange(0, polls@.len() as int) =~= pv);
        }
    }
}

impl Registry {
    /// The full textual exposition of every registered series, in
    /// registration order.  It is computed from one consistent view of the
    /// registry: a value appears fully or, before its first registration,
    /// not at all.
    pub fn render_all(&self) -> (out: String)
        ensures
            out@ == spec_render(self.metrics_view()),
    {
        let ghost mv = self.metrics_view();
        if self.metrics.len() == 0 {
            let out = String::new();
            return out;
        }
        let mut out = String::from_str(
            "# HELP temperature_celsius Temperature reading in degrees Celsius\n# TYPE temperature_celsius gauge\n",
        );
        let mut ix: usize = 0;
        while ix < self.metrics.len()
            invariant
                0 <= ix <= self.metrics.len(),
                mv == self.metrics_view(),
                mv.len() == self.metrics.len(),
                mv.len() > 0,
                out@ == "# HELP temperature_celsius Temperature reading in degrees Celsius\n# TYPE temperature_celsius gauge\n"@
                    + render_lines(mv.subrange(0, ix as int)),
            decreases self.metrics.len() - ix,
        {
            out.append("temperature_celsius{sensor=\"");
            out.append(self.metrics[ix].id.as_str());
            out.append("\"} ");
            let t = format_millis(self.metrics[ix].millis);
            out.append(t.as_str());
            out.append("\n");
            proof {
                assert(mv.subrange(0, ix + 1).drop_last() =~= mv.subrange(0, ix as int));
                assert(mv.subrange(0, ix + 1).last() == mv[ix as int]);
                assert(mv[ix as int] == self.metrics@[ix as int]@);
                assert(out@ =~= "# HELP temperature_celsius Temperature reading in degrees Celsius\n# TYPE temperature_celsius gauge\n"@
                    + render_lines(mv.subrange(0, ix + 1)));
            }
            ix += 1;
        }
        proof {
            assert(mv.subrange(0, mv.len() as int) =~= mv);
        }
        out
    }
}

/// The value one polled device contributes to a cycle: its millidegree
/// reading, if its entry names a sensor and its content parses to an
/// in-range integer.
pub open spec fn poll_value(p: (Seq<char>, Option<Seq<char>>)) -> Option<int> {
    if spec_is_sensor_name(p.0) {
        match p.1 {
            Some(c) => reading_of(c),
            None => None,
        }
    } else {
        None
    }
}

/// The exported series after one sampling cycle over `polls`.
pub open spec fn cycle_metrics(
    ms: Seq<(Seq<char>, int)>,
    polls: Seq<(Seq<char>, Option<Seq<char>>)>,
) -> Seq<(Seq<char>, int)>
    decreases polls.len(),
{
    if polls.len() == 0 {
        ms
    } else {
        let prev = cycle_metrics(ms, polls.drop_last());
        match poll_value(polls.last()) {
            Some(v) => put(prev, polls.last().0, v),
            None => prev,
        }
    }
}

/// The sensor states after one sampling cycle over `polls` at time `t`.
pub open spec fn cycle_states(
    ss: Seq<(Seq<char>, (int, int))>,
    polls: Seq<(Seq<char>, Option<Seq<char>>)>,
    t: int,
) -> Seq<(Seq<char>, (int, int))>
    decreases polls.len(),
{
    if polls.len() == 0 {
        ss
    } else {
        let prev = cycle_states(ss, polls.drop_last(), t);
        match poll_value(polls.last()) {
            Some(v) => put(prev, polls.last().0, (v, t)),
            None => prev,
        }
    }
}

/// The reading the last successful poll of `id` contributes, if any.
pub open spec fn last_value(polls: Seq<(Seq<char>, Option<Seq<char>>)>, id: Seq<char>) -> Option<
    int,
>
    decreases polls.len(),
{
    if polls.len() == 0 {
        None
    } else if polls.last().0 == id && poll_value(polls.last()) is Some {
        poll_value(polls.last())
    } else {
        last_value(polls.drop_last(), id)
    }
}

/// The states with their timestamps dropped: what two snapshots taken after
/// cycles at different times are compared by.
pub open spec fn state_values(ss: Seq<(Seq<char>, (int, int))>) -> Seq<(Seq<char>, int)> {
    ss.map_values(|p: (Seq<char>, (int, int))| (p.0, p.1.0))
}

/// A cycle preserves key uniqueness of the series.
pub proof fn lemma_cycle_metrics_uniq(
    ms: Seq<(Seq<char>, int)>,
    polls: Seq<(Seq<char>, Option<Seq<char>>)>,
)
    requires
        uniq_keys(ms),
    ensures
        uniq_keys(cycle_metrics(ms, polls)),
    decreases polls.len(),
{
    if polls.len() > 0 {
        lemma_cycle_metrics_uniq(ms, polls.drop_last());
        let prev = cycle_metrics(ms, polls.drop_last());
        match poll_value(polls.last()) {
            Some(v) => assoc::lemma_put_uniq(prev, polls.last().0, v),
            None => (),
        }
    }
}

/// A cycle preserves key uniqueness of the states.
pub proof fn lemma_cycle_states_uniq(
    ss: Seq<(Seq<char>, (int, int))>,
    polls: Seq<(Seq<char>, Option<Seq<char>>)>,
    t: int,
)
    requires
        uniq_keys(ss),
    ensures
        uniq_keys(cycle_states(ss, polls, t)),
    decreases polls.len(),
{
    if polls.len() > 0 {
        lemma_cycle_states_uniq(ss, polls.drop_last(), t);
        let prev = cycle_states(ss, polls.drop_last(), t);
        match poll_value(polls.last()) {
            Some(v) => assoc::lemma_put_uniq(prev, polls.last().0, (v, t)),
            None => (),
        }
    }
}

/// After a cycle, a series holds the last successfully polled value of its
/// id, or its previous value if no poll of that id succeeded.
pub proof fn lemma_cycle_metrics_lookup(
    ms: Seq<(Seq<char>, int)>,
    polls: Seq<(Seq<char>, Option<Seq<char>>)>,
    id: Seq<char>,
)
    requires
        uniq_keys(ms),
    ensures
        lookup(cycle_metrics(ms, polls), id) == (if last_value(polls, id) is Some {
            last_value(polls, id)
        } else {
            lookup(ms, id)
        }),
    decreases polls.len(),
{
    if polls.len() > 0 {
        lemma_cycle_metrics_lookup(ms, polls.drop_last(), id);
        lemma_cycle_metrics_uniq(ms, polls.drop_last());
        let prev = cycle_metrics(ms, polls.drop_last());
        match poll_value(polls.last()) {
            Some(v) => assoc::lemma_put_lookup(prev, polls.last().0, v, id),
            None => (),
        }
    }
}

/// After a cycle, a state holds the last successfully polled value of its id
/// stamped with the cycle time, or its previous entry if no poll succeeded.
pub proof fn lemma_cycle_states_lookup(
    ss: Seq<(Seq<char>, (int, int))>,
    polls: Seq<(Seq<char>, Option<Seq<char>>)>,
    t: int,
    id: Seq<char>,
)
    requires
        uniq_keys(ss),
    ensures
        lookup(cycle_states(ss, polls, t), id) == (if last_value(polls, id) is Some {
            Some((last_value(polls, id)->Some_0, t))
        } else {
            lookup(ss, id)
        }),
    decreases polls.len(),
{
    if polls.len() > 0 {
        lemma_cycle_states_lookup(ss, polls.drop_last(), t, id);
        lemma_cycle_states_uniq(ss, polls.drop_last(), t);
        let prev = cycle_states(ss, polls.drop_last(), t);
        match poll_value(polls.last()) {
            Some(v) => assoc::lemma_put_lookup(prev, polls.last().0, (v, t), id),
            None => (),
        }
    }
}

/// The ids a cycle appends: successfully polled ids not in `ks`, first
/// occurrence order, without repetition.
pub open spec fn fresh_ids(
    ks: Seq<Seq<char>>,
    polls: Seq<(Seq<char>, Option<Seq<char>>)>,
) -> Seq<Seq<char>>
    decreases polls.len(),
{
    if polls.len() == 0 {
        Seq::empty()
    } else {
        let f = fresh_ids(ks, polls.drop_last());
        let p = polls.last();
        if poll_value(p) is Some && !ks.contains(p.0) && !f.contains(p.0) {
            f.push(p.0)
        } else {
            f
        }
    }
}

/// A cycle keeps the existing key order and appends exactly the fresh ids.
pub proof fn lemma_cycle_metrics_keys(
    ms: Seq<(Seq<char>, int)>,
    polls: Seq<(Seq<char>, Option<Seq<char>>)>,
)
    ensures
        keys(cycle_metrics(ms, polls)) == keys(ms) + fresh_ids(keys(ms), polls),
    decreases polls.len(),
{
    let ks = keys(ms);
    if polls.len() == 0 {
        assert(ks + fresh_ids(ks, polls) =~= ks);
    } else {
        lemma_cycle_metrics_keys(ms, polls.drop_last());
        let prev = cycle_metrics(ms, polls.drop_last());
        let f = fresh_ids(ks, polls.drop_last());
        let p = polls.last();
        match poll_value(p) {
            Some(v) => {
                assoc::lemma_put_keys(prev, p.0, v);
                assoc::lemma_has_key_contains(prev, p.0);
                assoc::lemma_concat_contains(ks, f, p.0);
                if !has_key(prev, p.0) {
                    assert(keys(put(prev, p.0, v)) =~= ks + f.push(p.0));
                }
            },
            None => (),
        }
    }
}

/// A cycle keeps the existing key order and appends exactly the fresh ids.
pub proof fn lemma_cycle_states_keys(
    ss: Seq<(Seq<char>, (int, int))>,
    polls: Seq<(Seq<char>, Option<Seq<char>>)>,
    t: int,
)
    ensures
        keys(cycle_states(ss, polls, t)) == keys(ss) + fresh_ids(keys(ss), polls),
    decreases polls.len(),
{
    let ks = keys(ss);
    if polls.len() == 0 {
        assert(ks + fresh_ids(ks, polls) =~= ks);
    } else {
        lemma_cycle_states_keys(ss, polls.drop_last(), t);
        let prev = cycle_states(ss, polls.drop_last(), t);
        let f = fresh_ids(ks, polls.drop_last());
        let p = polls.last();
        match poll_value(p) {
            Some(v) => {
                assoc::lemma_put_keys(prev, p.0, (v, t));
                assoc::lemma_has_key_contains(prev, p.0);
                assoc::lemma_concat_contains(ks, f, p.0);
                if !has_key(prev, p.0) {
                    assert(keys(put(prev, p.0, (v, t))) =~= ks + f.push(p.0));
                }
            },
            None => (),
        }
    }
}

/// When every successfully polled id is already among `ks`, a cycle appends
/// nothing.
pub proof fn lemma_fresh_ids_empty(ks: Seq<Seq<char>>, polls: Seq<(Seq<char>, Option<Seq<char>>)>)
    requires
        forall|m: int|
            0 <= m < polls.len() ==> (poll_value(#[trigger] polls[m]) is Some ==> ks.contains(
                polls[m].0,
            )),
    ensures
        fresh_ids(ks, polls) == Seq::<Seq<char>>::empty(),
    decreases polls.len(),
{
    if polls.len() > 0 {
        assert(forall|m: int|
            0 <= m < polls.len() - 1 ==> (poll_value(#[trigger] polls.drop_last()[m]) is Some
                ==> ks.contains(polls.drop_last()[m].0))) by {
            assert(forall|m: int|
                0 <= m < polls.len() - 1 ==> #[trigger] polls.drop_last()[m] == polls[m]);
        }
        lemma_fresh_ids_empty(ks, polls.drop_last());
        assert(polls.last() == polls[polls.len() - 1]);
    }
}

/// A poll of `id` that succeeded somewhere in the cycle leaves a last value.
pub proof fn lemma_last_value_some(polls: Seq<(Seq<char>, Option<Seq<char>>)>, m: int)
    requires
        0 <= m < polls.len(),
        poll_value(polls[m]) is Some,
    ensures
        last_value(polls, polls[m].0) is Some,
    decreases polls.len(),
{
    if m < polls.len() - 1 {
        assert(polls.drop_last()[m] == polls[m]);
        lemma_last_value_some(polls.drop_last(), m);
    } else {
        assert(polls.last() == polls[m]);
    }
}

/// How `lookup` on timestamp-stripped states relates to the states.
proof fn lemma_state_values_lookup(ss: Seq<(Seq<char>, (int, int))>, id: Seq<char>)
    ensures
        lookup(state_values(ss), id) == (if lookup(ss, id) is Some {
            Some(lookup(ss, id)->Some_0.0)
        } else {
            None::<int>
        }),
{
    let vs = state_values(ss);
    assert(vs.len() == ss.len());
    assert(forall|m: int| 0 <= m < ss.len() ==> (#[trigger] vs[m]).0 == ss[m].0);
    assoc::lemma_find_key_same_keys(vs, ss, id, 0);
    if has_key(ss, id) {
        assoc::lemma_find_key_props(ss, id, 0);
        let k = idx_of(ss, id);
        assert(vs[k] == (ss[k].0, ss[k].1.0));
    }
}

/// What registering a sensor id does to the series map: the existing handle
/// if the id was seen, else a fresh series with value 0 and the next handle.
pub open spec fn register_metric(ms: Seq<(Seq<char>, int)>, id: Seq<char>) -> (
    Seq<(Seq<char>, int)>,
    int,
) {
    if has_key(ms, id) {
        (ms, idx_of(ms, id))
    } else {
        (ms.push((id, 0)), ms.len() as int)
    }
}

/// Registration is idempotent: registering the same id twice returns the
/// same handle both times and leaves the map as after the first call, and
/// the series count grows by one exactly when the id is new.
pub proof fn lemma_register_metric_idempotent(ms: Seq<(Seq<char>, int)>, id: Seq<char>)
    requires
        uniq_keys(ms),
    ensures
        register_metric(register_metric(ms, id).0, id).1 == register_metric(ms, id).1,
        register_metric(register_metric(ms, id).0, id).0 == register_metric(ms, id).0,
        has_key(ms, id) ==> register_metric(ms, id).0.len() == ms.len(),
        !has_key(ms, id) ==> register_metric(ms, id).0.len() == ms.len() + 1,
{
    assoc::lemma_find_key_props(ms, id, 0);
    if !has_key(ms, id) {
        assoc::lemma_find_key_push(ms, (id, 0), id, 0);
    }
}

/// A cycle over no polled devices (for instance when the devices root could
/// not be listed) changes neither the series nor the states.
pub proof fn lemma_cycle_empty(
    ms: Seq<(Seq<char>, int)>,
    ss: Seq<(Seq<char>, (int, int))>,
    polls: Seq<(Seq<char>, Option<Seq<char>>)>,
    t: int,
)
    requires
        polls.len() == 0,
    ensures
        cycle_metrics(ms, polls) == ms,
        cycle_states(ss, polls, t) == ss,
{
}

/// Two consecutive cycles over unchanged polls yield the same series map and
/// the same snapshot ids, values and count; only the timestamps may differ.
pub proof fn lemma_cycle_idempotent(
    ms: Seq<(Seq<char>, int)>,
    ss: Seq<(Seq<char>, (int, int))>,
    polls: Seq<(Seq<char>, Option<Seq<char>>)>,
    t1: int,
    t2: int,
)
    requires
        uniq_keys(ms),
        uniq_keys(ss),
    ensures
        cycle_metrics(cycle_metrics(ms, polls), polls) == cycle_metrics(ms, polls),
        state_values(cycle_states(cycle_states(ss, polls, t1), polls, t2)) == state_values(
            cycle_states(ss, polls, t1),
        ),
        cycle_states(cycle_states(ss, polls, t1), polls, t2).len() == cycle_states(
            ss,
            polls,
            t1,
        ).len(),
{
    let ms1 = cycle_metrics(ms, polls);
    let ms2 = cycle_metrics(ms1, polls);
    let ss1 = cycle_states(ss, polls, t1);
    let ss2 = cycle_states(ss1, polls, t2);
    lemma_cycle_metrics_uniq(ms, polls);
    lemma_cycle_metrics_uniq(ms1, polls);
    lemma_cycle_states_uniq(ss, polls, t1);
    lemma_cycle_states_uniq(ss1, polls, t2);

    // The second cycle adds no series: every successfully polled id already
    // has one after the first cycle.
    lemma_cycle_metrics_keys(ms1, polls);
    assert forall|m: int|
        0 <= m < polls.len() implies (poll_value(#[trigger] polls[m]) is Some ==> keys(
        ms1,
    ).contains(polls[m].0)) by {
        if poll_value(polls[m]) is Some {
            lemma_last_value_some(polls, m);
            lemma_cycle_metrics_lookup(ms, polls, polls[m].0);
            assoc::lemma_has_key_contains(ms1, polls[m].0);
        }
    }
    lemma_fresh_ids_empty(keys(ms1), polls);
    assert(keys(ms2) =~= keys(ms1));
    assert(ms2.len() == ms1.len());
    assert(forall|m: int| 0 <= m < ms2.len() ==> (#[trigger] ms2[m]).0 == ms1[m].0) by {
        assert(forall|m: int|
            0 <= m < ms2.len() ==> keys(ms2)[m] == (#[trigger] ms2[m]).0 && keys(ms1)[m]
                == ms1[m].0);
    }
    assert forall|id: Seq<char>| #[trigger] lookup(ms2, id) == lookup(ms1, id) by {
        lemma_cycle_metrics_lookup(ms1, polls, id);
        lemma_cycle_metrics_lookup(ms, polls, id);
    }
    assoc::lemma_assoc_determined(ms2, ms1);

    // Likewise no state is added, and values agree pointwise.
    lemma_cycle_states_keys(ss1, polls, t2);
    assert forall|m: int|
        0 <= m < polls.len() implies (poll_value(#[trigger] polls[m]) is Some ==> keys(
        ss1,
    ).contains(polls[m].0)) by {
        if poll_value(polls[m]) is Some {
            lemma_last_value_some(polls, m);
            lemma_cycle_states_lookup(ss, polls, t1, polls[m].0);
            assoc::lemma_has_key_contains(ss1, polls[m].0);
        }
    }
    lemma_fresh_ids_empty(keys(ss1), polls);
    assert(keys(ss2) =~= keys(ss1));
    assert(ss2.len() == ss1.len());
    let sv1 = state_values(ss1);
    let sv2 = state_values(ss2);
    assert(sv2.len() == sv1.len());
    assert(forall|m: int| 0 <= m < ss2.len() ==> (#[trigger] ss2[m]).0 == ss1[m].0) by {
        assert(forall|m: int|
            0 <= m < ss2.len() ==> keys(ss2)[m] == (#[trigger] ss2[m]).0 && keys(ss1)[m]
                == ss1[m].0);
    }
    assert(forall|m: int| 0 <= m < sv2.len() ==> (#[trigger] sv2[m]).0 == sv1[m].0);
    assert(uniq_keys(sv2)) by {
        assert(forall|m: int| 0 <= m < ss2.len() ==> (#[trigger] sv2[m]).0 == ss2[m].0);
    }
    assert forall|id: Seq<char>| #[trigger] lookup(sv2, id) == lookup(sv1, id) by {
        lemma_state_values_lookup(ss2, id);
        lemma_state_values_lookup(ss1, id);
        lemma_cycle_states_lookup(ss1, polls, t2, id);
        lemma_cycle_states_lookup(ss, polls, t1, id);
    }
    assoc::lemma_assoc_determined(sv2, sv1);
}

} // verus!
