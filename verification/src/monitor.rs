//! The pressure monitor's decisions: reading the detector command's output,
//! and the hysteresis state machine that turns samples into transitions.
//! Running the command, sleeping between ticks and performing the actions is
//! the caller's part.

use vstd::prelude::*;

use crate::text::{
    chars_of, find_char, find_from, lemma_find_from, lines, split_lines, trim, trim_str, views,
};

verus! {

// ── Hysteresis ──────────────────────────────────────────────────────────────

/// What one sample makes the monitor do.
#[derive(Clone, Copy, Debug, PartialEq, Eq, Structural)]
pub enum Transition {
    /// Nothing fires.
    Hold,
    /// Pressure has been sustained: the actions' `on_pressure` fire.
    Pressure,
    /// Pressure has cleared: the actions' `on_clear` fire.
    Clear,
}

/// The monitor's hysteresis counters: consecutive samples above and at or
/// below the threshold, and whether the workload is currently paused.
#[derive(Clone, Copy, Debug, PartialEq, Eq, Structural)]
pub struct Hysteresis {
    pub above: u32,
    pub below: u32,
    pub paused: bool,
}

/// The state before any sample.
pub open spec fn initial() -> Hysteresis {
    Hysteresis { above: 0, below: 0, paused: false }
}

/// One sample: `above_threshold` tells whether the sampled pressure exceeds
/// the threshold; `hysteresis` is the number of consecutive samples needed on
/// either side before a transition fires.
pub open spec fn step(s: Hysteresis, above_threshold: bool, hysteresis: u32) -> (
    Hysteresis,
    Transition,
) {
    if above_threshold {
        let above = (s.above + 1) as u32;
        if above >= hysteresis && !s.paused {
            (Hysteresis { above, below: 0, paused: true }, Transition::Pressure)
        } else {
            (Hysteresis { above, below: 0, paused: s.paused }, Transition::Hold)
        }
    } else {
        let below = (s.below + 1) as u32;
        if below >= hysteresis && s.paused {
            (Hysteresis { above: 0, below, paused: false }, Transition::Clear)
        } else {
            (Hysteresis { above: 0, below, paused: s.paused }, Transition::Hold)
        }
    }
}

impl Hysteresis {
    /// No samples seen, not paused.
    pub fn new() -> (h: Self)
        ensures
            h == initial(),
    {
        Hysteresis { above: 0, below: 0, paused: false }
    }

    /// Takes one successful sample into account and says what fires.
    /// A counter that would pass `u32::MAX` is outside the contract.
    pub fn observe(&mut self, above_threshold: bool, hysteresis: u32) -> (t: Transition)
        requires
            above_threshold ==> old(self).above < u32::MAX,
            !above_threshold ==> old(self).below < u32::MAX,
        ensures
            (*final(self), t) == step(*old(self), above_threshold, hysteresis),
    {
        if above_threshold {
            self.above = self.above + 1;
            self.below = 0;
            if self.above >= hysteresis && !self.paused {
                self.paused = true;
                Transition::Pressure
            } else {
                Transition::Hold
            }
        } else {
            self.below = self.below + 1;
            self.above = 0;
            if self.below >= hysteresis && self.paused {
                self.paused = false;
                Transition::Clear
            } else {
                Transition::Hold
            }
        }
    }
}

/// The state and the transitions after the samples `events`, each `true`
/// when that sample was above the threshold.
pub open spec fn run(events: Seq<bool>, hysteresis: u32) -> (Hysteresis, Seq<Transition>)
    decreases events.len(),
{
    if events.len() == 0 {
        (initial(), seq![])
    } else {
        let (s, ts) = run(events.drop_last(), hysteresis);
        let (s2, t) = step(s, events.last(), hysteresis);
        (s2, ts.push(t))
    }
}

/// Taking samples one at a time through `Hysteresis::observe` traces `run`:
/// one more sample is one more `step` from the state the earlier ones left.
pub proof fn lemma_run_is_stepwise(events: Seq<bool>, e: bool, hysteresis: u32)
    ensures
        run(events.push(e), hysteresis) == ({
            let (s, ts) = run(events, hysteresis);
            let (s2, t) = step(s, e, hysteresis);
            (s2, ts.push(t))
        }),
{
    assert(events.push(e).drop_last() =~= events);
}

/// How many of the last samples in `events` equal `v`.
pub open spec fn trailing(events: Seq<bool>, v: bool) -> nat
    decreases events.len(),
{
    if events.len() > 0 && events.last() == v {
        trailing(events.drop_last(), v) + 1
    } else {
        0
    }
}

/// Whether the transitions `ts` alternate between `Pressure` and `Clear`
/// (ignoring `Hold`), starting from the pause state `paused`.
pub open spec fn alternating(ts: Seq<Transition>, paused: bool) -> bool
    decreases ts.len(),
{
    if ts.len() == 0 {
        true
    } else {
        match ts[0] {
            Transition::Hold => alternating(ts.drop_first(), paused),
            Transition::Pressure => !paused && alternating(ts.drop_first(), true),
            Transition::Clear => paused && alternating(ts.drop_first(), false),
        }
    }
}

/// The counters count consecutive samples: after any run of samples, `above`
/// is the number of trailing samples above the threshold and `below` the
/// number of trailing samples at or below it; one transition is recorded per
/// sample.
pub proof fn lemma_counters_count_trailing_samples(events: Seq<bool>, hysteresis: u32)
    requires
        events.len() < u32::MAX,
    ensures
        run(events, hysteresis).0.above == trailing(events, true),
        run(events, hysteresis).0.below == trailing(events, false),
        run(events, hysteresis).1.len() == events.len(),
        trailing(events, true) <= events.len(),
        trailing(events, false) <= events.len(),
    decreases events.len(),
{
    if events.len() > 0 {
        lemma_counters_count_trailing_samples(events.drop_last(), hysteresis);
    }
}

/// The pause state records the last transition: the workload is paused
/// exactly when some transition has fired and the last one was `Pressure`.
pub open spec fn last_fired_is_pressure(ts: Seq<Transition>) -> bool
    decreases ts.len(),
{
    if ts.len() == 0 {
        false
    } else if ts.last() == Transition::Hold {
        last_fired_is_pressure(ts.drop_last())
    } else {
        ts.last() == Transition::Pressure
    }
}

pub proof fn lemma_paused_iff_last_fired_pressure(events: Seq<bool>, hysteresis: u32)
    ensures
        run(events, hysteresis).0.paused == last_fired_is_pressure(run(events, hysteresis).1),
    decreases events.len(),
{
    if events.len() > 0 {
        lemma_paused_iff_last_fired_pressure(events.drop_last(), hysteresis);
        let ts = run(events, hysteresis).1;
        assert(ts.drop_last() =~= run(events.drop_last(), hysteresis).1);
    }
}

/// Hysteresis: the sample at index `i` fires `Pressure` exactly when it is
/// above the threshold, it ends a run of at least `hysteresis` consecutive
/// samples above the threshold, and the workload was not already paused; it
/// fires `Clear` exactly when it is at or below the threshold, it ends a run of
/// at least `hysteresis` consecutive samples at or below the threshold, and the
/// workload was paused.  Every other sample fires nothing.
pub proof fn lemma_transitions_fire_on_sustained_runs(
    events: Seq<bool>,
    hysteresis: u32,
    i: int,
)
    requires
        events.len() < u32::MAX,
        0 <= i < events.len(),
    ensures
        run(events, hysteresis).1[i] == Transition::Pressure <==> {
            &&& events[i]
            &&& trailing(events.take(i + 1), true) >= hysteresis
            &&& !run(events.take(i), hysteresis).0.paused
        },
        run(events, hysteresis).1[i] == Transition::Clear <==> {
            &&& !events[i]
            &&& trailing(events.take(i + 1), false) >= hysteresis
            &&& run(events.take(i), hysteresis).0.paused
        },
    decreases events.len(),
{
    lemma_counters_len(events.drop_last(), hysteresis);
    if i < events.len() - 1 {
        lemma_transitions_fire_on_sustained_runs(events.drop_last(), hysteresis, i);
        assert(events.drop_last().take(i + 1) =~= events.take(i + 1));
        assert(events.drop_last().take(i) =~= events.take(i));
        assert(events.drop_last()[i] == events[i]);
    } else {
        let pre = events.take(i);
        let upto = events.take(i + 1);
        assert(upto.drop_last() =~= pre);
        assert(events.drop_last() =~= pre);
        assert(upto.last() == events[i]);
        lemma_counters_count_trailing_samples(pre, hysteresis);
        let (st, ts) = run(pre, hysteresis);
        let (s2, t) = step(st, events[i], hysteresis);
        assert(run(events, hysteresis).1 == ts.push(t));
        assert(run(events, hysteresis).1[i] == t);
        assert(trailing(upto, true) == if events[i] { trailing(pre, true) + 1 } else { 0 });
        assert(trailing(upto, false) == if !events[i] { trailing(pre, false) + 1 } else { 0 });
    }
}

/// The transitions alternate: starting unpaused, `Pressure` and `Clear`
/// take turns, so `on_clear` never fires twice in a row, nor `on_pressure`,
/// and the first action to fire is `on_pressure`.
pub proof fn lemma_transitions_alternate(events: Seq<bool>, hysteresis: u32)
    ensures
        alternating(run(events, hysteresis).1, false),
{
    lemma_alternating_from(events, hysteresis, events.len() as int);
    assert(events.take(events.len() as int) =~= events);
}

proof fn lemma_counters_len(events: Seq<bool>, hysteresis: u32)
    ensures
        run(events, hysteresis).1.len() == events.len(),
    decreases events.len(),
{
    if events.len() > 0 {
        lemma_counters_len(events.drop_last(), hysteresis);
    }
}

proof fn lemma_alternating_push(ts: Seq<Transition>, paused: bool, t: Transition, p2: bool)
    requires
        alternating(ts, paused),
        t == Transition::Hold ==> p2 == last_paused(ts, paused),
        t == Transition::Pressure ==> !last_paused(ts, paused) && p2,
        t == Transition::Clear ==> last_paused(ts, paused) && !p2,
    ensures
        alternating(ts.push(t), paused),
        last_paused(ts.push(t), paused) == p2,
    decreases ts.len(),
{
    let u = ts.push(t);
    if ts.len() == 0 {
        let rest = u.drop_first();
        assert(rest =~= Seq::<Transition>::empty());
        assert(u[0] == t);
        assert(alternating(rest, p2));
        assert(last_paused(rest, p2) == p2);
        match t {
            Transition::Hold => {
                assert(alternating(rest, paused));
                assert(last_paused(rest, paused) == paused);
            },
            Transition::Pressure => {
                assert(alternating(rest, true));
                assert(last_paused(rest, true) == true);
            },
            Transition::Clear => {
                assert(alternating(rest, false));
                assert(last_paused(rest, false) == false);
            },
        }
    } else {
        assert(u[0] == ts[0]);
        assert(u.drop_first() =~= ts.drop_first().push(t));
        let next = match ts[0] {
            Transition::Hold => paused,
            Transition::Pressure => true,
            Transition::Clear => false,
        };
        assert(alternating(ts.drop_first(), next));
        assert(last_paused(ts, paused) == last_paused(ts.drop_first(), next));
        lemma_alternating_push(ts.drop_first(), next, t, p2);
        assert(alternating(u.drop_first(), next));
        assert(last_paused(u, paused) == last_paused(u.drop_first(), next));
    }
}

/// The pause state after the transitions `ts`, starting from `paused`.
pub open spec fn last_paused(ts: Seq<Transition>, paused: bool) -> bool
    decreases ts.len(),
{
    if ts.len() == 0 {
        paused
    } else {
        match ts[0] {
            Transition::Hold => last_paused(ts.drop_first(), paused),
            Transition::Pressure => last_paused(ts.drop_first(), true),
            Transition::Clear => last_paused(ts.drop_first(), false),
        }
    }
}

proof fn lemma_alternating_from(events: Seq<bool>, hysteresis: u32, n: int)
    requires
        0 <= n <= events.len(),
    ensures
        alternating(run(events.take(n), hysteresis).1, false),
        last_paused(run(events.take(n), hysteresis).1, false) == run(
            events.take(n),
            hysteresis,
        ).0.paused,
    decreases n,
{
    if n > 0 {
        lemma_alternating_from(events, hysteresis, n - 1);
        let pre = events.take(n - 1);
        assert(events.take(n).drop_last() =~= pre);
        let (s, ts) = run(pre, hysteresis);
        let (s2, t) = step(s, events.take(n).last(), hysteresis);
        lemma_alternating_push(ts, false, t, s2.paused);
    } else {
        assert(events.take(0) =~= Seq::<bool>::empty());
    }
}

} // verus!

verus! {

// ── The detector command's output ───────────────────────────────────────────

/// Why a sample could not be taken.
#[derive(Debug)]
pub enum SampleError {
    /// The detector command could not be started, or exited unsuccessfully.
    CommandFailed(String),
    /// A line of the detector's output is not `<value>\t<entity>`.
    ParseFailed { line: String, detail: String },
}

/// One `<value>\t<entity>` line of the detector's output.
pub struct DetectorRecord {
    /// The whole line, trimmed.
    pub line: String,
    /// The text before the first tab, as it stands.
    pub value_field: String,
    /// The text before the first tab, trimmed: the number to read.
    pub value: String,
    /// The text after the first tab, trimmed.
    pub entity: String,
}

/// The trimmed lines of `ls` that are not empty once trimmed, in order.
pub open spec fn nonblank(ls: Seq<Seq<char>>) -> Seq<Seq<char>>
    decreases ls.len(),
{
    if ls.len() == 0 {
        seq![]
    } else {
        let rest = nonblank(ls.drop_last());
        let t = trim(ls.last());
        if t.len() > 0 {
            rest.push(t)
        } else {
            rest
        }
    }
}

/// The lines of the detector's output that carry a sample.
pub open spec fn sample_lines(stdout: Seq<char>) -> Seq<Seq<char>> {
    nonblank(lines(stdout))
}

/// Index of the first tab of `l`, or `l.len()` when it has none.
pub open spec fn tab_index(l: Seq<char>) -> nat {
    find_from(l, 0, '\t')
}

pub open spec fn has_tab(l: Seq<char>) -> bool {
    tab_index(l) < l.len()
}

/// What `parse_detector_output` records of a sample line `l`: the line, the
/// value field before its first tab, that field trimmed, and the entity after
/// the tab, trimmed.
pub open spec fn record_of(l: Seq<char>) -> (Seq<char>, Seq<char>, Seq<char>, Seq<char>) {
    let t = tab_index(l) as int;
    (l, l.subrange(0, t), trim(l.subrange(0, t)), trim(l.subrange(t + 1, l.len() as int)))
}

pub open spec fn record_view(r: DetectorRecord) -> (Seq<char>, Seq<char>, Seq<char>, Seq<char>) {
    (r.line@, r.value_field@, r.value@, r.entity@)
}

proof fn lemma_nonblank_prefix(ls: Seq<Seq<char>>, j: int)
    requires
        0 <= j <= ls.len(),
    ensures
        nonblank(ls.take(j)).len() <= nonblank(ls).len(),
        forall|i: int|
            0 <= i < nonblank(ls.take(j)).len() ==> nonblank(ls.take(j))[i] == nonblank(ls)[i],
    decreases ls.len(),
{
    if j < ls.len() {
        let d = ls.drop_last();
        lemma_nonblank_prefix(d, j);
        assert(d.take(j) =~= ls.take(j));
    } else {
        assert(ls.take(j) =~= ls);
    }
}

/// The message of a line that is not `<value>\t<entity>`.
pub open spec fn missing_tab_detail() -> Seq<char> {
    "expected tab-separated <value>\\t<entity>"@
}

/// Reads the detector's output line by line, as far as the first sample line
/// that has no tab: blank lines are skipped, and each sample line is split at
/// its first tab.  The records come back in order; the error, when there is
/// one, is for the first sample line without a tab, and no record is given
/// for lines after it.  Reading the values as numbers is the caller's part.
pub fn parse_detector_output(stdout: &str) -> (r: (Vec<DetectorRecord>, Option<SampleError>))
    ensures
        ({
            let ls = sample_lines(stdout@);
            let k = r.0@.len();
            &&& k <= ls.len()
            &&& forall|i: int| 0 <= i < k ==> has_tab(#[trigger] ls[i])
            &&& forall|i: int| 0 <= i < k ==> record_view(#[trigger] r.0@[i]) == record_of(ls[i])
            &&& r.1 is None <==> k == ls.len()
            &&& r.1 matches Some(e) ==> {
                &&& !has_tab(ls[k as int])
                &&& e matches SampleError::ParseFailed { line, detail }
                &&& line@ == ls[k as int]
                &&& detail@ == missing_tab_detail()
            }
        }),
{
    let all = split_lines(stdout);
    let ghost vs = views(all@);
    let mut records: Vec<DetectorRecord> = Vec::new();
    let mut i: usize = 0;
    while i < all.len()
        invariant
            vs == views(all@),
            vs == lines(stdout@),
            i <= all@.len(),
            records@.len() == nonblank(vs.take(i as int)).len(),
            forall|j: int|
                0 <= j < records@.len() ==> has_tab(#[trigger] nonblank(vs.take(i as int))[j]),
            forall|j: int|
                0 <= j < records@.len() ==> record_view(#[trigger] records@[j]) == record_of(
                    nonblank(vs.take(i as int))[j],
                ),
        decreases all@.len() - i,
    {
        let ghost pre = vs.take(i as int);
        assert(vs.take(i + 1).drop_last() =~= pre);
        assert(vs.take(i + 1).last() == all@[i as int]@);
        let trimmed = trim_str(all[i].as_str());
        let cs = chars_of(trimmed);
        if cs.len() > 0 {
            let t = find_char(&cs, 0, '\t');
            proof {
                lemma_find_from(cs@, 0, '\t');
            }
            if t == cs.len() {
                proof {
                    lemma_nonblank_prefix(vs, i + 1);
                    assert(vs.take(vs.len() as int) =~= vs);
                }
                let err = SampleError::ParseFailed {
                    line: trimmed.to_owned(),
                    detail: "expected tab-separated <value>\\t<entity>".to_owned(),
                };
                return (records, Some(err));
            }
            let value_field = trimmed.substring_char(0, t);
            let rest = trimmed.substring_char(t + 1, cs.len());
            let record = DetectorRecord {
                line: trimmed.to_owned(),
                value_field: value_field.to_owned(),
                value: trim_str(value_field).to_owned(),
                entity: trim_str(rest).to_owned(),
            };
            records.push(record);
        }
        i += 1;
    }
    assert(vs.take(i as int) =~= vs);
    (records, None)
}

/// The error for a detector command that could not be started.
pub fn spawn_failure(error: &str) -> (e: SampleError)
    ensures
        e matches SampleError::CommandFailed(m) && m@ == "failed to spawn: "@ + error@,
{
    SampleError::CommandFailed("failed to spawn: ".to_owned().concat(error))
}

/// The error for a detector command that exited unsuccessfully: its exit
/// status and its standard error, trimmed.
pub fn exit_failure(status: &str, stderr: &str) -> (e: SampleError)
    ensures
        e matches SampleError::CommandFailed(m) && m@ == "exited "@ + status@ + ": "@ + trim(
            stderr@,
        ),
{
    let m = "exited ".to_owned().concat(status).concat(": ").concat(trim_str(stderr));
    SampleError::CommandFailed(m)
}

} // verus!
