//! Units that combine the updates from other units.

use vstd::prelude::*;
use rand::Rng;
use crate::comms::{gate_text, GateMetrics, Terminated, UnitStatus};
use crate::metrics::{simple_metric_text, Metric, MetricType, MetricUnit, Target};
use crate::payload::{lemma_sorted_no_dup, PayloadSet};
use crate::rtr::PayloadV;
use crate::text::{push_signed_decimal, signed_decimal};
use crate::utils::time::Timestamp;

verus! {

//------------ SourceHealth --------------------------------------------------

/// What the `Any` unit needs to know of one of its sources.
#[derive(Clone, Copy, Debug, PartialEq, Eq, Structural)]
pub struct SourceHealth {
    /// The status of the source unit.
    pub status: UnitStatus,

    /// Whether the source unit has produced a data set.
    pub has_update: bool,
}

/// The source at step `k` when going around `n` sources from `start`.
pub open spec fn around(start: int, k: int, n: int) -> int {
    if start + k < n {
        start + k
    } else {
        start + k - n
    }
}

/// A source that is healthy and has a data set.
pub open spec fn ready(s: SourceHealth) -> bool {
    s.status == UnitStatus::Healthy && s.has_update
}

/// The first ready source when going around from `start`, looking at
/// steps `k` and later.
pub open spec fn first_ready(sources: Seq<SourceHealth>, start: int, k: int) -> Option<int>
    decreases sources.len() - k,
{
    if k >= sources.len() {
        None
    } else if ready(sources[around(start, k, sources.len() as int)]) {
        Some(around(start, k, sources.len() as int))
    } else {
        first_ready(sources, start, k + 1)
    }
}

/// The outcome of picking a source, going around from `start`: the first
/// ready source; none if there isn’t one; an error if all sources have
/// gone.
pub open spec fn pick_result(sources: Seq<SourceHealth>, start: int) -> Result<
    Option<usize>,
    Terminated,
> {
    match first_ready(sources, start, 0) {
        Some(i) => Ok(Some(i as usize)),
        None => if forall|i: int| 0 <= i < sources.len() ==> #[trigger] sources[i].status
            == UnitStatus::Gone {
            Err(Terminated)
        } else {
            Ok(None)
        },
    }
}

/// Returns a random index below `len`.
///
/// Calls `gen_range` of the rand crate on the thread’s random number
/// generator. The result is below `len`; which one it is, is left to
/// chance.
#[verifier::external_body]
fn random_index(len: usize) -> (res: usize)
    requires
        len > 0,
    ensures
        res < len,
{
    rand::thread_rng().gen_range(0..len)
}

//------------ Any -----------------------------------------------------------

/// A unit selecting updates from one working unit from a set.
#[derive(Clone, Copy, Debug)]
pub struct Any {
    /// Whether to pick randomly from the sources.
    random: bool,
}

impl Any {
    /// Whether the unit picks randomly.
    pub closed spec fn random_spec(&self) -> bool {
        self.random
    }

    /// Creates the unit.
    pub fn new(random: bool) -> (res: Any)
        ensures
            res.random_spec() == random,
    {
        Any { random }
    }

    /// Picks the next healthy source, going around from `start`.
    pub fn pick_from(sources: &[SourceHealth], start: usize) -> (res: Result<
        Option<usize>,
        Terminated,
    >)
        requires
            start < sources@.len(),
        ensures
            res == pick_result(sources@, start as int),
    {
        let n = sources.len();
        let mut next = start;
        let mut only_gone = true;
        let mut k: usize = 0;
        while k < n
            invariant
                n == sources@.len(),
                start < n,
                k <= n,
                next == around(start as int, k as int, n as int),
                first_ready(sources@, start as int, 0) == first_ready(
                    sources@,
                    start as int,
                    k as int,
                ),
                only_gone == forall|j: int|
                    0 <= j < k ==> #[trigger] sources@[around(start as int, j, n as int)].status
                        == UnitStatus::Gone,
            decreases n - k,
        {
            let source = sources[next];
            match source.status {
                UnitStatus::Healthy => {
                    if source.has_update {
                        return Ok(Some(next));
                    }
                    only_gone = false;
                },
                UnitStatus::Stalled => {
                    only_gone = false;
                },
                UnitStatus::Gone => {},
            }
            next = if next + 1 == n {
                0
            } else {
                next + 1
            };
            k = k + 1;
        }
        proof {
            assert(only_gone == forall|i: int|
                0 <= i < n ==> #[trigger] sources@[i].status == UnitStatus::Gone) by {
                if only_gone {
                    assert forall|i: int| 0 <= i < n implies #[trigger] sources@[i].status
                        == UnitStatus::Gone by {
                        let j = if i >= start {
                            i - start
                        } else {
                            i + n - start
                        };
                        assert(around(start as int, j, n as int) == i);
                    }
                }
            }
        }
        if only_gone {
            Err(Terminated)
        } else {
            Ok(None)
        }
    }

    /// Picks the next healthy source.
    ///
    /// When picking randomly, the search starts at a random source,
    /// otherwise after the current one, or at the first one if there is no
    /// current one. It returns the first source that is healthy and has
    /// a data set, `None` if there is none, and fails if all sources have
    /// gone, so also if there are no sources at all.
    pub fn pick(&self, sources: &[SourceHealth], curr: Option<usize>) -> (res: Result<
        Option<usize>,
        Terminated,
    >)
        requires
            curr matches Some(c) ==> c < usize::MAX,
        ensures
            sources@.len() == 0 ==> res == Err::<Option<usize>, Terminated>(Terminated),
            self.random_spec() && sources@.len() > 0 ==> exists|start: int|
                0 <= start < sources@.len() && res == pick_result(sources@, start),
            !self.random_spec() ==> res == pick_result(
                sources@,
                match curr {
                    Some(c) => (c + 1) % (sources@.len() as int),
                    None => 0,
                },
            ),
    {
        let n = sources.len();
        if n == 0 {
            return Err(Terminated);
        }
        let start = if self.random {
            random_index(n)
        } else if let Some(curr) = curr {
            (curr + 1) % n
        } else {
            0
        };
        Self::pick_from(sources, start)
    }
}


//------------ Any: reacting to sources --------------------------------------

/// What a source reports.
#[derive(Clone, Copy, Debug, PartialEq, Eq, Structural)]
pub enum SourceEvent {
    /// A new data set.
    Payload,

    /// The source has stalled.
    Stalled,

    /// The source has gone for good.
    Gone,
}

/// What the unit reports after picking a source.
#[derive(Clone, Copy, Debug, PartialEq, Eq, Structural)]
pub enum PickReport {
    /// The data set of the picked source.
    Payload(usize),

    /// There is no source with data: the unit has stalled.
    Stalled,

    /// All sources have gone: so has the unit, and it ends.
    Gone,
}

/// What the unit does with a report from one of its sources.
#[derive(Clone, Copy, Debug, PartialEq, Eq, Structural)]
pub enum AnyStep {
    /// Pass the data set on.
    Forward,

    /// Pick a source again.
    Repick,

    /// Nothing.
    Ignore,
}

impl Any {
    /// Returns what to report after picking: the data set of the picked
    /// source if it has one, that the unit has stalled if it picked none or
    /// one without data, or that it has gone if all sources have.
    pub fn report_pick(picked: Result<Option<usize>, Terminated>, has_payload: bool) -> (res:
        PickReport)
        ensures
            res == match picked {
                Err(_) => PickReport::Gone,
                Ok(None) => PickReport::Stalled,
                Ok(Some(idx)) => if has_payload {
                    PickReport::Payload(idx)
                } else {
                    PickReport::Stalled
                },
            },
    {
        match picked {
            Err(_) => PickReport::Gone,
            Ok(None) => PickReport::Stalled,
            Ok(Some(idx)) => if has_payload {
                PickReport::Payload(idx)
            } else {
                PickReport::Stalled
            },
        }
    }

    /// Returns what to do with a report from source `idx` while `curr` is
    /// the current source.
    ///
    /// A data set of the current source is passed on. A data set of
    /// another source leads to picking again if there is no current source.
    /// If the current source stalls or goes, another one is picked.
    /// Everything else is ignored.
    pub fn step(curr: Option<usize>, idx: usize, event: SourceEvent) -> (res: AnyStep)
        ensures
            res == match event {
                SourceEvent::Payload => if curr == Some(idx) {
                    AnyStep::Forward
                } else if curr is None {
                    AnyStep::Repick
                } else {
                    AnyStep::Ignore
                },
                _ => if curr == Some(idx) {
                    AnyStep::Repick
                } else {
                    AnyStep::Ignore
                },
            },
    {
        let is_current = match curr {
            Some(c) => c == idx,
            None => false,
        };
        match event {
            SourceEvent::Payload => if is_current {
                AnyStep::Forward
            } else if curr.is_none() {
                AnyStep::Repick
            } else {
                AnyStep::Ignore
            },
            _ => if is_current {
                AnyStep::Repick
            } else {
                AnyStep::Ignore
            },
        }
    }
}

//------------ Any: laws -----------------------------------------------------

/// The first ready source found from step `k` on is ready and is one of
/// the sources; if none is found, no source at those steps is ready.
proof fn lemma_first_ready(sources: Seq<SourceHealth>, start: int, k: int)
    requires
        0 <= start < sources.len(),
        0 <= k,
    ensures
        first_ready(sources, start, k) matches Some(i) ==> 0 <= i < sources.len() && ready(
            sources[i],
        ),
        first_ready(sources, start, k) is None ==> forall|j: int|
            k <= j < sources.len() ==> !ready(
                #[trigger] sources[around(start, j, sources.len() as int)],
            ),
    decreases sources.len() - k,
{
    if k < sources.len() {
        lemma_first_ready(sources, start, k + 1);
    }
}

/// Picking, from wherever it starts, finds a source that is healthy and has
/// a data set whenever there is one, and picks only such a source. It finds
/// none but goes on while some source has not gone, and fails once all
/// have gone.
pub proof fn law_pick_finds_ready(sources: Seq<SourceHealth>, start: int)
    requires
        0 <= start < sources.len(),
        sources.len() <= usize::MAX,
    ensures
        pick_result(sources, start) matches Ok(Some(i)) ==> i < sources.len() && ready(
            sources[i as int],
        ),
        (exists|i: int| 0 <= i < sources.len() && ready(#[trigger] sources[i])) ==> pick_result(
            sources,
            start,
        ) matches Ok(Some(_)),
        pick_result(sources, start) == Ok::<Option<usize>, Terminated>(None) <==> (forall|i: int|
            0 <= i < sources.len() ==> !ready(#[trigger] sources[i])) && exists|i: int|
            0 <= i < sources.len() && #[trigger] sources[i].status != UnitStatus::Gone,
        pick_result(sources, start) is Err <==> forall|i: int|
            0 <= i < sources.len() ==> #[trigger] sources[i].status == UnitStatus::Gone,
{
    let n = sources.len() as int;
    lemma_first_ready(sources, start, 0);
    if first_ready(sources, start, 0) is None {
        assert forall|i: int| 0 <= i < n implies !ready(#[trigger] sources[i]) by {
            let j = if i >= start {
                i - start
            } else {
                i + n - start
            };
            assert(around(start, j, n) == i);
        }
    }
    match first_ready(sources, start, 0) {
        Some(i) => {
            assert((i as usize) as int == i);
            assert(sources[i].status != UnitStatus::Gone);
        },
        None => {},
    }
}

//------------ AnyMetrics ----------------------------------------------------

/// The metric of the index of the current source.
pub open spec fn current_index_metric() -> Metric {
    Metric {
        name: "current_index",
        help: "the index of the currenly selected source",
        metric_type: MetricType::Gauge,
        unit: MetricUnit::Info,
    }
}

/// The value shown for the current source: its index as a signed number,
/// or -1 if there is none.
pub open spec fn current_index_value(current: Option<usize>) -> int {
    match current {
        Some(index) => (index as isize) as int,
        None => -1,
    }
}

/// The metrics of a unit selecting one of its sources.
#[derive(Clone, Copy, Debug)]
pub struct AnyMetrics {
    /// The index of the currently selected source, if any.
    current_index: Option<usize>,
}

impl AnyMetrics {
    /// The index of the currently selected source.
    pub closed spec fn current_spec(&self) -> Option<usize> {
        self.current_index
    }

    /// Creates metrics without a selected source.
    pub fn new() -> (res: AnyMetrics)
        ensures
            res.current_spec() is None,
    {
        AnyMetrics { current_index: None }
    }

    /// Sets the index of the currently selected source.
    pub fn set_current(&mut self, current: Option<usize>)
        ensures
            final(self).current_spec() == current,
    {
        self.current_index = current;
    }

    /// Appends the index of the current source, then the update metrics of
    /// the unit to a target at the time `now`.
    pub fn append(&self, gate: &GateMetrics, unit_name: &str, target: &mut Target, now: Timestamp)
        ensures
            final(target).format() == old(target).format(),
            final(target)@ == old(target)@ + simple_metric_text(
                old(target).format(),
                current_index_metric(),
                Some(unit_name@),
                signed_decimal(current_index_value(self.current_spec())),
            ) + gate_text(
                old(target).format(),
                unit_name@,
                gate.status_spec(),
                gate.count_spec(),
                gate.update_spec(),
                now,
            ),
    {
        let value: i128 = match self.current_index {
            Some(index) => (index as isize) as i128,
            None => -1,
        };
        let mut text = String::new();
        push_signed_decimal(&mut text, value);
        let metric = Metric::new(
            "current_index",
            "the index of the currenly selected source",
            MetricType::Gauge,
            MetricUnit::Info,
        );
        target.append_simple(&metric, Some(unit_name), text.as_str());
        gate.append(unit_name, target, now);
    }
}


//------------ Merge ---------------------------------------------------------

/// Whether a source of a merge contributes its data set: it is healthy and
/// has one.
pub open spec fn contributes(source: (UnitStatus, Option<PayloadSet>)) -> bool {
    source.0 == UnitStatus::Healthy && source.1 is Some
}

/// The values of the merged data sets of the sources that contribute.
pub open spec fn merged(sources: Seq<(UnitStatus, Option<PayloadSet>)>) -> Set<PayloadV>
    decreases sources.len(),
{
    if sources.len() == 0 {
        Set::empty()
    } else {
        let last = sources.last();
        let prev = merged(sources.drop_last());
        if contributes(last) {
            prev + last.1->0@.to_set()
        } else {
            prev
        }
    }
}

/// The number of items in the data sets of the sources.
pub open spec fn source_items(sources: Seq<(UnitStatus, Option<PayloadSet>)>) -> nat
    decreases sources.len(),
{
    if sources.len() == 0 {
        0
    } else {
        source_items(sources.drop_last()) + match sources.last().1 {
            Some(set) => set@.len(),
            None => 0,
        }
    }
}

/// The data sets of the sources are valid.
pub open spec fn sources_wf(sources: Seq<(UnitStatus, Option<PayloadSet>)>) -> bool {
    forall|i: int|
        0 <= i < sources.len() ==> ((#[trigger] sources[i]).1 matches Some(set) ==> set.wf())
}

/// The items of the first sources and the next one count towards those of
/// all sources.
proof fn lemma_source_items_take(sources: Seq<(UnitStatus, Option<PayloadSet>)>, i: int)
    requires
        0 <= i < sources.len(),
    ensures
        source_items(sources.take(i + 1)) == source_items(sources.take(i)) + match sources[i].1 {
            Some(set) => set@.len(),
            None => 0,
        },
        source_items(sources.take(i + 1)) <= source_items(sources),
    decreases sources.len() - i,
{
    let t = sources.take(i + 1);
    assert(t.drop_last() =~= sources.take(i));
    if i + 1 < sources.len() {
        lemma_source_items_take(sources, i + 1);
    } else {
        assert(t =~= sources);
    }
}

/// Returns the merged data sets of the sources of a merge unit that are
/// healthy and have a data set, given with their status.
pub fn merge_sources(sources: &Vec<(UnitStatus, Option<PayloadSet>)>) -> (res: PayloadSet)
    requires
        sources_wf(sources@),
        source_items(sources@) <= usize::MAX,
    ensures
        res.wf(),
        res@.to_set() == merged(sources@),
{
    let mut output = PayloadSet::default();
    let mut i: usize = 0;
    proof {
        assert(sources@.take(0) =~= Seq::<(UnitStatus, Option<PayloadSet>)>::empty());
        assert(output@.to_set() =~= Set::<PayloadV>::empty());
    }
    while i < sources.len()
        invariant
            sources_wf(sources@),
            source_items(sources@) <= usize::MAX,
            i <= sources@.len(),
            output.wf(),
            output@.to_set() == merged(sources@.take(i as int)),
            output@.len() <= source_items(sources@.take(i as int)),
        decreases sources@.len() - i,
    {
        proof {
            lemma_source_items_take(sources@, i as int);
            let t = sources@.take(i + 1);
            assert(t.drop_last() =~= sources@.take(i as int));
            assert(t.last() == sources@[i as int]);
        }
        let source = &sources[i];
        if source.0 == UnitStatus::Healthy {
            if let Some(set) = &source.1 {
                assert(sources@[i as int].1 matches Some(s) && s.wf());
                let ghost before = output@;
                let next = output.merge(set);
                proof {
                    next.lemma_view();
                    lemma_sorted_no_dup(next@);
                    output.lemma_view();
                    lemma_sorted_no_dup(before);
                    set.lemma_view();
                    lemma_sorted_no_dup(set@);
                    vstd::set_lib::lemma_len_union(before.to_set(), set@.to_set());
                }
                output = next;
            }
        }
        i = i + 1;
    }
    proof {
        assert(sources@.take(sources@.len() as int) =~= sources@);
    }
    output
}

/// What a merge unit reports after one of its sources reported.
#[derive(Debug)]
pub enum MergeReport {
    /// The merged data sets of the sources that contribute.
    Payload(PayloadSet),

    /// The unit has no sources: it has gone, and it ends.
    Gone,
}

/// Returns what a merge unit with the given sources reports: that it has
/// gone if it has no sources, else the merged data sets of the sources that
/// are healthy and have a data set.
pub fn merge_report(sources: &Vec<(UnitStatus, Option<PayloadSet>)>) -> (res: MergeReport)
    requires
        sources_wf(sources@),
        source_items(sources@) <= usize::MAX,
    ensures
        sources@.len() == 0 <==> res is Gone,
        res matches MergeReport::Payload(set) ==> set.wf() && set@.to_set() == merged(sources@),
{
    if sources.len() == 0 {
        MergeReport::Gone
    } else {
        MergeReport::Payload(merge_sources(sources))
    }
}

} // verus!
