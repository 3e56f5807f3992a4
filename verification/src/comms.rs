//! The statuses exchanged between components.
//!
//! A unit sends updates through a gate to the links connected to it. The
//! gate is active while at least one of its links wants updates and
//! dormant otherwise; a unit reports whether it is healthy, stalled, or
//! gone.

use vstd::prelude::*;
use crate::metrics::{metric_header, metric_name, simple_metric_text, Metric, MetricType, MetricUnit, OutputFormat, Target};
use crate::payload::Update;
use crate::text::{decimal, is_digit, law_decimal_read_after, push_decimal, push_seconds, seconds_text};
use crate::utils::time::{format_utc, millis_between, millis_since, utc_text, Timestamp};

verus! {

//------------ GateStatus ----------------------------------------------------

/// The status of a gate.
#[derive(Clone, Copy, Debug, PartialEq, Eq, Structural)]
pub enum GateStatus {
    /// Some link is interested in updates.
    ///
    /// The unit owning this gate should produce updates.
    Active,

    /// None of the links is interested in updates.
    ///
    /// This doesn’t necessarily mean that there are no links at all, only
    /// that currently none of the links is interested in receiving updates
    /// from this unit.
    Dormant,
}

impl Default for GateStatus {
    fn default() -> (res: GateStatus)
        ensures
            res == GateStatus::Active,
    {
        GateStatus::Active
    }
}

/// Returns the status of a gate with `links` links of which `suspended`
/// are suspended: dormant if all of them are.
pub fn gate_status(suspended: usize, links: usize) -> (res: GateStatus)
    ensures
        res == (if suspended == links {
            GateStatus::Dormant
        } else {
            GateStatus::Active
        }),
{
    if suspended == links {
        GateStatus::Dormant
    } else {
        GateStatus::Active
    }
}

//------------ GateLinks -----------------------------------------------------

/// The links subscribed to a gate, by slot.
///
/// A slot holds a link, which is suspended or not, or is free. A new link
/// takes the slot freed last, or a new one if none is free.
pub struct GateLinks {
    /// The slots: whether the link in it is suspended, `None` if free.
    slots: Vec<Option<bool>>,

    /// The free slots, the one freed last at the end.
    free: Vec<usize>,
}

impl GateLinks {
    /// The slots: whether the link in each is suspended, `None` for a free
    /// one.
    pub closed spec fn slots(&self) -> Seq<Option<bool>> {
        self.slots@
    }

    /// The free slots, the one freed last at the end.
    pub closed spec fn free(&self) -> Seq<usize> {
        self.free@
    }

    /// The free slots are exactly those without a link, each listed once.
    pub open spec fn wf(&self) -> bool {
        &&& forall|i: int| 0 <= i < self.free().len() ==> (#[trigger] self.free()[i]) < self.slots().len()
        &&& forall|i: int|
            0 <= i < self.free().len() ==> self.slots()[#[trigger] self.free()[i] as int] is None
        &&& forall|i: int, j: int|
            0 <= i < j < self.free().len() ==> #[trigger] self.free()[i] != #[trigger] self.free()[j]
        &&& forall|k: int|
            0 <= k < self.slots().len() && #[trigger] self.slots()[k] is None ==> self.free().contains(
                k as usize,
            )
    }

    /// Creates a gate without links.
    pub fn new() -> (res: GateLinks)
        ensures
            res.wf(),
            res.slots().len() == 0,
            res.free().len() == 0,
    {
        GateLinks { slots: Vec::new(), free: Vec::new() }
    }

    /// Adds a link and returns its slot: the slot freed last, or a new one
    /// at the end if none is free.
    pub fn subscribe(&mut self, suspended: bool) -> (slot: usize)
        requires
            old(self).wf(),
            old(self).slots().len() < usize::MAX,
        ensures
            final(self).wf(),
            old(self).free().len() == 0 ==> slot == old(self).slots().len() && final(self).slots()
                == old(self).slots().push(Some(suspended)) && final(self).free() == old(self).free(),
            old(self).free().len() > 0 ==> slot == old(self).free().last() && final(self).slots()
                == old(self).slots().update(slot as int, Some(suspended)) && final(self).free()
                == old(self).free().drop_last(),
    {
        match self.free.pop() {
            None => {
                let slot = self.slots.len();
                self.slots.push(Some(suspended));
                proof {
                    assert forall|k: int|
                        0 <= k < self.slots().len() && #[trigger] self.slots()[k] is None implies self.free().contains(
                        k as usize,
                    ) by {
                        assert(k < slot);
                        assert(old(self).slots()[k] is None);
                    }
                }
                slot
            },
            Some(slot) => {
                self.slots[slot] = Some(suspended);
                proof {
                    let f = old(self).free();
                    assert(self.free() =~= f.drop_last());
                    assert forall|k: int|
                        0 <= k < self.slots().len() && #[trigger] self.slots()[k] is None implies self.free().contains(
                        k as usize,
                    ) by {
                        assert(old(self).slots()[k] is None);
                        assert(f.contains(k as usize));
                        let i = choose|i: int| 0 <= i < f.len() && f[i] == k as usize;
                        if i == f.len() - 1 {
                            assert(false);
                        }
                        assert(self.free()[i] == k as usize);
                    }
                    assert forall|i: int| 0 <= i < self.free().len() implies self.slots()[
                        #[trigger] self.free()[i] as int
                    ] is None by {
                        assert(f[i] != f[f.len() - 1]);
                    }
                }
                slot
            },
        }
    }

    /// Removes the link in a slot, freeing the slot.
    pub fn unsubscribe(&mut self, slot: usize)
        requires
            old(self).wf(),
            slot < old(self).slots().len(),
            old(self).slots()[slot as int] is Some,
        ensures
            final(self).wf(),
            final(self).slots() == old(self).slots().update(slot as int, None),
            final(self).free() == old(self).free().push(slot),
    {
        self.slots[slot] = None;
        self.free.push(slot);
        proof {
            let f = old(self).free();
            assert forall|i: int| 0 <= i < self.free().len() implies self.slots()[
                #[trigger] self.free()[i] as int
            ] is None by {
                if i < f.len() {
                    assert(self.free()[i] == f[i]);
                }
            }
            assert forall|i: int, j: int|
                0 <= i < j < self.free().len() implies #[trigger] self.free()[i] != #[trigger] self.free()[j] by {
                if j == f.len() {
                    assert(self.free()[i] == f[i]);
                    assert(old(self).slots()[f[i] as int] is None);
                } else {
                    assert(self.free()[i] == f[i] && self.free()[j] == f[j]);
                }
            }
            assert forall|k: int|
                0 <= k < self.slots().len() && #[trigger] self.slots()[k] is None implies self.free().contains(
                k as usize,
            ) by {
                if k == slot {
                    assert(self.free()[f.len() as int] == slot);
                } else {
                    assert(old(self).slots()[k] is None);
                    let i = choose|i: int| 0 <= i < f.len() && f[i] == k as usize;
                    assert(self.free()[i] == k as usize);
                }
            }
        }
    }

    /// Suspends or resumes the link in a slot; a free or unknown slot is
    /// left alone.
    pub fn suspension(&mut self, slot: usize, suspend: bool)
        requires
            old(self).wf(),
        ensures
            final(self).wf(),
            final(self).free() == old(self).free(),
            slot < old(self).slots().len() && old(self).slots()[slot as int] is Some
                ==> final(self).slots() == old(self).slots().update(slot as int, Some(suspend)),
            !(slot < old(self).slots().len() && old(self).slots()[slot as int] is Some)
                ==> final(self).slots() == old(self).slots(),
    {
        if slot < self.slots.len() && self.slots[slot].is_some() {
            self.slots[slot] = Some(suspend);
            proof {
                assert forall|k: int|
                    0 <= k < self.slots().len() && #[trigger] self.slots()[k] is None implies self.free().contains(
                    k as usize,
                ) by {
                    assert(old(self).slots()[k] is None);
                }
            }
        }
    }

    /// Returns whether any link wants updates: the links are dormant if
    /// each of them is suspended or there are none.
    pub fn status(&self) -> (res: GateStatus)
        ensures
            res == (if (forall|k: int|
                0 <= k < self.slots().len() ==> (#[trigger] self.slots()[k] matches Some(s) ==> s)) {
                GateStatus::Dormant
            } else {
                GateStatus::Active
            }),
    {
        let mut k: usize = 0;
        while k < self.slots.len()
            invariant
                k <= self.slots().len(),
                forall|j: int| 0 <= j < k ==> (#[trigger] self.slots()[j] matches Some(s) ==> s),
            decreases self.slots().len() - k,
        {
            if let Some(false) = self.slots[k] {
                assert(!(self.slots()[k as int] matches Some(s) ==> s));
                return GateStatus::Active;
            }
            k = k + 1;
        }
        GateStatus::Dormant
    }

    /// Returns the slots of the links that get a new data set, in order:
    /// those not suspended.
    pub fn data_receivers(&self) -> (res: Vec<usize>)
        ensures
            res@ == receivers(self.slots(), false),
    {
        self.receivers(false)
    }

    /// Returns the slots of the links that get a new unit status, in
    /// order: all of them.
    pub fn status_receivers(&self) -> (res: Vec<usize>)
        ensures
            res@ == receivers(self.slots(), true),
    {
        self.receivers(true)
    }

    /// Returns the slots of the links, suspended ones only if asked for.
    fn receivers(&self, with_suspended: bool) -> (res: Vec<usize>)
        ensures
            res@ == receivers(self.slots(), with_suspended),
    {
        let mut res: Vec<usize> = Vec::new();
        let mut k: usize = 0;
        while k < self.slots.len()
            invariant
                k <= self.slots().len(),
                res@ == receivers(self.slots().take(k as int), with_suspended),
            decreases self.slots().len() - k,
        {
            proof {
                assert(self.slots().take(k + 1).drop_last() =~= self.slots().take(k as int));
            }
            match self.slots[k] {
                Some(suspended) => {
                    if with_suspended || !suspended {
                        res.push(k);
                    }
                },
                None => {},
            }
            k = k + 1;
        }
        proof {
            assert(self.slots().take(self.slots().len() as int) =~= self.slots());
        }
        res
    }

    /// Removes the links that could not be reached, given by their slots
    /// in order, freeing the slots in that order.
    pub fn drop_links(&mut self, closed: &Vec<usize>)
        requires
            old(self).wf(),
            forall|i: int, j: int| 0 <= i < j < closed@.len() ==> closed@[i] < closed@[j],
            forall|i: int|
                0 <= i < closed@.len() ==> (#[trigger] closed@[i]) < old(self).slots().len()
                    && old(self).slots()[closed@[i] as int] is Some,
        ensures
            final(self).wf(),
            final(self).free() == old(self).free() + closed@,
            final(self).slots().len() == old(self).slots().len(),
            forall|k: int|
                0 <= k < final(self).slots().len() ==> #[trigger] final(self).slots()[k] == if closed@.contains(
                    k as usize,
                ) {
                    None
                } else {
                    old(self).slots()[k]
                },
    {
        let mut i: usize = 0;
        while i < closed.len()
            invariant
                self.wf(),
                i <= closed@.len(),
                forall|a: int, b: int| 0 <= a < b < closed@.len() ==> closed@[a] < closed@[b],
                forall|a: int|
                    0 <= a < closed@.len() ==> (#[trigger] closed@[a]) < old(self).slots().len()
                        && old(self).slots()[closed@[a] as int] is Some,
                self.free() == old(self).free() + closed@.take(i as int),
                self.slots().len() == old(self).slots().len(),
                forall|k: int|
                    0 <= k < self.slots().len() ==> #[trigger] self.slots()[k] == if closed@.take(
                        i as int,
                    ).contains(k as usize) {
                        None
                    } else {
                        old(self).slots()[k]
                    },
            decreases closed@.len() - i,
        {
            let slot = closed[i];
            proof {
                if closed@.take(i as int).contains(slot) {
                    let a = choose|a: int| 0 <= a < i && closed@.take(i as int)[a] == slot;
                    assert(closed@[a] < closed@[i as int]);
                }
            }
            self.unsubscribe(slot);
            let n = self.slots.len();
            proof {
                assert(self.slots().len() == n);
                let t0 = closed@.take(i as int);
                let t1 = closed@.take(i + 1);
                assert(t1 =~= t0.push(slot));
                assert forall|k: int| 0 <= k < self.slots().len() implies #[trigger] self.slots()[k]
                    == if t1.contains(k as usize) {
                    None
                } else {
                    old(self).slots()[k]
                } by {
                    assert((k as usize) as int == k);
                    if k == slot {
                        assert(t1[i as int] == slot);
                    } else if t1.contains(k as usize) {
                        let a = choose|a: int| 0 <= a < t1.len() && t1[a] == k as usize;
                        assert((k as usize) as int == k);
                        if a == i {
                            assert(t1[a] == slot);
                        }
                        assert(t0[a] == k as usize);
                    } else {
                        assert(!t0.contains(k as usize)) by {
                            if t0.contains(k as usize) {
                                let a = choose|a: int| 0 <= a < t0.len() && t0[a] == k as usize;
                                assert(t1[a] == k as usize);
                            }
                        }
                    }
                }
            }
            i = i + 1;
        }
        proof {
            assert(closed@.take(closed@.len() as int) =~= closed@);
        }
    }
}

/// The slots of the links in order, suspended ones only if asked for.
pub open spec fn receivers(slots: Seq<Option<bool>>, with_suspended: bool) -> Seq<usize>
    decreases slots.len(),
{
    if slots.len() == 0 {
        Seq::empty()
    } else {
        let prev = receivers(slots.drop_last(), with_suspended);
        match slots.last() {
            Some(suspended) => if with_suspended || !suspended {
                prev.push((slots.len() - 1) as usize)
            } else {
                prev
            },
            None => prev,
        }
    }
}

/// Returns whether a unit’s new status is sent to its links, and sets it:
/// only a status that differs from the current one is.
pub fn set_unit_status(current: &mut UnitStatus, status: UnitStatus) -> (res: bool)
    ensures
        res == (*old(current) != status),
        *final(current) == status,
{
    let res = *current != status;
    *current = status;
    res
}

//------------ UnitStatus ----------------------------------------------------

/// The operational status of a unit.
#[derive(Clone, Copy, Debug, PartialEq, Eq, Structural)]
pub enum UnitStatus {
    /// The unit is ready to produce data updates.
    ///
    /// Note that this status does not necessarily mean that the unit is
    /// actually producing updates, only that it could. That is, if a unit’s
    /// gate is dormant and the unit ceases operation because nobody cares,
    /// it is still in healthy status.
    Healthy,

    /// The unit had to temporarily suspend operation.
    ///
    /// If it sets this status, the unit will try to become healthy again
    /// later. The status is typically used if a server has become
    /// unavailable.
    Stalled,

    /// The unit had to permanently suspend operation.
    ///
    /// This status indicates that the unit will not become healthy ever
    /// again. Links to the unit can safely be dropped.
    Gone,
}

impl Default for UnitStatus {
    fn default() -> (res: UnitStatus)
        ensures
            res == UnitStatus::Healthy,
    {
        UnitStatus::Healthy
    }
}

/// The name of a unit status as it is displayed.
pub open spec fn status_text(status: UnitStatus) -> Seq<char> {
    match status {
        UnitStatus::Healthy => "healthy"@,
        UnitStatus::Stalled => "stalled"@,
        UnitStatus::Gone => "gone"@,
    }
}

/// Different statuses have different names, so the name tells the status.
pub proof fn law_status_text_distinct(a: UnitStatus, b: UnitStatus)
    ensures
        status_text(a) == status_text(b) ==> a == b,
{
    reveal_strlit("healthy");
    reveal_strlit("stalled");
    reveal_strlit("gone");
    if status_text(a) == status_text(b) && a != b {
        assert(status_text(a)[0] != status_text(b)[0] || status_text(a).len() != status_text(b).len()
            || status_text(a)[1] != status_text(b)[1]);
    }
}

impl UnitStatus {
    /// Returns the name of the status as it is displayed.
    pub fn as_str(&self) -> (res: &'static str)
        ensures
            res@ == status_text(*self),
    {
        match self {
            UnitStatus::Healthy => "healthy",
            UnitStatus::Stalled => "stalled",
            UnitStatus::Gone => "gone",
        }
    }
}

//------------ GateMetrics ---------------------------------------------------

/// The metric of the unit status.
pub open spec fn status_metric() -> Metric {
    Metric {
        name: "unit_status",
        help: "the operational status of the unit",
        metric_type: MetricType::Text,
        unit: MetricUnit::Info,
    }
}

/// The metric of the number of payload items in the last update.
pub open spec fn count_metric() -> Metric {
    Metric {
        name: "vrps",
        help: "the number of VRPs in the last update",
        metric_type: MetricType::Gauge,
        unit: MetricUnit::Total,
    }
}

/// The metric of the time of the last update.
pub open spec fn update_metric() -> Metric {
    Metric {
        name: "last_update",
        help: "the date and time of the last update",
        metric_type: MetricType::Text,
        unit: MetricUnit::Info,
    }
}

/// The metric of the time since the last update.
pub open spec fn update_ago_metric() -> Metric {
    Metric {
        name: "since_last_update",
        help: "the number of seconds since the last update",
        metric_type: MetricType::Gauge,
        unit: MetricUnit::Second,
    }
}

/// The text of the time of an update: `N/A` if the time cannot be shown.
pub open spec fn update_time_text(t: Timestamp) -> Seq<char> {
    match utc_text(t.secs, t.nanos) {
        Some(text) => text,
        None => "N/A"@,
    }
}

/// The text of the update metrics of a unit.
pub open spec fn gate_text(
    format: crate::metrics::OutputFormat,
    unit: Seq<char>,
    status: UnitStatus,
    count: usize,
    update: Option<Timestamp>,
    now: Timestamp,
) -> Seq<char> {
    simple_metric_text(format, status_metric(), Some(unit), status_text(status))
        + simple_metric_text(format, count_metric(), Some(unit), decimal(count as nat))
        + match update {
        Some(t) => simple_metric_text(format, update_metric(), Some(unit), update_time_text(t))
            + simple_metric_text(
            format,
            update_ago_metric(),
            Some(unit),
            seconds_text(millis_between(t.secs, t.nanos, now)),
        ),
        None => simple_metric_text(format, update_metric(), Some(unit), "N/A"@)
            + simple_metric_text(format, update_ago_metric(), Some(unit), "-1"@),
    }
}

/// The text of a gate’s metrics before the value of the number of items in
/// the last update.
pub open spec fn gate_count_head(format: OutputFormat, unit: Seq<char>, status: UnitStatus) -> Seq<char> {
    simple_metric_text(format, status_metric(), Some(unit), status_text(status)) + metric_header(
        format,
        count_metric(),
        Some(unit),
    ) + metric_name(format, count_metric(), Some(unit)) + match format {
        OutputFormat::Prometheus => " "@,
        OutputFormat::Plain => ": "@,
    }
}

/// The metrics of a gate give the full number of items in the last update:
/// after the head comes the number in decimal and the end of the line, and
/// whichever way the text is read as the head, a number and text not
/// starting with a digit, the number is the count.
pub proof fn law_gate_count(
    format: OutputFormat,
    unit: Seq<char>,
    status: UnitStatus,
    count: usize,
    update: Option<Timestamp>,
    now: Timestamp,
)
    ensures
        exists|rest: Seq<char>|
            #![trigger gate_count_head(format, unit, status) + decimal(count as nat) + rest]
            gate_text(format, unit, status, count, update, now) == gate_count_head(format, unit, status)
                + decimal(count as nat) + rest && rest.len() > 0 && rest[0] == '\n',
        forall|n: nat, rest: Seq<char>|
            gate_text(format, unit, status, count, update, now) == #[trigger] (gate_count_head(
                format,
                unit,
                status,
            ) + decimal(n) + rest) && (rest.len() > 0 ==> !is_digit(rest[0])) ==> n == count,
{
    let head = gate_count_head(format, unit, status);
    let tail = lemma_gate_text_split(format, unit, status, count, update, now);
    assert forall|n: nat, rest: Seq<char>|
        gate_text(format, unit, status, count, update, now) == #[trigger] (head + decimal(n) + rest)
            && (rest.len() > 0 ==> !is_digit(rest[0])) implies n == count by {
        law_decimal_read_after(head, n, rest, count as nat, tail);
    }
}

/// The metrics of a gate are the head, the count in decimal and a rest
/// that starts with the end of the line.
proof fn lemma_gate_text_split(
    format: OutputFormat,
    unit: Seq<char>,
    status: UnitStatus,
    count: usize,
    update: Option<Timestamp>,
    now: Timestamp,
) -> (tail: Seq<char>)
    ensures
        gate_text(format, unit, status, count, update, now) == gate_count_head(format, unit, status)
            + decimal(count as nat) + tail,
        tail.len() > 0,
        tail[0] == '\n',
{
    let c = match update {
        Some(t) => simple_metric_text(format, update_metric(), Some(unit), update_time_text(t))
            + simple_metric_text(
            format,
            update_ago_metric(),
            Some(unit),
            seconds_text(millis_between(t.secs, t.nanos, now)),
        ),
        None => simple_metric_text(format, update_metric(), Some(unit), "N/A"@)
            + simple_metric_text(format, update_ago_metric(), Some(unit), "-1"@),
    };
    let a = simple_metric_text(format, status_metric(), Some(unit), status_text(status));
    let v = decimal(count as nat);
    let h = metric_header(format, count_metric(), Some(unit));
    let name = metric_name(format, count_metric(), Some(unit));
    reveal_strlit("\n");
    let tail = "\n"@ + c;
    match format {
        OutputFormat::Prometheus => {
            assert(simple_metric_text(format, count_metric(), Some(unit), v) == h + (name + " "@ + v
                + "\n"@));
        },
        OutputFormat::Plain => {
            assert(simple_metric_text(format, count_metric(), Some(unit), v) == h + (name + ": "@ + v
                + "\n"@));
        },
    }
    assert(gate_text(format, unit, status, count, update, now) =~= gate_count_head(format, unit, status)
        + v + tail);
    tail
}

/// Metrics about the updates distributed via a gate: the status of its
/// unit, the size of the last update and when it happened.
#[derive(Clone, Copy, Debug)]
pub struct GateMetrics {
    /// The current unit status.
    status: UnitStatus,

    /// The number of payload items in the last update.
    count: usize,

    /// The time of the last update, if there has been one.
    update: Option<Timestamp>,
}

impl Default for GateMetrics {
    fn default() -> (res: GateMetrics)
        ensures
            res.status_spec() == UnitStatus::Healthy,
            res.count_spec() == 0,
            res.update_spec() is None,
    {
        GateMetrics { status: UnitStatus::Healthy, count: 0, update: None }
    }
}

impl GateMetrics {
    /// The current unit status.
    pub closed spec fn status_spec(&self) -> UnitStatus {
        self.status
    }

    /// The number of payload items in the last update.
    pub closed spec fn count_spec(&self) -> usize {
        self.count
    }

    /// The time of the last update.
    pub closed spec fn update_spec(&self) -> Option<Timestamp> {
        self.update
    }

    /// Updates the metrics to match an update that happened at `now`.
    pub fn update(&mut self, update: &Update, now: Timestamp)
        requires
            update.set_spec().wf(),
        ensures
            final(self).status_spec() == old(self).status_spec(),
            final(self).count_spec() == update.set_spec()@.len(),
            final(self).update_spec() == Some(now),
    {
        self.count = update.set().len();
        self.update = Some(now);
    }

    /// Updates the metrics to match the given unit status.
    pub fn update_status(&mut self, status: UnitStatus)
        ensures
            final(self).status_spec() == status,
            final(self).count_spec() == old(self).count_spec(),
            final(self).update_spec() == old(self).update_spec(),
    {
        self.status = status;
    }

    /// Appends the metrics to a target at the time `now`.
    ///
    /// The name of the unit these metrics are associated with is given via
    /// `unit_name`.
    pub fn append(&self, unit_name: &str, target: &mut Target, now: Timestamp)
        ensures
            final(target).format() == old(target).format(),
            final(target)@ == old(target)@ + gate_text(
                old(target).format(),
                unit_name@,
                self.status_spec(),
                self.count_spec(),
                self.update_spec(),
                now,
            ),
    {
        let status = Metric::new(
            "unit_status",
            "the operational status of the unit",
            MetricType::Text,
            MetricUnit::Info,
        );
        let count = Metric::new(
            "vrps",
            "the number of VRPs in the last update",
            MetricType::Gauge,
            MetricUnit::Total,
        );
        let update = Metric::new(
            "last_update",
            "the date and time of the last update",
            MetricType::Text,
            MetricUnit::Info,
        );
        let update_ago = Metric::new(
            "since_last_update",
            "the number of seconds since the last update",
            MetricType::Gauge,
            MetricUnit::Second,
        );
        target.append_simple(&status, Some(unit_name), self.status.as_str());
        let mut text = String::new();
        push_decimal(&mut text, self.count as u128);
        target.append_simple(&count, Some(unit_name), text.as_str());
        proof {
            reveal_strlit("N/A");
            reveal_strlit("-1");
        }
        match self.update {
            Some(t) => {
                match format_utc(t) {
                    Some(date) => target.append_simple(&update, Some(unit_name), date.as_str()),
                    None => target.append_simple(&update, Some(unit_name), "N/A"),
                }
                let ms = millis_since(t.secs, t.nanos, now);
                let mut ago = String::new();
                push_seconds(&mut ago, ms);
                target.append_simple(&update_ago, Some(unit_name), ago.as_str());
            },
            None => {
                target.append_simple(&update, Some(unit_name), "N/A");
                target.append_simple(&update_ago, Some(unit_name), "-1");
            },
        }
        proof {
            assert(target@ =~= old(target)@ + gate_text(
                old(target).format(),
                unit_name@,
                self.status,
                self.count,
                self.update,
                now,
            ));
        }
    }
}

//------------ Terminated ----------------------------------------------------

/// An error signalling that a unit has been terminated.
///
/// In response to this error, a unit’s run function should return.
#[derive(Clone, Copy, Debug, PartialEq, Eq, Structural)]
pub struct Terminated;

} // verus!
