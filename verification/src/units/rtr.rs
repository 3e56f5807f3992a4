//! Assembling the updates an RTR client receives.
//!
//! An RTR client asks a server either for the complete data set (a reset
//! query) or for the changes since the set it has (a serial query). The
//! server answers with a sequence of payload items, each announced or
//! withdrawn, which are collected into a [`TargetUpdate`].

use vstd::prelude::*;
use crate::payload::{
    applied, applies, lemma_sorted_no_dup, DiffBuilder, PackBuilder, PayloadError, PayloadSet, Update,
};
use crate::comms::{gate_text, GateMetrics};
use crate::metrics::{simple_metric_text, Metric, MetricType, MetricUnit, Target};
use crate::rtr::{Action, Payload, PayloadV};
use crate::text::{decimal, push_decimal, push_signed_decimal, signed_decimal};
use crate::utils::time::{format_rfc3339, rfc3339_text, trunc_div, Timestamp};

verus! {

/// An update of the RPKI data set being assembled by the RTR client.
pub enum TargetUpdate {
    /// This is a reset query producing the complete data set.
    Reset(PackBuilder),

    /// This is a serial query producing the difference to an earlier set.
    Serial {
        /// The current data set the differences are to be applied to.
        set: PayloadSet,

        /// The differences as sent by the server.
        diff: DiffBuilder,
    },
}

impl TargetUpdate {
    /// The parts of the update are valid.
    pub open spec fn wf(&self) -> bool {
        match *self {
            TargetUpdate::Reset(pack) => pack.wf(),
            TargetUpdate::Serial { set, diff } => set.wf() && diff.wf(),
        }
    }

    /// Starts an update: a reset starts from nothing, a serial update from
    /// the current set.
    pub fn start(current: &PayloadSet, reset: bool) -> (res: TargetUpdate)
        requires
            current.wf(),
        ensures
            res.wf(),
            reset ==> (res matches TargetUpdate::Reset(pack) && pack@ == Set::<PayloadV>::empty()),
            !reset ==> (res matches TargetUpdate::Serial { set, diff } && set@ == current@
                && diff.announced() == Set::<PayloadV>::empty() && diff.withdrawn() == Set::<
                PayloadV,
            >::empty()),
    {
        if reset {
            TargetUpdate::Reset(PackBuilder::empty())
        } else {
            TargetUpdate::Serial { set: current.share(), diff: DiffBuilder::empty() }
        }
    }

    /// Returns whether there are definitely no changes in the update.
    pub fn is_definitely_empty(&self) -> (res: bool)
        requires
            self.wf(),
        ensures
            res == match *self {
                TargetUpdate::Reset(_) => false,
                TargetUpdate::Serial { diff, .. } => diff.announced().len() == 0
                    && diff.withdrawn().len() == 0,
            },
    {
        match self {
            TargetUpdate::Reset(_) => false,
            TargetUpdate::Serial { diff, .. } => diff.is_empty(),
        }
    }

    /// Converts the target update into a payload update with the given
    /// serial number.
    ///
    /// This will fail if the diff of a serial update doesn’t apply cleanly.
    pub fn into_update(self, serial: u32) -> (res: Result<Update, PayloadError>)
        requires
            self.wf(),
            self matches TargetUpdate::Serial { set, diff } ==> set@.len() + diff.announced().len()
                <= usize::MAX,
        ensures
            self matches TargetUpdate::Reset(pack) ==> (res matches Ok(update) && update.wf()
                && update.serial_spec() == serial && update.diff_spec() is None
                && update.set_spec()@.to_set() == pack@),
            self matches TargetUpdate::Serial { set, diff } ==> {
                &&& res is Ok <==> applies(diff.announced(), diff.withdrawn(), set@.to_set())
                &&& !diff.announced().disjoint(set@.to_set()) ==> res == Err::<Update, PayloadError>(
                    PayloadError::DuplicateAnnounce,
                )
                &&& diff.announced().disjoint(set@.to_set()) && !diff.withdrawn().subset_of(
                    set@.to_set().union(diff.announced()),
                ) ==> res == Err::<Update, PayloadError>(PayloadError::UnknownWithdraw)
                &&& res matches Ok(update) ==> update.wf() && update.serial_spec() == serial
                    && update.diff_spec() is None && update.set_spec()@.to_set() == applied(
                    diff.announced(),
                    diff.withdrawn(),
                    set@.to_set(),
                )
            },
    {
        match self {
            TargetUpdate::Reset(pack) => {
                let set = PayloadSet::from_pack(pack.finalize());
                Ok(Update::new(serial, set, None))
            },
            TargetUpdate::Serial { set, diff } => {
                let diff = diff.finalize();
                proof {
                    diff.lemma_wf();
                    lemma_sorted_no_dup(diff.announced());
                }
                match diff.apply(&set) {
                    Ok(set) => Ok(Update::new(serial, set, None)),
                    Err(err) => Err(err),
                }
            },
        }
    }

    /// Adds a change received from the server to the update.
    ///
    /// A reset update only takes announcements; a withdrawal makes it
    /// fail with [`PayloadError::Corrupt`].
    pub fn push_update(&mut self, action: Action, payload: Payload) -> (res: Result<
        (),
        PayloadError,
    >)
        requires
            old(self).wf(),
        ensures
            final(self).wf(),
            *old(self) matches TargetUpdate::Reset(pack) ==> (*final(self) matches TargetUpdate::Reset(
                new_pack,
            ) && if action == Action::Withdraw {
                res == Err::<(), PayloadError>(PayloadError::Corrupt) && new_pack@ == pack@
            } else if pack@.contains(payload@) {
                res == Err::<(), PayloadError>(PayloadError::DuplicateAnnounce) && new_pack@
                    == pack@
            } else {
                res == Ok::<(), PayloadError>(()) && new_pack@ == pack@.insert(payload@)
            }),
            *old(self) matches TargetUpdate::Serial { set, diff } ==> (*final(self) matches TargetUpdate::Serial {
                set: new_set,
                diff: new_diff,
            } && new_set == set && new_diff.push_result(diff, payload@, action, res)),
    {
        match self {
            TargetUpdate::Reset(pack) => {
                if action == Action::Withdraw {
                    Err(PayloadError::Corrupt)
                } else {
                    pack.insert(payload)
                }
            },
            TargetUpdate::Serial { diff, .. } => diff.push(payload, action),
        }
    }
}


//------------ RtrClient -----------------------------------------------------

/// What happens to an RTR client.
#[derive(Clone, Copy, Debug, PartialEq, Eq, Structural)]
pub enum ClientEvent {
    /// Connecting to the server failed.
    ConnectFailed,

    /// An update finished; `true` if the data set has changed.
    Updated(bool),

    /// The connection was lost or the server misbehaved.
    Disconnected,

    /// The unit is to end.
    Terminated,
}

/// What an RTR client does next.
#[derive(Clone, Copy, Debug, PartialEq, Eq, Structural)]
pub enum ClientAction {
    /// Report the unit as stalled, wait for the retry interval and connect
    /// again.
    StallAndRetry,

    /// Keep the new data set and report it.
    Publish,

    /// Wait for the next update on the same connection.
    Continue,

    /// Report the unit as gone and end.
    Gone,
}

/// Returns what an RTR client does after an event.
pub fn client_step(event: ClientEvent) -> (res: ClientAction)
    ensures
        res == match event {
            ClientEvent::ConnectFailed => ClientAction::StallAndRetry,
            ClientEvent::Updated(changed) => if changed {
                ClientAction::Publish
            } else {
                ClientAction::Continue
            },
            ClientEvent::Disconnected => ClientAction::StallAndRetry,
            ClientEvent::Terminated => ClientAction::Gone,
        },
{
    match event {
        ClientEvent::ConnectFailed => ClientAction::StallAndRetry,
        ClientEvent::Updated(changed) => if changed {
            ClientAction::Publish
        } else {
            ClientAction::Continue
        },
        ClientEvent::Disconnected => ClientAction::StallAndRetry,
        ClientEvent::Terminated => ClientAction::Gone,
    }
}

//------------ RtrMetrics ----------------------------------------------------

/// The whole seconds from the unix time `secs` to `now`, rounded towards
/// zero.
pub open spec fn secs_between(secs: i64, now: Timestamp) -> int {
    trunc_div((now.secs - secs) * 1_000_000_000 + now.nanos, 1_000_000_000)
}

/// The metric of the session ID.
pub open spec fn session_metric() -> Metric {
    Metric {
        name: "session_id",
        help: "the session ID of the last successful update",
        metric_type: MetricType::Text,
        unit: MetricUnit::Info,
    }
}

/// The metric of the serial number.
pub open spec fn serial_metric() -> Metric {
    Metric {
        name: "serial",
        help: "the serial number of the last successful update",
        metric_type: MetricType::Counter,
        unit: MetricUnit::Total,
    }
}

/// The metric of the time since the last update.
pub open spec fn updated_ago_metric() -> Metric {
    Metric {
        name: "since_last_rtr_update",
        help: "the number of seconds since last successful update",
        metric_type: MetricType::Counter,
        unit: MetricUnit::Total,
    }
}

/// The metric of the time of the last update.
pub open spec fn updated_metric() -> Metric {
    Metric {
        name: "rtr_updated",
        help: "the time of the last successful update",
        metric_type: MetricType::Text,
        unit: MetricUnit::Info,
    }
}

/// The metric of the bytes read.
pub open spec fn bytes_read_metric() -> Metric {
    Metric {
        name: "bytes_read",
        help: "the number of bytes read",
        metric_type: MetricType::Counter,
        unit: MetricUnit::Total,
    }
}

/// The metric of the bytes written.
pub open spec fn bytes_written_metric() -> Metric {
    Metric {
        name: "bytes_written",
        help: "the number of bytes written",
        metric_type: MetricType::Counter,
        unit: MetricUnit::Total,
    }
}

/// The values of the metrics of an RTR client.
pub struct RtrValues {
    pub session: u32,
    pub serial: u32,
    pub updated: i64,
    pub bytes_read: u64,
    pub bytes_written: u64,
}

/// The text of the session ID, if there is one.
pub open spec fn session_text(format: crate::metrics::OutputFormat, unit: Seq<char>, v: RtrValues) -> Seq<
    char,
> {
    if v.session != u32::MAX {
        simple_metric_text(format, session_metric(), Some(unit), decimal(v.session as nat))
    } else {
        Seq::empty()
    }
}

/// The text of the serial number, if there is one.
pub open spec fn serial_text(format: crate::metrics::OutputFormat, unit: Seq<char>, v: RtrValues) -> Seq<
    char,
> {
    if v.serial != u32::MAX {
        simple_metric_text(format, serial_metric(), Some(unit), decimal(v.serial as nat))
    } else {
        Seq::empty()
    }
}

/// The text of the time of the last update, if there is one: the seconds
/// since then and the time itself.
pub open spec fn updated_text(
    format: crate::metrics::OutputFormat,
    unit: Seq<char>,
    v: RtrValues,
    now: Timestamp,
) -> Seq<char> {
    if v.updated != i64::MIN {
        match rfc3339_text(v.updated) {
            Some(date) => simple_metric_text(
                format,
                updated_ago_metric(),
                Some(unit),
                signed_decimal(secs_between(v.updated, now)),
            ) + simple_metric_text(format, updated_metric(), Some(unit), date),
            None => Seq::empty(),
        }
    } else {
        Seq::empty()
    }
}

/// The text of the byte counters.
pub open spec fn bytes_text(format: crate::metrics::OutputFormat, unit: Seq<char>, v: RtrValues) -> Seq<
    char,
> {
    simple_metric_text(format, bytes_read_metric(), Some(unit), decimal(v.bytes_read as nat))
        + simple_metric_text(
        format,
        bytes_written_metric(),
        Some(unit),
        decimal(v.bytes_written as nat),
    )
}

/// The text of the metrics of an RTR client that follows its update metrics.
pub open spec fn rtr_text(
    format: crate::metrics::OutputFormat,
    unit: Seq<char>,
    v: RtrValues,
    now: Timestamp,
) -> Seq<char> {
    session_text(format, unit, v) + serial_text(format, unit, v) + updated_text(format, unit, v, now)
        + bytes_text(format, unit, v)
}

/// The metrics of an RTR client.
///
/// Values not known yet are kept as the largest serial number or the
/// smallest time; the counters wrap around.
#[derive(Clone, Copy, Debug)]
pub struct RtrMetrics {
    /// The session ID of the last successful update.
    ///
    /// This is actually an `Option<u16>` with the value of `u32::MAX`
    /// serving as `None`.
    session: u32,

    /// The serial number of the last successful update.
    ///
    /// This is actually an option with the value of `u32::MAX` serving as
    /// `None`.
    serial: u32,

    /// The time the last successful update finished.
    ///
    /// This is an option of the unix timestamp. The value of `i64::MIN`
    /// serves as a `None`.
    updated: i64,

    /// The number of bytes read.
    bytes_read: u64,

    /// The number of bytes written.
    bytes_written: u64,
}

impl View for RtrMetrics {
    type V = RtrValues;

    closed spec fn view(&self) -> RtrValues {
        RtrValues {
            session: self.session,
            serial: self.serial,
            updated: self.updated,
            bytes_read: self.bytes_read,
            bytes_written: self.bytes_written,
        }
    }
}

impl RtrMetrics {
    /// Creates metrics without a successful update.
    pub fn new() -> (res: RtrMetrics)
        ensures
            res@ == (RtrValues {
                session: u32::MAX,
                serial: u32::MAX,
                updated: i64::MIN,
                bytes_read: 0,
                bytes_written: 0,
            }),
    {
        RtrMetrics {
            session: u32::MAX,
            serial: u32::MAX,
            updated: i64::MIN,
            bytes_read: 0,
            bytes_written: 0,
        }
    }

    /// An update to the given state finished successfully at the unix time
    /// `now`.
    pub fn update_state(&mut self, session: u16, serial: u32, now: i64)
        ensures
            final(self)@ == (RtrValues {
                session: session as u32,
                serial,
                updated: now,
                ..old(self)@
            }),
    {
        self.session = session as u32;
        self.serial = serial;
        self.updated = now;
    }

    /// Increases the number of bytes read.
    pub fn inc_bytes_read(&mut self, count: u64)
        ensures
            final(self)@ == (RtrValues {
                bytes_read: ((old(self)@.bytes_read as int + count as int) % 0x1_0000_0000_0000_0000) as u64,
                ..old(self)@
            }),
    {
        self.bytes_read = self.bytes_read.wrapping_add(count);
    }

    /// Increases the number of bytes written.
    pub fn inc_bytes_written(&mut self, count: u64)
        ensures
            final(self)@ == (RtrValues {
                bytes_written: ((old(self)@.bytes_written as int + count as int) % 0x1_0000_0000_0000_0000) as u64,
                ..old(self)@
            }),
    {
        self.bytes_written = self.bytes_written.wrapping_add(count);
    }

    /// Appends a metric with a number.
    fn append_number(target: &mut Target, metric: &Metric, unit_name: &str, value: u128)
        ensures
            final(target).format() == old(target).format(),
            final(target)@ == old(target)@ + simple_metric_text(
                old(target).format(),
                *metric,
                Some(unit_name@),
                decimal(value as nat),
            ),
    {
        let mut text = String::new();
        push_decimal(&mut text, value);
        target.append_simple(metric, Some(unit_name), text.as_str());
    }

    /// Appends the time of the last update, if there is one.
    fn append_updated(&self, unit_name: &str, target: &mut Target, now: Timestamp)
        ensures
            final(target).format() == old(target).format(),
            final(target)@ == old(target)@ + updated_text(
                old(target).format(),
                unit_name@,
                self@,
                now,
            ),
    {
        if self.updated == i64::MIN {
            assert(target@ =~= old(target)@ + updated_text(target.format(), unit_name@, self@, now));
            return;
        }
        match format_rfc3339(self.updated) {
            Some(date) => {
                let d: i128 = (now.secs as i128 - self.updated as i128) * 1_000_000_000
                    + now.nanos as i128;
                let ago: i128 = if d >= 0 {
                    d / 1_000_000_000
                } else {
                    -((-d) / 1_000_000_000)
                };
                assert(ago == secs_between(self.updated, now));
                let mut text = String::new();
                push_signed_decimal(&mut text, ago);
                let ago_metric = Metric::new(
                    "since_last_rtr_update",
                    "the number of seconds since last successful update",
                    MetricType::Counter,
                    MetricUnit::Total,
                );
                target.append_simple(&ago_metric, Some(unit_name), text.as_str());
                let metric = Metric::new(
                    "rtr_updated",
                    "the time of the last successful update",
                    MetricType::Text,
                    MetricUnit::Info,
                );
                target.append_simple(&metric, Some(unit_name), date.as_str());
                assert(target@ =~= old(target)@ + updated_text(
                    old(target).format(),
                    unit_name@,
                    self@,
                    now,
                ));
            },
            None => {
                assert(target@ =~= old(target)@ + updated_text(
                    target.format(),
                    unit_name@,
                    self@,
                    now,
                ));
            },
        }
    }

    /// Appends the session ID and serial number, if there are any.
    fn append_state(&self, unit_name: &str, target: &mut Target)
        ensures
            final(target).format() == old(target).format(),
            final(target)@ == old(target)@ + session_text(old(target).format(), unit_name@, self@)
                + serial_text(old(target).format(), unit_name@, self@),
    {
        if self.session != u32::MAX {
            let metric = Metric::new(
                "session_id",
                "the session ID of the last successful update",
                MetricType::Text,
                MetricUnit::Info,
            );
            Self::append_number(target, &metric, unit_name, self.session as u128);
        }
        let ghost mid = target@;
        if self.serial != u32::MAX {
            let metric = Metric::new(
                "serial",
                "the serial number of the last successful update",
                MetricType::Counter,
                MetricUnit::Total,
            );
            Self::append_number(target, &metric, unit_name, self.serial as u128);
        }
        assert(target@ =~= old(target)@ + session_text(old(target).format(), unit_name@, self@)
            + serial_text(old(target).format(), unit_name@, self@));
    }

    /// Appends the byte counters.
    fn append_bytes(&self, unit_name: &str, target: &mut Target)
        ensures
            final(target).format() == old(target).format(),
            final(target)@ == old(target)@ + bytes_text(old(target).format(), unit_name@, self@),
    {
        let read = Metric::new(
            "bytes_read",
            "the number of bytes read",
            MetricType::Counter,
            MetricUnit::Total,
        );
        Self::append_number(target, &read, unit_name, self.bytes_read as u128);
        let written = Metric::new(
            "bytes_written",
            "the number of bytes written",
            MetricType::Counter,
            MetricUnit::Total,
        );
        Self::append_number(target, &written, unit_name, self.bytes_written as u128);
        assert(target@ =~= old(target)@ + bytes_text(old(target).format(), unit_name@, self@));
    }

    /// Appends the update metrics of the unit, then those of the client to
    /// a target at the time `now`.
    pub fn append(&self, gate: &GateMetrics, unit_name: &str, target: &mut Target, now: Timestamp)
        ensures
            final(target).format() == old(target).format(),
            final(target)@ == old(target)@ + gate_text(
                old(target).format(),
                unit_name@,
                gate.status_spec(),
                gate.count_spec(),
                gate.update_spec(),
                now,
            ) + rtr_text(old(target).format(), unit_name@, self@, now),
    {
        let ghost format = target.format();
        let ghost g = gate_text(
            format,
            unit_name@,
            gate.status_spec(),
            gate.count_spec(),
            gate.update_spec(),
            now,
        );
        let ghost a = session_text(format, unit_name@, self@) + serial_text(format, unit_name@, self@);
        let ghost u = updated_text(format, unit_name@, self@, now);
        let ghost b = bytes_text(format, unit_name@, self@);
        gate.append(unit_name, target, now);
        self.append_state(unit_name, target);
        self.append_updated(unit_name, target, now);
        self.append_bytes(unit_name, target);
        proof {
            lemma_concat_assoc(old(target)@, g, a, u, b);
        }
    }
}

/// Appending parts one after the other gives the first followed by all
/// the others.
proof fn lemma_concat_assoc(o: Seq<char>, g: Seq<char>, a: Seq<char>, u: Seq<char>, b: Seq<char>)
    ensures
        o + g + a + u + b == o + g + (a + u + b),
{
    assert(o + g + a + u + b =~= o + g + (a + u + b));
}

} // verus!
