//! The data behind an RTR server target.
//!
//! An RTR server hands out the current payload set of a unit together with
//! its RTR state, a session ID and a serial number. Clients that have an
//! older serial number can ask for the changes since then, so the target
//! keeps a number of diffs: for each earlier serial the diff that takes the
//! set of that serial to the current set.

use vstd::prelude::*;
use crate::payload::{
    applied, chained_announced, chained_withdrawn, chains, Diff, OwnedDiffIter, OwnedSetIter,
    PayloadSet,
};
use crate::metrics::{
    label_line, label_views, metric_header, metric_name, value_line, Metric, MetricType, MetricUnit,
    OutputFormat, Target,
};
use crate::rtr::{serial_add, PayloadV};
use crate::utils::time::{millis_between, millis_since, Timestamp};
use crate::text::{decimal, push_decimal, push_signed_decimal, push_str, signed_decimal};

verus! {

//------------ Timing --------------------------------------------------------

/// The timing parameters of a data exchange.
#[derive(Clone, Copy, Debug, PartialEq, Eq, Structural)]
pub struct Timing {
    /// The number of seconds until a client should refresh its data.
    pub refresh: u32,

    /// The number of seconds a client should wait before retrying to connect.
    pub retry: u32,

    /// The number of seconds before data expires if not refreshed.
    pub expire: u32,
}

impl Default for Timing {
    fn default() -> (res: Timing)
        ensures
            res == (Timing { refresh: 3600, retry: 600, expire: 7200 }),
    {
        Timing { refresh: 3600, retry: 600, expire: 7200 }
    }
}

/// Returns the timing from the configured values, using the defaults for
/// those not configured.
pub fn timing(refresh: Option<u32>, retry: Option<u32>, expire: Option<u32>) -> (res: Timing)
    ensures
        res.refresh == (match refresh {
            Some(v) => v,
            None => 3600,
        }),
        res.retry == (match retry {
            Some(v) => v,
            None => 600,
        }),
        res.expire == (match expire {
            Some(v) => v,
            None => 7200,
        }),
{
    let mut res = Timing::default();
    if let Some(refresh) = refresh {
        res.refresh = refresh;
    }
    if let Some(retry) = retry {
        res.retry = retry;
    }
    if let Some(expire) = expire {
        res.expire = expire;
    }
    res
}

//------------ State ---------------------------------------------------------

/// The RTR state of a data set: a session ID and a serial number.
#[derive(Clone, Copy, Debug, PartialEq, Eq, Structural)]
pub struct State {
    /// The session ID.
    pub session: u16,

    /// The serial number.
    pub serial: u32,
}

impl State {
    /// Creates a new state value from its components.
    pub fn from_parts(session: u16, serial: u32) -> (res: State)
        ensures
            res == (State { session, serial }),
    {
        State { session, serial }
    }

    /// Increases the serial number by one.
    ///
    /// The serial number wraps around.
    pub fn inc(&mut self)
        ensures
            final(self).session == old(self).session,
            final(self).serial as int == (old(self).serial as int + 1) % 0x1_0000_0000,
    {
        self.serial = serial_add(self.serial, 1);
    }
}

//------------ SourceData ----------------------------------------------------

/// A diff leads to a set: applying it to the set it was made for gives
/// this set. Everything it announces is in the set and nothing it
/// withdraws is.
pub open spec fn leads_to(diff: Diff, set: Set<PayloadV>) -> bool {
    &&& diff.wf()
    &&& diff.announced().to_set().subset_of(set)
    &&& diff.withdrawn().to_set().disjoint(set)
}

/// How many diffs are kept after an update: one more than before, but
/// no more than the history size.
pub open spec fn kept_diffs(old_len: int, history_size: int) -> int {
    if old_len + 1 <= history_size {
        old_len + 1
    } else {
        history_size
    }
}

/// The RTR data set.
pub struct SourceData {
    /// The current RTR state of the target.
    state: State,

    /// The current set of RTR data.
    current: Option<PayloadSet>,

    /// The diffs we currently keep.
    ///
    /// Each diff is paired with the serial number of the set it applies
    /// to. The diff with the largest serial is first.
    diffs: Vec<(u32, Diff)>,

    /// The timing paramters for this source.
    timing: Timing,
}

impl SourceData {
    /// The current state.
    pub closed spec fn state_spec(&self) -> State {
        self.state
    }

    /// The current set, if there is one.
    pub closed spec fn current_spec(&self) -> Option<PayloadSet> {
        self.current
    }

    /// The diffs kept, newest first.
    pub closed spec fn diffs_spec(&self) -> Seq<(u32, Diff)> {
        self.diffs@
    }

    /// The timing parameters.
    pub closed spec fn timing_spec(&self) -> Timing {
        self.timing
    }

    /// The values of the current set; empty if there is none.
    pub open spec fn current_values(&self) -> Set<PayloadV> {
        match self.current_spec() {
            Some(set) => set@.to_set(),
            None => Set::empty(),
        }
    }

    /// The current set is valid and every diff kept leads to it.
    pub open spec fn wf(&self) -> bool {
        &&& self.current_spec() matches Some(set) ==> set.wf()
        &&& self.current_spec() is None ==> self.diffs_spec().len() == 0
        &&& forall|i: int|
            0 <= i < self.diffs_spec().len() ==> leads_to(
                #[trigger] self.diffs_spec()[i].1,
                self.current_values(),
            )
    }

    /// Creates empty data with the given state and timing.
    pub fn new(state: State, timing: Timing) -> (res: SourceData)
        ensures
            res.wf(),
            res.state_spec() == state,
            res.current_spec() is None,
            res.diffs_spec().len() == 0,
            res.timing_spec() == timing,
    {
        SourceData { state, current: None, diffs: Vec::new(), timing }
    }

    /// Returns the current state.
    pub fn state(&self) -> (res: State)
        ensures
            res == self.state_spec(),
    {
        self.state
    }

    /// Returns the timing parameters.
    pub fn timing(&self) -> (res: Timing)
        ensures
            res == self.timing_spec(),
    {
        self.timing
    }

    /// Returns whether there is a data set.
    pub fn ready(&self) -> (res: bool)
        ensures
            res == self.current_spec() is Some,
    {
        self.current.is_some()
    }

    /// Returns the data for a new payload set.
    ///
    /// Returns `None` if the set has the same content as the current set.
    /// Otherwise the new data holds the set and, if there was a set before,
    /// a new serial number and the diffs to the new set: one from the
    /// previous set and, for each diff kept before, that diff extended by
    /// the new one, keeping no more than `history_size` diffs, so none if
    /// it is zero.
    pub fn update(&self, set: PayloadSet, history_size: usize, timing: Timing) -> (res: Option<
        SourceData,
    >)
        requires
            self.wf(),
            set.wf(),
        ensures
            self.current_spec() is None ==> (res matches Some(data) && data.wf()
                && data.state_spec() == self.state_spec() && data.current_spec() == Some(set)
                && data.diffs_spec().len() == 0 && data.timing_spec() == timing),
            self.current_spec() matches Some(cur) ==> (res is None <==> cur@.to_set()
                == set@.to_set()),
            self.current_spec() is Some && res is Some ==> (res matches Some(data) && data.wf()
                && data.current_spec() == Some(set) && data.timing_spec() == timing
                && data.state_spec().session == self.state_spec().session
                && data.state_spec().serial as int == (self.state_spec().serial as int + 1)
                % 0x1_0000_0000 && data.diffs_spec().len() == kept_diffs(
                self.diffs_spec().len() as int,
                history_size as int,
            ) && data.diffs_spec().len() <= history_size && (history_size > 0 ==> data.diffs_spec()[0].0 == self.state_spec().serial
                && data.diffs_spec()[0].1.announced().to_set() == set@.to_set().difference(
                self.current_values(),
            ) && data.diffs_spec()[0].1.withdrawn().to_set() == self.current_values().difference(
                set@.to_set(),
            ) && forall|i: int|
                1 <= i < data.diffs_spec().len() ==> {
                    let (serial, old) = self.diffs_spec()[i - 1];
                    let d = data.diffs_spec()[0].1;
                    &&& (#[trigger] data.diffs_spec()[i]).0 == serial
                    &&& data.diffs_spec()[i].1.announced().to_set() == chained_announced(
                        old.announced().to_set(),
                        old.withdrawn().to_set(),
                        d.announced().to_set(),
                        d.withdrawn().to_set(),
                    )
                    &&& data.diffs_spec()[i].1.withdrawn().to_set() == chained_withdrawn(
                        old.announced().to_set(),
                        old.withdrawn().to_set(),
                        d.announced().to_set(),
                        d.withdrawn().to_set(),
                    )
                })),
    {
        let current = match &self.current {
            None => {
                return Some(
                    SourceData {
                        state: self.state,
                        current: Some(set),
                        diffs: Vec::new(),
                        timing,
                    },
                );
            },
            Some(current) => current,
        };
        let diff = set.diff_from(current);
        if diff.is_empty() {
            // If there is no change in data, don’t update.
            proof {
                assert(set@.to_set().difference(current@.to_set()) =~= Set::empty());
                assert(current@.to_set().difference(set@.to_set()) =~= Set::empty());
                assert(set@.to_set() =~= current@.to_set()) by {
                    assert forall|x: PayloadV| set@.to_set().contains(x) implies current@.to_set().contains(x) by {
                        if !current@.to_set().contains(x) {
                            assert(set@.to_set().difference(current@.to_set()).contains(x));
                        }
                    }
                    assert forall|x: PayloadV| current@.to_set().contains(x) implies set@.to_set().contains(x) by {
                        if !set@.to_set().contains(x) {
                            assert(current@.to_set().difference(set@.to_set()).contains(x));
                        }
                    }
                }
            }
            return None;
        }
        proof {
            if set@.to_set() == current@.to_set() {
                assert(diff.announced().to_set() =~= Set::empty());
                assert(diff.withdrawn().to_set() =~= Set::empty());
                assert(diff.announced().len() == 0) by {
                    if diff.announced().len() > 0 {
                        assert(diff.announced().to_set().contains(diff.announced()[0]));
                    }
                }
                assert(diff.withdrawn().len() == 0) by {
                    if diff.withdrawn().len() > 0 {
                        assert(diff.withdrawn().to_set().contains(diff.withdrawn()[0]));
                    }
                }
            }
        }
        let ghost cur = current@.to_set();
        let ghost new = set@.to_set();
        if history_size == 0 {
            // No history is kept at all.
            let mut state = self.state;
            state.inc();
            return Some(SourceData { state, current: Some(set), diffs: Vec::new(), timing });
        }
        let mut diffs: Vec<(u32, Diff)> = Vec::new();
        diffs.push((self.state.serial, diff.share()));
        let mut i: usize = 0;
        while i < self.diffs.len()
            invariant
                self.wf(),
                self.current_spec() == Some(*current),
                cur == current@.to_set(),
                new == set@.to_set(),
                diff.wf(),
                diff.announced().to_set() == new.difference(cur),
                diff.withdrawn().to_set() == cur.difference(new),
                i <= self.diffs@.len(),
                diffs@.len() == i + 1,
                history_size > 0,
                i == 0 || i < history_size,
                diffs@[0] == (self.state.serial, diff),
                forall|k: int| 0 <= k < diffs@.len() ==> leads_to(#[trigger] diffs@[k].1, new),
                forall|k: int|
                    1 <= k < diffs@.len() ==> {
                        let (serial, old) = self.diffs@[k - 1];
                        &&& (#[trigger] diffs@[k]).0 == serial
                        &&& diffs@[k].1.announced().to_set() == chained_announced(
                            old.announced().to_set(),
                            old.withdrawn().to_set(),
                            diff.announced().to_set(),
                            diff.withdrawn().to_set(),
                        )
                        &&& diffs@[k].1.withdrawn().to_set() == chained_withdrawn(
                            old.announced().to_set(),
                            old.withdrawn().to_set(),
                            diff.announced().to_set(),
                            diff.withdrawn().to_set(),
                        )
                    },
            ensures
                diffs@.len() == kept_diffs(self.diffs@.len() as int, history_size as int),
            decreases self.diffs@.len() - i,
        {
            if diffs.len() >= history_size {
                break;
            }
            let serial = self.diffs[i].0;
            let old_diff = &self.diffs[i].1;
            proof {
                let a0 = old_diff.announced().to_set();
                let w0 = old_diff.withdrawn().to_set();
                assert(leads_to(self.diffs_spec()[i as int].1, self.current_values()));
                assert(chains(a0, w0, diff.announced().to_set(), diff.withdrawn().to_set()));
            }
            let extended = match old_diff.extend(&diff) {
                Ok(extended) => extended,
                Err(_) => {
                    proof {
                        assert(false);
                    }
                    return None;
                },
            };
            proof {
                let a0 = old_diff.announced().to_set();
                let w0 = old_diff.withdrawn().to_set();
                assert(extended.announced().to_set().subset_of(new));
                assert forall|x: PayloadV| extended.withdrawn().to_set().contains(x) implies !new.contains(x) by {
                    if w0.contains(x) && new.contains(x) {
                        assert(!cur.contains(x));
                        assert(diff.announced().to_set().contains(x));
                    }
                }
            }
            diffs.push((serial, extended));
            i = i + 1;
        }
        let mut state = self.state;
        state.inc();
        proof {
            assert(cur == self.current_values());
        }
        Some(SourceData { state, current: Some(set), diffs, timing })
    }

    /// Returns an iterator over the current set.
    ///
    /// If there is no current set, the iterator is over the empty set.
    pub fn full(&self) -> (res: (State, OwnedSetIter))
        requires
            self.wf(),
        ensures
            res.0 == self.state_spec(),
            res.1.wf(),
            res.1.rest().to_set() == self.current_values(),
    {
        match &self.current {
            Some(current) => (self.state, current.owned_iter()),
            None => {
                let empty = PayloadSet::default();
                proof {
                    assert(empty@.to_set() =~= Set::empty());
                }
                (self.state, empty.into_owned_iter())
            },
        }
    }

    /// Returns the diff for the given serial if available.
    ///
    /// For the current serial, this is the empty diff. Otherwise it is the
    /// first diff kept for the serial.
    pub fn get_diff(&self, serial: u32) -> (res: Option<OwnedDiffIter>)
        requires
            self.wf(),
        ensures
            serial == self.state_spec().serial ==> (res matches Some(iter) && iter.wf()
                && iter.rest_announced().len() == 0 && iter.rest_withdrawn().len() == 0),
            serial != self.state_spec().serial ==> (res is Some <==> exists|i: int|
                0 <= i < self.diffs_spec().len() && #[trigger] self.diffs_spec()[i].0 == serial),
            serial != self.state_spec().serial && res is Some ==> exists|i: int|
                0 <= i < self.diffs_spec().len() && #[trigger] self.diffs_spec()[i].0 == serial
                    && (forall|k: int| 0 <= k < i ==> self.diffs_spec()[k].0 != serial)
                    && (res matches Some(iter) && iter.wf() && iter.rest_announced()
                    == self.diffs_spec()[i].1.announced() && iter.rest_withdrawn()
                    == self.diffs_spec()[i].1.withdrawn()),
    {
        if serial == self.state.serial {
            return Some(Diff::default().into_owned_iter());
        }
        let mut i: usize = 0;
        while i < self.diffs.len()
            invariant
                self.wf(),
                serial != self.state.serial,
                i <= self.diffs@.len(),
                forall|k: int| 0 <= k < i ==> self.diffs@[k].0 != serial,
            decreases self.diffs@.len() - i,
        {
            if self.diffs[i].0 == serial {
                proof {
                    assert(leads_to(self.diffs@[i as int].1, self.current_values()));
                }
                return Some(self.diffs[i].1.owned_iter());
            }
            i = i + 1;
        }
        None
    }

    /// Returns the diff from the given state to the current state, if
    /// available.
    ///
    /// There is none if there is no current set, if the session differs,
    /// or if no diff for the serial is kept.
    pub fn diff(&self, state: State) -> (res: Option<(State, OwnedDiffIter)>)
        requires
            self.wf(),
        ensures
            self.current_spec() is None || state.session != self.state_spec().session ==> res is None,
            self.current_spec() is Some && state.session == self.state_spec().session ==> (res is Some
                <==> (state.serial == self.state_spec().serial || exists|i: int|
                0 <= i < self.diffs_spec().len() && #[trigger] self.diffs_spec()[i].0
                == state.serial)),
            res matches Some(r) ==> r.0 == self.state_spec() && r.1.wf(),
            state.serial == self.state_spec().serial ==> (res matches Some(r) ==> r.1.rest_announced().len()
                == 0 && r.1.rest_withdrawn().len() == 0),
            state.serial != self.state_spec().serial ==> (res matches Some(r) ==> exists|i: int|
                0 <= i < self.diffs_spec().len() && #[trigger] self.diffs_spec()[i].0 == state.serial
                    && (forall|k: int| 0 <= k < i ==> self.diffs_spec()[k].0 != state.serial)
                    && r.1.rest_announced() == self.diffs_spec()[i].1.announced()
                    && r.1.rest_withdrawn() == self.diffs_spec()[i].1.withdrawn()),
    {
        if self.current.is_none() || state.session != self.state.session {
            return None;
        }
        match self.get_diff(state.serial) {
            Some(diff) => Some((self.state, diff)),
            None => None,
        }
    }
}

/// Every diff the data keeps brings the items it names up to date: a client
/// that applies it to whatever set it holds then holds each item the diff
/// announces or withdraws exactly if the current set does.
pub proof fn law_kept_diff_up_to_date(data: SourceData, i: int, client: Set<PayloadV>, x: PayloadV)
    requires
        data.wf(),
        0 <= i < data.diffs_spec().len(),
        data.diffs_spec()[i].1.announced().contains(x) || data.diffs_spec()[i].1.withdrawn().contains(
            x,
        ),
    ensures
        applied(
            data.diffs_spec()[i].1.announced().to_set(),
            data.diffs_spec()[i].1.withdrawn().to_set(),
            client,
        ).contains(x) <==> data.current_values().contains(x),
{
    let d = data.diffs_spec()[i].1;
    assert(leads_to(d, data.current_values()));
    d.lemma_wf();
    if d.announced().contains(x) {
        assert(d.announced().to_set().contains(x));
        assert(!d.withdrawn().to_set().contains(x));
    } else {
        assert(d.withdrawn().to_set().contains(x));
    }
}

//------------ MetricsData ---------------------------------------------------

/// The metrics of RTR connections.
///
/// The counters wrap around when they overflow.
#[derive(Clone, Copy, Debug)]
pub struct MetricsData {
    /// The number of currently open connections.
    open: usize,

    /// The serial number of the last successful update.
    ///
    /// This is actually an option with the value of `u32::MAX` serving as
    /// `None`.
    serial: u32,

    /// The time the last successful update finished.
    ///
    /// This is an option of the unix timestamp. The value of `i64::MIN`
    /// serves as a `None`.
    updated: i64,

    /// The time the last successful cache reset finished.
    ///
    /// This is an option of the unix timestamp. The value of `i64::MIN`
    /// serves as a `None`.
    last_reset: i64,

    /// The number of successful reset queries.
    reset_queries: u32,

    /// The number of successful serial queries.
    serial_queries: u32,

    /// The number of bytes read.
    bytes_read: u64,

    /// The number of bytes written.
    bytes_written: u64,
}

/// The values of the connection metrics.
pub struct MetricsValues {
    pub open: usize,
    pub serial: u32,
    pub updated: i64,
    pub last_reset: i64,
    pub reset_queries: u32,
    pub serial_queries: u32,
    pub bytes_read: u64,
    pub bytes_written: u64,
}

impl View for MetricsData {
    type V = MetricsValues;

    closed spec fn view(&self) -> MetricsValues {
        MetricsValues {
            open: self.open,
            serial: self.serial,
            updated: self.updated,
            last_reset: self.last_reset,
            reset_queries: self.reset_queries,
            serial_queries: self.serial_queries,
            bytes_read: self.bytes_read,
            bytes_written: self.bytes_written,
        }
    }
}

impl Default for MetricsData {
    fn default() -> (res: MetricsData)
        ensures
            res@ == (MetricsValues {
                open: 0,
                serial: u32::MAX,
                updated: i64::MIN,
                last_reset: i64::MIN,
                reset_queries: 0,
                serial_queries: 0,
                bytes_read: 0,
                bytes_written: 0,
            }),
    {
        MetricsData {
            open: 0,
            serial: u32::MAX,
            updated: i64::MIN,
            last_reset: i64::MIN,
            reset_queries: 0,
            serial_queries: 0,
            bytes_read: 0,
            bytes_written: 0,
        }
    }
}

impl MetricsData {
    /// Returns the number of currently open connections.
    pub fn open(&self) -> (res: usize)
        ensures
            res == self@.open,
    {
        self.open
    }

    /// Increases the count of open connections.
    pub fn inc_open(&mut self)
        ensures
            final(self)@ == (MetricsValues {
                open: if old(self)@.open == usize::MAX {
                    0
                } else {
                    (old(self)@.open + 1) as usize
                },
                ..old(self)@
            }),
    {
        self.open = self.open.wrapping_add(1);
    }

    /// Decreases the count of open connections.
    pub fn dec_open(&mut self)
        ensures
            final(self)@ == (MetricsValues {
                open: if old(self)@.open == 0 {
                    usize::MAX
                } else {
                    (old(self)@.open - 1) as usize
                },
                ..old(self)@
            }),
    {
        self.open = self.open.wrapping_sub(1);
    }

    /// Returns the serial number of the last successful update, if any.
    pub fn serial(&self) -> (res: Option<u32>)
        ensures
            res == (if self@.serial == u32::MAX {
                None
            } else {
                Some(self@.serial)
            }),
    {
        if self.serial == u32::MAX {
            None
        } else {
            Some(self.serial)
        }
    }

    /// A successful update with the given serial number has finished at
    /// the given time.
    ///
    /// Updates the serial number and update time accordingly.
    pub fn update_now(&mut self, serial: u32, reset: bool, now: i64)
        ensures
            final(self)@.serial == serial,
            final(self)@.updated == now,
            final(self)@.open == old(self)@.open,
            final(self)@.bytes_read == old(self)@.bytes_read,
            final(self)@.bytes_written == old(self)@.bytes_written,
            reset ==> final(self)@.last_reset == now && final(self)@.reset_queries == ((old(self)@.reset_queries as int + 1) % 0x1_0000_0000) as u32 && final(self)@.serial_queries == old(self)@.serial_queries,
            !reset ==> final(self)@.last_reset == old(self)@.last_reset && final(self)@.reset_queries == old(self)@.reset_queries && final(self)@.serial_queries == ((old(self)@.serial_queries as int + 1) % 0x1_0000_0000) as u32,
    {
        self.serial = serial;
        self.updated = now;
        if reset {
            self.last_reset = now;
            self.reset_queries = self.reset_queries.wrapping_add(1);
        } else {
            self.serial_queries = self.serial_queries.wrapping_add(1);
        }
    }

    /// Returns the time of the last successful update as a unix timestamp.
    ///
    /// Returns `None` if there never was a successful update.
    pub fn updated(&self) -> (res: Option<i64>)
        ensures
            res == (if self@.updated == i64::MIN {
                None
            } else {
                Some(self@.updated)
            }),
    {
        if self.updated == i64::MIN {
            None
        } else {
            Some(self.updated)
        }
    }

    /// Returns the time of the last successful reset update as a unix
    /// timestamp.
    ///
    /// Returns `None` if there never was a successful reset update.
    pub fn last_reset(&self) -> (res: Option<i64>)
        ensures
            res == (if self@.last_reset == i64::MIN {
                None
            } else {
                Some(self@.last_reset)
            }),
    {
        if self.last_reset == i64::MIN {
            None
        } else {
            Some(self.last_reset)
        }
    }

    /// Returns the number of successful reset queries.
    pub fn reset_queries(&self) -> (res: u32)
        ensures
            res == self@.reset_queries,
    {
        self.reset_queries
    }

    /// Returns the number of successful serial queries.
    pub fn serial_queries(&self) -> (res: u32)
        ensures
            res == self@.serial_queries,
    {
        self.serial_queries
    }

    /// Returns the total number of bytes read.
    pub fn bytes_read(&self) -> (res: u64)
        ensures
            res == self@.bytes_read,
    {
        self.bytes_read
    }

    /// Increases the number of bytes read.
    pub fn inc_bytes_read(&mut self, count: u64)
        ensures
            final(self)@ == (MetricsValues {
                bytes_read: ((old(self)@.bytes_read as int + count as int) % 0x1_0000_0000_0000_0000) as u64,
                ..old(self)@
            }),
    {
        self.bytes_read = self.bytes_read.wrapping_add(count);
    }

    /// Returns the total number of bytes written.
    pub fn bytes_written(&self) -> (res: u64)
        ensures
            res == self@.bytes_written,
    {
        self.bytes_written
    }

    /// Increases the number of bytes written.
    pub fn inc_bytes_written(&mut self, count: u64)
        ensures
            final(self)@ == (MetricsValues {
                bytes_written: ((old(self)@.bytes_written as int + count as int) % 0x1_0000_0000_0000_0000) as u64,
                ..old(self)@
            }),
    {
        self.bytes_written = self.bytes_written.wrapping_add(count);
    }
}


//------------ MetricsOp -----------------------------------------------------

/// A change of the metrics of connections.
#[derive(Clone, Copy, Debug)]
pub enum MetricsOp {
    /// A connection was opened.
    IncOpen,

    /// A connection was closed.
    DecOpen,

    /// An update with the given serial has finished at the unix time `now`.
    UpdateNow { serial: u32, reset: bool, now: i64 },

    /// The given number of bytes were read.
    IncBytesRead(u64),

    /// The given number of bytes were written.
    IncBytesWritten(u64),
}

/// The metrics without any connection.
pub open spec fn default_values() -> MetricsValues {
    MetricsValues {
        open: 0,
        serial: u32::MAX,
        updated: i64::MIN,
        last_reset: i64::MIN,
        reset_queries: 0,
        serial_queries: 0,
        bytes_read: 0,
        bytes_written: 0,
    }
}

/// The metrics after a change.
pub open spec fn applied_op(v: MetricsValues, op: MetricsOp) -> MetricsValues {
    match op {
        MetricsOp::IncOpen => MetricsValues {
            open: if v.open == usize::MAX {
                0
            } else {
                (v.open + 1) as usize
            },
            ..v
        },
        MetricsOp::DecOpen => MetricsValues {
            open: if v.open == 0 {
                usize::MAX
            } else {
                (v.open - 1) as usize
            },
            ..v
        },
        MetricsOp::UpdateNow { serial, reset, now } => if reset {
            MetricsValues {
                serial,
                updated: now,
                last_reset: now,
                reset_queries: ((v.reset_queries as int + 1) % 0x1_0000_0000) as u32,
                ..v
            }
        } else {
            MetricsValues {
                serial,
                updated: now,
                serial_queries: ((v.serial_queries as int + 1) % 0x1_0000_0000) as u32,
                ..v
            }
        },
        MetricsOp::IncBytesRead(count) => MetricsValues {
            bytes_read: ((v.bytes_read as int + count as int) % 0x1_0000_0000_0000_0000) as u64,
            ..v
        },
        MetricsOp::IncBytesWritten(count) => MetricsValues {
            bytes_written: ((v.bytes_written as int + count as int) % 0x1_0000_0000_0000_0000) as u64,
            ..v
        },
    }
}

impl MetricsData {
    /// Applies a change to the metrics.
    pub fn apply(&mut self, op: MetricsOp)
        ensures
            final(self)@ == applied_op(old(self)@, op),
    {
        match op {
            MetricsOp::IncOpen => self.inc_open(),
            MetricsOp::DecOpen => self.dec_open(),
            MetricsOp::UpdateNow { serial, reset, now } => self.update_now(serial, reset, now),
            MetricsOp::IncBytesRead(count) => self.inc_bytes_read(count),
            MetricsOp::IncBytesWritten(count) => self.inc_bytes_written(count),
        }
    }
}

//------------ ClientAddr ----------------------------------------------------

/// The address of a client.
///
/// Addresses are ordered as IP addresses are: all IPv4 addresses before all
/// IPv6 addresses and each by its value. The text is how the address is
/// shown in metrics.
#[derive(Clone, Debug)]
pub struct ClientAddr {
    /// Whether this is an IPv6 address.
    pub v6: bool,

    /// The bits of the address, right-aligned for IPv4.
    pub bits: u128,

    /// The text of the address.
    pub text: String,
}

/// The key by which addresses are ordered and found.
pub type AddrKey = (bool, u128);

/// Whether address key `a` comes before `b`.
pub open spec fn key_lt(a: AddrKey, b: AddrKey) -> bool {
    (!a.0 && b.0) || (a.0 == b.0 && a.1 < b.1)
}

/// Returns whether address key `a` comes before `b`.
fn key_less(a: AddrKey, b: AddrKey) -> (res: bool)
    ensures
        res == key_lt(a, b),
{
    (!a.0 && b.0) || (a.0 == b.0 && a.1 < b.1)
}

/// An entry of the per-address metrics as a plain value.
pub type EntryView = (AddrKey, Seq<char>, MetricsValues);

/// The plain values of the entries of per-address metrics.
pub open spec fn entries_view(v: Seq<(ClientAddr, MetricsData)>) -> Seq<EntryView> {
    v.map_values(|e: (ClientAddr, MetricsData)| ((e.0.v6, e.0.bits), e.0.text@, e.1@))
}

/// Whether the entries are ordered by their addresses with no address
/// appearing twice.
pub open spec fn entries_sorted(v: Seq<EntryView>) -> bool {
    forall|i: int, j: int| 0 <= i < j < v.len() ==> key_lt(#[trigger] v[i].0, #[trigger] v[j].0)
}

/// Whether there is an entry for the address key.
pub open spec fn has_key(v: Seq<EntryView>, key: AddrKey) -> bool {
    exists|i: int| 0 <= i < v.len() && #[trigger] v[i].0 == key
}

/// The entries after applying a change to those of the address key.
pub open spec fn applied_to_key(v: Seq<EntryView>, key: AddrKey, op: MetricsOp) -> Seq<EntryView> {
    v.map_values(|e: EntryView| if e.0 == key {
        (e.0, e.1, applied_op(e.2, op))
    } else {
        e
    })
}

//------------ PerAddrMetrics ------------------------------------------------

/// The metrics per client address, ordered by address.
#[derive(Clone, Debug)]
pub struct PerAddrMetrics {
    addrs: Vec<(ClientAddr, MetricsData)>,
}

impl PerAddrMetrics {
    /// The entries as plain values.
    pub closed spec fn entries(&self) -> Seq<EntryView> {
        entries_view(self.addrs@)
    }

    /// Whether the entries are ordered by address.
    pub open spec fn wf(&self) -> bool {
        entries_sorted(self.entries())
    }

    /// Creates empty metrics.
    pub fn new() -> (res: PerAddrMetrics)
        ensures
            res.wf(),
            res.entries() == Seq::<EntryView>::empty(),
    {
        let res = PerAddrMetrics { addrs: Vec::new() };
        proof {
            assert(res.entries() =~= Seq::<EntryView>::empty());
        }
        res
    }

    /// Looks for the entry of an address key.
    ///
    /// Returns the index of the entry if there is one or the index where it
    /// would be inserted otherwise.
    fn find(&self, key: AddrKey) -> (res: Result<usize, usize>)
        requires
            self.wf(),
        ensures
            match res {
                Ok(i) => i < self.entries().len() && self.entries()[i as int].0 == key,
                Err(i) => i <= self.entries().len() && (forall|j: int|
                    0 <= j < i ==> key_lt(#[trigger] self.entries()[j].0, key)) && (forall|j: int|
                    i <= j < self.entries().len() ==> key_lt(key, #[trigger] self.entries()[j].0)),
            },
    {
        let ghost e = self.entries();
        let mut lo: usize = 0;
        let mut hi: usize = self.addrs.len();
        while lo < hi
            invariant
                e == self.entries(),
                entries_sorted(e),
                e.len() == self.addrs@.len(),
                lo <= hi <= e.len(),
                forall|j: int| 0 <= j < lo ==> key_lt(#[trigger] e[j].0, key),
                forall|j: int| hi <= j < e.len() ==> key_lt(key, #[trigger] e[j].0),
            decreases hi - lo,
        {
            let mid = lo + (hi - lo) / 2;
            let entry = &self.addrs[mid];
            let mid_key = (entry.0.v6, entry.0.bits);
            assert(e[mid as int].0 == mid_key);
            if key_less(mid_key, key) {
                lo = mid + 1;
            } else if key_less(key, mid_key) {
                hi = mid;
            } else {
                return Ok(mid);
            }
        }
        Err(lo)
    }

    /// Returns the index of the entry of an address, adding one with
    /// default values if there is none.
    pub fn get(&mut self, addr: ClientAddr) -> (res: usize)
        requires
            old(self).wf(),
        ensures
            final(self).wf(),
            res < final(self).entries().len(),
            final(self).entries()[res as int].0 == (addr.v6, addr.bits),
            has_key(old(self).entries(), (addr.v6, addr.bits)) ==> final(self).entries() == old(
                self,
            ).entries(),
            !has_key(old(self).entries(), (addr.v6, addr.bits)) ==> res <= old(self).entries().len()
                && final(self).entries() == old(self).entries().insert(
                res as int,
                ((addr.v6, addr.bits), addr.text@, default_values()),
            ),
    {
        let key = (addr.v6, addr.bits);
        match self.find(key) {
            Ok(i) => i,
            Err(i) => {
                let ghost before = self.entries();
                proof {
                    if has_key(before, key) {
                        let j = choose|j: int| 0 <= j < before.len() && #[trigger] before[j].0 == key;
                        if j < i {
                            assert(key_lt(before[j].0, key));
                        } else {
                            assert(key_lt(key, before[j].0));
                        }
                    }
                }
                let data = MetricsData::default();
                self.addrs.insert(i, (addr, data));
                proof {
                    let new = before.insert(i as int, (key, addr.text@, default_values()));
                    assert(self.entries() =~= new);
                    assert forall|a: int, b: int| 0 <= a < b < new.len() implies key_lt(
                        #[trigger] new[a].0,
                        #[trigger] new[b].0,
                    ) by {
                        if b < i {
                        } else if b == i {
                            assert(new[a] == before[a]);
                        } else if a < i {
                            assert(new[b] == before[b - 1]);
                            assert(key_lt(before[a].0, key));
                            assert(key_lt(key, before[b - 1].0));
                        } else if a == i {
                            assert(new[b] == before[b - 1]);
                        } else {
                            assert(new[a] == before[a - 1]);
                            assert(new[b] == before[b - 1]);
                        }
                    }
                }
                i
            },
        }
    }

    /// Applies a change to the metrics of an address key, if there is an
    /// entry for it.
    pub fn update(&mut self, key: AddrKey, op: MetricsOp)
        requires
            old(self).wf(),
        ensures
            final(self).wf(),
            final(self).entries() == applied_to_key(old(self).entries(), key, op),
    {
        let ghost before = self.entries();
        match self.find(key) {
            Ok(i) => {
                self.addrs[i].1.apply(op);
                proof {
                    assert forall|j: int| 0 <= j < before.len() && j != i implies before[j].0 != key by {
                        if j < i {
                            assert(key_lt(before[j].0, before[i as int].0));
                        } else {
                            assert(key_lt(before[i as int].0, before[j].0));
                        }
                    }
                    assert(self.entries() =~= applied_to_key(before, key, op));
                }
            },
            Err(i) => {
                proof {
                    assert forall|j: int| 0 <= j < before.len() implies before[j].0 != key by {
                        if j < i {
                            assert(key_lt(before[j].0, key));
                        } else {
                            assert(key_lt(key, before[j].0));
                        }
                    }
                    assert(self.entries() =~= applied_to_key(before, key, op));
                }
            },
        }
    }

    /// Returns all entries.
    pub fn all(&self) -> (res: &Vec<(ClientAddr, MetricsData)>)
        ensures
            entries_view(res@) == self.entries(),
    {
        &self.addrs
    }
}

//------------ ListenerMetrics -----------------------------------------------

/// A value of the metrics of a client address.
#[derive(Clone, Copy, Debug, PartialEq, Eq, Structural)]
pub enum ClientValue {
    Open,
    Serial,
    Updated,
    LastReset,
    ResetQueries,
    SerialQueries,
    BytesRead,
    BytesWritten,
}

/// The whole seconds of a duration in milliseconds, rounded towards zero.
pub open spec fn duration_secs(d: int) -> int {
    if d >= 0 {
        d / 1000
    } else {
        -((-d) / 1000)
    }
}

/// The milliseconds of a duration beyond the whole seconds, with the sign
/// of the duration.
pub open spec fn duration_millis(d: int) -> int {
    d - duration_secs(d) * 1000
}

/// The milliseconds part of a duration, zero-padded to three places
/// including the sign.
pub open spec fn millis_text(r: int) -> Seq<char> {
    if r >= 100 {
        decimal(r as nat)
    } else if r >= 10 {
        seq!['0'] + decimal(r as nat)
    } else if r >= 0 {
        seq!['0', '0'] + decimal(r as nat)
    } else if r <= -10 {
        seq!['-'] + decimal((-r) as nat)
    } else {
        seq!['-', '0'] + decimal((-r) as nat)
    }
}

/// A duration in milliseconds as seconds with three decimal places.
pub open spec fn duration_text(d: int) -> Seq<char> {
    signed_decimal(duration_secs(d)) + seq!['.'] + millis_text(duration_millis(d))
}

/// The time since the unix timestamp `time` at the time `now`, or -1 if
/// there is no time.
pub open spec fn since_text(time: i64, now: Timestamp) -> Seq<char> {
    if time == i64::MIN {
        seq!['-', '1']
    } else {
        duration_text(millis_between(time, 0, now))
    }
}

/// The text of a value of a client’s metrics.
pub open spec fn client_value_text(m: MetricsValues, which: ClientValue, now: Timestamp) -> Seq<
    char,
> {
    match which {
        ClientValue::Open => decimal(m.open as nat),
        ClientValue::Serial => if m.serial == u32::MAX {
            seq!['-', '1']
        } else {
            decimal(m.serial as nat)
        },
        ClientValue::Updated => since_text(m.updated, now),
        ClientValue::LastReset => since_text(m.last_reset, now),
        ClientValue::ResetQueries => decimal(m.reset_queries as nat),
        ClientValue::SerialQueries => decimal(m.serial_queries as nat),
        ClientValue::BytesRead => decimal(m.bytes_read as nat),
        ClientValue::BytesWritten => decimal(m.bytes_written as nat),
    }
}

/// The description of the metric of a client value.
pub open spec fn client_metric_spec(which: ClientValue) -> Metric {
    match which {
        ClientValue::Open => Metric {
            name: "rtr_client_connections",
            help: "number of open client connections by a client address",
            metric_type: MetricType::Gauge,
            unit: MetricUnit::Total,
        },
        ClientValue::Serial => Metric {
            name: "rtr_client_serial",
            help: "last serial seen by a client address",
            metric_type: MetricType::Gauge,
            unit: MetricUnit::Total,
        },
        ClientValue::Updated => Metric {
            name: "rtr_client_last_update",
            help: "seconds since last update by a client address",
            metric_type: MetricType::Gauge,
            unit: MetricUnit::Second,
        },
        ClientValue::LastReset => Metric {
            name: "rtr_client_last_reset",
            help: "seconds since last cache reset by a client address",
            metric_type: MetricType::Gauge,
            unit: MetricUnit::Second,
        },
        ClientValue::ResetQueries => Metric {
            name: "rtr_client_reset_queries",
            help: "number of reset queries by a client address",
            metric_type: MetricType::Counter,
            unit: MetricUnit::Total,
        },
        ClientValue::SerialQueries => Metric {
            name: "rtr_client_serial_queries",
            help: "number of serial queries by a client address",
            metric_type: MetricType::Counter,
            unit: MetricUnit::Total,
        },
        ClientValue::BytesRead => Metric {
            name: "rtr_client_read",
            help: "number of bytes read from a client address",
            metric_type: MetricType::Counter,
            unit: MetricUnit::Byte,
        },
        ClientValue::BytesWritten => Metric {
            name: "rtr_client_write",
            help: "number of bytes written to a client address",
            metric_type: MetricType::Counter,
            unit: MetricUnit::Byte,
        },
    }
}

/// The client values in the order they are output.
pub open spec fn client_values() -> Seq<ClientValue> {
    seq![
        ClientValue::Open,
        ClientValue::Serial,
        ClientValue::Updated,
        ClientValue::LastReset,
        ClientValue::ResetQueries,
        ClientValue::SerialQueries,
        ClientValue::BytesRead,
        ClientValue::BytesWritten,
    ]
}

/// The description of the metric of the number of open connections.
pub open spec fn open_metric_spec() -> Metric {
    Metric {
        name: "rtr_connections",
        help: "number of currently open RTR client connections",
        metric_type: MetricType::Gauge,
        unit: MetricUnit::Total,
    }
}

/// The description of the metric of the bytes read.
pub open spec fn read_metric_spec() -> Metric {
    Metric {
        name: "rtr_read",
        help: "number of bytes read by an RTR target",
        metric_type: MetricType::Counter,
        unit: MetricUnit::Byte,
    }
}

/// The description of the metric of the bytes written.
pub open spec fn write_metric_spec() -> Metric {
    Metric {
        name: "rtr_write",
        help: "number of bytes written by an RTR target",
        metric_type: MetricType::Counter,
        unit: MetricUnit::Byte,
    }
}

/// The lines of a client metric: one per client address.
pub open spec fn client_lines(
    format: OutputFormat,
    name: Seq<char>,
    clients: Seq<(Seq<char>, MetricsValues)>,
    which: ClientValue,
    now: Timestamp,
) -> Seq<char>
    decreases clients.len(),
{
    if clients.len() == 0 {
        Seq::empty()
    } else {
        client_lines(format, name, clients.drop_last(), which, now) + label_line(
            format,
            name,
            seq![("addr"@, clients.last().0)],
            client_value_text(clients.last().1, which, now),
        )
    }
}

/// The text of a client metric.
pub open spec fn client_metric_text(
    format: OutputFormat,
    unit: Seq<char>,
    clients: Seq<(Seq<char>, MetricsValues)>,
    which: ClientValue,
    now: Timestamp,
) -> Seq<char> {
    let m = client_metric_spec(which);
    metric_header(format, m, Some(unit)) + client_lines(
        format,
        metric_name(format, m, Some(unit)),
        clients,
        which,
        now,
    )
}

/// The text of the client metrics for the given values, one after the
/// other.
pub open spec fn client_metrics_text(
    format: OutputFormat,
    unit: Seq<char>,
    clients: Seq<(Seq<char>, MetricsValues)>,
    whiches: Seq<ClientValue>,
    now: Timestamp,
) -> Seq<char>
    decreases whiches.len(),
{
    if whiches.len() == 0 {
        Seq::empty()
    } else {
        client_metrics_text(format, unit, clients, whiches.drop_last(), now) + client_metric_text(
            format,
            unit,
            clients,
            whiches.last(),
            now,
        )
    }
}

/// The text of a metric with a single value.
pub open spec fn simple_text(format: OutputFormat, unit: Seq<char>, m: Metric, value: Seq<char>) -> Seq<
    char,
> {
    metric_header(format, m, Some(unit)) + value_line(format, metric_name(format, m, Some(unit)), value)
}

/// The text of the metrics of a listener.
pub open spec fn listener_text(
    format: OutputFormat,
    unit: Seq<char>,
    global: MetricsValues,
    clients: Option<Seq<(Seq<char>, MetricsValues)>>,
    now: Timestamp,
) -> Seq<char> {
    (match clients {
        Some(clients) => client_metrics_text(format, unit, clients, client_values(), now),
        None => Seq::empty(),
    }) + simple_text(format, unit, open_metric_spec(), decimal(global.open as nat)) + simple_text(
        format,
        unit,
        read_metric_spec(),
        decimal(global.bytes_read as nat),
    ) + simple_text(format, unit, write_metric_spec(), decimal(global.bytes_written as nat))
}

/// Returns the description of the metric of a client value.
fn client_metric(which: ClientValue) -> (res: Metric)
    ensures
        res == client_metric_spec(which),
{
    match which {
        ClientValue::Open => Metric::new(
            "rtr_client_connections",
            "number of open client connections by a client address",
            MetricType::Gauge,
            MetricUnit::Total,
        ),
        ClientValue::Serial => Metric::new(
            "rtr_client_serial",
            "last serial seen by a client address",
            MetricType::Gauge,
            MetricUnit::Total,
        ),
        ClientValue::Updated => Metric::new(
            "rtr_client_last_update",
            "seconds since last update by a client address",
            MetricType::Gauge,
            MetricUnit::Second,
        ),
        ClientValue::LastReset => Metric::new(
            "rtr_client_last_reset",
            "seconds since last cache reset by a client address",
            MetricType::Gauge,
            MetricUnit::Second,
        ),
        ClientValue::ResetQueries => Metric::new(
            "rtr_client_reset_queries",
            "number of reset queries by a client address",
            MetricType::Counter,
            MetricUnit::Total,
        ),
        ClientValue::SerialQueries => Metric::new(
            "rtr_client_serial_queries",
            "number of serial queries by a client address",
            MetricType::Counter,
            MetricUnit::Total,
        ),
        ClientValue::BytesRead => Metric::new(
            "rtr_client_read",
            "number of bytes read from a client address",
            MetricType::Counter,
            MetricUnit::Byte,
        ),
        ClientValue::BytesWritten => Metric::new(
            "rtr_client_write",
            "number of bytes written to a client address",
            MetricType::Counter,
            MetricUnit::Byte,
        ),
    }
}

/// Appends the time since a unix timestamp at the time `now`.
fn push_since(s: &mut String, time: i64, now: Timestamp)
    ensures
        final(s)@ == old(s)@ + since_text(time, now),
{
    if time == i64::MIN {
        push_str(s, "-1");
        proof {
            reveal_strlit("-1");
            assert(s@ =~= old(s)@ + since_text(time, now));
        }
        return;
    }
    let d: i128 = millis_since(time, 0, now);
    let a: u128 = if d >= 0 {
        d as u128
    } else {
        (-d) as u128
    };
    let q: u128 = a / 1000;
    let r: u128 = a % 1000;
    let secs: i128 = if d >= 0 {
        q as i128
    } else {
        -(q as i128)
    };
    proof {
        assert(duration_secs(d as int) == secs);
        assert(duration_millis(d as int) == if d >= 0 {
            r as int
        } else {
            -(r as int)
        });
        reveal_strlit(".");
        reveal_strlit("00");
        reveal_strlit("0");
        reveal_strlit("-");
    }
    let ghost s0 = s@;
    push_signed_decimal(s, secs);
    push_str(s, ".");
    let ghost s1 = s@;
    assert(s1 =~= s0 + signed_decimal(secs as int) + seq!['.']);
    if d >= 0 || r == 0 {
        if r < 10 {
            push_str(s, "00");
            push_decimal(s, r);
            assert(s@ =~= s1 + millis_text(r as int));
        } else if r < 100 {
            push_str(s, "0");
            push_decimal(s, r);
            assert(s@ =~= s1 + millis_text(r as int));
        } else {
            push_decimal(s, r);
            assert(s@ =~= s1 + millis_text(r as int));
        }
        assert(duration_millis(d as int) == r as int);
    } else {
        push_str(s, "-");
        if r < 10 {
            push_str(s, "0");
            push_decimal(s, r);
        } else {
            push_decimal(s, r);
        }
        assert(s@ =~= s1 + millis_text(-(r as int)));
        assert(duration_millis(d as int) == -(r as int));
    }
    assert(s@ =~= old(s)@ + since_text(time, now));
}

/// Returns the text of a value of a client’s metrics.
fn client_value(m: &MetricsData, which: ClientValue, now: Timestamp) -> (res: String)
    ensures
        res@ == client_value_text(m@, which, now),
{
    let mut res = String::new();
    match which {
        ClientValue::Open => push_decimal(&mut res, m.open as u128),
        ClientValue::Serial => {
            if m.serial == u32::MAX {
                push_str(&mut res, "-1");
                proof {
                    reveal_strlit("-1");
                }
            } else {
                push_decimal(&mut res, m.serial as u128);
            }
        },
        ClientValue::Updated => push_since(&mut res, m.updated, now),
        ClientValue::LastReset => push_since(&mut res, m.last_reset, now),
        ClientValue::ResetQueries => push_decimal(&mut res, m.reset_queries as u128),
        ClientValue::SerialQueries => push_decimal(&mut res, m.serial_queries as u128),
        ClientValue::BytesRead => push_decimal(&mut res, m.bytes_read as u128),
        ClientValue::BytesWritten => push_decimal(&mut res, m.bytes_written as u128),
    }
    proof {
        assert(res@ =~= client_value_text(m@, which, now));
    }
    res
}

/// The metrics held by a listener: those over all connections and, if
/// enabled, those of each client address.
#[derive(Clone, Debug)]
pub struct ListenerMetrics {
    /// The global metrics over all connections.
    global: MetricsData,

    /// The per-client address metrics.
    ///
    /// If this is `None`, per-client metrics are disabled.
    client: Option<PerAddrMetrics>,
}

/// The text and values of the client metrics.
pub open spec fn clients_view(entries: Seq<EntryView>) -> Seq<(Seq<char>, MetricsValues)> {
    entries.map_values(|e: EntryView| (e.1, e.2))
}

impl ListenerMetrics {
    /// The global metrics.
    pub closed spec fn global_spec(&self) -> MetricsValues {
        self.global@
    }

    /// The per-client address entries, if enabled.
    pub closed spec fn entries_spec(&self) -> Option<Seq<EntryView>> {
        match self.client {
            Some(client) => Some(client.entries()),
            None => None,
        }
    }

    /// The client metrics, if enabled.
    pub open spec fn clients_spec(&self) -> Option<Seq<(Seq<char>, MetricsValues)>> {
        match self.entries_spec() {
            Some(entries) => Some(clients_view(entries)),
            None => None,
        }
    }

    /// Whether the per-client entries are ordered by address.
    pub open spec fn wf(&self) -> bool {
        match self.entries_spec() {
            Some(entries) => entries_sorted(entries),
            None => true,
        }
    }

    /// Creates new metrics with per-client metrics if `client_metrics` is
    /// `true`.
    pub fn new(client_metrics: bool) -> (res: ListenerMetrics)
        ensures
            res.wf(),
            res.global_spec() == default_values(),
            res.entries_spec() == if client_metrics {
                Some(Seq::<EntryView>::empty())
            } else {
                None
            },
    {
        let client = if client_metrics {
            Some(PerAddrMetrics::new())
        } else {
            None
        };
        ListenerMetrics { global: MetricsData::default(), client }
    }

    /// Returns the metrics of a connection from a client address.
    ///
    /// If per-client metrics are enabled, an entry for the address is added
    /// unless there is one already.
    pub fn get_client(&mut self, addr: ClientAddr) -> (res: ClientMetrics)
        requires
            old(self).wf(),
        ensures
            final(self).wf(),
            final(self).global_spec() == old(self).global_spec(),
            res.client_key() == match old(self).entries_spec() {
                Some(_) => Some((addr.v6, addr.bits)),
                None => None,
            },
            match old(self).entries_spec() {
                None => final(self).entries_spec() is None,
                Some(entries) => if has_key(entries, (addr.v6, addr.bits)) {
                    final(self).entries_spec() == Some(entries)
                } else {
                    exists|i: int|
                        0 <= i <= entries.len() && final(self).entries_spec() == Some(
                            entries.insert(i, ((addr.v6, addr.bits), addr.text@, default_values())),
                        )
                },
            },
    {
        let key = (addr.v6, addr.bits);
        let ghost text = addr.text@;
        let ghost mut idx: int = 0;
        let res = match &mut self.client {
            Some(client) => {
                let i = client.get(addr);
                proof {
                    idx = i as int;
                }
                ClientMetrics { client: Some(key) }
            },
            None => ClientMetrics { client: None },
        };
        proof {
            if let Some(entries) = old(self).entries_spec() {
                if !has_key(entries, key) {
                    let entry = (key, text, default_values());
                    assert(0 <= idx <= entries.len());
                    assert(exists|i: int|
                        0 <= i <= entries.len() && self.entries_spec() == Some(
                            #[trigger] entries.insert(i, entry),
                        ));
                }
            }
        }
        res
    }

    /// Appends the metrics of a client value.
    fn append_client(
        clients: &Vec<(ClientAddr, MetricsData)>,
        which: ClientValue,
        unit_name: &str,
        target: &mut Target,
        now: Timestamp,
    )
        ensures
            final(target).format() == old(target).format(),
            final(target)@ == old(target)@ + client_metric_text(
                old(target).format(),
                unit_name@,
                clients_view(entries_view(clients@)),
                which,
                now,
            ),
    {
        let metric = client_metric(which);
        let mut records = target.records(&metric, Some(unit_name));
        let ghost name = metric_name(target.format(), metric, Some(unit_name@));
        let mut i: usize = 0;
        proof {
            assert(clients_view(entries_view(clients@)).take(0) =~= Seq::<(Seq<char>, MetricsValues)>::empty());
        }
        while i < clients.len()
            invariant
                i <= clients@.len(),
                records.format() == target.format(),
                records.name() == name,
                records@ == client_lines(
                    target.format(),
                    name,
                    clients_view(entries_view(clients@)).take(i as int),
                    which,
                    now,
                ),
            decreases clients@.len() - i,
        {
            let (addr, data) = &clients[i];
            let value = client_value(data, which, now);
            let labels = [("addr", addr.text.as_str())];
            proof {
                assert(label_views(labels@) =~= seq![("addr"@, addr.text@)]);
            }
            records.label_value(&labels, value.as_str());
            proof {
                let t = clients_view(entries_view(clients@)).take(i + 1);
                assert(t.drop_last() =~= clients_view(entries_view(clients@)).take(i as int));
                assert(t.last() == (addr.text@, data@));
            }
            i = i + 1;
        }
        proof {
            assert(clients_view(entries_view(clients@)).take(clients@.len() as int) =~= clients_view(entries_view(clients@)));
        }
        target.append(&metric, Some(unit_name), &records);
    }

    /// Appends a metric with a single number.
    fn append_number(target: &mut Target, metric: &Metric, unit_name: &str, value: u128)
        ensures
            final(target).format() == old(target).format(),
            metric.metric_type != MetricType::Text ==> final(target)@ == old(target)@ + simple_text(
                old(target).format(),
                unit_name@,
                *metric,
                decimal(value as nat),
            ),
    {
        let mut text = String::new();
        push_decimal(&mut text, value);
        proof {
            assert(text@ =~= decimal(value as nat));
        }
        target.append_simple(metric, Some(unit_name), text.as_str());
    }

    /// Appends the metrics of each client address, if enabled.
    fn append_clients(&self, unit_name: &str, target: &mut Target, now: Timestamp)
        ensures
            final(target).format() == old(target).format(),
            final(target)@ == old(target)@ + match self.clients_spec() {
                Some(clients) => client_metrics_text(
                    old(target).format(),
                    unit_name@,
                    clients,
                    client_values(),
                    now,
                ),
                None => Seq::empty(),
            },
    {
        let ghost start = target@;
        if let Some(client) = &self.client {
            let clients = client.all();
            let whiches = [
                ClientValue::Open,
                ClientValue::Serial,
                ClientValue::Updated,
                ClientValue::LastReset,
                ClientValue::ResetQueries,
                ClientValue::SerialQueries,
                ClientValue::BytesRead,
                ClientValue::BytesWritten,
            ];
            proof {
                assert(whiches@ =~= client_values());
                assert(client_values().take(0) =~= Seq::<ClientValue>::empty());
            }
            let mut k: usize = 0;
            while k < 8
                invariant
                    k <= 8,
                    whiches@ == client_values(),
                    target.format() == old(target).format(),
                    target@ == start + client_metrics_text(
                        target.format(),
                        unit_name@,
                        clients_view(entries_view(clients@)),
                        client_values().take(k as int),
                        now,
                    ),
                decreases 8 - k,
            {
                Self::append_client(clients, whiches[k], unit_name, target, now);
                proof {
                    let t = client_values().take(k + 1);
                    assert(t.drop_last() =~= client_values().take(k as int));
                }
                k = k + 1;
            }
            proof {
                assert(client_values().take(8) =~= client_values());
            }
        } else {
            assert(target@ =~= start + Seq::<char>::empty());
        }
    }

    /// Appends the metrics over all connections.
    fn append_global(&self, unit_name: &str, target: &mut Target)
        ensures
            final(target).format() == old(target).format(),
            final(target)@ == old(target)@ + (simple_text(
                old(target).format(),
                unit_name@,
                open_metric_spec(),
                decimal(self.global_spec().open as nat),
            ) + simple_text(
                old(target).format(),
                unit_name@,
                read_metric_spec(),
                decimal(self.global_spec().bytes_read as nat),
            ) + simple_text(
                old(target).format(),
                unit_name@,
                write_metric_spec(),
                decimal(self.global_spec().bytes_written as nat),
            )),
    {
        let open = Metric::new(
            "rtr_connections",
            "number of currently open RTR client connections",
            MetricType::Gauge,
            MetricUnit::Total,
        );
        let read = Metric::new(
            "rtr_read",
            "number of bytes read by an RTR target",
            MetricType::Counter,
            MetricUnit::Byte,
        );
        let write = Metric::new(
            "rtr_write",
            "number of bytes written by an RTR target",
            MetricType::Counter,
            MetricUnit::Byte,
        );
        Self::append_number(target, &open, unit_name, self.global.open as u128);
        Self::append_number(target, &read, unit_name, self.global.bytes_read as u128);
        Self::append_number(target, &write, unit_name, self.global.bytes_written as u128);
        proof {
            assert(target@ =~= old(target)@ + (simple_text(
                old(target).format(),
                unit_name@,
                open_metric_spec(),
                decimal(self.global_spec().open as nat),
            ) + simple_text(
                old(target).format(),
                unit_name@,
                read_metric_spec(),
                decimal(self.global_spec().bytes_read as nat),
            ) + simple_text(
                old(target).format(),
                unit_name@,
                write_metric_spec(),
                decimal(self.global_spec().bytes_written as nat),
            )));
        }
    }

    /// Appends the metrics to the target.
    ///
    /// Times are given as the seconds passed since then at `now`, the
    /// current time.
    pub fn append(&self, unit_name: &str, target: &mut Target, now: Timestamp)
        ensures
            final(target).format() == old(target).format(),
            final(target)@ == old(target)@ + listener_text(
                old(target).format(),
                unit_name@,
                self.global_spec(),
                self.clients_spec(),
                now,
            ),
    {
        let ghost start = target@;
        self.append_clients(unit_name, target, now);
        let ghost mid = target@;
        self.append_global(unit_name, target);
        proof {
            let c = mid.subrange(start.len() as int, mid.len() as int);
            assert(mid =~= start + c);
            let g = target@.subrange(mid.len() as int, target@.len() as int);
            assert(target@ =~= start + (c + g));
        }
    }
}

//------------ ClientMetrics -------------------------------------------------

/// The metrics of a connection: the global metrics of its listener and,
/// if enabled, those of its client address.
#[derive(Clone, Copy, Debug)]
pub struct ClientMetrics {
    client: Option<AddrKey>,
}

impl ClientMetrics {
    /// The address key of the client, if per-client metrics are enabled.
    pub closed spec fn client_key(&self) -> Option<AddrKey> {
        self.client
    }

    /// Applies a change to the global metrics and those of the client.
    pub fn update(&self, listener: &mut ListenerMetrics, op: MetricsOp)
        requires
            old(listener).wf(),
        ensures
            final(listener).wf(),
            final(listener).global_spec() == applied_op(old(listener).global_spec(), op),
            final(listener).entries_spec() == match old(listener).entries_spec() {
                Some(entries) => Some(match self.client_key() {
                    Some(key) => applied_to_key(entries, key, op),
                    None => entries,
                }),
                None => None,
            },
    {
        listener.global.apply(op);
        match &mut listener.client {
            Some(client) => {
                match self.client {
                    Some(key) => client.update(key, op),
                    None => {},
                }
            },
            None => {},
        }
    }
}

} // verus!
