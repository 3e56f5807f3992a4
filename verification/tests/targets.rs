use rtrtr::payload::{PackBuilder, PayloadSet};
use rtrtr::rtr::{Action, Payload, Prefix, RouteOrigin};
use rtrtr::metrics::{OutputFormat, Target};
use rtrtr::utils::time::Timestamp;
use rtrtr::targets::rtr::{
    timing, ClientAddr, ListenerMetrics, MetricsData, MetricsOp, PerAddrMetrics, SourceData, State,
    Timing,
};

fn p(value: u32) -> Payload {
    Payload::Origin(
        RouteOrigin::new(Prefix::new_v4(value, 32).unwrap(), Some(32), 0).unwrap(),
    )
}

fn set(values: &[u32]) -> PayloadSet {
    let mut res = PackBuilder::empty();
    for value in values {
        res.insert_unchecked(p(*value));
    }
    PayloadSet::from_pack(res.finalize())
}

fn diff_changes(data: &SourceData, serial: u32) -> Option<Vec<(Payload, Action)>> {
    let mut iter = data.get_diff(serial)?;
    let mut res = Vec::new();
    while let Some((item, action)) = iter.next() {
        res.push((item.clone(), action));
    }
    Some(res)
}

#[test]
fn state_inc_wraps() {
    let mut state = State::from_parts(7, u32::MAX);
    state.inc();
    assert_eq!(state, State { session: 7, serial: 0 });
    state.inc();
    assert_eq!(state.serial, 1);
}

#[test]
fn source_history_size_zero_and_one() {
    let state = State::from_parts(1, 100);
    let data = SourceData::new(state, Timing::default());
    let data = data.update(set(&[1]), 0, Timing::default()).unwrap();
    let data = data.update(set(&[2]), 0, Timing::default()).unwrap();
    assert_eq!(data.state().serial, 101);
    assert_eq!(diff_changes(&data, 101), Some(vec![]));
    assert_eq!(diff_changes(&data, 100), None);

    let data = data.update(set(&[3]), 1, Timing::default()).unwrap();
    assert_eq!(data.state().serial, 102);
    assert_eq!(
        diff_changes(&data, 101),
        Some(vec![(p(2), Action::Withdraw), (p(3), Action::Announce)])
    );
    let data = data.update(set(&[4]), 1, Timing::default()).unwrap();
    assert_eq!(data.state().serial, 103);
    assert_eq!(
        diff_changes(&data, 102),
        Some(vec![(p(3), Action::Withdraw), (p(4), Action::Announce)])
    );
    assert_eq!(diff_changes(&data, 101), None);
}

#[test]
fn timing_defaults() {
    assert_eq!(Timing::default(), Timing { refresh: 3600, retry: 600, expire: 7200 });
    assert_eq!(timing(Some(10), None, Some(20)), Timing { refresh: 10, retry: 600, expire: 20 });
}

#[test]
fn source_history() {
    let state = State::from_parts(1, 100);
    let data = SourceData::new(state, Timing::default());
    assert!(!data.ready());
    assert!(data.diff(state).is_none());

    // The first set doesn’t change the serial.
    let data = data.update(set(&[1, 2]), 2, Timing::default()).unwrap();
    assert!(data.ready());
    assert_eq!(data.state().serial, 100);
    assert_eq!(diff_changes(&data, 100), Some(vec![]));
    assert_eq!(diff_changes(&data, 99), None);

    // The same content again is no update.
    assert!(data.update(set(&[2, 1]), 2, Timing::default()).is_none());

    // A new set gives a new serial and a diff.
    let data = data.update(set(&[2, 3]), 2, Timing::default()).unwrap();
    assert_eq!(data.state().serial, 101);
    assert_eq!(
        diff_changes(&data, 100),
        Some(vec![(p(1), Action::Withdraw), (p(3), Action::Announce)])
    );

    // Another one extends the diff.
    let data = data.update(set(&[3, 4]), 2, Timing::default()).unwrap();
    assert_eq!(data.state().serial, 102);
    assert_eq!(
        diff_changes(&data, 101),
        Some(vec![(p(2), Action::Withdraw), (p(4), Action::Announce)])
    );
    assert_eq!(
        diff_changes(&data, 100),
        Some(vec![
            (p(1), Action::Withdraw),
            (p(2), Action::Withdraw),
            (p(3), Action::Announce),
            (p(4), Action::Announce)
        ])
    );

    // The history is limited.
    let data = data.update(set(&[5]), 2, Timing::default()).unwrap();
    assert_eq!(data.state().serial, 103);
    assert!(diff_changes(&data, 102).is_some());
    assert!(diff_changes(&data, 101).is_some());
    assert!(diff_changes(&data, 100).is_none());

    // A different session gets nothing.
    assert!(data.diff(State::from_parts(2, 102)).is_none());
    assert!(data.diff(State::from_parts(1, 102)).is_some());

    // The full set.
    let (full_state, mut iter) = data.full();
    assert_eq!(full_state.serial, 103);
    assert_eq!(iter.next(), Some(&p(5)));
    assert_eq!(iter.next(), None);
}

#[test]
fn metrics_data() {
    let mut metrics = MetricsData::default();
    assert_eq!(metrics.open(), 0);
    assert_eq!(metrics.serial(), None);
    assert_eq!(metrics.updated(), None);
    assert_eq!(metrics.last_reset(), None);
    metrics.inc_open();
    metrics.inc_open();
    metrics.dec_open();
    assert_eq!(metrics.open(), 1);
    metrics.update_now(12, true, 1000);
    metrics.update_now(13, false, 2000);
    assert_eq!(metrics.serial(), Some(13));
    assert_eq!(metrics.updated(), Some(2000));
    assert_eq!(metrics.last_reset(), Some(1000));
    assert_eq!(metrics.reset_queries(), 1);
    assert_eq!(metrics.serial_queries(), 1);
    metrics.inc_bytes_read(u64::MAX);
    metrics.inc_bytes_read(2);
    assert_eq!(metrics.bytes_read(), 1);
    metrics.inc_bytes_written(5);
    assert_eq!(metrics.bytes_written(), 5);
}

fn v4(bits: u32, text: &str) -> ClientAddr {
    ClientAddr { v6: false, bits: bits as u128, text: String::from(text) }
}

fn v6(bits: u128, text: &str) -> ClientAddr {
    ClientAddr { v6: true, bits, text: String::from(text) }
}

#[test]
fn listener_metrics_plain() {
    let mut metrics = ListenerMetrics::new(true);
    let client = metrics.get_client(v4(0xc000_0201, "192.0.2.1"));
    client.update(&mut metrics, MetricsOp::IncOpen);
    client.update(&mut metrics, MetricsOp::UpdateNow { serial: 5, reset: true, now: 1_000 });
    client.update(&mut metrics, MetricsOp::IncBytesRead(3));
    client.update(&mut metrics, MetricsOp::IncBytesRead(7));
    client.update(&mut metrics, MetricsOp::IncBytesWritten(20));
    let mut target = Target::new(OutputFormat::Plain);
    metrics.append("rtr", &mut target, Timestamp { secs: 1_002, nanos: 5_300_000 });
    assert_eq!(
        target.into_string(),
        "version: rtrtr/0.3.3-rc1\n\
         rtr rtr_client_connections addr=192.0.2.1: 1\n\
         rtr rtr_client_serial addr=192.0.2.1: 5\n\
         rtr rtr_client_last_update addr=192.0.2.1: 2.005\n\
         rtr rtr_client_last_reset addr=192.0.2.1: 2.005\n\
         rtr rtr_client_reset_queries addr=192.0.2.1: 1\n\
         rtr rtr_client_serial_queries addr=192.0.2.1: 0\n\
         rtr rtr_client_read addr=192.0.2.1: 10\n\
         rtr rtr_client_write addr=192.0.2.1: 20\n\
         rtr rtr_connections: 1\n\
         rtr rtr_read: 10\n\
         rtr rtr_write: 20\n"
    );
}

#[test]
fn listener_metrics_clients_ordered() {
    let mut metrics = ListenerMetrics::new(true);
    let a = metrics.get_client(v6(1, "::1"));
    let b = metrics.get_client(v4(0x0a00_0002, "10.0.0.2"));
    let c = metrics.get_client(v4(0x0a00_0001, "10.0.0.1"));
    let b2 = metrics.get_client(v4(0x0a00_0002, "10.0.0.2"));
    a.update(&mut metrics, MetricsOp::IncOpen);
    b.update(&mut metrics, MetricsOp::IncOpen);
    b2.update(&mut metrics, MetricsOp::IncOpen);
    c.update(&mut metrics, MetricsOp::IncOpen);
    c.update(&mut metrics, MetricsOp::DecOpen);
    let mut target = Target::new(OutputFormat::Plain);
    metrics.append("r", &mut target, Timestamp { secs: 0, nanos: 0 });
    let text = target.into_string();
    assert!(text.contains(
        "r rtr_client_connections addr=10.0.0.1: 0\n\
         r rtr_client_connections addr=10.0.0.2: 2\n\
         r rtr_client_connections addr=::1: 1\n\
         r rtr_client_serial addr=10.0.0.1: -1\n"
    ));
    assert!(text.contains("r rtr_connections: 3\n"));
}

#[test]
fn per_addr_metrics_get() {
    let mut per_addr = PerAddrMetrics::new();
    assert_eq!(per_addr.get(v4(5, "a")), 0);
    assert_eq!(per_addr.get(v4(3, "b")), 0);
    assert_eq!(per_addr.get(v6(0, "c")), 2);
    assert_eq!(per_addr.get(v4(5, "a")), 1);
    assert_eq!(per_addr.get(v4(4, "d")), 1);
    let texts: Vec<&str> = per_addr.all().iter().map(|e| e.0.text.as_str()).collect();
    assert_eq!(texts, vec!["b", "d", "a", "c"]);
}

#[test]
fn listener_metrics_without_clients() {
    let mut metrics = ListenerMetrics::new(false);
    let client = metrics.get_client(v4(1, "0.0.0.1"));
    client.update(&mut metrics, MetricsOp::IncOpen);
    let mut target = Target::new(OutputFormat::Plain);
    metrics.append("r", &mut target, Timestamp { secs: 0, nanos: 0 });
    assert_eq!(
        target.into_string(),
        "version: rtrtr/0.3.3-rc1\nr rtr_connections: 1\nr rtr_read: 0\nr rtr_write: 0\n"
    );
}

#[test]
fn listener_metrics_unset_and_future_times() {
    let cases = [
        ((9, 500_000_000), "0.-500"),
        ((8, 995_000_000), "-1.-05"),
        ((8, 0), "-2.000"),
        ((8, 100), "-1.-999"),
        ((10, 7_900_000), "0.007"),
        ((10, 70_000_000), "0.070"),
        ((11, 700_000_000), "1.700"),
    ];
    for ((secs, nanos), expected) in cases {
        let mut metrics = ListenerMetrics::new(true);
        let client = metrics.get_client(v4(1, "a"));
        client.update(&mut metrics, MetricsOp::UpdateNow { serial: 1, reset: false, now: 10 });
        let mut target = Target::new(OutputFormat::Plain);
        metrics.append("u", &mut target, Timestamp { secs, nanos });
        let text = target.into_string();
        assert!(text.contains(&format!("u rtr_client_last_update addr=a: {}\n", expected)));
        assert!(text.contains("u rtr_client_last_reset addr=a: -1\n"));
        assert!(text.contains("u rtr_client_serial_queries addr=a: 1\n"));
    }
}

#[test]
fn listener_metrics_prometheus_without_clients() {
    let metrics = ListenerMetrics::new(false);
    let mut target = Target::new(OutputFormat::Prometheus);
    metrics.append("rtr", &mut target, Timestamp { secs: 0, nanos: 0 });
    assert_eq!(
        target.into_string(),
        "# HELP rtrtr_rtr_rtr_connections_total number of currently open RTR client connections\n\
         # TYPE rtrtr_rtr_rtr_connections_total gauge\n\
         rtrtr_rtr_rtr_connections_total 0\n\
         # HELP rtrtr_rtr_rtr_read_bytes number of bytes read by an RTR target\n\
         # TYPE rtrtr_rtr_rtr_read_bytes counter\n\
         rtrtr_rtr_rtr_read_bytes 0\n\
         # HELP rtrtr_rtr_rtr_write_bytes number of bytes written by an RTR target\n\
         # TYPE rtrtr_rtr_rtr_write_bytes counter\n\
         rtrtr_rtr_rtr_write_bytes 0\n"
    );
}

#[test]
fn listener_metrics_prometheus_client_labels() {
    let mut metrics = ListenerMetrics::new(true);
    let client = metrics.get_client(v4(1, "0.0.0.1"));
    client.update(&mut metrics, MetricsOp::IncOpen);
    let mut target = Target::new(OutputFormat::Prometheus);
    metrics.append("x", &mut target, Timestamp { secs: 0, nanos: 0 });
    assert!(target.into_string().starts_with(
        "# HELP rtrtr_x_rtr_client_connections_total number of open client connections by a client address\n\
         # TYPE rtrtr_x_rtr_client_connections_total gauge\n\
         rtrtr_x_rtr_client_connections_total{addr=\"0.0.0.1\"} 1\n"
    ));
}
