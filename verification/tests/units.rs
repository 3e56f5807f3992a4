use rand::Rng;
use rtrtr::comms::{gate_status, set_unit_status, GateLinks, GateMetrics, GateStatus, Terminated, UnitStatus};
use rtrtr::metrics::{OutputFormat, Target};
use rtrtr::payload::{DiffBuilder, Pack, PackBuilder, PayloadError, PayloadSet, Update};
use rtrtr::rtr::{less, Action, Aspa, Payload, Prefix, RouteOrigin, RouterKey};
use rtrtr::units::combine::{
    merge_report, merge_sources, Any, MergeReport, AnyMetrics, AnyStep, PickReport, SourceEvent, SourceHealth,
};
use rtrtr::units::rtr::{client_step, ClientAction, ClientEvent, RtrMetrics, TargetUpdate};
use rtrtr::utils::time::Timestamp;
use rtrtr::units::slurm::{Content, ExceptionSet, PrefixFilter, SlurmError, ValidationOutputFilters};

fn p(value: u32) -> Payload {
    Payload::Origin(
        RouteOrigin::new(Prefix::new_v4(value, 32).unwrap(), Some(32), 0).unwrap(),
    )
}

fn pack(values: &[u32]) -> Pack {
    let mut res = PackBuilder::empty();
    for value in values {
        res.insert_unchecked(p(*value));
    }
    res.finalize()
}

fn set_items(set: &PayloadSet) -> Vec<Payload> {
    let mut res = Vec::new();
    let mut iter = set.iter();
    while let Some(item) = iter.next() {
        res.push(item.clone());
    }
    res
}

#[test]
fn apply_content() {
    fn random_pack<T: Rng>(rng: &mut T, len: usize) -> Pack {
        let mut res = PackBuilder::empty();
        for _ in 0..len {
            res.insert_unchecked(p(rng.gen()))
        }
        res.finalize()
    }

    let mut rng = rand_pcg::Pcg32::new(0xcafef00dd15ea5e5, 0xa02bdbf7bb3c0a7);

    // First, let’s make a data set.
    let s1 = PayloadSet::from_pack(random_pack(&mut rng, 100));

    // Now, a pack that we first insert and then remove again via
    // local exceptions.
    let s2 = PayloadSet::from_pack(random_pack(&mut rng, 10));

    // And a pack which is what we are going to insert via local
    // exceptions.
    let p3 = random_pack(&mut rng, 15);

    // Now we can make the input and output sets.
    let input = s1.merge(&s2);
    let output = s1.merge(&PayloadSet::from_pack(p3.clone()));

    // Time to make the content.
    let content = Content {
        filters: ValidationOutputFilters {
            prefix: set_items(&s2)
                .iter()
                .filter_map(|payload| match payload {
                    Payload::Origin(origin) => {
                        Some(PrefixFilter::new(Some(origin.prefix), Some(origin.asn)))
                    },
                    _ => None,
                })
                .collect(),
        },
        assertions: p3,
    };

    assert_eq!(set_items(&content.apply(input)), set_items(&output));
}

#[test]
fn prefix_filter_covers() {
    let wide = PrefixFilter::new(Some(Prefix::new_v4(0x0a00_0000, 8).unwrap()), None);
    assert!(wide.drop_payload(&p(0x0a01_0203)));
    assert!(!wide.drop_payload(&p(0x0b00_0000)));
    let asn_only = PrefixFilter::new(None, Some(0));
    assert!(asn_only.drop_payload(&p(1)));
    let both = PrefixFilter::new(Some(Prefix::new_v4(0x0a00_0000, 8).unwrap()), Some(7));
    assert!(!both.drop_payload(&p(0x0a00_0001)));
    assert!(!PrefixFilter::new(None, None).drop_payload(&p(1)));
}

#[test]
fn target_update_reset() {
    let current = PayloadSet::from_pack(pack(&[1, 2]));
    let mut update = TargetUpdate::start(&current, true);
    assert!(!update.is_definitely_empty());
    assert_eq!(update.push_update(Action::Announce, p(5)), Ok(()));
    assert_eq!(update.push_update(Action::Announce, p(5)), Err(PayloadError::DuplicateAnnounce));
    assert_eq!(update.push_update(Action::Withdraw, p(1)), Err(PayloadError::Corrupt));
    let update = update.into_update(3).unwrap();
    assert_eq!(update.serial(), 3);
    assert_eq!(set_items(update.set()), [p(5)]);
}

#[test]
fn target_update_serial() {
    let current = PayloadSet::from_pack(pack(&[1, 2]));
    let mut update = TargetUpdate::start(&current, false);
    assert!(update.is_definitely_empty());
    update.push_update(Action::Withdraw, p(1)).unwrap();
    update.push_update(Action::Announce, p(3)).unwrap();
    assert!(!update.is_definitely_empty());
    assert_eq!(set_items(update.into_update(4).unwrap().set()), [p(2), p(3)]);

    let mut bad = TargetUpdate::start(&current, false);
    bad.push_update(Action::Withdraw, p(9)).unwrap();
    assert_eq!(bad.into_update(5).unwrap_err(), PayloadError::UnknownWithdraw);
    let mut bad = TargetUpdate::start(&current, false);
    bad.push_update(Action::Announce, p(2)).unwrap();
    assert_eq!(bad.into_update(5).unwrap_err(), PayloadError::DuplicateAnnounce);
    let _ = DiffBuilder::empty();
}

#[test]
fn any_pick() {
    let gone = SourceHealth { status: UnitStatus::Gone, has_update: false };
    let stalled = SourceHealth { status: UnitStatus::Stalled, has_update: true };
    let waiting = SourceHealth { status: UnitStatus::Healthy, has_update: false };
    let ready = SourceHealth { status: UnitStatus::Healthy, has_update: true };
    let any = Any::new(false);
    assert_eq!(any.pick(&[gone, ready, ready], None), Ok(Some(1)));
    assert_eq!(any.pick(&[ready, gone, ready], Some(0)), Ok(Some(2)));
    assert_eq!(any.pick(&[ready, gone, waiting], Some(1)), Ok(Some(0)));
    assert_eq!(any.pick(&[stalled, waiting, gone], None), Ok(None));
    assert_eq!(any.pick(&[gone, gone], Some(1)), Err(Terminated));
    let random = Any::new(true);
    assert_eq!(random.pick(&[gone, ready, gone], None), Ok(Some(1)));
    assert_eq!(random.pick(&[gone, gone], None), Err(Terminated));
    let picked = random.pick(&[ready, ready, ready], None).unwrap().unwrap();
    assert!(picked < 3);
}

#[test]
fn gate_and_unit_status() {
    assert_eq!(gate_status(0, 0), GateStatus::Dormant);
    assert_eq!(gate_status(1, 2), GateStatus::Active);
    assert_eq!(gate_status(2, 2), GateStatus::Dormant);
    assert_eq!(GateStatus::default(), GateStatus::Active);
    assert_eq!(UnitStatus::default(), UnitStatus::Healthy);
    assert_eq!(UnitStatus::Stalled.as_str(), "stalled");
    assert_eq!(UnitStatus::Gone.as_str(), "gone");
    assert!(less(&p(1), &p(2)));
}

fn gate_metrics() -> GateMetrics {
    let mut gate = GateMetrics::default();
    gate.update_status(UnitStatus::Stalled);
    let update = Update::new(0, PayloadSet::from_pack(pack(&[1, 2, 3])), None);
    gate.update(&update, Timestamp { secs: 100, nanos: 0 });
    gate
}

#[test]
fn gate_metrics_plain() {
    let mut target = Target::new(OutputFormat::Plain);
    gate_metrics().append("u", &mut target, Timestamp { secs: 102, nanos: 500_000_000 });
    assert_eq!(
        target.into_string(),
        "version: rtrtr/0.3.3-rc1\n\
         u unit_status: stalled\n\
         u vrps: 3\n\
         u last_update: 1970-01-01 00:01:40 UTC\n\
         u since_last_update: 2.5\n"
    );

    let mut target = Target::new(OutputFormat::Plain);
    GateMetrics::default().append("u", &mut target, Timestamp { secs: 0, nanos: 0 });
    assert_eq!(
        target.into_string(),
        "version: rtrtr/0.3.3-rc1\n\
         u unit_status: healthy\n\
         u vrps: 0\n\
         u last_update: N/A\n\
         u since_last_update: -1\n"
    );
}

#[test]
fn gate_metrics_seconds_since_update() {
    let cases = [
        ((100, 0), "0"),
        ((100, 999_999), "0"),
        ((100, 1_000_000), "0.001"),
        ((100, 20_000_000), "0.02"),
        ((101, 230_000_000), "1.23"),
        ((99, 999_000_000), "-0.001"),
        ((98, 0), "-2"),
        ((1_000_100, 0), "1000000"),
    ];
    for ((secs, nanos), expected) in cases {
        let mut target = Target::new(OutputFormat::Plain);
        gate_metrics().append("u", &mut target, Timestamp { secs, nanos });
        assert!(target.into_string().ends_with(&format!("u since_last_update: {}\n", expected)));
    }
}

#[test]
fn gate_metrics_prometheus() {
    let mut target = Target::new(OutputFormat::Prometheus);
    gate_metrics().append("u", &mut target, Timestamp { secs: 102, nanos: 500_000_000 });
    assert_eq!(
        target.into_string(),
        "# HELP rtrtr_u_vrps_total the number of VRPs in the last update\n\
         # TYPE rtrtr_u_vrps_total gauge\n\
         rtrtr_u_vrps_total 3\n\
         # HELP rtrtr_u_since_last_update_seconds the number of seconds since the last update\n\
         # TYPE rtrtr_u_since_last_update_seconds gauge\n\
         rtrtr_u_since_last_update_seconds 2.5\n"
    );
}

#[test]
fn rtr_metrics_plain() {
    let mut metrics = RtrMetrics::new();
    let mut target = Target::new(OutputFormat::Plain);
    metrics.append(&GateMetrics::default(), "r", &mut target, Timestamp { secs: 0, nanos: 0 });
    assert!(target.into_string().ends_with(
        "r since_last_update: -1\nr bytes_read: 0\nr bytes_written: 0\n"
    ));

    metrics.update_state(0x12, 7, 100);
    metrics.inc_bytes_read(5);
    metrics.inc_bytes_written(u64::MAX);
    metrics.inc_bytes_written(2);
    let mut target = Target::new(OutputFormat::Plain);
    metrics.append(&GateMetrics::default(), "r", &mut target, Timestamp { secs: 160, nanos: 3 });
    assert!(target.into_string().ends_with(
        "r since_last_update: -1\n\
         r session_id: 18\n\
         r serial: 7\n\
         r since_last_rtr_update: 60\n\
         r rtr_updated: 1970-01-01T00:01:40Z\n\
         r bytes_read: 5\n\
         r bytes_written: 1\n"
    ));

    let mut target = Target::new(OutputFormat::Plain);
    metrics.append(&GateMetrics::default(), "r", &mut target, Timestamp { secs: 98, nanos: 5 });
    assert!(target.into_string().contains("r since_last_rtr_update: -1\n"));
}

#[test]
fn rtr_metrics_prometheus() {
    let mut metrics = RtrMetrics::new();
    metrics.update_state(1, 2, 0);
    let mut target = Target::new(OutputFormat::Prometheus);
    metrics.append(&GateMetrics::default(), "r", &mut target, Timestamp { secs: 5, nanos: 0 });
    let text = target.into_string();
    assert!(!text.contains("session_id"));
    assert!(!text.contains("rtr_updated"));
    assert!(text.contains("rtrtr_r_serial_total 2\n"));
    assert!(text.contains("rtrtr_r_since_last_rtr_update_total 5\n"));
}

#[test]
fn any_metrics_index() {
    let mut metrics = AnyMetrics::new();
    let mut target = Target::new(OutputFormat::Plain);
    metrics.append(&GateMetrics::default(), "a", &mut target, Timestamp { secs: 0, nanos: 0 });
    assert!(target.into_string().starts_with(
        "version: rtrtr/0.3.3-rc1\na current_index: -1\na unit_status: healthy\n"
    ));
    metrics.set_current(Some(2));
    let mut target = Target::new(OutputFormat::Plain);
    metrics.append(&GateMetrics::default(), "a", &mut target, Timestamp { secs: 0, nanos: 0 });
    assert!(target.into_string().contains("a current_index: 2\n"));
}

fn drop_filter(value: u32) -> ValidationOutputFilters {
    ValidationOutputFilters {
        prefix: vec![PrefixFilter::new(Some(Prefix::new_v4(value, 32).unwrap()), None)],
    }
}

#[test]
fn content_from_parts() {
    let content = Content::new(drop_filter(1), vec![p(5), p(4), p(5)]);
    assert_eq!(content.assertions.as_slice(), &[p(4), p(5)]);
    assert_eq!(content.filters.prefix.len(), 1);
}

#[test]
fn exception_set_applies_files_in_order() {
    let first = || Content::new(drop_filter(1), vec![p(5), p(4)]);
    let second = || Content::new(drop_filter(5), vec![p(7)]);
    let input = PayloadSet::from_pack(pack(&[1, 2, 3]));

    let set = ExceptionSet::new(vec![first(), second()]);
    let update = set.apply(&Update::new(9, input.clone(), None));
    assert_eq!(update.serial(), 9);
    assert_eq!(set_items(update.set()), vec![p(2), p(3), p(4), p(7)]);

    let set = ExceptionSet::new(vec![second(), first()]);
    let res = set.apply_set(input.clone());
    assert_eq!(set_items(&res), vec![p(2), p(3), p(4), p(5), p(7)]);

    let set = ExceptionSet::new(vec![]);
    assert_eq!(set_items(&set.apply_set(input)), vec![p(1), p(2), p(3)]);
}

#[test]
fn merge_healthy_sources() {
    let sources = vec![
        (UnitStatus::Healthy, Some(PayloadSet::from_pack(pack(&[1, 2])))),
        (UnitStatus::Stalled, Some(PayloadSet::from_pack(pack(&[3])))),
        (UnitStatus::Healthy, None),
        (UnitStatus::Gone, Some(PayloadSet::from_pack(pack(&[5])))),
        (UnitStatus::Healthy, Some(PayloadSet::from_pack(pack(&[2, 4])))),
    ];
    assert_eq!(set_items(&merge_sources(&sources)), vec![p(1), p(2), p(4)]);
    assert!(set_items(&merge_sources(&vec![])).is_empty());
}

#[test]
fn any_reacts_to_sources() {
    assert_eq!(Any::report_pick(Err(Terminated), true), PickReport::Gone);
    assert_eq!(Any::report_pick(Ok(None), true), PickReport::Stalled);
    assert_eq!(Any::report_pick(Ok(Some(2)), true), PickReport::Payload(2));
    assert_eq!(Any::report_pick(Ok(Some(2)), false), PickReport::Stalled);

    assert_eq!(Any::step(Some(1), 1, SourceEvent::Payload), AnyStep::Forward);
    assert_eq!(Any::step(Some(1), 0, SourceEvent::Payload), AnyStep::Ignore);
    assert_eq!(Any::step(None, 0, SourceEvent::Payload), AnyStep::Repick);
    assert_eq!(Any::step(Some(1), 1, SourceEvent::Stalled), AnyStep::Repick);
    assert_eq!(Any::step(Some(1), 1, SourceEvent::Gone), AnyStep::Repick);
    assert_eq!(Any::step(Some(1), 2, SourceEvent::Gone), AnyStep::Ignore);
    assert_eq!(Any::step(None, 2, SourceEvent::Stalled), AnyStep::Ignore);
}

#[test]
fn rtr_client_steps() {
    assert_eq!(client_step(ClientEvent::ConnectFailed), ClientAction::StallAndRetry);
    assert_eq!(client_step(ClientEvent::Updated(true)), ClientAction::Publish);
    assert_eq!(client_step(ClientEvent::Updated(false)), ClientAction::Continue);
    assert_eq!(client_step(ClientEvent::Disconnected), ClientAction::StallAndRetry);
    assert_eq!(client_step(ClientEvent::Terminated), ClientAction::Gone);
}

const SLURM_FILE: &str = r#"{
  "slurmVersion": 1,
  "validationOutputFilters": {
    "prefixFilters": [
      { "prefix": "192.0.2.0/24", "comment": "All VRPs encompassed by prefix" },
      { "asn": 64496, "comment": "All VRPs matching ASN" },
      { "prefix": "198.51.100.0/24", "asn": 64497, "comment": "Both" }
    ],
    "bgpsecFilters": []
  },
  "locallyAddedAssertions": {
    "prefixAssertions": [
      { "asn": 64496, "prefix": "198.51.100.0/24", "comment": "My route" },
      { "asn": 64496, "prefix": "2001:DB8::/32", "maxPrefixLength": 48 }
    ],
    "bgpsecAssertions": []
  }
}"#;

#[test]
fn slurm_file_is_read() {
    let content = Content::from_slurm(SLURM_FILE.as_bytes()).unwrap();
    let v4a = Prefix::new_v4(0xc000_0200, 24).unwrap();
    let v4b = Prefix::new_v4(0xc633_6400, 24).unwrap();
    let v6 = Prefix::new_v6(0x2001_0db8u128 << 96, 32).unwrap();
    assert_eq!(
        content.filters.prefix,
        vec![
            PrefixFilter::new(Some(v4a), None),
            PrefixFilter::new(None, Some(64496)),
            PrefixFilter::new(Some(v4b), Some(64497)),
        ]
    );
    assert_eq!(
        content.assertions.as_slice(),
        &[
            Payload::Origin(RouteOrigin::new(v4b, None, 64496).unwrap()),
            Payload::Origin(RouteOrigin::new(v6, Some(48), 64496).unwrap()),
        ]
    );
}

#[test]
fn slurm_file_with_keys_and_aspas() {
    let data = r#"{
      "slurmVersion": 2,
      "validationOutputFilters": {
        "prefixFilters": [], "bgpsecFilters": [], "aspaFilters": []
      },
      "locallyAddedAssertions": {
        "prefixAssertions": [],
        "bgpsecAssertions": [
          {
            "asn": 64496,
            "SKI": "AQIDBAUGBwgJCgsMDQ4PEBESExQ",
            "routerPublicKey": "AQID"
          }
        ],
        "aspaAssertions": [
          { "customerAsn": 64496, "providerAsns": [64497, 64498] }
        ]
      }
    }"#;
    let content = Content::from_slurm(data.as_bytes()).unwrap();
    assert!(content.filters.prefix.is_empty());
    let mut ski = [0u8; 20];
    for (i, x) in ski.iter_mut().enumerate() {
        *x = i as u8 + 1;
    }
    assert_eq!(
        content.assertions.as_slice(),
        &[
            Payload::RouterKey(RouterKey { key_identifier: ski, asn: 64496, key_info: vec![1, 2, 3] }),
            Payload::Aspa(Aspa { customer: 64496, providers: vec![64497, 64498] }),
        ]
    );
}

#[test]
fn slurm_file_syntax_error() {
    assert!(matches!(Content::from_slurm(b"{"), Err(SlurmError::Syntax)));
    assert!(matches!(Content::from_slurm(b"{}"), Err(SlurmError::Syntax)));
    let bad_len = SLURM_FILE.replace("\"maxPrefixLength\": 48", "\"maxPrefixLength\": 16");
    assert!(matches!(Content::from_slurm(bad_len.as_bytes()), Err(SlurmError::Syntax)));
}

#[test]
fn slurm_parts_are_checked() {
    let none: Vec<(Option<(bool, u128, u8)>, Option<u32>)> = Vec::new();
    let keys: Vec<([u8; 20], u32, Vec<u8>)> = Vec::new();
    let aspas: Vec<(u32, Vec<u32>)> = Vec::new();
    // Host bits set in a filter's prefix.
    let filters = vec![(Some((false, 0xc000_0201u128, 24u8)), None)];
    assert!(Content::from_parts(&filters, &Vec::new(), &keys, &aspas).is_none());
    // An IPv4 prefix that is too long.
    let filters = vec![(Some((false, 0xc000_0200u128, 33u8)), Some(1))];
    assert!(Content::from_parts(&filters, &Vec::new(), &keys, &aspas).is_none());
    // A max-length below the prefix length.
    let origins = vec![((false, 0xc000_0200u128, 24u8), Some(23u8), 7u32)];
    assert!(Content::from_parts(&none, &origins, &keys, &aspas).is_none());
    // A max-length above the family's limit.
    let origins = vec![((false, 0xc000_0200u128, 24u8), Some(33u8), 7u32)];
    assert!(Content::from_parts(&none, &origins, &keys, &aspas).is_none());
    // Valid parts, one assertion given twice.
    let origins = vec![
        ((true, 0x2001_0db8u128 << 96, 32u8), None, 7u32),
        ((false, 0xc000_0200u128, 24u8), Some(32u8), 7u32),
        ((true, 0x2001_0db8u128 << 96, 32u8), None, 7u32),
    ];
    let filters = vec![(None, Some(5))];
    let content = Content::from_parts(&filters, &origins, &keys, &aspas).unwrap();
    assert_eq!(content.filters.prefix, vec![PrefixFilter::new(None, Some(5))]);
    let v4 = Prefix::new_v4(0xc000_0200, 24).unwrap();
    let v6 = Prefix::new_v6(0x2001_0db8u128 << 96, 32).unwrap();
    assert_eq!(
        content.assertions.as_slice(),
        &[
            Payload::Origin(RouteOrigin::new(v4, Some(32), 7).unwrap()),
            Payload::Origin(RouteOrigin::new(v6, None, 7).unwrap()),
        ]
    );
}

#[test]
fn any_without_sources() {
    assert_eq!(Any::new(false).pick(&[], None), Err(Terminated));
    assert_eq!(Any::new(true).pick(&[], None), Err(Terminated));
    assert_eq!(Any::report_pick(Any::new(false).pick(&[], None), false), PickReport::Gone);
}

/// Runs the any unit's decisions on a report from source `idx`, updating
/// the sources' health as a link would, and returns what is sent on.
fn any_event(
    any: &Any,
    sources: &mut Vec<SourceHealth>,
    curr: &mut Option<usize>,
    idx: usize,
    event: SourceEvent,
) -> Option<PickReport> {
    sources[idx] = match event {
        SourceEvent::Payload => SourceHealth { status: UnitStatus::Healthy, has_update: true },
        SourceEvent::Stalled => SourceHealth { status: UnitStatus::Stalled, ..sources[idx] },
        SourceEvent::Gone => SourceHealth { status: UnitStatus::Gone, ..sources[idx] },
    };
    match Any::step(*curr, idx, event) {
        AnyStep::Forward => Some(PickReport::Payload(idx)),
        AnyStep::Ignore => None,
        AnyStep::Repick => {
            let picked = any.pick(sources, *curr);
            *curr = picked.unwrap_or(None);
            let has_payload = match picked {
                Ok(Some(i)) => sources[i].has_update,
                _ => false,
            };
            Some(Any::report_pick(picked, has_payload))
        }
    }
}

#[test]
fn any_wakes_up_again() {
    let any = Any::new(false);
    let fresh = SourceHealth { status: UnitStatus::Healthy, has_update: false };
    let mut sources = vec![fresh, fresh, fresh];
    let mut curr = None;

    // No source has data yet: the unit picks none.
    let picked = any.pick(&sources, curr);
    assert_eq!(picked, Ok(None));
    assert_eq!(Any::report_pick(picked, false), PickReport::Stalled);

    // Stalling sources changes nothing.
    assert_eq!(any_event(&any, &mut sources, &mut curr, 0, SourceEvent::Stalled), None);
    assert_eq!(any_event(&any, &mut sources, &mut curr, 1, SourceEvent::Stalled), None);
    assert_eq!(any_event(&any, &mut sources, &mut curr, 2, SourceEvent::Stalled), None);

    // Data from the first source: it becomes the current one.
    assert_eq!(
        any_event(&any, &mut sources, &mut curr, 0, SourceEvent::Payload),
        Some(PickReport::Payload(0))
    );
    assert_eq!(curr, Some(0));

    // Data from the second one is not passed on.
    assert_eq!(any_event(&any, &mut sources, &mut curr, 1, SourceEvent::Payload), None);

    // The first one stalls: the second one's data is passed on.
    assert_eq!(
        any_event(&any, &mut sources, &mut curr, 0, SourceEvent::Stalled),
        Some(PickReport::Payload(1))
    );

    // The second one stalls, too: the unit stalls.
    assert_eq!(
        any_event(&any, &mut sources, &mut curr, 1, SourceEvent::Stalled),
        Some(PickReport::Stalled)
    );
    assert_eq!(curr, None);

    // Data from the third one is passed on.
    assert_eq!(
        any_event(&any, &mut sources, &mut curr, 2, SourceEvent::Payload),
        Some(PickReport::Payload(2))
    );

    // All sources go: so does the unit.
    any_event(&any, &mut sources, &mut curr, 0, SourceEvent::Gone);
    any_event(&any, &mut sources, &mut curr, 1, SourceEvent::Gone);
    assert_eq!(
        any_event(&any, &mut sources, &mut curr, 2, SourceEvent::Gone),
        Some(PickReport::Gone)
    );
}

#[test]
fn merge_without_sources() {
    assert!(matches!(merge_report(&vec![]), MergeReport::Gone));
    let sources = vec![
        (UnitStatus::Healthy, Some(PayloadSet::from_pack(pack(&[1, 3])))),
        (UnitStatus::Stalled, Some(PayloadSet::from_pack(pack(&[7])))),
        (UnitStatus::Healthy, None),
        (UnitStatus::Healthy, Some(PayloadSet::from_pack(pack(&[2, 3])))),
    ];
    match merge_report(&sources) {
        MergeReport::Payload(set) => assert_eq!(set_items(&set), vec![p(1), p(2), p(3)]),
        MergeReport::Gone => panic!("merge with sources has gone"),
    }
    match merge_report(&vec![(UnitStatus::Stalled, None)]) {
        MergeReport::Payload(set) => assert!(set_items(&set).is_empty()),
        MergeReport::Gone => panic!("merge with sources has gone"),
    }
}

#[test]
fn any_pick_wraps_current() {
    let gone = SourceHealth { status: UnitStatus::Gone, has_update: false };
    let ready = SourceHealth { status: UnitStatus::Healthy, has_update: true };
    let any = Any::new(false);
    // The search starts after the current index, taken modulo the number
    // of sources.
    assert_eq!(any.pick(&[ready, gone, ready], Some(5)), Ok(Some(0)));
    assert_eq!(any.pick(&[ready, gone, ready], Some(3)), Ok(Some(2)));
    assert_eq!(any.pick(&[gone, gone], Some(7)), Err(Terminated));
}

#[test]
fn gate_links() {
    let mut links = GateLinks::new();
    assert_eq!(links.status(), GateStatus::Dormant);
    assert_eq!(links.subscribe(false), 0);
    assert_eq!(links.subscribe(true), 1);
    assert_eq!(links.subscribe(false), 2);
    assert_eq!(links.status(), GateStatus::Active);
    assert_eq!(links.data_receivers(), vec![0, 2]);
    assert_eq!(links.status_receivers(), vec![0, 1, 2]);

    // Links that could not be reached go; their slots are reused, the one
    // freed last first.
    links.drop_links(&vec![0, 2]);
    assert_eq!(links.status_receivers(), vec![1]);
    assert_eq!(links.status(), GateStatus::Dormant);
    assert_eq!(links.subscribe(true), 2);
    assert_eq!(links.subscribe(true), 0);
    assert_eq!(links.subscribe(false), 3);
    assert!(links.data_receivers() == vec![3]);

    // Suspension of a free or unknown slot changes nothing.
    links.unsubscribe(3);
    links.suspension(3, false);
    links.suspension(17, false);
    assert_eq!(links.status(), GateStatus::Dormant);
    links.suspension(1, false);
    assert_eq!(links.status(), GateStatus::Active);
    assert_eq!(links.data_receivers(), vec![1]);
    assert_eq!(links.status_receivers(), vec![0, 1, 2]);
}

#[test]
fn unit_status_sent_on_change() {
    let mut status = UnitStatus::Healthy;
    assert!(!set_unit_status(&mut status, UnitStatus::Healthy));
    assert!(set_unit_status(&mut status, UnitStatus::Stalled));
    assert_eq!(status, UnitStatus::Stalled);
    assert!(!set_unit_status(&mut status, UnitStatus::Stalled));
}
