use rtrtr::config::{ConfigFile, ConfigPath, LineCol, Marked};
use rtrtr::http::ContentType;
use rtrtr::config::join_path;
use rtrtr::manager::unresolved_links;
use rtrtr::log::{Level, LogConfig, LogFilter, LogTarget, ParseLevelError};
use rtrtr::metrics::{Metric, MetricType, MetricUnit, OutputFormat, Target};
use rtrtr::text::push_decimal;
use rtrtr::utils::http::EtagsIter;

#[test]
fn log_levels() {
    let mut filter = LogFilter::default();
    assert_eq!(filter.0, Level::Warn);
    filter.increase();
    assert_eq!(filter.0, Level::Info);
    filter.decrease();
    filter.decrease();
    assert_eq!(filter.0, Level::Error);
    filter.decrease();
    filter.decrease();
    assert_eq!(filter.0, Level::Off);
    filter.apply_verbosity(7, 0);
    assert_eq!(filter.0, Level::Trace);
    filter.apply_verbosity(1, 2);
    assert_eq!(filter.0, Level::Info);
    assert_eq!(LogTarget::default(), LogTarget::Default);
}

#[test]
fn metrics_text() {
    let metric = Metric::new("connections", "number of connections", MetricType::Gauge, MetricUnit::Total);
    let text = Metric::new("version", "the version", MetricType::Text, MetricUnit::Info);
    assert!(OutputFormat::Plain.allows_text());
    assert!(!OutputFormat::Prometheus.allows_text());
    assert!(!OutputFormat::Prometheus.supports_type(MetricType::Text));
    assert!(OutputFormat::Prometheus.supports_type(MetricType::Counter));

    let mut target = Target::new(OutputFormat::Prometheus);
    target.append_simple(&metric, Some("unit"), "5");
    let mut records = target.records(&metric, None);
    records.label_value(&[("addr", "192.0.2.1"), ("port", "1")], "3");
    target.append(&metric, None, &records);
    target.append_simple(&text, None, "x");
    assert_eq!(
        target.into_string(),
        "# HELP rtrtr_unit_connections_total number of connections\n\
         # TYPE rtrtr_unit_connections_total gauge\n\
         rtrtr_unit_connections_total 5\n\
         # HELP rtrtr_connections_total number of connections\n\
         # TYPE rtrtr_connections_total gauge\n\
         rtrtr_connections_total{addr=\"192.0.2.1\", port=\"1\"} 3\n"
    );

    let mut target = Target::new(OutputFormat::Plain);
    target.append_simple(&metric, Some("unit"), "5");
    let mut records = target.records(&metric, None);
    records.label_value(&[("addr", "192.0.2.1")], "3");
    records.value("4");
    target.append(&metric, None, &records);
    target.append_simple(&text, None, "x");
    assert_eq!(
        target.into_string(),
        "version: rtrtr/0.3.3-rc1\n\
         unit connections: 5\n\
         connections addr=192.0.2.1: 3\n\
         connections: 4\n\
         version: x\n"
    );
    assert_eq!(MetricUnit::Second.as_str(), "seconds");
    assert_eq!(MetricType::Summary.as_str(), "summary");
}

#[test]
fn decimal_text() {
    let mut s = String::from("n=");
    push_decimal(&mut s, 0);
    push_decimal(&mut s, 1234567890123);
    assert_eq!(s, "n=01234567890123");
    let mut s = String::new();
    rtrtr::text::push_signed_decimal(&mut s, i64::MIN as i128);
    assert_eq!(s, "-9223372036854775808");
}

#[test]
fn config_positions() {
    let file = ConfigFile::new(Some(String::from("a.conf")), String::from("ab\ncd\n\nx"));
    assert_eq!(file.resolve_pos(0), LineCol { line: 0, col: 0 });
    assert_eq!(file.resolve_pos(2), LineCol { line: 0, col: 2 });
    assert_eq!(file.resolve_pos(3), LineCol { line: 1, col: 0 });
    assert_eq!(file.resolve_pos(6), LineCol { line: 2, col: 0 });
    assert_eq!(file.resolve_pos(7), LineCol { line: 3, col: 0 });
    assert_eq!(file.path(), Some(&String::from("a.conf")));
    assert_eq!(file.bytes(), "ab\ncd\n\nx");

    let marked = Marked::new(5u8, 3, Some(String::from("a.conf")), Some(LineCol { line: 1, col: 0 }));
    assert_eq!(marked.format_mark(), "a.conf:1:0");
    let other = marked.mark("x");
    assert_eq!(other.format_mark(), "a.conf:1:0");
    assert_eq!(*other.as_inner(), "x");
    assert_eq!(Marked::new((), 0, None, Some(LineCol { line: 2, col: 4 })).format_mark(), "2:4");
    assert_eq!(Marked::new((), 0, Some(String::from("f")), None).format_mark(), "f");
    assert_eq!(Marked::new((), 0, None, None).format_mark(), "");
    assert_eq!(marked.into_inner(), 5);
}

#[test]
fn config_paths() {
    assert_eq!(ConfigPath::from_config(Some("/etc/rtrtr"), "x.pem").as_str(), "/etc/rtrtr/x.pem");
    assert_eq!(ConfigPath::from_config(Some("/etc/rtrtr/"), "x.pem").as_str(), "/etc/rtrtr/x.pem");
    assert_eq!(ConfigPath::from_config(Some("/etc/rtrtr"), "/x.pem").as_str(), "/x.pem");
    assert_eq!(ConfigPath::from_config(None, "x.pem").as_str(), "x.pem");
    assert_eq!(ConfigPath::from_config(Some(""), "x.pem").as_str(), "x.pem");
}

#[test]
fn content_types() {
    assert_eq!(ContentType::json().value(), "application/json");
    assert_eq!(ContentType::prometheus().value(), "text/plain; version=0.0.4");
    assert_eq!(ContentType::text().value(), "text/plain;charset=utf-8");
    assert_eq!(ContentType::csv().value(), "text/csv;charset=utf-8;header=present");
    assert_eq!(ContentType::external("image/png").value(), "image/png");
}

#[test]
fn etags() {
    let mut iter = EtagsIter::new(" \"a\" , W/\"b c\",\"d\"  ");
    assert_eq!(iter.next(), Some("\"a\""));
    assert_eq!(iter.next(), Some("W/\"b c\""));
    assert_eq!(iter.next(), Some("\"d\""));
    assert_eq!(iter.next(), None);
    let mut bad = EtagsIter::new("\"a\" x \"b\"");
    assert_eq!(bad.next(), Some("\"a\""));
    assert_eq!(bad.next(), None);
    let mut open = EtagsIter::new("\"a");
    assert_eq!(open.next(), None);
}

#[test]
fn log_level_names() {
    assert_eq!(LogFilter::from_name("off"), Ok(LogFilter(Level::Off)));
    assert_eq!(LogFilter::from_name("ERROR"), Ok(LogFilter(Level::Error)));
    assert_eq!(LogFilter::from_name("wArN"), Ok(LogFilter(Level::Warn)));
    assert_eq!(LogFilter::from_name("info"), Ok(LogFilter(Level::Info)));
    assert_eq!(LogFilter::from_name("Debug"), Ok(LogFilter(Level::Debug)));
    assert_eq!(LogFilter::from_name("trace"), Ok(LogFilter(Level::Trace)));
    assert_eq!(LogFilter::from_name("verbose"), Err(ParseLevelError));
    assert_eq!(LogFilter::from_name("inf"), Err(ParseLevelError));
    assert_eq!(LogFilter::from_name(" info"), Err(ParseLevelError));
    assert_eq!(LogFilter::from_name(""), Err(ParseLevelError));
}

#[test]
fn log_config_from_args() {
    let mut config = LogConfig::default();
    config.update_with_args(2, 0, false, Some("log/rtrtr.log"), "/var");
    assert_eq!(config.log_level.0, Level::Debug);
    assert_eq!(config.log_target, LogTarget::File);
    assert_eq!(config.log_file, "/var/log/rtrtr.log");

    config.update_with_args(0, 3, false, Some("-"), "/var");
    assert_eq!(config.log_level.0, Level::Error);
    assert_eq!(config.log_target, LogTarget::Stderr);
    assert_eq!(config.log_file, "/var/log/rtrtr.log");

    config.update_with_args(0, 0, true, Some("/tmp/x"), "/var");
    assert_eq!(config.log_target, LogTarget::Syslog);
    assert_eq!(config.log_file, "/var/log/rtrtr.log");

    config.update_with_args(0, 0, false, Some("/tmp/x"), "/var");
    assert_eq!(config.log_target, LogTarget::File);
    assert_eq!(config.log_file, "/tmp/x");

    let mut config = LogConfig::default();
    config.update_with_args(0, 0, false, None, "/var");
    assert_eq!(config.log_target, LogTarget::Default);
    assert_eq!(config.log_level.0, Level::Warn);
}

#[test]
fn resolve_marks_in_config() {
    let file = ConfigFile::new(Some(String::from("a.conf")), String::from("ab\ncd\n\nx"));
    let mut marked = Marked::new(7u8, 4, None, None);
    marked.resolve_config(&file);
    assert_eq!(marked.format_mark(), "a.conf:1:1");
    assert_eq!(*marked.as_inner(), 7);

    let file = ConfigFile::new(None, String::from("xyz"));
    let mut marked = Marked::new((), 2, Some(String::from("old")), None);
    marked.resolve_config(&file);
    assert_eq!(marked.format_mark(), "0:2");
}

#[test]
fn links_to_missing_units() {
    let file = ConfigFile::new(Some(String::from("r.conf")), String::from("[a]\nx\ny\n"));
    let mark = |index: usize| {
        let mut res = Marked::new((), index, None, None);
        res.resolve_config(&file);
        res
    };
    let referenced = vec![
        (String::from("present"), vec![mark(0)]),
        (String::from("missing"), vec![mark(4), mark(6)]),
        (String::from("gone"), vec![mark(1)]),
    ];
    let defined = vec![String::from("other"), String::from("present")];
    assert_eq!(
        unresolved_links(&referenced, &defined),
        vec![
            String::from("r.conf:1:0: unresolved link to unit 'missing'"),
            String::from("r.conf:2:0: unresolved link to unit 'missing'"),
            String::from("r.conf:0:1: unresolved link to unit 'gone'"),
        ]
    );
    assert!(unresolved_links(&referenced[..1].to_vec(), &defined).is_empty());
}

#[test]
fn joining_paths() {
    assert_eq!(join_path("/var", "log"), "/var/log");
    assert_eq!(join_path("/var/", "log"), "/var/log");
    assert_eq!(join_path("/var", "/log"), "/log");
    assert_eq!(join_path("", "log"), "log");
}

#[test]
fn log_level_allows() {
    assert_eq!(Level::Off.rank(), 0);
    assert_eq!(Level::Trace.rank(), 5);
    assert!(Level::Warn.allows(Level::Error));
    assert!(Level::Warn.allows(Level::Warn));
    assert!(!Level::Warn.allows(Level::Info));
    assert!(!Level::Off.allows(Level::Error));
    assert!(Level::Trace.allows(Level::Debug));
}
