//! Metrics: their kinds and the text formats they are output in.
//!
//! Metrics are output either in the Prometheus text-based exposition
//! format or as simple, human-readable plain text. A [`Target`] collects the
//! text of all metrics; the values of one metric are collected in
//! [`Records`] first and then appended to the target.

use vstd::prelude::*;
use crate::text::push_str;

verus! {

//------------ Module Configuration ------------------------------------------

/// The prefix of all metric names in Prometheus output.
pub const PROMETHEUS_PREFIX: &'static str = "rtrtr";

/// The name of the program as reported in plain output.
pub const PROGRAM_NAME: &'static str = "rtrtr";

/// The version of the program as reported in plain output.
pub const PROGRAM_VERSION: &'static str = "0.3.3-rc1";

//------------ OutputFormat --------------------------------------------------

/// The output format for metrics.
///
/// This is a non-exhaustive enum so that we can add additional metrics
/// without having to do breaking releases. Output for unknown formats should
/// be empty.
#[non_exhaustive]
#[derive(Clone, Copy, Debug, PartialEq, Eq, Structural)]
pub enum OutputFormat {
    /// Prometheus’ text-base exposition format.
    ///
    /// See https://prometheus.io/docs/instrumenting/exposition_formats/
    /// for details.
    Prometheus,

    /// Simple, human-readable plain-text output.
    Plain,
}

impl OutputFormat {
    /// Returns whether the format supports non-numerical metrics.
    pub fn allows_text(self) -> (res: bool)
        ensures
            res == (self == OutputFormat::Plain),
    {
        match self {
            OutputFormat::Prometheus => false,
            OutputFormat::Plain => true,
        }
    }

    /// Returns whether this output format supports this metric type.
    pub fn supports_type(self, metric: MetricType) -> (res: bool)
        ensures
            res == !(self == OutputFormat::Prometheus && metric == MetricType::Text),
    {
        match (self, metric) {
            (OutputFormat::Prometheus, MetricType::Text) => false,
            _ => true,
        }
    }
}

//------------ MetricType ----------------------------------------------------

/// The type of a metric.
#[derive(Clone, Copy, Debug, PartialEq, Eq, Structural)]
pub enum MetricType {
    Counter,
    Gauge,
    Histogram,
    Summary,
    Text,
}

/// The name of a metric type.
pub open spec fn metric_type_name(t: MetricType) -> Seq<char> {
    match t {
        MetricType::Counter => "counter"@,
        MetricType::Gauge => "gauge"@,
        MetricType::Histogram => "histogram"@,
        MetricType::Summary => "summary"@,
        MetricType::Text => "text"@,
    }
}

impl MetricType {
    /// Returns the name of the type as it is displayed.
    pub fn as_str(self) -> (res: &'static str)
        ensures
            res@ == metric_type_name(self),
    {
        match self {
            MetricType::Counter => "counter",
            MetricType::Gauge => "gauge",
            MetricType::Histogram => "histogram",
            MetricType::Summary => "summary",
            MetricType::Text => "text",
        }
    }
}

//------------ MetricUnit ----------------------------------------------------

/// The unit of a metric.
#[derive(Clone, Copy, Debug, PartialEq, Eq, Structural)]
pub enum MetricUnit {
    Second,
    Celsius,
    Meter,
    Byte,
    Ratio,
    Volt,
    Ampere,
    Joule,
    Gram,
    Total,
    Info,
}

/// The name of a metric unit.
pub open spec fn unit_name(u: MetricUnit) -> Seq<char> {
    match u {
        MetricUnit::Second => "seconds"@,
        MetricUnit::Celsius => "celsius"@,
        MetricUnit::Meter => "meters"@,
        MetricUnit::Byte => "bytes"@,
        MetricUnit::Ratio => "ratio"@,
        MetricUnit::Volt => "volts"@,
        MetricUnit::Ampere => "amperes"@,
        MetricUnit::Joule => "joules"@,
        MetricUnit::Gram => "grams"@,
        MetricUnit::Total => "total"@,
        MetricUnit::Info => "info"@,
    }
}

impl MetricUnit {
    /// Returns the name of the unit as it is displayed.
    pub fn as_str(self) -> (res: &'static str)
        ensures
            res@ == unit_name(self),
    {
        match self {
            MetricUnit::Second => "seconds",
            MetricUnit::Celsius => "celsius",
            MetricUnit::Meter => "meters",
            MetricUnit::Byte => "bytes",
            MetricUnit::Ratio => "ratio",
            MetricUnit::Volt => "volts",
            MetricUnit::Ampere => "amperes",
            MetricUnit::Joule => "joules",
            MetricUnit::Gram => "grams",
            MetricUnit::Total => "total",
            MetricUnit::Info => "info",
        }
    }
}

//------------ Metric --------------------------------------------------------

/// The description of a metric.
#[derive(Clone, Copy, Debug)]
pub struct Metric {
    pub name: &'static str,
    pub help: &'static str,
    pub metric_type: MetricType,
    pub unit: MetricUnit,
}

impl Metric {
    /// Creates a metric description.
    pub fn new(
        name: &'static str,
        help: &'static str,
        metric_type: MetricType,
        unit: MetricUnit,
    ) -> (res: Metric)
        ensures
            res.name == name,
            res.help == help,
            res.metric_type == metric_type,
            res.unit == unit,
    {
        Metric { name, help, metric_type, unit }
    }
}

//------------ The text ------------------------------------------------------

/// The name of a metric as it appears in the output.
pub open spec fn metric_name(
    format: OutputFormat,
    metric: Metric,
    unit_name: Option<Seq<char>>,
) -> Seq<char> {
    match format {
        OutputFormat::Prometheus => match unit_name {
            Some(unit) => PROMETHEUS_PREFIX@ + "_"@ + unit + "_"@ + metric.name@ + "_"@ + self::unit_name(
                metric.unit,
            ),
            None => PROMETHEUS_PREFIX@ + "_"@ + metric.name@ + "_"@ + self::unit_name(metric.unit),
        },
        OutputFormat::Plain => match unit_name {
            Some(unit) => unit + " "@ + metric.name@,
            None => metric.name@,
        },
    }
}

/// The lines that introduce a metric in the output.
pub open spec fn metric_header(
    format: OutputFormat,
    metric: Metric,
    unit_name: Option<Seq<char>>,
) -> Seq<char> {
    match format {
        OutputFormat::Prometheus => "# HELP "@ + metric_name(format, metric, unit_name) + " "@
            + metric.help@ + "\n"@ + "# TYPE "@ + metric_name(format, metric, unit_name) + " "@
            + metric_type_name(metric.metric_type) + "\n"@,
        OutputFormat::Plain => Seq::empty(),
    }
}

/// The line for a value of a metric with the given name.
pub open spec fn value_line(format: OutputFormat, name: Seq<char>, value: Seq<char>) -> Seq<char> {
    match format {
        OutputFormat::Prometheus => name + " "@ + value + "\n"@,
        OutputFormat::Plain => name + ": "@ + value + "\n"@,
    }
}

/// The text of a metric with a single value: nothing if the format
/// doesn’t support the type of the metric.
pub open spec fn simple_metric_text(
    format: OutputFormat,
    metric: Metric,
    unit_name: Option<Seq<char>>,
    value: Seq<char>,
) -> Seq<char> {
    if format.supports_type_spec(metric.metric_type) {
        metric_header(format, metric, unit_name) + value_line(
            format,
            metric_name(format, metric, unit_name),
            value,
        )
    } else {
        Seq::empty()
    }
}

/// The labels of a value in Prometheus output: `name="value"` pairs
/// separated by commas.
pub open spec fn prometheus_labels(labels: Seq<(Seq<char>, Seq<char>)>) -> Seq<char>
    decreases labels.len(),
{
    if labels.len() == 0 {
        Seq::empty()
    } else {
        let (name, value) = labels.last();
        let label = name + "=\""@ + value + "\""@;
        if labels.len() == 1 {
            label
        } else {
            prometheus_labels(labels.drop_last()) + ", "@ + label
        }
    }
}

/// The labels of a value in plain output: ` name=value` for each.
pub open spec fn plain_labels(labels: Seq<(Seq<char>, Seq<char>)>) -> Seq<char>
    decreases labels.len(),
{
    if labels.len() == 0 {
        Seq::empty()
    } else {
        let (name, value) = labels.last();
        plain_labels(labels.drop_last()) + " "@ + name + "="@ + value
    }
}

/// The line for a labelled value of a metric with the given name.
pub open spec fn label_line(
    format: OutputFormat,
    name: Seq<char>,
    labels: Seq<(Seq<char>, Seq<char>)>,
    value: Seq<char>,
) -> Seq<char> {
    match format {
        OutputFormat::Prometheus => name + "{"@ + prometheus_labels(labels) + "} "@ + value + "\n"@,
        OutputFormat::Plain => name + plain_labels(labels) + ": "@ + value + "\n"@,
    }
}

/// The text values of labels.
pub open spec fn label_views(labels: Seq<(&str, &str)>) -> Seq<(Seq<char>, Seq<char>)> {
    labels.map_values(|l: (&str, &str)| (l.0@, l.1@))
}

/// The text value of an optional unit name.
pub open spec fn unit_view(unit_name: Option<&str>) -> Option<Seq<char>> {
    match unit_name {
        Some(unit) => Some(unit@),
        None => None,
    }
}

/// Appends the name of a metric.
fn push_metric_name(s: &mut String, format: OutputFormat, metric: &Metric, unit_name: Option<&str>)
    ensures
        final(s)@ == old(s)@ + metric_name(format, *metric, unit_view(unit_name)),
{
    match format {
        OutputFormat::Prometheus => {
            push_str(s, PROMETHEUS_PREFIX);
            push_str(s, "_");
            if let Some(unit) = unit_name {
                push_str(s, unit);
                push_str(s, "_");
            }
            push_str(s, metric.name);
            push_str(s, "_");
            push_str(s, metric.unit.as_str());
        },
        OutputFormat::Plain => {
            if let Some(unit) = unit_name {
                push_str(s, unit);
                push_str(s, " ");
            }
            push_str(s, metric.name);
        },
    }
    proof {
        assert(final(s)@ =~= old(s)@ + metric_name(format, *metric, unit_view(unit_name)));
    }
}

//------------ Records -------------------------------------------------------

/// The values of one metric.
pub struct Records {
    /// The output format.
    format: OutputFormat,

    /// The name of the metric in the output.
    name: String,

    /// The lines of the values.
    text: String,
}

impl View for Records {
    type V = Seq<char>;

    /// The lines of the values collected so far.
    closed spec fn view(&self) -> Seq<char> {
        self.text@
    }
}

impl Records {
    /// The output format of the records.
    pub closed spec fn format(&self) -> OutputFormat {
        self.format
    }

    /// The name of the metric in the output.
    pub closed spec fn name(&self) -> Seq<char> {
        self.name@
    }

    /// Starts collecting the values of a metric.
    pub fn new(format: OutputFormat, metric: &Metric, unit_name: Option<&str>) -> (res: Records)
        ensures
            res.format() == format,
            res.name() == metric_name(format, *metric, unit_view(unit_name)),
            res@ == Seq::<char>::empty(),
    {
        let mut name = String::new();
        push_metric_name(&mut name, format, metric, unit_name);
        proof {
            assert(name@ =~= metric_name(format, *metric, unit_view(unit_name)));
        }
        Records { format, name, text: String::new() }
    }

    /// Adds a value.
    pub fn value(&mut self, value: &str)
        ensures
            final(self).format() == old(self).format(),
            final(self).name() == old(self).name(),
            final(self)@ == old(self)@ + value_line(old(self).format(), old(self).name(), value@),
    {
        push_str(&mut self.text, self.name.as_str());
        match self.format {
            OutputFormat::Prometheus => push_str(&mut self.text, " "),
            OutputFormat::Plain => push_str(&mut self.text, ": "),
        }
        push_str(&mut self.text, value);
        push_str(&mut self.text, "\n");
        proof {
            assert(self@ =~= old(self)@ + value_line(old(self).format(), old(self).name(), value@));
        }
    }

    /// Adds a value with labels.
    pub fn label_value(&mut self, labels: &[(&str, &str)], value: &str)
        ensures
            final(self).format() == old(self).format(),
            final(self).name() == old(self).name(),
            final(self)@ == old(self)@ + label_line(
                old(self).format(),
                old(self).name(),
                label_views(labels@),
                value@,
            ),
    {
        let ghost start = self.text@;
        push_str(&mut self.text, self.name.as_str());
        if self.format == OutputFormat::Prometheus {
            push_str(&mut self.text, "{");
        }
        let ghost before = self.text@;
        let mut i: usize = 0;
        proof {
            assert(label_views(labels@.take(0)) =~= Seq::<(Seq<char>, Seq<char>)>::empty());
            assert(self.text@ =~= before + prometheus_labels(label_views(labels@.take(0))));
            assert(self.text@ =~= before + plain_labels(label_views(labels@.take(0))));
        }
        while i < labels.len()
            invariant
                i <= labels@.len(),
                self.format == old(self).format,
                self.name == old(self).name,
                self.format == OutputFormat::Prometheus ==> self.text@ == before + prometheus_labels(
                    label_views(labels@.take(i as int)),
                ),
                self.format == OutputFormat::Plain ==> self.text@ == before + plain_labels(
                    label_views(labels@.take(i as int)),
                ),
            decreases labels@.len() - i,
        {
            let (name, label_value) = labels[i];
            proof {
                let t = label_views(labels@.take(i + 1));
                assert(t.drop_last() =~= label_views(labels@.take(i as int)));
                assert(t.last() == (name@, label_value@));
            }
            match self.format {
                OutputFormat::Prometheus => {
                    if i > 0 {
                        push_str(&mut self.text, ", ");
                    }
                    push_str(&mut self.text, name);
                    push_str(&mut self.text, "=\"");
                    push_str(&mut self.text, label_value);
                    push_str(&mut self.text, "\"");
                    proof {
                        let t = label_views(labels@.take(i + 1));
                        assert(self.text@ =~= before + prometheus_labels(t));
                    }
                },
                OutputFormat::Plain => {
                    push_str(&mut self.text, " ");
                    push_str(&mut self.text, name);
                    push_str(&mut self.text, "=");
                    push_str(&mut self.text, label_value);
                    proof {
                        let t = label_views(labels@.take(i + 1));
                        assert(self.text@ =~= before + plain_labels(t));
                    }
                },
            }
            i = i + 1;
        }
        match self.format {
            OutputFormat::Prometheus => push_str(&mut self.text, "} "),
            OutputFormat::Plain => push_str(&mut self.text, ": "),
        }
        push_str(&mut self.text, value);
        push_str(&mut self.text, "\n");
        proof {
            assert(labels@.take(labels@.len() as int) =~= labels@);
            assert(self@ =~= old(self)@ + label_line(
                old(self).format(),
                old(self).name(),
                label_views(labels@),
                value@,
            ));
        }
    }
}

//------------ Target --------------------------------------------------------

/// The text of all metrics.
pub struct Target {
    format: OutputFormat,
    target: String,
}

impl View for Target {
    type V = Seq<char>;

    /// The text so far.
    closed spec fn view(&self) -> Seq<char> {
        self.target@
    }
}

impl Target {
    /// The output format.
    pub closed spec fn format(&self) -> OutputFormat {
        self.format
    }

    /// Creates a target for the given format.
    ///
    /// Plain output starts with the version of the program.
    pub fn new(format: OutputFormat) -> (res: Target)
        ensures
            res.format() == format,
            format == OutputFormat::Plain ==> res@ == "version: "@ + PROGRAM_NAME@ + "/"@
                + PROGRAM_VERSION@ + "\n"@,
            format != OutputFormat::Plain ==> res@ == Seq::<char>::empty(),
    {
        let mut target = String::new();
        if format == OutputFormat::Plain {
            push_str(&mut target, "version: ");
            push_str(&mut target, PROGRAM_NAME);
            push_str(&mut target, "/");
            push_str(&mut target, PROGRAM_VERSION);
            push_str(&mut target, "\n");
            proof {
                assert(target@ =~= "version: "@ + PROGRAM_NAME@ + "/"@ + PROGRAM_VERSION@ + "\n"@);
            }
        }
        Target { format, target }
    }

    /// Converts the target into the text.
    pub fn into_string(self) -> (res: String)
        ensures
            res@ == self@,
    {
        self.target
    }

    /// Starts collecting the values of a metric for this target.
    pub fn records(&self, metric: &Metric, unit_name: Option<&str>) -> (res: Records)
        ensures
            res.format() == self.format(),
            res.name() == metric_name(self.format(), *metric, unit_view(unit_name)),
            res@ == Seq::<char>::empty(),
    {
        Records::new(self.format, metric, unit_name)
    }

    /// Appends a metric with its values.
    ///
    /// Nothing is appended if the format doesn’t support the type of the
    /// metric. The Prometheus format introduces the values with lines
    /// giving the description and the type of the metric.
    pub fn append(&mut self, metric: &Metric, unit_name: Option<&str>, records: &Records)
        ensures
            final(self).format() == old(self).format(),
            final(self)@ == old(self)@ + if old(self).format().supports_type_spec(
                metric.metric_type,
            ) {
                metric_header(old(self).format(), *metric, unit_view(unit_name)) + records@
            } else {
                Seq::empty()
            },
    {
        if !self.format.supports_type(metric.metric_type) {
            proof {
                assert(self@ =~= old(self)@ + Seq::<char>::empty());
            }
            return;
        }
        if self.format == OutputFormat::Prometheus {
            push_str(&mut self.target, "# HELP ");
            push_metric_name(&mut self.target, self.format, metric, unit_name);
            push_str(&mut self.target, " ");
            push_str(&mut self.target, metric.help);
            push_str(&mut self.target, "\n");
            push_str(&mut self.target, "# TYPE ");
            push_metric_name(&mut self.target, self.format, metric, unit_name);
            push_str(&mut self.target, " ");
            push_str(&mut self.target, metric.metric_type.as_str());
            push_str(&mut self.target, "\n");
        }
        push_str(&mut self.target, records.text.as_str());
        proof {
            assert(self@ =~= old(self)@ + metric_header(old(self).format(), *metric, unit_view(unit_name))
                + records@);
        }
    }

    /// Appends a metric with a single value.
    pub fn append_simple(&mut self, metric: &Metric, unit_name: Option<&str>, value: &str)
        ensures
            final(self).format() == old(self).format(),
            final(self)@ == old(self)@ + simple_metric_text(
                old(self).format(),
                *metric,
                unit_view(unit_name),
                value@,
            ),
    {
        let mut records = self.records(metric, unit_name);
        records.value(value);
        proof {
            assert(records@ =~= value_line(
                self.format(),
                metric_name(self.format(), *metric, unit_view(unit_name)),
                value@,
            ));
        }
        self.append(metric, unit_name, &records);
    }
}

impl OutputFormat {
    /// Whether this output format supports this metric type.
    pub open spec fn supports_type_spec(self, metric: MetricType) -> bool {
        !(self == OutputFormat::Prometheus && metric == MetricType::Text)
    }
}

} // verus!
