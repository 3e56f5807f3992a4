//! Log levels and targets.
//!
//! The module also provides two error types [`Failed`] and [`ExitError`]
//! that indicate that error information has been logged and a consumer can
//! just return quietly.

use vstd::prelude::*;
use crate::config::{join_path, joined};

verus! {

//------------ LogTarget -----------------------------------------------------

/// The target to log to.
#[derive(Clone, Copy, Debug, PartialEq, Eq, Structural)]
pub enum LogTarget {
    /// Use the system default.
    Default,

    /// Syslog.
    Syslog,

    /// Stderr.
    Stderr,

    /// A file.
    File,
}

impl Default for LogTarget {
    fn default() -> (res: LogTarget)
        ensures
            res == LogTarget::Default,
    {
        LogTarget::Default
    }
}

//------------ Level ---------------------------------------------------------

/// A log level filter: the most detailed level of messages logged.
#[derive(Clone, Copy, Debug, PartialEq, Eq, Structural)]
pub enum Level {
    /// Nothing is logged.
    Off,

    /// Errors only.
    Error,

    /// Warnings and errors.
    Warn,

    /// Informational messages and above.
    Info,

    /// Debug messages and above.
    Debug,

    /// Everything.
    Trace,
}

/// How much a level lets through: zero for nothing, five for everything.
pub open spec fn rank(level: Level) -> int {
    match level {
        Level::Off => 0,
        Level::Error => 1,
        Level::Warn => 2,
        Level::Info => 3,
        Level::Debug => 4,
        Level::Trace => 5,
    }
}

impl Level {
    /// Returns how much the level lets through: zero for nothing, five for
    /// everything.
    pub fn rank(self) -> (res: u8)
        ensures
            res as int == rank(self),
    {
        match self {
            Level::Off => 0,
            Level::Error => 1,
            Level::Warn => 2,
            Level::Info => 3,
            Level::Debug => 4,
            Level::Trace => 5,
        }
    }

    /// Returns whether a message of the given level passes this filter.
    pub fn allows(self, level: Level) -> (res: bool)
        ensures
            res == (rank(level) <= rank(self)),
    {
        level.rank() <= self.rank()
    }
}

/// The level one step more verbose, staying at the most verbose.
pub open spec fn increased(level: Level) -> Level {
    match level {
        Level::Off => Level::Error,
        Level::Error => Level::Warn,
        Level::Warn => Level::Info,
        Level::Info => Level::Debug,
        Level::Debug => Level::Trace,
        Level::Trace => Level::Trace,
    }
}

/// The level one step less verbose, staying at nothing.
pub open spec fn decreased(level: Level) -> Level {
    match level {
        Level::Off => Level::Off,
        Level::Error => Level::Off,
        Level::Warn => Level::Error,
        Level::Info => Level::Warn,
        Level::Debug => Level::Info,
        Level::Trace => Level::Debug,
    }
}

/// The level after increasing `verbose` times and then decreasing `quiet`
/// times.
pub open spec fn adjusted(level: Level, verbose: nat, quiet: nat) -> Level
    decreases verbose, quiet,
{
    if verbose > 0 {
        adjusted(increased(level), (verbose - 1) as nat, quiet)
    } else if quiet > 0 {
        adjusted(decreased(level), 0, (quiet - 1) as nat)
    } else {
        level
    }
}

/// The name of a level, in upper case.
pub open spec fn level_name(level: Level) -> Seq<char> {
    match level {
        Level::Off => seq!['O', 'F', 'F'],
        Level::Error => seq!['E', 'R', 'R', 'O', 'R'],
        Level::Warn => seq!['W', 'A', 'R', 'N'],
        Level::Info => seq!['I', 'N', 'F', 'O'],
        Level::Debug => seq!['D', 'E', 'B', 'U', 'G'],
        Level::Trace => seq!['T', 'R', 'A', 'C', 'E'],
    }
}

/// Whether a text is an upper-case name ignoring ASCII case: each of its
/// characters is the letter of the name or its lower-case form.
pub open spec fn matches_name(text: Seq<char>, name: Seq<char>) -> bool {
    &&& text.len() == name.len()
    &&& forall|i: int|
        0 <= i < name.len() ==> #[trigger] text[i] == name[i] || text[i] as u32 == name[i] as u32
            + 32
}

/// The level a text names, ignoring ASCII case.
pub open spec fn named_level(text: Seq<char>) -> Option<Level> {
    if matches_name(text, level_name(Level::Off)) {
        Some(Level::Off)
    } else if matches_name(text, level_name(Level::Error)) {
        Some(Level::Error)
    } else if matches_name(text, level_name(Level::Warn)) {
        Some(Level::Warn)
    } else if matches_name(text, level_name(Level::Info)) {
        Some(Level::Info)
    } else if matches_name(text, level_name(Level::Debug)) {
        Some(Level::Debug)
    } else if matches_name(text, level_name(Level::Trace)) {
        Some(Level::Trace)
    } else {
        None
    }
}

/// Returns whether a text is an upper-case name ignoring ASCII case.
fn text_matches_name(text: &str, name: &str) -> (res: bool)
    ensures
        res == matches_name(text@, name@),
{
    let n = name.unicode_len();
    if text.unicode_len() != n {
        return false;
    }
    let mut i: usize = 0;
    while i < n
        invariant
            n == name@.len(),
            text@.len() == n,
            i <= n,
            forall|j: int|
                0 <= j < i ==> #[trigger] text@[j] == name@[j] || text@[j] as u32 == name@[j] as u32
                    + 32,
        decreases n - i,
    {
        let c = text.get_char(i);
        let m = name.get_char(i);
        if !(c == m || c as u32 == m as u32 + 32) {
            return false;
        }
        i = i + 1;
    }
    true
}

/// A text doesn’t name a log level.
#[derive(Clone, Copy, Debug, PartialEq, Eq, Structural)]
pub struct ParseLevelError;

//------------ LogFilter -----------------------------------------------------

/// The log level to use.
#[derive(Clone, Copy, Debug, PartialEq, Eq, Structural)]
pub struct LogFilter(pub Level);

impl LogFilter {
    /// Logs more: one level more verbose.
    pub fn increase(&mut self)
        ensures
            final(self).0 == increased(old(self).0),
    {
        self.0 = match self.0 {
            Level::Off => Level::Error,
            Level::Error => Level::Warn,
            Level::Warn => Level::Info,
            Level::Info => Level::Debug,
            Level::Debug => Level::Trace,
            Level::Trace => Level::Trace,
        }
    }

    /// Logs less: one level less verbose.
    pub fn decrease(&mut self)
        ensures
            final(self).0 == decreased(old(self).0),
    {
        self.0 = match self.0 {
            Level::Off => Level::Off,
            Level::Error => Level::Off,
            Level::Warn => Level::Error,
            Level::Info => Level::Warn,
            Level::Debug => Level::Info,
            Level::Trace => Level::Debug,
        }
    }

    /// Creates the filter for a level given by its name, ignoring ASCII
    /// case: one of `off`, `error`, `warn`, `info`, `debug`, and `trace`.
    pub fn from_name(value: &str) -> (res: Result<LogFilter, ParseLevelError>)
        ensures
            match named_level(value@) {
                Some(level) => res == Ok::<LogFilter, ParseLevelError>(LogFilter(level)),
                None => res == Err::<LogFilter, ParseLevelError>(ParseLevelError),
            },
    {
        proof {
            reveal_strlit("OFF");
            reveal_strlit("ERROR");
            reveal_strlit("WARN");
            reveal_strlit("INFO");
            reveal_strlit("DEBUG");
            reveal_strlit("TRACE");
            assert("OFF"@ =~= level_name(Level::Off));
            assert("ERROR"@ =~= level_name(Level::Error));
            assert("WARN"@ =~= level_name(Level::Warn));
            assert("INFO"@ =~= level_name(Level::Info));
            assert("DEBUG"@ =~= level_name(Level::Debug));
            assert("TRACE"@ =~= level_name(Level::Trace));
        }
        if text_matches_name(value, "OFF") {
            Ok(LogFilter(Level::Off))
        } else if text_matches_name(value, "ERROR") {
            Ok(LogFilter(Level::Error))
        } else if text_matches_name(value, "WARN") {
            Ok(LogFilter(Level::Warn))
        } else if text_matches_name(value, "INFO") {
            Ok(LogFilter(Level::Info))
        } else if text_matches_name(value, "DEBUG") {
            Ok(LogFilter(Level::Debug))
        } else if text_matches_name(value, "TRACE") {
            Ok(LogFilter(Level::Trace))
        } else {
            Err(ParseLevelError)
        }
    }

    /// Applies the command line options: each `-v` increases the level,
    /// then each `-q` decreases it.
    pub fn apply_verbosity(&mut self, verbose: u64, quiet: u64)
        ensures
            final(self).0 == adjusted(old(self).0, verbose as nat, quiet as nat),
    {
        let mut i: u64 = 0;
        while i < verbose
            invariant
                i <= verbose,
                adjusted(self.0, (verbose - i) as nat, quiet as nat) == adjusted(
                    old(self).0,
                    verbose as nat,
                    quiet as nat,
                ),
            decreases verbose - i,
        {
            self.increase();
            i = i + 1;
        }
        let mut j: u64 = 0;
        while j < quiet
            invariant
                j <= quiet,
                adjusted(self.0, 0, (quiet - j) as nat) == adjusted(
                    old(self).0,
                    verbose as nat,
                    quiet as nat,
                ),
            decreases quiet - j,
        {
            self.decrease();
            j = j + 1;
        }
    }
}

impl Default for LogFilter {
    fn default() -> (res: LogFilter)
        ensures
            res.0 == Level::Warn,
    {
        LogFilter(Level::Warn)
    }
}

/// Increasing the level logs more unless everything is logged already,
/// and decreasing it logs less unless nothing is logged already.
pub proof fn law_level_steps(level: Level)
    ensures
        level != Level::Trace ==> rank(increased(level)) == rank(level) + 1,
        level == Level::Trace ==> increased(level) == level,
        level != Level::Off ==> rank(decreased(level)) == rank(level) - 1,
        level == Level::Off ==> decreased(level) == level,
{
}

/// Decreasing undoes increasing, except at the most verbose level, and
/// increasing undoes decreasing, except at the level that logs nothing.
pub proof fn law_level_undo(level: Level)
    ensures
        level != Level::Trace ==> decreased(increased(level)) == level,
        level != Level::Off ==> increased(decreased(level)) == level,
{
}

//------------ LogConfig -----------------------------------------------------

/// Logging configuration.
#[derive(Clone, Debug)]
pub struct LogConfig {
    /// Where to log to?
    pub log_target: LogTarget,

    /// If logging to a file, use this file.
    pub log_file: String,

    /// The minimum log level to actually log.
    pub log_level: LogFilter,
}

impl Default for LogConfig {
    fn default() -> (res: LogConfig)
        ensures
            res.log_target == LogTarget::Default,
            res.log_file@ == Seq::<char>::empty(),
            res.log_level.0 == Level::Warn,
    {
        LogConfig {
            log_target: LogTarget::Default,
            log_file: String::new(),
            log_level: LogFilter(Level::Warn),
        }
    }
}

impl LogConfig {
    /// Updates the configuration from the command line options: the number
    /// of `-v` and `-q` given, whether `--syslog` is given and the value of
    /// `--logfile`, if any, where `-` stands for stderr and a relative path
    /// is taken from the directory `cur_dir`.
    ///
    /// Syslog takes precedence over a log file.
    pub fn update_with_args(
        &mut self,
        verbose: u64,
        quiet: u64,
        syslog: bool,
        logfile: Option<&str>,
        cur_dir: &str,
    )
        ensures
            final(self).log_level.0 == adjusted(old(self).log_level.0, verbose as nat, quiet as nat),
            syslog ==> final(self).log_target == LogTarget::Syslog && final(self).log_file@
                == old(self).log_file@,
            !syslog && logfile is None ==> final(self).log_target == old(self).log_target
                && final(self).log_file@ == old(self).log_file@,
            !syslog ==> (logfile matches Some(name) ==> (name@ == seq!['-'] ==> final(self).log_target
                == LogTarget::Stderr && final(self).log_file@ == old(self).log_file@)),
            !syslog ==> (logfile matches Some(name) ==> (name@ != seq!['-'] ==> final(self).log_target
                == LogTarget::File && final(self).log_file@ == joined(cur_dir@, name@))),
    {
        self.log_level.apply_verbosity(verbose, quiet);
        if syslog {
            self.log_target = LogTarget::Syslog;
        } else if let Some(name) = logfile {
            if name.unicode_len() == 1 && name.get_char(0) == '-' {
                assert(name@ =~= seq!['-']);
                self.log_target = LogTarget::Stderr;
            } else {
                assert(name@ != seq!['-']);
                self.log_target = LogTarget::File;
                self.log_file = join_path(cur_dir, name);
            }
        }
    }
}

//------------ Failed --------------------------------------------------------

/// An error happened that has been logged.
///
/// This is a marker type that can be used in results to indicate that if an
/// error happend, it has been logged and doesn’t need further treatment.
#[derive(Clone, Copy, Debug, PartialEq, Eq, Structural)]
pub struct Failed;

//------------ ExitError -----------------------------------------------------

/// An error happened that should cause the process to exit.
#[derive(Clone, Copy, Debug, PartialEq, Eq, Structural)]
pub struct ExitError;

} // verus!
