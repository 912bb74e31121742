//! The built-in logger module: log records, how a record becomes a line
//! of a log file, and where that file lives.

use vstd::prelude::*;
use crate::config::ParamMap;

verus! {

/// Severity of a log record.
#[allow(non_camel_case_types, clippy::upper_case_acronyms)]
#[derive(Clone, Copy, Debug, PartialEq, Eq, Structural)]
pub enum Level {
    TRCE,
    DEBG,
    INFO,
    WARN,
    EROR,
    CRIT,
}

/// The name under which a level is written.
pub open spec fn level_tag(l: Level) -> Seq<char> {
    match l {
        Level::TRCE => seq!['T', 'R', 'C', 'E'],
        Level::DEBG => seq!['D', 'E', 'B', 'G'],
        Level::INFO => seq!['I', 'N', 'F', 'O'],
        Level::WARN => seq!['W', 'A', 'R', 'N'],
        Level::EROR => seq!['E', 'R', 'O', 'R'],
        Level::CRIT => seq!['C', 'R', 'I', 'T'],
    }
}

impl Level {
    /// The name under which this level is written, as its variant is named.
    pub fn tag(&self) -> (res: &'static str)
        ensures
            res@ == level_tag(*self),
    {
        proof {
            reveal_strlit("TRCE");
            reveal_strlit("DEBG");
            reveal_strlit("INFO");
            reveal_strlit("WARN");
            reveal_strlit("EROR");
            reveal_strlit("CRIT");
        }
        match self {
            Level::TRCE => "TRCE",
            Level::DEBG => "DEBG",
            Level::INFO => "INFO",
            Level::WARN => "WARN",
            Level::EROR => "EROR",
            Level::CRIT => "CRIT",
        }
    }
}

/// One record for the logger: the module that reports it, its severity
/// and its text.
pub struct LogMsg {
    pub m_module: String,
    pub m_level: Level,
    pub m_content: String,
}

/// The line that a record takes in the log file, stamped with `stamp`:
/// `[stamp][LEVEL][module]  content` and a newline.
pub open spec fn entry_line(stamp: Seq<char>, level: Level, module: Seq<char>, content: Seq<char>) -> Seq<char> {
    seq!['['] + stamp + seq![']', '['] + level_tag(level) + seq![']', '['] + module + seq![
        ']',
        ' ',
        ' ',
    ] + content + seq!['\n']
}

/// The file a record is appended to: the log directory, the date, `.log`.
pub open spec fn log_file_path_spec(log_path: Seq<char>, date: Seq<char>) -> Seq<char> {
    log_path + date + seq!['.', 'l', 'o', 'g']
}

impl LogMsg {
    pub fn new(_module: String, _level: Level, _content: String) -> (res: LogMsg)
        ensures
            res.m_module == _module,
            res.m_level == _level,
            res.m_content == _content,
    {
        LogMsg { m_module: _module, m_level: _level, m_content: _content }
    }

    /// The line this record takes in the log file when written at `stamp`.
    pub fn format_entry(&self, stamp: &str) -> (res: String)
        ensures
            res@ == entry_line(stamp@, self.m_level, self.m_module@, self.m_content@),
    {
        proof {
            reveal_strlit("[");
            reveal_strlit("][");
            reveal_strlit("]  ");
            reveal_strlit("\n");
        }
        let mut s = String::from_str("[");
        s.append(stamp);
        s.append("][");
        s.append(self.m_level.tag());
        s.append("][");
        s.append(self.m_module.as_str());
        s.append("]  ");
        s.append(self.m_content.as_str());
        s.append("\n");
        assert(s@ =~= entry_line(stamp@, self.m_level, self.m_module@, self.m_content@));
        s
    }

    /// The file that records of the day `date` go to under `log_path`.
    pub fn log_file_path(log_path: &str, date: &str) -> (res: String)
        ensures
            res@ == log_file_path_spec(log_path@, date@),
    {
        proof {
            reveal_strlit(".log");
        }
        let mut s = String::from_str(log_path);
        s.append(date);
        s.append(".log");
        assert(s@ =~= log_file_path_spec(log_path@, date@));
        s
    }
}

/// The parameter that names the log directory.
pub open spec fn log_path_key() -> Seq<char> {
    seq!['l', 'o', 'g', '_', 'p', 'a', 't', 'h']
}

/// The directory used when none is configured.
pub open spec fn default_log_path() -> Seq<char> {
    seq!['l', 'o', 'g', 's', '/']
}

/// The log directory made from a configured one: `logs/` for an empty
/// setting, otherwise the setting with a `/` appended unless it ends in one.
pub open spec fn normalize_log_path(p: Seq<char>) -> Seq<char> {
    if p.len() == 0 {
        default_log_path()
    } else if p.last() == '/' {
        p
    } else {
        p.push('/')
    }
}

/// A normalized directory is non-empty and ends in `/`.
pub open spec fn is_log_dir(p: Seq<char>) -> bool {
    p.len() > 0 && p.last() == '/'
}

/// The logger module: appends records to a file per day in its directory.
pub struct Logger {
    m_log_path: String,
}

impl Logger {
    #[verifier::type_invariant]
    closed spec fn dir_shape(self) -> bool {
        is_log_dir(self.m_log_path@)
    }

    /// The directory this logger writes to.
    pub closed spec fn dir(self) -> Seq<char> {
        self.m_log_path@
    }

    /// Makes the logger from its module parameters; the `log_path`
    /// parameter must be present.
    pub fn new(_param: &ParamMap) -> (res: Logger)
        requires
            _param@.contains_key(log_path_key()),
        ensures
            res.dir() == normalize_log_path(_param@[log_path_key()]),
    {
        proof {
            reveal_strlit("log_path");
            assert("log_path"@ =~= log_path_key());
        }
        let configured = _param.get("log_path").unwrap();
        let n = configured.as_str().unicode_len();
        if n == 0 {
            proof {
                reveal_strlit("logs/");
                assert("logs/"@ =~= default_log_path());
            }
            return Logger { m_log_path: String::from_str("logs/") };
        }
        let last = configured.as_str().get_char(n - 1);
        if last == '/' {
            Logger { m_log_path: configured.clone() }
        } else {
            proof {
                reveal_strlit("/");
            }
            let mut path = configured.clone();
            path.append("/");
            assert(path@ =~= configured@.push('/'));
            Logger { m_log_path: path }
        }
    }

    /// The directory this logger writes to.
    pub fn log_path(&self) -> (res: &String)
        ensures
            res@ == self.dir(),
            is_log_dir(res@),
    {
        proof {
            use_type_invariant(self);
        }
        &self.m_log_path
    }
}

/// One step of writing a record to its day's file: the file is opened for
/// appending, else created, then the record is written; when the file
/// cannot be created or written, the failure and the record are printed.
#[derive(Clone, Copy, Debug, PartialEq, Eq, Structural)]
pub enum LogAction {
    OpenForAppend,
    CreateFile,
    WriteEntry,
    /// Print that the file could not be created, then the record.
    ReportCreateFailure,
    /// Print that the file could not be written, then the record.
    ReportWriteFailure,
    Finish,
}

/// The step that follows `last`, given whether it succeeded.
pub open spec fn log_step(last: LogAction, succeeded: bool) -> LogAction {
    match last {
        LogAction::OpenForAppend => if succeeded {
            LogAction::WriteEntry
        } else {
            LogAction::CreateFile
        },
        LogAction::CreateFile => if succeeded {
            LogAction::WriteEntry
        } else {
            LogAction::ReportCreateFailure
        },
        LogAction::WriteEntry => if succeeded {
            LogAction::Finish
        } else {
            LogAction::ReportWriteFailure
        },
        _ => LogAction::Finish,
    }
}

/// The step of writing a record that follows `last`, given whether it
/// succeeded. Writing starts with `LogAction::OpenForAppend`.
pub fn next_log_action(last: LogAction, succeeded: bool) -> (next: LogAction)
    ensures
        next == log_step(last, succeeded),
{
    match last {
        LogAction::OpenForAppend => if succeeded {
            LogAction::WriteEntry
        } else {
            LogAction::CreateFile
        },
        LogAction::CreateFile => if succeeded {
            LogAction::WriteEntry
        } else {
            LogAction::ReportCreateFailure
        },
        LogAction::WriteEntry => if succeeded {
            LogAction::Finish
        } else {
            LogAction::ReportWriteFailure
        },
        _ => LogAction::Finish,
    }
}

/// A record is never lost: whatever each step gives, three steps after
/// `OpenForAppend` the writer is done or printing the record, the record is
/// printed exactly when no write succeeded, and after a report the writer
/// is done.
pub proof fn lemma_log_write_ends(o1: bool, o2: bool, o3: bool)
    ensures
        ({
            let a1 = log_step(LogAction::OpenForAppend, o1);
            let a2 = log_step(a1, o2);
            let a3 = log_step(a2, o3);
            let wrote = (o1 && o2) || (!o1 && o2 && o3);
            let printed = a2 == LogAction::ReportCreateFailure || a2 == LogAction::ReportWriteFailure
                || a3 == LogAction::ReportCreateFailure || a3 == LogAction::ReportWriteFailure;
            &&& (a3 == LogAction::Finish || a3 == LogAction::ReportCreateFailure
                || a3 == LogAction::ReportWriteFailure)
            &&& (printed <==> !wrote)
            &&& log_step(a3, true) == LogAction::Finish
            &&& log_step(a3, false) == LogAction::Finish
        }),
{
}

/// A configured directory is kept as it was written: when it is not empty
/// the result starts with it, adds at most a `/`, and adds one exactly when
/// the setting does not already end in `/`; an empty setting gives `logs/`.
pub proof fn lemma_log_dir_keeps_setting(p: Seq<char>)
    ensures
        p.len() == 0 ==> normalize_log_path(p) == seq!['l', 'o', 'g', 's', '/'],
        p.len() > 0 ==> normalize_log_path(p).take(p.len() as int) == p,
        p.len() > 0 ==> normalize_log_path(p).len() == p.len() + if p.last() == '/' {
            0int
        } else {
            1int
        },
        normalize_log_path(p).last() == '/',
        p.len() > 0 && p.last() == '/' ==> normalize_log_path(p) == p,
{
    if p.len() > 0 && p.last() != '/' {
        assert(p.push('/').take(p.len() as int) =~= p);
    }
    if p.len() > 0 && p.last() == '/' {
        assert(p.take(p.len() as int) =~= p);
    }
}

/// A log line is laid out field by field: `[`, the stamp, `][`, the
/// record's own level name (four letters), `][`, the module, `]`, two
/// spaces, the content and a newline.
pub proof fn lemma_entry_line_fields(stamp: Seq<char>, level: Level, module: Seq<char>, content: Seq<char>)
    ensures
        ({
            let line = entry_line(stamp, level, module, content);
            let sl = stamp.len() as int;
            let ml = module.len() as int;
            let cl = content.len() as int;
            let n = line.len() as int;
            let t = sl + 3;
            &&& n == sl + ml + cl + 13
            &&& line[0] == '['
            &&& line.subrange(1, sl + 1) == stamp
            &&& line[sl + 1] == ']' && line[sl + 2] == '['
            &&& line.subrange(t, t + 4) == level_tag(level)
            &&& line[t + 4] == ']' && line[t + 5] == '['
            &&& line.subrange(t + 6, t + 6 + ml) == module
            &&& line.subrange(n - 1 - cl, n - 1) == content
            &&& line[n - 1] == '\n'
        }),
{
    let line = entry_line(stamp, level, module, content);
    let sl = stamp.len() as int;
    let ml = module.len() as int;
    let cl = content.len() as int;
    let n = line.len() as int;
    let t = sl + 3;
    assert(level_tag(level).len() == 4);
    assert(line.subrange(1, sl + 1) =~= stamp);
    assert(line.subrange(t, t + 4) =~= level_tag(level));
    assert(line.subrange(t + 6, t + 6 + ml) =~= module);
    assert(line.subrange(n - 1 - cl, n - 1) =~= content);
}

/// Each level is written under its own variant's name, so records that
/// differ only in level give different lines.
pub proof fn lemma_entry_line_level_distinct(
    stamp: Seq<char>,
    l1: Level,
    l2: Level,
    module: Seq<char>,
    content: Seq<char>,
)
    ensures
        level_tag(Level::TRCE) == seq!['T', 'R', 'C', 'E'],
        level_tag(Level::DEBG) == seq!['D', 'E', 'B', 'G'],
        level_tag(Level::INFO) == seq!['I', 'N', 'F', 'O'],
        level_tag(Level::WARN) == seq!['W', 'A', 'R', 'N'],
        level_tag(Level::EROR) == seq!['E', 'R', 'O', 'R'],
        level_tag(Level::CRIT) == seq!['C', 'R', 'I', 'T'],
        l1 != l2 ==> entry_line(stamp, l1, module, content) != entry_line(stamp, l2, module, content),
{
    if l1 != l2 {
        lemma_entry_line_fields(stamp, l1, module, content);
        lemma_entry_line_fields(stamp, l2, module, content);
        if entry_line(stamp, l1, module, content) == entry_line(stamp, l2, module, content) {
            assert(level_tag(l1) == level_tag(l2));
            assert(level_tag(l1)[0] == level_tag(l2)[0]);
            assert(level_tag(l1)[1] == level_tag(l2)[1]);
            assert(level_tag(l1)[2] == level_tag(l2)[2]);
        }
    }
}

/// The name the logger module is registered under.
pub open spec fn logger_name() -> Seq<char> {
    seq!['l', 'o', 'g', 'g', 'e', 'r']
}

/// Normalizing a log directory is idempotent: a normalized directory is
/// left as it is, and it always ends in `/`.
pub proof fn lemma_normalize_log_path_idempotent(p: Seq<char>)
    ensures
        is_log_dir(normalize_log_path(p)),
        normalize_log_path(normalize_log_path(p)) == normalize_log_path(p),
{
}

} // verus!
