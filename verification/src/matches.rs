use crate::order::same_bytes;
use crate::parse::{parse_bool, parse_bounded, parse_i32, parse_i64, parse_u64, signed_text, unsigned_text};
use crate::path::copy_bytes;
use crate::sql::{MysqlConnectionType, MysqlOptions};
use vstd::prelude::*;
use vstd::slice::slice_subrange;
use vstd::string::StringSliceAdditionalSpecFns;

verus! {

/// One option that a command line holds: its name, and the values that were
/// given with it, none for a switch.
#[derive(Debug)]
pub struct ArgValue {
    pub name: Vec<u8>,
    pub values: Vec<Vec<u8>>,
}

/// The options that a command line holds, defaults included.
#[derive(Debug)]
pub struct Matches {
    pub args: Vec<ArgValue>,
}

/// Why the options of a command line cannot be used.
#[derive(Clone, Copy, Debug, PartialEq, Eq, Structural)]
pub enum ArgError {
    /// Both the name and the number of the repository are given.
    BothRepoNameAndId,
    /// Neither the name nor the number of the repository is given.
    NeitherRepoNameNorId,
    /// More than one configuration has the number of the repository.
    MultipleConfigs,
    /// No configuration has the number of the repository.
    UnknownRepoId,
    /// No configuration has the name of the repository.
    UnknownRepoName,
    /// The option is not there.
    Missing,
    /// The value of the option is not a number of the kind asked for.
    NotANumber,
    /// The value of the option is neither `true` nor `false`.
    NotBool,
    /// The fate of a panic is none of the known ones.
    BadPanicFate,
    /// The level of logging is none of the known ones.
    UnknownLogLevel,
    /// A disabled hook is not written as repository, colon, hook.
    BadDisabledHook,
    /// The source of a configuration is not written in a known form.
    InvalidConfigSpec,
}

/// Index of the first option with the name, searched from `i` on.
pub open spec fn arg_index(args: Seq<ArgValue>, name: Seq<u8>, i: int) -> Option<int>
    decreases args.len() - i,
{
    if i < 0 || i >= args.len() {
        None
    } else if args[i].name@ == name {
        Some(i)
    } else {
        arg_index(args, name, i + 1)
    }
}

impl Matches {
    /// Whether the command line holds the option.
    pub open spec fn present(&self, name: Seq<u8>) -> bool {
        arg_index(self.args@, name, 0) is Some
    }

    /// The first value of the option, if the command line holds the option
    /// with a value.
    pub open spec fn value(&self, name: Seq<u8>) -> Option<Seq<u8>> {
        match arg_index(self.args@, name, 0) {
            Some(i) => if self.args@[i].values@.len() > 0 {
                Some(self.args@[i].values@[0]@)
            } else {
                None
            },
            None => None,
        }
    }

    fn find(&self, name: &[u8]) -> (r: Option<usize>)
        ensures
            r is Some ==> r.unwrap() < self.args@.len() && arg_index(self.args@, name@, 0) == Some(
                r.unwrap() as int,
            ),
            r is None ==> arg_index(self.args@, name@, 0) is None,
    {
        let mut i: usize = 0;
        while i < self.args.len()
            invariant
                i <= self.args@.len(),
                arg_index(self.args@, name@, 0) == arg_index(self.args@, name@, i as int),
            decreases self.args@.len() - i,
        {
            if same_bytes(self.args[i].name.as_slice(), name) {
                return Some(i);
            }
            i += 1;
        }
        None
    }

    /// Tells whether the command line holds the option.
    pub fn is_present(&self, name: &[u8]) -> (r: bool)
        ensures
            r == self.present(name@),
    {
        self.find(name).is_some()
    }

    /// The first value of the option.
    pub fn value_of(&self, name: &[u8]) -> (r: Option<&[u8]>)
        ensures
            match self.value(name@) {
                Some(v) => r is Some && r.unwrap()@ == v,
                None => r is None,
            },
    {
        match self.find(name) {
            Some(i) => {
                let a = &self.args[i];
                if a.values.len() > 0 {
                    Some(a.values[0].as_slice())
                } else {
                    None
                }
            },
            None => None,
        }
    }

    /// The values of the option.
    pub fn values_of(&self, name: &[u8]) -> (r: Option<&Vec<Vec<u8>>>)
        ensures
            match arg_index(self.args@, name@, 0) {
                Some(i) => r is Some && *r.unwrap() == self.args@[i].values,
                None => r is None,
            },
    {
        match self.find(name) {
            Some(i) => Some(&self.args[i].values),
            None => None,
        }
    }
}

/// How the command line selects a repository.
#[derive(Debug)]
pub enum RepoSelector {
    ById(Vec<u8>),
    ByName(Vec<u8>),
}

/// Tells how the command line selects a repository: by the value of the
/// option for the name or by that of the option for the number. Fails where
/// both are given, and where neither is.
pub fn repo_selector(matches: &Matches, option_repo_name: &[u8], option_repo_id: &[u8]) -> (r: Result<
    RepoSelector,
    ArgError,
>)
    ensures
        match (matches.value(option_repo_name@), matches.value(option_repo_id@)) {
            (Some(_), Some(_)) => r matches Err(ArgError::BothRepoNameAndId),
            (None, None) => r matches Err(ArgError::NeitherRepoNameNorId),
            (None, Some(id)) => r matches Ok(RepoSelector::ById(v)) && v@ == id,
            (Some(name), None) => r matches Ok(RepoSelector::ByName(v)) && v@ == name,
        },
{
    match (matches.value_of(option_repo_name), matches.value_of(option_repo_id)) {
        (Some(_), Some(_)) => Err(ArgError::BothRepoNameAndId),
        (None, None) => Err(ArgError::NeitherRepoNameNorId),
        (None, Some(id)) => Ok(RepoSelector::ById(copy_bytes(id))),
        (Some(name), None) => Ok(RepoSelector::ByName(copy_bytes(name))),
    }
}

/// Number of repositories among the first `n` that have the number.
pub open spec fn count_id(ids: Seq<i32>, id: i32, n: int) -> nat
    decreases n,
{
    if n <= 0 || n > ids.len() {
        0
    } else {
        count_id(ids, id, n - 1) + (if ids[n - 1] == id {
            1nat
        } else {
            0nat
        })
    }
}

/// Index of the last repository among the first `n` that has the number.
pub open spec fn last_with_id(ids: Seq<i32>, id: i32, n: int) -> Option<int>
    decreases n,
{
    if n <= 0 || n > ids.len() {
        None
    } else if ids[n - 1] == id {
        Some(n - 1)
    } else {
        last_with_id(ids, id, n - 1)
    }
}

/// Finds the configuration of the repository with the number among the
/// numbers of the configured repositories: the last one that has it. Fails
/// where none has it, and where more than two have it.
pub fn resolve_repo_given_id(ids: &Vec<i32>, id: i32) -> (r: Result<usize, ArgError>)
    ensures
        count_id(ids@, id, ids@.len() as int) == 0 ==> r matches Err(ArgError::UnknownRepoId),
        count_id(ids@, id, ids@.len() as int) > 2 ==> r matches Err(ArgError::MultipleConfigs),
        1 <= count_id(ids@, id, ids@.len() as int) <= 2 ==> r is Ok && Some(r.unwrap() as int)
            == last_with_id(ids@, id, ids@.len() as int),
{
    let mut count: usize = 0;
    let mut last: Option<usize> = None;
    let mut i: usize = 0;
    while i < ids.len()
        invariant
            i <= ids@.len(),
            count == count_id(ids@, id, i as int),
            count <= i,
            last is Some ==> last_with_id(ids@, id, i as int) == Some(last.unwrap() as int),
            last is None ==> last_with_id(ids@, id, i as int) is None,
            last is None <==> count == 0,
        decreases ids@.len() - i,
    {
        if ids[i] == id {
            count += 1;
            last = Some(i);
        }
        i += 1;
    }
    match last {
        None => Err(ArgError::UnknownRepoId),
        Some(k) => if count > 2 {
            Err(ArgError::MultipleConfigs)
        } else {
            Ok(k)
        },
    }
}

/// Whether storage is read-only: it is where the old switch is given; else
/// the new option says, and it is not where that is absent. Fails where the
/// new option holds neither `true` nor `false`.
pub fn parse_readonly_storage(matches: &Matches) -> (r: Result<bool, ArgError>)
    ensures
        matches.present("readonly-storage".spec_bytes()) ==> r == Ok::<bool, ArgError>(true),
        !matches.present("readonly-storage".spec_bytes()) ==> match matches.value(
            "with-readonly-storage".spec_bytes(),
        ) {
            None => r == Ok::<bool, ArgError>(false),
            Some(v) => if v == "true".spec_bytes() {
                r == Ok::<bool, ArgError>(true)
            } else if v == "false".spec_bytes() {
                r == Ok::<bool, ArgError>(false)
            } else {
                r == Err::<bool, ArgError>(ArgError::NotBool)
            },
        },
{
    if matches.is_present("readonly-storage".as_bytes()) {
        return Ok(true);
    }
    match matches.value_of("with-readonly-storage".as_bytes()) {
        None => Ok(false),
        Some(v) => match parse_bool(v) {
            Some(b) => Ok(b),
            None => Err(ArgError::NotBool),
        },
    }
}

/// How the database is reached: through the router where its port is given;
/// else through the client library where that is asked for; else directly.
/// Reads go to the master where the switch for that is given. Fails where
/// the port is no number below 2^16.
pub fn parse_mysql_options(matches: &Matches) -> (r: Result<MysqlOptions, ArgError>)
    ensures
        match matches.value("myrouter-port".spec_bytes()) {
            Some(port) => match unsigned_text(port) {
                Some(p) => if p <= u16::MAX {
                    r is Ok && r.unwrap().connection_type == MysqlConnectionType::Myrouter(p as u16)
                } else {
                    r matches Err(ArgError::NotANumber)
                },
                None => r matches Err(ArgError::NotANumber),
            },
            None => r is Ok && r.unwrap().connection_type == (if matches.present(
                "use-mysql-client".spec_bytes(),
            ) {
                MysqlConnectionType::Mysql
            } else {
                MysqlConnectionType::RawXDB
            }),
        },
        r is Ok ==> r.unwrap().master_only == matches.present("mysql-master-only".spec_bytes()),
{
    let connection_type = match matches.value_of("myrouter-port".as_bytes()) {
        Some(port) => match parse_bounded(port, 0xffff) {
            Some(p) => MysqlConnectionType::Myrouter(p as u16),
            None => {
                return Err(ArgError::NotANumber);
            },
        },
        None => if matches.is_present("use-mysql-client".as_bytes()) {
            MysqlConnectionType::Mysql
        } else {
            MysqlConnectionType::RawXDB
        },
    };
    let master_only = matches.is_present("mysql-master-only".as_bytes());
    Ok(MysqlOptions { connection_type, master_only })
}

/// The number of seconds that the option holds. Fails where the option is
/// absent, and where it holds no number below 2^64.
pub fn seconds_of(matches: &Matches, name: &[u8]) -> (r: Result<u64, ArgError>)
    ensures
        match matches.value(name@) {
            None => r matches Err(ArgError::Missing),
            Some(v) => match unsigned_text(v) {
                Some(n) => if n <= u64::MAX {
                    r == Ok::<u64, ArgError>(n as u64)
                } else {
                    r matches Err(ArgError::NotANumber)
                },
                None => r matches Err(ArgError::NotANumber),
            },
        },
{
    match matches.value_of(name) {
        None => Err(ArgError::Missing),
        Some(v) => match parse_u64(v) {
            Some(n) => Ok(n),
            None => Err(ArgError::NotANumber),
        },
    }
}

/// The seconds to wait after a signal to shut down before shutting down.
pub fn get_shutdown_grace_period(matches: &Matches) -> (r: Result<u64, ArgError>)
    ensures
        match matches.value("shutdown-grace-period".spec_bytes()) {
            None => r matches Err(ArgError::Missing),
            Some(v) => match unsigned_text(v) {
                Some(n) => if n <= u64::MAX {
                    r == Ok::<u64, ArgError>(n as u64)
                } else {
                    r matches Err(ArgError::NotANumber)
                },
                None => r matches Err(ArgError::NotANumber),
            },
        },
{
    seconds_of(matches, "shutdown-grace-period".as_bytes())
}

/// The seconds to wait for requests to complete during a shutdown.
pub fn get_shutdown_timeout(matches: &Matches) -> (r: Result<u64, ArgError>)
    ensures
        match matches.value("shutdown-timeout".spec_bytes()) {
            None => r matches Err(ArgError::Missing),
            Some(v) => match unsigned_text(v) {
                Some(n) => if n <= u64::MAX {
                    r == Ok::<u64, ArgError>(n as u64)
                } else {
                    r matches Err(ArgError::NotANumber)
                },
                None => r matches Err(ArgError::NotANumber),
            },
        },
{
    seconds_of(matches, "shutdown-timeout".as_bytes())
}

/// The number without a sign that the option holds, if the option is there.
/// Fails where it holds no number that is at most `max`.
pub fn get_bounded_opt(matches: &Matches, key: &[u8], max: u64) -> (r: Result<Option<u64>, ArgError>)
    ensures
        match matches.value(key@) {
            None => r == Ok::<Option<u64>, ArgError>(None),
            Some(v) => match unsigned_text(v) {
                Some(n) => if n <= max {
                    r == Ok::<Option<u64>, ArgError>(Some(n as u64))
                } else {
                    r matches Err(ArgError::NotANumber)
                },
                None => r matches Err(ArgError::NotANumber),
            },
        },
{
    match matches.value_of(key) {
        None => Ok(None),
        Some(v) => match parse_bounded(v, max) {
            Some(n) => Ok(Some(n)),
            None => Err(ArgError::NotANumber),
        },
    }
}

/// The number without a sign below 2^64 that the option holds, if the option
/// is there.
pub fn get_u64_opt(matches: &Matches, key: &[u8]) -> (r: Result<Option<u64>, ArgError>)
    ensures
        match matches.value(key@) {
            None => r == Ok::<Option<u64>, ArgError>(None),
            Some(v) => match unsigned_text(v) {
                Some(n) => if n <= u64::MAX {
                    r == Ok::<Option<u64>, ArgError>(Some(n as u64))
                } else {
                    r matches Err(ArgError::NotANumber)
                },
                None => r matches Err(ArgError::NotANumber),
            },
        },
{
    get_bounded_opt(matches, key, u64::MAX)
}

/// The number that the option holds, or the default where the option is
/// absent.
pub fn get_u64(matches: &Matches, key: &[u8], default: u64) -> (r: Result<u64, ArgError>)
    ensures
        match matches.value(key@) {
            None => r == Ok::<u64, ArgError>(default),
            Some(v) => match unsigned_text(v) {
                Some(n) => if n <= u64::MAX {
                    r == Ok::<u64, ArgError>(n as u64)
                } else {
                    r matches Err(ArgError::NotANumber)
                },
                None => r matches Err(ArgError::NotANumber),
            },
        },
{
    match get_u64_opt(matches, key) {
        Ok(Some(n)) => Ok(n),
        Ok(None) => Ok(default),
        Err(e) => Err(e),
    }
}

/// The number with a sign that fits in 32 bits that the option holds, if
/// the option is there.
pub fn get_i32_opt(matches: &Matches, key: &[u8]) -> (r: Result<Option<i32>, ArgError>)
    ensures
        match matches.value(key@) {
            None => r == Ok::<Option<i32>, ArgError>(None),
            Some(v) => match signed_text(v) {
                Some(n) => if i32::MIN <= n <= i32::MAX {
                    r == Ok::<Option<i32>, ArgError>(Some(n as i32))
                } else {
                    r matches Err(ArgError::NotANumber)
                },
                None => r matches Err(ArgError::NotANumber),
            },
        },
{
    match matches.value_of(key) {
        None => Ok(None),
        Some(v) => match parse_i32(v) {
            Some(n) => Ok(Some(n)),
            None => Err(ArgError::NotANumber),
        },
    }
}

/// The number with a sign that fits in 32 bits that the option holds, or
/// the default where the option is absent.
pub fn get_i32(matches: &Matches, key: &[u8], default: i32) -> (r: Result<i32, ArgError>)
    ensures
        match matches.value(key@) {
            None => r == Ok::<i32, ArgError>(default),
            Some(v) => match signed_text(v) {
                Some(n) => if i32::MIN <= n <= i32::MAX {
                    r == Ok::<i32, ArgError>(n as i32)
                } else {
                    r matches Err(ArgError::NotANumber)
                },
                None => r matches Err(ArgError::NotANumber),
            },
        },
{
    match get_i32_opt(matches, key) {
        Ok(Some(n)) => Ok(n),
        Ok(None) => Ok(default),
        Err(e) => Err(e),
    }
}

/// The number with a sign that fits in 64 bits that the option holds, if
/// the option is there.
pub fn get_i64_opt(matches: &Matches, key: &[u8]) -> (r: Result<Option<i64>, ArgError>)
    ensures
        match matches.value(key@) {
            None => r == Ok::<Option<i64>, ArgError>(None),
            Some(v) => match signed_text(v) {
                Some(n) => if i64::MIN <= n <= i64::MAX {
                    r == Ok::<Option<i64>, ArgError>(Some(n as i64))
                } else {
                    r matches Err(ArgError::NotANumber)
                },
                None => r matches Err(ArgError::NotANumber),
            },
        },
{
    match matches.value_of(key) {
        None => Ok(None),
        Some(v) => match parse_i64(v) {
            Some(n) => Ok(Some(n)),
            None => Err(ArgError::NotANumber),
        },
    }
}

/// The size that the option holds, if the option is there: a number without
/// a sign that fits in a machine word.
pub fn get_usize_opt(matches: &Matches, key: &[u8]) -> (r: Result<Option<usize>, ArgError>)
    ensures
        match matches.value(key@) {
            None => r == Ok::<Option<usize>, ArgError>(None),
            Some(v) => match unsigned_text(v) {
                Some(n) => if n <= usize::MAX {
                    r == Ok::<Option<usize>, ArgError>(Some(n as usize))
                } else {
                    r matches Err(ArgError::NotANumber)
                },
                None => r matches Err(ArgError::NotANumber),
            },
        },
{
    match get_bounded_opt(matches, key, usize::MAX as u64) {
        Ok(Some(n)) => Ok(Some(n as usize)),
        Ok(None) => Ok(None),
        Err(e) => Err(e),
    }
}

/// The size that the option holds, or the default where the option is
/// absent.
pub fn get_usize(matches: &Matches, key: &[u8], default: usize) -> (r: Result<usize, ArgError>)
    ensures
        match matches.value(key@) {
            None => r == Ok::<usize, ArgError>(default),
            Some(v) => match unsigned_text(v) {
                Some(n) => if n <= usize::MAX {
                    r == Ok::<usize, ArgError>(n as usize)
                } else {
                    r matches Err(ArgError::NotANumber)
                },
                None => r matches Err(ArgError::NotANumber),
            },
        },
{
    match get_usize_opt(matches, key) {
        Ok(Some(n)) => Ok(n),
        Ok(None) => Ok(default),
        Err(e) => Err(e),
    }
}

/// The boolean that the option holds, if the option is there.
pub fn get_bool_opt(matches: &Matches, key: &[u8]) -> (r: Result<Option<bool>, ArgError>)
    ensures
        match matches.value(key@) {
            None => r == Ok::<Option<bool>, ArgError>(None),
            Some(v) => if v == "true".spec_bytes() {
                r == Ok::<Option<bool>, ArgError>(Some(true))
            } else if v == "false".spec_bytes() {
                r == Ok::<Option<bool>, ArgError>(Some(false))
            } else {
                r matches Err(ArgError::NotBool)
            },
        },
{
    match matches.value_of(key) {
        None => Ok(None),
        Some(v) => match parse_bool(v) {
            Some(b) => Ok(Some(b)),
            None => Err(ArgError::NotBool),
        },
    }
}

/// What becomes of the process when a panic happens.
#[derive(Clone, Copy, Debug, PartialEq, Eq, Structural)]
pub enum Fate {
    Continue,
    /// The process exits with the code.
    Exit(i32),
    Abort,
}

/// The fate that a text stands for: `none` for no handler, `continue`,
/// `exit` with the code 101, or `abort`.
pub fn panic_fate(text: &[u8]) -> (r: Result<Option<Fate>, ArgError>)
    ensures
        r == (if text@ == "none".spec_bytes() {
            Ok::<Option<Fate>, ArgError>(None)
        } else if text@ == "continue".spec_bytes() {
            Ok::<Option<Fate>, ArgError>(Some(Fate::Continue))
        } else if text@ == "exit".spec_bytes() {
            Ok::<Option<Fate>, ArgError>(Some(Fate::Exit(101)))
        } else if text@ == "abort".spec_bytes() {
            Ok::<Option<Fate>, ArgError>(Some(Fate::Abort))
        } else {
            Err::<Option<Fate>, ArgError>(ArgError::BadPanicFate)
        }),
{
    if same_bytes(text, "none".as_bytes()) {
        Ok(None)
    } else if same_bytes(text, "continue".as_bytes()) {
        Ok(Some(Fate::Continue))
    } else if same_bytes(text, "exit".as_bytes()) {
        Ok(Some(Fate::Exit(101)))
    } else if same_bytes(text, "abort".as_bytes()) {
        Ok(Some(Fate::Abort))
    } else {
        Err(ArgError::BadPanicFate)
    }
}

/// A level of logging.
#[derive(Clone, Copy, Debug, PartialEq, Eq, Structural)]
pub enum Level {
    Critical,
    Error,
    Warning,
    Info,
    Debug,
    Trace,
}

/// The level that a name stands for.
pub open spec fn level_of(text: Seq<u8>) -> Option<Level> {
    if text == "CRITICAL".spec_bytes() {
        Some(Level::Critical)
    } else if text == "ERROR".spec_bytes() {
        Some(Level::Error)
    } else if text == "WARN".spec_bytes() {
        Some(Level::Warning)
    } else if text == "INFO".spec_bytes() {
        Some(Level::Info)
    } else if text == "DEBUG".spec_bytes() {
        Some(Level::Debug)
    } else if text == "TRACE".spec_bytes() {
        Some(Level::Trace)
    } else {
        None
    }
}

/// The level of logging: debug where the switch for it is given; else the
/// level that is named; else info. Fails where the name is none of a level.
pub fn get_log_level(matches: &Matches) -> (r: Result<Level, ArgError>)
    ensures
        matches.present("debug".spec_bytes()) ==> r == Ok::<Level, ArgError>(Level::Debug),
        !matches.present("debug".spec_bytes()) ==> match matches.value("log-level".spec_bytes()) {
            None => r == Ok::<Level, ArgError>(Level::Info),
            Some(v) => match level_of(v) {
                Some(l) => r == Ok::<Level, ArgError>(l),
                None => r == Err::<Level, ArgError>(ArgError::UnknownLogLevel),
            },
        },
{
    if matches.is_present("debug".as_bytes()) {
        return Ok(Level::Debug);
    }
    match matches.value_of("log-level".as_bytes()) {
        None => Ok(Level::Info),
        Some(v) => {
            if same_bytes(v, "CRITICAL".as_bytes()) {
                Ok(Level::Critical)
            } else if same_bytes(v, "ERROR".as_bytes()) {
                Ok(Level::Error)
            } else if same_bytes(v, "WARN".as_bytes()) {
                Ok(Level::Warning)
            } else if same_bytes(v, "INFO".as_bytes()) {
                Ok(Level::Info)
            } else if same_bytes(v, "DEBUG".as_bytes()) {
                Ok(Level::Debug)
            } else if same_bytes(v, "TRACE".as_bytes()) {
                Ok(Level::Trace)
            } else {
                Err(ArgError::UnknownLogLevel)
            }
        },
    }
}

/// Index of the first byte `b` at or after `i`, or the length of the text.
pub open spec fn next_byte(s: Seq<u8>, b: u8, i: int) -> int
    decreases s.len() - i,
{
    if i < 0 || i >= s.len() {
        s.len() as int
    } else if s[i] == b {
        i
    } else {
        next_byte(s, b, i + 1)
    }
}

fn find_byte(s: &[u8], b: u8, start: usize) -> (r: usize)
    requires
        start <= s@.len(),
    ensures
        r == next_byte(s@, b, start as int),
        start <= r <= s@.len(),
{
    let mut i: usize = start;
    while i < s.len() && s[i] != b
        invariant
            start <= i <= s@.len(),
            next_byte(s@, b, start as int) == next_byte(s@, b, i as int),
        decreases s@.len() - i,
    {
        i += 1;
    }
    i
}

/// Cuts a disabled hook at its first colon into the repository and the
/// hook; `None` where it holds no colon.
pub fn split_repo_hook(text: &[u8]) -> (r: Option<(Vec<u8>, Vec<u8>)>)
    ensures
        ({
            let k = next_byte(text@, 58, 0);
            if k < text@.len() {
                r is Some && r.unwrap().0@ == text@.subrange(0, k) && r.unwrap().1@ == text@.subrange(
                    k + 1,
                    text@.len() as int,
                )
            } else {
                r is None
            }
        }),
{
    let k = find_byte(text, 58, 0);
    if k < text.len() {
        let repo = copy_bytes(slice_subrange(text, 0, k));
        let hook = copy_bytes(slice_subrange(text, k + 1, text.len()));
        Some((repo, hook))
    } else {
        None
    }
}

/// The hooks that the command line disables, each with its repository, in
/// the order of the command line. Fails where one holds no colon.
pub fn parse_disabled_hooks_with_repo_prefix(matches: &Matches) -> (r: Result<
    Vec<(Vec<u8>, Vec<u8>)>,
    ArgError,
>)
    ensures
        match arg_index(matches.args@, "disabled-hooks".spec_bytes(), 0) {
            None => r is Ok && r.unwrap()@.len() == 0,
            Some(i) => {
                let values = matches.args@[i].values@;
                if forall|k: int| 0 <= k < values.len() ==> next_byte(#[trigger] values[k]@, 58, 0) < values[k]@.len() {
                    r is Ok && r.unwrap()@.len() == values.len() && forall|k: int|
                        0 <= k < values.len() ==> {
                            let c = next_byte(values[k]@, 58, 0);
                            (#[trigger] r.unwrap()@[k]).0@ == values[k]@.subrange(0, c) && r.unwrap()@[k].1@
                                == values[k]@.subrange(c + 1, values[k]@.len() as int)
                        }
                } else {
                    r matches Err(ArgError::BadDisabledHook)
                }
            },
        },
{
    let mut out: Vec<(Vec<u8>, Vec<u8>)> = Vec::new();
    let values = match matches.values_of("disabled-hooks".as_bytes()) {
        Some(v) => v,
        None => {
            return Ok(out);
        },
    };
    let mut i: usize = 0;
    while i < values.len()
        invariant
            i <= values@.len(),
            out@.len() == i,
            arg_index(matches.args@, "disabled-hooks".spec_bytes(), 0) is Some,
            matches.args@[arg_index(matches.args@, "disabled-hooks".spec_bytes(), 0).unwrap()].values
                == *values,
            forall|k: int| 0 <= k < i ==> next_byte(#[trigger] values@[k]@, 58, 0) < values@[k]@.len(),
            forall|k: int|
                0 <= k < i ==> {
                    let c = next_byte(values@[k]@, 58, 0);
                    (#[trigger] out@[k]).0@ == values@[k]@.subrange(0, c) && out@[k].1@ == values@[k]@.subrange(
                        c + 1,
                        values@[k]@.len() as int,
                    )
                },
        decreases values@.len() - i,
    {
        match split_repo_hook(values[i].as_slice()) {
            Some(pair) => {
                out.push(pair);
            },
            None => {
                assert(!(next_byte(values@[i as int]@, 58, 0) < values@[i as int]@.len()));
                return Err(ArgError::BadDisabledHook);
            },
        }
        i += 1;
    }
    Ok(out)
}

/// Where a configuration comes from.
#[derive(Debug)]
pub enum ConfigSource {
    /// From the configuration service, under the path.
    Configerator(Vec<u8>),
    /// From the file at the path.
    File(Vec<u8>),
    /// Nowhere: the default values are taken.
    Default,
}

/// The mathematical content of a `ConfigSource`.
pub ghost enum ConfigSourceView {
    Configerator(Seq<u8>),
    File(Seq<u8>),
    Default,
}

impl View for ConfigSource {
    type V = ConfigSourceView;

    open spec fn view(&self) -> ConfigSourceView {
        match self {
            ConfigSource::Configerator(p) => ConfigSourceView::Configerator(p@),
            ConfigSource::File(p) => ConfigSourceView::File(p@),
            ConfigSource::Default => ConfigSourceView::Default,
        }
    }
}

/// The source that a text stands for: `configerator:` and a path, `file:`
/// and a path, or `default`. A path holds no colon.
pub open spec fn config_source_of(text: Seq<u8>) -> Option<ConfigSourceView> {
    let k = next_byte(text, 58, 0);
    if k >= text.len() {
        if text == "default".spec_bytes() {
            Some(ConfigSourceView::Default)
        } else {
            None
        }
    } else {
        let head = text.subrange(0, k);
        let rest = text.subrange(k + 1, text.len() as int);
        if next_byte(rest, 58, 0) < rest.len() {
            None
        } else if head == "configerator".spec_bytes() {
            Some(ConfigSourceView::Configerator(rest))
        } else if head == "file".spec_bytes() {
            Some(ConfigSourceView::File(rest))
        } else {
            None
        }
    }
}

/// Reads where a configuration comes from; the default where nothing is
/// said. Fails for a text of no known form.
pub fn config_source(source_spec: Option<&[u8]>) -> (r: Result<ConfigSource, ArgError>)
    ensures
        match source_spec {
            None => r is Ok && r.unwrap()@ == ConfigSourceView::Default,
            Some(text) => match config_source_of(text@) {
                Some(s) => r is Ok && r.unwrap()@ == s,
                None => r matches Err(ArgError::InvalidConfigSpec),
            },
        },
{
    let text = match source_spec {
        None => {
            return Ok(ConfigSource::Default);
        },
        Some(t) => t,
    };
    let k = find_byte(text, 58, 0);
    if k >= text.len() {
        if same_bytes(text, "default".as_bytes()) {
            return Ok(ConfigSource::Default);
        }
        return Err(ArgError::InvalidConfigSpec);
    }
    let head = slice_subrange(text, 0, k);
    let rest = slice_subrange(text, k + 1, text.len());
    if find_byte(rest, 58, 0) < rest.len() {
        return Err(ArgError::InvalidConfigSpec);
    }
    if same_bytes(head, "configerator".as_bytes()) {
        Ok(ConfigSource::Configerator(copy_bytes(rest)))
    } else if same_bytes(head, "file".as_bytes()) {
        Ok(ConfigSource::File(copy_bytes(rest)))
    } else {
        Err(ArgError::InvalidConfigSpec)
    }
}

/// What an option that holds a number without a sign comes to: nothing
/// where the option is absent, the number where it is at most `max`, and,
/// with `nonzero`, not zero; an error for anything else.
pub open spec fn number_of(value: Option<Seq<u8>>, max: u64, nonzero: bool) -> Result<Option<u64>, ArgError> {
    match value {
        None => Ok(None),
        Some(v) => match unsigned_text(v) {
            Some(n) => if n <= max && !(nonzero && n == 0) {
                Ok(Some(n as u64))
            } else {
                Err(ArgError::NotANumber)
            },
            None => Err(ArgError::NotANumber),
        },
    }
}

/// Reads an option that holds a number without a sign; see `number_of`.
pub fn get_number(matches: &Matches, key: &[u8], max: u64, nonzero: bool) -> (r: Result<Option<u64>, ArgError>)
    ensures
        r == number_of(matches.value(key@), max, nonzero),
{
    match matches.value_of(key) {
        None => Ok(None),
        Some(v) => match parse_bounded(v, max) {
            Some(n) => if nonzero && n == 0 {
                Err(ArgError::NotANumber)
            } else {
                Ok(Some(n))
            },
            None => Err(ArgError::NotANumber),
        },
    }
}

/// What an option that has to be there and holds a number comes to.
pub open spec fn required_number(value: Option<Seq<u8>>, max: u64) -> Result<u64, ArgError> {
    match number_of(value, max, false) {
        Ok(Some(n)) => Ok(n),
        Ok(None) => Err(ArgError::Missing),
        Err(e) => Err(e),
    }
}

/// Reads an option that has to be there and holds a number without a sign.
pub fn get_required_number(matches: &Matches, key: &[u8], max: u64) -> (r: Result<u64, ArgError>)
    ensures
        r == required_number(matches.value(key@), max),
{
    match get_number(matches, key, max, false) {
        Ok(Some(n)) => Ok(n),
        Ok(None) => Err(ArgError::Missing),
        Err(e) => Err(e),
    }
}

/// The settings of the pool of connections to the database.
#[derive(Clone, Copy, Debug)]
pub struct PoolConfig {
    pub size: u64,
    pub threads_num: i32,
    pub per_key_limit: u64,
    pub conn_age_timeout_ms: u64,
    pub conn_idle_timeout_ms: u64,
    pub conn_open_timeout_ms: u64,
    pub max_query_time_ms: u64,
}

/// Reads the settings of the pool of connections; every one of them has to
/// be there. Fails with the error of the first that is absent or no number.
pub fn parse_mysql_pool_options(matches: &Matches) -> (r: Result<PoolConfig, ArgError>)
    ensures
        r is Ok ==> {
            &&& required_number(matches.value("mysql-pool-limit".spec_bytes()), usize::MAX as u64) == Ok::<
                u64,
                ArgError,
            >(r.unwrap().size)
            &&& required_number(matches.value("mysql-pool-threads-num".spec_bytes()), 0x7fff_ffff) == Ok::<
                u64,
                ArgError,
            >(r.unwrap().threads_num as u64)
            &&& required_number(matches.value("mysql-pool-per-key-limit".spec_bytes()), u64::MAX) == Ok::<
                u64,
                ArgError,
            >(r.unwrap().per_key_limit)
            &&& required_number(matches.value("mysql-pool-age-timeout".spec_bytes()), u64::MAX) == Ok::<
                u64,
                ArgError,
            >(r.unwrap().conn_age_timeout_ms)
            &&& required_number(matches.value("mysql-pool-idle-timeout".spec_bytes()), u64::MAX) == Ok::<
                u64,
                ArgError,
            >(r.unwrap().conn_idle_timeout_ms)
            &&& required_number(matches.value("mysql-conn-open-timeout".spec_bytes()), u64::MAX) == Ok::<
                u64,
                ArgError,
            >(r.unwrap().conn_open_timeout_ms)
            &&& required_number(matches.value("mysql-query-time-limit".spec_bytes()), u64::MAX) == Ok::<
                u64,
                ArgError,
            >(r.unwrap().max_query_time_ms)
        },
        r is Err <==> {
            ||| required_number(matches.value("mysql-pool-limit".spec_bytes()), usize::MAX as u64) is Err
            ||| required_number(matches.value("mysql-pool-threads-num".spec_bytes()), 0x7fff_ffff) is Err
            ||| required_number(matches.value("mysql-pool-per-key-limit".spec_bytes()), u64::MAX) is Err
            ||| required_number(matches.value("mysql-pool-age-timeout".spec_bytes()), u64::MAX) is Err
            ||| required_number(matches.value("mysql-pool-idle-timeout".spec_bytes()), u64::MAX) is Err
            ||| required_number(matches.value("mysql-conn-open-timeout".spec_bytes()), u64::MAX) is Err
            ||| required_number(matches.value("mysql-query-time-limit".spec_bytes()), u64::MAX) is Err
        },
{
    let size = match get_required_number(matches, "mysql-pool-limit".as_bytes(), usize::MAX as u64) {
        Ok(n) => n,
        Err(e) => {
            return Err(e);
        },
    };
    let threads = match get_required_number(matches, "mysql-pool-threads-num".as_bytes(), 0x7fff_ffff) {
        Ok(n) => n,
        Err(e) => {
            return Err(e);
        },
    };
    let per_key_limit = match get_required_number(
        matches,
        "mysql-pool-per-key-limit".as_bytes(),
        u64::MAX,
    ) {
        Ok(n) => n,
        Err(e) => {
            return Err(e);
        },
    };
    let conn_age_timeout_ms = match get_required_number(
        matches,
        "mysql-pool-age-timeout".as_bytes(),
        u64::MAX,
    ) {
        Ok(n) => n,
        Err(e) => {
            return Err(e);
        },
    };
    let conn_idle_timeout_ms = match get_required_number(
        matches,
        "mysql-pool-idle-timeout".as_bytes(),
        u64::MAX,
    ) {
        Ok(n) => n,
        Err(e) => {
            return Err(e);
        },
    };
    let conn_open_timeout_ms = match get_required_number(
        matches,
        "mysql-conn-open-timeout".as_bytes(),
        u64::MAX,
    ) {
        Ok(n) => n,
        Err(e) => {
            return Err(e);
        },
    };
    let max_query_time_ms = match get_required_number(
        matches,
        "mysql-query-time-limit".as_bytes(),
        u64::MAX,
    ) {
        Ok(n) => n,
        Err(e) => {
            return Err(e);
        },
    };
    Ok(
        PoolConfig {
            size,
            threads_num: threads as i32,
            per_key_limit,
            conn_age_timeout_ms,
            conn_idle_timeout_ms,
            conn_open_timeout_ms,
            max_query_time_ms,
        },
    )
}

/// The limits of the throttled blob store; a limit that is absent does not
/// limit.
#[derive(Clone, Copy, Debug)]
pub struct ThrottleOptions {
    pub read_qps: Option<u64>,
    pub write_qps: Option<u64>,
    pub read_bytes: Option<u64>,
    pub write_bytes: Option<u64>,
    pub read_burst_bytes: Option<u64>,
    pub write_burst_bytes: Option<u64>,
    pub bytes_min_count: Option<u64>,
}

/// The rates of injected failures: one read, or write, in so many fails.
#[derive(Clone, Copy, Debug)]
pub struct ChaosOptions {
    pub read_chaos: Option<u64>,
    pub write_chaos: Option<u64>,
}

/// Reads the limits of the throttled blob store: each is a number that is
/// not zero where it is there.
pub fn parse_throttle_options(matches: &Matches) -> (r: Result<ThrottleOptions, ArgError>)
    ensures
        r is Err ==> r matches Err(ArgError::NotANumber),
        r is Ok ==> {
            &&& number_of(matches.value("blobstore-read-qps".spec_bytes()), 0xffff_ffff, true) == Ok::<
                Option<u64>,
                ArgError,
            >(r.unwrap().read_qps)
            &&& number_of(matches.value("blobstore-write-qps".spec_bytes()), 0xffff_ffff, true) == Ok::<
                Option<u64>,
                ArgError,
            >(r.unwrap().write_qps)
            &&& number_of(matches.value("blobstore-read-bytes-s".spec_bytes()), usize::MAX as u64, true)
                == Ok::<Option<u64>, ArgError>(r.unwrap().read_bytes)
            &&& number_of(matches.value("blobstore-write-bytes-s".spec_bytes()), usize::MAX as u64, true)
                == Ok::<Option<u64>, ArgError>(r.unwrap().write_bytes)
            &&& number_of(
                matches.value("blobstore-read-burst-bytes-s".spec_bytes()),
                usize::MAX as u64,
                true,
            ) == Ok::<Option<u64>, ArgError>(r.unwrap().read_burst_bytes)
            &&& number_of(
                matches.value("blobstore-write-burst-bytes-s".spec_bytes()),
                usize::MAX as u64,
                true,
            ) == Ok::<Option<u64>, ArgError>(r.unwrap().write_burst_bytes)
            &&& number_of(
                matches.value("blobstore-bytes-min-throttle".spec_bytes()),
                usize::MAX as u64,
                true,
            ) == Ok::<Option<u64>, ArgError>(r.unwrap().bytes_min_count)
        },
        r is Err <==> {
            ||| number_of(matches.value("blobstore-read-qps".spec_bytes()), 0xffff_ffff, true) is Err
            ||| number_of(matches.value("blobstore-write-qps".spec_bytes()), 0xffff_ffff, true) is Err
            ||| number_of(matches.value("blobstore-read-bytes-s".spec_bytes()), usize::MAX as u64, true) is Err
            ||| number_of(matches.value("blobstore-write-bytes-s".spec_bytes()), usize::MAX as u64, true) is Err
            ||| number_of(
                matches.value("blobstore-read-burst-bytes-s".spec_bytes()),
                usize::MAX as u64,
                true,
            ) is Err
            ||| number_of(
                matches.value("blobstore-write-burst-bytes-s".spec_bytes()),
                usize::MAX as u64,
                true,
            ) is Err
            ||| number_of(
                matches.value("blobstore-bytes-min-throttle".spec_bytes()),
                usize::MAX as u64,
                true,
            ) is Err
        },
{
    let read_qps = match get_number(matches, "blobstore-read-qps".as_bytes(), 0xffff_ffff, true) {
        Ok(n) => n,
        Err(e) => {
            return Err(e);
        },
    };
    let write_qps = match get_number(matches, "blobstore-write-qps".as_bytes(), 0xffff_ffff, true) {
        Ok(n) => n,
        Err(e) => {
            return Err(e);
        },
    };
    let read_bytes = match get_number(
        matches,
        "blobstore-read-bytes-s".as_bytes(),
        usize::MAX as u64,
        true,
    ) {
        Ok(n) => n,
        Err(e) => {
            return Err(e);
        },
    };
    let write_bytes = match get_number(
        matches,
        "blobstore-write-bytes-s".as_bytes(),
        usize::MAX as u64,
        true,
    ) {
        Ok(n) => n,
        Err(e) => {
            return Err(e);
        },
    };
    let read_burst_bytes = match get_number(
        matches,
        "blobstore-read-burst-bytes-s".as_bytes(),
        usize::MAX as u64,
        true,
    ) {
        Ok(n) => n,
        Err(e) => {
            return Err(e);
        },
    };
    let write_burst_bytes = match get_number(
        matches,
        "blobstore-write-burst-bytes-s".as_bytes(),
        usize::MAX as u64,
        true,
    ) {
        Ok(n) => n,
        Err(e) => {
            return Err(e);
        },
    };
    let bytes_min_count = match get_number(
        matches,
        "blobstore-bytes-min-throttle".as_bytes(),
        usize::MAX as u64,
        true,
    ) {
        Ok(n) => n,
        Err(e) => {
            return Err(e);
        },
    };
    Ok(
        ThrottleOptions {
            read_qps,
            write_qps,
            read_bytes,
            write_bytes,
            read_burst_bytes,
            write_burst_bytes,
            bytes_min_count,
        },
    )
}

/// Reads the rates of injected failures: each is a number that is not zero
/// where it is there.
pub fn parse_chaos_options(matches: &Matches) -> (r: Result<ChaosOptions, ArgError>)
    ensures
        r is Err ==> r matches Err(ArgError::NotANumber),
        r is Ok ==> number_of(matches.value("blobstore-read-chaos-rate".spec_bytes()), 0xffff_ffff, true)
            == Ok::<Option<u64>, ArgError>(r.unwrap().read_chaos) && number_of(
            matches.value("blobstore-write-chaos-rate".spec_bytes()),
            0xffff_ffff,
            true,
        ) == Ok::<Option<u64>, ArgError>(r.unwrap().write_chaos),
        r is Err <==> number_of(
            matches.value("blobstore-read-chaos-rate".spec_bytes()),
            0xffff_ffff,
            true,
        ) is Err || number_of(
            matches.value("blobstore-write-chaos-rate".spec_bytes()),
            0xffff_ffff,
            true,
        ) is Err,
{
    let read_chaos = match get_number(matches, "blobstore-read-chaos-rate".as_bytes(), 0xffff_ffff, true) {
        Ok(n) => n,
        Err(e) => {
            return Err(e);
        },
    };
    let write_chaos = match get_number(
        matches,
        "blobstore-write-chaos-rate".as_bytes(),
        0xffff_ffff,
        true,
    ) {
        Ok(n) => n,
        Err(e) => {
            return Err(e);
        },
    };
    Ok(ChaosOptions { read_chaos, write_chaos })
}

} // verus!
