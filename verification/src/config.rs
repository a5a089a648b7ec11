//! The user configuration: the optional `config.toml`, overlaid by environment
//! variables, and the defaults of what neither gives.
use vstd::prelude::*;

use crate::model::protofetch::{protocol_named, Protocol};
use crate::path::{join_path, join_path_exec};
use crate::text::{concat, opt_view, str_eq};
use crate::toml_doc::{parse_toml, spec_parse_toml, table_find, table_lookup, TomlValue};

verus! {

/// The configuration as read, before defaults.
#[derive(Debug, PartialEq, Eq)]
pub struct RawConfig {
    pub cache_dir: Option<String>,
    pub protocol: Option<Protocol>,
    pub jobs: Option<usize>,
    pub copy_jobs: Option<usize>,
}

/// The content of a configuration as read.
pub struct RawConfigView {
    pub cache_dir: Option<Seq<char>>,
    pub protocol: Option<Protocol>,
    pub jobs: Option<usize>,
    pub copy_jobs: Option<usize>,
}

impl View for RawConfig {
    type V = RawConfigView;

    open spec fn view(&self) -> RawConfigView {
        RawConfigView {
            cache_dir: opt_view(self.cache_dir),
            protocol: self.protocol,
            jobs: self.jobs,
            copy_jobs: self.copy_jobs,
        }
    }
}

impl Default for RawConfig {
    fn default() -> (r: Self)
        ensures
            r@ == (RawConfigView { cache_dir: None, protocol: None, jobs: None, copy_jobs: None }),
    {
        RawConfig { cache_dir: None, protocol: None, jobs: None, copy_jobs: None }
    }
}

/// What can go wrong while loading the configuration.
#[derive(Debug, PartialEq, Eq)]
pub enum ConfigError {
    /// The table given in place of the file is not a configuration.
    InvalidOverride,
    /// The file at this path is not a configuration.
    InvalidFile(String),
    /// The file at this path could not be read: the system's message.
    Unreadable(String, String),
    /// The environment variable of this name holds an invalid value.
    InvalidValue(String),
    /// No cache directory is configured and there is no home directory.
    NoHomeDir,
}

/// The text of a configuration error.
pub open spec fn config_message(e: ConfigError) -> Seq<char> {
    match e {
        ConfigError::InvalidOverride => "invalid config override"@,
        ConfigError::InvalidFile(p) => "invalid config file at "@ + p@,
        ConfigError::Unreadable(p, _) => "could not read config file at "@ + p@,
        ConfigError::InvalidValue(k) => "invalid value for "@ + k@,
        ConfigError::NoHomeDir => "Could not find home dir. Please define $HOME env variable."@,
    }
}

impl ConfigError {
    /// The text of the error (see `config_message`).
    pub fn message(&self) -> (r: String)
        ensures
            r@ == config_message(*self),
    {
        match self {
            ConfigError::InvalidOverride => String::from_str("invalid config override"),
            ConfigError::InvalidFile(p) => concat("invalid config file at ", p.as_str()),
            ConfigError::Unreadable(p, _) => concat("could not read config file at ", p.as_str()),
            ConfigError::InvalidValue(k) => concat("invalid value for ", k.as_str()),
            ConfigError::NoHomeDir => String::from_str("Could not find home dir. Please define $HOME env variable."),
        }
    }
}

/// The string a TOML value holds, if it is one.
pub open spec fn string_of_value(v: TomlValue) -> Option<Seq<char>> {
    match v {
        TomlValue::String(s) => Some(s@),
        _ => None,
    }
}

/// An optional setting: absent, or a value of the right kind (`None` inside `Some`
/// for a value of the wrong kind).
pub open spec fn optional_string_setting(o: Option<TomlValue>) -> Option<Option<Seq<char>>> {
    match o {
        None => Some(None),
        Some(v) => match string_of_value(v) {
            Some(s) => Some(Some(s)),
            None => None,
        },
    }
}

/// A protocol setting, written exactly `https` or `ssh`.
pub open spec fn protocol_setting(o: Option<TomlValue>) -> Option<Option<Protocol>> {
    match o {
        None => Some(None),
        Some(v) => match string_of_value(v) {
            Some(s) => if s == "https"@ {
                Some(Some(Protocol::Https))
            } else if s == "ssh"@ {
                Some(Some(Protocol::Ssh))
            } else {
                None
            },
            None => None,
        },
    }
}

/// A count setting: an integer that fits a `usize`.
pub open spec fn count_setting(o: Option<TomlValue>) -> Option<Option<usize>> {
    match o {
        None => Some(None),
        Some(TomlValue::Integer(n)) => if 0 <= n <= usize::MAX {
            Some(Some(n as usize))
        } else {
            None
        },
        Some(_) => None,
    }
}

/// A sub-table setting: absent (an empty table), or a table.
pub open spec fn section(o: Option<TomlValue>) -> Option<Seq<(String, TomlValue)>> {
    match o {
        None => Some(seq![]),
        Some(TomlValue::Table(t)) => Some(t@),
        Some(_) => None,
    }
}

/// The configuration a TOML table describes: `cache.dir`, `git.protocol`, `jobs` and
/// `copy_jobs`, each optional; other keys are ignored.
pub open spec fn config_from_table(t: Seq<(String, TomlValue)>) -> Option<RawConfigView> {
    match (section(table_lookup(t, "cache"@)), section(table_lookup(t, "git"@))) {
        (Some(cache), Some(git)) => match (
            optional_string_setting(table_lookup(cache, "dir"@)),
            protocol_setting(table_lookup(git, "protocol"@)),
            count_setting(table_lookup(t, "jobs"@)),
            count_setting(table_lookup(t, "copy_jobs"@)),
        ) {
            (Some(dir), Some(protocol), Some(jobs), Some(copy_jobs)) => Some(
                RawConfigView { cache_dir: dir, protocol, jobs, copy_jobs },
            ),
            _ => None,
        },
        _ => None,
    }
}

fn lookup<'a>(t: &'a Vec<(String, TomlValue)>, key: &str) -> (r: Option<&'a TomlValue>)
    ensures
        match r {
            Some(v) => table_lookup(t@, key@) == Some(*v),
            None => table_lookup(t@, key@) is None,
        },
{
    match table_find(t, key) {
        Some(i) => Some(&t[i].1),
        None => None,
    }
}

/// A sub-table setting as the table found (`None` for an absent one), or `None` for a
/// value of the wrong kind.
fn read_section<'a>(o: Option<&'a TomlValue>) -> (r: Option<Option<&'a Vec<(String, TomlValue)>>>)
    ensures
        match r {
            Some(Some(t)) => section(match o {
                Some(v) => Some(*v),
                None => None,
            }) == Some(t@),
            Some(None) => section(match o {
                Some(v) => Some(*v),
                None => None,
            }) == Some(Seq::<(String, TomlValue)>::empty()),
            None => section(match o {
                Some(v) => Some(*v),
                None => None,
            }) is None,
        },
{
    match o {
        None => Some(None),
        Some(TomlValue::Table(t)) => Some(Some(t)),
        Some(_) => None,
    }
}

/// The value under `key` in a section (nothing in an absent one).
fn lookup_in<'a>(sec: Option<&'a Vec<(String, TomlValue)>>, key: &str) -> (r: Option<&'a TomlValue>)
    ensures
        match r {
            Some(v) => table_lookup(match sec {
                Some(t) => t@,
                None => Seq::<(String, TomlValue)>::empty(),
            }, key@) == Some(*v),
            None => table_lookup(match sec {
                Some(t) => t@,
                None => Seq::<(String, TomlValue)>::empty(),
            }, key@) is None,
        },
{
    match sec {
        Some(t) => lookup(t, key),
        None => None,
    }
}

impl RawConfig {
    /// The configuration a TOML table describes (see `config_from_table`).
    pub fn from_table(t: &Vec<(String, TomlValue)>) -> (r: Option<RawConfig>)
        ensures
            match r {
                Some(c) => config_from_table(t@) == Some(c@),
                None => config_from_table(t@) is None,
            },
    {
        let cache = match read_section(lookup(t, "cache")) {
            Some(c) => c,
            None => return None,
        };
        let git = match read_section(lookup(t, "git")) {
            Some(g) => g,
            None => return None,
        };
        let dir = match lookup_in(cache, "dir") {
            None => None,
            Some(TomlValue::String(s)) => Some(s.clone()),
            Some(_) => return None,
        };
        let protocol = match lookup_in(git, "protocol") {
            None => None,
            Some(TomlValue::String(s)) => {
                if str_eq(s.as_str(), "https") {
                    Some(Protocol::Https)
                } else if str_eq(s.as_str(), "ssh") {
                    Some(Protocol::Ssh)
                } else {
                    return None;
                }
            },
            Some(_) => return None,
        };
        let jobs = match count_value(lookup(t, "jobs")) {
            Some(j) => j,
            None => return None,
        };
        let copy_jobs = match count_value(lookup(t, "copy_jobs")) {
            Some(j) => j,
            None => return None,
        };
        Some(RawConfig { cache_dir: dir, protocol, jobs, copy_jobs })
    }
}

fn count_value(o: Option<&TomlValue>) -> (r: Option<Option<usize>>)
    ensures
        r == count_setting(
            match o {
                Some(v) => Some(*v),
                None => None,
            },
        ),
{
    match o {
        None => Some(None),
        Some(TomlValue::Integer(n)) => {
            if 0 <= *n && (*n as u64) <= (usize::MAX as u64) {
                Some(Some(*n as usize))
            } else {
                None
            }
        },
        Some(_) => None,
    }
}

/// The value of a decimal numeral.
pub open spec fn numeral_value(s: Seq<char>) -> int
    decreases s.len(),
{
    if s.len() == 0 {
        0
    } else {
        numeral_value(s.drop_last()) * 10 + (s.last() as int - '0' as int)
    }
}

/// A numeral without its leading `+`, if it has one.
pub open spec fn unsigned_part(s: Seq<char>) -> Seq<char> {
    if s.len() > 0 && s[0] == '+' {
        s.drop_first()
    } else {
        s
    }
}

/// Every character is a decimal digit.
pub open spec fn all_digits(d: Seq<char>) -> bool {
    forall|i: int| 0 <= i < d.len() ==> '0' <= #[trigger] d[i] <= '9'
}

/// `usize::from_str`: an optional `+`, then at least one decimal digit, for a value
/// that fits.
pub open spec fn parse_count(s: Seq<char>) -> Option<usize> {
    let d = unsigned_part(s);
    if d.len() == 0 || !all_digits(d) {
        None
    } else if numeral_value(d) > usize::MAX {
        None
    } else {
        Some(numeral_value(d) as usize)
    }
}

proof fn lemma_numeral_grows(s: Seq<char>, n: int)
    requires
        0 <= n <= s.len(),
        forall|i: int| 0 <= i < s.len() ==> '0' <= #[trigger] s[i] <= '9',
    ensures
        numeral_value(s.take(n)) <= numeral_value(s),
        0 <= numeral_value(s.take(n)),
    decreases s.len() - n,
{
    if n < s.len() {
        lemma_numeral_grows(s, n + 1);
        assert(s.take(n + 1).drop_last() =~= s.take(n));
        lemma_numeral_nonneg(s.take(n));
    } else {
        assert(s.take(n) =~= s);
        lemma_numeral_nonneg(s);
    }
}

proof fn lemma_numeral_nonneg(s: Seq<char>)
    requires
        forall|i: int| 0 <= i < s.len() ==> '0' <= #[trigger] s[i] <= '9',
    ensures
        0 <= numeral_value(s),
    decreases s.len(),
{
    if s.len() > 0 {
        lemma_numeral_nonneg(s.drop_last());
    }
}

/// Reads a count as `usize::from_str` does.
pub fn parse_count_exec(s: &str) -> (r: Option<usize>)
    ensures
        r == parse_count(s@),
{
    let cs = crate::text::chars_of(s);
    let start: usize = if cs.len() > 0 && cs[0] == '+' {
        1
    } else {
        0
    };
    let ghost d = unsigned_part(s@);
    assert(d =~= s@.skip(start as int));
    if start >= cs.len() {
        return None;
    }
    let mut i: usize = start;
    while i < cs.len()
        invariant
            start <= i <= cs.len(),
            cs@ == s@,
            d == s@.skip(start as int),
            d == unsigned_part(s@),
            d.len() > 0,
            d.len() == cs.len() - start,
            forall|k: int| 0 <= k < i - start ==> '0' <= #[trigger] d[k] <= '9',
        decreases cs.len() - i,
    {
        assert(d[i - start] == cs@[i as int]);
        if !('0' <= cs[i] && cs[i] <= '9') {
            assert(!('0' <= d[i - start] <= '9'));
            assert(!all_digits(d));
            return None;
        }
        i = i + 1;
    }
    let mut v: usize = 0;
    let mut j: usize = start;
    assert(d.take(0) =~= Seq::<char>::empty());
    while j < cs.len()
        invariant
            start <= j <= cs.len(),
            cs@ == s@,
            d == s@.skip(start as int),
            d == unsigned_part(s@),
            d.len() > 0,
            d.len() == cs.len() - start,
            forall|k: int| 0 <= k < d.len() ==> '0' <= #[trigger] d[k] <= '9',
            v == numeral_value(d.take(j - start)),
        decreases cs.len() - j,
    {
        assert(d[j - start] == cs@[j as int]);
        let c = cs[j];
        assert('0' <= c <= '9');
        assert((c as u32) >= ('0' as u32) && (c as u32) <= ('9' as u32));
        let digit: usize = (c as u32 - '0' as u32) as usize;
        assert(digit == c as int - '0' as int);
        assert(digit <= 9);
        assert(d.take(j - start + 1).drop_last() =~= d.take(j - start));
        assert(d.take(j - start + 1).last() == cs@[j as int]);
        if v > (usize::MAX - digit) / 10 {
            proof {
                assert(v * 10 + digit > usize::MAX) by (nonlinear_arith)
                    requires
                        v > (usize::MAX - digit) / 10,
                        digit <= 9,
                ;
                lemma_numeral_grows(d, j - start + 1);
            }
            return None;
        }
        assert(v * 10 + digit <= usize::MAX) by (nonlinear_arith)
            requires
                v <= (usize::MAX - digit) / 10,
                digit <= 9,
        ;
        v = v * 10 + digit;
        j = j + 1;
    }
    assert(d.take(d.len() as int) =~= d);
    Some(v)
}

/// The value of the variable `key` among some environment variables: the first entry
/// with that name.
pub open spec fn env_value(env: Seq<(String, String)>, key: Seq<char>) -> Option<Seq<char>>
    decreases env.len(),
{
    if env.len() == 0 {
        None
    } else if env[0].0@ == key {
        Some(env[0].1@)
    } else {
        env_value(env.drop_first(), key)
    }
}

fn env_lookup<'a>(env: &'a Vec<(String, String)>, key: &str) -> (r: Option<&'a String>)
    ensures
        match r {
            Some(v) => env_value(env@, key@) == Some(v@),
            None => env_value(env@, key@) is None,
        },
{
    let mut i: usize = 0;
    assert(env@.skip(0) =~= env@);
    while i < env.len()
        invariant
            i <= env.len(),
            env_value(env@, key@) == env_value(env@.skip(i as int), key@),
        decreases env.len() - i,
    {
        assert(env@.skip(i as int).drop_first() =~= env@.skip(i + 1));
        assert(env@.skip(i as int)[0] == env@[i as int]);
        if str_eq(env[i].0.as_str(), key) {
            return Some(&env[i].1);
        }
        i = i + 1;
    }
    None
}

/// The configuration with the environment's settings over it:
/// `PROTOFETCH_CACHE_DIR`, `PROTOFETCH_GIT_PROTOCOL` (a protocol name, any ASCII case),
/// `PROTOFETCH_JOBS` and `PROTOFETCH_COPY_JOBS` (counts); the first invalid one, in that
/// order, is the error.
pub open spec fn overlay(c: RawConfigView, env: Seq<(String, String)>) -> Result<
    RawConfigView,
    Seq<char>,
> {
    let dir = env_value(env, "PROTOFETCH_CACHE_DIR"@);
    let protocol = env_value(env, "PROTOFETCH_GIT_PROTOCOL"@);
    let jobs = env_value(env, "PROTOFETCH_JOBS"@);
    let copy_jobs = env_value(env, "PROTOFETCH_COPY_JOBS"@);
    if protocol is Some && protocol_named(protocol->0) is None {
        Err("PROTOFETCH_GIT_PROTOCOL"@)
    } else if jobs is Some && parse_count(jobs->0) is None {
        Err("PROTOFETCH_JOBS"@)
    } else if copy_jobs is Some && parse_count(copy_jobs->0) is None {
        Err("PROTOFETCH_COPY_JOBS"@)
    } else {
        Ok(
            RawConfigView {
                cache_dir: if dir is Some {
                    dir
                } else {
                    c.cache_dir
                },
                protocol: if protocol is Some {
                    protocol_named(protocol->0)
                } else {
                    c.protocol
                },
                jobs: if jobs is Some {
                    parse_count(jobs->0)
                } else {
                    c.jobs
                },
                copy_jobs: if copy_jobs is Some {
                    parse_count(copy_jobs->0)
                } else {
                    c.copy_jobs
                },
            },
        )
    }
}

/// Where the configuration comes from: a table given in its place, the text of the
/// file read at a path, or no file.
pub enum ConfigSource {
    Override(Vec<(String, TomlValue)>),
    File { path: String, text: String },
    Missing,
}

/// The configuration a source gives, before the environment: a table must describe
/// one; a file must be TOML describing one; no file gives the defaults.
pub open spec fn base_config(source: ConfigSource) -> Result<RawConfigView, ConfigError> {
    match source {
        ConfigSource::Override(t) => match config_from_table(t@) {
            Some(c) => Ok(c),
            None => Err(ConfigError::InvalidOverride),
        },
        ConfigSource::File { path, text } => match spec_parse_toml(text@) {
            Ok(t) => match config_from_table(t@) {
                Some(c) => Ok(c),
                None => Err(ConfigError::InvalidFile(path)),
            },
            Err(_) => Err(ConfigError::InvalidFile(path)),
        },
        ConfigSource::Missing => Ok(
            RawConfigView { cache_dir: None, protocol: None, jobs: None, copy_jobs: None },
        ),
    }
}

impl RawConfig {
    /// The configuration of a source with the environment's settings over it.
    pub fn load(source: ConfigSource, env: &Vec<(String, String)>) -> (r: Result<RawConfig, ConfigError>)
        ensures
            match base_config(source) {
                Err(e) => r == Err::<RawConfig, ConfigError>(e),
                Ok(c) => match overlay(c, env@) {
                    Ok(o) => r matches Ok(x) && x@ == o,
                    Err(k) => r matches Err(ConfigError::InvalidValue(m)) && m@ == k,
                },
            },
    {
        let ghost src = source;
        let base = match source {
            ConfigSource::Override(t) => match RawConfig::from_table(&t) {
                Some(c) => c,
                None => return Err(ConfigError::InvalidOverride),
            },
            ConfigSource::File { path, text } => match parse_toml(text.as_str()) {
                Ok(t) => match RawConfig::from_table(&t) {
                    Some(c) => c,
                    None => return Err(ConfigError::InvalidFile(path)),
                },
                Err(_) => return Err(ConfigError::InvalidFile(path)),
            },
            ConfigSource::Missing => RawConfig::default(),
        };
        let ghost bv = base@;
        let dir = env_lookup(env, "PROTOFETCH_CACHE_DIR");
        let protocol = match env_lookup(env, "PROTOFETCH_GIT_PROTOCOL") {
            None => None,
            Some(p) => match Protocol::parse(p.as_str()) {
                Ok(p) => Some(p),
                Err(_) => return Err(ConfigError::InvalidValue(String::from_str("PROTOFETCH_GIT_PROTOCOL"))),
            },
        };
        let jobs = match env_lookup(env, "PROTOFETCH_JOBS") {
            None => None,
            Some(j) => match parse_count_exec(j.as_str()) {
                Some(n) => Some(n),
                None => return Err(ConfigError::InvalidValue(String::from_str("PROTOFETCH_JOBS"))),
            },
        };
        let copy_jobs = match env_lookup(env, "PROTOFETCH_COPY_JOBS") {
            None => None,
            Some(j) => match parse_count_exec(j.as_str()) {
                Some(n) => Some(n),
                None => return Err(ConfigError::InvalidValue(String::from_str("PROTOFETCH_COPY_JOBS"))),
            },
        };
        Ok(
            RawConfig {
                cache_dir: match dir {
                    Some(d) => Some(d.clone()),
                    None => base.cache_dir,
                },
                protocol: match protocol {
                    Some(p) => Some(p),
                    None => base.protocol,
                },
                jobs: match jobs {
                    Some(j) => Some(j),
                    None => base.jobs,
                },
                copy_jobs: match copy_jobs {
                    Some(j) => Some(j),
                    None => base.copy_jobs,
                },
            },
        )
    }
}

/// The effective configuration.
#[derive(Debug, PartialEq, Eq)]
pub struct ProtofetchConfig {
    pub cache_dir: String,
    pub default_protocol: Protocol,
    pub jobs: Option<usize>,
    pub copy_jobs: Option<usize>,
}

impl ProtofetchConfig {
    /// The configuration with its defaults: the default cache directory (when there is
    /// one) for no cache directory, and SSH for no protocol.
    pub fn from_raw(raw: RawConfig, default_cache_dir: Option<String>) -> (r: Result<
        ProtofetchConfig,
        ConfigError,
    >)
        ensures
            match (raw@.cache_dir, opt_view(default_cache_dir)) {
                (None, None) => r == Err::<ProtofetchConfig, ConfigError>(ConfigError::NoHomeDir),
                (d, dd) => r matches Ok(c) && c.cache_dir@ == (match d {
                    Some(x) => x,
                    None => dd->0,
                }) && c.default_protocol == (match raw@.protocol {
                    Some(p) => p,
                    None => Protocol::Ssh,
                }) && c.jobs == raw@.jobs && c.copy_jobs == raw@.copy_jobs,
            },
    {
        let cache_dir = match raw.cache_dir {
            Some(d) => d,
            None => match default_cache_dir {
                Some(d) => d,
                None => return Err(ConfigError::NoHomeDir),
            },
        };
        Ok(
            ProtofetchConfig {
                cache_dir,
                default_protocol: match raw.protocol {
                    Some(p) => p,
                    None => Protocol::Ssh,
                },
                jobs: raw.jobs,
                copy_jobs: raw.copy_jobs,
            },
        )
    }
}

/// Where the configuration file lives: `$PROTOFETCH_CONFIG_DIR`, else
/// `$XDG_CONFIG_HOME/protofetch`, else `~/.config/protofetch`.
pub open spec fn config_dir_spec(
    protofetch_config_dir: Option<Seq<char>>,
    xdg_config_home: Option<Seq<char>>,
    home: Option<Seq<char>>,
) -> Option<Seq<char>> {
    match (protofetch_config_dir, xdg_config_home, home) {
        (Some(p), _, _) => Some(p),
        (None, Some(x), _) => Some(join_path(x, "protofetch"@)),
        (None, None, Some(h)) => Some(join_path(join_path(h, ".config"@), "protofetch"@)),
        (None, None, None) => None,
    }
}

/// The directory of the configuration file, from the variables and home directory given.
pub fn config_dir(
    protofetch_config_dir: Option<String>,
    xdg_config_home: Option<String>,
    home: Option<String>,
) -> (r: Option<String>)
    ensures
        opt_view(r) == config_dir_spec(
            opt_view(protofetch_config_dir),
            opt_view(xdg_config_home),
            opt_view(home),
        ),
{
    match (protofetch_config_dir, xdg_config_home, home) {
        (Some(p), _, _) => Some(p),
        (None, Some(x), _) => Some(join_path_exec(x.as_str(), "protofetch")),
        (None, None, Some(h)) => {
            let c = join_path_exec(h.as_str(), ".config");
            Some(join_path_exec(c.as_str(), "protofetch"))
        },
        (None, None, None) => None,
    }
}

/// The default cache directory: `$XDG_CACHE_HOME/protofetch`, else
/// `~/.cache/protofetch`.
pub open spec fn default_cache_dir_spec(xdg_cache_home: Option<Seq<char>>, home: Option<Seq<char>>) -> Option<Seq<char>> {
    match (xdg_cache_home, home) {
        (Some(x), _) => Some(join_path(x, "protofetch"@)),
        (None, Some(h)) => Some(join_path(join_path(h, ".cache"@), "protofetch"@)),
        (None, None) => None,
    }
}

/// The default cache directory, from the variable and home directory given.
pub fn default_cache_dir(xdg_cache_home: Option<String>, home: Option<String>) -> (r: Option<String>)
    ensures
        opt_view(r) == default_cache_dir_spec(opt_view(xdg_cache_home), opt_view(home)),
{
    match (xdg_cache_home, home) {
        (Some(x), _) => Some(join_path_exec(x.as_str(), "protofetch")),
        (None, Some(h)) => {
            let c = join_path_exec(h.as_str(), ".cache");
            Some(join_path_exec(c.as_str(), "protofetch"))
        },
        (None, None) => None,
    }
}

} // verus!
