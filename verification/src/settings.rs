//! Where configuration and the index live, and how the global and local
//! configurations combine into the one a command runs with.
use vstd::prelude::*;
use crate::config::{
    Config, ConfigView, copy_string, default_config_view, merge_spec, opt_string_view, strings_view,
};
use crate::paths::{join, join_path, resolve_scan, resolve_scan_path};
use crate::text::{decimal_padded, decimal_padded_string, push_str};

verus! {

pub open spec fn config_file_name() -> Seq<char> {
    ".agent-skills.yaml"@
}

pub open spec fn index_file_name() -> Seq<char> {
    ".skills-index.json"@
}

/// `dirs::home_dir`, as text: the home directory as the platform reports it
/// (on Unix `$HOME`, else the password database), `None` when unknown.
/// Nothing is stated of the result: it comes from the environment.
#[verifier::external_body]
fn home_dir_text() -> (r: Option<String>)
{
    match dirs::home_dir() {
        Some(p) => Some(p.to_string_lossy().into_owned()),
        None => None,
    }
}

/// The directory that a platform report gives: the reported one, or `.`
/// when none was reported.
pub open spec fn reported_or_current(reported: Option<Seq<char>>) -> Seq<char> {
    match reported {
        Some(h) => h,
        None => "."@,
    }
}

/// The directory for what the platform reported (see [`reported_or_current`]).
pub fn home_from_report(reported: Option<String>) -> (r: String)
    ensures
        r@ == reported_or_current(opt_string_view(reported)),
{
    match reported {
        Some(h) => h,
        None => ".".to_owned(),
    }
}

/// The home directory, or `.` when it is unknown. Which directory the
/// platform reports depends on the environment and is not stated; what is
/// done with the report is [`home_from_report`].
pub fn home_dir() -> (r: String)
{
    home_from_report(home_dir_text())
}

/// `dirs::config_dir`, as text: the platform's configuration directory
/// (on Linux `$XDG_CONFIG_HOME` or `~/.config`), `None` when unknown.
/// Nothing is stated of the result: it comes from the environment.
#[verifier::external_body]
fn config_dir_text() -> (r: Option<String>)
{
    match dirs::config_dir() {
        Some(p) => Some(p.to_string_lossy().into_owned()),
        None => None,
    }
}

/// `dirs::cache_dir`, as text: the platform's cache directory (on Linux
/// `$XDG_CACHE_HOME` or `~/.cache`), `None` when unknown. Nothing is
/// stated of the result: it comes from the environment.
#[verifier::external_body]
fn cache_dir_text() -> (r: Option<String>)
{
    match dirs::cache_dir() {
        Some(p) => Some(p.to_string_lossy().into_owned()),
        None => None,
    }
}

/// The `nanoskills` directory inside a platform directory.
pub open spec fn nanoskills_dir(base: Seq<char>) -> Seq<char> {
    join(base, "nanoskills"@)
}

/// The `nanoskills` directory inside the directory the platform reported,
/// or inside `.` when it reported none.
pub fn nanoskills_dir_in(reported: Option<String>) -> (r: String)
    ensures
        r@ == nanoskills_dir(reported_or_current(opt_string_view(reported))),
{
    let base = home_from_report(reported);
    join_path(base.as_str(), "nanoskills")
}

/// The global configuration directory of this user: `nanoskills` in the
/// platform's configuration directory (see [`nanoskills_dir_in`]).
pub fn global_config_dir() -> (r: String)
    ensures
        exists|base: Seq<char>| r@ == nanoskills_dir(base),
{
    nanoskills_dir_in(config_dir_text())
}

/// Resolves the configuration from the global and the local directory.
pub struct ConfigResolver {
    pub global_config_dir: String,
    pub local_config_dir: String,
}

/// The configuration that results from the global and local files (each
/// present or not): merged when both exist, the one that exists, or the
/// defaults; then the global `skills` directory goes first among the scan
/// paths unless it is listed already.
pub open spec fn resolved_config(global_dir: Seq<char>, global: Option<ConfigView>, local: Option<ConfigView>) -> ConfigView {
    let c = match (global, local) {
        (Some(g), Some(l)) => merge_spec(g, l),
        (Some(g), None) => g,
        (None, Some(l)) => l,
        (None, None) => default_config_view(),
    };
    with_default_skills_path(global_dir, c)
}

pub open spec fn default_skills_path(global_dir: Seq<char>) -> Seq<char> {
    join(global_dir, "skills"@)
}

pub open spec fn with_default_skills_path(global_dir: Seq<char>, c: ConfigView) -> ConfigView {
    let d = default_skills_path(global_dir);
    if c.scan_paths.contains(d) {
        c
    } else {
        ConfigView { scan_paths: seq![d] + c.scan_paths, ..c }
    }
}

pub open spec fn opt_config_view(c: Option<Config>) -> Option<ConfigView> {
    match c {
        Some(x) => Some(x@),
        None => None,
    }
}

impl ConfigResolver {
    /// A resolver for the given directories.
    pub fn with_dirs(global_config_dir: String, local_config_dir: String) -> (r: ConfigResolver)
        ensures
            r.global_config_dir == global_config_dir,
            r.local_config_dir == local_config_dir,
    {
        ConfigResolver { global_config_dir, local_config_dir }
    }

    /// A resolver for this user's global directory and `local_dir`.
    pub fn new(local_dir: &str) -> (r: ConfigResolver)
        ensures
            r.local_config_dir@ == local_dir@,
            exists|base: Seq<char>| r.global_config_dir@ == nanoskills_dir(base),
    {
        ConfigResolver { global_config_dir: global_config_dir(), local_config_dir: local_dir.to_owned() }
    }

    /// Path of the global configuration file.
    pub fn global_config_path(&self) -> (r: String)
        ensures
            r@ == join(self.global_config_dir@, config_file_name()),
    {
        join_path(self.global_config_dir.as_str(), ".agent-skills.yaml")
    }

    /// Path of the local configuration file.
    pub fn local_config_path(&self) -> (r: String)
        ensures
            r@ == join(self.local_config_dir@, config_file_name()),
    {
        join_path(self.local_config_dir.as_str(), ".agent-skills.yaml")
    }

    /// Combines the global and local configurations, as they were read
    /// from their files.
    pub fn resolve(&self, global: Option<Config>, local: Option<Config>) -> (c: Config)
        ensures
            c@ == resolved_config(self.global_config_dir@, opt_config_view(global), opt_config_view(local)),
    {
        let mut config = match (global, local) {
            (Some(g), Some(l)) => g.merge(&l),
            (Some(g), None) => g,
            (None, Some(l)) => l,
            (None, None) => Config::default_config(),
        };
        self.add_default_skills_path(&mut config);
        config
    }

    /// Puts the global `skills` directory first among the scan paths
    /// unless it is there already.
    pub fn add_default_skills_path(&self, config: &mut Config)
        ensures
            final(config)@ == with_default_skills_path(self.global_config_dir@, old(config)@),
    {
        let d = join_path(self.global_config_dir.as_str(), "skills");
        if !crate::config::contains_string(&config.scan_paths, &d) {
            let ghost before = strings_view(config.scan_paths@);
            config.scan_paths.insert(0, d);
            assert(strings_view(config.scan_paths@) =~= seq![d@] + before);
        }
    }

    /// The directory holding the index cache: `nanoskills` in the
    /// platform's cache directory (see [`nanoskills_dir_in`]).
    pub fn get_cache_dir() -> (r: String)
        ensures
            exists|base: Seq<char>| r@ == nanoskills_dir(base),
    {
        nanoskills_dir_in(cache_dir_text())
    }
}

/// Resolves the configuration for `local_dir` from the contents of the
/// global and local files.
pub fn resolve_config(local_dir: &str, global: Option<Config>, local: Option<Config>) -> (c: Config)
    ensures
        exists|base: Seq<char>|
            c@ == resolved_config(nanoskills_dir(base), opt_config_view(global), opt_config_view(local)),
{
    let resolver = ConfigResolver::new(local_dir);
    resolver.resolve(global, local)
}

/// What reading a configuration file gave: no file, a file that could not
/// be read or parsed, or the parsed configuration.
pub enum ConfigRead {
    Missing,
    Unusable,
    Parsed(Config),
}

/// A configuration read from a file in `base_dir`, with its scan paths
/// made absolute (see [`resolve_scan`]).
pub open spec fn absolutized(c: ConfigView, base_dir: Seq<char>, home: Seq<char>) -> ConfigView {
    ConfigView { scan_paths: c.scan_paths.map_values(|p: Seq<char>| resolve_scan(base_dir, home, p)), ..c }
}

/// The configuration a file in `base_dir` contributes: the parsed one with
/// absolute scan paths; none when the file is missing or unusable.
pub open spec fn contributed(r: ConfigRead, base_dir: Seq<char>, home: Seq<char>) -> Option<ConfigView> {
    match r {
        ConfigRead::Parsed(c) => Some(absolutized(c@, base_dir, home)),
        _ => None,
    }
}

impl ConfigResolver {
    /// Resolves the configuration from what reading the global and the local
    /// file gave: a missing, unreadable or unparseable file counts as
    /// absent, so resolving never fails; the scan paths of each file are
    /// made absolute against its directory and `home`, and the two are then
    /// combined as [`ConfigResolver::resolve`] does.
    pub fn resolve_reads(&self, home: &str, global: ConfigRead, local: ConfigRead) -> (c: Config)
        ensures
            c@ == resolved_config(
                self.global_config_dir@,
                contributed(global, self.global_config_dir@, home@),
                contributed(local, self.local_config_dir@, home@),
            ),
    {
        let g = match global {
            ConfigRead::Parsed(mut c) => {
                absolutize_scan_paths(self.global_config_dir.as_str(), home, &mut c);
                Some(c)
            },
            _ => None,
        };
        let l = match local {
            ConfigRead::Parsed(mut c) => {
                absolutize_scan_paths(self.local_config_dir.as_str(), home, &mut c);
                Some(c)
            },
            _ => None,
        };
        self.resolve(g, l)
    }
}

/// Makes every scan path of a configuration read from a file in `base_dir`
/// absolute (see [`resolve_scan`]).
pub fn absolutize_scan_paths(base_dir: &str, home: &str, config: &mut Config)
    ensures
        strings_view(final(config).scan_paths@) == strings_view(old(config).scan_paths@).map_values(
            |p: Seq<char>| resolve_scan(base_dir@, home@, p),
        ),
        final(config).ignore_patterns == old(config).ignore_patterns,
        final(config).max_file_size == old(config).max_file_size,
        final(config).search_limit == old(config).search_limit,
        final(config).cache_ttl_seconds == old(config).cache_ttl_seconds,
        final(config).copy_to_clipboard_on_pick == old(config).copy_to_clipboard_on_pick,
        final(config).language == old(config).language,
{
    let ghost before = strings_view(config.scan_paths@);
    let mut out: Vec<String> = Vec::new();
    let mut i: usize = 0;
    while i < config.scan_paths.len()
        invariant
            i <= config.scan_paths.len(),
            before == strings_view(config.scan_paths@),
            out@.len() == i,
            forall|k: int| 0 <= k < i ==> (#[trigger] out@[k])@ == resolve_scan(base_dir@, home@, before[k]),
        decreases config.scan_paths.len() - i,
    {
        out.push(resolve_scan_path(base_dir, home, config.scan_paths[i].as_str()));
        i += 1;
    }
    config.scan_paths = out;
    assert(strings_view(config.scan_paths@) =~= before.map_values(|p: Seq<char>| resolve_scan(base_dir@, home@, p)));
}

/// The configuration `init` writes into the global directory: scan its
/// `skills` directory.
pub fn default_global_config() -> (c: Config)
    ensures
        c@ == (ConfigView { scan_paths: seq!["skills"@], ..default_config_view() }),
{
    let mut c = Config::default_config();
    let mut paths: Vec<String> = Vec::new();
    paths.push("skills".to_owned());
    c.scan_paths = paths;
    assert(strings_view(c.scan_paths@) =~= seq!["skills"@]);
    c
}

/// The configuration `init` writes into a local directory.
pub fn default_local_config() -> (c: Config)
    ensures
        c@ == default_config_view(),
{
    Config::default_config()
}

/// Why `init` refused to write a configuration.
pub enum InitError {
    /// A configuration file is there already and `force` was not given.
    ConfigExists { path: String },
}

/// Decides whether `init` may write the configuration file at `path`.
pub fn check_init(path: &str, present: bool, force: bool) -> (r: Result<(), InitError>)
    ensures
        r is Ok <==> (!present || force),
        r matches Err(InitError::ConfigExists { path: p }) ==> p@ == path@,
{
    if present && !force {
        Err(InitError::ConfigExists { path: path.to_owned() })
    } else {
        Ok(())
    }
}

/// What `init` writes for the directory `path`: the file path and the
/// default configuration.
pub fn init_config(path: &str) -> (r: (String, Config))
    ensures
        r.0@ == join(path@, config_file_name()),
        r.1@ == default_config_view(),
{
    (join_path(path, ".agent-skills.yaml"), Config::default_config())
}

/// The search limit a command uses: the requested one, else the
/// configured one.
pub fn resolve_search_limit(config: &Config, requested: Option<usize>) -> (n: usize)
    ensures
        n == match requested {
            Some(r) => r,
            None => config.search_limit,
        },
{
    match requested {
        Some(r) => r,
        None => config.search_limit,
    }
}

/// The interface language the configuration asks for.
pub fn detect_language(config: &Config) -> (r: Option<String>)
    ensures
        opt_string_view(r) == config@.language,
{
    match &config.language {
        Some(l) => Some(copy_string(l)),
        None => None,
    }
}

/// Builds and stores the index for a configuration.
pub struct IndexManager {
    pub config: Config,
    pub index_path: String,
}

impl IndexManager {
    /// A manager keeping its index in `index_dir`.
    pub fn new(config: Config, index_dir: &str) -> (m: IndexManager)
        ensures
            m.config == config,
            m.index_path@ == join(index_dir@, index_file_name()),
    {
        IndexManager { config, index_path: join_path(index_dir, ".skills-index.json") }
    }
}

/// A calendar-like rendering of a time stamp, as `YYYY-MM-DDTHH:MM:SS`
/// with 365-day years and 30-day months from 1970.
pub open spec fn clock_text(secs: nat) -> Seq<char> {
    let days = secs / 86400;
    decimal_padded(1970 + days / 365, 4) + "-"@ + decimal_padded(days % 365 / 30 + 1, 2) + "-"@
        + decimal_padded(days % 365 % 30 + 1, 2) + "T"@ + decimal_padded(secs % 86400 / 3600, 2) + ":"@
        + decimal_padded(secs % 3600 / 60, 2) + ":"@ + decimal_padded(secs % 60, 2)
}

pub fn chrono_like_format(secs: u64) -> (r: String)
    ensures
        r@ == clock_text(secs as nat),
{
    let days = secs / 86400;
    let years = 1970 + days / 365;
    let remaining_days = days % 365;
    let month = remaining_days / 30 + 1;
    let day = remaining_days % 30 + 1;
    let hours = (secs % 86400) / 3600;
    let minutes = (secs % 3600) / 60;
    let seconds = secs % 60;
    let mut s = decimal_padded_string(years, 4);
    push_str(&mut s, "-");
    push_str(&mut s, decimal_padded_string(month, 2).as_str());
    push_str(&mut s, "-");
    push_str(&mut s, decimal_padded_string(day, 2).as_str());
    push_str(&mut s, "T");
    push_str(&mut s, decimal_padded_string(hours, 2).as_str());
    push_str(&mut s, ":");
    push_str(&mut s, decimal_padded_string(minutes, 2).as_str());
    push_str(&mut s, ":");
    push_str(&mut s, decimal_padded_string(seconds, 2).as_str());
    s
}

/// A time stamp: the calendar-like rendering followed by `Z`.
pub fn timestamp_at(secs: u64) -> (r: String)
    ensures
        r@ == clock_text(secs as nat).push('Z'),
{
    let mut s = chrono_like_format(secs);
    s.push('Z');
    s
}

/// The time stamp of this moment; the clock reading is not stated.
pub fn current_timestamp() -> (r: String)
    ensures
        exists|secs: u64| r@ == clock_text(secs as nat).push('Z'),
{
    timestamp_at(crate::clock::seconds_since_epoch())
}

} // verus!
