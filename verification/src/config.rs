//! Decisions taken on the configuration and on the data cache: the log
//! level named in the configuration, the sections it must have, and when
//! cached data is fetched again.
use vstd::prelude::*;

use crate::text::same_text;

verus! {

/// How much the planner logs, from everything to errors only.
#[derive(Debug, Clone, Copy, PartialEq, Eq, Structural)]
pub enum LogLevel {
    Trace,
    Debug,
    Info,
    Warn,
    Error,
}

/// The level a lowercase name gives: `trace`, `debug`, `info`, `warn`
/// and `error` name their levels, anything else means `Debug`.
pub open spec fn level_named(name: Seq<char>) -> LogLevel {
    if name == "trace"@ {
        LogLevel::Trace
    } else if name == "debug"@ {
        LogLevel::Debug
    } else if name == "info"@ {
        LogLevel::Info
    } else if name == "warn"@ {
        LogLevel::Warn
    } else if name == "error"@ {
        LogLevel::Error
    } else {
        LogLevel::Debug
    }
}

/// What `str::to_lowercase` gives for `s`.
pub uninterp spec fn lowercased(s: Seq<char>) -> Seq<char>;

/// Lowercases `s` with `str::to_lowercase`. Claimed: the result is
/// `lowercased(s)`, a function of the text alone.
#[verifier::external_body]
fn to_lowercase(s: &str) -> (r: String)
    ensures
        r@ == lowercased(s@),
{
    s.to_lowercase()
}

/// The level named by an already lowercase name (see `level_named`).
pub fn log_level_from_lowercase(name: &str) -> (level: LogLevel)
    ensures
        level == level_named(name@),
{
    if same_text(name, "trace") {
        LogLevel::Trace
    } else if same_text(name, "debug") {
        LogLevel::Debug
    } else if same_text(name, "info") {
        LogLevel::Info
    } else if same_text(name, "warn") {
        LogLevel::Warn
    } else if same_text(name, "error") {
        LogLevel::Error
    } else {
        LogLevel::Debug
    }
}

/// The level a configured name gives, letter case ignored: the name is
/// lowercased, then read as `log_level_from_lowercase` does.
pub fn parse_log_level(name: &str) -> (level: LogLevel)
    ensures
        level == level_named(lowercased(name@)),
{
    let lower = to_lowercase(name);
    log_level_from_lowercase(lower.as_str())
}

/// The sections the configuration must have, in the order they are
/// checked.
pub open spec fn required_sections() -> Seq<Seq<char>> {
    seq!["settings"@, "thresholds"@, "user"@, "route"@, "advanced"@]
}

/// Whether `names` holds `name`.
pub open spec fn has_name(names: Seq<Seq<char>>, name: Seq<char>) -> bool {
    exists|i: int| 0 <= i < names.len() && names[i] == name
}

fn contains_name(names: &Vec<String>, name: &str) -> (r: bool)
    ensures
        r == has_name(names.deep_view(), name@),
{
    let ghost all = names.deep_view();
    let mut i: usize = 0;
    while i < names.len()
        invariant
            all == names.deep_view(),
            i <= names@.len(),
            forall|j: int| 0 <= j < i ==> all[j] != name@,
        decreases names@.len() - i,
    {
        if same_text(names[i].as_str(), name) {
            assert(all[i as int] == name@);
            return true;
        }
        i = i + 1;
    }
    false
}

/// The first required section (see `required_sections`) that is not among
/// the configuration's top-level keys `present`; `None` when all are
/// there.
pub fn first_missing_section(present: &Vec<String>) -> (r: Option<String>)
    ensures
        match r {
            Some(name) => exists|k: int|
                0 <= k < 5 && name@ == required_sections()[k] && !has_name(
                    present.deep_view(),
                    required_sections()[k],
                ) && forall|j: int|
                    0 <= j < k ==> has_name(present.deep_view(), #[trigger] required_sections()[j]),
            None => forall|j: int|
                0 <= j < 5 ==> has_name(present.deep_view(), #[trigger] required_sections()[j]),
        },
{
    let names = ["settings", "thresholds", "user", "route", "advanced"];
    let mut k: usize = 0;
    while k < 5
        invariant
            k <= 5,
            forall|j: int| 0 <= j < 5 ==> (#[trigger] names@[j])@ == required_sections()[j],
            forall|j: int|
                0 <= j < k ==> has_name(present.deep_view(), #[trigger] required_sections()[j]),
        decreases 5 - k,
    {
        if !contains_name(present, names[k]) {
            return Some(String::from_str(names[k]));
        }
        k = k + 1;
    }
    None
}

/// Where data comes from: downloaded again, or read from the cache.
#[derive(Debug, Clone, Copy, PartialEq, Eq, Structural)]
pub enum DataSource {
    Fetch,
    Cache,
}

/// The universe data is downloaded again when there is no cache directory
/// or when the configuration asks for fresh data.
pub fn universe_source(cache_exists: bool, update_requested: bool) -> (s: DataSource)
    ensures
        s == (if !cache_exists || update_requested {
            DataSource::Fetch
        } else {
            DataSource::Cache
        }),
{
    if !cache_exists || update_requested {
        DataSource::Fetch
    } else {
        DataSource::Cache
    }
}

/// Nanoseconds in fifteen minutes, the age after which cached orders are
/// out of date.
pub const ORDERS_MAX_AGE_NANOS: u128 = 900_000_000_000;

/// Market orders are downloaded again when none are cached or when the
/// cached ones were written more than fifteen minutes before `now` (times
/// in nanoseconds).
pub fn orders_source(cached: bool, modified: u128, now: u128) -> (s: DataSource)
    ensures
        s == (if !cached || modified + ORDERS_MAX_AGE_NANOS < now {
            DataSource::Fetch
        } else {
            DataSource::Cache
        }),
{
    if !cached {
        DataSource::Fetch
    } else if modified < now && now - modified > ORDERS_MAX_AGE_NANOS {
        DataSource::Fetch
    } else {
        DataSource::Cache
    }
}

} // verus!
