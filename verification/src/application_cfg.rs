//! Configuration of the server: the semaphores it provides and how it logs.
use crate::name_map::NameMap;
use vstd::prelude::*;
use vstd::string::*;

verus! {

/// Configuration for one Semaphore.
///
/// In the configuration file a semaphore is either given by its full count alone (`A = 42`), or
/// verbosely together with its lock level (`A = { max = 42, level = 1 }`). A lock level that is
/// not given is `0`.
#[derive(Debug, Clone, Copy, PartialEq, Eq)]
pub struct SemaphoreCfg {
    /// Full count of the semaphore.
    pub max: i64,
    /// While holding a mutex at level N one may only acquire mutices at lower levels.
    pub level: i32,
}

/// All configured semaphores by name.
pub type Semaphores = NameMap<SemaphoreCfg>;

/// Logging to standard error.
pub struct StdErrConfig {
    /// E.g. "INFO" or "DEBUG"
    pub level: String,
}

impl Default for StdErrConfig {
    /// Logs warnings and errors.
    fn default() -> (c: Self)
        ensures
            c.level@ == "WARN"@,
    {
        StdErrConfig { level: String::from_str("WARN") }
    }
}

/// Controls logging behaviour of throttle. Set via the configuration file.
pub struct LoggingConfig {
    pub stderr: StdErrConfig,
}

impl Default for LoggingConfig {
    fn default() -> (c: Self)
        ensures
            c.stderr.level@ == "WARN"@,
    {
        LoggingConfig { stderr: StdErrConfig::default() }
    }
}

/// Configuration of the application. A missing configuration file amounts to the default: no
/// semaphores, and logging of warnings to standard error.
pub struct ApplicationCfg {
    pub semaphores: Semaphores,
    pub logging: LoggingConfig,
}

impl Default for ApplicationCfg {
    fn default() -> (c: Self)
        ensures
            c.semaphores.wf(),
            c.semaphores.entries() == Seq::<(Seq<char>, SemaphoreCfg)>::empty(),
            c.logging.stderr.level@ == "WARN"@,
    {
        ApplicationCfg { semaphores: NameMap::new(), logging: LoggingConfig::default() }
    }
}

} // verus!
