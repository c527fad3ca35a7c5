//! The settings of a run.
use crate::digest::Mode;
use vstd::prelude::*;

verus! {

/// Why a run could not start.
#[derive(PartialEq, Eq, Structural, Clone, Copy, Debug)]
pub enum ConfigError {
    /// The worker count was zero.
    NoWorkers,
}

/// How files are hashed, and by how many workers at once.
#[derive(Clone, Copy, Debug)]
pub struct Config {
    pub mode: Mode,
    pub workers: usize,
}

impl Config {
    /// Settings for a run; a run needs at least one worker.
    pub fn new(mode: Mode, workers: usize) -> (r: Result<Config, ConfigError>)
        ensures
            workers == 0 ==> r == Err::<Config, ConfigError>(ConfigError::NoWorkers),
            workers > 0 ==> (r matches Ok(c) && c.mode == mode && c.workers == workers),
    {
        if workers == 0 {
            Err(ConfigError::NoWorkers)
        } else {
            Ok(Config { mode, workers })
        }
    }
}

} // verus!
