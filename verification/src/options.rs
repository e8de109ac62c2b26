//! The options of the command line and how they bear on a loaded configuration.

use vstd::prelude::*;
use crate::config::Config;
use crate::table::{speeds_in_range, temps_in_range, Speed, SpeedConfig, Temp};

verus! {

/// What the command line said.
#[derive(Debug, Default, Clone, Copy, PartialEq, Eq)]
pub struct AppOptions {
    pub help: bool,
    pub verbose: Option<bool>,
    /// Report the current temperature and stop.
    pub read: bool,
    pub delay: Option<u64>,
    pub force_speed: Option<u8>,
    /// Produce the default configuration and stop.
    pub generate: bool,
}

/// What a run is for.
#[derive(Debug, Clone, Copy, PartialEq, Eq, Structural)]
pub enum Mode {
    /// Write the default configuration; nothing is loaded and no loop starts.
    Generate,
    /// Load the configuration, report one reading, and stop.
    ReadTemp,
    /// Load the configuration and control the fan.
    Run,
}

/// The breakpoints of the default configuration.
pub open spec fn default_table() -> Seq<SpeedConfig> {
    seq![
        SpeedConfig { temp: Temp(45), speed: Speed(0) },
        SpeedConfig { temp: Temp(54), speed: Speed(10) },
        SpeedConfig { temp: Temp(55), speed: Speed(50) },
        SpeedConfig { temp: Temp(65), speed: Speed(80) },
        SpeedConfig { temp: Temp(80), speed: Speed(100) },
    ]
}

impl AppOptions {
    /// What the run is for: generating comes before reading, reading before
    /// running.
    pub fn mode(&self) -> (m: Mode)
        ensures
            m == if self.generate {
                Mode::Generate
            } else if self.read {
                Mode::ReadTemp
            } else {
                Mode::Run
            },
    {
        if self.generate {
            Mode::Generate
        } else if self.read {
            Mode::ReadTemp
        } else {
            Mode::Run
        }
    }

    /// Lays the command line over a loaded configuration: `help` and the
    /// forced speed are taken from the command line as they are, `verbose` and
    /// the delay only where the command line names them. The table stays.
    pub fn apply(&self, config: &mut Config)
        ensures
            final(config).help == self.help,
            final(config).force_speed == self.force_speed,
            final(config).verbose == match self.verbose {
                Some(v) => v,
                None => old(config).verbose,
            },
            final(config).delay == match self.delay {
                Some(d) => Some(d),
                None => old(config).delay,
            },
            final(config).values == old(config).values,
    {
        config.help = self.help;
        if let Some(verbose) = self.verbose {
            config.verbose = verbose;
        }
        if let Some(delay) = self.delay {
            config.delay = Some(delay);
        }
        config.force_speed = self.force_speed;
    }
}

impl Config {
    /// The default configuration: five breakpoints in ascending order, a delay
    /// of 1000 seconds, nothing forced.
    pub fn generated() -> (config: Config)
        ensures
            config.values@ == default_table(),
            config.well_formed(),
            speeds_in_range(config.values@),
            temps_in_range(config.values@),
            config.delay == Some(1000u64),
            config.force_speed.is_none(),
            !config.help,
            !config.verbose,
    {
        let values: Vec<SpeedConfig> = vec![
            SpeedConfig { temp: Temp(45), speed: Speed(0) },
            SpeedConfig { temp: Temp(54), speed: Speed(10) },
            SpeedConfig { temp: Temp(55), speed: Speed(50) },
            SpeedConfig { temp: Temp(65), speed: Speed(80) },
            SpeedConfig { temp: Temp(80), speed: Speed(100) },
        ];
        proof {
            assert(values@ =~= default_table());
        }
        Config { verbose: false, delay: Some(1000), force_speed: None, help: false, values }
    }
}

} // verus!
