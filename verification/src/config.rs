//! The configuration: the threshold table and the scalar options beside it.

use vstd::prelude::*;
use crate::table::{at_temp, decide, inserted, is_smallest_qualifying, law_stable_sort_keeps_order,
    lemma_stable_sort_in_range, speeds_in_range, temps_in_range, FULL_SPEED, TEMP_CEILING, lemma_stable_sort_of_sorted, lookup, sort_entries, sorted,
    stable_sort, Speed, SpeedConfig, Temp};

verus! {

/// What can be wrong with a line of the table or with the probe's reply.
#[derive(Debug, Clone, Copy, PartialEq, Eq, Structural)]
pub enum ConfigError {
    NoTemp,
    TempNotNumber,
    NoSpeed,
    SpeedNotNumber,
    MeasureTempOutput,
}

/// The threshold table with the options of a run.
#[derive(Debug, Default, Clone, PartialEq, Eq)]
pub struct Config {
    pub verbose: bool,
    /// Seconds between two readings.
    pub delay: Option<u64>,
    /// A duty cycle to set once, in place of polling.
    pub force_speed: Option<u8>,
    pub help: bool,
    pub values: Vec<SpeedConfig>,
}

impl Config {
    /// The delay that a configuration without one is loaded with.
    pub fn default_delay() -> (d: Option<u64>)
        ensures
            d == Some(1000u64),
    {
        Some(1000)
    }

    /// The table is in ascending order of temperature.
    pub open spec fn well_formed(&self) -> bool {
        sorted(self.values@)
    }

    /// Adds a breakpoint and orders the table by temperature, breakpoints of
    /// equal temperature staying in the order in which they came.
    pub fn push(&mut self, speed: SpeedConfig)
        ensures
            final(self).values@ == stable_sort(old(self).values@.push(speed)),
            final(self).well_formed(),
            final(self).values@.to_multiset() == old(self).values@.to_multiset().insert(speed),
            old(self).well_formed() ==> final(self).values@ == inserted(old(self).values@, speed),
            forall|temp: Temp| #[trigger]
                at_temp(final(self).values@, temp) == at_temp(old(self).values@.push(speed), temp),
            speeds_in_range(old(self).values@) && speed.speed.0 <= FULL_SPEED ==> speeds_in_range(
                final(self).values@,
            ),
            temps_in_range(old(self).values@) && speed.temp.0 <= TEMP_CEILING ==> temps_in_range(
                final(self).values@,
            ),
            final(self).verbose == old(self).verbose,
            final(self).delay == old(self).delay,
            final(self).force_speed == old(self).force_speed,
            final(self).help == old(self).help,
    {
        proof {
            broadcast use vstd::seq_lib::group_to_multiset_ensures;

            let grown = old(self).values@.push(speed);
            assert(grown.drop_last() =~= old(self).values@);
            assert forall|temp: Temp| #[trigger]
                at_temp(stable_sort(grown), temp) == at_temp(grown, temp) by {
                law_stable_sort_keeps_order(grown, temp);
            }
            if old(self).well_formed() {
                lemma_stable_sort_of_sorted(old(self).values@);
            }
            lemma_stable_sort_in_range(grown);
        }
        self.values.push(speed);
        let ordered = sort_entries(&self.values);
        self.values = ordered;
    }

    /// The speed for a reading. In an ordered table it is that of the
    /// breakpoint with the smallest temperature at or above the reading, and
    /// the fallback where there is none. In any table it is that of the
    /// breakpoint where the run of breakpoints at or above the reading,
    /// counted from the table's end, begins.
    pub fn temp_speed(&self, temp: Temp) -> (speed: Speed)
        ensures
            speed == decide(self.values@, temp),
            self.well_formed() ==> is_smallest_qualifying(self.values@, temp, speed),
    {
        lookup(&self.values, temp)
    }
}

} // verus!
