//! The text forms: a temperature, a speed, a breakpoint line, and the reply
//! of the temperature probe.

use vstd::prelude::*;
use crate::config::{Config, ConfigError};
use crate::number::{decimal_text, least, lemma_decimal_text_in_range,
    lemma_whole_text_nonnegative, parse_decimal, parse_whole, whole_text};
use crate::table::{lemma_inserted_in_range, speeds_in_range, stable_sort, temps_in_range, Speed,
    SpeedConfig, Temp, FULL_SPEED, TEMP_CEILING};
use crate::text::{chars_of, find, find_char, remove_all, slice_of, trim, trimmed,
    without};

verus! {

/// The unit marker that may follow a temperature.
pub open spec fn degree_mark() -> Seq<char> {
    seq!['\'', 'C']
}

/// The label that the probe puts before its reading.
pub open spec fn probe_label() -> Seq<char> {
    seq!['t', 'e', 'm', 'p', '=']
}

/// What `s` says as a temperature: the unit marker is taken out wherever it
/// stands; text with a point is read as a decimal number and rounded, other
/// text as a whole number. Either is held down to the ceiling; text that is
/// no number is `TempNotNumber`.
pub open spec fn temp_text(s: Seq<char>) -> Result<Temp, ConfigError> {
    let bare = without(s, degree_mark());
    if find(bare, '.') < bare.len() {
        match decimal_text(bare) {
            Some(n) => Ok(Temp(n)),
            None => Err(ConfigError::TempNotNumber),
        }
    } else {
        match whole_text(bare) {
            Some(n) => Ok(Temp(least(n, TEMP_CEILING as int) as u8)),
            None => Err(ConfigError::TempNotNumber),
        }
    }
}

/// What `s` says as a speed: a whole number from 0 to the full speed. Any
/// other text, a greater number too, is `SpeedNotNumber`.
pub open spec fn speed_text(s: Seq<char>) -> Result<Speed, ConfigError> {
    match whole_text(s) {
        Some(n) => if n <= FULL_SPEED {
            Ok(Speed(n as u8))
        } else {
            Err(ConfigError::SpeedNotNumber)
        },
        None => Err(ConfigError::SpeedNotNumber),
    }
}

/// What the line `s` says as a breakpoint. The temperature is the text before
/// the first `=`, the speed the text between the first `=` and the second (or
/// the end). The temperature is judged first; a line without `=` has no speed.
pub open spec fn entry_text(s: Seq<char>) -> Result<SpeedConfig, ConfigError> {
    let eq = find(s, '=');
    let rest = s.skip(eq + 1);
    match temp_text(s.take(eq)) {
        Err(e) => Err(e),
        Ok(temp) => if eq >= s.len() {
            Err(ConfigError::NoSpeed)
        } else {
            match speed_text(rest.take(find(rest, '='))) {
                Err(e) => Err(e),
                Ok(speed) => Ok(SpeedConfig { temp, speed }),
            }
        },
    }
}

/// What the probe's reply says: its label is taken out wherever it stands,
/// then the white space at both ends, and the rest is read as a temperature.
/// A reply that holds no temperature is `MeasureTempOutput`.
pub open spec fn probe_text(s: Seq<char>) -> Result<Temp, ConfigError> {
    match temp_text(trimmed(without(s, probe_label()))) {
        Ok(temp) => Ok(temp),
        Err(_) => Err(ConfigError::MeasureTempOutput),
    }
}

/// A temperature read from text is at most the ceiling.
pub proof fn lemma_temp_text_in_range(s: Seq<char>)
    ensures
        temp_text(s) matches Ok(t) ==> t.0 <= TEMP_CEILING,
        probe_text(s) matches Ok(t) ==> t.0 <= TEMP_CEILING,
{
    let bare = without(s, degree_mark());
    lemma_decimal_text_in_range(bare);
    lemma_whole_text_nonnegative(bare);
    let core = without(trimmed(without(s, probe_label())), degree_mark());
    lemma_decimal_text_in_range(core);
    lemma_whole_text_nonnegative(core);
}

/// A speed read from text is at most the full speed.
pub proof fn lemma_speed_text_in_range(s: Seq<char>)
    ensures
        speed_text(s) matches Ok(v) ==> v.0 <= FULL_SPEED,
{
    lemma_whole_text_nonnegative(s);
}

/// A breakpoint read from a line has its temperature and its speed in range.
pub proof fn lemma_entry_text_in_range(s: Seq<char>)
    ensures
        entry_text(s) matches Ok(e) ==> e.temp.0 <= TEMP_CEILING && e.speed.0 <= FULL_SPEED,
{
    let eq = find(s, '=');
    let rest = s.skip(eq + 1);
    lemma_temp_text_in_range(s.take(eq));
    lemma_speed_text_in_range(rest.take(find(rest, '=')));
}

impl Temp {
    /// Reads a temperature from its characters.
    pub fn from_chars(s: &Vec<char>) -> (r: Result<Temp, ConfigError>)
        ensures
            r == temp_text(s@),
            r matches Ok(t) ==> t.0 <= TEMP_CEILING,
    {
        let mark: Vec<char> = vec!['\'', 'C'];
        proof {
            assert(mark@ =~= degree_mark());
            lemma_temp_text_in_range(s@);
        }
        let bare = remove_all(s, &mark);
        if find_char(&bare, '.') < bare.len() {
            match parse_decimal(&bare) {
                Some(n) => Ok(Temp(n)),
                None => Err(ConfigError::TempNotNumber),
            }
        } else {
            proof {
                lemma_whole_text_nonnegative(bare@);
            }
            match parse_whole(&bare, 101) {
                Some(n) => Ok(Temp(n as u8)),
                None => Err(ConfigError::TempNotNumber),
            }
        }
    }

    /// Reads a temperature such as `54`, `54'C` or `37.6'C`.
    pub fn from_str(s: &str) -> (r: Result<Temp, ConfigError>)
        ensures
            r == temp_text(s@),
            r matches Ok(t) ==> t.0 <= TEMP_CEILING,
    {
        let chars = chars_of(s);
        Temp::from_chars(&chars)
    }
}

impl Speed {
    /// Reads a speed from its characters.
    pub fn from_chars(s: &Vec<char>) -> (r: Result<Speed, ConfigError>)
        ensures
            r == speed_text(s@),
            r matches Ok(v) ==> v.0 <= FULL_SPEED,
    {
        proof {
            lemma_whole_text_nonnegative(s@);
        }
        match parse_whole(s, 101) {
            Some(n) => if n <= 100 {
                Ok(Speed(n as u8))
            } else {
                Err(ConfigError::SpeedNotNumber)
            },
            None => Err(ConfigError::SpeedNotNumber),
        }
    }

    /// Reads a speed such as `80`.
    pub fn from_str(s: &str) -> (r: Result<Speed, ConfigError>)
        ensures
            r == speed_text(s@),
            r matches Ok(v) ==> v.0 <= FULL_SPEED,
    {
        let chars = chars_of(s);
        Speed::from_chars(&chars)
    }
}

impl SpeedConfig {
    /// Reads a breakpoint from the characters of its line.
    pub fn from_chars(s: &Vec<char>) -> (r: Result<SpeedConfig, ConfigError>)
        ensures
            r == entry_text(s@),
            r matches Ok(e) ==> e.temp.0 <= TEMP_CEILING && e.speed.0 <= FULL_SPEED,
    {
        let eq = find_char(s, '=');
        let temp_field = slice_of(s, 0, eq);
        proof {
            assert(s@.subrange(0, eq as int) =~= s@.take(eq as int));
        }
        let temp = match Temp::from_chars(&temp_field) {
            Ok(t) => t,
            Err(e) => {
                return Err(e);
            },
        };
        if eq >= s.len() {
            return Err(ConfigError::NoSpeed);
        }
        let rest = slice_of(s, eq + 1, s.len());
        proof {
            assert(s@.subrange(eq + 1, s.len() as int) =~= s@.skip(eq + 1));
        }
        let end = find_char(&rest, '=');
        let speed_field = slice_of(&rest, 0, end);
        proof {
            assert(rest@.subrange(0, end as int) =~= rest@.take(end as int));
        }
        match Speed::from_chars(&speed_field) {
            Ok(speed) => Ok(SpeedConfig { temp, speed }),
            Err(e) => Err(e),
        }
    }

    /// Reads a breakpoint line such as `54'C=10`.
    pub fn from_str(s: &str) -> (r: Result<SpeedConfig, ConfigError>)
        ensures
            r == entry_text(s@),
            r matches Ok(e) ==> e.temp.0 <= TEMP_CEILING && e.speed.0 <= FULL_SPEED,
    {
        let chars = chars_of(s);
        SpeedConfig::from_chars(&chars)
    }
}

impl core::str::FromStr for Temp {
    type Err = ConfigError;

    /// What `str::parse` calls: reads as the inherent `from_str` does.
    fn from_str(s: &str) -> (r: Result<Temp, ConfigError>)
        ensures
            r == temp_text(s@),
            r matches Ok(t) ==> t.0 <= TEMP_CEILING,
    {
        Temp::from_chars(&chars_of(s))
    }
}

impl core::str::FromStr for Speed {
    type Err = ConfigError;

    /// What `str::parse` calls: reads as the inherent `from_str` does.
    fn from_str(s: &str) -> (r: Result<Speed, ConfigError>)
        ensures
            r == speed_text(s@),
            r matches Ok(v) ==> v.0 <= FULL_SPEED,
    {
        Speed::from_chars(&chars_of(s))
    }
}

impl core::str::FromStr for SpeedConfig {
    type Err = ConfigError;

    /// What `str::parse` calls: reads as the inherent `from_str` does.
    fn from_str(s: &str) -> (r: Result<SpeedConfig, ConfigError>)
        ensures
            r == entry_text(s@),
            r matches Ok(e) ==> e.temp.0 <= TEMP_CEILING && e.speed.0 <= FULL_SPEED,
    {
        SpeedConfig::from_chars(&chars_of(s))
    }
}

/// A line that says nothing: an empty one, or a comment.
pub open spec fn ignored_line(line: Seq<char>) -> bool {
    line.len() == 0 || line[0] == '#'
}

/// `front` put before the breakpoints of `later`, or the error of `later`.
pub open spec fn prepended(
    front: Seq<SpeedConfig>,
    later: Result<Seq<SpeedConfig>, ConfigError>,
) -> Result<Seq<SpeedConfig>, ConfigError> {
    match later {
        Err(e) => Err(e),
        Ok(entries) => Ok(front + entries),
    }
}

/// The breakpoints that the text `s` lists, in its order, one to a line. Each
/// line is trimmed; empty lines and lines that begin with `#` say nothing. The
/// first line that is no breakpoint makes the whole text an error: its own.
pub open spec fn table_entries(s: Seq<char>) -> Result<Seq<SpeedConfig>, ConfigError>
    decreases s.len(),
{
    if s.len() == 0 {
        Ok(Seq::empty())
    } else {
        let nl = find(s, '\n');
        let line = trimmed(s.take(nl));
        let rest = if 0 <= nl < s.len() {
            s.skip(nl + 1)
        } else {
            Seq::empty()
        };
        if ignored_line(line) {
            table_entries(rest)
        } else {
            match entry_text(line) {
                Err(e) => Err(e),
                Ok(entry) => prepended(seq![entry], table_entries(rest)),
            }
        }
    }
}

/// `r` is what reading the table text `s` gives: the error of the first line
/// that is no breakpoint, or a configuration that holds the breakpoints of the
/// text ordered by temperature, those of equal temperature in the order of
/// their lines, every temperature and speed in its range, with the default
/// delay and no other option set.
pub open spec fn is_reading_of(r: Result<Config, ConfigError>, s: Seq<char>) -> bool {
    match table_entries(s) {
        Err(e) => r matches Err(x) && x == e,
        Ok(entries) => r matches Ok(config) && config.values@ == stable_sort(entries)
            && config.well_formed() && speeds_in_range(config.values@) && temps_in_range(
            config.values@,
        ) && !config.verbose && !config.help && config.delay == Some(1000u64)
            && config.force_speed.is_none(),
    }
}

impl Config {
    /// Reads a table from text, one `temperature=speed` line for each
    /// breakpoint, into a configuration with the default delay and no other
    /// option set. The table is ordered by temperature, breakpoints of equal
    /// temperature in the order of their lines. One bad line fails the whole.
    pub fn from_text(text: &str) -> (r: Result<Config, ConfigError>)
        ensures
            is_reading_of(r, text@),
    {
        let chars = chars_of(text);
        Config::from_chars(&chars)
    }

    /// Reads a table from the characters of its text, as `from_text` does.
    pub fn from_chars(s: &Vec<char>) -> (r: Result<Config, ConfigError>)
        ensures
            is_reading_of(r, s@),
    {
        let mut config = Config {
            verbose: false,
            delay: Config::default_delay(),
            force_speed: None,
            help: false,
            values: Vec::new(),
        };
        let ghost mut seen: Seq<SpeedConfig> = Seq::empty();
        let mut i: usize = 0;
        proof {
            assert(s@.skip(0) =~= s@);
            match table_entries(s@) {
                Ok(entries) => {
                    assert(seen + entries =~= entries);
                },
                Err(_) => {},
            }
        }
        while i < s.len()
            invariant
                i <= s.len(),
                config.values@ == stable_sort(seen),
                config.well_formed(),
                speeds_in_range(config.values@),
                temps_in_range(config.values@),
                !config.verbose,
                !config.help,
                config.delay == Some(1000u64),
                config.force_speed.is_none(),
                table_entries(s@) == prepended(seen, table_entries(s@.skip(i as int))),
            decreases s.len() - i,
        {
            let cur = slice_of(s, i, s.len());
            let nl = find_char(&cur, '\n');
            let raw = slice_of(&cur, 0, nl);
            let line = trim(&raw);
            let after: usize = if nl < cur.len() {
                i + nl + 1
            } else {
                s.len()
            };
            let ghost rest = s@.skip(after as int);
            proof {
                assert(cur@ =~= s@.skip(i as int));
                assert(raw@ =~= cur@.take(nl as int));
                if nl < cur.len() {
                    assert(cur@.skip(nl + 1) =~= rest);
                } else {
                    assert(rest =~= Seq::<char>::empty());
                }
            }
            if !(line.len() == 0 || line[0] == '#') {
                match SpeedConfig::from_chars(&line) {
                    Err(e) => {
                        return Err(e);
                    },
                    Ok(entry) => {
                        proof {
                            assert(seen.push(entry).drop_last() =~= seen);
                            match table_entries(rest) {
                                Ok(later) => {
                                    assert(seen.push(entry) + later =~= seen + (seq![entry]
                                        + later));
                                },
                                Err(_) => {},
                            }
                            seen = seen.push(entry);
                        }
                        config.push(entry);
                    },
                }
            }
            i = after;
        }
        proof {
            assert(seen + Seq::<SpeedConfig>::empty() =~= seen);
        }
        Ok(config)
    }
}

/// Reads the temperature out of the probe's reply, such as `temp=37.6'C`.
pub fn parse_probe_reply(reply: &str) -> (r: Result<Temp, ConfigError>)
    ensures
        r == probe_text(reply@),
        r matches Ok(t) ==> t.0 <= TEMP_CEILING,
{
    let chars = chars_of(reply);
    let label: Vec<char> = vec!['t', 'e', 'm', 'p', '='];
    proof {
        assert(label@ =~= probe_label());
    }
    let bare = remove_all(&chars, &label);
    let core = trim(&bare);
    match Temp::from_chars(&core) {
        Ok(temp) => Ok(temp),
        Err(_) => Err(ConfigError::MeasureTempOutput),
    }
}

/// The reading of one probe run: `reply` is what the probe printed, or `None`
/// where it could not be run. A probe that could not be run and a reply that
/// holds no temperature are both `MeasureTempOutput`.
pub fn probe_reading(reply: Option<&str>) -> (r: Result<Temp, ConfigError>)
    ensures
        r == match reply {
            Some(text) => probe_text(text@),
            None => Err(ConfigError::MeasureTempOutput),
        },
        r matches Ok(t) ==> t.0 <= TEMP_CEILING,
        r matches Err(e) ==> e == ConfigError::MeasureTempOutput,
{
    match reply {
        Some(text) => parse_probe_reply(text),
        None => Err(ConfigError::MeasureTempOutput),
    }
}

} // verus!
