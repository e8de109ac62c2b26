//! The table written out as text, and the proof that reading the text gives
//! the table back.

use vstd::prelude::*;
use crate::config::{Config, ConfigError};
use crate::number::{all_digits, digit_value, is_digit, number, whole_text};
use crate::parse::{degree_mark, entry_text, ignored_line, is_reading_of, speed_text,
    table_entries, temp_text};
use crate::table::{lemma_stable_sort_of_sorted, sorted, speeds_in_range, temps_in_range, Speed,
    SpeedConfig, Temp, FULL_SPEED, TEMP_CEILING};
use crate::text::{lemma_find_is, starts_with, trim_end, trim_start, trimmed, without};

verus! {

/// The character that writes the digit `d`.
pub open spec fn digit_char(d: int) -> char {
    if d == 0 {
        '0'
    } else if d == 1 {
        '1'
    } else if d == 2 {
        '2'
    } else if d == 3 {
        '3'
    } else if d == 4 {
        '4'
    } else if d == 5 {
        '5'
    } else if d == 6 {
        '6'
    } else if d == 7 {
        '7'
    } else if d == 8 {
        '8'
    } else {
        '9'
    }
}

/// The digits that write `n` in base ten, without leading zeros.
pub open spec fn digits_of(n: nat) -> Seq<char>
    decreases n,
{
    if n < 10 {
        seq![digit_char(n as int)]
    } else {
        digits_of(n / 10).push(digit_char((n % 10) as int))
    }
}

/// A breakpoint as a line: its temperature, `=`, its speed.
pub open spec fn entry_line(entry: SpeedConfig) -> Seq<char> {
    digits_of(entry.temp.0 as nat) + seq!['='] + digits_of(entry.speed.0 as nat)
}

/// A table as text: the line of each breakpoint, each ended by a line feed.
pub open spec fn table_text(values: Seq<SpeedConfig>) -> Seq<char>
    decreases values.len(),
{
    if values.len() == 0 {
        Seq::empty()
    } else {
        entry_line(values[0]) + seq!['\n'] + table_text(values.skip(1))
    }
}

/// The digits of a number are digits, at least one, and write that number.
pub proof fn lemma_digits_of(n: nat)
    ensures
        digits_of(n).len() > 0,
        all_digits(digits_of(n)),
        number(digits_of(n)) == n,
    decreases n,
{
    if n < 10 {
        let s = digits_of(n);
        assert(s.drop_last() =~= Seq::<char>::empty());
        assert(number(s.drop_last()) == 0);
        assert(digit_value(s.last()) == n);
    } else {
        lemma_digits_of(n / 10);
        let s = digits_of(n);
        assert(s.drop_last() =~= digits_of(n / 10));
        assert(digit_value(s.last()) == n % 10);
        assert forall|i: int| 0 <= i < s.len() implies is_digit(#[trigger] s[i]) by {
            if i < s.len() - 1 {
                assert(s[i] == digits_of(n / 10)[i]);
            }
        }
    }
}

/// Text that holds no first character of `pat` holds no `pat` to take out.
pub proof fn lemma_without_absent(s: Seq<char>, pat: Seq<char>)
    requires
        pat.len() > 0,
        forall|i: int| 0 <= i < s.len() ==> s[i] != pat[0],
    ensures
        without(s, pat) == s,
    decreases s.len(),
{
    if s.len() > 0 {
        if starts_with(s, pat) {
            assert(s.take(pat.len() as int)[0] == s[0]);
        }
        assert forall|i: int| 0 <= i < s.skip(1).len() implies s.skip(1)[i] != pat[0] by {
            assert(s.skip(1)[i] == s[i + 1]);
        }
        lemma_without_absent(s.skip(1), pat);
        assert(seq![s[0]] + s.skip(1) =~= s);
    }
}

/// The digits of a byte are read back as that number: as a speed where it is
/// at most the full speed, as a temperature where it is at most the ceiling.
pub proof fn lemma_digits_read_back(n: u8)
    ensures
        whole_text(digits_of(n as nat)) == Some(n as int),
        n <= FULL_SPEED ==> speed_text(digits_of(n as nat)) == Ok::<Speed, ConfigError>(Speed(n)),
        n <= TEMP_CEILING ==> temp_text(digits_of(n as nat)) == Ok::<Temp, ConfigError>(Temp(n)),
{
    let d = digits_of(n as nat);
    lemma_digits_of(n as nat);
    assert(is_digit(d[0]));
    assert forall|i: int| 0 <= i < d.len() implies d[i] != degree_mark()[0] && d[i] != '.' by {
        assert(is_digit(d[i]));
    }
    lemma_without_absent(d, degree_mark());
    lemma_find_is(d, '.', d.len() as int);
}

/// The line of a breakpoint in range is read back as that breakpoint.
pub proof fn lemma_entry_line_read_back(entry: SpeedConfig)
    requires
        entry.temp.0 <= TEMP_CEILING,
        entry.speed.0 <= FULL_SPEED,
    ensures
        entry_text(entry_line(entry)) == Ok::<SpeedConfig, ConfigError>(entry),
{
    let t = digits_of(entry.temp.0 as nat);
    let v = digits_of(entry.speed.0 as nat);
    let line = entry_line(entry);
    lemma_digits_of(entry.temp.0 as nat);
    lemma_digits_of(entry.speed.0 as nat);
    lemma_digits_read_back(entry.temp.0);
    lemma_digits_read_back(entry.speed.0);
    assert forall|j: int| 0 <= j < t.len() implies line[j] != '=' by {
        assert(line[j] == t[j]);
        assert(is_digit(t[j]));
    }
    assert(line[t.len() as int] == '=');
    lemma_find_is(line, '=', t.len() as int);
    assert(line.take(t.len() as int) =~= t);
    let rest = line.skip(t.len() as int + 1);
    assert(rest =~= v);
    assert forall|j: int| 0 <= j < v.len() implies v[j] != '=' by {
        assert(is_digit(v[j]));
    }
    lemma_find_is(v, '=', v.len() as int);
    assert(v.take(v.len() as int) =~= v);
}

/// Writing out a table whose temperatures and speeds are in range and
/// reading the text gives the breakpoints back, in their order.
pub proof fn law_table_text_round_trip(values: Seq<SpeedConfig>)
    requires
        temps_in_range(values),
        speeds_in_range(values),
    ensures
        table_entries(table_text(values)) == Ok::<Seq<SpeedConfig>, ConfigError>(values),
    decreases values.len(),
{
    if values.len() == 0 {
        assert(values =~= Seq::<SpeedConfig>::empty());
    } else {
        let entry = values[0];
        let line = entry_line(entry);
        let later = table_text(values.skip(1));
        let s = table_text(values);
        let t = digits_of(entry.temp.0 as nat);
        let v = digits_of(entry.speed.0 as nat);
        lemma_digits_of(entry.temp.0 as nat);
        lemma_digits_of(entry.speed.0 as nat);
        lemma_entry_line_read_back(entry);
        assert forall|i: int| 0 <= i < values.skip(1).len() implies (#[trigger] values.skip(
            1,
        )[i]).temp.0 <= TEMP_CEILING && values.skip(1)[i].speed.0 <= FULL_SPEED by {
            assert(values.skip(1)[i] == values[i + 1]);
        }
        law_table_text_round_trip(values.skip(1));
        assert forall|j: int| 0 <= j < line.len() implies line[j] != '\n' by {
            if j < t.len() {
                assert(line[j] == t[j]);
                assert(is_digit(t[j]));
            } else if j > t.len() {
                assert(line[j] == v[j - t.len() - 1]);
                assert(is_digit(v[j - t.len() - 1]));
            }
        }
        assert forall|j: int| 0 <= j < line.len() implies s[j] != '\n' by {
            assert(s[j] == line[j]);
        }
        assert(s[line.len() as int] == '\n');
        lemma_find_is(s, '\n', line.len() as int);
        assert(s.take(line.len() as int) =~= line);
        assert(s.skip(line.len() as int + 1) =~= later);
        assert(line[0] == t[0]);
        assert(is_digit(t[0]));
        assert(line.last() == v.last());
        assert(is_digit(v[v.len() - 1]));
        assert(trim_start(line) == line);
        assert(trim_end(line) == line);
        assert(trimmed(line) == line);
        assert(!ignored_line(line));
        assert(seq![entry] + values.skip(1) =~= values);
    }
}

/// Reading what was written of an ordered table, its temperatures and speeds
/// in range, succeeds and gives a configuration with the same table.
pub proof fn law_ordered_table_reads_back(values: Seq<SpeedConfig>, r: Result<Config, ConfigError>)
    requires
        sorted(values),
        temps_in_range(values),
        speeds_in_range(values),
        is_reading_of(r, table_text(values)),
    ensures
        r matches Ok(config) && config.values@ == values,
{
    law_table_text_round_trip(values);
    lemma_stable_sort_of_sorted(values);
}

/// The character that writes the digit `d`.
pub fn digit_to_char(d: u8) -> (c: char)
    requires
        d <= 9,
    ensures
        c == digit_char(d as int),
{
    match d {
        0 => '0',
        1 => '1',
        2 => '2',
        3 => '3',
        4 => '4',
        5 => '5',
        6 => '6',
        7 => '7',
        8 => '8',
        _ => '9',
    }
}

/// Appends the digits of `n` to `out`.
pub fn push_digits(out: &mut Vec<char>, n: u8)
    ensures
        final(out)@ == old(out)@ + digits_of(n as nat),
{
    proof {
        reveal_with_fuel(digits_of, 3);
    }
    if n >= 100 {
        out.push(digit_to_char(n / 100));
    }
    if n >= 10 {
        out.push(digit_to_char((n / 10) % 10));
    }
    out.push(digit_to_char(n % 10));
    proof {
        assert(final(out)@ =~= old(out)@ + digits_of(n as nat));
    }
}

impl Config {
    /// The table as text, one `temperature=speed` line for each breakpoint.
    pub fn table_chars(&self) -> (text: Vec<char>)
        ensures
            text@ == table_text(self.values@),
    {
        let mut i: usize = self.values.len();
        proof {
            assert(self.values@.skip(i as int) =~= Seq::<SpeedConfig>::empty());
        }
        let mut done: Vec<char> = Vec::new();
        while i > 0
            invariant
                i <= self.values.len(),
                done@ == table_text(self.values@.skip(i as int)),
            decreases i,
        {
            i -= 1;
            let entry = self.values[i];
            let mut line: Vec<char> = Vec::new();
            push_digits(&mut line, entry.temp.0);
            line.push('=');
            push_digits(&mut line, entry.speed.into_inner());
            line.push('\n');
            proof {
                assert(self.values@.skip(i as int).skip(1) =~= self.values@.skip(i + 1));
                assert(self.values@.skip(i as int)[0] == entry);
                assert(line@ =~= entry_line(entry) + seq!['\n']);
            }
            line.append(&mut done);
            done = line;
        }
        proof {
            assert(self.values@.skip(0) =~= self.values@);
        }
        done
    }
}

} // verus!
