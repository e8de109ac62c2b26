//! The threshold table: breakpoints ordered by temperature, the stable
//! insertion that keeps them ordered, and the lookup of the speed for a reading.

use vstd::prelude::*;

verus! {

/// A temperature in whole degrees.
#[derive(Debug, Default, Clone, Copy, PartialEq, Eq, PartialOrd, Ord, Structural)]
pub struct Temp(pub u8);

/// A fan duty cycle in percent.
#[derive(Debug, Default, Clone, Copy, PartialEq, Eq, PartialOrd, Ord, Structural)]
pub struct Speed(pub u8);

/// One breakpoint: by the time `temp` is reached the fan runs at `speed`.
#[derive(Debug, Default, Clone, Copy, PartialEq, Eq, Structural)]
pub struct SpeedConfig {
    pub temp: Temp,
    pub speed: Speed,
}

/// The speed applied when the reading lies above every breakpoint.
pub const FALLBACK_SPEED: u8 = 0;

/// The highest duty cycle.
pub const FULL_SPEED: u8 = 100;

/// The highest temperature: a hotter reading is held down to it.
pub const TEMP_CEILING: u8 = 101;

impl Temp {
    /// The temperature of `degrees`, held down to the ceiling.
    pub fn clamped(degrees: u8) -> (t: Temp)
        ensures
            t.0 == if degrees <= TEMP_CEILING {
                degrees
            } else {
                TEMP_CEILING
            },
    {
        if degrees <= TEMP_CEILING {
            Temp(degrees)
        } else {
            Temp(TEMP_CEILING)
        }
    }
}

impl Speed {
    /// The speed of `percent`, where that is a duty cycle: at most the full
    /// speed.
    pub fn checked(percent: u8) -> (r: Option<Speed>)
        ensures
            r == if percent <= FULL_SPEED {
                Some(Speed(percent))
            } else {
                None
            },
    {
        if percent <= FULL_SPEED {
            Some(Speed(percent))
        } else {
            None
        }
    }

    /// The duty cycle as a plain number.
    pub fn into_inner(&self) -> (n: u8)
        ensures
            n == self.0,
    {
        self.0
    }
}

/// Every speed of the table is a duty cycle: at most the full speed.
pub open spec fn speeds_in_range(values: Seq<SpeedConfig>) -> bool {
    forall|i: int| 0 <= i < values.len() ==> (#[trigger] values[i]).speed.0 <= FULL_SPEED
}

/// Every temperature of the table is at most the ceiling.
pub open spec fn temps_in_range(values: Seq<SpeedConfig>) -> bool {
    forall|i: int| 0 <= i < values.len() ==> (#[trigger] values[i]).temp.0 <= TEMP_CEILING
}

/// The breakpoints are in ascending order of temperature.
pub open spec fn sorted(values: Seq<SpeedConfig>) -> bool {
    forall|i: int, j: int| 0 <= i <= j < values.len() ==> values[i].temp.0 <= values[j].temp.0
}

/// `k` is where the longest run of breakpoints at or above `bound`, counted
/// from the end of the table, begins (`values.len()` when the run is empty).
pub open spec fn is_tail_start(values: Seq<SpeedConfig>, bound: int, k: int) -> bool {
    &&& 0 <= k <= values.len()
    &&& forall|j: int| k <= j < values.len() ==> values[j].temp.0 >= bound
    &&& k > 0 ==> values[k - 1].temp.0 < bound
}

/// The index at which the longest run of breakpoints at or above `bound`,
/// counted from the end of the table, begins.
pub open spec fn tail_start(values: Seq<SpeedConfig>, bound: int) -> int
    decreases values.len(),
{
    if values.len() == 0 || values.last().temp.0 < bound {
        values.len() as int
    } else {
        tail_start(values.drop_last(), bound)
    }
}

/// `tail_start` is the one index that `is_tail_start` describes.
pub proof fn lemma_tail_start(values: Seq<SpeedConfig>, bound: int)
    ensures
        is_tail_start(values, bound, tail_start(values, bound)),
        forall|k: int| is_tail_start(values, bound, k) ==> k == tail_start(values, bound),
    decreases values.len(),
{
    if values.len() == 0 || values.last().temp.0 < bound {
    } else {
        let front = values.drop_last();
        lemma_tail_start(front, bound);
        let p = tail_start(front, bound);
        assert(is_tail_start(front, bound, p));
        assert forall|j: int| p <= j < values.len() implies values[j].temp.0 >= bound by {
            if j < front.len() {
                assert(front[j] == values[j]);
            }
        }
        if p > 0 {
            assert(front[p - 1] == values[p - 1]);
        }
        assert forall|k: int| is_tail_start(values, bound, k) implies k == p by {
            assert(k < values.len());
            assert(is_tail_start(front, bound, k));
        }
    }
}

/// In an ordered table the run found by `tail_start` holds every breakpoint at
/// or above `bound`, and no other.
pub proof fn lemma_tail_start_sorted(values: Seq<SpeedConfig>, bound: int)
    requires
        sorted(values),
    ensures
        forall|i: int|
            0 <= i < values.len() ==> (values[i].temp.0 >= bound <==> tail_start(values, bound)
                <= i),
{
    lemma_tail_start(values, bound);
}

/// The speed for a reading: that of the breakpoint at which the run of
/// breakpoints at or above the reading begins, or the fallback when the last
/// breakpoint lies below the reading.
pub open spec fn decide(values: Seq<SpeedConfig>, temp: Temp) -> Speed {
    let k = tail_start(values, temp.0 as int);
    if k < values.len() {
        values[k].speed
    } else {
        Speed(FALLBACK_SPEED)
    }
}

/// `speed` is the answer for `temp` by the rule of the table: the speed of a
/// breakpoint whose temperature is the smallest one at or above the reading,
/// the first such breakpoint in table order; the fallback where every
/// breakpoint lies below the reading.
pub open spec fn is_smallest_qualifying(values: Seq<SpeedConfig>, temp: Temp, speed: Speed) -> bool {
    if exists|i: int| 0 <= i < values.len() && values[i].temp.0 >= temp.0 {
        exists|k: int|
            {
                &&& 0 <= k < values.len()
                &&& values[k].temp.0 >= temp.0
                &&& speed == #[trigger] values[k].speed
                &&& forall|j: int|
                    0 <= j < values.len() && values[j].temp.0 >= temp.0 ==> k <= j
                        && values[k].temp.0 <= values[j].temp.0
            }
    } else {
        speed == Speed(FALLBACK_SPEED)
    }
}

/// In an ordered table the lookup returns the speed of the breakpoint with the
/// smallest temperature at or above the reading, and the fallback exactly
/// when every breakpoint lies below the reading.
pub proof fn law_decide_smallest_qualifying(values: Seq<SpeedConfig>, temp: Temp)
    requires
        sorted(values),
    ensures
        is_smallest_qualifying(values, temp, decide(values, temp)),
{
    lemma_tail_start(values, temp.0 as int);
    lemma_tail_start_sorted(values, temp.0 as int);
    let k = tail_start(values, temp.0 as int);
    if exists|i: int| 0 <= i < values.len() && values[i].temp.0 >= temp.0 {
        let i = choose|i: int| 0 <= i < values.len() && values[i].temp.0 >= temp.0;
        assert(k <= i);
        assert(values[k].temp.0 >= temp.0);
        assert(decide(values, temp) == values[k].speed);
    } else {
        if k < values.len() {
            assert(values[k].temp.0 >= temp.0);
        }
    }
}

/// The table with `entry` put in behind every breakpoint that is not hotter
/// than it: where the run of strictly hotter breakpoints at the end begins.
pub open spec fn inserted(values: Seq<SpeedConfig>, entry: SpeedConfig) -> Seq<SpeedConfig> {
    values.insert(tail_start(values, entry.temp.0 + 1), entry)
}

/// The breakpoints in ascending order of temperature, those of equal
/// temperature in the order in which they stood.
pub open spec fn stable_sort(values: Seq<SpeedConfig>) -> Seq<SpeedConfig>
    decreases values.len(),
{
    if values.len() == 0 {
        values
    } else {
        inserted(stable_sort(values.drop_last()), values.last())
    }
}

/// Insertion keeps an ordered table ordered.
pub proof fn lemma_inserted_sorted(values: Seq<SpeedConfig>, entry: SpeedConfig)
    requires
        sorted(values),
    ensures
        sorted(inserted(values, entry)),
        inserted(values, entry).len() == values.len() + 1,
{
    let p = tail_start(values, entry.temp.0 + 1);
    lemma_tail_start(values, entry.temp.0 + 1);
    let out = inserted(values, entry);
    assert forall|i: int, j: int| 0 <= i <= j < out.len() implies out[i].temp.0
        <= out[j].temp.0 by {
        if p > 0 {
            assert(values[p - 1].temp.0 <= entry.temp.0);
        }
        if i < p {
            assert(out[i] == values[i]);
            assert(values[i].temp.0 <= values[p - 1].temp.0);
        } else if i > p {
            assert(out[i] == values[i - 1]);
        }
        if j < p {
            assert(out[j] == values[j]);
        } else if j > p {
            assert(out[j] == values[j - 1]);
        }
    }
}

/// What `stable_sort` returns is ordered and as long as what it was given.
pub proof fn lemma_stable_sort_sorted(values: Seq<SpeedConfig>)
    ensures
        sorted(stable_sort(values)),
        stable_sort(values).len() == values.len(),
    decreases values.len(),
{
    if values.len() > 0 {
        lemma_stable_sort_sorted(values.drop_last());
        lemma_inserted_sorted(stable_sort(values.drop_last()), values.last());
    }
}

/// `stable_sort` moves breakpoints and neither adds nor drops one.
pub proof fn lemma_stable_sort_permutes(values: Seq<SpeedConfig>)
    ensures
        stable_sort(values).to_multiset() == values.to_multiset(),
    decreases values.len(),
{
    broadcast use vstd::seq_lib::group_to_multiset_ensures;

    if values.len() > 0 {
        let front = values.drop_last();
        lemma_stable_sort_permutes(front);
        lemma_stable_sort_sorted(front);
        let s = stable_sort(front);
        let p = tail_start(s, values.last().temp.0 + 1);
        lemma_tail_start(s, values.last().temp.0 + 1);
        vstd::seq_lib::to_multiset_insert(s, p, values.last());
        assert(front.push(values.last()) == values);
    }
}

/// The breakpoints of `values` at the temperature `temp`, in their order.
pub open spec fn at_temp(values: Seq<SpeedConfig>, temp: Temp) -> Seq<SpeedConfig>
    decreases values.len(),
{
    if values.len() == 0 {
        values
    } else if values.last().temp == temp {
        at_temp(values.drop_last(), temp).push(values.last())
    } else {
        at_temp(values.drop_last(), temp)
    }
}

/// The breakpoints at a temperature in two tables joined are those of the
/// first, then those of the second.
pub proof fn lemma_at_temp_joined(a: Seq<SpeedConfig>, b: Seq<SpeedConfig>, temp: Temp)
    ensures
        at_temp(a + b, temp) == at_temp(a, temp) + at_temp(b, temp),
    decreases b.len(),
{
    if b.len() == 0 {
        assert(a + b =~= a);
        assert(at_temp(a, temp) + at_temp(b, temp) =~= at_temp(a, temp));
    } else {
        lemma_at_temp_joined(a, b.drop_last(), temp);
        assert((a + b).drop_last() =~= a + b.drop_last());
        assert((a + b).last() == b.last());
        if b.last().temp == temp {
            assert(at_temp(a, temp) + at_temp(b.drop_last(), temp).push(b.last()) =~= (at_temp(
                a,
                temp,
            ) + at_temp(b.drop_last(), temp)).push(b.last()));
        }
    }
}

/// A table without a breakpoint at `temp` has none to show.
pub proof fn lemma_at_temp_none(values: Seq<SpeedConfig>, temp: Temp)
    requires
        forall|i: int| 0 <= i < values.len() ==> values[i].temp != temp,
    ensures
        at_temp(values, temp) == Seq::<SpeedConfig>::empty(),
    decreases values.len(),
{
    if values.len() > 0 {
        assert forall|i: int| 0 <= i < values.drop_last().len() implies values.drop_last()[i].temp
            != temp by {
            assert(values.drop_last()[i] == values[i]);
        }
        lemma_at_temp_none(values.drop_last(), temp);
    }
}

/// Ordering is stable: the breakpoints at any one temperature stand in the
/// ordered table as they stood before, in the same order.
pub proof fn law_stable_sort_keeps_order(values: Seq<SpeedConfig>, temp: Temp)
    ensures
        at_temp(stable_sort(values), temp) == at_temp(values, temp),
    decreases values.len(),
{
    if values.len() > 0 {
        let front = values.drop_last();
        let x = values.last();
        law_stable_sort_keeps_order(front, temp);
        let s = stable_sort(front);
        let p = tail_start(s, x.temp.0 + 1);
        lemma_tail_start(s, x.temp.0 + 1);
        let head = s.take(p);
        let tail = s.skip(p);
        let one = seq![x];
        assert(s.insert(p, x) =~= head + one + tail);
        assert(s =~= head + tail);
        lemma_at_temp_joined(head, tail, temp);
        lemma_at_temp_joined(head + one, tail, temp);
        lemma_at_temp_joined(head, one, temp);
        assert(one.drop_last() =~= Seq::<SpeedConfig>::empty());
        assert(at_temp(one.drop_last(), temp) =~= Seq::<SpeedConfig>::empty());
        if x.temp == temp {
            assert forall|i: int| 0 <= i < tail.len() implies tail[i].temp != temp by {
                assert(tail[i] == s[p + i]);
            }
            lemma_at_temp_none(tail, temp);
            assert(at_temp(one, temp) =~= one);
            assert(at_temp(s.insert(p, x), temp) =~= at_temp(head, temp) + one);
            assert(at_temp(s, temp) =~= at_temp(head, temp));
        } else {
            assert(at_temp(one, temp) =~= Seq::<SpeedConfig>::empty());
            assert(at_temp(s.insert(p, x), temp) =~= at_temp(head, temp) + at_temp(tail, temp));
        }
    }
}

/// Insertion keeps speeds and temperatures in their ranges.
pub proof fn lemma_inserted_in_range(values: Seq<SpeedConfig>, entry: SpeedConfig)
    ensures
        speeds_in_range(values) && entry.speed.0 <= FULL_SPEED ==> speeds_in_range(
            inserted(values, entry),
        ),
        temps_in_range(values) && entry.temp.0 <= TEMP_CEILING ==> temps_in_range(
            inserted(values, entry),
        ),
{
    let p = tail_start(values, entry.temp.0 + 1);
    lemma_tail_start(values, entry.temp.0 + 1);
    let out = inserted(values, entry);
    assert forall|i: int| 0 <= i < out.len() implies #[trigger] out[i] == entry || exists|j: int|
        0 <= j < values.len() && out[i] == values[j] by {
        if i < p {
            assert(out[i] == values[i]);
        } else if i > p {
            assert(out[i] == values[i - 1]);
        }
    }
}

/// Ordering keeps speeds and temperatures in their ranges.
pub proof fn lemma_stable_sort_in_range(values: Seq<SpeedConfig>)
    ensures
        speeds_in_range(values) ==> speeds_in_range(stable_sort(values)),
        temps_in_range(values) ==> temps_in_range(stable_sort(values)),
    decreases values.len(),
{
    if values.len() > 0 {
        let front = values.drop_last();
        lemma_stable_sort_in_range(front);
        lemma_inserted_in_range(stable_sort(front), values.last());
        if speeds_in_range(values) {
            assert forall|i: int| 0 <= i < front.len() implies (#[trigger] front[i]).speed.0
                <= FULL_SPEED by {
                assert(front[i] == values[i]);
            }
            assert(values[values.len() - 1].speed.0 <= FULL_SPEED);
        }
        if temps_in_range(values) {
            assert forall|i: int| 0 <= i < front.len() implies (#[trigger] front[i]).temp.0
                <= TEMP_CEILING by {
                assert(front[i] == values[i]);
            }
            assert(values[values.len() - 1].temp.0 <= TEMP_CEILING);
        }
    }
}

/// An ordered table is its own `stable_sort`.
pub proof fn lemma_stable_sort_of_sorted(values: Seq<SpeedConfig>)
    requires
        sorted(values),
    ensures
        stable_sort(values) == values,
    decreases values.len(),
{
    if values.len() > 0 {
        let front = values.drop_last();
        assert(sorted(front)) by {
            assert forall|i: int, j: int| 0 <= i <= j < front.len() implies front[i].temp.0
                <= front[j].temp.0 by {
                assert(front[i] == values[i] && front[j] == values[j]);
            }
        }
        lemma_stable_sort_of_sorted(front);
        let bound = values.last().temp.0 + 1;
        assert(is_tail_start(front, bound, front.len() as int)) by {
            if front.len() > 0 {
                assert(front[front.len() - 1] == values[front.len() - 1]);
            }
        }
        lemma_tail_start(front, bound);
        assert(front.insert(front.len() as int, values.last()) =~= values);
    }
}

/// Puts `entry` into `table` behind every breakpoint that is not hotter.
pub fn insert_entry(table: &mut Vec<SpeedConfig>, entry: SpeedConfig)
    ensures
        final(table)@ == inserted(old(table)@, entry),
{
    let mut p: usize = table.len();
    while p > 0 && table[p - 1].temp.0 > entry.temp.0
        invariant
            p <= table.len(),
            table@ == old(table)@,
            forall|j: int| p <= j < table.len() ==> table[j].temp.0 >= entry.temp.0 + 1,
        decreases p,
    {
        p -= 1;
    }
    proof {
        assert(is_tail_start(table@, entry.temp.0 + 1, p as int));
        lemma_tail_start(table@, entry.temp.0 + 1);
    }
    table.insert(p, entry);
}

/// The breakpoints of `values` in ascending order of temperature, equal
/// temperatures in their given order.
pub fn sort_entries(values: &Vec<SpeedConfig>) -> (out: Vec<SpeedConfig>)
    ensures
        out@ == stable_sort(values@),
        sorted(out@),
        out@.to_multiset() == values@.to_multiset(),
{
    let mut out: Vec<SpeedConfig> = Vec::new();
    let mut i: usize = 0;
    while i < values.len()
        invariant
            i <= values.len(),
            out@ == stable_sort(values@.take(i as int)),
        decreases values.len() - i,
    {
        proof {
            assert(values@.take(i + 1).drop_last() == values@.take(i as int));
            assert(values@.take(i + 1).last() == values[i as int]);
        }
        insert_entry(&mut out, values[i]);
        i += 1;
    }
    proof {
        assert(values@.take(i as int) == values@);
        lemma_stable_sort_sorted(values@);
        lemma_stable_sort_permutes(values@);
    }
    out
}

/// The speed for a reading, found by walking the table from its end.
pub fn lookup(values: &Vec<SpeedConfig>, temp: Temp) -> (speed: Speed)
    ensures
        speed == decide(values@, temp),
        sorted(values@) ==> is_smallest_qualifying(values@, temp, speed),
{
    proof {
        if sorted(values@) {
            law_decide_smallest_qualifying(values@, temp);
        }
    }
    let mut k: usize = values.len();
    while k > 0 && values[k - 1].temp.0 >= temp.0
        invariant
            k <= values.len(),
            forall|j: int| k <= j < values.len() ==> values[j].temp.0 >= temp.0,
        decreases k,
    {
        k -= 1;
    }
    proof {
        assert(is_tail_start(values@, temp.0 as int, k as int));
        lemma_tail_start(values@, temp.0 as int);
    }
    if k < values.len() {
        values[k].speed
    } else {
        Speed(FALLBACK_SPEED)
    }
}

} // verus!
