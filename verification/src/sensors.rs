//! The sensor loop of the logger: what one cycle shows, decides and records.

use crate::dht22::DhtError;
use crate::ieee::{is_nan, lemma_thresholds, less, scaled, scaled_int};
use crate::protocol::Reading;
use crate::text::{law_columns, pad_right, push_left_aligned};
use vstd::prelude::*;

verus! {

/// The fan turns on when bringing outside air in would lower the relative
/// humidity by more than so many percent.
pub const FAN_ON_THRESHOLD: u8 = 10;

/// The fan turns off when the advantage falls below so many percent.
pub const FAN_OFF_THRESHOLD: u8 = 2;

/// How many characters a row of the display has.
pub const LCD_COLUMNS: usize = 16;

/// How many cycles lie between two looks at the heap.
pub const HEAP_WATCH_CYCLES: u32 = 10;

/// The fan after a cycle with this advantage, given as the bit pattern of an
/// f32: on above 10 %, off below 2 %, and as before in between. Whatever is
/// not a number changes nothing.
pub open spec fn fan_after(on: bool, advantage: u32) -> bool {
    if is_nan(advantage) {
        on
    } else if on {
        !(scaled(advantage) < scaled_int(FAN_OFF_THRESHOLD as int))
    } else {
        scaled(advantage) > scaled_int(FAN_ON_THRESHOLD as int)
    }
}

/// Ventilation hysteresis on the humidity advantage.
pub fn next_fan(on: bool, advantage: u32) -> (next: bool)
    ensures
        next == fan_after(on, advantage),
{
    proof {
        lemma_thresholds();
    }
    if !on && less(0x4120_0000, advantage) {
        true
    } else if on && less(advantage, 0x4000_0000) {
        false
    } else {
        on
    }
}

/// A row of the display: the label, then temperature and humidity rounded to
/// whole numbers, or two dashes for a failed read, filled up with spaces.
pub open spec fn lcd_row(label: Seq<char>, reading: Result<Reading, DhtError>) -> Seq<char> {
    let shown = match reading {
        Ok(r) => label + " "@ + r.temperature.whole_text() + "C "@ + r.humidity.whole_text()
            + "%"@,
        Err(_) => label + " --"@,
    };
    pad_right(shown, LCD_COLUMNS as nat)
}

/// Write a row of the display.
fn lcd_line(label: &str, reading: &Result<Reading, DhtError>) -> (line: String)
    ensures
        line@ == lcd_row(label@, *reading),
{
    let mut shown = String::new();
    shown.append(label);
    match reading {
        Ok(r) => {
            shown.append(" ");
            let temperature = r.temperature.to_whole_text();
            shown.append(temperature.as_str());
            shown.append("C ");
            let humidity = r.humidity.to_whole_text();
            shown.append(humidity.as_str());
            shown.append("%");
            assert(shown@ =~= label@ + " "@ + r.temperature.whole_text() + "C "@
                + r.humidity.whole_text() + "%"@);
        },
        Err(_) => {
            shown.append(" --");
            assert(shown@ =~= label@ + " --"@);
        },
    }
    let mut line = String::new();
    push_left_aligned(&mut line, shown.as_str(), LCD_COLUMNS);
    assert(line@ =~= lcd_row(label@, *reading));
    line
}

/// What a cycle gives: the rows for the display, the sample for the log, the
/// level of the fan output, and whether to look at the heap.
#[derive(Debug)]
pub struct Cycle {
    pub row_inside: String,
    pub row_outside: String,
    pub inside: Option<Reading>,
    pub outside: Option<Reading>,
    pub fan: bool,
    pub watch_heap: bool,
}

/// What the loop keeps from cycle to cycle.
pub struct SensorState {
    pub fan_on: bool,
    pub tick: u32,
}

/// What is recorded of a read: nothing where it failed.
pub open spec fn recorded(reading: Result<Reading, DhtError>) -> Option<Reading> {
    match reading {
        Ok(r) => Some(r),
        Err(_) => None,
    }
}

impl SensorState {
    /// The state after a cycle. The advantage counts only when both sensors were
    /// read; otherwise the fan stays as it is.
    pub open spec fn next(
        self,
        inside: Result<Reading, DhtError>,
        outside: Result<Reading, DhtError>,
        advantage: u32,
    ) -> SensorState {
        SensorState {
            fan_on: if inside is Ok && outside is Ok {
                fan_after(self.fan_on, advantage)
            } else {
                self.fan_on
            },
            tick: if self.tick == u32::MAX {
                0
            } else {
                (self.tick + 1) as u32
            },
        }
    }
}

/// The sensor loop between its cycles.
#[derive(Debug)]
pub struct SensorLoop {
    fan_on: bool,
    tick: u32,
}

impl View for SensorLoop {
    type V = SensorState;

    closed spec fn view(&self) -> SensorState {
        SensorState { fan_on: self.fan_on, tick: self.tick }
    }
}

impl SensorLoop {
    /// Before the first cycle the fan is off.
    pub fn new() -> (this: SensorLoop)
        ensures
            this@ == (SensorState { fan_on: false, tick: 0 }),
    {
        SensorLoop { fan_on: false, tick: 0 }
    }

    /// One cycle: both reads, and the humidity advantage computed from them (of
    /// no account unless both succeeded).
    pub fn cycle(
        &mut self,
        inside: &Result<Reading, DhtError>,
        outside: &Result<Reading, DhtError>,
        advantage: u32,
    ) -> (cycle: Cycle)
        ensures
            final(self)@ == old(self)@.next(*inside, *outside, advantage),
            cycle.row_inside@ == lcd_row("In "@, *inside),
            cycle.row_outside@ == lcd_row("Out"@, *outside),
            cycle.inside == recorded(*inside),
            cycle.outside == recorded(*outside),
            cycle.fan == final(self)@.fan_on,
            *inside matches Ok(reading) ==> cycle.inside == Some(reading),
            *outside matches Ok(reading) ==> cycle.outside == Some(reading),
            inside is Err ==> cycle.inside is None,
            outside is Err ==> cycle.outside is None,
            inside is Err || outside is Err || is_nan(advantage) ==> cycle.fan
                == old(self)@.fan_on,
            inside is Ok && outside is Ok && !is_nan(advantage) ==> {
                &&& scaled(advantage) > scaled_int(10) ==> cycle.fan
                &&& scaled(advantage) < scaled_int(2) ==> !cycle.fan
                &&& scaled_int(2) <= scaled(advantage) <= scaled_int(10) ==> cycle.fan
                    == old(self)@.fan_on
            },
            cycle.watch_heap == (final(self)@.tick % HEAP_WATCH_CYCLES == 0),
    {
        proof {
            law_cycle_runs_the_fan(self@, *inside, *outside, advantage);
        }
        let mut seen_inside: Option<Reading> = None;
        let mut seen_outside: Option<Reading> = None;
        if let Ok(r) = inside {
            seen_inside = Some(*r);
        }
        if let Ok(r) = outside {
            seen_outside = Some(*r);
        }
        if seen_inside.is_some() && seen_outside.is_some() {
            self.fan_on = next_fan(self.fan_on, advantage);
        }
        self.tick = self.tick.wrapping_add(1);
        Cycle {
            row_inside: lcd_line("In ", inside),
            row_outside: lcd_line("Out", outside),
            inside: seen_inside,
            outside: seen_outside,
            fan: self.fan_on,
            watch_heap: self.tick % HEAP_WATCH_CYCLES == 0,
        }
    }
}

/// The time that a record gets: the Unix seconds of the clock, or zero as long as the
/// clock has not been set.
pub fn record_time(synced: bool, unix_secs: u64) -> (time: u64)
    ensures
        time == if synced {
            unix_secs
        } else {
            0
        },
{
    if synced {
        unix_secs
    } else {
        0
    }
}

// ---------------------------------------------------------------------------
// Laws
// ---------------------------------------------------------------------------

/// From the lower threshold up to the upper one the fan stays as it is, whichever way it came
/// there: this is what keeps it from flickering.
pub proof fn law_fan_holds_between_thresholds(on: bool, advantage: u32)
    requires
        !is_nan(advantage),
        scaled_int(FAN_OFF_THRESHOLD as int) <= scaled(advantage) <= scaled_int(
            FAN_ON_THRESHOLD as int,
        ),
    ensures
        fan_after(on, advantage) == on,
{
}

/// Above the upper threshold the fan is on, below the lower one it is off,
/// whatever it was before.
pub proof fn law_fan_follows_clear_advantage(on: bool, advantage: u32)
    requires
        !is_nan(advantage),
    ensures
        scaled(advantage) > scaled_int(FAN_ON_THRESHOLD as int) ==> fan_after(on, advantage),
        scaled(advantage) < scaled_int(FAN_OFF_THRESHOLD as int) ==> !fan_after(on, advantage),
{
    let unit = vstd::arithmetic::power2::pow2(149) as int;
    vstd::arithmetic::power2::lemma_pow2_pos(149);
    assert(scaled_int(2) < scaled_int(10)) by (nonlinear_arith)
        requires
            unit > 0,
            scaled_int(2) == 2 * unit,
            scaled_int(10) == 10 * unit,
    ;
}

/// A failed read stops neither the log nor the fan: the fan keeps its state, and
/// the sample records which of the two sensors is missing.
pub proof fn law_failed_read_holds_the_fan(
    state: SensorState,
    inside: Result<Reading, DhtError>,
    outside: Result<Reading, DhtError>,
    advantage: u32,
)
    requires
        inside is Err || outside is Err,
    ensures
        state.next(inside, outside, advantage).fan_on == state.fan_on,
        recorded(inside) is None || recorded(outside) is None,
{
}

/// Whenever both sensors were read, whatever they say, the fan is on after a cycle where
/// the advantage is above 10 %, off where it is below 2 %, and as before in between. A
/// failed read or an advantage that is no number leaves it as it is.
pub proof fn law_cycle_runs_the_fan(
    state: SensorState,
    inside: Result<Reading, DhtError>,
    outside: Result<Reading, DhtError>,
    advantage: u32,
)
    ensures
        ({
            let fan = state.next(inside, outside, advantage).fan_on;
            &&& inside is Ok && outside is Ok && !is_nan(advantage) ==> {
                &&& scaled(advantage) > scaled_int(10) ==> fan
                &&& scaled(advantage) < scaled_int(2) ==> !fan
                &&& scaled_int(2) <= scaled(advantage) <= scaled_int(10) ==> fan == state.fan_on
            }
            &&& inside is Err || outside is Err || is_nan(advantage) ==> fan == state.fan_on
        }),
{
    if !is_nan(advantage) {
        law_fan_follows_clear_advantage(state.fan_on, advantage);
    }
}

/// A cycle, as what it is given.
pub struct CycleInput {
    pub inside: Result<Reading, DhtError>,
    pub outside: Result<Reading, DhtError>,
    pub advantage: u32,
}

/// The state after a run of cycles.
pub open spec fn cycled(state: SensorState, cycles: Seq<CycleInput>) -> SensorState
    decreases cycles.len(),
{
    if cycles.len() == 0 {
        state
    } else {
        let last = cycles.last();
        cycled(state, cycles.drop_last()).next(last.inside, last.outside, last.advantage)
    }
}

/// Cycles are counted one by one, whatever was read: so the heap is looked at in every
/// tenth of them.
pub proof fn law_cycles_are_counted(state: SensorState, cycles: Seq<CycleInput>)
    requires
        state.tick == 0,
        cycles.len() <= u32::MAX,
    ensures
        cycled(state, cycles).tick == cycles.len(),
        cycled(state, cycles).tick % HEAP_WATCH_CYCLES == 0 <==> cycles.len() % 10 == 0,
    decreases cycles.len(),
{
    if cycles.len() > 0 {
        law_cycles_are_counted(state, cycles.drop_last());
    }
}

/// The fan that was turned on stays on over any run of cycles in which the advantage is
/// never read below 2 %, and one that was turned off stays off as long as it is never
/// read above 10 %.
pub proof fn law_fan_needs_a_clear_reason(state: SensorState, cycles: Seq<CycleInput>)
    ensures
        state.fan_on && (forall|k: int|
            0 <= k < cycles.len() ==> {
                ||| (#[trigger] cycles[k]).inside is Err
                ||| cycles[k].outside is Err
                ||| is_nan(cycles[k].advantage)
                ||| scaled(cycles[k].advantage) >= scaled_int(2)
            }) ==> cycled(state, cycles).fan_on,
        !state.fan_on && (forall|k: int|
            0 <= k < cycles.len() ==> {
                ||| (#[trigger] cycles[k]).inside is Err
                ||| cycles[k].outside is Err
                ||| is_nan(cycles[k].advantage)
                ||| scaled(cycles[k].advantage) <= scaled_int(10)
            }) ==> !cycled(state, cycles).fan_on,
    decreases cycles.len(),
{
    if cycles.len() > 0 {
        let shorter = cycles.drop_last();
        let last = cycles[cycles.len() - 1];
        assert forall|k: int| 0 <= k < shorter.len() implies #[trigger] shorter[k] == cycles[k] by {
        }
        law_fan_needs_a_clear_reason(state, shorter);
        law_cycle_runs_the_fan(
            cycled(state, shorter),
            last.inside,
            last.outside,
            last.advantage,
        );
    }
}

/// What is recorded of a read is what was read, and nothing of one that failed.
pub proof fn law_reads_are_recorded_as_they_are(reading: Reading, error: DhtError)
    ensures
        recorded(Ok(reading)) == Some(reading),
        recorded(Err(error)) is None,
{
}

/// A row says which sensor it is for, then its temperature and its humidity as whole
/// numbers, or two dashes where there is no reading. Behind that it is blank.
pub proof fn law_row_shows_the_reading(label: Seq<char>, reading: Reading, error: DhtError)
    ensures
        ({
            let row = lcd_row(label, Ok(reading));
            let shown = label + " "@ + reading.temperature.whole_text() + "C "@
                + reading.humidity.whole_text() + "%"@;
            &&& row.take(shown.len() as int) == shown
            &&& shown.len() <= row.len()
            &&& forall|i: int| shown.len() <= i < row.len() ==> #[trigger] row[i] == ' '
        }),
        ({
            let row = lcd_row(label, Err(error));
            let shown = label + " --"@;
            &&& row.take(shown.len() as int) == shown
            &&& shown.len() <= row.len()
            &&& forall|i: int| shown.len() <= i < row.len() ==> #[trigger] row[i] == ' '
        }),
{
    let shown = label + " "@ + reading.temperature.whole_text() + "C "@
        + reading.humidity.whole_text() + "%"@;
    law_columns(shown, 16);
    law_columns(label + " --"@, 16);
}

/// A row always overwrites the whole row before it: it fills the display.
pub proof fn law_row_fills_the_display(label: Seq<char>, reading: Result<Reading, DhtError>)
    ensures
        lcd_row(label, reading).len() >= LCD_COLUMNS,
{
}

} // verus!
