//! The Sensirion SCD30 CO2 sensor: its CRC-8, its command frames and words,
//! and the loop that keeps it measuring.

use crate::led::{band_of, co2_band, pending, pending_color, Band};
use crate::text::{hex_byte, law_hex_digits, push_hex_byte};
use vstd::prelude::*;

verus! {

// ---------------------------------------------------------------------------
// CRC-8
// ---------------------------------------------------------------------------

/// One bit of the division by the polynomial x^8 + x^5 + x^4 + 1: the register
/// moves up by one, and where a bit falls out at the top the polynomial is
/// taken off.
pub open spec fn crc_shift(reg: u8) -> u8 {
    if reg >= 128 {
        ((reg - 128) as u8 * 2) as u8 ^ 0x31
    } else {
        (reg * 2) as u8
    }
}

/// `n` bits of it.
pub open spec fn crc_shifts(reg: u8, n: nat) -> u8
    decreases n,
{
    if n == 0 {
        reg
    } else {
        crc_shift(crc_shifts(reg, (n - 1) as nat))
    }
}

/// The Sensirion CRC-8 of `data`: polynomial 0x31, initial value 0xFF, no
/// reflection, no final XOR.
pub open spec fn crc8_of(data: Seq<u8>) -> u8
    decreases data.len(),
{
    if data.len() == 0 {
        0xff
    } else {
        crc_shifts(crc8_of(data.drop_last()) ^ data.last(), 8)
    }
}

/// Shifting left by one and testing the top bit is one step of the division.
proof fn lemma_shift_step(reg: u8)
    ensures
        reg & 0x80 != 0 ==> (reg << 1) ^ 0x31 == crc_shift(reg),
        reg & 0x80 == 0 ==> reg << 1 == crc_shift(reg),
{
    assert(reg & 0x80 != 0 <==> reg >= 128) by (bit_vector);
    assert(reg >= 128 ==> reg << 1 == ((reg - 128) as u8 * 2) as u8) by (bit_vector);
    assert(reg < 128 ==> reg << 1 == (reg * 2) as u8) by (bit_vector);
}

/// Sensirion CRC-8: poly 0x31, init 0xFF, no reflection, no final XOR.
pub fn crc8(data: &[u8]) -> (crc: u8)
    ensures
        crc == crc8_of(data@),
{
    let mut crc: u8 = 0xff;
    let mut i: usize = 0;
    while i < data.len()
        invariant
            i <= data@.len(),
            crc == crc8_of(data@.take(i as int)),
        decreases data.len() - i,
    {
        crc = crc ^ data[i];
        let ghost start = crc;
        let mut bit: u8 = 0;
        while bit < 8
            invariant
                bit <= 8,
                crc == crc_shifts(start, bit as nat),
            decreases 8 - bit,
        {
            proof {
                lemma_shift_step(crc);
            }
            crc = if crc & 0x80 != 0 {
                (crc << 1) ^ 0x31
            } else {
                crc << 1
            };
            bit += 1;
        }
        proof {
            let longer = data@.take(i + 1);
            assert(longer.drop_last() =~= data@.take(i as int));
            assert(longer.last() == data@[i as int]);
        }
        i += 1;
    }
    assert(data@.take(i as int) =~= data@);
    crc
}

// ---------------------------------------------------------------------------
// Frames and words
// ---------------------------------------------------------------------------

/// The I2C address of the sensor.
pub const ADDR: u8 = 0x61;

/// Start continuous measurement; takes a pressure argument.
pub const CMD_START_CONTINUOUS: u16 = 0x0010;

/// Ask whether a fresh sample is waiting.
pub const CMD_DATA_READY: u16 = 0x0202;

/// Fetch the sample.
pub const CMD_READ_MEASUREMENT: u16 = 0x0300;

/// Ask for the firmware version.
pub const CMD_FIRMWARE_VERSION: u16 = 0xD100;

/// A 16-bit word as two bytes, the high one first.
pub open spec fn word_bytes(word: u16) -> Seq<u8> {
    seq![(word / 256) as u8, (word % 256) as u8]
}

/// The word that two bytes stand for, the high one first.
pub open spec fn word_of(hi: u8, lo: u8) -> u16 {
    (hi * 256 + lo) as u16
}

/// How many whole words of two bytes and a CRC there are in `buf`.
pub open spec fn word_count(buf: Seq<u8>) -> nat {
    buf.len() / 3
}

/// The CRC behind word `k` is the one of its two bytes.
pub open spec fn word_intact(buf: Seq<u8>, k: int) -> bool {
    crc8_of(seq![buf[3 * k], buf[3 * k + 1]]) == buf[3 * k + 2]
}

/// Every CRC in `buf` fits its word.
pub open spec fn all_intact(buf: Seq<u8>) -> bool {
    forall|k: int| 0 <= k < word_count(buf) ==> #[trigger] word_intact(buf, k)
}

/// The words in `buf`.
pub open spec fn words_of(buf: Seq<u8>) -> Seq<u16> {
    Seq::new(word_count(buf), |k: int| word_of(buf[3 * k], buf[3 * k + 1]))
}

/// The bytes that select a command.
pub fn command_frame(cmd: u16) -> (frame: [u8; 2])
    ensures
        frame@ == word_bytes(cmd),
        frame@[0] * 256 + frame@[1] == cmd,
{
    let frame: [u8; 2] = [(cmd / 256) as u8, (cmd % 256) as u8];
    assert(frame@ =~= word_bytes(cmd));
    frame
}

/// The bytes of a command with a 16-bit argument and the CRC of that argument.
pub fn arg_frame(cmd: u16, arg: u16) -> (frame: [u8; 5])
    ensures
        frame@ == word_bytes(cmd) + word_bytes(arg).push(crc8_of(word_bytes(arg))),
        frame@[0] * 256 + frame@[1] == cmd,
        frame@[2] * 256 + frame@[3] == arg,
        frame@[4] == crc8_of(seq![frame@[2], frame@[3]]),
{
    let c = command_frame(cmd);
    let a = command_frame(arg);
    let crc = crc8(&a);
    let frame: [u8; 5] = [c[0], c[1], a[0], a[1], crc];
    assert(frame@ =~= word_bytes(cmd) + word_bytes(arg).push(crc8_of(word_bytes(arg))));
    assert(seq![frame@[2], frame@[3]] =~= word_bytes(arg));
    frame
}

/// Take the words out of what the sensor sent, verifying each CRC. `None` where
/// one of them does not fit.
pub fn decode_words(buf: &[u8]) -> (words: Option<Vec<u16>>)
    ensures
        words is Some <==> all_intact(buf@),
        words matches Some(w) ==> w@ == words_of(buf@),
        words matches Some(w) ==> {
            &&& w@.len() == buf@.len() / 3
            &&& forall|k: int|
                0 <= k < w@.len() ==> #[trigger] w@[k] == buf@[3 * k] * 256 + buf@[3 * k + 1]
        },
{
    let count: usize = buf.len() / 3;
    let mut words: Vec<u16> = Vec::new();
    let mut k: usize = 0;
    while k < count
        invariant
            count == word_count(buf@),
            k <= count,
            3 * count <= buf.len(),
            words@ == words_of(buf@).take(k as int),
            forall|j: int| 0 <= j < k ==> #[trigger] word_intact(buf@, j),
        decreases count - k,
    {
        let pair: [u8; 2] = [buf[3 * k], buf[3 * k + 1]];
        assert(pair@ =~= seq![buf@[3 * k], buf@[3 * k + 1]]);
        if crc8(&pair) != buf[3 * k + 2] {
            assert(!word_intact(buf@, k as int));
            return None;
        }
        words.push(pair[0] as u16 * 256 + pair[1] as u16);
        k += 1;
        assert(words@ =~= words_of(buf@).take(k as int));
    }
    assert(words@ =~= words_of(buf@));
    Some(words)
}

/// Reassemble the bit pattern of a big-endian IEEE-754 f32 from its high and
/// low 16-bit words.
pub fn f32_from_words(hi: u16, lo: u16) -> (bits: u32)
    ensures
        bits == hi * 0x1_0000 + lo,
{
    hi as u32 * 0x1_0000 + lo as u32
}

/// The text of a command: `0x` and four hexadecimal digits.
pub open spec fn command_digits(cmd: u16) -> Seq<char> {
    "0x"@ + hex_byte((cmd / 256) as u8) + hex_byte((cmd % 256) as u8)
}

/// Write a command as `0x` and four hexadecimal digits.
pub fn command_text(cmd: u16) -> (text: String)
    ensures
        text@ == command_digits(cmd),
{
    let mut text = String::new();
    text.append("0x");
    push_hex_byte(&mut text, (cmd / 256) as u8);
    push_hex_byte(&mut text, (cmd % 256) as u8);
    assert(text@ =~= command_digits(cmd));
    text
}

// ---------------------------------------------------------------------------
// The measuring loop
// ---------------------------------------------------------------------------

/// How many failures since the last sample mean that the sensor fell off the bus,
/// whatever polls that found nothing ready lie between them.
pub const MAX_ERRORS: u32 = 3;

/// Where the loop stands: what it is waiting for.
#[derive(Clone, Copy, Debug, PartialEq, Eq, Structural)]
pub enum Phase {
    /// For the firmware version, to see whether the sensor is there.
    Probing,
    /// Before the next look for a sensor that was not there.
    Absent,
    /// For the start of the measurement to go through.
    Starting,
    /// Before the next try to start it.
    StartRetry,
    /// Before the next poll; `errors` polls have failed since the last sample.
    Pausing { errors: u32 },
    /// For the data-ready status.
    Polling { errors: u32 },
    /// For the sample.
    Measuring { errors: u32 },
}

/// What is to be done next.
#[derive(Clone, Copy, Debug, PartialEq, Eq, Structural)]
pub enum Task {
    /// Send a command and read `count` words.
    ReadWords { command: u16, count: usize },
    /// Send a command with an argument.
    WriteArg { command: u16, argument: u16 },
    /// Wait for so many seconds.
    Sleep { seconds: u64 },
}

/// How it went.
#[derive(Debug)]
pub enum Outcome {
    /// The words arrived.
    Words(Vec<u16>),
    /// The command went through, or the wait is over.
    Done,
    /// The bus or a CRC failed.
    Failed,
}

/// What there is to report and to show after a step.
#[derive(Clone, Copy, Debug, PartialEq, Eq, Structural)]
pub enum Report {
    /// Nothing.
    Quiet,
    /// The sensor answered with its firmware version.
    Found { major: u8, minor: u8 },
    /// The sensor did not answer: show the pending color, and say so if
    /// `announce`, once for each absence.
    Missing { announce: bool },
    /// Continuous measurement started.
    Started,
    /// It could not be started.
    StartFailed,
    /// The sensor stopped answering; it will be initialized again.
    Stopped,
    /// A sample could not be read.
    MeasurementFailed,
    /// A sample: CO2 in ppm, temperature in °C, relative humidity in %, each as
    /// the bit pattern of an f32. The color follows the CO2.
    Measured { co2: u32, temperature: u32, humidity: u32 },
}

/// The state of the loop as a mathematical value.
pub struct LoopState {
    pub phase: Phase,
    pub announced_missing: bool,
}

/// What each phase waits for.
pub open spec fn task_of(phase: Phase) -> Task {
    match phase {
        Phase::Probing => Task::ReadWords { command: CMD_FIRMWARE_VERSION, count: 1 },
        Phase::Absent | Phase::StartRetry | Phase::Pausing { .. } => Task::Sleep { seconds: 2 },
        Phase::Starting => Task::WriteArg { command: CMD_START_CONTINUOUS, argument: 0 },
        Phase::Polling { .. } => Task::ReadWords { command: CMD_DATA_READY, count: 1 },
        Phase::Measuring { .. } => Task::ReadWords { command: CMD_READ_MEASUREMENT, count: 6 },
    }
}

/// `outcome` is one that `task` can have.
pub open spec fn outcome_fits(task: Task, outcome: Outcome) -> bool {
    match task {
        Task::ReadWords { count, .. } => match outcome {
            Outcome::Words(words) => words@.len() == count,
            Outcome::Done => false,
            Outcome::Failed => true,
        },
        Task::WriteArg { .. } => !(outcome is Words),
        Task::Sleep { .. } => outcome is Done,
    }
}

/// Where a failed poll leads, when `errors` had failed before.
pub open spec fn after_failure(errors: u32) -> Phase {
    if errors + 1 >= MAX_ERRORS {
        Phase::Probing
    } else {
        Phase::Pausing { errors: (errors + 1) as u32 }
    }
}

/// The bit pattern of the f32 in words `k` and `k + 1`.
pub open spec fn f32_at(words: Seq<u16>, k: int) -> u32 {
    (words[k] * 0x1_0000 + words[k + 1]) as u32
}

impl LoopState {
    /// Fewer failures are pending than lead to a new initialization.
    pub open spec fn valid(self) -> bool {
        match self.phase {
            Phase::Pausing { errors } | Phase::Polling { errors } | Phase::Measuring {
                errors,
            } => errors < MAX_ERRORS,
            _ => true,
        }
    }

    /// Where `outcome` leads.
    pub open spec fn next(self, outcome: Outcome) -> LoopState {
        let phase = match self.phase {
            Phase::Probing => if outcome is Words {
                Phase::Starting
            } else {
                Phase::Absent
            },
            Phase::Absent | Phase::StartRetry => Phase::Probing,
            Phase::Starting => if outcome is Done {
                Phase::Pausing { errors: 0 }
            } else {
                Phase::StartRetry
            },
            Phase::Pausing { errors } => Phase::Polling { errors },
            Phase::Polling { errors } => match outcome {
                Outcome::Words(words) => if words@[0] == 1 {
                    Phase::Measuring { errors }
                } else {
                    Phase::Pausing { errors }
                },
                _ => after_failure(errors),
            },
            Phase::Measuring { errors } => if outcome is Words {
                Phase::Pausing { errors: 0 }
            } else {
                after_failure(errors)
            },
        };
        LoopState {
            phase,
            announced_missing: if self.phase is Probing {
                !(outcome is Words)
            } else {
                self.announced_missing
            },
        }
    }

    /// What `outcome` gives to report.
    pub open spec fn report(self, outcome: Outcome) -> Report {
        match (self.phase, outcome) {
            (Phase::Probing, Outcome::Words(words)) => Report::Found {
                major: (words@[0] / 256) as u8,
                minor: (words@[0] % 256) as u8,
            },
            (Phase::Probing, _) => Report::Missing { announce: !self.announced_missing },
            (Phase::Starting, Outcome::Done) => Report::Started,
            (Phase::Starting, _) => Report::StartFailed,
            (Phase::Polling { errors }, Outcome::Failed) => if errors + 1 >= MAX_ERRORS {
                Report::Stopped
            } else {
                Report::Quiet
            },
            (Phase::Measuring { .. }, Outcome::Words(words)) => Report::Measured {
                co2: f32_at(words@, 0),
                temperature: f32_at(words@, 2),
                humidity: f32_at(words@, 4),
            },
            (Phase::Measuring { .. }, _) => Report::MeasurementFailed,
            _ => Report::Quiet,
        }
    }
}

/// The loop that finds the sensor, starts it, and reads it. It heals itself: a
/// sensor that is absent or drops off the bus is looked for again.
#[derive(Debug)]
pub struct Scd30 {
    phase: Phase,
    announced_missing: bool,
}

impl View for Scd30 {
    type V = LoopState;

    closed spec fn view(&self) -> LoopState {
        LoopState { phase: self.phase, announced_missing: self.announced_missing }
    }
}

impl Scd30 {
    /// Begin by looking for the sensor.
    pub fn new() -> (sensor: Scd30)
        ensures
            sensor@ == (LoopState { phase: Phase::Probing, announced_missing: false }),
            sensor@.valid(),
    {
        Scd30 { phase: Phase::Probing, announced_missing: false }
    }

    /// What is to be done next.
    pub fn task(&self) -> (task: Task)
        ensures
            task == task_of(self@.phase),
    {
        match self.phase {
            Phase::Probing => Task::ReadWords { command: CMD_FIRMWARE_VERSION, count: 1 },
            Phase::Absent | Phase::StartRetry | Phase::Pausing { .. } => Task::Sleep { seconds: 2 },
            Phase::Starting => Task::WriteArg { command: CMD_START_CONTINUOUS, argument: 0 },
            Phase::Polling { .. } => Task::ReadWords { command: CMD_DATA_READY, count: 1 },
            Phase::Measuring { .. } => Task::ReadWords { command: CMD_READ_MEASUREMENT, count: 6 },
        }
    }

    /// Count a failed poll. Whether there were too many.
    fn fail(&mut self, errors: u32) -> (lost: bool)
        requires
            errors < MAX_ERRORS,
        ensures
            final(self)@ == (LoopState { phase: after_failure(errors), ..old(self)@ }),
            lost == (errors + 1 >= MAX_ERRORS),
    {
        if errors + 1 >= MAX_ERRORS {
            self.phase = Phase::Probing;
            true
        } else {
            self.phase = Phase::Pausing { errors: errors + 1 };
            false
        }
    }

    /// Go on with the outcome of the task.
    pub fn step(&mut self, outcome: &Outcome) -> (report: Report)
        requires
            old(self)@.valid(),
            outcome_fits(task_of(old(self)@.phase), *outcome),
        ensures
            final(self)@ == old(self)@.next(*outcome),
            final(self)@.valid(),
            report == old(self)@.report(*outcome),
    {
        match self.phase {
            Phase::Probing => match outcome {
                Outcome::Words(words) => {
                    self.phase = Phase::Starting;
                    self.announced_missing = false;
                    Report::Found { major: (words[0] / 256) as u8, minor: (words[0] % 256) as u8 }
                },
                _ => {
                    let announce = !self.announced_missing;
                    self.phase = Phase::Absent;
                    self.announced_missing = true;
                    Report::Missing { announce }
                },
            },
            Phase::Absent | Phase::StartRetry => {
                self.phase = Phase::Probing;
                Report::Quiet
            },
            Phase::Starting => match outcome {
                Outcome::Done => {
                    self.phase = Phase::Pausing { errors: 0 };
                    Report::Started
                },
                _ => {
                    self.phase = Phase::StartRetry;
                    Report::StartFailed
                },
            },
            Phase::Pausing { errors } => {
                self.phase = Phase::Polling { errors };
                Report::Quiet
            },
            Phase::Polling { errors } => match outcome {
                Outcome::Words(words) => {
                    if words[0] == 1 {
                        self.phase = Phase::Measuring { errors };
                    } else {
                        self.phase = Phase::Pausing { errors };
                    }
                    Report::Quiet
                },
                _ => {
                    if self.fail(errors) {
                        Report::Stopped
                    } else {
                        Report::Quiet
                    }
                },
            },
            Phase::Measuring { errors } => match outcome {
                Outcome::Words(words) => {
                    self.phase = Phase::Pausing { errors: 0 };
                    Report::Measured {
                        co2: f32_from_words(words[0], words[1]),
                        temperature: f32_from_words(words[2], words[3]),
                        humidity: f32_from_words(words[4], words[5]),
                    }
                },
                _ => {
                    let _ = self.fail(errors);
                    Report::MeasurementFailed
                },
            },
        }
    }
}

// ---------------------------------------------------------------------------
// The light
// ---------------------------------------------------------------------------

/// What the LED is set to.
#[derive(Clone, Copy, Debug, PartialEq, Eq, Structural)]
pub enum Light {
    /// There is no reading.
    Pending,
    /// The CO2 value with this bit pattern.
    Measured { co2: u32 },
}

/// Where on the color scale a light lies.
pub open spec fn light_band(light: Light) -> Band {
    match light {
        Light::Pending => Band::Solid { color: pending() },
        Light::Measured { co2 } => band_of(co2),
    }
}

/// What a report sets the LED to; nothing where it leaves it as it is.
pub open spec fn light_of(report: Report) -> Option<Light> {
    match report {
        Report::Missing { .. } => Some(Light::Pending),
        Report::Measured { co2, .. } => Some(Light::Measured { co2 }),
        _ => None,
    }
}

/// What the LED is set to before the first task.
pub fn first_light() -> (light: Light)
    ensures
        light == Light::Pending,
{
    Light::Pending
}

impl Light {
    /// Where on the color scale the light lies.
    pub fn band(&self) -> (band: Band)
        ensures
            band == light_band(*self),
    {
        match self {
            Light::Pending => Band::Solid { color: pending_color() },
            Light::Measured { co2 } => co2_band(*co2),
        }
    }
}

impl Report {
    /// What the report sets the LED to; nothing where it leaves it as it is.
    pub fn light(&self) -> (light: Option<Light>)
        ensures
            light == light_of(*self),
    {
        match self {
            Report::Missing { .. } => Some(Light::Pending),
            Report::Measured { co2, .. } => Some(Light::Measured { co2: *co2 }),
            _ => None,
        }
    }
}

// ---------------------------------------------------------------------------
// Laws
// ---------------------------------------------------------------------------

/// Data followed by its own CRC has the CRC zero.
pub proof fn law_crc_residue_is_zero(data: Seq<u8>)
    ensures
        crc8_of(data.push(crc8_of(data))) == 0,
{
    let crc = crc8_of(data);
    assert(data.push(crc).drop_last() =~= data);
    assert(crc ^ crc == 0) by (bit_vector);
    reveal_with_fuel(crc_shifts, 9);
}

/// Two different registers stay different under the division.
proof fn lemma_shifts_injective(a: u8, b: u8, n: nat)
    requires
        crc_shifts(a, n) == crc_shifts(b, n),
    ensures
        a == b,
    decreases n,
{
    if n > 0 {
        let c = crc_shifts(a, (n - 1) as nat);
        let d = crc_shifts(b, (n - 1) as nat);
        lemma_shift_step(c);
        lemma_shift_step(d);
        assert((if c & 0x80 != 0 { (c << 1) ^ 0x31 } else { c << 1 }) == (if d & 0x80 != 0 {
            (d << 1) ^ 0x31
        } else {
            d << 1
        }) ==> c == d) by (bit_vector);
        lemma_shifts_injective(a, b, (n - 1) as nat);
    }
}

/// A single damaged byte never goes unnoticed: two messages of one length that
/// differ in exactly one byte have different CRCs.
pub proof fn law_damaged_byte_changes_crc(data: Seq<u8>, at: int, byte: u8)
    requires
        0 <= at < data.len(),
        data[at] != byte,
    ensures
        crc8_of(data.update(at, byte)) != crc8_of(data),
    decreases data.len(),
{
    let damaged = data.update(at, byte);
    let x = crc8_of(data.drop_last());
    let y = crc8_of(damaged.drop_last());
    let p = data.last();
    let q = damaged.last();
    if at == data.len() - 1 {
        assert(damaged.drop_last() =~= data.drop_last());
        assert(p != q ==> x ^ p != x ^ q) by (bit_vector);
    } else {
        law_damaged_byte_changes_crc(data.drop_last(), at, byte);
        assert(damaged.drop_last() =~= data.drop_last().update(at, byte));
        assert(x != y ==> x ^ p != y ^ p) by (bit_vector);
    }
    if crc8_of(damaged) == crc8_of(data) {
        lemma_shifts_injective(x ^ p, y ^ q, 8);
    }
}

/// What a byte does to the CRC of what came before it depends on nothing but the two,
/// taken together bit by bit. This is multiplication by x^8 modulo
/// x^8 + x^5 + x^4 + 1: it respects sums, takes one to x^5 + x^4 + 1, and doubling what
/// goes in moves what comes out up by one bit, with the polynomial taken off where that
/// runs over. Before the first byte all bits are set.
pub proof fn law_crc_is_a_remainder(data: Seq<u8>, a: u8, b: u8)
    ensures
        crc8_of(Seq::empty()) == 0xff,
        crc8_of(data.push(crc8_of(data) ^ (a ^ b))) == crc8_of(data.push(crc8_of(data) ^ a))
            ^ crc8_of(data.push(crc8_of(data) ^ b)),
        crc8_of(data.push(crc8_of(data) ^ 1)) == 0x31,
        a < 128 ==> ({
            let out = crc8_of(data.push(crc8_of(data) ^ a)) as int;
            crc8_of(data.push(crc8_of(data) ^ ((2 * a) as u8))) == if out < 128 {
                (2 * out) as u8
            } else {
                (2 * out - 256) as u8 ^ 0x31
            }
        }),
{
    let crc = crc8_of(data);
    lemma_crc_of_pushed(data, a ^ b);
    lemma_crc_of_pushed(data, a);
    lemma_crc_of_pushed(data, b);
    lemma_crc_of_pushed(data, 1);
    lemma_shifts_add(a, b, 8);
    lemma_shifts_of_one();
    if a < 128 {
        let twice = (2 * a) as u8;
        lemma_crc_of_pushed(data, twice);
        assert(crc_shift(a) == twice);
        lemma_shift_first(a, 8);
    }
}

/// The CRC of longer data, when the register meets `a`.
proof fn lemma_crc_of_pushed(data: Seq<u8>, a: u8)
    ensures
        crc8_of(data.push(crc8_of(data) ^ a)) == crc_shifts(a, 8),
{
    let crc = crc8_of(data);
    let longer = data.push(crc ^ a);
    assert(longer.drop_last() =~= data);
    assert(crc ^ (crc ^ a) == a) by (bit_vector);
}

/// The division respects sums.
proof fn lemma_shifts_add(a: u8, b: u8, n: nat)
    ensures
        crc_shifts(a ^ b, n) == crc_shifts(a, n) ^ crc_shifts(b, n),
    decreases n,
{
    if n > 0 {
        let m = (n - 1) as nat;
        lemma_shifts_add(a, b, m);
        let c = crc_shifts(a, m);
        let d = crc_shifts(b, m);
        lemma_shift_step(c);
        lemma_shift_step(d);
        lemma_shift_step(c ^ d);
        assert((if (c ^ d) & 0x80 != 0 { ((c ^ d) << 1) ^ 0x31 } else { (c ^ d) << 1 }) == (
        if c & 0x80 != 0 { (c << 1) ^ 0x31 } else { c << 1 }) ^ (if d & 0x80 != 0 {
            (d << 1) ^ 0x31
        } else {
            d << 1
        })) by (bit_vector);
    }
}

/// The first bit of the division can as well be the last.
proof fn lemma_shift_first(a: u8, n: nat)
    ensures
        crc_shifts(crc_shift(a), n) == crc_shift(crc_shifts(a, n)),
    decreases n,
{
    if n > 0 {
        lemma_shift_first(a, (n - 1) as nat);
    }
}

proof fn lemma_shifts_of_one()
    ensures
        crc_shifts(1, 8) == 0x31,
{
    reveal_with_fuel(crc_shifts, 9);
    assert(0u8 ^ 0x31 == 0x31) by (bit_vector);
}

/// Words as a sensor sends them: each as its high and its low byte and the CRC of these
/// two.
pub open spec fn sent(words: Seq<u16>) -> Seq<u8>
    decreases words.len(),
{
    if words.len() == 0 {
        Seq::empty()
    } else {
        let hi = (words.last() / 256) as u8;
        let lo = (words.last() % 256) as u8;
        sent(words.drop_last()) + seq![hi, lo, crc8_of(seq![hi, lo])]
    }
}

/// Words that are sent are taken out again, all of them and in order, however many there
/// are.
pub proof fn law_words_read_back(words: Seq<u16>)
    ensures
        sent(words).len() == 3 * words.len(),
        all_intact(sent(words)),
        words_of(sent(words)) == words,
    decreases words.len(),
{
    let buf = sent(words);
    if words.len() > 0 {
        let shorter = words.drop_last();
        let before = sent(shorter);
        law_words_read_back(shorter);
        let n = shorter.len() as int;
        assert forall|k: int| 0 <= k < n + 1 implies #[trigger] word_intact(buf, k) by {
            if k < n {
                assert(word_intact(before, k));
                assert(buf[3 * k] == before[3 * k]);
                assert(buf[3 * k + 1] == before[3 * k + 1]);
                assert(buf[3 * k + 2] == before[3 * k + 2]);
            } else {
                assert(seq![buf[3 * k], buf[3 * k + 1]] =~= seq![
                    (words.last() / 256) as u8,
                    (words.last() % 256) as u8,
                ]);
            }
        }
        assert forall|k: int| 0 <= k < n + 1 implies #[trigger] words_of(buf)[k] == words[k] by {
            if k < n {
                assert(words_of(before)[k] == shorter[k]);
                assert(buf[3 * k] == before[3 * k]);
                assert(buf[3 * k + 1] == before[3 * k + 1]);
            }
        }
        assert(words_of(buf) =~= words);
    } else {
        assert(words_of(buf) =~= words);
    }
}

/// Damage to a single byte of what a sensor sends, in whatever word and be it the CRC,
/// never goes unnoticed.
pub proof fn law_damaged_word_is_refused(words: Seq<u16>, at: int, byte: u8)
    requires
        0 <= at < 3 * words.len(),
        sent(words)[at] != byte,
    ensures
        !all_intact(sent(words).update(at, byte)),
{
    law_words_read_back(words);
    let buf = sent(words);
    let damaged = buf.update(at, byte);
    let k = at / 3;
    assert(word_intact(buf, k));
    let pair = seq![buf[3 * k], buf[3 * k + 1]];
    let now = seq![damaged[3 * k], damaged[3 * k + 1]];
    if at % 3 < 2 {
        assert(now =~= pair.update(at % 3, byte));
        law_damaged_byte_changes_crc(pair, at % 3, byte);
    } else {
        assert(now =~= pair);
    }
    assert(!word_intact(damaged, k));
}

/// A sample that was sent as six words, two for each number and the high one first, is
/// reported as its CO2, its temperature and its humidity.
pub proof fn law_sample_is_reported(
    state: LoopState,
    words: Vec<u16>,
    co2: u32,
    temperature: u32,
    humidity: u32,
)
    requires
        state.phase is Measuring,
        words@ == seq![
            (co2 / 0x1_0000) as u16,
            (co2 % 0x1_0000) as u16,
            (temperature / 0x1_0000) as u16,
            (temperature % 0x1_0000) as u16,
            (humidity / 0x1_0000) as u16,
            (humidity % 0x1_0000) as u16,
        ],
    ensures
        state.report(Outcome::Words(words)) == (Report::Measured { co2, temperature, humidity }),
        light_of(state.report(Outcome::Words(words))) == Some(Light::Measured { co2 }),
{
}

/// The firmware version is reported as the two bytes of the word that the sensor sent.
pub proof fn law_version_is_reported(state: LoopState, words: Vec<u16>)
    requires
        state.phase is Probing,
        words@.len() == 1,
    ensures
        state.report(Outcome::Words(words)) matches Report::Found { major, minor } && major * 256
            + minor == words@[0],
{
}

/// What the loop asks for: the firmware version to find a sensor, the start of continuous
/// measurement once it is found, then the status and, when that is one, the sample.
/// Between two tries and between two polls it waits for two seconds, whatever went wrong
/// before.
pub proof fn law_tasks_of_the_loop(phase: Phase)
    ensures
        phase is Probing ==> task_of(phase) == (Task::ReadWords { command: 0xD100, count: 1 }),
        phase is Starting ==> task_of(phase) == (Task::WriteArg { command: 0x0010, argument: 0 }),
        phase is Polling ==> task_of(phase) == (Task::ReadWords { command: 0x0202, count: 1 }),
        phase is Measuring ==> task_of(phase) == (Task::ReadWords { command: 0x0300, count: 6 }),
        phase is Absent || phase is StartRetry || phase is Pausing ==> task_of(phase) == (
        Task::Sleep { seconds: 2 }),
{
}

/// A status of one leads to the sample at once, any other one to the next poll; neither
/// counts as a failure nor makes up for one.
pub proof fn law_status_decides(state: LoopState, words: Vec<u16>)
    requires
        state.phase is Polling,
        words@.len() == 1,
    ensures
        words@[0] == 1 ==> state.next(Outcome::Words(words)).phase == (Phase::Measuring {
            errors: state.phase->Polling_errors,
        }),
        words@[0] != 1 ==> state.next(Outcome::Words(words)).phase == (Phase::Pausing {
            errors: state.phase->Polling_errors,
        }),
        state.report(Outcome::Words(words)) is Quiet,
{
}

/// A sensor that is not there, or that could not be started, is looked for again after a
/// wait, and so is one that failed three times.
pub proof fn law_sensor_is_looked_for_again(state: LoopState)
    requires
        state.valid(),
    ensures
        state.phase is Probing || state.phase is Starting ==> {
            &&& task_of(state.next(Outcome::Failed).phase) is Sleep
            &&& state.next(Outcome::Failed).next(Outcome::Done).phase is Probing
        },
        state.phase is Starting ==> state.report(Outcome::Failed) is StartFailed,
        state.phase is Starting ==> state.report(Outcome::Done) is Started,
        state.phase is Probing ==> state.report(Outcome::Failed) == (Report::Missing {
            announce: !state.announced_missing,
        }),
        state.phase is Measuring ==> state.report(Outcome::Failed) is MeasurementFailed,
        state.phase is Polling ==> (state.report(Outcome::Failed) is Stopped <==> state.next(
            Outcome::Failed,
        ).phase is Probing),
        state.phase is Polling ==> state.report(Outcome::Failed) is Stopped || state.report(
            Outcome::Failed,
        ) is Quiet,
        match state.phase {
            Phase::Polling { errors } | Phase::Measuring { errors } => state.next(
                Outcome::Failed,
            ).phase == if errors == 2 {
                Phase::Probing
            } else {
                Phase::Pausing { errors: (errors + 1) as u32 }
            },
            _ => true,
        },
        state.phase is Pausing ==> state.next(Outcome::Done).phase == (Phase::Polling {
            errors: state.phase->Pausing_errors,
        }),
{
}

/// Whatever can come of a task is taken: the words that were asked for, a failure of the bus,
/// a command that went through, the end of a wait.
pub proof fn law_every_outcome_is_taken(command: u16, argument: u16, seconds: u64, words: Vec<u16>)
    ensures
        outcome_fits(Task::ReadWords { command, count: words@.len() as usize }, Outcome::Failed),
        words@.len() <= usize::MAX ==> outcome_fits(
            Task::ReadWords { command, count: words@.len() as usize },
            Outcome::Words(words),
        ),
        outcome_fits(Task::WriteArg { command, argument }, Outcome::Done),
        outcome_fits(Task::WriteArg { command, argument }, Outcome::Failed),
        outcome_fits(Task::Sleep { seconds }, Outcome::Done),
{
}

/// A command is written as `0x` and its four hexadecimal digits, those of the high byte
/// first.
pub proof fn law_command_in_hex(cmd: u16, hi: u8, lo: u8)
    requires
        cmd == hi * 256 + lo,
    ensures
        command_digits(cmd).len() == 6,
        command_digits(cmd)[0] == '0',
        command_digits(cmd)[1] == 'x',
        command_digits(cmd)[2] == ("0123456789abcdef"@)[hi as int / 16],
        command_digits(cmd)[3] == ("0123456789abcdef"@)[hi as int % 16],
        command_digits(cmd)[4] == ("0123456789abcdef"@)[lo as int / 16],
        command_digits(cmd)[5] == ("0123456789abcdef"@)[lo as int % 16],
{
    assert((cmd / 256) as u8 == hi && (cmd % 256) as u8 == lo);
    law_hex_digits(seq![hi], 0);
    law_hex_digits(seq![lo], 0);
    reveal_strlit("0x");
    assert(command_digits(cmd) == "0x"@ + hex_byte(hi) + hex_byte(lo));
}

/// Whether an absence was announced changes only with a look for the sensor: one that
/// fails leaves it announced, one that finds the sensor makes the next absence news.
pub proof fn law_next_absence_is_news(state: LoopState, outcome: Outcome)
    ensures
        state.phase is Probing ==> state.next(outcome).announced_missing == !(outcome is Words),
        !(state.phase is Probing) ==> state.next(outcome).announced_missing
            == state.announced_missing,
{
}

/// The argument behind a command reads back as a word: what is written is what
/// the other side takes out, with a CRC that fits.
pub proof fn law_argument_reads_back(cmd: u16, arg: u16, frame: Seq<u8>)
    requires
        frame == word_bytes(cmd) + word_bytes(arg).push(crc8_of(word_bytes(arg))),
    ensures
        all_intact(frame.skip(2)),
        words_of(frame.skip(2)) == seq![arg],
{
    let tail = frame.skip(2);
    assert(tail =~= word_bytes(arg).push(crc8_of(word_bytes(arg))));
    assert(seq![tail[0], tail[1]] =~= word_bytes(arg));
    assert(word_intact(tail, 0));
    assert(words_of(tail) =~= seq![arg]);
}

/// The state after a run of outcomes.
pub open spec fn run(start: LoopState, outcomes: Seq<Outcome>) -> LoopState
    decreases outcomes.len(),
{
    if outcomes.len() == 0 {
        start
    } else {
        run(start, outcomes.drop_last()).next(outcomes.last())
    }
}

/// Every outcome of the run is one that the task at hand can have.
pub open spec fn run_fits(start: LoopState, outcomes: Seq<Outcome>) -> bool
    decreases outcomes.len(),
{
    outcomes.len() > 0 ==> {
        &&& run_fits(start, outcomes.drop_last())
        &&& outcome_fits(task_of(run(start, outcomes.drop_last()).phase), outcomes.last())
    }
}

/// No sample was read in the run.
pub open spec fn run_unmeasured(start: LoopState, outcomes: Seq<Outcome>) -> bool
    decreases outcomes.len(),
{
    outcomes.len() > 0 ==> {
        &&& run_unmeasured(start, outcomes.drop_last())
        &&& !(run(start, outcomes.drop_last()).phase is Measuring && outcomes.last() is Words)
    }
}

/// How many of the outcomes are failures.
pub open spec fn failures(outcomes: Seq<Outcome>) -> nat
    decreases outcomes.len(),
{
    if outcomes.len() == 0 {
        0
    } else if outcomes.last() is Failed {
        failures(outcomes.drop_last()) + 1
    } else {
        failures(outcomes.drop_last())
    }
}

/// How many failures a phase remembers.
pub open spec fn remembered(phase: Phase) -> Option<u32> {
    match phase {
        Phase::Pausing { errors } | Phase::Polling { errors } | Phase::Measuring { errors } => Some(
            errors,
        ),
        _ => None,
    }
}

/// From a fresh start or a fresh sample on, with no sample in between, fewer
/// than three failed polls keep the loop polling, however many polls find
/// nothing ready; the third sends it back to look for the sensor.
pub proof fn law_third_failure_reinitializes(start: LoopState, outcomes: Seq<Outcome>)
    requires
        start.phase == (Phase::Pausing { errors: 0 }),
        run_fits(start, outcomes),
        run_unmeasured(start, outcomes),
        outcomes.len() > 0 ==> failures(outcomes.drop_last()) < MAX_ERRORS,
    ensures
        failures(outcomes) < MAX_ERRORS ==> remembered(run(start, outcomes).phase) == Some(
            failures(outcomes) as u32,
        ),
        failures(outcomes) == MAX_ERRORS ==> run(start, outcomes).phase is Probing,
    decreases outcomes.len(),
{
    if outcomes.len() > 0 {
        let earlier = outcomes.drop_last();
        if earlier.len() > 0 {
            assert(failures(earlier.drop_last()) <= failures(earlier));
        }
        law_third_failure_reinitializes(start, earlier);
    }
}

/// A sample wipes out the failures before it.
pub proof fn law_sample_clears_failures(state: LoopState, words: Vec<u16>)
    requires
        state.phase is Measuring,
        words@.len() == 6,
    ensures
        state.next(Outcome::Words(words)).phase == (Phase::Pausing { errors: 0 }),
{
}

/// A sensor is picked up as soon as it answers a look for it: once it has started,
/// the loop pauses and polls it, with no failures remembered.
pub proof fn law_sensor_is_picked_up(state: LoopState, version: Vec<u16>)
    requires
        state.phase is Probing,
        version@.len() == 1,
    ensures
        state.next(Outcome::Words(version)).next(Outcome::Done).next(Outcome::Done).phase == (
        Phase::Polling { errors: 0 }),
{
}

/// What the LED was set to over a run, in order: pending before the first task, then
/// whatever the reports call for.
pub open spec fn lights(start: LoopState, outcomes: Seq<Outcome>) -> Seq<Light>
    decreases outcomes.len(),
{
    if outcomes.len() == 0 {
        seq![Light::Pending]
    } else {
        let earlier = lights(start, outcomes.drop_last());
        match light_of(run(start, outcomes.drop_last()).report(outcomes.last())) {
            Some(light) => earlier.push(light),
            None => earlier,
        }
    }
}

/// The LED turns pending when a look for the sensor fails, shows the CO2 value of each
/// sample when that is read, and is set at no other time.
pub proof fn law_led_follows_the_sensor(state: LoopState, outcome: Outcome)
    requires
        state.valid(),
        outcome_fits(task_of(state.phase), outcome),
    ensures
        light_of(state.report(outcome)) == match (state.phase, outcome) {
            (Phase::Probing, Outcome::Failed) => Some(Light::Pending),
            (Phase::Measuring { .. }, Outcome::Words(words)) => Some(
                Light::Measured { co2: f32_at(words@, 0) },
            ),
            _ => None::<Light>,
        },
{
}

/// The LED lies off the scale while there is no reading, and otherwise where the CO2 value
/// puts it.
pub proof fn law_light_lies_where_the_value_is(co2: u32)
    ensures
        light_band(Light::Pending) matches Band::Solid { color } && color.r == 18 && color.g == 0
            && color.b == 24,
        light_band(Light::Measured { co2 }) == band_of(co2),
{
}

/// A sample is read only after the data-ready status was exactly one.
pub proof fn law_sample_is_read_when_ready(state: LoopState, outcome: Outcome)
    requires
        state.valid(),
        outcome_fits(task_of(state.phase), outcome),
        task_of(state.next(outcome).phase) == (Task::ReadWords {
            command: CMD_READ_MEASUREMENT,
            count: 6,
        }),
    ensures
        state.phase is Polling,
        task_of(state.phase) == (Task::ReadWords { command: CMD_DATA_READY, count: 1 }),
        outcome matches Outcome::Words(words) && words@[0] == 1,
{
}

/// Over a run that ends with a sample the LED was last set to the value of that sample,
/// after all that it was set to before.
pub proof fn law_led_ends_with_the_sample(
    start: LoopState,
    outcomes: Seq<Outcome>,
    words: Vec<u16>,
)
    requires
        run(start, outcomes).phase is Measuring,
    ensures
        lights(start, outcomes.push(Outcome::Words(words))) == lights(start, outcomes).push(
            Light::Measured { co2: f32_at(words@, 0) },
        ),
{
    assert(outcomes.push(Outcome::Words(words)).drop_last() =~= outcomes);
}

/// An absence is announced once: as long as the sensor stays away, each further
/// look for it is silent.
pub proof fn law_absence_is_announced_once(state: LoopState)
    requires
        state.phase is Probing,
    ensures
        ({
            let again = state.next(Outcome::Failed).next(Outcome::Done);
            &&& again.phase is Probing
            &&& again.report(Outcome::Failed) == (Report::Missing { announce: false })
        }),
{
}

} // verus!
