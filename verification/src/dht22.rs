//! The DHT22 temperature and humidity sensor: decoding its frame, and the
//! sequence of pin operations that reads one.

use crate::protocol::{Reading, Tenths};
use vstd::arithmetic::div_mod::lemma_fundamental_div_mod_converse;
use vstd::arithmetic::power2::{
    lemma2_to64, lemma_pow2_pos, lemma_pow2_strictly_increases, lemma_pow2_unfold, pow2,
};
use vstd::prelude::*;

verus! {

/// Per-edge timeout in microseconds.
pub const DHT_EDGE_TIMEOUT_US: i64 = 3_000;

/// A high pulse of more than so many microseconds is a one.
pub const ONE_THRESHOLD_US: i64 = 40;

/// Why a read failed.
#[derive(Clone, Copy, Debug, PartialEq, Eq, Structural)]
pub enum DhtError {
    /// The line could not be pulled low.
    SetLow,
    /// The line could not be released.
    SetHigh,
    /// An edge did not come in time.
    Timeout,
    /// The bits do not add up.
    ChecksumMismatch,
}

/// The words for an error.
pub open spec fn error_words(error: DhtError) -> Seq<char> {
    match error {
        DhtError::SetLow => "set_low"@,
        DhtError::SetHigh => "set_high"@,
        DhtError::Timeout => "timeout"@,
        DhtError::ChecksumMismatch => "checksum mismatch"@,
    }
}

impl DhtError {
    /// The words for the error.
    pub fn message(&self) -> (words: &'static str)
        ensures
            words@ == error_words(*self),
    {
        match self {
            DhtError::SetLow => "set_low",
            DhtError::SetHigh => "set_high",
            DhtError::Timeout => "timeout",
            DhtError::ChecksumMismatch => "checksum mismatch",
        }
    }
}

// ---------------------------------------------------------------------------
// The frame
// ---------------------------------------------------------------------------

/// The first four bytes add up to the fifth, modulo 256.
pub open spec fn checksum_fits(data: Seq<u8>) -> bool {
    (data[0] + data[1] + data[2] + data[3]) % 256 == data[4]
}

/// What a frame says: the humidity in the first two bytes, the temperature as
/// sign and magnitude in the next two, both in tenths.
pub open spec fn reading_of(data: Seq<u8>) -> Reading {
    Reading {
        temperature: Tenths {
            negative: data[2] >= 128,
            magnitude: ((data[2] % 128) * 256 + data[3]) as u32,
        },
        humidity: Tenths { negative: false, magnitude: (data[0] * 256 + data[1]) as u32 },
    }
}

/// The result of a frame.
pub open spec fn frame_result(data: Seq<u8>) -> Result<Reading, DhtError> {
    if checksum_fits(data) {
        Ok(reading_of(data))
    } else {
        Err(DhtError::ChecksumMismatch)
    }
}

/// Check the five bytes of a frame and decode them.
pub fn decode_frame(data: &[u8; 5]) -> (result: Result<Reading, DhtError>)
    ensures
        result == frame_result(data@),
        result is Ok <==> (data@[0] + data@[1] + data@[2] + data@[3]) % 256 == data@[4],
        result matches Err(error) ==> error == DhtError::ChecksumMismatch,
        result matches Ok(reading) ==> {
            &&& reading.humidity.magnitude == 256 * data@[0] + data@[1]
            &&& !reading.humidity.negative
            &&& reading.temperature.negative == (data@[2] >= 128)
            &&& reading.temperature.magnitude == 256 * (data@[2] % 128) + data@[3]
        },
{
    let sum: u16 = data[0] as u16 + data[1] as u16 + data[2] as u16 + data[3] as u16;
    if sum % 256 != data[4] as u16 {
        return Err(DhtError::ChecksumMismatch);
    }
    let humidity: u32 = data[0] as u32 * 256 + data[1] as u32;
    let magnitude: u32 = (data[2] % 128) as u32 * 256 + data[3] as u32;
    Ok(
        Reading {
            temperature: Tenths { negative: data[2] >= 128, magnitude },
            humidity: Tenths { negative: false, magnitude: humidity },
        },
    )
}

/// The number that a run of bits stands for, most significant first.
pub open spec fn number_of_bits(bits: Seq<bool>) -> nat
    decreases bits.len(),
{
    if bits.len() == 0 {
        0
    } else {
        2 * number_of_bits(bits.drop_last()) + if bits.last() {
            1nat
        } else {
            0nat
        }
    }
}

/// The five bytes of a 40-bit number, most significant first.
pub open spec fn frame_bytes(n: nat) -> Seq<u8> {
    seq![
        (n / 0x1_0000_0000 % 256) as u8,
        (n / 0x100_0000 % 256) as u8,
        (n / 0x1_0000 % 256) as u8,
        (n / 0x100 % 256) as u8,
        (n % 256) as u8,
    ]
}

/// Check and decode a frame that was received as one number.
fn decode_number(n: u64) -> (result: Result<Reading, DhtError>)
    ensures
        result == frame_result(frame_bytes(n as nat)),
{
    let data: [u8; 5] = [
        (n / 0x1_0000_0000 % 256) as u8,
        (n / 0x100_0000 % 256) as u8,
        (n / 0x1_0000 % 256) as u8,
        (n / 0x100 % 256) as u8,
        (n % 256) as u8,
    ];
    assert(data@ =~= frame_bytes(n as nat));
    decode_frame(&data)
}

// ---------------------------------------------------------------------------
// Waiting for an edge
// ---------------------------------------------------------------------------

/// What to do after one look at the pin.
#[derive(Clone, Copy, Debug, PartialEq, Eq, Structural)]
pub enum Wait {
    /// The level is there.
    Reached,
    /// Look again.
    Again,
    /// Too late.
    TimedOut,
}

/// One look at the pin while waiting for a level: `start` is when the wait
/// began, `now` when the pin was looked at.
pub fn wait_for(level_reached: bool, start: i64, now: i64, timeout_us: i64) -> (wait: Wait)
    requires
        i64::MIN <= now - start <= i64::MAX,
    ensures
        wait == if level_reached {
            Wait::Reached
        } else if now - start > timeout_us {
            Wait::TimedOut
        } else {
            Wait::Again
        },
{
    if level_reached {
        Wait::Reached
    } else if now - start > timeout_us {
        Wait::TimedOut
    } else {
        Wait::Again
    }
}

// ---------------------------------------------------------------------------
// Reading one frame
// ---------------------------------------------------------------------------

/// A level of the data line.
#[derive(Clone, Copy, Debug, PartialEq, Eq, Structural)]
pub enum Level {
    Low,
    High,
}

/// What is to be done with the pin next.
#[derive(Clone, Copy, Debug, PartialEq, Eq)]
pub enum PinAction {
    /// Pull the line low.
    DriveLow,
    /// Let the line go; the pull-up brings it high.
    Release,
    /// Busy-wait.
    Delay { micros: u32 },
    /// Wait until the line has this level.
    Await { level: Level, timeout_us: i64 },
    /// The read is over.
    Finished { result: Result<Reading, DhtError> },
}

/// How it went.
#[derive(Clone, Copy, Debug, PartialEq, Eq, Structural)]
pub enum PinEvent {
    /// It is done; the timer stands at `at` microseconds.
    Done { at: i64 },
    /// The pin refused, or the level did not come in time.
    Failed,
}

/// How many pin operations a read has: four for the start signal, three edges
/// of the sensor's answer, and two edges for each of the 40 bits.
pub const READ_STAGES: u32 = 87;

/// The pin operation of each stage: pull low for 3 ms, release for 40 µs, see
/// the sensor pull low, let go and pull low again; then for each bit the rising
/// and the falling edge.
pub open spec fn script(stage: int) -> PinAction {
    if stage == 0 {
        PinAction::DriveLow
    } else if stage == 1 {
        PinAction::Delay { micros: 3_000 }
    } else if stage == 2 {
        PinAction::Release
    } else if stage == 3 {
        PinAction::Delay { micros: 40 }
    } else {
        PinAction::Await {
            level: if stage % 2 == 0 {
                Level::Low
            } else {
                Level::High
            },
            timeout_us: DHT_EDGE_TIMEOUT_US,
        }
    }
}

/// The error of each stage.
pub open spec fn stage_error(stage: int) -> DhtError {
    if stage == 0 {
        DhtError::SetLow
    } else if stage == 2 {
        DhtError::SetHigh
    } else {
        DhtError::Timeout
    }
}

/// At this stage a bit ends: the line has fallen again.
pub open spec fn ends_bit(stage: int) -> bool {
    stage >= 8 && stage % 2 == 0
}

/// How many bits are in before this stage.
pub open spec fn bits_before(stage: int) -> nat {
    if stage < 8 {
        0
    } else {
        ((stage - 7) / 2) as nat
    }
}

/// A read as a mathematical value: the stage that it has reached, when the line
/// last rose, the bits so far as a number, and the result once there is one.
pub struct ReadState {
    pub stage: int,
    pub rise: int,
    pub value: nat,
    pub result: Option<Result<Reading, DhtError>>,
}

impl ReadState {
    /// The read before its first operation.
    pub open spec fn fresh() -> ReadState {
        ReadState { stage: 0, rise: 0, value: 0, result: None }
    }

    /// The stage is one of the script while there is no result, and the bits so
    /// far are as many as have been sent.
    pub open spec fn valid(self) -> bool {
        &&& self.result is None ==> 0 <= self.stage < READ_STAGES
        &&& self.result is None ==> self.value < pow2(bits_before(self.stage))
        &&& i64::MIN <= self.rise <= i64::MAX
        &&& 0 <= self.stage <= READ_STAGES
        &&& self.value <= u64::MAX
    }

    /// What is to be done next.
    pub open spec fn action(self) -> PinAction {
        match self.result {
            Some(result) => PinAction::Finished { result },
            None => script(self.stage),
        }
    }

    /// The bits after the line fell at `at`.
    pub open spec fn with_bit(self, at: int) -> nat {
        2 * self.value + if at - self.rise > ONE_THRESHOLD_US {
            1nat
        } else {
            0nat
        }
    }

    /// Where `event` leads.
    pub open spec fn next(self, event: PinEvent) -> ReadState {
        match event {
            PinEvent::Failed => ReadState { result: Some(Err(stage_error(self.stage))), ..self },
            PinEvent::Done { at } => {
                let value = if ends_bit(self.stage) {
                    self.with_bit(at as int)
                } else {
                    self.value
                };
                ReadState {
                    stage: self.stage + 1,
                    rise: at as int,
                    value,
                    result: if self.stage + 1 == READ_STAGES {
                        Some(frame_result(frame_bytes(value)))
                    } else {
                        None
                    },
                }
            },
        }
    }

    /// The timer difference that the event asks for can be taken.
    pub open spec fn accepts(self, event: PinEvent) -> bool {
        &&& self.result is None
        &&& event matches PinEvent::Done { at } ==> ends_bit(self.stage) ==> i64::MIN <= at
            - self.rise <= i64::MAX
    }
}

/// One read of 40 bits from a DHT22.
#[derive(Clone, Copy, Debug)]
pub struct Dht22Read {
    stage: u32,
    rise: i64,
    value: u64,
    result: Option<Result<Reading, DhtError>>,
}

impl View for Dht22Read {
    type V = ReadState;

    closed spec fn view(&self) -> ReadState {
        ReadState {
            stage: self.stage as int,
            rise: self.rise as int,
            value: self.value as nat,
            result: self.result,
        }
    }
}

impl Dht22Read {
    /// A read before its first operation.
    pub fn new() -> (read: Dht22Read)
        ensures
            read@ == ReadState::fresh(),
            read@.valid(),
    {
        proof {
            lemma_pow2_pos(0);
        }
        Dht22Read { stage: 0, rise: 0, value: 0, result: None }
    }

    /// The result, once there is one.
    pub fn result(&self) -> (result: Option<Result<Reading, DhtError>>)
        ensures
            result == self@.result,
    {
        self.result
    }

    /// What is to be done with the pin next.
    pub fn action(&self) -> (action: PinAction)
        requires
            self@.valid(),
        ensures
            action == self@.action(),
    {
        match self.result {
            Some(result) => PinAction::Finished { result },
            None => {
                if self.stage == 0 {
                    PinAction::DriveLow
                } else if self.stage == 1 {
                    PinAction::Delay { micros: 3_000 }
                } else if self.stage == 2 {
                    PinAction::Release
                } else if self.stage == 3 {
                    PinAction::Delay { micros: 40 }
                } else if self.stage % 2 == 0 {
                    PinAction::Await { level: Level::Low, timeout_us: DHT_EDGE_TIMEOUT_US }
                } else {
                    PinAction::Await { level: Level::High, timeout_us: DHT_EDGE_TIMEOUT_US }
                }
            },
        }
    }

    /// Whether the event is one that can follow.
    pub fn can_step(&self, event: PinEvent) -> (yes: bool)
        ensures
            yes == self@.accepts(event),
    {
        let fits = match event {
            PinEvent::Failed => true,
            PinEvent::Done { at } => {
                let width: i128 = at as i128 - self.rise as i128;
                !(self.stage >= 8 && self.stage % 2 == 0) || (i64::MIN as i128 <= width && width
                    <= i64::MAX as i128)
            },
        };
        self.result.is_none() && fits
    }

    /// Go on with how the pin operation went.
    pub fn step(&mut self, event: PinEvent)
        requires
            old(self)@.valid(),
            old(self)@.accepts(event),
        ensures
            final(self)@ == old(self)@.next(event),
            final(self)@.valid(),
    {
        match event {
            PinEvent::Failed => {
                let error = if self.stage == 0 {
                    DhtError::SetLow
                } else if self.stage == 2 {
                    DhtError::SetHigh
                } else {
                    DhtError::Timeout
                };
                self.result = Some(Err(error));
            },
            PinEvent::Done { at } => {
                proof {
                    lemma_bits_fit(self@.stage, self@.value);
                }
                if self.stage >= 8 && self.stage % 2 == 0 {
                    let width: i64 = at - self.rise;
                    let bit: u64 = if width > ONE_THRESHOLD_US {
                        1
                    } else {
                        0
                    };
                    self.value = 2 * self.value + bit;
                }
                self.rise = at;
                self.stage += 1;
                if self.stage == READ_STAGES {
                    self.result = Some(decode_number(self.value));
                }
            },
        }
    }
}

/// The bits so far stay within the number of bits sent, and all of them fit in
/// 40 bits.
proof fn lemma_bits_fit(stage: int, value: nat)
    requires
        0 <= stage < READ_STAGES,
        value < pow2(bits_before(stage)),
    ensures
        value < 0x80_0000_0000,
        ends_bit(stage) ==> 2 * value + 1 < pow2(bits_before(stage + 1)),
        !ends_bit(stage) ==> bits_before(stage + 1) == bits_before(stage),
{
    let n = bits_before(stage);
    lemma2_to64();
    assert(n <= 39);
    assert(pow2(39) == 0x80_0000_0000) by {
        vstd::arithmetic::power2::lemma2_to64_rest();
    }
    if n < 39 {
        lemma_pow2_strictly_increases(n, 39);
    }
    if ends_bit(stage) {
        assert(bits_before(stage + 1) == n + 1);
        lemma_pow2_unfold(n + 1);
    }
}

// ---------------------------------------------------------------------------
// Reading with one retry
// ---------------------------------------------------------------------------

/// How long the line settles before the second try, in microseconds.
pub const SETTLE_US: u32 = 2_000;

/// Which try is running.
#[derive(Clone, Copy, Debug, PartialEq, Eq, Structural)]
pub enum Attempt {
    First,
    /// Between the tries.
    Settling,
    Second,
}

/// A read with one retry as a mathematical value.
pub struct RetryState {
    pub attempt: Attempt,
    pub read: ReadState,
}

impl RetryState {
    /// The first try before its first operation.
    pub open spec fn fresh() -> RetryState {
        RetryState { attempt: Attempt::First, read: ReadState::fresh() }
    }

    /// The read in it is valid, and a first read that failed is not kept.
    pub open spec fn valid(self) -> bool {
        &&& self.read.valid()
        &&& self.attempt is First ==> !(self.read.result matches Some(Err(_)))
        &&& self.attempt is Settling ==> self.read.result is None
    }

    /// The result of the whole read, once there is one.
    pub open spec fn result(self) -> Option<Result<Reading, DhtError>> {
        self.read.result
    }

    /// What is to be done next.
    pub open spec fn action(self) -> PinAction {
        if self.attempt is Settling {
            PinAction::Delay { micros: SETTLE_US }
        } else {
            self.read.action()
        }
    }

    /// Where `event` leads: a first read that fails is followed by a pause and a
    /// second one.
    pub open spec fn next(self, event: PinEvent) -> RetryState {
        if self.attempt is Settling {
            RetryState { attempt: Attempt::Second, read: ReadState::fresh() }
        } else {
            let read = self.read.next(event);
            if self.attempt is First && (read.result matches Some(Err(_))) {
                RetryState { attempt: Attempt::Settling, read: ReadState::fresh() }
            } else {
                RetryState { attempt: self.attempt, read }
            }
        }
    }

    /// The event is one that can follow.
    pub open spec fn accepts(self, event: PinEvent) -> bool {
        if self.attempt is Settling {
            event is Done
        } else {
            self.read.accepts(event)
        }
    }
}

/// Read a DHT22, retrying once on failure.
#[derive(Clone, Copy, Debug)]
pub struct Dht22Retry {
    attempt: Attempt,
    read: Dht22Read,
}

impl View for Dht22Retry {
    type V = RetryState;

    closed spec fn view(&self) -> RetryState {
        RetryState { attempt: self.attempt, read: self.read@ }
    }
}

impl Dht22Retry {
    /// A read before its first operation.
    pub fn new() -> (read: Dht22Retry)
        ensures
            read@ == RetryState::fresh(),
            read@.valid(),
    {
        Dht22Retry { attempt: Attempt::First, read: Dht22Read::new() }
    }

    /// What is to be done with the pin next.
    pub fn action(&self) -> (action: PinAction)
        requires
            self@.valid(),
        ensures
            action == self@.action(),
    {
        match self.attempt {
            Attempt::Settling => PinAction::Delay { micros: SETTLE_US },
            _ => self.read.action(),
        }
    }

    /// Whether the event is one that can follow.
    pub fn can_step(&self, event: PinEvent) -> (yes: bool)
        ensures
            yes == self@.accepts(event),
    {
        match self.attempt {
            Attempt::Settling => match event {
                PinEvent::Done { .. } => true,
                PinEvent::Failed => false,
            },
            _ => self.read.can_step(event),
        }
    }

    /// Go on with how the pin operation went.
    pub fn step(&mut self, event: PinEvent)
        requires
            old(self)@.valid(),
            old(self)@.accepts(event),
        ensures
            final(self)@ == old(self)@.next(event),
            final(self)@.valid(),
    {
        match self.attempt {
            Attempt::Settling => {
                self.attempt = Attempt::Second;
                self.read = Dht22Read::new();
            },
            Attempt::First => {
                self.read.step(event);
                if let Some(Err(_)) = self.read.result() {
                    self.attempt = Attempt::Settling;
                    self.read = Dht22Read::new();
                }
            },
            Attempt::Second => {
                self.read.step(event);
            },
        }
    }
}

// ---------------------------------------------------------------------------
// Laws
// ---------------------------------------------------------------------------

/// The frame in which a sensor sends a reading.
pub open spec fn frame_for(reading: Reading) -> Seq<u8> {
    let h = reading.humidity.magnitude as int;
    let t = reading.temperature.magnitude as int + if reading.temperature.negative {
        0x8000int
    } else {
        0
    };
    seq![
        (h / 256) as u8,
        (h % 256) as u8,
        (t / 256) as u8,
        (t % 256) as u8,
        ((h / 256 + h % 256 + t / 256 + t % 256) % 256) as u8,
    ]
}

/// Whatever the sensor can measure, its frame is decoded to just that.
pub proof fn law_frame_reads_back(reading: Reading)
    requires
        !reading.humidity.negative,
        reading.humidity.magnitude <= 0xffff,
        reading.temperature.magnitude <= 0x7fff,
    ensures
        frame_result(frame_for(reading)) == Ok::<Reading, DhtError>(reading),
{
}

/// A frame is taken just when its bytes add up, and then its first two bytes are the
/// humidity and the next two the temperature, high byte first, the top bit of the
/// temperature being its sign.
pub proof fn law_frame_says_humidity_then_temperature(data: Seq<u8>)
    requires
        data.len() == 5,
    ensures
        (data[0] + data[1] + data[2] + data[3]) % 256 != data[4] ==> frame_result(data) == Err::<
            Reading,
            DhtError,
        >(DhtError::ChecksumMismatch),
        (data[0] + data[1] + data[2] + data[3]) % 256 == data[4] ==> (frame_result(
            data,
        ) matches Ok(reading) && {
            &&& reading.humidity.magnitude == 256 * data[0] + data[1]
            &&& !reading.humidity.negative
            &&& reading.temperature.negative == (data[2] >= 128)
            &&& reading.temperature.magnitude == 256 * (data[2] % 128) + data[3]
        }),
{
}

/// Damage to a single byte of a frame never goes unnoticed.
pub proof fn law_damaged_byte_is_refused(data: Seq<u8>, at: int, byte: u8)
    requires
        data.len() == 5,
        0 <= at < 5,
        data[at] != byte,
        checksum_fits(data),
    ensures
        frame_result(data.update(at, byte)) == Err::<Reading, DhtError>(DhtError::ChecksumMismatch),
{
}

/// The state after a run of events.
pub open spec fn run(start: ReadState, events: Seq<PinEvent>) -> ReadState
    decreases events.len(),
{
    if events.len() == 0 {
        start
    } else {
        run(start, events.drop_last()).next(events.last())
    }
}

/// The events of a read in which every operation went through, at these times.
pub open spec fn smooth(times: Seq<i64>) -> Seq<PinEvent> {
    Seq::new(times.len(), |i: int| PinEvent::Done { at: times[i] })
}

/// The bits that the pulses stand for: bit `i` is a one if the line stayed high
/// for more than the threshold between its rising and its falling edge.
pub open spec fn pulse_bits(times: Seq<i64>, count: nat) -> Seq<bool> {
    Seq::new(count, |i: int| times[8 + 2 * i] - times[7 + 2 * i] > ONE_THRESHOLD_US)
}

/// A read that no operation interrupts decodes the 40 pulses that it timed.
pub proof fn law_read_decodes_the_pulses(times: Seq<i64>)
    requires
        times.len() == READ_STAGES,
    ensures
        run(ReadState::fresh(), smooth(times)).result == Some(
            frame_result(frame_bytes(number_of_bits(pulse_bits(times, 40)))),
        ),
{
    let events = smooth(times);
    let earlier = events.drop_last();
    assert(earlier =~= smooth(times).take(86));
    lemma_smooth_prefix(times, 86);
    let bits = pulse_bits(times, 40);
    assert(bits.drop_last() =~= pulse_bits(times, 39));
}

/// The number of a run of bits followed by another: the first moves up by as many places
/// as the second has, and a single bit is one or zero.
pub proof fn law_bits_are_read_from_the_left(high: Seq<bool>, low: Seq<bool>)
    ensures
        number_of_bits(high + low) == number_of_bits(high) * pow2(low.len()) + number_of_bits(low),
        number_of_bits(low) < pow2(low.len()),
        number_of_bits(Seq::<bool>::empty()) == 0,
        number_of_bits(seq![true]) == 1,
        number_of_bits(seq![false]) == 0,
    decreases low.len(),
{
    reveal_with_fuel(number_of_bits, 2);
    assert(seq![true].drop_last() =~= Seq::<bool>::empty());
    assert(seq![false].drop_last() =~= Seq::<bool>::empty());
    lemma2_to64();
    let h = number_of_bits(high);
    if low.len() == 0 {
        assert(high + low =~= high);
        assert(h * 1 == h);
    } else {
        let shorter = low.drop_last();
        assert((high + low).drop_last() =~= high + shorter);
        assert((high + low).last() == low.last());
        law_bits_are_read_from_the_left(high, shorter);
        lemma_pow2_unfold(low.len());
        let unit = pow2(shorter.len());
        assert(pow2(low.len()) == 2 * unit);
        assert(2 * (h * unit) == h * (2 * unit)) by (nonlinear_arith);
    }
}

/// Bits are cut out of a number by dividing off those behind them and those in front.
proof fn lemma_cut(bits: Seq<bool>, from: int, to: int)
    requires
        0 <= from <= to <= bits.len(),
    ensures
        number_of_bits(bits) / pow2((bits.len() - to) as nat) % pow2((to - from) as nat)
            == number_of_bits(bits.subrange(from, to)),
{
    let high = number_of_bits(bits.take(from)) as int;
    let mid = number_of_bits(bits.subrange(from, to)) as int;
    let low = number_of_bits(bits.skip(to)) as int;
    let unit = pow2((bits.len() - to) as nat) as int;
    let width = pow2((to - from) as nat) as int;
    law_bits_are_read_from_the_left(bits.take(from), bits.subrange(from, to));
    assert(bits.take(from) + bits.subrange(from, to) =~= bits.take(to));
    law_bits_are_read_from_the_left(bits.take(to), bits.skip(to));
    assert(bits.take(to) + bits.skip(to) =~= bits);
    lemma_fundamental_div_mod_converse(
        number_of_bits(bits) as int,
        unit,
        high * width + mid,
        low,
    );
    lemma_fundamental_div_mod_converse(high * width + mid, width, high, mid);
}

/// Each byte of the frame is the number of its eight bits, the first byte of the first
/// eight.
pub proof fn law_bytes_are_the_bits_in_order(bits: Seq<bool>)
    requires
        bits.len() == 40,
    ensures
        frame_bytes(number_of_bits(bits)).len() == 5,
        forall|b: int|
            0 <= b < 5 ==> #[trigger] frame_bytes(number_of_bits(bits))[b] == number_of_bits(
                bits.subrange(8 * b, 8 * b + 8),
            ),
{
    let n = number_of_bits(bits);
    lemma2_to64();
    assert forall|b: int| 0 <= b < 5 implies #[trigger] frame_bytes(n)[b] == number_of_bits(
        bits.subrange(8 * b, 8 * b + 8),
    ) by {
        lemma_cut(bits, 8 * b, 8 * b + 8);
        assert(pow2(8) == 256);
        if b == 0 {
            assert(frame_bytes(n)[0] == (n / pow2(32) % 256) as u8);
        } else if b == 1 {
            assert(frame_bytes(n)[1] == (n / pow2(24) % 256) as u8);
        } else if b == 2 {
            assert(frame_bytes(n)[2] == (n / pow2(16) % 256) as u8);
        } else if b == 3 {
            assert(frame_bytes(n)[3] == (n / pow2(8) % 256) as u8);
        } else {
            assert(frame_bytes(n)[4] == (n / pow2(0) % 256) as u8);
        }
    }
}

/// The bits that a read timed: bit `i` is a one just when the line was high for more than
/// 40 microseconds between the rising and the falling edge of that bit.
pub open spec fn spells(times: Seq<i64>, bits: Seq<bool>) -> bool {
    &&& bits.len() == 40
    &&& forall|i: int|
        0 <= i < 40 ==> #[trigger] bits[i] == (times[8 + 2 * i] - times[7 + 2 * i] > 40)
}

/// A read that no operation interrupts says what the 40 pulses spell: the first 16 bits
/// are the humidity, then come the sign and 15 bits of the temperature, and the last
/// eight are the sum of the four bytes before them. Where they are not, it fails.
pub proof fn law_pulses_spell_the_reading(times: Seq<i64>, bits: Seq<bool>)
    requires
        times.len() == 87,
        spells(times, bits),
    ensures
        ({
            let sum = number_of_bits(bits.subrange(0, 8)) + number_of_bits(bits.subrange(8, 16))
                + number_of_bits(bits.subrange(16, 24)) + number_of_bits(bits.subrange(24, 32));
            let result = run(ReadState::fresh(), smooth(times)).result;
            if sum % 256 == number_of_bits(bits.subrange(32, 40)) {
                result matches Some(Ok(reading)) && {
                    &&& reading.humidity.magnitude == number_of_bits(bits.subrange(0, 16))
                    &&& !reading.humidity.negative
                    &&& reading.temperature.negative == bits[16]
                    &&& reading.temperature.magnitude == number_of_bits(bits.subrange(17, 32))
                }
            } else {
                result == Some(Err::<Reading, DhtError>(DhtError::ChecksumMismatch))
            }
        }),
{
    law_read_decodes_the_pulses(times);
    assert(pulse_bits(times, 40) =~= bits);
    let data = frame_bytes(number_of_bits(bits));
    law_bytes_are_the_bits_in_order(bits);
    law_frame_says_humidity_then_temperature(data);
    assert(data[0] == number_of_bits(bits.subrange(0, 8)));
    assert(data[1] == number_of_bits(bits.subrange(8, 16)));
    assert(data[2] == number_of_bits(bits.subrange(16, 24)));
    assert(data[3] == number_of_bits(bits.subrange(24, 32)));
    assert(data[4] == number_of_bits(bits.subrange(32, 40)));
    lemma_fields(bits);
}

/// Where the two numbers of a frame stand among its bits.
proof fn lemma_fields(bits: Seq<bool>)
    requires
        bits.len() == 40,
    ensures
        ({
            let b0 = number_of_bits(bits.subrange(0, 8));
            let b1 = number_of_bits(bits.subrange(8, 16));
            let b2 = number_of_bits(bits.subrange(16, 24));
            let b3 = number_of_bits(bits.subrange(24, 32));
            &&& number_of_bits(bits.subrange(0, 16)) == 256 * b0 + b1
            &&& bits[16] == (b2 >= 128)
            &&& number_of_bits(bits.subrange(17, 32)) == 256 * (b2 % 128) + b3
        }),
{
    let rest = bits.subrange(17, 24);
    lemma2_to64();
    assert(bits.subrange(0, 8) + bits.subrange(8, 16) =~= bits.subrange(0, 16));
    assert(seq![bits[16]] + rest =~= bits.subrange(16, 24));
    assert(rest + bits.subrange(24, 32) =~= bits.subrange(17, 32));
    law_bits_are_read_from_the_left(bits.subrange(0, 8), bits.subrange(8, 16));
    law_bits_are_read_from_the_left(seq![bits[16]], rest);
    law_bits_are_read_from_the_left(rest, bits.subrange(24, 32));
    if bits[16] {
        assert(seq![bits[16]] =~= seq![true]);
    } else {
        assert(seq![bits[16]] =~= seq![false]);
    }
    assert(pow2(7) == 128 && pow2(8) == 256);
    let sign: nat = if bits[16] {
        1
    } else {
        0
    };
    assert(number_of_bits(bits.subrange(16, 24)) == sign * 128 + number_of_bits(rest));
    assert(number_of_bits(rest) < 128);
    assert(number_of_bits(bits.subrange(17, 32)) == number_of_bits(rest) * 256 + number_of_bits(
        bits.subrange(24, 32),
    ));
}

/// After `n` smooth operations the read is at stage `n`, with the bits of the
/// pulses so far.
proof fn lemma_smooth_prefix(times: Seq<i64>, n: int)
    requires
        times.len() == READ_STAGES,
        0 <= n < READ_STAGES,
    ensures
        ({
            let state = run(ReadState::fresh(), smooth(times).take(n));
            &&& state.stage == n
            &&& state.result is None
            &&& state.value == number_of_bits(pulse_bits(times, bits_before(n)))
            &&& n > 0 ==> state.rise == times[n - 1]
        }),
    decreases n,
{
    let events = smooth(times).take(n);
    if n == 0 {
        assert(pulse_bits(times, 0) =~= Seq::<bool>::empty());
    } else {
        lemma_smooth_prefix(times, n - 1);
        assert(events.drop_last() =~= smooth(times).take(n - 1));
        if ends_bit(n - 1) {
            let count = bits_before(n);
            let bits = pulse_bits(times, count);
            assert(count == bits_before(n - 1) + 1);
            assert(bits.drop_last() =~= pulse_bits(times, (count - 1) as nat));
            assert(8 + 2 * (count - 1) == n - 1);
        }
    }
}

/// The first operation that fails ends the read, with the error of its stage.
pub proof fn law_failure_ends_the_read(state: ReadState)
    requires
        state.valid(),
        state.result is None,
    ensures
        state.next(PinEvent::Failed).result == Some(
            Err::<Reading, DhtError>(stage_error(state.stage)),
        ),
        state.next(PinEvent::Failed).action() is Finished,
        state.action() is DriveLow ==> state.next(PinEvent::Failed).result == Some(
            Err::<Reading, DhtError>(DhtError::SetLow),
        ),
        state.action() is Release ==> state.next(PinEvent::Failed).result == Some(
            Err::<Reading, DhtError>(DhtError::SetHigh),
        ),
        state.action() is Await || state.action() is Delay ==> state.next(PinEvent::Failed).result
            == Some(Err::<Reading, DhtError>(DhtError::Timeout)),
{
}

/// The operations of a read, whatever the line said so far: it is pulled low for 3 ms and
/// let go for 40 µs, and then 83 edges are waited for, 3 ms each, falling and rising in
/// turn, the first one falling.
pub proof fn law_start_signal_then_edges(state: ReadState)
    requires
        state.result is None,
        0 <= state.stage < 87,
    ensures
        state.stage == 0 ==> state.action() == PinAction::DriveLow,
        state.stage == 1 ==> state.action() == (PinAction::Delay { micros: 3_000 }),
        state.stage == 2 ==> state.action() == PinAction::Release,
        state.stage == 3 ==> state.action() == (PinAction::Delay { micros: 40 }),
        state.stage >= 4 ==> state.action() == (PinAction::Await {
            level: if (state.stage - 4) % 2 == 0 {
                Level::Low
            } else {
                Level::High
            },
            timeout_us: 3_000,
        }),
{
}

/// An operation that went through leads to the next one, and the read ends with the last.
pub proof fn law_each_operation_comes_once(state: ReadState, at: i64)
    requires
        state.result is None,
        0 <= state.stage < 87,
    ensures
        state.next(PinEvent::Done { at }).stage == state.stage + 1,
        state.next(PinEvent::Done { at }).result is Some <==> state.stage == 86,
{
}

/// Whatever can happen to a read that is not over is taken, as long as the time since the
/// operation before is a number.
pub proof fn law_every_event_is_taken(state: ReadState, event: PinEvent)
    requires
        state.result is None,
        event matches PinEvent::Done { at } ==> i64::MIN <= at - state.rise <= i64::MAX,
    ensures
        state.accepts(event),
{
}

/// A first read that succeeds is the result; one that fails leads, after the
/// line has settled, to a second read from the start, whose result stands
/// whatever it is.
pub proof fn law_one_retry(state: RetryState, event: PinEvent, settled_at: i64)
    requires
        state.valid(),
        state.accepts(event),
        state.read.result is None,
    ensures
        state.attempt is First && (state.read.next(event).result matches Some(Ok(_)))
            ==> state.next(event).result() == state.read.next(event).result,
        state.attempt is First && (state.read.next(event).result matches Some(Err(_))) ==> {
            &&& state.next(event).action() == (PinAction::Delay { micros: SETTLE_US })
            &&& state.next(event).next(PinEvent::Done { at: settled_at }) == (RetryState {
                attempt: Attempt::Second,
                read: ReadState::fresh(),
            })
        },
        state.attempt is Second ==> state.next(event).result() == state.read.next(event).result,
        !(state.attempt is Settling) && state.read.next(event).result is None ==> state.next(event)
            == (RetryState { attempt: state.attempt, read: state.read.next(event) }),
{
}

/// The operations of a read with a retry are those of its reads, with a pause of 2 ms
/// between the two.
pub proof fn law_retry_pauses_between_reads(state: RetryState)
    ensures
        state.attempt is Settling ==> state.action() == (PinAction::Delay { micros: 2_000 }),
        !(state.attempt is Settling) ==> state.action() == state.read.action(),
        RetryState::fresh().attempt is First,
        RetryState::fresh().read.stage == 0,
        RetryState::fresh().read.result is None,
{
}

/// The state after a run of events.
pub open spec fn retry_run(start: RetryState, events: Seq<PinEvent>) -> RetryState
    decreases events.len(),
{
    if events.len() == 0 {
        start
    } else {
        retry_run(start, events.drop_last()).next(events.last())
    }
}

/// A read that succeeds at once is the result of the whole; where it fails, that of the
/// second read is, whether it succeeds or fails.
pub proof fn law_second_read_stands(first: Seq<PinEvent>, settled_at: i64, second: Seq<PinEvent>)
    requires
        first.len() > 0,
        forall|k: int|
            0 <= k < first.len() ==> (#[trigger] run(
                ReadState::fresh(),
                first.take(k),
            )).result is None,
    ensures
        run(ReadState::fresh(), first).result matches Some(Ok(_)) ==> retry_run(
            RetryState::fresh(),
            first,
        ).result() == run(ReadState::fresh(), first).result,
        run(ReadState::fresh(), first).result matches Some(Err(_)) ==> retry_run(
            RetryState::fresh(),
            first.push(PinEvent::Done { at: settled_at }) + second,
        ).result() == run(ReadState::fresh(), second).result,
{
    let shorter = first.drop_last();
    assert(first.take(first.len() - 1) =~= shorter);
    assert forall|k: int| 0 <= k <= shorter.len() implies (#[trigger] run(
        ReadState::fresh(),
        shorter.take(k),
    )).result is None by {
        assert(shorter.take(k) =~= first.take(k));
    }
    lemma_first_read_runs(shorter);
    if run(ReadState::fresh(), first).result matches Some(Err(_)) {
        let paused = first.push(PinEvent::Done { at: settled_at });
        assert(paused.drop_last() =~= first);
        assert(retry_run(RetryState::fresh(), paused) == (RetryState {
            attempt: Attempt::Second,
            read: ReadState::fresh(),
        }));
        lemma_second_read_runs(paused, second);
    }
}

/// While the first read goes on, the whole goes on with it.
proof fn lemma_first_read_runs(events: Seq<PinEvent>)
    requires
        forall|k: int|
            0 <= k <= events.len() ==> (#[trigger] run(
                ReadState::fresh(),
                events.take(k),
            )).result is None,
    ensures
        retry_run(RetryState::fresh(), events) == (RetryState {
            attempt: Attempt::First,
            read: run(ReadState::fresh(), events),
        }),
    decreases events.len(),
{
    assert(events.take(events.len() as int) =~= events);
    if events.len() > 0 {
        let shorter = events.drop_last();
        assert forall|k: int| 0 <= k <= shorter.len() implies (#[trigger] run(
            ReadState::fresh(),
            shorter.take(k),
        )).result is None by {
            assert(shorter.take(k) =~= events.take(k));
        }
        lemma_first_read_runs(shorter);
    }
}

/// The second read is the whole from then on.
proof fn lemma_second_read_runs(before: Seq<PinEvent>, second: Seq<PinEvent>)
    requires
        retry_run(RetryState::fresh(), before) == (RetryState {
            attempt: Attempt::Second,
            read: ReadState::fresh(),
        }),
    ensures
        retry_run(RetryState::fresh(), before + second) == (RetryState {
            attempt: Attempt::Second,
            read: run(ReadState::fresh(), second),
        }),
    decreases second.len(),
{
    if second.len() == 0 {
        assert(before + second =~= before);
    } else {
        lemma_second_read_runs(before, second.drop_last());
        assert((before + second).drop_last() =~= before + second.drop_last());
    }
}

} // verus!
