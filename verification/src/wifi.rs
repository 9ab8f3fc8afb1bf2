//! Wi-Fi: the credentials, joining a network, waiting for the clock, and what a
//! scan shows.

use crate::text::{
    absent, decimal, decimal_text, first_at, hex_byte, law_columns, law_hex_digits, pad_left,
    pad_right, push_decimal,
    push_hex_byte, push_left_aligned, push_right_aligned, signed_decimal, signed_decimal_text,
    split_once, texts,
};
use vstd::prelude::*;

verus! {

// ---------------------------------------------------------------------------
// Joining a network
// ---------------------------------------------------------------------------

/// Split a configuration `SSID:PASSWORD` at its first colon. `None` where there
/// is no colon.
pub fn wifi_credentials(config: &str) -> (credentials: Option<(String, String)>)
    ensures
        match credentials {
            Some((ssid, password)) => {
                &&& config@ == ssid@ + ":"@ + password@
                &&& first_at(config@, ":"@, ssid@.len() as int)
            },
            None => absent(config@, ":"@),
        },
{
    match split_once(config, ":") {
        Some((ssid, password)) => Some((ssid.to_owned(), password.to_owned())),
        None => None,
    }
}

/// How many times joining the network is tried.
pub const CONNECT_ATTEMPTS: u32 = 10;

/// What follows an attempt to join the network.
#[derive(Clone, Copy, Debug, PartialEq, Eq, Structural)]
pub enum ConnectStep {
    Connected,
    /// Try again after so many seconds.
    RetryAfter { seconds: u64 },
    GiveUp,
}

/// What follows attempt number `attempt`, counted from one, when `limit` are made at
/// most.
pub open spec fn connect_step(limit: nat, attempt: nat, connected: bool) -> ConnectStep {
    if connected {
        ConnectStep::Connected
    } else if attempt < limit {
        ConnectStep::RetryAfter { seconds: 2 }
    } else {
        ConnectStep::GiveUp
    }
}

/// Joining a network as a mathematical value: how many attempts may be made, and how
/// many were.
pub struct JoinState {
    pub limit: nat,
    pub made: nat,
}

impl JoinState {
    /// There is an attempt left.
    pub open spec fn open(self) -> bool {
        self.made < self.limit
    }

    /// After one more attempt.
    pub open spec fn next(self) -> JoinState {
        JoinState { made: self.made + 1, ..self }
    }
}

/// Counts the attempts to join a network.
#[derive(Debug)]
pub struct Joining {
    limit: u32,
    made: u32,
}

impl View for Joining {
    type V = JoinState;

    closed spec fn view(&self) -> JoinState {
        JoinState { limit: self.limit as nat, made: self.made as nat }
    }
}

impl Joining {
    /// Try once.
    pub fn once() -> (joining: Joining)
        ensures
            joining@ == (JoinState { limit: 1, made: 0 }),
    {
        Joining { limit: 1, made: 0 }
    }

    /// Try again when an attempt fails: a small antenna makes the first ones flaky.
    pub fn patient() -> (joining: Joining)
        ensures
            joining@ == (JoinState { limit: CONNECT_ATTEMPTS as nat, made: 0 }),
            joining@.limit == 10,
            joining@.made == 0,
    {
        Joining { limit: CONNECT_ATTEMPTS, made: 0 }
    }

    /// How many attempts were made.
    pub fn made(&self) -> (made: u32)
        ensures
            made == self@.made,
    {
        self.made
    }

    /// One more attempt was made: what follows. While it is to be tried again there is
    /// an attempt left.
    pub fn attempted(&mut self, connected: bool) -> (step: ConnectStep)
        requires
            old(self)@.open(),
        ensures
            final(self)@ == old(self)@.next(),
            step == connect_step(final(self)@.limit, final(self)@.made, connected),
            step is RetryAfter ==> final(self)@.open(),
    {
        self.made += 1;
        if connected {
            ConnectStep::Connected
        } else if self.made < self.limit {
            ConnectStep::RetryAfter { seconds: 2 }
        } else {
            ConnectStep::GiveUp
        }
    }
}

/// How many seconds the clock may take to be set.
pub const SNTP_WAITS: u32 = 30;

/// What follows a look at the clock's state.
#[derive(Clone, Copy, Debug, PartialEq, Eq, Structural)]
pub enum SntpStep {
    Synced,
    /// Look again after so many seconds.
    WaitFor { seconds: u64 },
    /// Go on without.
    TimedOut,
}

/// What follows a look at the clock's state, after `waits` waits.
pub open spec fn sntp_step(waits: nat, completed: bool) -> SntpStep {
    if completed {
        SntpStep::Synced
    } else if waits >= SNTP_WAITS {
        SntpStep::TimedOut
    } else {
        SntpStep::WaitFor { seconds: 1 }
    }
}

/// Counts the waits for the clock to be set.
#[derive(Debug)]
pub struct ClockWait {
    waits: u32,
}

impl View for ClockWait {
    type V = nat;

    closed spec fn view(&self) -> nat {
        self.waits as nat
    }
}

impl ClockWait {
    /// Before the first look.
    pub fn new() -> (wait: ClockWait)
        ensures
            wait@ == 0,
    {
        ClockWait { waits: 0 }
    }

    /// A look at the clock's state: what follows. A wait that follows is counted.
    pub fn polled(&mut self, completed: bool) -> (step: SntpStep)
        requires
            old(self)@ <= SNTP_WAITS,
        ensures
            step == sntp_step(old(self)@, completed),
            final(self)@ == if step is WaitFor {
                old(self)@ + 1
            } else {
                old(self)@
            },
            final(self)@ <= SNTP_WAITS,
    {
        if completed {
            SntpStep::Synced
        } else if self.waits >= SNTP_WAITS {
            SntpStep::TimedOut
        } else {
            self.waits += 1;
            SntpStep::WaitFor { seconds: 1 }
        }
    }
}

// ---------------------------------------------------------------------------
// Scanning
// ---------------------------------------------------------------------------

/// An access point that a scan found.
#[derive(Debug)]
pub struct AccessPoint {
    pub ssid: String,
    pub bssid: [u8; 6],
    pub channel: u8,
    /// In dBm.
    pub signal_strength: i8,
    /// The name of the authentication method; `None` for an open network.
    pub auth_method: Option<String>,
}

/// No access point is followed by a stronger one.
pub open spec fn strongest_lead(aps: Seq<AccessPoint>) -> bool {
    forall|i: int, j: int|
        0 <= i < j < aps.len() ==> (#[trigger] aps[i]).signal_strength >= (
        #[trigger] aps[j]).signal_strength
}

/// The access points with this signal, in order.
pub open spec fn with_signal(aps: Seq<AccessPoint>, signal: i8) -> Seq<AccessPoint> {
    aps.filter(|ap: AccessPoint| ap.signal_strength == signal)
}

/// `sorted` holds the access points of `aps`, strongest first; those of equal
/// strength stay in the order in which they were.
pub open spec fn is_sorted_scan(aps: Seq<AccessPoint>, sorted: Seq<AccessPoint>) -> bool {
    &&& sorted.to_multiset() == aps.to_multiset()
    &&& strongest_lead(sorted)
    &&& forall|signal: i8| #[trigger] with_signal(sorted, signal) == with_signal(aps, signal)
}

/// Putting an access point behind all that are at least as strong keeps the
/// order, and makes it the last of its strength.
proof fn lemma_insert_by_signal(sorted: Seq<AccessPoint>, at: int, ap: AccessPoint)
    requires
        strongest_lead(sorted),
        0 <= at <= sorted.len(),
        forall|i: int| 0 <= i < at ==> (#[trigger] sorted[i]).signal_strength >= ap.signal_strength,
        at < sorted.len() ==> sorted[at].signal_strength < ap.signal_strength,
    ensures
        strongest_lead(sorted.insert(at, ap)),
        forall|signal: i8| #[trigger]
            with_signal(sorted.insert(at, ap), signal) == if ap.signal_strength == signal {
                with_signal(sorted, signal).push(ap)
            } else {
                with_signal(sorted, signal)
            },
{
    let front = sorted.take(at);
    let back = sorted.skip(at);
    let longer = sorted.insert(at, ap);
    assert forall|signal: i8| #[trigger]
        with_signal(longer, signal) == if ap.signal_strength == signal {
            with_signal(sorted, signal).push(ap)
        } else {
            with_signal(sorted, signal)
        } by {
        let pred = |a: AccessPoint| a.signal_strength == signal;
        let one = seq![ap];
        assert(sorted =~= front + back);
        assert(longer =~= front + one + back);
        Seq::filter_distributes_over_add(front, back, pred);
        Seq::filter_distributes_over_add(front, one, pred);
        Seq::filter_distributes_over_add(front + one, back, pred);
        reveal(Seq::filter);
        lemma_filter_none(one.drop_last(), pred);
        assert(one.filter(pred) =~= if ap.signal_strength == signal {
            one
        } else {
            Seq::<AccessPoint>::empty()
        });
        if ap.signal_strength == signal {
            lemma_filter_none(back, pred);
        }
        assert(longer.filter(pred) =~= if ap.signal_strength == signal {
            sorted.filter(pred).push(ap)
        } else {
            sorted.filter(pred)
        });
    }
}

/// Where nothing matches, nothing is kept.
proof fn lemma_filter_none<A>(s: Seq<A>, pred: spec_fn(A) -> bool)
    requires
        forall|i: int| 0 <= i < s.len() ==> !pred(#[trigger] s[i]),
    ensures
        s.filter(pred) == Seq::<A>::empty(),
    decreases s.len(),
{
    reveal(Seq::filter);
    if s.len() > 0 {
        lemma_filter_none(s.drop_last(), pred);
    }
}

/// Order a scan by signal strength, strongest first.
pub fn strongest_first(aps: Vec<AccessPoint>) -> (sorted: Vec<AccessPoint>)
    ensures
        is_sorted_scan(aps@, sorted@),
{
    let ghost all = aps@;
    let mut rest = aps;
    let mut sorted: Vec<AccessPoint> = Vec::new();
    proof {
        assert(all.take(0) =~= Seq::<AccessPoint>::empty());
        assert(all.skip(0) =~= all);
    }
    while rest.len() > 0
        invariant
            sorted@.len() + rest@.len() == all.len(),
            rest@ == all.skip(sorted@.len() as int),
            is_sorted_scan(all.take(sorted@.len() as int), sorted@),
        decreases rest@.len(),
    {
        let ghost done = sorted@.len() as int;
        let ap = rest.remove(0);
        let ghost taken = ap;
        let mut at: usize = 0;
        while at < sorted.len() && sorted[at].signal_strength >= ap.signal_strength
            invariant
                at <= sorted@.len(),
                forall|i: int|
                    0 <= i < at ==> (#[trigger] sorted@[i]).signal_strength >= ap.signal_strength,
            decreases sorted@.len() - at,
        {
            at += 1;
        }
        proof {
            lemma_insert_by_signal(sorted@, at as int, ap);
        }
        sorted.insert(at, ap);
        proof {
            broadcast use vstd::seq_lib::group_to_multiset_ensures;

            let before = all.take(done);
            let after = all.take(done + 1);
            assert(after =~= before.push(taken));
            assert(after.drop_last() =~= before);
            assert forall|signal: i8| #[trigger] with_signal(sorted@, signal) == with_signal(
                after,
                signal,
            ) by {
                reveal(Seq::filter);
                assert(with_signal(before, signal) == with_signal(before, signal));
            }
            assert(rest@ =~= all.skip(done + 1));
        }
    }
    assert(all.take(all.len() as int) =~= all);
    sorted
}

/// The hardware address of an access point: six bytes, with colons between.
pub open spec fn bssid_text(bssid: Seq<u8>) -> Seq<char> {
    hex_byte(bssid[0]) + ":"@ + hex_byte(bssid[1]) + ":"@ + hex_byte(bssid[2]) + ":"@ + hex_byte(
        bssid[3],
    ) + ":"@ + hex_byte(bssid[4]) + ":"@ + hex_byte(bssid[5])
}

/// The line that a scan shows for an access point.
pub open spec fn access_point_text(ap: AccessPoint) -> Seq<char> {
    let auth = match ap.auth_method {
        Some(name) => name@,
        None => "Open"@,
    };
    let ssid = if ap.ssid@.len() == 0 {
        "<hidden>"@
    } else {
        ap.ssid@
    };
    pad_left(signed_decimal(ap.signal_strength as int), 4) + " dBm  ch"@ + pad_right(
        decimal(ap.channel as nat),
        2,
    ) + "  "@ + bssid_text(ap.bssid@) + "  "@ + pad_right(auth, 16) + "  "@ + ssid
}

/// Write the line that a scan shows for an access point: signal, channel,
/// hardware address, authentication and name.
pub fn access_point_line(ap: &AccessPoint) -> (line: String)
    ensures
        line@ == access_point_text(*ap),
{
    let mut line = String::new();
    let signal = signed_decimal_text(ap.signal_strength as i64);
    push_right_aligned(&mut line, signal.as_str(), 4);
    line.append(" dBm  ch");
    let channel = decimal_text(ap.channel as u64);
    push_left_aligned(&mut line, channel.as_str(), 2);
    line.append("  ");
    let ghost front = line@;
    push_hex_byte(&mut line, ap.bssid[0]);
    line.append(":");
    push_hex_byte(&mut line, ap.bssid[1]);
    line.append(":");
    push_hex_byte(&mut line, ap.bssid[2]);
    line.append(":");
    push_hex_byte(&mut line, ap.bssid[3]);
    line.append(":");
    push_hex_byte(&mut line, ap.bssid[4]);
    line.append(":");
    push_hex_byte(&mut line, ap.bssid[5]);
    assert(line@ =~= front + bssid_text(ap.bssid@));
    line.append("  ");
    match &ap.auth_method {
        Some(name) => push_left_aligned(&mut line, name.as_str(), 16),
        None => push_left_aligned(&mut line, "Open", 16),
    }
    line.append("  ");
    if ap.ssid.as_str().is_empty() {
        line.append("<hidden>");
    } else {
        line.append(ap.ssid.as_str());
    }
    assert(line@ =~= access_point_text(*ap));
    line
}

/// The lines of a scan: how many access points there are, then each of them.
pub open spec fn scan_texts(aps: Seq<AccessPoint>) -> Seq<Seq<char>> {
    seq!["=== scan: "@ + decimal(aps.len()) + " access point(s) ==="@] + Seq::new(
        aps.len(),
        |i: int| access_point_text(aps[i]),
    )
}

/// Write the lines of a scan, in the order of the access points.
pub fn scan_lines(aps: &Vec<AccessPoint>) -> (lines: Vec<String>)
    ensures
        texts(lines@) == scan_texts(aps@),
{
    let mut header = String::new();
    header.append("=== scan: ");
    push_decimal(&mut header, aps.len() as u64);
    header.append(" access point(s) ===");
    assert(header@ =~= "=== scan: "@ + decimal(aps@.len()) + " access point(s) ==="@);
    let mut lines: Vec<String> = Vec::new();
    lines.push(header);
    let mut i: usize = 0;
    while i < aps.len()
        invariant
            i <= aps@.len(),
            texts(lines@) == scan_texts(aps@).take(i + 1),
        decreases aps.len() - i,
    {
        let line = access_point_line(&aps[i]);
        let ghost before = texts(lines@);
        lines.push(line);
        i += 1;
        assert(texts(lines@) =~= before.push(line@));
        assert(texts(lines@) =~= scan_texts(aps@).take(i + 1));
    }
    assert(scan_texts(aps@).take(i + 1) =~= scan_texts(aps@));
    lines
}

// ---------------------------------------------------------------------------
// Channel occupancy
// ---------------------------------------------------------------------------

/// How many channel lines the display has room for below the header.
pub const SUMMARY_CHANNELS: usize = 7;

/// How many access points are on a channel.
pub open spec fn count_on(aps: Seq<AccessPoint>, channel: u8) -> nat
    decreases aps.len(),
{
    if aps.len() == 0 {
        0
    } else {
        count_on(aps.drop_last(), channel) + if aps.last().channel == channel {
            1nat
        } else {
            0nat
        }
    }
}

/// The strongest signal on a channel; the weakest there is where nobody is on
/// it.
pub open spec fn strongest_on(aps: Seq<AccessPoint>, channel: u8) -> i8
    decreases aps.len(),
{
    if aps.len() == 0 {
        i8::MIN
    } else {
        let before = strongest_on(aps.drop_last(), channel);
        if aps.last().channel == channel && aps.last().signal_strength > before {
            aps.last().signal_strength
        } else {
            before
        }
    }
}

/// Channel `a` comes before channel `b`: more access points are on it, or as
/// many and its number is lower.
pub open spec fn busier(aps: Seq<AccessPoint>, a: u8, b: u8) -> bool {
    ||| count_on(aps, a) > count_on(aps, b)
    ||| count_on(aps, a) == count_on(aps, b) && a < b
}

/// `channels` are the channels that are in use, busiest first.
pub open spec fn is_busiest_first(aps: Seq<AccessPoint>, channels: Seq<u8>) -> bool {
    &&& forall|i: int, j: int|
        0 <= i < j < channels.len() ==> busier(aps, #[trigger] channels[i], #[trigger] channels[j])
    &&& forall|c: u8| #[trigger] channels.contains(c) <==> count_on(aps, c) > 0
}

/// The line for a channel: its number, its access points, its strongest signal.
pub open spec fn channel_text(aps: Seq<AccessPoint>, channel: u8) -> Seq<char> {
    "ch"@ + pad_left(decimal(channel as nat), 2) + "  "@ + pad_left(
        decimal(count_on(aps, channel)),
        2,
    ) + "x  "@ + pad_left(signed_decimal(strongest_on(aps, channel) as int), 4) + "dBm"@
}

/// The header: how many access points and how many channels.
pub open spec fn totals_text(aps: nat, channels: nat) -> Seq<char> {
    decimal(aps) + " APs / "@ + decimal(channels) + " ch"@
}

/// The channels that are shown.
pub open spec fn shown_channels(channels: Seq<u8>) -> Seq<u8> {
    if channels.len() > SUMMARY_CHANNELS {
        channels.take(SUMMARY_CHANNELS as int)
    } else {
        channels
    }
}

/// The lines of the summary, given the channels in use, busiest first.
pub open spec fn summary_texts(aps: Seq<AccessPoint>, channels: Seq<u8>) -> Seq<Seq<char>> {
    seq![totals_text(aps.len(), channels.len())] + Seq::new(
        shown_channels(channels).len(),
        |i: int| channel_text(aps, channels[i]),
    )
}

/// Count the access points of each channel, and find its strongest signal.
fn occupancy(aps: &Vec<AccessPoint>) -> (table: (Vec<usize>, Vec<i8>))
    ensures
        table.0@.len() == 256,
        table.1@.len() == 256,
        forall|c: u8| #[trigger] table.0@[c as int] == count_on(aps@, c),
        forall|c: u8| #[trigger] table.1@[c as int] == strongest_on(aps@, c),
{
    let mut counts: Vec<usize> = Vec::new();
    let mut signals: Vec<i8> = Vec::new();
    let mut c: usize = 0;
    while c < 256
        invariant
            c <= 256,
            counts@.len() == c,
            signals@.len() == c,
            forall|k: int| 0 <= k < c ==> #[trigger] counts@[k] == 0,
            forall|k: int| 0 <= k < c ==> #[trigger] signals@[k] == i8::MIN,
        decreases 256 - c,
    {
        counts.push(0);
        signals.push(i8::MIN);
        c += 1;
    }
    let mut i: usize = 0;
    assert(aps@.take(0) =~= Seq::<AccessPoint>::empty());
    while i < aps.len()
        invariant
            i <= aps@.len(),
            counts@.len() == 256,
            signals@.len() == 256,
            forall|c: u8| #[trigger] counts@[c as int] == count_on(aps@.take(i as int), c),
            forall|c: u8| #[trigger] counts@[c as int] <= i,
            forall|c: u8| #[trigger] signals@[c as int] == strongest_on(aps@.take(i as int), c),
        decreases aps.len() - i,
    {
        let channel: usize = aps[i].channel as usize;
        let signal: i8 = aps[i].signal_strength;
        proof {
            let longer = aps@.take(i + 1);
            assert(longer.drop_last() =~= aps@.take(i as int));
            assert(longer.last() == aps@[i as int]);
            assert(counts@[aps@[i as int].channel as int] <= i);
        }
        let count: usize = counts[channel];
        counts.set(channel, count + 1);
        if signal > signals[channel] {
            signals.set(channel, signal);
        }
        i += 1;
    }
    assert(aps@.take(i as int) =~= aps@);
    (counts, signals)
}

/// The channels in use, busiest first.
fn busiest_channels(Ghost(aps): Ghost<Seq<AccessPoint>>, counts: &Vec<usize>) -> (channels: Vec<u8>)
    requires
        counts@.len() == 256,
        forall|c: u8| #[trigger] counts@[c as int] == count_on(aps, c),
    ensures
        is_busiest_first(aps, channels@),
{
    let mut channels: Vec<u8> = Vec::new();
    let mut c: usize = 0;
    while c < 256
        invariant
            c <= 256,
            counts@.len() == 256,
            forall|k: u8| #[trigger] counts@[k as int] == count_on(aps, k),
            forall|i: int, j: int|
                0 <= i < j < channels@.len() ==> busier(
                    aps,
                    #[trigger] channels@[i],
                    #[trigger] channels@[j],
                ),
            forall|k: u8| #[trigger]
                channels@.contains(k) <==> count_on(aps, k) > 0 && (k as int) < c,
            forall|i: int| 0 <= i < channels@.len() ==> (#[trigger] channels@[i] as int) < c,
        decreases 256 - c,
    {
        let channel: u8 = c as u8;
        let count: usize = counts[c];
        assert(counts@[channel as int] == count_on(aps, channel));
        if count > 0 {
            let ghost before = channels@;
            let mut at: usize = 0;
            while at < channels.len() && counts[channels[at] as usize] >= count
                invariant
                    at <= channels@.len(),
                    counts@.len() == 256,
                    channels@ == before,
                    forall|k: u8| #[trigger] counts@[k as int] == count_on(aps, k),
                    forall|i: int|
                        0 <= i < at ==> count_on(aps, #[trigger] channels@[i]) >= count,
                decreases channels@.len() - at,
            {
                assert(counts@[channels@[at as int] as int] == count_on(aps, channels@[at as int]));
                at += 1;
            }
            proof {
                if at < channels@.len() {
                    let next = channels@[at as int];
                    assert(counts@[next as int] == count_on(aps, next));
                    assert(count_on(aps, next) < count);
                }
            }
            channels.insert(at, channel);
            proof {
                let after = channels@;
                assert(after =~= before.insert(at as int, channel));
                assert forall|i: int, j: int| 0 <= i < j < after.len() implies busier(
                    aps,
                    #[trigger] after[i],
                    #[trigger] after[j],
                ) by {
                    let x = if i < at {
                        i
                    } else {
                        i - 1
                    };
                    let y = if j < at {
                        j
                    } else {
                        j - 1
                    };
                    if i != at && j != at {
                        assert(after[i] == before[x] && after[j] == before[y]);
                    } else if j == at {
                        assert(after[i] == before[i]);
                    } else {
                        assert(after[j] == before[y]);
                        if y > at {
                            assert(busier(aps, before[at as int], before[y]));
                        }
                    }
                }
                assert forall|k: u8| #[trigger] after.contains(k) <==> count_on(aps, k) > 0 && (
                k as int) < c + 1 by {
                    if after.contains(k) {
                        let i = choose|i: int| 0 <= i < after.len() && after[i] == k;
                        if i != at {
                            assert(before[if i < at { i } else { i - 1 }] == k);
                            assert(before.contains(k));
                        }
                    }
                    if before.contains(k) {
                        let i = choose|i: int| 0 <= i < before.len() && before[i] == k;
                        assert(after[if i < at { i } else { i + 1 }] == k);
                    }
                    if k == channel {
                        assert(after[at as int] == k);
                    }
                }
            }
        }
        c += 1;
    }
    channels
}

/// Build the display lines from a scan: a totals header plus the busiest
/// channels, each with its access point count and strongest signal.
pub fn channel_summary(aps: &Vec<AccessPoint>) -> (lines: Vec<String>)
    ensures
        exists|channels: Seq<u8>| #[trigger]
            is_busiest_first(aps@, channels) && texts(lines@) == summary_texts(aps@, channels),
{
    let (counts, signals) = occupancy(aps);
    let channels = busiest_channels(Ghost(aps@), &counts);
    let mut header = String::new();
    push_decimal(&mut header, aps.len() as u64);
    header.append(" APs / ");
    push_decimal(&mut header, channels.len() as u64);
    header.append(" ch");
    assert(header@ =~= totals_text(aps@.len(), channels@.len()));
    let mut lines: Vec<String> = Vec::new();
    lines.push(header);
    let shown: usize = if channels.len() > SUMMARY_CHANNELS {
        SUMMARY_CHANNELS
    } else {
        channels.len()
    };
    let mut i: usize = 0;
    while i < shown
        invariant
            i <= shown,
            shown == shown_channels(channels@).len(),
            shown <= channels@.len(),
            counts@.len() == 256,
            signals@.len() == 256,
            forall|c: u8| #[trigger] counts@[c as int] == count_on(aps@, c),
            forall|c: u8| #[trigger] signals@[c as int] == strongest_on(aps@, c),
            texts(lines@) == summary_texts(aps@, channels@).take(i + 1),
        decreases shown - i,
    {
        let channel: u8 = channels[i];
        assert(counts@[channel as int] == count_on(aps@, channel));
        assert(signals@[channel as int] == strongest_on(aps@, channel));
        let mut line = String::new();
        line.append("ch");
        let number = decimal_text(channel as u64);
        push_right_aligned(&mut line, number.as_str(), 2);
        line.append("  ");
        let count = decimal_text(counts[channel as usize] as u64);
        push_right_aligned(&mut line, count.as_str(), 2);
        line.append("x  ");
        let signal = signed_decimal_text(signals[channel as usize] as i64);
        push_right_aligned(&mut line, signal.as_str(), 4);
        line.append("dBm");
        assert(line@ =~= channel_text(aps@, channel));
        let ghost before = texts(lines@);
        lines.push(line);
        i += 1;
        assert(texts(lines@) =~= before.push(line@));
        assert(texts(lines@) =~= summary_texts(aps@, channels@).take(i + 1));
    }
    assert(summary_texts(aps@, channels@).take(i + 1) =~= summary_texts(aps@, channels@));
    lines
}

// ---------------------------------------------------------------------------
// Laws
// ---------------------------------------------------------------------------

/// How joining ends, and after how many attempts, when they go as `outcomes` say and
/// `state` was before them. An attempt follows only where the one before says so.
pub open spec fn joined(state: JoinState, outcomes: Seq<bool>) -> (JoinState, Option<ConnectStep>)
    decreases outcomes.len(),
{
    if outcomes.len() == 0 {
        (state, None)
    } else {
        let next = state.next();
        let step = connect_step(next.limit, next.made, outcomes[0]);
        if step is RetryAfter {
            joined(next, outcomes.skip(1))
        } else {
            (next, Some(step))
        }
    }
}

/// Never more attempts are made than may be, and as long as none succeeds all of them
/// are: then it is given up, and not before.
pub proof fn law_attempts_are_limited(state: JoinState, outcomes: Seq<bool>)
    requires
        state.open(),
    ensures
        joined(state, outcomes).0.made <= state.limit,
        joined(state, outcomes).1 == Some(ConnectStep::GiveUp) ==> joined(state, outcomes).0.made
            == state.limit,
        (forall|i: int| 0 <= i < outcomes.len() ==> !#[trigger] outcomes[i]) && outcomes.len()
            >= state.limit - state.made ==> joined(state, outcomes).1 == Some(
            ConnectStep::GiveUp,
        ),
    decreases outcomes.len(),
{
    if outcomes.len() > 0 {
        let next = state.next();
        let rest = outcomes.skip(1);
        if connect_step(next.limit, next.made, outcomes[0]) is RetryAfter {
            law_attempts_are_limited(next, rest);
            if forall|i: int| 0 <= i < outcomes.len() ==> !#[trigger] outcomes[i] {
                assert forall|i: int| 0 <= i < rest.len() implies !#[trigger] rest[i] by {
                    assert(rest[i] == outcomes[i + 1]);
                }
            }
        }
    }
}

/// The first attempt that succeeds ends it.
pub proof fn law_success_ends_joining(state: JoinState, failures: nat, later: Seq<bool>)
    requires
        state.made + failures < state.limit,
    ensures
        ({
            let outcomes = Seq::new(failures, |i: int| false).push(true) + later;
            &&& joined(state, outcomes).1 == Some(ConnectStep::Connected)
            &&& joined(state, outcomes).0.made == state.made + failures + 1
        }),
    decreases failures,
{
    let outcomes = Seq::new(failures, |i: int| false).push(true) + later;
    if failures > 0 {
        let fewer = (failures - 1) as nat;
        law_success_ends_joining(state.next(), fewer, later);
        assert(outcomes.skip(1) =~= Seq::new(fewer, |i: int| false).push(true) + later);
    }
}

/// How the wait for the clock ends, and after how many waits, when it is seen as
/// `looks` say. A look follows only after a wait.
pub open spec fn clock_awaited(waits: nat, looks: Seq<bool>) -> (nat, Option<SntpStep>)
    decreases looks.len(),
{
    if looks.len() == 0 {
        (waits, None)
    } else {
        let step = sntp_step(waits, looks[0]);
        if step is WaitFor {
            clock_awaited(waits + 1, looks.skip(1))
        } else {
            (waits, Some(step))
        }
    }
}

/// Never more than thirty waits are made, and as long as the clock is not set all of
/// them are: then it goes on without, and not before.
pub proof fn law_waits_are_limited(waits: nat, looks: Seq<bool>)
    requires
        waits <= SNTP_WAITS,
    ensures
        clock_awaited(waits, looks).0 <= SNTP_WAITS,
        clock_awaited(waits, looks).1 == Some(SntpStep::TimedOut) ==> clock_awaited(waits, looks).0
            == SNTP_WAITS,
        (forall|i: int| 0 <= i < looks.len() ==> !#[trigger] looks[i]) && looks.len() > SNTP_WAITS
            - waits ==> clock_awaited(waits, looks).1 == Some(SntpStep::TimedOut),
    decreases looks.len(),
{
    if looks.len() > 0 {
        let rest = looks.skip(1);
        if sntp_step(waits, looks[0]) is WaitFor {
            law_waits_are_limited(waits + 1, rest);
            if forall|i: int| 0 <= i < looks.len() ==> !#[trigger] looks[i] {
                assert forall|i: int| 0 <= i < rest.len() implies !#[trigger] rest[i] by {
                    assert(rest[i] == looks[i + 1]);
                }
            }
        }
    }
}

/// After an attempt that failed the next one follows in two seconds as long as one is left,
/// and each attempt uses up one.
pub proof fn law_attempts_are_two_seconds_apart(state: JoinState, attempt: nat)
    ensures
        connect_step(state.limit, attempt, true) == ConnectStep::Connected,
        attempt < state.limit ==> connect_step(state.limit, attempt, false) == (
        ConnectStep::RetryAfter { seconds: 2 }),
        attempt >= state.limit ==> connect_step(state.limit, attempt, false) == ConnectStep::GiveUp,
        state.next().limit == state.limit,
        state.next().made == state.made + 1,
        state.open() <==> state.made < state.limit,
{
}

/// The clock is looked at every second, thirty seconds long.
pub proof fn law_clock_is_looked_at_every_second(waits: nat)
    ensures
        sntp_step(waits, true) == SntpStep::Synced,
        waits < 30 ==> sntp_step(waits, false) == (SntpStep::WaitFor { seconds: 1 }),
        waits >= 30 ==> sntp_step(waits, false) == SntpStep::TimedOut,
{
}

/// A name without a colon and any password survive being written as one
/// configuration and split again.
pub proof fn law_credentials_read_back(
    ssid: Seq<char>,
    password: Seq<char>,
    head: Seq<char>,
    tail: Seq<char>,
)
    requires
        absent(ssid, ":"@),
        ssid + ":"@ + password == head + ":"@ + tail,
        first_at(ssid + ":"@ + password, ":"@, head.len() as int),
    ensures
        head == ssid,
        tail == password,
{
    reveal_strlit(":");
    let config = ssid + ":"@ + password;
    let n = ssid.len() as int;
    assert(config.subrange(n, n + 1) =~= ":"@);
    assert(crate::text::occurs_at(config, ":"@, n));
    let m = head.len() as int;
    if m < n {
        assert(config.subrange(m, m + 1) =~= ssid.subrange(m, m + 1));
        assert(crate::text::occurs_at(ssid, ":"@, m));
    }
    assert(m == n);
    assert(head =~= config.take(n));
    assert(ssid =~= config.take(n));
    assert(tail =~= config.skip(n + 1));
    assert(password =~= config.skip(n + 1));
}

/// The order of a scan is determined: strength decides, and between equals the
/// order in which they were found.
pub proof fn law_scan_order_is_unique(
    aps: Seq<AccessPoint>,
    a: Seq<AccessPoint>,
    b: Seq<AccessPoint>,
)
    requires
        is_sorted_scan(aps, a),
        is_sorted_scan(aps, b),
    ensures
        a == b,
{
    broadcast use vstd::seq_lib::group_to_multiset_ensures;

    assert(a.to_multiset().len() == b.to_multiset().len());
    assert forall|signal: i8| #[trigger] with_signal(a, signal) == with_signal(b, signal) by {
        assert(with_signal(a, signal) == with_signal(aps, signal));
        assert(with_signal(b, signal) == with_signal(aps, signal));
    }
    lemma_same_order(a, b);
}

/// Sorted access points are determined by those of each strength.
proof fn lemma_same_order(a: Seq<AccessPoint>, b: Seq<AccessPoint>)
    requires
        a.len() == b.len(),
        strongest_lead(a),
        strongest_lead(b),
        forall|signal: i8| #[trigger] with_signal(a, signal) == with_signal(b, signal),
    ensures
        a == b,
    decreases a.len(),
{
    if a.len() == 0 {
        assert(a =~= b);
    } else {
        let x = a.last();
        let y = b.last();
        lemma_weakest_is_last(a, b);
        lemma_weakest_is_last(b, a);
        let weakest = x.signal_strength;
        lemma_with_signal_of_last(a, weakest);
        lemma_with_signal_of_last(b, weakest);
        assert(with_signal(a, weakest) == with_signal(b, weakest));
        assert(with_signal(a, weakest).last() == x);
        let shorter_a = a.drop_last();
        let shorter_b = b.drop_last();
        assert forall|signal: i8| #[trigger] with_signal(shorter_a, signal) == with_signal(
            shorter_b,
            signal,
        ) by {
            lemma_with_signal_of_last(a, signal);
            lemma_with_signal_of_last(b, signal);
            assert(with_signal(a, signal) == with_signal(b, signal));
            if signal == weakest {
                assert(with_signal(shorter_a, signal) =~= with_signal(a, signal).drop_last());
                assert(with_signal(shorter_b, signal) =~= with_signal(b, signal).drop_last());
            }
        }
        lemma_same_order(shorter_a, shorter_b);
        assert(a =~= shorter_a.push(x));
        assert(b =~= shorter_b.push(y));
    }
}

/// The access points of a strength, with the last one told apart.
proof fn lemma_with_signal_of_last(aps: Seq<AccessPoint>, signal: i8)
    requires
        aps.len() > 0,
    ensures
        with_signal(aps, signal) == if aps.last().signal_strength == signal {
            with_signal(aps.drop_last(), signal).push(aps.last())
        } else {
            with_signal(aps.drop_last(), signal)
        },
{
    reveal(Seq::filter);
}

/// No access point of `b` is weaker than the last of `a`, where both have the
/// same ones of each strength.
proof fn lemma_weakest_is_last(a: Seq<AccessPoint>, b: Seq<AccessPoint>)
    requires
        a.len() > 0,
        b.len() > 0,
        strongest_lead(a),
        forall|signal: i8| #[trigger] with_signal(a, signal) == with_signal(b, signal),
    ensures
        b.last().signal_strength >= a.last().signal_strength,
{
    let signal = b.last().signal_strength;
    let keep = |ap: AccessPoint| ap.signal_strength == signal;
    lemma_with_signal_of_last(b, signal);
    assert(with_signal(a, signal) == with_signal(b, signal));
    let found = with_signal(a, signal);
    assert(found.len() > 0);
    a.lemma_filter_contains_rev(keep, found[0]);
    let i = choose|i: int| 0 <= i < a.len() && a[i] == found[0];
    a.lemma_filter_pred(keep, 0);
    assert(keep(found[0]));
    assert(a[i].signal_strength >= a[a.len() - 1].signal_strength);
}

/// There is one order of the channels, busiest first, so the summary of a scan
/// is determined.
pub proof fn law_busiest_order_is_unique(aps: Seq<AccessPoint>, a: Seq<u8>, b: Seq<u8>)
    requires
        is_busiest_first(aps, a),
        is_busiest_first(aps, b),
    ensures
        a == b,
    decreases a.len(),
{
    lemma_same_prefix(aps, a, b, a.len());
    lemma_same_prefix(aps, b, a, b.len());
    assert(a =~= b);
}

/// Two busiest-first orders agree on their first `n` channels.
proof fn lemma_same_prefix(aps: Seq<AccessPoint>, a: Seq<u8>, b: Seq<u8>, n: nat)
    requires
        is_busiest_first(aps, a),
        is_busiest_first(aps, b),
        n <= a.len(),
    ensures
        n <= b.len(),
        forall|i: int| 0 <= i < n ==> a[i] == b[i],
    decreases n,
{
    if n > 0 {
        let k = n - 1;
        lemma_same_prefix(aps, a, b, k as nat);
        assert(a.contains(a[k]));
        assert(b.contains(a[k]));
        let j = choose|j: int| 0 <= j < b.len() && b[j] == a[k];
        if j < k {
            assert(a[j] == b[j]);
            assert(busier(aps, a[j], a[k]));
        } else if j > k {
            assert(b.contains(b[k]));
            assert(a.contains(b[k]));
            let i = choose|i: int| 0 <= i < a.len() && a[i] == b[k];
            assert(busier(aps, b[k], b[j]));
            if i < k {
                assert(a[i] == b[i]);
                assert(busier(aps, b[i], b[k]));
            } else if i > k {
                assert(busier(aps, a[k], a[i]));
            }
        }
    }
}

/// The count of a channel is the number of access points on it.
pub proof fn law_count_is_how_many_are_on_the_channel(aps: Seq<AccessPoint>, channel: u8)
    ensures
        count_on(aps, channel) == aps.filter(|ap: AccessPoint| ap.channel == channel).len(),
    decreases aps.len(),
{
    reveal(Seq::filter);
    if aps.len() > 0 {
        law_count_is_how_many_are_on_the_channel(aps.drop_last(), channel);
    }
}

/// The strongest signal of a channel is that of some access point on it, and none on it is
/// stronger.
pub proof fn law_strongest_signal_is_the_strongest(aps: Seq<AccessPoint>, channel: u8)
    ensures
        forall|i: int|
            0 <= i < aps.len() && (#[trigger] aps[i]).channel == channel ==> aps[i].signal_strength
                <= strongest_on(aps, channel),
        count_on(aps, channel) > 0 ==> exists|i: int|
            0 <= i < aps.len() && (#[trigger] aps[i]).channel == channel && aps[i].signal_strength
                == strongest_on(aps, channel),
    decreases aps.len(),
{
    if aps.len() > 0 {
        let shorter = aps.drop_last();
        let last = aps.len() - 1;
        law_strongest_signal_is_the_strongest(shorter, channel);
        assert(aps[last] == aps.last());
        assert forall|i: int|
            0 <= i < aps.len() && (
            #[trigger] aps[i]).channel == channel implies aps[i].signal_strength <= strongest_on(
            aps,
            channel,
        ) by {
            if i < last {
                assert(shorter[i] == aps[i]);
            }
        }
        if count_on(shorter, channel) > 0 {
            let i = choose|i: int|
                0 <= i < shorter.len() && (#[trigger] shorter[i]).channel == channel
                    && shorter[i].signal_strength == strongest_on(shorter, channel);
            assert(aps[i] == shorter[i]);
        } else {
            lemma_nobody_is_weakest(shorter, channel);
        }
    }
}

/// Where nobody is on a channel its signal is the weakest there is.
proof fn lemma_nobody_is_weakest(aps: Seq<AccessPoint>, channel: u8)
    requires
        count_on(aps, channel) == 0,
    ensures
        strongest_on(aps, channel) == i8::MIN,
    decreases aps.len(),
{
    if aps.len() > 0 {
        lemma_nobody_is_weakest(aps.drop_last(), channel);
    }
}

/// More access points come before fewer, and among equal ones the lower channel.
pub proof fn law_busier_channels_come_first(aps: Seq<AccessPoint>, a: u8, b: u8)
    ensures
        count_on(aps, a) > count_on(aps, b) ==> busier(aps, a, b) && !busier(aps, b, a),
        count_on(aps, a) == count_on(aps, b) ==> (busier(aps, a, b) <==> a < b),
{
}

/// How wide a column of at least `width` characters gets that holds `s`.
pub open spec fn column_width(s: Seq<char>, width: int) -> int {
    if s.len() < width {
        width
    } else {
        s.len() as int
    }
}

/// The line of an access point: four characters end with its signal; behind ` dBm  ch` its
/// channel begins, then after two blanks the six bytes of its hardware address with colons
/// between, then after two blanks its authentication in a column of 16, and after two more
/// its name.
pub proof fn law_access_point_line_has_columns(ap: AccessPoint)
    ensures
        ({
            let line = access_point_text(ap);
            let signal = signed_decimal(ap.signal_strength as int);
            let channel = decimal(ap.channel as nat);
            let address = 12 + column_width(channel, 2) + 2;
            let auth = if ap.auth_method is Some {
                ap.auth_method->0@
            } else {
                "Open"@
            };
            let name = address + 17 + 2 + column_width(auth, 16) + 2;
            &&& signal.len() <= 4
            &&& line.subrange(4 - signal.len(), 4) == signal
            &&& forall|i: int| 0 <= i < 4 - signal.len() ==> #[trigger] line[i] == ' '
            &&& line.subrange(4, 12) == " dBm  ch"@
            &&& line.subrange(12, 12int + channel.len()) == channel
            &&& forall|i: int| 12 + channel.len() <= i < address ==> #[trigger] line[i] == ' '
            &&& line.subrange(address, address + 17) == bssid_text(ap.bssid@)
            &&& line.subrange(address + 19, address + 19 + auth.len()) == auth
            &&& forall|i: int| address + 19 + auth.len() <= i < name ==> #[trigger] line[i] == ' '
            &&& line.skip(name) == if ap.ssid@.len() == 0 {
                "<hidden>"@
            } else {
                ap.ssid@
            }
        }),
{
    let line = access_point_text(ap);
    let signal = signed_decimal(ap.signal_strength as int);
    let channel = decimal(ap.channel as nat);
    let auth = if ap.auth_method is Some {
        ap.auth_method->0@
    } else {
        "Open"@
    };
    let ssid = if ap.ssid@.len() == 0 {
        "<hidden>"@
    } else {
        ap.ssid@
    };
    reveal_strlit(" dBm  ch");
    reveal_strlit("  ");
    reveal_strlit(":");
    lemma_signal_is_short(ap.signal_strength);
    law_columns(signal, 4);
    law_columns(channel, 2);
    law_columns(auth, 16);
    let a = pad_left(signal, 4);
    let b = pad_right(channel, 2);
    let c = bssid_text(ap.bssid@);
    let d = pad_right(auth, 16);
    assert(c.len() == 17);
    assert(line == a + " dBm  ch"@ + b + "  "@ + c + "  "@ + d + "  "@ + ssid);
    let address: int = 12int + b.len() + 2;
    let name: int = address + 19 + d.len() + 2;
    assert(line.subrange(4 - signal.len(), 4) =~= a.skip(a.len() - signal.len()));
    assert(line.subrange(4, 12) =~= " dBm  ch"@);
    assert(line.subrange(12, 12int + channel.len()) =~= b.take(channel.len() as int));
    assert(line.subrange(address, address + 17) =~= c);
    assert(line.subrange(address + 19, address + 19 + auth.len()) =~= d.take(auth.len() as int));
    assert(line.skip(name) =~= ssid);
    assert forall|i: int| 0 <= i < 4 - signal.len() implies #[trigger] line[i] == ' ' by {
        assert(line[i] == a[i]);
    }
    assert forall|i: int| 12 + channel.len() <= i < address implies #[trigger] line[i] == ' ' by {
        if i < 12 + b.len() {
            assert(line[i] == b[i - 12]);
        } else {
            assert(line[i] == ("  "@)[i - 12 - b.len()]);
        }
    }
    assert forall|i: int| address + 19 + auth.len() <= i < name implies #[trigger] line[i] == ' ' by {
        if i < address + 19 + d.len() {
            assert(line[i] == d[i - address - 19]);
        } else {
            assert(line[i] == ("  "@)[i - address - 19 - d.len()]);
        }
    }
}

/// A signal takes at most four characters.
proof fn lemma_signal_is_short(signal: i8)
    ensures
        signed_decimal(signal as int).len() <= 4,
{
    reveal_with_fuel(decimal, 4);
}

/// A hardware address is its six bytes in hexadecimal, in order, with colons between.
pub proof fn law_hardware_address_in_order(bssid: Seq<u8>, i: int)
    requires
        bssid.len() == 6,
        0 <= i < 6,
    ensures
        bssid_text(bssid).len() == 17,
        bssid_text(bssid)[3 * i] == ("0123456789abcdef"@)[bssid[i] as int / 16],
        bssid_text(bssid)[3 * i + 1] == ("0123456789abcdef"@)[bssid[i] as int % 16],
        i < 5 ==> bssid_text(bssid)[3 * i + 2] == ':',
{
    reveal_strlit(":");
    law_hex_digits(bssid, i);
    let text = bssid_text(bssid);
    assert(text[3 * i] == hex_byte(bssid[i])[0] && text[3 * i + 1] == hex_byte(bssid[i])[1]) by {
        assert(i == 0 || i == 1 || i == 2 || i == 3 || i == 4 || i == 5);
    }
}

/// The lines of a scan are a count and then each access point, in order.
pub proof fn law_scan_lists_all(aps: Seq<AccessPoint>, i: int)
    requires
        0 <= i < aps.len(),
    ensures
        scan_texts(aps).len() == aps.len() + 1,
        scan_texts(aps)[0] == "=== scan: "@ + decimal(aps.len()) + " access point(s) ==="@,
        scan_texts(aps)[i + 1] == access_point_text(aps[i]),
{
}

/// The summary begins with how many access points and channels there are, and goes on with
/// the seven busiest channels.
pub proof fn law_summary_lists_the_busiest(aps: Seq<AccessPoint>, channels: Seq<u8>, i: int)
    requires
        0 <= i < channels.len(),
        i < 7,
    ensures
        summary_texts(aps, channels).len() == 1 + if channels.len() < 7 {
            channels.len()
        } else {
            7
        },
        summary_texts(aps, channels)[0] == decimal(aps.len()) + " APs / "@ + decimal(
            channels.len(),
        ) + " ch"@,
        summary_texts(aps, channels)[i + 1] == channel_text(aps, channels[i]),
{
}

/// The line of a channel: its number, how many access points are on it and its strongest
/// signal, each at the right edge of a column.
pub proof fn law_channel_line_has_columns(aps: Seq<AccessPoint>, channel: u8)
    ensures
        ({
            let line = channel_text(aps, channel);
            let number = decimal(channel as nat);
            let count = decimal(count_on(aps, channel));
            let signal = signed_decimal(strongest_on(aps, channel) as int);
            let first = 2 + column_width(number, 2);
            let second = first + 2 + column_width(count, 2);
            &&& line.subrange(0, 2) == "ch"@
            &&& line.subrange(first - number.len(), first) == number
            &&& line.subrange(second - count.len(), second) == count
            &&& line[second] == 'x'
            &&& line.subrange(second + 7 - signal.len(), second + 7) == signal
            &&& line.skip(second + 7) == "dBm"@
            &&& forall|i: int| 2 <= i < first - number.len() ==> #[trigger] line[i] == ' '
            &&& forall|i: int| first <= i < second - count.len() ==> #[trigger] line[i] == ' '
            &&& forall|i: int|
                second < i < second + 7 - signal.len() ==> #[trigger] line[i] == ' '
        }),
{
    let line = channel_text(aps, channel);
    let number = decimal(channel as nat);
    let count = decimal(count_on(aps, channel));
    let signal = signed_decimal(strongest_on(aps, channel) as int);
    reveal_strlit("ch");
    reveal_strlit("  ");
    reveal_strlit("x  ");
    reveal_strlit("dBm");
    lemma_signal_is_short(strongest_on(aps, channel));
    law_columns(number, 2);
    law_columns(count, 2);
    law_columns(signal, 4);
    let a = pad_left(number, 2);
    let b = pad_left(count, 2);
    let c = pad_left(signal, 4);
    let first: int = 2int + a.len();
    let second: int = first + 2 + b.len();
    assert(line == "ch"@ + a + "  "@ + b + "x  "@ + c + "dBm"@);
    assert(line.subrange(0, 2) =~= "ch"@);
    assert(line.subrange(first - number.len(), first) =~= a.skip(a.len() - number.len()));
    assert(line.subrange(second - count.len(), second) =~= b.skip(b.len() - count.len()));
    assert(line.subrange(second + 7 - signal.len(), second + 7) =~= c.skip(c.len() - signal.len()));
    assert(line.skip(second + 7) =~= "dBm"@);
    assert(line[second] == ("x  "@)[0]);
    assert forall|i: int| 2 <= i < first - number.len() implies #[trigger] line[i] == ' ' by {
        assert(line[i] == a[i - 2]);
    }
    assert forall|i: int| first <= i < second - count.len() implies #[trigger] line[i] == ' ' by {
        if i < first + 2 {
            assert(line[i] == ("  "@)[i - first]);
        } else {
            assert(line[i] == b[i - first - 2]);
        }
    }
    assert forall|i: int|
        second < i < second + 7 - signal.len() implies #[trigger] line[i] == ' ' by {
        if i < second + 3 {
            assert(line[i] == ("x  "@)[i - second]);
        } else {
            assert(line[i] == c[i - second - 3]);
        }
    }
}

/// The summary fits the panel: it never has more than eight lines.
pub proof fn law_summary_fits_the_panel(aps: Seq<AccessPoint>, channels: Seq<u8>)
    ensures
        1 <= summary_texts(aps, channels).len() <= SUMMARY_CHANNELS + 1,
{
}

/// Taking one access point out of a scan lowers the count of its channel by one,
/// and the strongest signal of its channel is the stronger of its own and what
/// is left.
proof fn lemma_occupancy_without(aps: Seq<AccessPoint>, i: int, channel: u8)
    requires
        0 <= i < aps.len(),
    ensures
        count_on(aps, channel) == count_on(aps.remove(i), channel) + if aps[i].channel == channel {
            1nat
        } else {
            0nat
        },
        strongest_on(aps, channel) == if aps[i].channel == channel && aps[i].signal_strength
            > strongest_on(aps.remove(i), channel) {
            aps[i].signal_strength
        } else {
            strongest_on(aps.remove(i), channel)
        },
    decreases aps.len(),
{
    if i == aps.len() - 1 {
        assert(aps.remove(i) =~= aps.drop_last());
    } else {
        lemma_occupancy_without(aps.drop_last(), i, channel);
        assert(aps.remove(i).drop_last() =~= aps.drop_last().remove(i));
        assert(aps.remove(i).last() == aps.last());
    }
}

/// The order in which the access points come does not matter to the summary:
/// the same access points give the same count and the same strongest signal on
/// every channel.
pub proof fn law_summary_ignores_scan_order(
    aps: Seq<AccessPoint>,
    other: Seq<AccessPoint>,
    channel: u8,
)
    requires
        aps.to_multiset() == other.to_multiset(),
    ensures
        aps.len() == other.len(),
        count_on(aps, channel) == count_on(other, channel),
        strongest_on(aps, channel) == strongest_on(other, channel),
    decreases aps.len(),
{
    broadcast use vstd::seq_lib::group_to_multiset_ensures;

    assert(aps.len() == aps.to_multiset().len() && other.len() == other.to_multiset().len());
    if aps.len() > 0 {
        let last = aps.len() - 1;
        let ap = aps.last();
        assert(aps.contains(ap));
        assert(other.to_multiset().count(ap) > 0);
        assert(other.contains(ap));
        let i = choose|i: int| 0 <= i < other.len() && other[i] == ap;
        assert(aps.remove(last).to_multiset() == other.remove(i).to_multiset());
        law_summary_ignores_scan_order(aps.remove(last), other.remove(i), channel);
        lemma_occupancy_without(aps, last, channel);
        lemma_occupancy_without(other, i, channel);
    }
}

} // verus!
