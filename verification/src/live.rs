//! Following the log of a device: poll for records newer than the last one
//! shown, and notice when the device has restarted.

use crate::buffer::{law_range_is_a_window, law_restart_shows, LogState};
use crate::follow::{
    accepts, answer_after, answered, answers, check_event, comes_through, ids_of, latest_event,
    law_what_comes_through_is_newer, left_after, lemma_answers_on, lemma_answers_one, lemma_drain,
    lemma_run_on, lemma_run_one, lemma_streamed_answers, reached, received, replies, run, shown,
    streamed, Follower, Machine, Round,
};
use crate::protocol::Record;
use vstd::prelude::*;

verus! {

/// The most steps of waiting that failures add up to.
pub const MAX_BACKOFF: u32 = 5;

/// What happened.
#[derive(Clone, Copy, Debug, PartialEq, Eq, Structural)]
pub enum Event {
    /// The connection is up.
    Connected,
    /// It could not be made.
    ConnectFailed,
    /// The id of the newest record, if there is one.
    Latest(Option<u64>),
    /// The stream of records is open.
    Opened,
    /// A request failed.
    RpcFailed,
    /// The stream gave the record with this id.
    Received(u64),
    /// The stream is at its end.
    Ended,
    /// It broke off.
    StreamFailed,
    /// The wait is over.
    Woke,
}

/// What is to be done next.
#[derive(Clone, Copy, Debug, PartialEq, Eq, Structural)]
pub enum Action {
    /// Connect to the device.
    Dial,
    /// Ask for the newest record.
    GetLatest,
    /// Ask for the records from `start_id` on, as many as `limit`.
    GetLog { start_id: u64, limit: u32 },
    /// Take the next record from the stream.
    Receive,
    /// Wait for so many milliseconds.
    Wait { millis: u64 },
    /// Nothing more.
    Stop,
}

/// What there is to tell after an event.
#[derive(Clone, Copy, Debug, PartialEq, Eq, Structural)]
pub enum Report {
    /// Nothing.
    Quiet,
    /// Show the record that came.
    Show,
    /// Say that the device has restarted, then show the record that came.
    Restarted,
    /// Say that there was no connection.
    ConnectError,
    /// Say that a request failed.
    RpcError,
    /// Say that the stream broke off.
    StreamError,
    /// Say that the feed is live.
    Live,
    /// Show the record that came, then say that the feed is live.
    ShowLive,
    /// Say that there are no readings yet.
    NoReadings,
}

/// The record that came with the event is shown.
pub open spec fn shows(report: Report) -> bool {
    report is Show || report is Restarted || report is ShowLive
}

/// What is said, where `error` describes the failure.
pub open spec fn notice_text(report: Report, error: Seq<char>) -> Option<Seq<char>> {
    match report {
        Report::Quiet | Report::Show => None,
        Report::Restarted => Some("(device restarted)"@),
        Report::ConnectError => Some("connect error: "@ + error),
        Report::RpcError => Some("rpc error: "@ + error),
        Report::StreamError => Some("stream error: "@ + error),
        Report::Live | Report::ShowLive => Some("live ✓"@),
        Report::NoReadings => Some("no readings yet — waiting…"@),
    }
}

/// A prefix and what follows it.
fn joined(prefix: &str, rest: &str) -> (text: String)
    ensures
        text@ == prefix@ + rest@,
{
    let mut text = prefix.to_owned();
    text.append(rest);
    text
}

/// What to say for a report, where `error` describes the failure.
pub fn notice(report: Report, error: &str) -> (line: Option<String>)
    ensures
        match line {
            Some(text) => notice_text(report, error@) == Some(text@),
            None => notice_text(report, error@) is None,
        },
{
    match report {
        Report::Quiet | Report::Show => None,
        Report::Restarted => Some("(device restarted)".to_owned()),
        Report::ConnectError => Some(joined("connect error: ", error)),
        Report::RpcError => Some(joined("rpc error: ", error)),
        Report::StreamError => Some(joined("stream error: ", error)),
        Report::Live | Report::ShowLive => Some("live ✓".to_owned()),
        Report::NoReadings => Some("no readings yet — waiting…".to_owned()),
    }
}

// ---------------------------------------------------------------------------
// The poller of the command line
// ---------------------------------------------------------------------------

/// What the poller waits for.
#[derive(Clone, Copy, Debug, PartialEq, Eq, Structural)]
pub enum Stage {
    /// For a connection.
    Dialing,
    /// For the newest record, to begin with it.
    Seeding,
    /// For the stream of the records after `seen`.
    Opening { seen: u64 },
    /// For the next record of that stream; `got_any` if one came already.
    Draining { seen: u64, got_any: bool },
    /// For the newest record, to see whether the device has restarted.
    Checking { seen: u64 },
    /// For so many seconds to pass.
    Waiting { seconds: u64 },
    /// For nothing.
    Stopped,
}

/// The poller as a mathematical value.
pub struct PollState {
    /// Stop after one round.
    pub once: bool,
    /// There is a connection.
    pub connected: bool,
    /// The id of the last record that was shown.
    pub last_id: Option<u64>,
    /// How many failures came in a row, as far as they are counted.
    pub backoff: u32,
    pub stage: Stage,
}

/// `event` is one that can come at `stage`.
pub open spec fn fits(stage: Stage, event: Event) -> bool {
    match stage {
        Stage::Dialing => event is Connected || event is ConnectFailed,
        Stage::Seeding | Stage::Checking { .. } => event is Latest || event is RpcFailed,
        Stage::Opening { .. } => event is Opened || event is RpcFailed,
        Stage::Draining { .. } => event is Received || event is Ended || event is StreamFailed,
        Stage::Waiting { .. } => event is Woke,
        Stage::Stopped => false,
    }
}

/// One more failure in a row.
pub open spec fn backed_off(backoff: u32) -> u32 {
    if backoff + 1 < MAX_BACKOFF {
        (backoff + 1) as u32
    } else {
        MAX_BACKOFF
    }
}

impl PollState {
    /// Failures are counted up to the limit, and no wait is longer than that
    /// many of them call for.
    pub open spec fn valid(self) -> bool {
        &&& self.backoff <= MAX_BACKOFF
        &&& self.stage matches Stage::Waiting { seconds } ==> seconds <= 2 * MAX_BACKOFF
    }

    /// At the start.
    pub open spec fn initial(once: bool) -> PollState {
        PollState { once, connected: false, last_id: None, backoff: 0, stage: Stage::Dialing }
    }

    /// The next request would be for an id after the last possible one.
    pub open spec fn out_of_ids(self) -> bool {
        self.stage == (Stage::Opening { seen: u64::MAX })
    }

    /// What is to be done next.
    pub open spec fn action(self) -> Action {
        match self.stage {
            Stage::Dialing => Action::Dial,
            Stage::Seeding | Stage::Checking { .. } => Action::GetLatest,
            Stage::Opening { seen } => Action::GetLog {
                start_id: (seen + 1) as u64,
                limit: u32::MAX,
            },
            Stage::Draining { .. } => Action::Receive,
            Stage::Waiting { seconds } => Action::Wait { millis: (seconds * 1000) as u64 },
            Stage::Stopped => Action::Stop,
        }
    }

    /// A round begins: with what is newer than the last record shown, or with
    /// the newest record where none was.
    pub open spec fn begun(self) -> PollState {
        PollState {
            stage: match self.last_id {
                None => Stage::Seeding,
                Some(seen) => Stage::Opening { seen },
            },
            ..self
        }
    }

    /// Wait after a failure, longer with each one in a row, without a connection.
    pub open spec fn failed(self) -> PollState {
        PollState {
            connected: false,
            backoff: backed_off(self.backoff),
            stage: Stage::Waiting { seconds: (2 * backed_off(self.backoff)) as u64 },
            ..self
        }
    }

    /// The round is over.
    pub open spec fn over(self, failed: bool) -> PollState {
        if self.once {
            PollState { stage: Stage::Stopped, ..self }
        } else if failed {
            self.failed()
        } else {
            PollState { backoff: 0, stage: Stage::Waiting { seconds: 2 }, ..self }
        }
    }

    /// The record with this id is shown.
    pub open spec fn showing(self, id: u64) -> PollState {
        PollState { last_id: Some(id), ..self }
    }

    /// Where `event` leads.
    pub open spec fn next(self, event: Event) -> PollState {
        match (self.stage, event) {
            (Stage::Dialing, Event::Connected) => (PollState { connected: true, ..self }).begun(),
            (Stage::Dialing, _) => self.failed(),
            (Stage::Seeding, Event::Latest(Some(id))) => self.showing(id).over(false),
            (Stage::Seeding, Event::Latest(None)) => self.over(false),
            (Stage::Seeding, _) => self.over(true),
            (Stage::Opening { seen }, Event::Opened) => PollState {
                stage: Stage::Draining { seen, got_any: false },
                ..self
            },
            (Stage::Opening { .. }, _) => self.over(true),
            (Stage::Draining { seen, .. }, Event::Received(id)) => PollState {
                stage: Stage::Draining { seen, got_any: true },
                ..self.showing(id)
            },
            (Stage::Draining { seen, got_any }, Event::Ended) => if got_any {
                self.over(false)
            } else {
                PollState { stage: Stage::Checking { seen }, ..self }
            },
            (Stage::Draining { .. }, _) => self.over(true),
            (Stage::Checking { seen }, Event::Latest(Some(id))) => if id < seen {
                self.showing(id).over(false)
            } else {
                self.over(false)
            },
            (Stage::Checking { .. }, _) => self.over(false),
            (Stage::Waiting { .. }, _) => if self.connected {
                self.begun()
            } else {
                PollState { stage: Stage::Dialing, ..self }
            },
            (Stage::Stopped, _) => self,
        }
    }

    /// What `event` gives to tell.
    pub open spec fn report(self, event: Event) -> Report {
        match (self.stage, event) {
            (Stage::Dialing, Event::ConnectFailed) => Report::ConnectError,
            (Stage::Seeding, Event::Latest(Some(_))) => Report::Show,
            (Stage::Seeding, Event::RpcFailed) => Report::RpcError,
            (Stage::Opening { .. }, Event::RpcFailed) => Report::RpcError,
            (Stage::Draining { .. }, Event::Received(_)) => Report::Show,
            (Stage::Draining { .. }, Event::StreamFailed) => Report::StreamError,
            (Stage::Checking { seen }, Event::Latest(Some(id))) => if id < seen {
                Report::Restarted
            } else {
                Report::Quiet
            },
            _ => Report::Quiet,
        }
    }
}

/// Follows a device over one long-lived connection, dialled anew after a
/// failure.
#[derive(Debug)]
pub struct Poller {
    once: bool,
    connected: bool,
    last_id: Option<u64>,
    backoff: u32,
    stage: Stage,
}

impl View for Poller {
    type V = PollState;

    closed spec fn view(&self) -> PollState {
        PollState {
            once: self.once,
            connected: self.connected,
            last_id: self.last_id,
            backoff: self.backoff,
            stage: self.stage,
        }
    }
}

impl Poller {
    /// Begin without a connection. With `once`, stop after one round.
    pub fn new(once: bool) -> (poller: Poller)
        ensures
            poller@ == PollState::initial(once),
            poller@.valid(),
    {
        Poller { once, connected: false, last_id: None, backoff: 0, stage: Stage::Dialing }
    }

    /// Whether the connection is to be kept.
    pub fn connected(&self) -> (connected: bool)
        ensures
            connected == self@.connected,
    {
        self.connected
    }

    /// The id of the last record that was shown.
    pub fn last_id(&self) -> (last_id: Option<u64>)
        ensures
            last_id == self@.last_id,
    {
        self.last_id
    }

    /// Whether the next request would be for an id after the last possible one.
    pub fn out_of_ids(&self) -> (yes: bool)
        ensures
            yes == self@.out_of_ids(),
    {
        match self.stage {
            Stage::Opening { seen } => seen == u64::MAX,
            _ => false,
        }
    }

    /// What is to be done next.
    pub fn action(&self) -> (action: Action)
        requires
            self@.valid(),
            !self@.out_of_ids(),
        ensures
            action == self@.action(),
            self@.stage matches Stage::Opening { seen } ==> action == (Action::GetLog {
                start_id: (seen + 1) as u64,
                limit: u32::MAX,
            }),
    {
        match self.stage {
            Stage::Dialing => Action::Dial,
            Stage::Seeding | Stage::Checking { .. } => Action::GetLatest,
            Stage::Opening { seen } => Action::GetLog { start_id: seen + 1, limit: u32::MAX },
            Stage::Draining { .. } => Action::Receive,
            Stage::Waiting { seconds } => Action::Wait { millis: seconds * 1000 },
            Stage::Stopped => Action::Stop,
        }
    }

    fn begin(&mut self)
        ensures
            final(self)@ == old(self)@.begun(),
    {
        self.stage = match self.last_id {
            None => Stage::Seeding,
            Some(seen) => Stage::Opening { seen },
        };
    }

    fn fail(&mut self)
        requires
            old(self)@.valid(),
        ensures
            final(self)@ == old(self)@.failed(),
    {
        self.connected = false;
        self.backoff = if self.backoff + 1 < MAX_BACKOFF {
            self.backoff + 1
        } else {
            MAX_BACKOFF
        };
        self.stage = Stage::Waiting { seconds: 2 * (self.backoff as u64) };
    }

    fn finish(&mut self, failed: bool)
        requires
            old(self)@.valid(),
        ensures
            final(self)@ == old(self)@.over(failed),
    {
        if self.once {
            self.stage = Stage::Stopped;
        } else if failed {
            self.fail();
        } else {
            self.backoff = 0;
            self.stage = Stage::Waiting { seconds: 2 };
        }
    }

    /// Go on with what happened.
    pub fn step(&mut self, event: Event) -> (report: Report)
        requires
            old(self)@.valid(),
            fits(old(self)@.stage, event),
        ensures
            final(self)@ == old(self)@.next(event),
            final(self)@.valid(),
            report == old(self)@.report(event),
    {
        match self.stage {
            Stage::Dialing => {
                if matches!(event, Event::Connected) {
                    self.connected = true;
                    self.begin();
                    Report::Quiet
                } else {
                    self.fail();
                    Report::ConnectError
                }
            },
            Stage::Seeding => match event {
                Event::Latest(Some(id)) => {
                    self.last_id = Some(id);
                    self.finish(false);
                    Report::Show
                },
                Event::Latest(None) => {
                    self.finish(false);
                    Report::Quiet
                },
                _ => {
                    self.finish(true);
                    Report::RpcError
                },
            },
            Stage::Opening { seen } => {
                if matches!(event, Event::Opened) {
                    self.stage = Stage::Draining { seen, got_any: false };
                    Report::Quiet
                } else {
                    self.finish(true);
                    Report::RpcError
                }
            },
            Stage::Draining { seen, got_any } => match event {
                Event::Received(id) => {
                    self.last_id = Some(id);
                    self.stage = Stage::Draining { seen, got_any: true };
                    Report::Show
                },
                Event::Ended => {
                    if got_any {
                        self.finish(false);
                    } else {
                        self.stage = Stage::Checking { seen };
                    }
                    Report::Quiet
                },
                _ => {
                    self.finish(true);
                    Report::StreamError
                },
            },
            Stage::Checking { seen } => match event {
                Event::Latest(Some(id)) => {
                    if id < seen {
                        self.last_id = Some(id);
                        self.finish(false);
                        Report::Restarted
                    } else {
                        self.finish(false);
                        Report::Quiet
                    }
                },
                _ => {
                    self.finish(false);
                    Report::Quiet
                },
            },
            Stage::Waiting { .. } => {
                if self.connected {
                    self.begin();
                } else {
                    self.stage = Stage::Dialing;
                }
                Report::Quiet
            },
            Stage::Stopped => Report::Quiet,
        }
    }
}

// ---------------------------------------------------------------------------
// Laws
// ---------------------------------------------------------------------------

impl Machine for PollState {
    open spec fn after(self, event: Event) -> PollState {
        self.next(event)
    }

    open spec fn tells(self, event: Event) -> Report {
        self.report(event)
    }

    open spec fn asks(self) -> Action {
        self.action()
    }

    open spec fn takes(self, event: Event) -> bool {
        fits(self.stage, event)
    }

    open spec fn drains(self) -> bool {
        self.stage is Draining
    }

    open spec fn drained(self, id: u64) -> PollState {
        PollState {
            last_id: Some(id),
            stage: Stage::Draining { seen: self.stage->Draining_seen, got_any: true },
            ..self
        }
    }

    proof fn drains_on(self, id: u64) {
    }
}

impl PollState {
    /// Connected, about to ask for what is newer than the last record shown.
    pub open spec fn following(self, seen: u64) -> bool {
        &&& self.valid()
        &&& !self.once
        &&& self.connected
        &&& self.last_id == Some(seen)
        &&& self.stage == Stage::Opening { seen }
    }
}

/// Whatever happens, what is asked for next follows the record that was shown
/// last.
pub proof fn law_last_id_is_the_last_shown(state: PollState, events: Seq<Event>)
    requires
        accepts(state, events),
    ensures
        run(state, events).last_id == if shown(state, events).len() > 0 {
            Some(shown(state, events).last())
        } else {
            state.last_id
        },
    decreases events.len(),
{
    if events.len() > 0 {
        law_last_id_is_the_last_shown(state, events.drop_last());
    }
}

/// The connection was dropped; `failures` times it cannot be made again, then it can.
pub open spec fn redialled(failures: nat) -> Seq<Event> {
    unreachable_for(failures) + seq![Event::Woke, Event::Connected]
}

/// What happens in a round against `log`, when `seen` was shown last.
pub open spec fn poll_round(log: LogState, seen: u64, round: Round) -> Seq<Event> {
    if !round.opens {
        seq![Event::RpcFailed] + redialled(round.failed_dials)
    } else if round.breaks is Some {
        streamed(log, seen, round) + redialled(round.failed_dials)
    } else if answer_after(log, seen).len() == 0 {
        streamed(log, seen, round) + seq![check_event(log, round), Event::Woke]
    } else {
        streamed(log, seen, round) + seq![Event::Woke]
    }
}

/// However often it takes, a dropped connection is made again, nothing is shown, and
/// the poller is where it was.
proof fn lemma_redialled(state: PollState, failures: nat, seen: u64)
    requires
        state.valid(),
        !state.once,
        !state.connected,
        state.last_id == Some(seen),
        state.stage is Waiting,
        state.stage->seconds == 2 * state.backoff,
    ensures
        accepts(state, redialled(failures)),
        shown(state, redialled(failures)) == Seq::<u64>::empty(),
        run(state, redialled(failures)).following(seen),
{
    let away = unreachable_for(failures);
    law_backoff_grows_to_its_limit(state, failures);
    lemma_unreachable_keeps(state, failures);
    let waiting = run(state, away);
    let dialing = waiting.next(Event::Woke);
    lemma_run_one(waiting, Event::Woke);
    lemma_run_one(dialing, Event::Connected);
    lemma_run_on(waiting, seq![Event::Woke], seq![Event::Connected]);
    let back = seq![Event::Woke, Event::Connected];
    assert(seq![Event::Woke] + seq![Event::Connected] =~= back);
    lemma_run_on(state, away, back);
    assert(shown(state, redialled(failures)) =~= Seq::<u64>::empty());
}

/// While no connection can be made nothing is shown and the place is kept.
proof fn lemma_unreachable_keeps(state: PollState, count: nat)
    requires
        state.valid(),
        !state.connected,
        state.stage is Waiting,
        state.stage->seconds == 2 * state.backoff,
    ensures
        shown(state, unreachable_for(count)) == Seq::<u64>::empty(),
        run(state, unreachable_for(count)).last_id == state.last_id,
        run(state, unreachable_for(count)).once == state.once,
    decreases count,
{
    if count > 0 {
        let fewer = unreachable_for((count - 1) as nat);
        law_backoff_grows_to_its_limit(state, (count - 1) as nat);
        lemma_unreachable_keeps(state, (count - 1) as nat);
        let before = run(state, fewer);
        let dialing = before.next(Event::Woke);
        lemma_run_one(before, Event::Woke);
        lemma_run_one(dialing, Event::ConnectFailed);
        lemma_run_on(before, seq![Event::Woke], seq![Event::ConnectFailed]);
        let twice = seq![Event::Woke, Event::ConnectFailed];
        assert(seq![Event::Woke] + seq![Event::ConnectFailed] =~= twice);
        lemma_run_on(state, fewer, twice);
        assert(shown(state, unreachable_for(count)) =~= Seq::<u64>::empty());
    }
}

/// The stream of a round shows what comes through.
proof fn lemma_streamed(state: PollState, log: LogState, seen: u64, round: Round)
    requires
        state.following(seen),
        log.valid(),
        seen < log.next_id,
        round.opens,
    ensures
        ({
            let got = comes_through(log, seen, round);
            let after = run(state, streamed(log, seen, round));
            let place = PollState { last_id: Some(reached(got, seen)), ..state };
            &&& accepts(state, streamed(log, seen, round))
            &&& shown(state, streamed(log, seen, round)) == ids_of(got)
            &&& after == if round.breaks is Some {
                place.failed()
            } else if got.len() > 0 {
                place.over(false)
            } else {
                PollState { stage: Stage::Checking { seen }, ..place }
            }
        }),
{
    let got = comes_through(log, seen, round);
    law_what_comes_through_is_newer(log, seen, round);
    let opened = state.next(Event::Opened);
    lemma_run_one(state, Event::Opened);
    lemma_drain(opened, got);
    lemma_run_on(state, seq![Event::Opened], received(got));
    let drained = run(opened, received(got));
    let end = if round.breaks is Some {
        Event::StreamFailed
    } else {
        Event::Ended
    };
    lemma_run_one(drained, end);
    lemma_run_on(state, seq![Event::Opened] + received(got), seq![end]);
    assert(shown(state, streamed(log, seen, round)) =~= ids_of(got));
}

/// A round, whatever fails in it, shows what comes through and goes on behind it.
proof fn lemma_poll_round(state: PollState, log: LogState, seen: u64, round: Round)
    requires
        state.following(seen),
        log.valid(),
        seen < log.next_id,
    ensures
        ({
            let events = poll_round(log, seen, round);
            let got = comes_through(log, seen, round);
            &&& accepts(state, events)
            &&& shown(state, events) == ids_of(got)
            &&& run(state, events).following(reached(got, seen))
        }),
{
    let events = poll_round(log, seen, round);
    let got = comes_through(log, seen, round);
    law_what_comes_through_is_newer(log, seen, round);
    let last = reached(got, seen);
    if !round.opens {
        let refused = state.next(Event::RpcFailed);
        lemma_run_one(state, Event::RpcFailed);
        lemma_redialled(refused, round.failed_dials, seen);
        lemma_run_on(state, seq![Event::RpcFailed], redialled(round.failed_dials));
    } else {
        let stream = streamed(log, seen, round);
        lemma_streamed(state, log, seen, round);
        let after = run(state, stream);
        if round.breaks is Some {
            lemma_redialled(after, round.failed_dials, last);
            lemma_run_on(state, stream, redialled(round.failed_dials));
        } else if got.len() == 0 {
            let check = check_event(log, round);
            let checked = after.next(check);
            lemma_run_one(after, check);
            lemma_run_one(checked, Event::Woke);
            lemma_run_on(after, seq![check], seq![Event::Woke]);
            assert(seq![check] + seq![Event::Woke] =~= seq![check, Event::Woke]);
            lemma_run_on(state, stream, seq![check, Event::Woke]);
        } else {
            lemma_run_one(after, Event::Woke);
            lemma_run_on(state, stream, seq![Event::Woke]);
        }
    }
    assert(shown(state, events) =~= ids_of(got));
}

/// Waiting for a connection answers nothing of the log.
proof fn lemma_redialled_answers(state: PollState, log: LogState, left: Seq<Record>, failures: nat)
    requires
        state.valid(),
        !state.connected,
        state.stage is Waiting,
        state.stage->seconds == 2 * state.backoff,
    ensures
        answers(state, log, left, redialled(failures)),
{
    let away = unreachable_for(failures);
    lemma_unreachable_answers(state, log, left, failures);
    law_backoff_grows_to_its_limit(state, failures);
    let waiting = run(state, away);
    let now = left_after(state, log, left, away);
    let dialing = waiting.next(Event::Woke);
    lemma_run_one(waiting, Event::Woke);
    lemma_answers_one(waiting, log, now, Event::Woke);
    lemma_answers_one(dialing, log, now, Event::Connected);
    lemma_answers_on(waiting, log, now, seq![Event::Woke], seq![Event::Connected]);
    assert(seq![Event::Woke] + seq![Event::Connected] =~= seq![Event::Woke, Event::Connected]);
    lemma_answers_on(state, log, left, away, seq![Event::Woke, Event::Connected]);
}

proof fn lemma_unreachable_answers(state: PollState, log: LogState, left: Seq<Record>, count: nat)
    requires
        state.valid(),
        !state.connected,
        state.stage is Waiting,
        state.stage->seconds == 2 * state.backoff,
    ensures
        answers(state, log, left, unreachable_for(count)),
    decreases count,
{
    if count > 0 {
        let fewer = unreachable_for((count - 1) as nat);
        lemma_unreachable_answers(state, log, left, (count - 1) as nat);
        law_backoff_grows_to_its_limit(state, (count - 1) as nat);
        let waiting = run(state, fewer);
        let now = left_after(state, log, left, fewer);
        let dialing = waiting.next(Event::Woke);
        lemma_run_one(waiting, Event::Woke);
        lemma_answers_one(waiting, log, now, Event::Woke);
        lemma_answers_one(dialing, log, now, Event::ConnectFailed);
        lemma_answers_on(waiting, log, now, seq![Event::Woke], seq![Event::ConnectFailed]);
        let twice = seq![Event::Woke, Event::ConnectFailed];
        assert(seq![Event::Woke] + seq![Event::ConnectFailed] =~= twice);
        lemma_answers_on(state, log, left, fewer, twice);
    }
}

/// All that happens in a round is what can come of what the poller asks for.
proof fn lemma_poll_round_answers(state: PollState, log: LogState, seen: u64, round: Round)
    requires
        state.following(seen),
        log.valid(),
        seen < log.next_id,
    ensures
        answers(state, log, Seq::empty(), poll_round(log, seen, round)),
{
    let nothing = Seq::<Record>::empty();
    let got = comes_through(log, seen, round);
    if !round.opens {
        let refused = state.next(Event::RpcFailed);
        lemma_run_one(state, Event::RpcFailed);
        lemma_answers_one(state, log, nothing, Event::RpcFailed);
        lemma_redialled_answers(refused, log, nothing, round.failed_dials);
        lemma_answers_on(
            state,
            log,
            nothing,
            seq![Event::RpcFailed],
            redialled(round.failed_dials),
        );
    } else {
        let stream = streamed(log, seen, round);
        lemma_streamed(state, log, seen, round);
        lemma_streamed_answers(state, log, seen, round);
        let after = run(state, stream);
        let now = left_after(state, log, nothing, stream);
        if round.breaks is Some {
            lemma_redialled_answers(after, log, now, round.failed_dials);
            lemma_answers_on(state, log, nothing, stream, redialled(round.failed_dials));
        } else if got.len() == 0 {
            let check = check_event(log, round);
            let checked = after.next(check);
            lemma_run_one(after, check);
            lemma_answers_one(after, log, now, check);
            lemma_answers_one(checked, log, now, Event::Woke);
            lemma_answers_on(after, log, now, seq![check], seq![Event::Woke]);
            assert(seq![check] + seq![Event::Woke] =~= seq![check, Event::Woke]);
            lemma_answers_on(state, log, nothing, stream, seq![check, Event::Woke]);
        } else {
            lemma_answers_one(after, log, now, Event::Woke);
            lemma_answers_on(state, log, nothing, stream, seq![Event::Woke]);
        }
    }
}

impl Follower for PollState {
    open spec fn follows(self, seen: u64) -> bool {
        self.following(seen)
    }

    open spec fn last_shown(self) -> Option<u64> {
        self.last_id
    }

    open spec fn met(log: LogState, seen: u64, round: Round) -> Seq<Event> {
        poll_round(log, seen, round)
    }

    open spec fn tracks(self, last: u64) -> bool {
        &&& self.valid()
        &&& !self.once
        &&& self.last_id == Some(last)
        &&& match self.stage {
            Stage::Dialing | Stage::Waiting { .. } => true,
            Stage::Opening { seen } | Stage::Checking { seen } => seen == last,
            Stage::Draining { seen, got_any } => got_any || seen == last,
            Stage::Seeding | Stage::Stopped => false,
        }
    }

    proof fn sets_out(self, seen: u64) {
    }

    proof fn opens_first(self, seen: u64) {
    }

    proof fn stays_on_track(self, log: LogState, last: u64, left: Seq<Record>, event: Event) {
    }

    proof fn goes_on(self, log: LogState, seen: u64, round: Round) {
        lemma_poll_round(self, log, seen, round);
        lemma_poll_round_answers(self, log, seen, round);
    }
}

/// A poller that finds a first record shows it and follows from there.
pub proof fn law_seeding_leads_to_following(id: u64)
    ensures
        ({
            let start = PollState::initial(false);
            let events = seq![Event::Connected, Event::Latest(Some(id)), Event::Woke];
            &&& accepts(start, events)
            &&& shown(start, events) == seq![id]
            &&& run(start, events).following(id)
        }),
{
    let start = PollState::initial(false);
    let seeding = start.next(Event::Connected);
    let newest = Event::Latest(Some(id));
    let waiting = seeding.next(newest);
    lemma_run_one(start, Event::Connected);
    lemma_run_one(seeding, newest);
    lemma_run_one(waiting, Event::Woke);
    lemma_run_on(start, seq![Event::Connected], seq![newest]);
    lemma_run_on(start, seq![Event::Connected] + seq![newest], seq![Event::Woke]);
    let events = seq![Event::Connected, newest, Event::Woke];
    assert(seq![Event::Connected] + seq![newest] + seq![Event::Woke] =~= events);
    assert(shown(start, events) =~= seq![id]);
}

/// A stream that breaks off loses nothing: once connected again, the poller asks
/// for what follows the last record that it did show.
pub proof fn law_broken_stream_resumes(state: PollState, records: Seq<Record>, seen: u64)
    requires
        state.following(seen),
        records.len() > 0,
        records.last().id < u64::MAX,
    ensures
        ({
            let events = seq![Event::Opened] + received(records) + seq![
                Event::StreamFailed,
                Event::Woke,
                Event::Connected,
            ];
            &&& accepts(state, events)
            &&& shown(state, events) == ids_of(records)
            &&& run(state, events).action() == Action::GetLog {
                start_id: (records.last().id + 1) as u64,
                limit: u32::MAX,
            }
        }),
{
    let streamed = received(records);
    let opened = state.next(Event::Opened);
    lemma_run_one(state, Event::Opened);
    lemma_drain(opened, records);
    lemma_run_on(state, seq![Event::Opened], streamed);
    let drained = run(opened, streamed);
    let failed = drained.next(Event::StreamFailed);
    let dialing = failed.next(Event::Woke);
    lemma_run_one(drained, Event::StreamFailed);
    lemma_run_one(failed, Event::Woke);
    lemma_run_one(dialing, Event::Connected);
    lemma_run_on(drained, seq![Event::StreamFailed], seq![Event::Woke]);
    lemma_run_on(
        drained,
        seq![Event::StreamFailed] + seq![Event::Woke],
        seq![Event::Connected],
    );
    let tail = seq![Event::StreamFailed, Event::Woke, Event::Connected];
    assert(seq![Event::StreamFailed] + seq![Event::Woke] + seq![Event::Connected] =~= tail);
    lemma_run_on(state, seq![Event::Opened] + streamed, tail);
    assert(shown(state, seq![Event::Opened] + streamed + tail) =~= ids_of(records));
}

/// A device that restarted is noticed in the next round, as long as its ids are
/// still behind: the poller says so, shows the newest record, and goes on from
/// there.
pub proof fn law_restart_is_noticed(state: PollState, log: LogState, seen: u64)
    requires
        state.following(seen),
        log.valid(),
        log.records.len() > 0,
        log.next_id <= seen < u64::MAX,
    ensures
        ({
            let events = answered(log, seen);
            let newest = (log.next_id - 1) as u64;
            &&& accepts(state, events)
            &&& answers(state, log, Seq::empty(), events)
            &&& run(state, events.drop_last()).report(events.last()) == Report::Restarted
            &&& shown(state, events) == seq![newest]
            &&& run(state, events.push(Event::Woke)).following(newest)
        }),
{
    law_restart_shows(log, seen);
    law_range_is_a_window(log, (seen + 1) as u64);
    let events = answered(log, seen);
    let newest = latest_event(log);
    assert(answer_after(log, seen).len() == 0);
    let opened = state.next(Event::Opened);
    let checking = opened.next(Event::Ended);
    lemma_run_one(state, Event::Opened);
    lemma_run_one(opened, Event::Ended);
    lemma_run_one(checking, newest);
    lemma_run_on(state, seq![Event::Opened], seq![Event::Ended]);
    lemma_run_on(state, seq![Event::Opened] + seq![Event::Ended], seq![newest]);
    let nothing = Seq::<Record>::empty();
    lemma_answers_one(state, log, nothing, Event::Opened);
    lemma_answers_one(opened, log, answer_after(log, seen), Event::Ended);
    lemma_answers_one(checking, log, answer_after(log, seen), newest);
    lemma_answers_on(state, log, nothing, seq![Event::Opened], seq![Event::Ended]);
    lemma_answers_on(state, log, nothing, seq![Event::Opened] + seq![Event::Ended], seq![newest]);
    assert(seq![Event::Opened] + seq![Event::Ended] + seq![newest] =~= events);
    assert(events.drop_last() =~= seq![Event::Opened] + seq![Event::Ended]);
    assert(shown(state, events) =~= seq![(log.next_id - 1) as u64]);
    assert(events.push(Event::Woke).drop_last() =~= events);
}

/// `count` times in a row no connection could be made.
pub open spec fn unreachable_for(count: nat) -> Seq<Event>
    decreases count,
{
    if count == 0 {
        Seq::empty()
    } else {
        unreachable_for((count - 1) as nat) + seq![Event::Woke, Event::ConnectFailed]
    }
}

/// Failures in a row are waited out longer and longer, two seconds more each
/// time, and never longer than ten seconds.
pub proof fn law_backoff_grows_to_its_limit(state: PollState, count: nat)
    requires
        state.valid(),
        !state.connected,
        state.stage is Waiting,
        state.stage->seconds == 2 * state.backoff,
    ensures
        ({
            let events = unreachable_for(count);
            let after = run(state, events);
            let failures = state.backoff + count;
            &&& accepts(state, events)
            &&& after.valid()
            &&& !after.connected
            &&& after.stage == Stage::Waiting {
                seconds: (2 * after.backoff) as u64,
            }
            &&& after.backoff == if failures < MAX_BACKOFF {
                failures
            } else {
                MAX_BACKOFF as int
            }
        }),
    decreases count,
{
    if count > 0 {
        let fewer = unreachable_for((count - 1) as nat);
        law_backoff_grows_to_its_limit(state, (count - 1) as nat);
        let before = run(state, fewer);
        let dialing = before.next(Event::Woke);
        lemma_run_one(before, Event::Woke);
        lemma_run_one(dialing, Event::ConnectFailed);
        lemma_run_on(before, seq![Event::Woke], seq![Event::ConnectFailed]);
        let twice = seq![Event::Woke, Event::ConnectFailed];
        assert(seq![Event::Woke] + seq![Event::ConnectFailed] =~= twice);
        lemma_run_on(state, fewer, twice);
    }
}

/// What a poller that follows asks for next is what is newer than the last record shown,
/// and all of it.
pub proof fn law_poller_asks_for_what_is_newer(state: PollState, seen: u64)
    requires
        state.following(seen),
        seen < u64::MAX,
    ensures
        state.action() == (Action::GetLog { start_id: (seen + 1) as u64, limit: u32::MAX }),
{
}

/// A poller begins by dialing, and then asks for the newest record until there is one.
pub proof fn law_poller_begins_with_the_newest(id: u64)
    ensures
        ({
            let start = PollState::initial(false);
            let seeding = start.next(Event::Connected);
            &&& start.action() == Action::Dial
            &&& seeding.action() == Action::GetLatest
            &&& seeding.report(Event::Latest(Some(id))) is Show
            &&& seeding.next(Event::Latest(Some(id))).next(Event::Woke).following(id)
            &&& seeding.report(Event::Latest(None)) is Quiet
            &&& seeding.next(Event::Latest(None)).action() == (Action::Wait { millis: 2000 })
            &&& seeding.next(Event::Latest(None)).next(Event::Woke) == seeding
            &&& seeding.report(Event::RpcFailed) is RpcError
            &&& seeding.next(Event::RpcFailed).next(Event::Woke).action() == Action::Dial
        }),
{
}

/// How long the poller waits: two seconds after a round that went through; after a failure
/// two seconds for each one in a row, ten at most. A round that goes through ends the row.
/// A failure drops the connection, and nothing else does.
pub proof fn law_how_long_the_poller_waits(state: PollState, event: Event)
    requires
        state.valid(),
        fits(state.stage, event),
        state.next(event).stage is Waiting,
    ensures
        ({
            let after = state.next(event);
            let failure = {
                ||| event is ConnectFailed
                ||| event is StreamFailed
                ||| event is RpcFailed && !(state.stage is Checking)
            };
            &&& failure ==> {
                &&& after.action() == (Action::Wait {
                    millis: if state.backoff < 5 {
                        (2000 * (state.backoff + 1)) as u64
                    } else {
                        10_000
                    },
                })
                &&& after.backoff == if state.backoff < 5 {
                    (state.backoff + 1) as u32
                } else {
                    5
                }
                &&& !after.connected
            }
            &&& !failure ==> {
                &&& after.action() == (Action::Wait { millis: 2000 })
                &&& after.backoff == 0
                &&& after.connected == state.connected
            }
        }),
{
}

/// After a wait the poller goes on over the connection where it has one, and dials where
/// it has not.
pub proof fn law_wait_leads_on(state: PollState)
    requires
        state.stage is Waiting,
    ensures
        !state.connected ==> state.next(Event::Woke).action() == Action::Dial,
        state.connected && state.last_id is None ==> state.next(Event::Woke).action()
            == Action::GetLatest,
        match state.last_id {
            Some(seen) => state.connected && seen < u64::MAX ==> state.next(Event::Woke).action()
                == (Action::GetLog { start_id: (seen + 1) as u64, limit: u32::MAX }),
            None => true,
        },
{
}

/// What the poller tells: each record that comes is shown, each request, stream and
/// connection that fails is told, and nothing else but a restart is.
pub proof fn law_what_the_poller_tells(state: PollState, event: Event)
    requires
        fits(state.stage, event),
    ensures
        event is Received ==> state.report(event) is Show,
        event is StreamFailed ==> state.report(event) is StreamError,
        event is ConnectFailed ==> state.report(event) is ConnectError,
        event is RpcFailed ==> (if state.stage is Checking {
            state.report(event) is Quiet
        } else {
            state.report(event) is RpcError
        }),
        event is Opened || event is Ended || event is Woke || event is Connected || event
            == Event::Latest(None) ==> state.report(event) is Quiet,
{
}

/// Whatever can come of what the poller asks for is taken, and the only request that it
/// cannot make is the one behind the last possible id.
pub proof fn law_poller_takes_every_reply(
    state: PollState,
    log: LogState,
    left: Seq<Record>,
    event: Event,
)
    requires
        replies(state.action(), log, left, event),
    ensures
        fits(state.stage, event),
        state.out_of_ids() <==> state.stage == (Stage::Opening { seen: u64::MAX }),
{
}

/// A stream that ends without a record leads to a look at the newest one, and a look that
/// finds nothing below the last record shown leads on as before.
pub proof fn law_quiet_stream_is_checked(state: PollState, seen: u64, newest: Option<u64>)
    requires
        state.following(seen),
        newest matches Some(id) ==> id >= seen,
    ensures
        ({
            let checking = state.next(Event::Opened).next(Event::Ended);
            let after = checking.next(Event::Latest(newest));
            &&& checking.action() == Action::GetLatest
            &&& checking.report(Event::Latest(newest)) is Quiet
            &&& after.action() == (Action::Wait { millis: 2000 })
            &&& after.next(Event::Woke).following(seen)
        }),
{
}

/// Each failure is told with its own words in front of what went wrong, and with nothing
/// behind; what is told of other things does not depend on that.
pub proof fn law_notices_tell_what_went_wrong(error: Seq<char>, other: Seq<char>)
    ensures
        notice_text(Report::ConnectError, error) == Some("connect error: "@ + error),
        notice_text(Report::RpcError, error) == Some("rpc error: "@ + error),
        notice_text(Report::StreamError, error) == Some("stream error: "@ + error),
        notice_text(Report::Quiet, error) is None,
        notice_text(Report::Show, error) is None,
        notice_text(Report::Restarted, error) is Some,
        notice_text(Report::Restarted, error) == notice_text(Report::Restarted, other),
        notice_text(Report::Live, error) is Some,
        notice_text(Report::Live, error) == notice_text(Report::Live, other),
        notice_text(Report::ShowLive, error) == notice_text(Report::Live, other),
        notice_text(Report::NoReadings, error) is Some,
        notice_text(Report::NoReadings, error) == notice_text(Report::NoReadings, other),
{
}

/// A poller that is to run once stops with the end of its stream or its first failure
/// after it got a connection, and until then it shows what any other does.
pub proof fn law_once_shows_the_same(state: PollState, event: Event)
    requires
        fits(state.stage, event),
    ensures
        ({
            let many = PollState { once: false, ..state };
            &&& state.report(event) == many.report(event)
            &&& state.next(event).last_id == many.next(event).last_id
            &&& state.next(event).once == state.once
            &&& state.action() == many.action()
            &&& state.once && many.next(event).stage is Waiting && !(state.stage is Dialing)
                ==> state.next(event).action() == Action::Stop
            &&& !(many.next(event).stage is Waiting) ==> state.next(event).stage == many.next(
                event,
            ).stage
        }),
{
}

/// A poller that is to run once stops with the first round it can finish,
/// however that goes.
pub proof fn law_once_stops_after_a_round(state: PollState, event: Event)
    requires
        state.once,
        fits(state.stage, event),
        !(state.stage is Dialing) && !(state.stage is Waiting),
    ensures
        ({
            let after = state.next(event).stage;
            ||| after is Stopped
            ||| state.stage is Opening && after is Draining
            ||| state.stage is Draining && after is Draining
            ||| state.stage is Draining && after is Checking
        }),
{
}

} // verus!
