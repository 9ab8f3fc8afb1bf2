//! The feed of records for the browser: a stretch of history to begin with, then
//! whatever is new.

use crate::buffer::{law_range_is_a_window, law_restart_shows, window_start, LogState};
use crate::follow::{
    accepts, answer_after, answered, answers, check_event, comes_through, ids_between, ids_of,
    latest_event, law_what_comes_through_is_newer, left_after, lemma_answers_on, lemma_answers_one,
    lemma_drain, lemma_drain_answers, lemma_run_on, lemma_run_one, lemma_streamed_answers, reached,
    received, replies, run, shown, streamed, taken, Follower, Machine, Round,
};
use crate::live::{Action, Event, Report};
use crate::protocol::Record;
use vstd::prelude::*;

verus! {

/// How long to wait between two polls.
pub const POLL_INTERVAL_MS: u64 = 2000;

/// How many trailing records the history has at most.
pub const HISTORY: u64 = 1000;

/// What the feed waits for.
#[derive(Clone, Copy, Debug, PartialEq, Eq, Structural)]
pub enum FeedStage {
    /// For the newest record, to know where the history ends.
    Locating,
    /// For the stream of the history that ends at `latest`.
    Backfill { latest: u64 },
    /// For the next record of that stream.
    Backfilling,
    /// For the newest record, to begin with it.
    Seeding,
    /// For the stream of the records after `seen`.
    Opening { seen: u64 },
    /// For the next record of that stream; `got_any` if one came already.
    Draining { seen: u64, got_any: bool },
    /// For the newest record, to see whether the device has restarted.
    Checking { seen: u64 },
    /// For the next poll.
    Waiting,
}

/// The feed as a mathematical value.
pub struct FeedState {
    /// The id of the last record that was shown.
    pub last_id: Option<u64>,
    pub stage: FeedStage,
}

/// `event` is one that can come at `stage`.
pub open spec fn feed_fits(stage: FeedStage, event: Event) -> bool {
    match stage {
        FeedStage::Locating | FeedStage::Seeding | FeedStage::Checking { .. } => event is Latest
            || event is RpcFailed,
        FeedStage::Backfill { .. } | FeedStage::Opening { .. } => event is Opened
            || event is RpcFailed,
        FeedStage::Backfilling | FeedStage::Draining { .. } => event is Received || event is Ended
            || event is StreamFailed,
        FeedStage::Waiting => event is Woke,
    }
}

/// Where the history that ends at `latest` begins.
pub open spec fn history_start(latest: u64) -> u64 {
    if latest < HISTORY {
        0
    } else {
        (latest - HISTORY + 1) as u64
    }
}

impl FeedState {
    /// At the start.
    pub open spec fn initial() -> FeedState {
        FeedState { last_id: None, stage: FeedStage::Locating }
    }

    /// The next request would be for an id after the last possible one.
    pub open spec fn out_of_ids(self) -> bool {
        self.stage == (FeedStage::Opening { seen: u64::MAX })
    }

    /// What is to be done next.
    pub open spec fn action(self) -> Action {
        match self.stage {
            FeedStage::Locating | FeedStage::Seeding | FeedStage::Checking {
                ..
            } => Action::GetLatest,
            FeedStage::Backfill { latest } => Action::GetLog {
                start_id: history_start(latest),
                limit: u32::MAX,
            },
            FeedStage::Opening { seen } => Action::GetLog {
                start_id: (seen + 1) as u64,
                limit: u32::MAX,
            },
            FeedStage::Backfilling | FeedStage::Draining { .. } => Action::Receive,
            FeedStage::Waiting => Action::Wait { millis: POLL_INTERVAL_MS },
        }
    }

    /// A round begins: with what is newer than the last record shown, or with
    /// the newest record where none was.
    pub open spec fn begun(self) -> FeedState {
        FeedState {
            stage: match self.last_id {
                None => FeedStage::Seeding,
                Some(seen) => FeedStage::Opening { seen },
            },
            ..self
        }
    }

    /// The round is over.
    pub open spec fn over(self) -> FeedState {
        FeedState { stage: FeedStage::Waiting, ..self }
    }

    /// The record with this id is shown.
    pub open spec fn showing(self, id: u64) -> FeedState {
        FeedState { last_id: Some(id), ..self }
    }

    /// Where `event` leads.
    pub open spec fn next(self, event: Event) -> FeedState {
        match (self.stage, event) {
            (FeedStage::Locating, Event::Latest(Some(latest))) => FeedState {
                stage: FeedStage::Backfill { latest },
                ..self
            },
            (FeedStage::Locating, _) => self.begun(),
            (FeedStage::Backfill { .. }, Event::Opened) => FeedState {
                stage: FeedStage::Backfilling,
                ..self
            },
            (FeedStage::Backfill { .. }, _) => self.begun(),
            (FeedStage::Backfilling, Event::Received(id)) => self.showing(id),
            (FeedStage::Backfilling, _) => self.begun(),
            (FeedStage::Seeding, Event::Latest(Some(id))) => self.showing(id).over(),
            (FeedStage::Seeding, _) => self.over(),
            (FeedStage::Opening { seen }, Event::Opened) => FeedState {
                stage: FeedStage::Draining { seen, got_any: false },
                ..self
            },
            (FeedStage::Opening { .. }, _) => self.over(),
            (FeedStage::Draining { seen, .. }, Event::Received(id)) => FeedState {
                stage: FeedStage::Draining { seen, got_any: true },
                ..self.showing(id)
            },
            (FeedStage::Draining { seen, got_any }, _) => if got_any {
                self.over()
            } else {
                FeedState { stage: FeedStage::Checking { seen }, ..self }
            },
            (FeedStage::Checking { seen }, Event::Latest(Some(id))) => if id < seen {
                self.showing(id).over()
            } else {
                self.over()
            },
            (FeedStage::Checking { .. }, _) => self.over(),
            (FeedStage::Waiting, _) => self.begun(),
        }
    }

    /// What `event` gives to tell.
    pub open spec fn report(self, event: Event) -> Report {
        match (self.stage, event) {
            (FeedStage::Locating, Event::Latest(Some(_))) => Report::Quiet,
            (FeedStage::Locating, _) => Report::NoReadings,
            (FeedStage::Backfill { .. }, Event::Opened) => Report::Quiet,
            (FeedStage::Backfill { .. }, _) => Report::Live,
            (FeedStage::Backfilling, Event::Received(_)) => Report::Show,
            (FeedStage::Backfilling, _) => Report::Live,
            (FeedStage::Seeding, Event::Latest(Some(_))) => Report::ShowLive,
            (FeedStage::Seeding, Event::Latest(None)) => Report::NoReadings,
            (FeedStage::Seeding, _) => Report::RpcError,
            (FeedStage::Opening { .. }, Event::RpcFailed) => Report::RpcError,
            (FeedStage::Draining { .. }, Event::Received(_)) => Report::Show,
            (FeedStage::Draining { .. }, Event::StreamFailed) => Report::StreamError,
            (FeedStage::Checking { seen }, Event::Latest(Some(id))) => if id < seen {
                Report::Restarted
            } else {
                Report::Quiet
            },
            _ => Report::Quiet,
        }
    }
}

/// Follows a device over a connection that mends itself.
#[derive(Debug)]
pub struct Feed {
    last_id: Option<u64>,
    stage: FeedStage,
}

impl View for Feed {
    type V = FeedState;

    closed spec fn view(&self) -> FeedState {
        FeedState { last_id: self.last_id, stage: self.stage }
    }
}

impl Feed {
    /// Begin by looking for the end of the history.
    pub fn new() -> (feed: Feed)
        ensures
            feed@ == FeedState::initial(),
    {
        Feed { last_id: None, stage: FeedStage::Locating }
    }

    /// The id of the last record that was shown.
    pub fn last_id(&self) -> (last_id: Option<u64>)
        ensures
            last_id == self@.last_id,
    {
        self.last_id
    }

    /// Whether the next request would be for an id after the last possible one.
    pub fn out_of_ids(&self) -> (yes: bool)
        ensures
            yes == self@.out_of_ids(),
    {
        match self.stage {
            FeedStage::Opening { seen } => seen == u64::MAX,
            _ => false,
        }
    }

    /// What is to be done next.
    pub fn action(&self) -> (action: Action)
        requires
            !self@.out_of_ids(),
        ensures
            action == self@.action(),
            self@.stage matches FeedStage::Opening { seen } ==> action == (Action::GetLog {
                start_id: (seen + 1) as u64,
                limit: u32::MAX,
            }),
    {
        match self.stage {
            FeedStage::Locating | FeedStage::Seeding | FeedStage::Checking {
                ..
            } => Action::GetLatest,
            FeedStage::Backfill { latest } => Action::GetLog {
                start_id: latest.saturating_sub(HISTORY - 1),
                limit: u32::MAX,
            },
            FeedStage::Opening { seen } => Action::GetLog { start_id: seen + 1, limit: u32::MAX },
            FeedStage::Backfilling | FeedStage::Draining { .. } => Action::Receive,
            FeedStage::Waiting => Action::Wait { millis: POLL_INTERVAL_MS },
        }
    }

    fn begin(&mut self)
        ensures
            final(self)@ == old(self)@.begun(),
    {
        self.stage = match self.last_id {
            None => FeedStage::Seeding,
            Some(seen) => FeedStage::Opening { seen },
        };
    }

    /// Go on with what happened.
    pub fn step(&mut self, event: Event) -> (report: Report)
        requires
            feed_fits(old(self)@.stage, event),
        ensures
            final(self)@ == old(self)@.next(event),
            report == old(self)@.report(event),
    {
        match self.stage {
            FeedStage::Locating => match event {
                Event::Latest(Some(latest)) => {
                    self.stage = FeedStage::Backfill { latest };
                    Report::Quiet
                },
                _ => {
                    self.begin();
                    Report::NoReadings
                },
            },
            FeedStage::Backfill { .. } => {
                if matches!(event, Event::Opened) {
                    self.stage = FeedStage::Backfilling;
                    Report::Quiet
                } else {
                    self.begin();
                    Report::Live
                }
            },
            FeedStage::Backfilling => match event {
                Event::Received(id) => {
                    self.last_id = Some(id);
                    Report::Show
                },
                _ => {
                    self.begin();
                    Report::Live
                },
            },
            FeedStage::Seeding => {
                self.stage = FeedStage::Waiting;
                match event {
                    Event::Latest(Some(id)) => {
                        self.last_id = Some(id);
                        Report::ShowLive
                    },
                    Event::Latest(None) => Report::NoReadings,
                    _ => Report::RpcError,
                }
            },
            FeedStage::Opening { seen } => {
                if matches!(event, Event::Opened) {
                    self.stage = FeedStage::Draining { seen, got_any: false };
                    Report::Quiet
                } else {
                    self.stage = FeedStage::Waiting;
                    Report::RpcError
                }
            },
            FeedStage::Draining { seen, got_any } => {
                if let Event::Received(id) = event {
                    self.last_id = Some(id);
                    self.stage = FeedStage::Draining { seen, got_any: true };
                    return Report::Show;
                }
                self.stage = if got_any {
                    FeedStage::Waiting
                } else {
                    FeedStage::Checking { seen }
                };
                if matches!(event, Event::StreamFailed) {
                    Report::StreamError
                } else {
                    Report::Quiet
                }
            },
            FeedStage::Checking { seen } => {
                self.stage = FeedStage::Waiting;
                if let Event::Latest(Some(id)) = event {
                    if id < seen {
                        self.last_id = Some(id);
                        return Report::Restarted;
                    }
                }
                Report::Quiet
            },
            FeedStage::Waiting => {
                self.begin();
                Report::Quiet
            },
        }
    }
}

// ---------------------------------------------------------------------------
// Laws
// ---------------------------------------------------------------------------

impl Machine for FeedState {
    open spec fn after(self, event: Event) -> FeedState {
        self.next(event)
    }

    open spec fn tells(self, event: Event) -> Report {
        self.report(event)
    }

    open spec fn asks(self) -> Action {
        self.action()
    }

    open spec fn takes(self, event: Event) -> bool {
        feed_fits(self.stage, event)
    }

    open spec fn drains(self) -> bool {
        self.stage is Draining || self.stage is Backfilling
    }

    open spec fn drained(self, id: u64) -> FeedState {
        FeedState {
            last_id: Some(id),
            stage: match self.stage {
                FeedStage::Draining { seen, .. } => FeedStage::Draining { seen, got_any: true },
                stage => stage,
            },
        }
    }

    proof fn drains_on(self, id: u64) {
    }
}

impl FeedState {
    /// About to ask for what is newer than the last record shown.
    pub open spec fn following(self, seen: u64) -> bool {
        &&& self.last_id == Some(seen)
        &&& self.stage == FeedStage::Opening { seen }
    }
}

/// Whatever happens, what is asked for next follows the record that was shown
/// last.
pub proof fn law_feed_keeps_the_last_shown(state: FeedState, events: Seq<Event>)
    requires
        accepts(state, events),
    ensures
        run(state, events).last_id == if shown(state, events).len() > 0 {
            Some(shown(state, events).last())
        } else {
            state.last_id
        },
    decreases events.len(),
{
    if events.len() > 0 {
        law_feed_keeps_the_last_shown(state, events.drop_last());
    }
}

/// What happens when the requests for the history are answered from `log`.
pub open spec fn history_events(log: LogState, latest: u64) -> Seq<Event> {
    seq![latest_event(log), Event::Opened] + received(
        log.range(history_start(latest), u32::MAX as nat),
    ) + seq![Event::Ended]
}

/// The feed begins with the retained records of the last thousand ids, up to the
/// newest, each once and in order, and follows from there. They are never more than
/// the history may have, and all of it answers what the feed asks for.
pub proof fn law_history_comes_first(log: LogState)
    requires
        log.valid(),
        log.records.len() > 0,
    ensures
        ({
            let latest = (log.next_id - 1) as u64;
            let events = history_events(log, latest);
            let oldest = if log.oldest_id() < history_start(latest) {
                history_start(latest) as int
            } else {
                log.oldest_id()
            };
            &&& accepts(FeedState::initial(), events)
            &&& answers(FeedState::initial(), log, Seq::empty(), events)
            &&& shown(FeedState::initial(), events) == ids_between(oldest as nat, log.next_id)
            &&& shown(FeedState::initial(), events).len() <= HISTORY
            &&& shown(FeedState::initial(), events) == ids_between(
                if log.records.len() < 1000 {
                    log.oldest_id() as nat
                } else {
                    (log.next_id - 1000) as nat
                },
                log.next_id,
            )
            &&& run(FeedState::initial(), events).following(latest)
        }),
{
    lemma_history_answers(log);
    let latest = (log.next_id - 1) as u64;
    let start = FeedState::initial();
    let newest = latest_event(log);
    assert(newest == Event::Latest(Some(latest)));
    let backfill = start.next(newest);
    let opened = backfill.next(Event::Opened);
    let answer = log.range(history_start(latest), u32::MAX as nat);
    law_range_is_a_window(log, history_start(latest));
    let from = window_start(log, history_start(latest));
    assert(answer == log.records.skip(from));
    assert(answer.len() > 0);
    assert(answer.last() == log.records.last());
    assert(ids_of(answer) =~= ids_between((log.oldest_id() + from) as nat, log.next_id));
    lemma_run_one(start, newest);
    lemma_run_one(backfill, Event::Opened);
    lemma_run_on(start, seq![newest], seq![Event::Opened]);
    let opening = seq![newest] + seq![Event::Opened];
    assert(opening =~= seq![newest, Event::Opened]);
    lemma_drain(opened, answer);
    lemma_run_on(start, opening, received(answer));
    let drained = run(opened, received(answer));
    lemma_run_one(drained, Event::Ended);
    lemma_run_on(start, opening + received(answer), seq![Event::Ended]);
    assert(shown(start, history_events(log, latest)) =~= ids_of(answer));
}

/// The history answers what the feed asks for.
proof fn lemma_history_answers(log: LogState)
    requires
        log.valid(),
        log.records.len() > 0,
    ensures
        answers(
            FeedState::initial(),
            log,
            Seq::empty(),
            history_events(log, (log.next_id - 1) as u64),
        ),
{
    let latest = (log.next_id - 1) as u64;
    let start = FeedState::initial();
    let newest = latest_event(log);
    let nothing = Seq::<Record>::empty();
    assert(newest == Event::Latest(Some(latest)));
    let backfill = start.next(newest);
    let opened = backfill.next(Event::Opened);
    let answer = log.range(history_start(latest), u32::MAX as nat);
    lemma_run_one(start, newest);
    lemma_run_one(backfill, Event::Opened);
    lemma_run_on(start, seq![newest], seq![Event::Opened]);
    lemma_answers_one(start, log, nothing, newest);
    lemma_answers_one(backfill, log, nothing, Event::Opened);
    lemma_answers_on(start, log, nothing, seq![newest], seq![Event::Opened]);
    let opening = seq![newest] + seq![Event::Opened];
    assert(opening =~= seq![newest, Event::Opened]);
    lemma_drain(opened, answer);
    lemma_drain_answers(opened, log, answer, answer.len());
    assert(answer.take(answer.len() as int) =~= answer);
    lemma_answers_on(start, log, nothing, opening, received(answer));
    lemma_run_on(start, opening, received(answer));
    let drained = run(opened, received(answer));
    lemma_answers_one(drained, log, answer.skip(answer.len() as int), Event::Ended);
    lemma_answers_on(start, log, nothing, opening + received(answer), seq![Event::Ended]);
}

/// What a feed that follows asks for next is what is newer than the last record shown,
/// and all of it.
pub proof fn law_feed_asks_for_what_is_newer(state: FeedState, seen: u64)
    requires
        state.following(seen),
        seen < u64::MAX,
    ensures
        state.action() == (Action::GetLog { start_id: (seen + 1) as u64, limit: u32::MAX }),
{
}

/// The history is asked for from 999 ids before the newest record on, or from the first
/// one where there are fewer.
pub proof fn law_history_is_asked_for(latest: u64)
    ensures
        FeedState::initial().action() == Action::GetLatest,
        FeedState::initial().next(Event::Latest(Some(latest))).action() == (Action::GetLog {
            start_id: if latest <= 999 {
                0
            } else {
                (latest - 999) as u64
            },
            limit: u32::MAX,
        }),
{
}

/// A history that breaks off, at whatever record, shows what came of it; the feed goes on
/// behind the last of these, or with the newest record where none came.
pub proof fn law_broken_history_is_passed_over(latest: u64, records: Seq<Record>)
    ensures
        ({
            let events = seq![Event::Latest(Some(latest)), Event::Opened] + received(records)
                + seq![Event::StreamFailed];
            let after = run(FeedState::initial(), events);
            &&& accepts(FeedState::initial(), events)
            &&& shown(FeedState::initial(), events) == ids_of(records)
            &&& records.len() > 0 ==> after.following(records.last().id)
            &&& records.len() == 0 ==> after.action() == Action::GetLatest
        }),
{
    let start = FeedState::initial();
    let newest = Event::Latest(Some(latest));
    let backfill = start.next(newest);
    let opened = backfill.next(Event::Opened);
    lemma_run_one(start, newest);
    lemma_run_one(backfill, Event::Opened);
    lemma_run_on(start, seq![newest], seq![Event::Opened]);
    let opening = seq![newest] + seq![Event::Opened];
    assert(opening =~= seq![newest, Event::Opened]);
    lemma_drain(opened, records);
    lemma_run_on(start, opening, received(records));
    let drained = run(opened, received(records));
    lemma_run_one(drained, Event::StreamFailed);
    lemma_run_on(start, opening + received(records), seq![Event::StreamFailed]);
    assert(shown(start, opening + received(records) + seq![Event::StreamFailed]) =~= ids_of(
        records,
    ));
}

/// Where the end of the history cannot be found, or the device has no record yet, the feed
/// says so and begins with the newest record as soon as there is one, which it shows and
/// follows.
pub proof fn law_feed_begins_without_history(event: Event, id: u64)
    requires
        event == Event::Latest(None) || event is RpcFailed,
    ensures
        ({
            let seeding = FeedState::initial().next(event);
            let found = seeding.next(Event::Latest(Some(id)));
            &&& FeedState::initial().report(event) is NoReadings
            &&& seeding.action() == Action::GetLatest
            &&& seeding.report(Event::Latest(None)) is NoReadings
            &&& seeding.next(Event::Latest(None)).next(Event::Woke) == seeding
            &&& seeding.report(Event::RpcFailed) is RpcError
            &&& seeding.next(Event::RpcFailed).next(Event::Woke) == seeding
            &&& seeding.report(Event::Latest(Some(id))) is ShowLive
            &&& found.next(Event::Woke).following(id)
        }),
{
}

/// Between two rounds the feed waits for two seconds, however the round went, and then it
/// begins the next one.
pub proof fn law_feed_polls_every_two_seconds(state: FeedState, seen: u64, id: u64)
    requires
        state.following(seen),
    ensures
        state.next(Event::RpcFailed).action() == (Action::Wait { millis: 2000 }),
        state.next(Event::RpcFailed).next(Event::Woke) == state,
        state.report(Event::RpcFailed) is RpcError,
        ({
            let open = state.next(Event::Opened);
            let none = open.next(Event::Ended);
            let broken = open.next(Event::StreamFailed);
            &&& open.action() == Action::Receive
            &&& none.action() == Action::GetLatest
            &&& broken.action() == Action::GetLatest
            &&& open.report(Event::StreamFailed) is StreamError
            &&& open.report(Event::Ended) is Quiet
            &&& none.next(Event::RpcFailed).action() == (Action::Wait { millis: 2000 })
            &&& none.next(Event::Latest(None)).action() == (Action::Wait { millis: 2000 })
            &&& none.next(Event::RpcFailed).next(Event::Woke) == state
            &&& none.next(Event::Latest(None)).next(Event::Woke) == state
            &&& none.report(Event::RpcFailed) is Quiet
            &&& none.report(Event::Latest(None)) is Quiet
        }),
        ({
            let some = state.next(Event::Opened).next(Event::Received(id));
            &&& some.action() == Action::Receive
            &&& some.next(Event::Ended).action() == (Action::Wait { millis: 2000 })
            &&& some.next(Event::StreamFailed).action() == (Action::Wait { millis: 2000 })
            &&& some.report(Event::StreamFailed) is StreamError
            &&& some.report(Event::Ended) is Quiet
            &&& some.next(Event::Ended).next(Event::Woke).following(id)
            &&& some.next(Event::StreamFailed).next(Event::Woke).following(id)
        }),
{
}

/// Whatever can come of what the feed asks for is taken, and the only request that it
/// cannot make is the one behind the last possible id.
pub proof fn law_feed_takes_every_reply(
    state: FeedState,
    log: LogState,
    left: Seq<Record>,
    event: Event,
)
    requires
        replies(state.action(), log, left, event),
    ensures
        feed_fits(state.stage, event),
        state.out_of_ids() <==> state.stage == (FeedStage::Opening { seen: u64::MAX }),
{
}

/// What happens in a round against `log`, when `seen` was shown last.
pub open spec fn feed_round(log: LogState, seen: u64, round: Round) -> Seq<Event> {
    if !round.opens {
        seq![Event::RpcFailed, Event::Woke]
    } else if taken(round, answer_after(log, seen)).len() == 0 {
        streamed(log, seen, round) + seq![check_event(log, round), Event::Woke]
    } else {
        streamed(log, seen, round) + seq![Event::Woke]
    }
}

/// A round, whatever fails in it, shows what comes through and goes on behind it.
proof fn lemma_feed_round(state: FeedState, log: LogState, seen: u64, round: Round)
    requires
        state.following(seen),
        log.valid(),
        seen < log.next_id,
    ensures
        ({
            let events = feed_round(log, seen, round);
            let got = comes_through(log, seen, round);
            &&& accepts(state, events)
            &&& shown(state, events) == ids_of(got)
            &&& run(state, events).following(reached(got, seen))
        }),
{
    let events = feed_round(log, seen, round);
    let got = comes_through(log, seen, round);
    law_what_comes_through_is_newer(log, seen, round);
    if !round.opens {
        let refused = state.next(Event::RpcFailed);
        lemma_run_one(state, Event::RpcFailed);
        lemma_run_one(refused, Event::Woke);
        lemma_run_on(state, seq![Event::RpcFailed], seq![Event::Woke]);
        assert(seq![Event::RpcFailed] + seq![Event::Woke] =~= events);
    } else {
        let opened = state.next(Event::Opened);
        lemma_run_one(state, Event::Opened);
        lemma_drain(opened, got);
        lemma_run_on(state, seq![Event::Opened], received(got));
        let drained = run(opened, received(got));
        let end = if round.breaks is Some {
            Event::StreamFailed
        } else {
            Event::Ended
        };
        lemma_run_one(drained, end);
        lemma_run_on(state, seq![Event::Opened] + received(got), seq![end]);
        let stream = streamed(log, seen, round);
        assert(shown(state, stream) =~= ids_of(got));
        let after = run(state, stream);
        if got.len() == 0 {
            let check = check_event(log, round);
            let checked = after.next(check);
            lemma_run_one(after, check);
            lemma_run_one(checked, Event::Woke);
            lemma_run_on(after, seq![check], seq![Event::Woke]);
            assert(seq![check] + seq![Event::Woke] =~= seq![check, Event::Woke]);
            lemma_run_on(state, stream, seq![check, Event::Woke]);
        } else {
            lemma_run_one(after, Event::Woke);
            lemma_run_on(state, stream, seq![Event::Woke]);
        }
    }
    assert(shown(state, events) =~= ids_of(got));
}

/// All that happens in a round is what can come of what the feed asks for.
proof fn lemma_feed_round_answers(state: FeedState, log: LogState, seen: u64, round: Round)
    requires
        state.following(seen),
        log.valid(),
        seen < log.next_id,
    ensures
        answers(state, log, Seq::empty(), feed_round(log, seen, round)),
{
    let nothing = Seq::<Record>::empty();
    let got = comes_through(log, seen, round);
    if !round.opens {
        let refused = state.next(Event::RpcFailed);
        lemma_run_one(state, Event::RpcFailed);
        lemma_answers_one(state, log, nothing, Event::RpcFailed);
        lemma_answers_one(refused, log, nothing, Event::Woke);
        lemma_answers_on(state, log, nothing, seq![Event::RpcFailed], seq![Event::Woke]);
        assert(seq![Event::RpcFailed] + seq![Event::Woke] =~= seq![Event::RpcFailed, Event::Woke]);
    } else {
        let stream = streamed(log, seen, round);
        lemma_streamed_answers(state, log, seen, round);
        let opened = state.next(Event::Opened);
        lemma_run_one(state, Event::Opened);
        lemma_drain(opened, got);
        lemma_run_on(state, seq![Event::Opened], received(got));
        let drained = run(opened, received(got));
        let end = if round.breaks is Some {
            Event::StreamFailed
        } else {
            Event::Ended
        };
        lemma_run_one(drained, end);
        lemma_run_on(state, seq![Event::Opened] + received(got), seq![end]);
        let after = run(state, stream);
        let now = left_after(state, log, nothing, stream);
        if got.len() == 0 {
            let check = check_event(log, round);
            let checked = after.next(check);
            lemma_run_one(after, check);
            lemma_answers_one(after, log, now, check);
            lemma_answers_one(checked, log, now, Event::Woke);
            lemma_answers_on(after, log, now, seq![check], seq![Event::Woke]);
            assert(seq![check] + seq![Event::Woke] =~= seq![check, Event::Woke]);
            lemma_answers_on(state, log, nothing, stream, seq![check, Event::Woke]);
        } else {
            lemma_answers_one(after, log, now, Event::Woke);
            lemma_answers_on(state, log, nothing, stream, seq![Event::Woke]);
        }
    }
}

impl Follower for FeedState {
    open spec fn follows(self, seen: u64) -> bool {
        self.following(seen)
    }

    open spec fn last_shown(self) -> Option<u64> {
        self.last_id
    }

    open spec fn met(log: LogState, seen: u64, round: Round) -> Seq<Event> {
        feed_round(log, seen, round)
    }

    open spec fn tracks(self, last: u64) -> bool {
        &&& self.last_id == Some(last)
        &&& match self.stage {
            FeedStage::Waiting => true,
            FeedStage::Opening { seen } | FeedStage::Checking { seen } => seen == last,
            FeedStage::Draining { seen, got_any } => got_any || seen == last,
            _ => false,
        }
    }

    proof fn sets_out(self, seen: u64) {
    }

    proof fn opens_first(self, seen: u64) {
    }

    proof fn stays_on_track(self, log: LogState, last: u64, left: Seq<Record>, event: Event) {
    }

    proof fn goes_on(self, log: LogState, seen: u64, round: Round) {
        lemma_feed_round(self, log, seen, round);
        lemma_feed_round_answers(self, log, seen, round);
    }
}

/// A device that restarted is noticed in the next round, as long as its ids are
/// still behind: the feed says so, shows the newest record, and goes on from
/// there.
pub proof fn law_feed_notices_a_restart(state: FeedState, log: LogState, seen: u64)
    requires
        state.following(seen),
        log.valid(),
        log.records.len() > 0,
        log.next_id <= seen < u64::MAX,
    ensures
        ({
            let events = answered(log, seen);
            let newest = (log.next_id - 1) as u64;
            &&& accepts(state, events)
            &&& answers(state, log, Seq::empty(), events)
            &&& run(state, events.drop_last()).report(events.last()) == Report::Restarted
            &&& shown(state, events) == seq![newest]
            &&& run(state, events.push(Event::Woke)).following(newest)
        }),
{
    law_restart_shows(log, seen);
    law_range_is_a_window(log, (seen + 1) as u64);
    let events = answered(log, seen);
    let newest = latest_event(log);
    assert(answer_after(log, seen).len() == 0);
    let opened = state.next(Event::Opened);
    let checking = opened.next(Event::Ended);
    lemma_run_one(state, Event::Opened);
    lemma_run_one(opened, Event::Ended);
    lemma_run_one(checking, newest);
    lemma_run_on(state, seq![Event::Opened], seq![Event::Ended]);
    lemma_run_on(state, seq![Event::Opened] + seq![Event::Ended], seq![newest]);
    let nothing = Seq::<Record>::empty();
    lemma_answers_one(state, log, nothing, Event::Opened);
    lemma_answers_one(opened, log, answer_after(log, seen), Event::Ended);
    lemma_answers_one(checking, log, answer_after(log, seen), newest);
    lemma_answers_on(state, log, nothing, seq![Event::Opened], seq![Event::Ended]);
    lemma_answers_on(state, log, nothing, seq![Event::Opened] + seq![Event::Ended], seq![newest]);
    assert(seq![Event::Opened] + seq![Event::Ended] + seq![newest] =~= events);
    assert(events.drop_last() =~= seq![Event::Opened] + seq![Event::Ended]);
    assert(shown(state, events) =~= seq![(log.next_id - 1) as u64]);
    assert(events.push(Event::Woke).drop_last() =~= events);
}

} // verus!
