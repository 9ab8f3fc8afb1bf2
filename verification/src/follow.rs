//! What a client that follows the log of a device shows over time, whatever happens on
//! the way: the same for every client that asks again and again for what is newer than
//! the last record it showed.

use crate::buffer::{
    law_newest_records_are_retained, law_range_is_a_window, window_start, LogState, Sample,
    BUFFER_CAP,
};
use crate::live::{shows, Action, Event, Report};
use crate::protocol::Record;
use vstd::prelude::*;

verus! {

// ---------------------------------------------------------------------------
// Machines
// ---------------------------------------------------------------------------

/// A machine that is told what happens and tells what is to be shown.
pub trait Machine: Sized {
    /// The machine after an event.
    spec fn after(self, event: Event) -> Self;

    /// What there is to tell of the event.
    spec fn tells(self, event: Event) -> Report;

    /// What it asks for next.
    spec fn asks(self) -> Action;

    /// The event is one that can come now.
    spec fn takes(self, event: Event) -> bool;

    /// It is in the middle of a stream.
    spec fn drains(self) -> bool;

    /// The machine after it drained a stream up to the record with this id.
    spec fn drained(self, id: u64) -> Self;

    /// In the middle of a stream each record is shown, and the stream goes on.
    proof fn drains_on(self, id: u64)
        requires
            self.drains(),
        ensures
            self.asks() is Receive,
            self.takes(Event::Received(id)),
            shows(self.tells(Event::Received(id))),
            self.after(Event::Received(id)) == self.drained(id),
            self.drained(id).drains(),
            forall|later: u64| #[trigger]
                self.drained(id).drained(later) == self.drained(later),
    ;
}

/// Where a run of events leads.
pub open spec fn run<M: Machine>(state: M, events: Seq<Event>) -> M
    decreases events.len(),
{
    if events.len() == 0 {
        state
    } else {
        run(state, events.drop_last()).after(events.last())
    }
}

/// Each event comes when it can.
pub open spec fn accepts<M: Machine>(state: M, events: Seq<Event>) -> bool
    decreases events.len(),
{
    events.len() == 0 || {
        &&& accepts(state, events.drop_last())
        &&& run(state, events.drop_last()).takes(events.last())
    }
}

/// The ids of the records that are shown over a run of events.
pub open spec fn shown<M: Machine>(state: M, events: Seq<Event>) -> Seq<u64>
    decreases events.len(),
{
    if events.len() == 0 {
        Seq::empty()
    } else {
        let earlier = shown(state, events.drop_last());
        if shows(run(state, events.drop_last()).tells(events.last())) {
            earlier.push(event_id(events.last()))
        } else {
            earlier
        }
    }
}

/// A run of two runs.
pub(crate) proof fn lemma_run_on<M: Machine>(state: M, first: Seq<Event>, rest: Seq<Event>)
    ensures
        run(state, first + rest) == run(run(state, first), rest),
        shown(state, first + rest) == shown(state, first) + shown(run(state, first), rest),
        accepts(state, first + rest) == (accepts(state, first) && accepts(
            run(state, first),
            rest,
        )),
    decreases rest.len(),
{
    if rest.len() == 0 {
        assert(first + rest =~= first);
        assert(shown(state, first) + Seq::<u64>::empty() =~= shown(state, first));
    } else {
        assert((first + rest).drop_last() =~= first + rest.drop_last());
        lemma_run_on(state, first, rest.drop_last());
    }
}

/// A run of a single event.
pub(crate) proof fn lemma_run_one<M: Machine>(state: M, event: Event)
    ensures
        run(state, seq![event]) == state.after(event),
        accepts(state, seq![event]) == state.takes(event),
        shown(state, seq![event]) == if shows(state.tells(event)) {
            seq![event_id(event)]
        } else {
            Seq::<u64>::empty()
        },
{
    let events = seq![event];
    assert(events.drop_last() =~= Seq::<Event>::empty());
    reveal_with_fuel(run, 2);
    reveal_with_fuel(accepts, 2);
    reveal_with_fuel(shown, 2);
    assert(Seq::<u64>::empty().push(event_id(event)) =~= seq![event_id(event)]);
}

/// Draining a stream shows each of its records and ends at the last of them.
pub(crate) proof fn lemma_drain<M: Machine>(state: M, records: Seq<Record>)
    requires
        state.drains(),
    ensures
        accepts(state, received(records)),
        shown(state, received(records)) == ids_of(records),
        run(state, received(records)) == if records.len() == 0 {
            state
        } else {
            state.drained(records.last().id)
        },
    decreases records.len(),
{
    let events = received(records);
    if records.len() == 0 {
        assert(ids_of(records) =~= Seq::<u64>::empty());
    } else {
        let shorter = records.drop_last();
        lemma_drain(state, shorter);
        assert(events.drop_last() =~= received(shorter));
        assert(events.last() == Event::Received(records.last().id));
        assert(ids_of(records) =~= ids_of(shorter).push(records.last().id));
        if shorter.len() > 0 {
            state.drains_on(shorter.last().id);
        }
        run(state, received(shorter)).drains_on(records.last().id);
    }
}

// ---------------------------------------------------------------------------
// Rounds
// ---------------------------------------------------------------------------

/// The id that an event brings.
pub open spec fn event_id(event: Event) -> u64 {
    match event {
        Event::Received(id) => id,
        Event::Latest(Some(id)) => id,
        _ => 0,
    }
}

/// The ids of some records.
pub open spec fn ids_of(records: Seq<Record>) -> Seq<u64> {
    records.map_values(|r: Record| r.id)
}

/// The ids from `first` up to, but not with, `end`.
pub open spec fn ids_between(first: nat, end: nat) -> Seq<u64> {
    Seq::new((end - first) as nat, |i: int| (first + i) as u64)
}

/// A stream that gives these records.
pub open spec fn received(records: Seq<Record>) -> Seq<Event> {
    records.map_values(|r: Record| Event::Received(r.id))
}

/// The answer to a request for the newest record.
pub open spec fn latest_event(log: LogState) -> Event {
    match log.latest() {
        Some(record) => Event::Latest(Some(record.id)),
        None => Event::Latest(None),
    }
}

/// The records that answer a request for what is newer than `seen`.
pub open spec fn answer_after(log: LogState, seen: u64) -> Seq<Record> {
    log.range((seen + 1) as u64, u32::MAX as nat)
}

/// What happens when every request for what is newer than `seen` is answered
/// from `log`.
pub open spec fn answered(log: LogState, seen: u64) -> Seq<Event> {
    let answer = answer_after(log, seen);
    if answer.len() > 0 {
        seq![Event::Opened] + received(answer) + seq![Event::Ended]
    } else {
        seq![Event::Opened, Event::Ended, latest_event(log)]
    }
}

/// `event` is what can come of `asked` from a device with this log, when `left` is what the
/// open stream has still to give. A request is answered as it was put, or it fails.
pub open spec fn replies(asked: Action, log: LogState, left: Seq<Record>, event: Event) -> bool {
    match asked {
        Action::Dial => event is Connected || event is ConnectFailed,
        Action::GetLatest => event == latest_event(log) || event is RpcFailed,
        Action::GetLog { .. } => event is Opened || event is RpcFailed,
        Action::Receive => {
            ||| event is StreamFailed
            ||| left.len() == 0 && event is Ended
            ||| left.len() > 0 && event == Event::Received(left[0].id)
        },
        Action::Wait { .. } => event is Woke,
        Action::Stop => false,
    }
}

/// What the open stream has still to give after some events: when it is opened, the
/// records that were asked for.
pub open spec fn left_after<M: Machine>(
    state: M,
    log: LogState,
    left: Seq<Record>,
    events: Seq<Event>,
) -> Seq<Record>
    decreases events.len(),
{
    if events.len() == 0 {
        left
    } else {
        let before = left_after(state, log, left, events.drop_last());
        match (events.last(), run(state, events.drop_last()).asks()) {
            (Event::Opened, Action::GetLog { start_id, limit }) => log.range(
                start_id,
                limit as nat,
            ),
            (Event::Received(_), _) => if before.len() > 0 {
                before.skip(1)
            } else {
                before
            },
            _ => before,
        }
    }
}

/// Each of the events is what can come of what the machine asked for just then, from a
/// device with this log.
pub open spec fn answers<M: Machine>(
    state: M,
    log: LogState,
    left: Seq<Record>,
    events: Seq<Event>,
) -> bool
    decreases events.len(),
{
    events.len() == 0 || {
        let shorter = events.drop_last();
        &&& answers(state, log, left, shorter)
        &&& replies(
            run(state, shorter).asks(),
            log,
            left_after(state, log, left, shorter),
            events.last(),
        )
    }
}

/// Answers of two runs.
pub(crate) proof fn lemma_answers_on<M: Machine>(
    state: M,
    log: LogState,
    left: Seq<Record>,
    first: Seq<Event>,
    rest: Seq<Event>,
)
    ensures
        ({
            let between = left_after(state, log, left, first);
            &&& left_after(state, log, left, first + rest) == left_after(
                run(state, first),
                log,
                between,
                rest,
            )
            &&& answers(state, log, left, first + rest) == (answers(state, log, left, first)
                && answers(run(state, first), log, between, rest))
        }),
    decreases rest.len(),
{
    if rest.len() == 0 {
        assert(first + rest =~= first);
    } else {
        assert((first + rest).drop_last() =~= first + rest.drop_last());
        lemma_answers_on(state, log, left, first, rest.drop_last());
        lemma_run_on(state, first, rest.drop_last());
    }
}

/// The answer of a single event.
pub(crate) proof fn lemma_answers_one<M: Machine>(
    state: M,
    log: LogState,
    left: Seq<Record>,
    event: Event,
)
    ensures
        answers(state, log, left, seq![event]) == replies(state.asks(), log, left, event),
        left_after(state, log, left, seq![event]) == match (event, state.asks()) {
            (Event::Opened, Action::GetLog { start_id, limit }) => log.range(
                start_id,
                limit as nat,
            ),
            (Event::Received(_), _) => if left.len() > 0 {
                left.skip(1)
            } else {
                left
            },
            _ => left,
        },
{
    assert(seq![event].drop_last() =~= Seq::<Event>::empty());
    reveal_with_fuel(answers, 2);
    reveal_with_fuel(left_after, 2);
    reveal_with_fuel(run, 2);
}

/// Records that come off the front of a stream are what it has to give.
pub(crate) proof fn lemma_drain_answers<M: Machine>(
    state: M,
    log: LogState,
    left: Seq<Record>,
    count: nat,
)
    requires
        state.drains(),
        count <= left.len(),
    ensures
        answers(state, log, left, received(left.take(count as int))),
        left_after(state, log, left, received(left.take(count as int))) == left.skip(count as int),
    decreases count,
{
    let records = left.take(count as int);
    let events = received(records);
    if count == 0 {
        assert(left.skip(0) =~= left);
    } else {
        let shorter = left.take(count - 1);
        lemma_drain_answers(state, log, left, (count - 1) as nat);
        assert(records.drop_last() =~= shorter);
        assert(events.drop_last() =~= received(shorter));
        assert(events.last() == Event::Received(left[count - 1].id));
        lemma_drain(state, shorter);
        if count > 1 {
            state.drains_on(shorter.last().id);
        }
        run(state, received(shorter)).drains_on(left[count - 1].id);
        assert(left.skip(count - 1).skip(1) =~= left.skip(count as int));
    }
}

/// The stream of a round is an answer to a request for what is newer than `seen`, and to
/// no other.
pub(crate) proof fn lemma_streamed_answers<M: Machine>(
    state: M,
    log: LogState,
    seen: u64,
    round: Round,
)
    requires
        state.asks() == (Action::GetLog { start_id: (seen + 1) as u64, limit: u32::MAX }),
        state.after(Event::Opened).drains(),
    ensures
        answers(state, log, Seq::empty(), streamed(log, seen, round)),
{
    let answer = answer_after(log, seen);
    let got = taken(round, answer);
    let opened = state.after(Event::Opened);
    let nothing = Seq::<Record>::empty();
    lemma_run_one(state, Event::Opened);
    lemma_answers_one(state, log, nothing, Event::Opened);
    lemma_drain_answers(opened, log, answer, got.len());
    assert(answer.take(got.len() as int) =~= got);
    lemma_answers_on(state, log, nothing, seq![Event::Opened], received(got));
    lemma_run_on(state, seq![Event::Opened], received(got));
    let drained = run(opened, received(got));
    lemma_drain(opened, got);
    if got.len() > 0 {
        opened.drains_on(got.last().id);
        drained.drains_on(0);
    } else {
        opened.drains_on(0);
    }
    let end = if round.breaks is Some {
        Event::StreamFailed
    } else {
        Event::Ended
    };
    lemma_answers_one(drained, log, answer.skip(got.len() as int), end);
    lemma_answers_on(state, log, nothing, seq![Event::Opened] + received(got), seq![end]);
}

/// A round in which requests may fail.
pub struct Round {
    /// What comes in at the device before it.
    pub samples: Seq<Sample>,
    /// The stream can be opened.
    pub opens: bool,
    /// After how many records the stream breaks off, where it does.
    pub breaks: Option<nat>,
    /// A look for a restart is answered.
    pub checked: bool,
    /// How many times in a row no connection can be made, once it was dropped.
    pub failed_dials: nat,
}

/// The records that come through in a round when `answer` would be streamed.
pub open spec fn taken(round: Round, answer: Seq<Record>) -> Seq<Record> {
    match round.breaks {
        Some(after) => if after < answer.len() {
            answer.take(after as int)
        } else {
            answer
        },
        None => answer,
    }
}

/// The records that are shown in a round against `log`, when `seen` was shown last.
pub open spec fn comes_through(log: LogState, seen: u64, round: Round) -> Seq<Record> {
    if round.opens {
        taken(round, answer_after(log, seen))
    } else {
        Seq::empty()
    }
}

/// The stream of a round, to its end or to where it breaks off.
pub open spec fn streamed(log: LogState, seen: u64, round: Round) -> Seq<Event> {
    seq![Event::Opened] + received(taken(round, answer_after(log, seen))) + seq![
        if round.breaks is Some {
            Event::StreamFailed
        } else {
            Event::Ended
        },
    ]
}

/// The look for a restart in a round.
pub open spec fn check_event(log: LogState, round: Round) -> Event {
    if round.checked {
        latest_event(log)
    } else {
        Event::RpcFailed
    }
}

/// The record after `seen`, if it came in already, is still retained.
pub open spec fn keeps_up(log: LogState, seen: u64) -> bool {
    &&& log.valid()
    &&& seen < log.next_id
    &&& log.oldest_id() <= seen + 1
}

/// The last record shown after `got`, when `seen` was the last before.
pub open spec fn reached(got: Seq<Record>, seen: u64) -> u64 {
    if got.len() > 0 {
        got.last().id
    } else {
        seen
    }
}

/// The stream of the round is opened and comes to its end.
pub open spec fn smooth(round: Round) -> bool {
    round.opens && round.breaks is None
}

/// Whatever the log retains, and whatever fails: what comes through is newer than what
/// was shown, and in order. Where nothing fails it is all that the log retains of that,
/// up to the newest record.
pub proof fn law_what_comes_through_is_newer(log: LogState, seen: u64, round: Round)
    requires
        log.valid(),
        seen < log.next_id,
    ensures
        ({
            let got = comes_through(log, seen, round);
            &&& forall|i: int| 0 <= i < got.len() ==> seen < (#[trigger] got[i]).id
            &&& forall|i: int, j: int|
                0 <= i < j < got.len() ==> (#[trigger] got[i]).id < (#[trigger] got[j]).id
            &&& seen <= reached(got, seen) < log.next_id
            &&& smooth(round) ==> got == log.range((seen + 1) as u64, u32::MAX as nat)
            &&& smooth(round) && log.records.len() > 0 ==> reached(got, seen) + 1 == log.next_id
        }),
{
    let start = (seen + 1) as u64;
    let answer = answer_after(log, seen);
    law_range_is_a_window(log, start);
    let from = window_start(log, start);
    assert(answer == log.records.skip(from));
    let got = comes_through(log, seen, round);
    assert forall|i: int| 0 <= i < got.len() implies (#[trigger] got[i]).id == log.oldest_id() + from
        + i by {
        assert(got[i] == answer[i]);
        assert(answer[i] == log.since(start)[i]);
    }
    assert(log.oldest_id() + from > seen);
}

/// Where the record after `seen` is retained, what comes through follows it without a
/// gap, and all of it does where nothing fails.
pub proof fn law_what_comes_through_follows(log: LogState, seen: u64, round: Round)
    requires
        keeps_up(log, seen),
    ensures
        ({
            let got = comes_through(log, seen, round);
            &&& seen + got.len() < log.next_id
            &&& ids_of(got) == ids_between((seen + 1) as nat, (seen + 1 + got.len()) as nat)
            &&& reached(got, seen) == seen + got.len()
            &&& round.opens && round.breaks is None ==> seen + got.len() + 1 == log.next_id
        }),
{
    let start = (seen + 1) as u64;
    let answer = answer_after(log, seen);
    law_range_is_a_window(log, start);
    let from = window_start(log, start);
    assert(answer == log.records.skip(from));
    assert(answer.len() == log.next_id - start);
    let got = comes_through(log, seen, round);
    assert forall|i: int| 0 <= i < got.len() implies (#[trigger] got[i]).id == seen + 1 + i by {
        assert(got[i] == answer[i]);
        assert(answer[i] == log.since(start)[i]);
    }
    assert(ids_of(got) =~= ids_between((seen + 1) as nat, (seen + 1 + got.len()) as nat));
}

// ---------------------------------------------------------------------------
// Followers
// ---------------------------------------------------------------------------

/// A machine that follows the log of a device.
pub trait Follower: Machine {
    /// It is about to ask for what is newer than `seen`, the last record it showed.
    spec fn follows(self, seen: u64) -> bool;

    /// The last record that it showed.
    spec fn last_shown(self) -> Option<u64>;

    /// What happens to it in a round against `log`, when it showed `seen` last.
    spec fn met(log: LogState, seen: u64, round: Round) -> Seq<Event>;

    /// It showed `last` last and is on its way to the next record, wherever it stands.
    spec fn tracks(self, last: u64) -> bool;

    /// About to ask is on the way.
    proof fn sets_out(self, seen: u64)
        requires
            self.follows(seen),
        ensures
            self.tracks(seen),
    ;

    /// First it asks for what is newer than the last record shown.
    proof fn opens_first(self, seen: u64)
        requires
            self.follows(seen),
        ensures
            seen < u64::MAX ==> self.asks() == (Action::GetLog {
                start_id: (seen + 1) as u64,
                limit: u32::MAX,
            }),
    ;

    /// Whatever a device answers, it asks for just what is newer than the last record
    /// shown, shows each record that comes and nothing else, and stays on its way.
    proof fn stays_on_track(self, log: LogState, last: u64, left: Seq<Record>, event: Event)
        requires
            self.tracks(last),
            log.valid(),
            last < log.next_id,
            replies(self.asks(), log, left, event),
        ensures
            self.last_shown() == Some(last),
            self.takes(event),
            self.asks() matches Action::GetLog { start_id, limit } ==> start_id == last + 1
                && limit == u32::MAX,
            event matches Event::Received(id) ==> shows(self.tells(event)) && self.after(
                event,
            ).tracks(id),
            !(event is Received) ==> !shows(self.tells(event)) && self.after(event).tracks(last),
            !(event is Received) && !(event is Opened) ==> !(self.after(event).asks() is Receive),
    ;

    /// A round, whatever fails in it, shows what comes through and goes on behind it. All
    /// that happens in it is what can come of what was asked for.
    proof fn goes_on(self, log: LogState, seen: u64, round: Round)
        requires
            self.follows(seen),
            log.valid(),
            seen < log.next_id,
        ensures
            self.last_shown() == Some(seen),
            accepts(self, Self::met(log, seen, round)),
            answers(self, log, Seq::empty(), Self::met(log, seen, round)),
            shown(self, Self::met(log, seen, round)) == ids_of(comes_through(log, seen, round)),
            run(self, Self::met(log, seen, round)).follows(
                reached(comes_through(log, seen, round), seen),
            ),
            run(self, Self::met(log, seen, round)).last_shown() == Some(
                reached(comes_through(log, seen, round), seen),
            ),
    ;
}

/// A follower and a device over some rounds in which requests may fail. The result holds
/// both at the end, and the ids that were shown.
pub open spec fn follow<F: Follower>(state: F, log: LogState, rounds: Seq<Round>) -> (
    F,
    LogState,
    Seq<u64>,
)
    decreases rounds.len(),
{
    if rounds.len() == 0 {
        (state, log, Seq::empty())
    } else {
        let (before, earlier, sofar) = follow(state, log, rounds.drop_last());
        let after = earlier.pushed_all(rounds.last().samples);
        let events = match before.last_shown() {
            Some(seen) => F::met(after, seen, rounds.last()),
            None => Seq::empty(),
        };
        (run(before, events), after, sofar + shown(before, events))
    }
}

/// How many samples come in over some rounds.
pub open spec fn total(rounds: Seq<Round>) -> nat
    decreases rounds.len(),
{
    if rounds.len() == 0 {
        0
    } else {
        total(rounds.drop_last()) + rounds.last().samples.len()
    }
}

/// The last of the ids that were shown, or the one shown before them.
pub open spec fn last_of(ids: Seq<u64>, seen: u64) -> u64 {
    if ids.len() > 0 {
        ids.last()
    } else {
        seen
    }
}

/// Whatever a device with a log answers to what a follower asks for, however often
/// requests fail, streams break off and connections are dropped: what is shown are the
/// records after `seen` that the log retains, from the first on, each once, in order and
/// without one left out.
pub proof fn law_only_what_is_new_is_shown<F: Follower>(
    state: F,
    log: LogState,
    events: Seq<Event>,
    seen: u64,
)
    requires
        state.follows(seen),
        log.valid(),
        seen < log.next_id,
        answers(state, log, Seq::empty(), events),
    ensures
        ({
            let retained = log.records.filter(|r: Record| r.id > seen);
            let ids = shown(state, events);
            &&& accepts(state, events)
            &&& ids.len() <= retained.len()
            &&& forall|i: int| 0 <= i < ids.len() ==> #[trigger] ids[i] == retained[i].id
        }),
{
    lemma_on_track(state, log, events, seen);
    let newer = |r: Record| r.id > seen;
    let since = |r: Record| r.id >= (seen + 1) as u64;
    law_range_is_a_window(log, (seen + 1) as u64);
    assert forall|r: Record| newer(r) == #[trigger] since(r) by {}
    assert(newer =~= since);
    let ids = shown(state, events);
    let answer = answer_after(log, seen);
    assert forall|i: int| 0 <= i < ids.len() implies #[trigger] ids[i] == answer[i].id by {
        assert(ids_of(answer).take(ids.len() as int)[i] == ids_of(answer)[i]);
    }
}

/// What is shown is the front of the answer to the first request, and what is asked for
/// and streamed later is the rest of it.
proof fn lemma_on_track<F: Follower>(state: F, log: LogState, events: Seq<Event>, seen: u64)
    requires
        state.follows(seen),
        log.valid(),
        seen < log.next_id,
        answers(state, log, Seq::empty(), events),
    ensures
        ({
            let answer = answer_after(log, seen);
            let ids = shown(state, events);
            let now = run(state, events);
            &&& accepts(state, events)
            &&& ids.len() <= answer.len()
            &&& ids == ids_of(answer).take(ids.len() as int)
            &&& now.tracks(last_of(ids, seen))
            &&& seen <= last_of(ids, seen) < log.next_id
            &&& now.asks() is Receive && events.len() > 0 ==> left_after(
                state,
                log,
                Seq::empty(),
                events,
            ) == answer.skip(ids.len() as int)
            &&& events.len() == 0 ==> !(now.asks() is Receive)
        }),
    decreases events.len(),
{
    let answer = answer_after(log, seen);
    let nothing = Seq::<Record>::empty();
    let whole = Round {
        samples: Seq::empty(),
        opens: true,
        breaks: None,
        checked: true,
        failed_dials: 0,
    };
    law_what_comes_through_is_newer(log, seen, whole);
    if events.len() == 0 {
        state.sets_out(seen);
        state.opens_first(seen);
        assert(ids_of(answer).take(0) =~= Seq::<u64>::empty());
    } else {
        let shorter = events.drop_last();
        let event = events.last();
        lemma_on_track(state, log, shorter, seen);
        let before = run(state, shorter);
        let ids = shown(state, shorter);
        let last = last_of(ids, seen);
        let left = left_after(state, log, nothing, shorter);
        before.stays_on_track(log, last, left, event);
        if ids.len() > 0 {
            assert(ids.last() == ids_of(answer).take(ids.len() as int)[ids.len() - 1]);
            assert(last == answer[ids.len() - 1].id);
        }
        lemma_rest_of_answer(log, seen, ids.len());
        if event is Received {
            assert(before.asks() is Receive);
            assert(left == answer.skip(ids.len() as int));
            assert(left[0] == answer[ids.len() as int]);
            assert(ids.push(left[0].id) =~= ids_of(answer).take((ids.len() + 1) as int));
            assert(left.skip(1) =~= answer.skip((ids.len() + 1) as int));
        }
    }
}

/// What is newer than the first part of an answer is the rest of it.
proof fn lemma_rest_of_answer(log: LogState, seen: u64, count: nat)
    requires
        log.valid(),
        seen < log.next_id,
        count <= answer_after(log, seen).len(),
    ensures
        ({
            let answer = answer_after(log, seen);
            let last = if count > 0 {
                answer[count - 1].id
            } else {
                seen
            };
            log.range((last + 1) as u64, u32::MAX as nat) == answer.skip(count as int)
        }),
{
    let answer = answer_after(log, seen);
    let start = (seen + 1) as u64;
    law_range_is_a_window(log, start);
    let from = window_start(log, start);
    assert(answer == log.records.skip(from));
    if count > 0 {
        assert(answer[count - 1] == log.records[from + count - 1]);
        let last = answer[count - 1].id;
        assert(last == log.oldest_id() + from + count - 1);
        law_range_is_a_window(log, (last + 1) as u64);
        assert(window_start(log, (last + 1) as u64) == from + count);
        assert(log.records.skip(from + count) =~= answer.skip(count as int));
    } else {
        assert(answer.skip(0) =~= answer);
    }
}

/// A round in which nothing fails shows every record that the log retains of those after
/// the last one shown.
pub proof fn law_a_smooth_round_shows_what_is_retained<F: Follower>(
    state: F,
    log: LogState,
    seen: u64,
    round: Round,
)
    requires
        state.follows(seen),
        log.valid(),
        seen < log.next_id,
        smooth(round),
    ensures
        ({
            let ids = shown(state, F::met(log, seen, round));
            &&& ids == ids_of(log.range((seen + 1) as u64, u32::MAX as nat))
            &&& forall|i: int| 0 <= i < ids.len() ==> seen < #[trigger] ids[i]
            &&& forall|i: int, j: int|
                0 <= i < j < ids.len() ==> #[trigger] ids[i] < #[trigger] ids[j]
        }),
{
    let got = comes_through(log, seen, round);
    assert forall|i: int| 0 <= i < got.len() implies #[trigger] ids_of(got)[i] == got[i].id by {}
    state.goes_on(log, seen, round);
    law_what_comes_through_is_newer(log, seen, round);
}

/// Whatever requests fail, streams break off and connections are dropped on the way, and
/// however far the log runs ahead: what is shown is newer than what was shown before,
/// always, so that no record is shown twice or out of order. After a round in which
/// nothing fails the newest record was shown.
pub proof fn law_shown_ids_ascend<F: Follower>(
    state: F,
    log: LogState,
    rounds: Seq<Round>,
    seen: u64,
)
    requires
        state.follows(seen),
        log.valid(),
        seen < log.next_id,
        log.next_id + total(rounds) <= u64::MAX,
    ensures
        ({
            let (at_end, after, ids) = follow(state, log, rounds);
            let last = last_of(ids, seen);
            &&& after.valid()
            &&& after.next_id == log.next_id + total(rounds)
            &&& at_end.follows(last)
            &&& at_end.last_shown() == Some(last)
            &&& seen <= last < after.next_id
            &&& forall|i: int| 0 <= i < ids.len() ==> seen < #[trigger] ids[i]
            &&& forall|i: int, j: int|
                0 <= i < j < ids.len() ==> #[trigger] ids[i] < #[trigger] ids[j]
            &&& rounds.len() > 0 && smooth(rounds.last()) && after.records.len() > 0 ==> last + 1
                == after.next_id
        }),
    decreases rounds.len(),
{
    if rounds.len() == 0 {
        let any = Round {
            samples: Seq::empty(),
            opens: true,
            breaks: None,
            checked: true,
            failed_dials: 0,
        };
        state.goes_on(log, seen, any);
    } else {
        let round = rounds.last();
        law_shown_ids_ascend(state, log, rounds.drop_last(), seen);
        let (before, earlier, ids) = follow(state, log, rounds.drop_last());
        let last = last_of(ids, seen);
        law_newest_records_are_retained(earlier, round.samples);
        let after = earlier.pushed_all(round.samples);
        let got = comes_through(after, last, round);
        before.goes_on(after, last, round);
        law_what_comes_through_is_newer(after, last, round);
        let all = ids + ids_of(got);
        assert forall|i: int| 0 <= i < all.len() implies seen < #[trigger] all[i] by {
            if i >= ids.len() {
                assert(all[i] == got[i - ids.len()].id);
            }
        }
        assert forall|i: int, j: int| 0 <= i < j < all.len() implies #[trigger] all[i]
            < #[trigger] all[j] by {
            if j >= ids.len() {
                assert(all[j] == got[j - ids.len()].id);
                if i >= ids.len() {
                    assert(all[i] == got[i - ids.len()].id);
                } else {
                    assert(ids[i] <= ids.last());
                }
            }
        }
        assert(last_of(all, seen) == reached(got, last)) by {
            if got.len() > 0 {
                assert(all.last() == got.last().id);
            } else {
                assert(all =~= ids);
            }
        }
    }
}

/// In each of the rounds the record after the last one shown is still retained when it
/// is asked for.
pub open spec fn keeps_up_throughout<F: Follower>(
    state: F,
    log: LogState,
    rounds: Seq<Round>,
) -> bool
    decreases rounds.len(),
{
    rounds.len() == 0 || {
        let (before, earlier, _) = follow(state, log, rounds.drop_last());
        &&& keeps_up_throughout(state, log, rounds.drop_last())
        &&& before.last_shown() matches Some(seen) && keeps_up(
            earlier.pushed_all(rounds.last().samples),
            seen,
        )
    }
}

/// Whatever requests fail, streams break off and connections are dropped on the way, a
/// follower that keeps up shows each record once and in order: what was shown is an
/// unbroken run of ids from the first new one on. After a round in which nothing fails
/// it reaches up to the newest record.
pub proof fn law_failures_lose_nothing<F: Follower>(
    state: F,
    log: LogState,
    rounds: Seq<Round>,
    seen: u64,
)
    requires
        state.follows(seen),
        log.valid(),
        seen < log.next_id,
        log.next_id + total(rounds) <= u64::MAX,
        keeps_up_throughout(state, log, rounds),
    ensures
        ({
            let (at_end, after, ids) = follow(state, log, rounds);
            let last = (seen + ids.len()) as u64;
            &&& seen + ids.len() < after.next_id
            &&& at_end.follows(last)
            &&& ids == ids_between((seen + 1) as nat, (seen + 1 + ids.len()) as nat)
            &&& rounds.len() > 0 && smooth(rounds.last()) ==> last + 1 == after.next_id
        }),
    decreases rounds.len(),
{
    law_shown_ids_ascend(state, log, rounds, seen);
    if rounds.len() == 0 {
        assert(ids_between((seen + 1) as nat, (seen + 1) as nat) =~= Seq::<u64>::empty());
    } else {
        let round = rounds.last();
        law_failures_lose_nothing(state, log, rounds.drop_last(), seen);
        law_shown_ids_ascend(state, log, rounds.drop_last(), seen);
        let (before, earlier, ids) = follow(state, log, rounds.drop_last());
        let last = (seen + ids.len()) as u64;
        assert(last_of(ids, seen) == last);
        let after = earlier.pushed_all(round.samples);
        let got = comes_through(after, last, round);
        before.goes_on(after, last, round);
        law_what_comes_through_follows(after, last, round);
        let all = ids + ids_of(got);
        assert(all =~= ids_between((seen + 1) as nat, (seen + 1 + all.len()) as nat));
    }
}

/// A follower never shows a record twice and never misses one, as long as nothing fails
/// and no more than a full buffer of them comes in between two polls.
pub proof fn law_each_record_is_shown_once<F: Follower>(
    state: F,
    log: LogState,
    rounds: Seq<Round>,
    seen: u64,
)
    requires
        state.follows(seen),
        log.valid(),
        log.records.len() > 0,
        log.next_id == seen + 1,
        log.next_id + total(rounds) <= u64::MAX,
        forall|k: int|
            0 <= k < rounds.len() ==> smooth(#[trigger] rounds[k]) && rounds[k].samples.len()
                <= BUFFER_CAP,
    ensures
        ({
            let (at_end, after, ids) = follow(state, log, rounds);
            &&& after.valid()
            &&& after.records.len() > 0
            &&& after.next_id == log.next_id + total(rounds)
            &&& at_end.follows((after.next_id - 1) as u64)
            &&& ids == ids_between(log.next_id, after.next_id)
        }),
{
    lemma_smooth_rounds_keep_up(state, log, rounds, seen);
    law_shown_ids_ascend(state, log, rounds, seen);
    law_failures_lose_nothing(state, log, rounds, seen);
    if rounds.len() > 0 {
        assert(smooth(rounds[rounds.len() - 1]));
    }
}

/// Where nothing fails and never more than a full buffer comes in between two polls, a
/// follower keeps up.
proof fn lemma_smooth_rounds_keep_up<F: Follower>(
    state: F,
    log: LogState,
    rounds: Seq<Round>,
    seen: u64,
)
    requires
        state.follows(seen),
        log.valid(),
        log.records.len() > 0,
        log.next_id == seen + 1,
        log.next_id + total(rounds) <= u64::MAX,
        forall|k: int|
            0 <= k < rounds.len() ==> smooth(#[trigger] rounds[k]) && rounds[k].samples.len()
                <= BUFFER_CAP,
    ensures
        keeps_up_throughout(state, log, rounds),
        follow(state, log, rounds).1.records.len() > 0,
    decreases rounds.len(),
{
    if rounds.len() > 0 {
        let shorter = rounds.drop_last();
        let round = rounds.last();
        assert(smooth(rounds[rounds.len() - 1]));
        assert forall|k: int| 0 <= k < shorter.len() implies smooth(#[trigger] shorter[k])
            && shorter[k].samples.len() <= BUFFER_CAP by {
            assert(shorter[k] == rounds[k]);
        }
        lemma_smooth_rounds_keep_up(state, log, shorter, seen);
        law_shown_ids_ascend(state, log, shorter, seen);
        law_failures_lose_nothing(state, log, shorter, seen);
        let (before, earlier, ids) = follow(state, log, shorter);
        law_newest_records_are_retained(earlier, round.samples);
    }
}

} // verus!
