//! The retention-windowed log of sensor records, and the answers that the
//! device gives from it.

use crate::protocol::{GetLog, Reading, Record, SensorProtocol};
use std::collections::VecDeque;
use vstd::prelude::*;

verus! {

/// ~24h of history at one sample per minute.
pub const BUFFER_CAP: usize = 1440;

/// What the sensor loop hands to the log for one sample.
#[derive(Clone, Copy, Debug, PartialEq, Eq, Structural)]
pub struct Sample {
    pub time: u64,
    pub inside: Option<Reading>,
    pub outside: Option<Reading>,
    pub fan: bool,
}

/// The record that a sample becomes under the id `id`.
pub open spec fn record_of(id: u64, sample: Sample) -> Record {
    Record {
        id,
        time: sample.time,
        inside: sample.inside,
        outside: sample.outside,
        fan: sample.fan,
    }
}

/// The log as a mathematical value: the retained records, oldest first, and
/// the id that the next one will get.
#[verifier::ext_equal]
pub struct LogState {
    pub records: Seq<Record>,
    pub next_id: nat,
}

impl LogState {
    /// Never more than the cap is retained, and the retained ids are the ones
    /// just below the next id, without a gap.
    pub open spec fn valid(self) -> bool {
        &&& self.records.len() <= BUFFER_CAP
        &&& self.records.len() <= self.next_id <= u64::MAX
        &&& forall|i: int|
            0 <= i < self.records.len() ==> (#[trigger] self.records[i]).id == self.oldest_id() + i
    }

    /// The id of the oldest retained record; the next id where there is none.
    pub open spec fn oldest_id(self) -> int {
        self.next_id - self.records.len()
    }

    /// The log after one more sample: it gets the next id, and the oldest
    /// record goes when there were already as many as the cap allows.
    pub open spec fn pushed(self, sample: Sample) -> LogState {
        let appended = self.records.push(record_of(self.next_id as u64, sample));
        LogState {
            records: if appended.len() > BUFFER_CAP {
                appended.drop_first()
            } else {
                appended
            },
            next_id: self.next_id + 1,
        }
    }

    /// The log after a run of samples, in order.
    pub open spec fn pushed_all(self, samples: Seq<Sample>) -> LogState
        decreases samples.len(),
    {
        if samples.len() == 0 {
            self
        } else {
            self.pushed_all(samples.drop_last()).pushed(samples.last())
        }
    }

    /// The newest record.
    pub open spec fn latest(self) -> Option<Record> {
        if self.records.len() == 0 {
            None
        } else {
            Some(self.records.last())
        }
    }

    /// The retained records with an id of at least `start_id`, oldest first.
    pub open spec fn since(self, start_id: u64) -> Seq<Record> {
        self.records.filter(|r: Record| r.id >= start_id)
    }

    /// The first `limit` of them.
    pub open spec fn range(self, start_id: u64, limit: nat) -> Seq<Record> {
        let matching = self.since(start_id);
        if limit < matching.len() {
            matching.take(limit as int)
        } else {
            matching
        }
    }
}

/// The retention-windowed log of sensor records.
#[derive(Debug)]
pub struct Buffer {
    records: VecDeque<Record>,
    next_id: u64,
}

/// What the device answers to a request.
#[derive(Debug)]
pub enum SensorReply {
    /// The newest record, if there is one.
    Latest(Option<Record>),
    /// The records to stream, in this order.
    Log(Vec<Record>),
}

impl View for Buffer {
    type V = LogState;

    closed spec fn view(&self) -> LogState {
        LogState { records: self.records@, next_id: self.next_id as nat }
    }
}

impl Default for Buffer {
    fn default() -> (buffer: Buffer)
        ensures
            buffer@ == (LogState { records: Seq::empty(), next_id: 0 }),
            buffer@.valid(),
    {
        Buffer { records: VecDeque::new(), next_id: 0 }
    }
}

impl Buffer {
    /// Append a sample under the next id, and drop the oldest record if there
    /// are now more than the cap allows.
    pub fn push(
        &mut self,
        time: u64,
        inside: Option<Reading>,
        outside: Option<Reading>,
        fan: bool,
    )
        requires
            old(self)@.valid(),
            old(self)@.next_id < u64::MAX,
        ensures
            final(self)@ == old(self)@.pushed(Sample { time, inside, outside, fan }),
            final(self)@.valid(),
            final(self)@.next_id == old(self)@.next_id + 1,
            final(self)@.records.len() > 0,
            final(self)@.records.last().id == old(self)@.next_id,
            final(self)@.records.last().time == time,
            final(self)@.records.last().inside == inside,
            final(self)@.records.last().outside == outside,
            final(self)@.records.last().fan == fan,
            old(self)@.records.len() < 1440 ==> final(self)@.records.drop_last()
                == old(self)@.records,
            old(self)@.records.len() == 1440 ==> final(self)@.records.drop_last()
                == old(self)@.records.skip(1),
    {
        let id = self.next_id;
        self.next_id += 1;
        self.records.push_back(Record { id, time, inside, outside, fan });
        proof {
            lemma_push_keeps_valid(old(self)@, Sample { time, inside, outside, fan });
        }
        let ghost appended = self.records@;
        while self.records.len() > BUFFER_CAP
            invariant
                appended.len() <= BUFFER_CAP + 1,
                self.next_id == id + 1,
                self.records@ == appended || (appended.len() == BUFFER_CAP + 1 && self.records@
                    == appended.drop_first()),
            decreases self.records@.len(),
        {
            let _ = self.records.pop_front();
        }
        assert(self@ =~= old(self)@.pushed(Sample { time, inside, outside, fan }));
        proof {
            law_push_appends_the_sample(old(self)@, Sample { time, inside, outside, fan });
        }
    }

    /// Whether the last possible id is gone, so that no more can be appended.
    pub fn out_of_ids(&self) -> (yes: bool)
        ensures
            yes == (self@.next_id == u64::MAX),
    {
        self.next_id == u64::MAX
    }

    /// The newest record, if there is one.
    pub fn latest(&self) -> (record: Option<Record>)
        ensures
            record == self@.latest(),
    {
        let count = self.records.len();
        if count == 0 {
            None
        } else {
            Some(self.records[count - 1])
        }
    }

    /// Snapshot up to `limit` retained records with `id >= start_id`, oldest
    /// first.
    pub fn range(&self, start_id: u64, limit: usize) -> (found: Vec<Record>)
        ensures
            found@ == self@.range(start_id, limit as nat),
    {
        let ghost keep = |r: Record| r.id >= start_id;
        let mut found: Vec<Record> = Vec::new();
        let mut i: usize = 0;
        proof {
            assert(self.records@.take(0) =~= Seq::<Record>::empty());
            reveal(Seq::filter);
        }
        while i < self.records.len() && found.len() < limit
            invariant
                i <= self.records@.len(),
                keep == (|r: Record| r.id >= start_id),
                found@ == self.records@.take(i as int).filter(keep),
                found@.len() <= limit,
            decreases self.records.len() - i,
        {
            let record = self.records[i];
            proof {
                reveal(Seq::filter);
                let longer = self.records@.take(i + 1);
                assert(longer.drop_last() =~= self.records@.take(i as int));
                assert(longer.last() == record);
            }
            if record.id >= start_id {
                found.push(record);
            }
            i += 1;
        }
        proof {
            lemma_filter_take(self.records@, keep, i as int);
            assert(self.records@.take(self.records@.len() as int) =~= self.records@);
        }
        found
    }

    /// Answer a request from what is retained.
    pub fn handle_message(&self, request: &SensorProtocol) -> (reply: SensorReply)
        ensures
            match *request {
                SensorProtocol::GetLatest(_) => reply == SensorReply::Latest(self@.latest()),
                SensorProtocol::GetLog(GetLog { start_id, limit }) => {
                    &&& reply is Log
                    &&& reply->Log_0@ == self@.range(start_id, limit as nat)
                },
            },
    {
        match request {
            SensorProtocol::GetLatest(_) => SensorReply::Latest(self.latest()),
            SensorProtocol::GetLog(inner) => SensorReply::Log(
                self.range(inner.start_id, inner.limit as usize),
            ),
        }
    }
}

/// The matches among the first `k` items are the first of all matches.
proof fn lemma_filter_take<A>(s: Seq<A>, keep: spec_fn(A) -> bool, k: int)
    requires
        0 <= k <= s.len(),
    ensures
        s.take(k).filter(keep).len() <= s.filter(keep).len(),
        s.take(k).filter(keep) == s.filter(keep).take(s.take(k).filter(keep).len() as int),
    decreases s.len() - k,
{
    if k == s.len() {
        assert(s.take(k) =~= s);
        assert(s.filter(keep).take(s.filter(keep).len() as int) =~= s.filter(keep));
    } else {
        lemma_filter_take(s, keep, k + 1);
        reveal(Seq::filter);
        let longer = s.take(k + 1);
        assert(longer.drop_last() =~= s.take(k));
        let n = s.take(k).filter(keep).len() as int;
        assert(s.take(k).filter(keep) =~= longer.filter(keep).take(n));
        assert(longer.filter(keep).take(n) =~= s.filter(keep).take(n));
    }
}

/// One more sample leaves a valid log valid.
proof fn lemma_push_keeps_valid(log: LogState, sample: Sample)
    requires
        log.valid(),
        log.next_id < u64::MAX,
    ensures
        log.pushed(sample).valid(),
{
}

// ---------------------------------------------------------------------------
// Laws
// ---------------------------------------------------------------------------

/// The records that a run of samples becomes when the first of them gets the
/// id `first`.
pub open spec fn minted(first: nat, samples: Seq<Sample>) -> Seq<Record> {
    Seq::new(samples.len(), |i: int| record_of((first + i) as u64, samples[i]))
}

/// The last `count` items.
pub open spec fn newest<A>(items: Seq<A>, count: nat) -> Seq<A> {
    if items.len() <= count {
        items
    } else {
        items.skip(items.len() - count)
    }
}

/// The log holds the newest records of all that were ever appended, as many as
/// the cap allows, under ids that count every append: dropping old records
/// changes neither the ids nor the records that stay.
pub proof fn law_newest_records_are_retained(log: LogState, samples: Seq<Sample>)
    requires
        log.valid(),
        log.next_id + samples.len() <= u64::MAX,
    ensures
        log.pushed_all(samples).valid(),
        log.pushed_all(samples).next_id == log.next_id + samples.len(),
        log.pushed_all(samples).records == newest(
            log.records + minted(log.next_id, samples),
            BUFFER_CAP as nat,
        ),
    decreases samples.len(),
{
    let cap = BUFFER_CAP as nat;
    let all = log.records + minted(log.next_id, samples);
    if samples.len() == 0 {
        assert(all =~= log.records);
    } else {
        let shorter = samples.drop_last();
        law_newest_records_are_retained(log, shorter);
        let before = log.pushed_all(shorter);
        lemma_push_keeps_valid(before, samples.last());
        let earlier = log.records + minted(log.next_id, shorter);
        let fresh = record_of(before.next_id as u64, samples.last());
        assert(all =~= earlier.push(fresh));
        assert(log.pushed_all(samples).records =~= newest(all, cap));
    }
}

/// A sample becomes the newest record, under the next id and with what it says field by
/// field. The records before it stay as they were, but for the oldest of 1440.
pub proof fn law_push_appends_the_sample(log: LogState, sample: Sample)
    requires
        log.valid(),
        log.next_id < u64::MAX,
    ensures
        ({
            let after = log.pushed(sample);
            &&& after.next_id == log.next_id + 1
            &&& after.records.len() == if log.records.len() < 1440 {
                log.records.len() + 1
            } else {
                1440
            }
            &&& after.records.last().id == log.next_id
            &&& after.records.last().time == sample.time
            &&& after.records.last().inside == sample.inside
            &&& after.records.last().outside == sample.outside
            &&& after.records.last().fan == sample.fan
            &&& after.latest() == Some(after.records.last())
            &&& log.records.len() < 1440 ==> after.records.drop_last() == log.records
            &&& log.records.len() == 1440 ==> after.records.drop_last() == log.records.skip(1)
        }),
{
    let after = log.pushed(sample);
    if log.records.len() < 1440 {
        assert(after.records.drop_last() =~= log.records);
    } else {
        assert(after.records.drop_last() =~= log.records.skip(1));
    }
}

/// After a run of samples the log still holds each of the last 1440 of them as it came:
/// sample `i` is the record with the id that it got.
pub proof fn law_log_holds_what_came(log: LogState, samples: Seq<Sample>, i: int)
    requires
        log.valid(),
        log.next_id + samples.len() <= u64::MAX,
        0 <= i < samples.len(),
        samples.len() - i <= 1440,
    ensures
        ({
            let after = log.pushed_all(samples);
            let at = after.records.len() - (samples.len() - i);
            &&& 0 <= at < after.records.len()
            &&& after.records[at].id == log.next_id + i
            &&& after.records[at].time == samples[i].time
            &&& after.records[at].inside == samples[i].inside
            &&& after.records[at].outside == samples[i].outside
            &&& after.records[at].fan == samples[i].fan
        }),
{
    law_newest_records_are_retained(log, samples);
}

/// The newest record is the one with the highest id that was given out; an empty log has
/// none.
pub proof fn law_latest_is_the_newest(log: LogState)
    requires
        log.valid(),
    ensures
        log.latest() is None <==> log.records.len() == 0,
        log.latest() matches Some(record) ==> {
            &&& log.records.contains(record)
            &&& record.id + 1 == log.next_id
            &&& forall|i: int| 0 <= i < log.records.len() ==> (#[trigger] log.records[i]).id
                <= record.id
        },
{
    if log.records.len() > 0 {
        assert(log.records[log.records.len() - 1].id + 1 == log.next_id);
        assert(log.records.contains(log.records[log.records.len() - 1]));
    }
}

/// An answer has a record just when the log retains it, its id is at least the one asked
/// for, and fewer than the limit come before it; and the records stand in the order of
/// their ids.
pub proof fn law_answer_is_what_was_asked_for(log: LogState, start_id: u64, limit: nat)
    requires
        log.valid(),
    ensures
        ({
            let answer = log.range(start_id, limit);
            let skipped: int = if start_id <= log.oldest_id() {
                0
            } else if start_id >= log.next_id {
                log.records.len() as int
            } else {
                start_id - log.oldest_id()
            };
            let left = log.records.len() - skipped;
            &&& answer.len() == if left < limit {
                left
            } else {
                limit as int
            }
            &&& forall|i: int|
                0 <= i < answer.len() ==> #[trigger] answer[i] == log.records[skipped + i]
            &&& forall|i: int| 0 <= i < answer.len() ==> (#[trigger] answer[i]).id >= start_id
            &&& forall|i: int, j: int|
                0 <= i < j < answer.len() ==> (#[trigger] answer[i]).id < (#[trigger] answer[j]).id
        }),
{
    law_range_is_a_window(log, start_id);
    let answer = log.range(start_id, limit);
    let from = window_start(log, start_id);
    assert(log.since(start_id) == log.records.skip(from));
    assert forall|i: int| 0 <= i < answer.len() implies #[trigger] answer[i] == log.records[from
        + i] && answer[i].id == log.oldest_id() + from + i by {
        assert(answer[i] == log.since(start_id)[i]);
    }
}

/// A request for the log answers with a contiguous window that ends at the
/// newest record: it begins at the id asked for, or at the oldest retained
/// record where that id is already gone.
pub proof fn law_range_is_a_window(log: LogState, start_id: u64)
    requires
        log.valid(),
    ensures
        log.since(start_id) == log.records.skip(window_start(log, start_id)),
        forall|i: int|
            0 <= i < log.since(start_id).len() ==> (#[trigger] log.since(start_id)[i]).id
                == log.oldest_id() + window_start(log, start_id) + i,
{
    let keep = |r: Record| r.id >= start_id;
    lemma_filter_suffix(log.records, keep, window_start(log, start_id));
}

/// How many of the retained records are older than `start_id`.
pub open spec fn window_start(log: LogState, start_id: u64) -> int {
    if start_id <= log.oldest_id() {
        0
    } else if start_id >= log.next_id {
        log.records.len() as int
    } else {
        start_id - log.oldest_id()
    }
}

/// Where the matches are exactly the items from `from` on, filtering gives that
/// tail.
proof fn lemma_filter_suffix<A>(s: Seq<A>, keep: spec_fn(A) -> bool, from: int)
    requires
        0 <= from <= s.len(),
        forall|i: int| 0 <= i < s.len() ==> (#[trigger] keep(s[i]) <==> from <= i),
    ensures
        s.filter(keep) == s.skip(from),
    decreases s.len(),
{
    reveal(Seq::filter);
    if s.len() == 0 {
        assert(s.skip(from) =~= s);
    } else {
        let shorter = s.drop_last();
        assert(keep(s[s.len() - 1]) <==> from <= s.len() - 1);
        assert forall|i: int| 0 <= i < shorter.len() implies (#[trigger] keep(shorter[i]) <==> from
            <= i) by {
            assert(shorter[i] == s[i]);
            assert(keep(s[i]) <==> from <= i);
        }
        if from == s.len() {
            lemma_filter_suffix(shorter, keep, from - 1);
        } else {
            lemma_filter_suffix(shorter, keep, from);
            assert(s.skip(from) =~= shorter.skip(from).push(s.last()));
        }
    }
}

/// A client that asks for what is newer than the last record it saw gets every
/// record appended since, each once and in order, as long as no more than a
/// full buffer of them came in between.
pub proof fn law_nothing_is_missed(log: LogState, samples: Seq<Sample>, start_id: u64)
    requires
        log.valid(),
        log.next_id + samples.len() <= u64::MAX,
        samples.len() <= BUFFER_CAP,
        start_id == log.next_id,
    ensures
        log.pushed_all(samples).since(start_id) == minted(log.next_id, samples),
        log.pushed_all(samples).range(start_id, u32::MAX as nat) == minted(log.next_id, samples),
{
    let after = log.pushed_all(samples);
    law_newest_records_are_retained(log, samples);
    law_range_is_a_window(after, start_id);
    assert(after.since(start_id) =~= minted(log.next_id, samples));
}

/// Where the record asked for is no longer retained, the gap shows: the first
/// record of the answer has a greater id.
pub proof fn law_gap_is_visible(log: LogState, start_id: u64)
    requires
        log.valid(),
        start_id < log.oldest_id(),
        log.records.len() > 0,
    ensures
        log.since(start_id) == log.records,
        log.since(start_id)[0].id > start_id,
{
    law_range_is_a_window(log, start_id);
    assert(log.records.skip(0) =~= log.records);
}

/// A log that was started anew has no record for a client that is ahead of it,
/// and its newest id is below the last one that the client saw.
pub proof fn law_restart_shows(log: LogState, seen: u64)
    requires
        log.valid(),
        log.records.len() > 0,
        log.next_id <= seen < u64::MAX,
    ensures
        log.since((seen + 1) as u64).len() == 0,
        log.latest() is Some,
        log.latest()->0.id < seen,
{
    law_range_is_a_window(log, (seen + 1) as u64);
}

} // verus!
