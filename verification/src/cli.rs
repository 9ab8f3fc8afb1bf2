//! The command line of the sensor client: its arguments, the lines it prints,
//! and the fetch of a range of records.

use crate::buffer::{law_range_is_a_window, window_start, LogState};
use crate::follow::ids_of;
use crate::protocol::{Reading, Record};
use crate::text::{
    absent, decimal, decimal_text, first_at, law_columns, law_decimal_read_back,
    lemma_decimal_digits, number_of, occurs_at, pad_left, parse_u64, push_decimal, push_right_aligned, same_text, split_once, starts,
    starts_with, texts,
};
use vstd::prelude::*;

verus! {

// ---------------------------------------------------------------------------
// Ranges
// ---------------------------------------------------------------------------

/// Why a range could not be read.
#[derive(Clone, Copy, Debug, PartialEq, Eq, Structural)]
pub enum RangeError {
    /// The start is no number.
    Start,
    /// The end is no number.
    End,
    /// The end is before the start.
    Reversed,
}

impl RangeError {
    /// The error in words.
    pub open spec fn text(self) -> Seq<char> {
        match self {
            RangeError::Start => "range start must be a u64"@,
            RangeError::End => "range end must be a u64"@,
            RangeError::Reversed => "range end must be >= start"@,
        }
    }

    /// The error in words.
    pub fn message(&self) -> (text: String)
        ensures
            text@ == self.text(),
    {
        match self {
            RangeError::Start => "range start must be a u64".to_owned(),
            RangeError::End => "range end must be a u64".to_owned(),
            RangeError::Reversed => "range end must be >= start".to_owned(),
        }
    }
}

/// The range from `head` to `tail`, up to the newest where `tail` is empty.
pub open spec fn range_between(
    head: Seq<char>,
    tail: Seq<char>,
) -> Result<(u64, Option<u64>), RangeError> {
    match number_of(head) {
        None => Err(RangeError::Start),
        Some(start) => if tail.len() == 0 {
            Ok((start, None))
        } else {
            match number_of(tail) {
                None => Err(RangeError::End),
                Some(end) => if end < start {
                    Err(RangeError::Reversed)
                } else {
                    Ok((start, Some(end)))
                },
            }
        },
    }
}

/// The range that a text describes: a start alone, or a start and an end to the
/// two sides of the first `..`.
pub open spec fn range_of(text: Seq<char>) -> Result<(u64, Option<u64>), RangeError> {
    if absent(text, ".."@) {
        range_between(text, Seq::empty())
    } else {
        let at = choose|at: int| first_at(text, ".."@, at);
        range_between(text.take(at), text.skip(at + 2))
    }
}

/// The first place is the only first one.
proof fn lemma_first_is_unique(s: Seq<char>, pattern: Seq<char>, a: int, b: int)
    requires
        first_at(s, pattern, a),
        first_at(s, pattern, b),
    ensures
        a == b,
{
    if a < b {
        assert(!occurs_at(s, pattern, a));
    }
    if b < a {
        assert(!occurs_at(s, pattern, b));
    }
}

/// Read a range of ids: `"600"` and `"600.."` are from 600 to the newest,
/// `"600..700"` from 600 through 700.
pub fn parse_range(text: &str) -> (range: Result<(u64, Option<u64>), RangeError>)
    ensures
        range == range_of(text@),
{
    match split_once(text, "..") {
        Some((head, tail)) => {
            proof {
                reveal_strlit("..");
                let at = choose|at: int| first_at(text@, ".."@, at);
                lemma_first_is_unique(text@, ".."@, at, head@.len() as int);
                assert(occurs_at(text@, ".."@, at));
                assert(text@.take(at) =~= head@);
                assert(text@.skip(at + 2) =~= tail@);
            }
            let start: u64 = match parse_u64(head) {
                Some(start) => start,
                None => return Err(RangeError::Start),
            };
            if tail.is_empty() {
                return Ok((start, None));
            }
            match parse_u64(tail) {
                Some(end) => {
                    if end < start {
                        Err(RangeError::Reversed)
                    } else {
                        Ok((start, Some(end)))
                    }
                },
                None => Err(RangeError::End),
            }
        },
        None => match parse_u64(text) {
            Some(start) => Ok((start, None)),
            None => Err(RangeError::Start),
        },
    }
}

// ---------------------------------------------------------------------------
// Arguments
// ---------------------------------------------------------------------------

/// What the command line asks for.
#[derive(Debug)]
pub struct Options {
    /// Stop after one round.
    pub once: bool,
    /// Fetch these ids in place of following the log.
    pub range: Option<(u64, Option<u64>)>,
    /// The ticket of the device.
    pub ticket: String,
}

/// Why the command line could not be read.
#[derive(Debug)]
pub enum ArgsError {
    /// `--range` stands at the end.
    RangeMissing,
    /// What follows `--range` is no range.
    Range(RangeError),
    /// There is no such flag.
    UnknownFlag(String),
    /// There is more than one ticket.
    ExtraTicket,
    /// There is none.
    NoTicket,
}

/// `Options` as a mathematical value, with the ticket as far as it was read.
pub struct Gathered {
    pub once: bool,
    pub range: Option<(u64, Option<u64>)>,
    pub ticket: Option<Seq<char>>,
}

/// `ArgsError` as a mathematical value.
pub enum Fault {
    RangeMissing,
    Range(RangeError),
    UnknownFlag(Seq<char>),
    ExtraTicket,
    NoTicket,
}

impl View for Options {
    type V = Gathered;

    open spec fn view(&self) -> Gathered {
        Gathered { once: self.once, range: self.range, ticket: Some(self.ticket@) }
    }
}

impl View for ArgsError {
    type V = Fault;

    open spec fn view(&self) -> Fault {
        match *self {
            ArgsError::RangeMissing => Fault::RangeMissing,
            ArgsError::Range(error) => Fault::Range(error),
            ArgsError::UnknownFlag(flag) => Fault::UnknownFlag(flag@),
            ArgsError::ExtraTicket => Fault::ExtraTicket,
            ArgsError::NoTicket => Fault::NoTicket,
        }
    }
}

/// What the arguments say, read from the left, when `so_far` was read before
/// them.
pub open spec fn gathered(args: Seq<Seq<char>>, so_far: Gathered) -> Result<Gathered, Fault>
    decreases args.len(),
{
    if args.len() == 0 {
        if so_far.ticket is Some {
            Ok(so_far)
        } else {
            Err(Fault::NoTicket)
        }
    } else if args[0] == "--once"@ {
        gathered(args.skip(1), Gathered { once: true, ..so_far })
    } else if args[0] == "--range"@ {
        if args.len() == 1 {
            Err(Fault::RangeMissing)
        } else {
            match range_of(args[1]) {
                Ok(range) => gathered(args.skip(2), Gathered { range: Some(range), ..so_far }),
                Err(error) => Err(Fault::Range(error)),
            }
        }
    } else if starts(args[0], "--"@) {
        Err(Fault::UnknownFlag(args[0]))
    } else if so_far.ticket is Some {
        Err(Fault::ExtraTicket)
    } else {
        gathered(args.skip(1), Gathered { ticket: Some(args[0]), ..so_far })
    }
}

/// What the arguments say.
pub open spec fn options_of(args: Seq<Seq<char>>) -> Result<Gathered, Fault> {
    gathered(args, Gathered { once: false, range: None, ticket: None })
}

/// Read the arguments, without the name of the program: optional `--once` and
/// `--range <start[..end]>`, and the ticket.
pub fn parse_args(args: &Vec<String>) -> (options: Result<Options, ArgsError>)
    ensures
        match options {
            Ok(options) => options_of(texts(args@)) == Ok::<Gathered, Fault>(options@),
            Err(error) => options_of(texts(args@)) == Err::<Gathered, Fault>(error@),
        },
{
    let ghost all = texts(args@);
    let mut once = false;
    let mut range: Option<(u64, Option<u64>)> = None;
    let mut ticket: Option<String> = None;
    let mut i: usize = 0;
    assert(all.skip(0) =~= all);
    while i < args.len()
        invariant
            i <= args@.len(),
            all == texts(args@),
            options_of(all) == gathered(
                all.skip(i as int),
                Gathered {
                    once,
                    range,
                    ticket: match ticket {
                        Some(text) => Some(text@),
                        None => None,
                    },
                },
            ),
        decreases args.len() - i,
    {
        let arg = args[i].as_str();
        proof {
            assert(all.skip(i as int)[0] == arg@);
            assert(all.skip(i as int).skip(1) =~= all.skip(i + 1));
        }
        if same_text(arg, "--once") {
            once = true;
        } else if same_text(arg, "--range") {
            i += 1;
            if i == args.len() {
                return Err(ArgsError::RangeMissing);
            }
            proof {
                assert(all.skip(i - 1)[1] == args@[i as int]@);
                assert(all.skip(i - 1).skip(2) =~= all.skip(i + 1));
            }
            match parse_range(args[i].as_str()) {
                Ok(found) => {
                    range = Some(found);
                },
                Err(error) => return Err(ArgsError::Range(error)),
            }
        } else if starts_with(arg, "--") {
            return Err(ArgsError::UnknownFlag(arg.to_owned()));
        } else if ticket.is_some() {
            return Err(ArgsError::ExtraTicket);
        } else {
            ticket = Some(arg.to_owned());
        }
        i += 1;
    }
    match ticket {
        Some(ticket) => Ok(Options { once, range, ticket }),
        None => Err(ArgsError::NoTicket),
    }
}

/// The fault in words.
pub open spec fn fault_text(fault: Fault) -> Seq<char> {
    match fault {
        Fault::RangeMissing => "--range needs <start[..end]>"@,
        Fault::Range(error) => error.text(),
        Fault::UnknownFlag(flag) => "unknown flag: "@ + flag,
        Fault::ExtraTicket => "expected a single endpoint ticket"@,
        Fault::NoTicket =>
            "usage: dht22-cli [--once] [--range <start[..end]>] <endpoint-ticket>"@,
    }
}

impl ArgsError {
    /// The error in words.
    pub fn message(&self) -> (text: String)
        ensures
            text@ == fault_text(self@),
    {
        match self {
            ArgsError::RangeMissing => "--range needs <start[..end]>".to_owned(),
            ArgsError::Range(error) => error.message(),
            ArgsError::UnknownFlag(flag) => {
                let mut text = "unknown flag: ".to_owned();
                text.append(flag.as_str());
                text
            },
            ArgsError::ExtraTicket => "expected a single endpoint ticket".to_owned(),
            ArgsError::NoTicket =>
                "usage: dht22-cli [--once] [--range <start[..end]>] <endpoint-ticket>".to_owned(),
        }
    }
}

// ---------------------------------------------------------------------------
// Lines
// ---------------------------------------------------------------------------

/// A reading as the record line shows it, from its two numbers as text.
pub open spec fn reading_line(temperature: Seq<char>, humidity: Seq<char>) -> Seq<char> {
    pad_left(temperature, 5) + "°C "@ + pad_left(humidity, 4) + "%"@
}

/// A reading as the record line shows it.
pub open spec fn reading_text(reading: Option<Reading>) -> Seq<char> {
    match reading {
        Some(r) => reading_line(r.temperature.text(), r.humidity.text()),
        None => "    --      "@,
    }
}

/// The line for a record, from its two readings as text.
pub open spec fn record_line(
    id: nat,
    time: nat,
    inside: Seq<char>,
    outside: Seq<char>,
    fan: bool,
) -> Seq<char> {
    "[id "@ + pad_left(decimal(id), 6) + " t="@ + pad_left(decimal(time), 10) + "] inside: "@
        + inside + "  outside: "@ + outside + "  fan: "@ + if fan {
        "on"@
    } else {
        "off"@
    }
}

/// The line for a record.
pub open spec fn record_text(r: Record) -> Seq<char> {
    record_line(r.id as nat, r.time as nat, reading_text(r.inside), reading_text(r.outside), r.fan)
}

/// Write a reading whose two numbers are given as text, each with one digit
/// behind the point.
pub fn format_measured(temperature: &str, humidity: &str) -> (text: String)
    ensures
        text@ == reading_line(temperature@, humidity@),
{
    let mut text = String::new();
    push_right_aligned(&mut text, temperature, 5);
    text.append("°C ");
    push_right_aligned(&mut text, humidity, 4);
    text.append("%");
    assert(text@ =~= reading_line(temperature@, humidity@));
    text
}

/// Write a reading, or a dash where there is none.
pub fn format_reading(reading: &Option<Reading>) -> (text: String)
    ensures
        text@ == reading_text(*reading),
{
    match reading {
        Some(r) => format_measured(r.temperature.to_text().as_str(), r.humidity.to_text().as_str()),
        None => "    --      ".to_owned(),
    }
}

/// Write the line for a record whose two readings are given as text.
pub fn format_line(id: u64, time: u64, inside: &str, outside: &str, fan: bool) -> (line: String)
    ensures
        line@ == record_line(id as nat, time as nat, inside@, outside@, fan),
{
    let mut line = String::new();
    line.append("[id ");
    push_right_aligned(&mut line, decimal_text(id).as_str(), 6);
    line.append(" t=");
    push_right_aligned(&mut line, decimal_text(time).as_str(), 10);
    line.append("] inside: ");
    line.append(inside);
    line.append("  outside: ");
    line.append(outside);
    line.append("  fan: ");
    if fan {
        line.append("on");
    } else {
        line.append("off");
    }
    assert(line@ =~= record_line(id as nat, time as nat, inside@, outside@, fan));
    line
}

/// Write the line for a record.
pub fn format_record(r: &Record) -> (line: String)
    ensures
        line@ == record_text(*r),
{
    let inside = format_reading(&r.inside);
    let outside = format_reading(&r.outside);
    format_line(r.id, r.time, inside.as_str(), outside.as_str(), r.fan)
}

// ---------------------------------------------------------------------------
// Fetching a range
// ---------------------------------------------------------------------------

/// A fetch as a mathematical value.
pub struct FetchState {
    /// The last id that is wanted.
    pub end: Option<u64>,
    /// How many records were shown.
    pub count: nat,
    /// More are wanted.
    pub open: bool,
}

/// `id` is behind the end.
pub open spec fn past_end(end: Option<u64>, id: u64) -> bool {
    match end {
        Some(end) => id > end,
        None => false,
    }
}

impl FetchState {
    /// Before the first record.
    pub open spec fn initial(end: Option<u64>) -> FetchState {
        FetchState { end, count: 0, open: true }
    }

    /// After the record with this id came.
    pub open spec fn next(self, id: u64) -> FetchState {
        if past_end(self.end, id) {
            FetchState { open: false, ..self }
        } else {
            FetchState { count: self.count + 1, ..self }
        }
    }

    /// What is left of a stream of ids: the fetch when it is through with it, and
    /// the ids that were shown.
    pub open spec fn taken(self, ids: Seq<u64>) -> (FetchState, Seq<u64>)
        decreases ids.len(),
    {
        if !self.open || ids.len() == 0 {
            (self, Seq::empty())
        } else {
            let next = self.next(ids[0]);
            let (through, rest) = next.taken(ids.skip(1));
            (
                through,
                if next.open {
                    seq![ids[0]] + rest
                } else {
                    rest
                },
            )
        }
    }
}

/// Shows the records of a stream up to an end, and counts them.
#[derive(Debug)]
pub struct Fetch {
    end: Option<u64>,
    count: u64,
    open: bool,
}

impl View for Fetch {
    type V = FetchState;

    closed spec fn view(&self) -> FetchState {
        FetchState { end: self.end, count: self.count as nat, open: self.open }
    }
}

impl Fetch {
    /// Begin with nothing shown.
    pub fn new(end: Option<u64>) -> (fetch: Fetch)
        ensures
            fetch@ == FetchState::initial(end),
    {
        Fetch { end, count: 0, open: true }
    }

    /// A record came: whether it is to be shown. If not, the fetch is over.
    pub fn offer(&mut self, id: u64) -> (show: bool)
        requires
            old(self)@.open,
            old(self)@.count < u64::MAX,
        ensures
            final(self)@ == old(self)@.next(id),
            show == final(self)@.open,
    {
        let past = match self.end {
            Some(end) => id > end,
            None => false,
        };
        if past {
            self.open = false;
        } else {
            self.count += 1;
        }
        !past
    }

    /// How many records were shown.
    pub fn count(&self) -> (count: u64)
        ensures
            count == self@.count,
    {
        self.count
    }

    /// The line that ends the list.
    pub fn summary(&self) -> (line: String)
        ensures
            line@ == "("@ + decimal(self@.count) + " records)"@,
    {
        let mut line = "(".to_owned();
        push_decimal(&mut line, self.count);
        line.append(" records)");
        line
    }
}

/// The line that begins the list.
pub open spec fn heading_text(start: nat, end: Option<u64>) -> Seq<char> {
    match end {
        Some(end) => "Fetching log range id "@ + decimal(start) + "..="@ + decimal(end as nat)
            + "..."@,
        None => "Fetching log from id "@ + decimal(start) + "..."@,
    }
}

/// Write the line that begins the list.
pub fn heading(start: u64, end: Option<u64>) -> (line: String)
    ensures
        line@ == heading_text(start as nat, end),
{
    let mut line = String::new();
    match end {
        Some(end) => {
            line.append("Fetching log range id ");
            push_decimal(&mut line, start);
            line.append("..=");
            push_decimal(&mut line, end);
        },
        None => {
            line.append("Fetching log from id ");
            push_decimal(&mut line, start);
        },
    }
    line.append("...");
    assert(line@ =~= heading_text(start as nat, end));
    line
}

// ---------------------------------------------------------------------------
// Laws
// ---------------------------------------------------------------------------

/// A range that is written out reads back: a start alone and a start with `..`
/// are open, a start and an end are both kept, and an end before the start is
/// refused.
pub proof fn law_range_reads_back(start: u64, end: u64)
    ensures
        range_of(decimal(start as nat)) == Ok::<(u64, Option<u64>), RangeError>((start, None)),
        range_of(decimal(start as nat) + ".."@) == Ok::<(u64, Option<u64>), RangeError>(
            (start, None),
        ),
        range_of(decimal(start as nat) + ".."@ + decimal(end as nat)) == if end < start {
            Err::<(u64, Option<u64>), RangeError>(RangeError::Reversed)
        } else {
            Ok((start, Some(end)))
        },
{
    reveal_strlit("..");
    let head = decimal(start as nat);
    let tail = decimal(end as nat);
    law_decimal_read_back(start);
    law_decimal_read_back(end);
    lemma_decimal_digits(start as nat);
    lemma_decimal_digits(end as nat);
    assert forall|j: int| !#[trigger] occurs_at(head, ".."@, j) by {
        if occurs_at(head, ".."@, j) {
            assert(head.subrange(j, j + 2)[0] == ".."@[0]);
            assert(crate::text::is_digit(head[j]));
        }
    }
    lemma_split_after_digits(head, Seq::empty());
    assert(head + ".."@ + Seq::<char>::empty() =~= head + ".."@);
    lemma_split_after_digits(head, tail);
}

/// Behind a number, the first `..` is the one that follows it.
proof fn lemma_split_after_digits(head: Seq<char>, tail: Seq<char>)
    requires
        forall|i: int| 0 <= i < head.len() ==> crate::text::is_digit(#[trigger] head[i]),
    ensures
        range_of(head + ".."@ + tail) == range_between(head, tail),
{
    reveal_strlit("..");
    let s = head + ".."@ + tail;
    let n = head.len() as int;
    assert(s.subrange(n, n + 2) =~= ".."@);
    assert forall|j: int| 0 <= j < n implies !#[trigger] occurs_at(s, ".."@, j) by {
        if occurs_at(s, ".."@, j) {
            assert(s.subrange(j, j + 2)[0] == ".."@[0]);
            assert(s[j] == head[j]);
            assert(crate::text::is_digit(head[j]));
        }
    }
    assert(occurs_at(s, ".."@, n));
    assert(first_at(s, ".."@, n));
    let at = choose|at: int| first_at(s, ".."@, at);
    lemma_first_is_unique(s, ".."@, at, n);
    assert(s.take(n) =~= head);
    assert(s.skip(n + 2) =~= tail);
}

/// The range holds the id: it is not below the start, nor above the end where there is
/// one.
pub open spec fn in_range(start: u64, end: Option<u64>, id: u64) -> bool {
    start <= id && (end is Some ==> id <= end->0)
}

/// A range without an end holds all ids from its start on, one with an end those up to and
/// with the end.
pub proof fn law_ends_belong_to_the_range(start: u64, end: u64, id: u64)
    ensures
        in_range(start, None, id) <==> id >= start,
        in_range(start, Some(end), id) <==> start <= id <= end,
        past_end(Some(end), id) <==> id > end,
        !past_end(None, id),
{
}

/// A record is shown just as long as it is not behind the end, and counted when it is; the
/// first one behind the end ends the fetch.
pub proof fn law_fetch_counts_what_it_shows(state: FetchState, id: u64)
    ensures
        ({
            let behind = state.end is Some && id > state.end->0;
            &&& behind ==> !state.next(id).open && state.next(id).count == state.count
            &&& !behind ==> state.next(id).open == state.open && state.next(id).count == state.count
                + 1
            &&& state.next(id).end == state.end
        }),
{
}

/// A fetch shows exactly the retained records of the range, in order, and
/// counts them.
pub proof fn law_fetch_shows_the_range(log: LogState, start: u64, end: Option<u64>)
    requires
        log.valid(),
    ensures
        ({
            let answer = log.range(start, u32::MAX as nat);
            let wanted = log.records.filter(|r: Record| in_range(start, end, r.id));
            let (through, shown) = FetchState::initial(end).taken(ids_of(answer));
            &&& shown == ids_of(wanted)
            &&& through.count == wanted.len()
        }),
{
    let answer = log.range(start, u32::MAX as nat);
    let from = window_start(log, start);
    law_range_is_a_window(log, start);
    assert(answer == log.records.skip(from));
    let keep = |r: Record| in_range(start, end, r.id);
    let first = log.oldest_id() + from;
    let count: int = match end {
        None => answer.len() as int,
        Some(last) => if last < first {
            0
        } else if last - first + 1 < answer.len() {
            last - first + 1
        } else {
            answer.len() as int
        },
    };
    assert forall|i: int| 0 <= i < log.records.len() implies (#[trigger] keep(log.records[i])
        <==> from <= i < from + count) by {
        assert(log.records[i].id == log.oldest_id() + i);
    }
    lemma_filter_window(log.records, keep, from, from + count);
    let ids = ids_of(answer);
    assert forall|i: int| 0 <= i < ids.len() implies (past_end(end, #[trigger] ids[i]) <==> i
        >= count) by {
        assert(answer[i].id == first + i);
    }
    lemma_taken(FetchState::initial(end), ids, count);
    assert(ids.take(count) =~= ids_of(log.records.subrange(from, from + count)));
}

/// Where the ids from `count` on are the ones behind the end, the first `count`
/// are shown.
proof fn lemma_taken(state: FetchState, ids: Seq<u64>, count: int)
    requires
        state.open,
        0 <= count <= ids.len(),
        forall|i: int|
            0 <= i < ids.len() ==> (past_end(state.end, #[trigger] ids[i]) <==> i >= count),
    ensures
        state.taken(ids).1 == ids.take(count),
        state.taken(ids).0.count == state.count + count,
    decreases ids.len(),
{
    if ids.len() == 0 {
        assert(ids.take(count) =~= Seq::<u64>::empty());
    } else {
        let next = state.next(ids[0]);
        let rest = ids.skip(1);
        assert(past_end(state.end, ids[0]) <==> 0 >= count);
        if count == 0 {
            reveal_with_fuel(FetchState::taken, 2);
            assert(ids.take(count) =~= Seq::<u64>::empty());
        } else {
            assert forall|i: int| 0 <= i < rest.len() implies (past_end(
                next.end,
                #[trigger] rest[i],
            ) <==> i >= count - 1) by {
                assert(rest[i] == ids[i + 1]);
            }
            lemma_taken(next, rest, count - 1);
            assert(seq![ids[0]] + rest.take(count - 1) =~= ids.take(count));
        }
    }
}

/// Where the matches are exactly the items of a window, filtering gives that
/// window.
proof fn lemma_filter_window<A>(s: Seq<A>, keep: spec_fn(A) -> bool, from: int, to: int)
    requires
        0 <= from <= to <= s.len(),
        forall|i: int| 0 <= i < s.len() ==> (#[trigger] keep(s[i]) <==> from <= i < to),
    ensures
        s.filter(keep) == s.subrange(from, to),
    decreases s.len(),
{
    reveal(Seq::filter);
    if s.len() == 0 {
        assert(s.subrange(from, to) =~= s);
    } else {
        let shorter = s.drop_last();
        let last = s.len() - 1;
        assert(keep(s[last]) <==> from <= last < to);
        assert forall|i: int| 0 <= i < shorter.len() implies (#[trigger] keep(shorter[i]) <==> from
            <= i < to) by {
            assert(shorter[i] == s[i]);
            assert(keep(s[i]) <==> from <= i < to);
        }
        if to < s.len() {
            lemma_filter_window(shorter, keep, from, to);
            assert(s.subrange(from, to) =~= shorter.subrange(from, to));
        } else if from < s.len() {
            lemma_filter_window(shorter, keep, from, last);
            assert(s.subrange(from, to) =~= shorter.subrange(from, last).push(s.last()));
        } else {
            lemma_filter_window(shorter, keep, last, last);
            assert(s.subrange(from, to) =~= shorter.subrange(last, last));
        }
    }
}

/// What stands before the first `..` is the start and what stands behind it the end. Both
/// have to be numbers, the end none below the start; an end that is missing altogether
/// leaves the range open.
pub proof fn law_range_is_split_at_the_dots(head: Seq<char>, tail: Seq<char>)
    requires
        first_at(head + ".."@ + tail, ".."@, head.len() as int),
    ensures
        ({
            let range = range_of(head + ".."@ + tail);
            &&& number_of(head) is None ==> range == Err::<(u64, Option<u64>), RangeError>(
                RangeError::Start,
            )
            &&& number_of(head) is Some && tail.len() == 0 ==> range == Ok::<
                (u64, Option<u64>),
                RangeError,
            >((number_of(head)->0, None))
            &&& number_of(head) is Some && tail.len() > 0 && number_of(tail) is None ==> range
                == Err::<(u64, Option<u64>), RangeError>(RangeError::End)
            &&& number_of(head) is Some && tail.len() > 0 && number_of(tail) is Some ==> (
            if number_of(tail)->0 < number_of(head)->0 {
                range == Err::<(u64, Option<u64>), RangeError>(RangeError::Reversed)
            } else {
                range == Ok::<(u64, Option<u64>), RangeError>(
                    (number_of(head)->0, Some(number_of(tail)->0)),
                )
            })
        }),
{
    reveal_strlit("..");
    let s = head + ".."@ + tail;
    let n = head.len() as int;
    assert(occurs_at(s, ".."@, n));
    let at = choose|at: int| first_at(s, ".."@, at);
    lemma_first_is_unique(s, ".."@, at, n);
    assert(s.take(n) =~= head);
    assert(s.skip(n + 2) =~= tail);
}

/// A text without `..` is a start alone, and has to be a number.
pub proof fn law_range_without_dots_is_open(text: Seq<char>)
    requires
        absent(text, ".."@),
    ensures
        number_of(text) is None ==> range_of(text) == Err::<(u64, Option<u64>), RangeError>(
            RangeError::Start,
        ),
        number_of(text) is Some ==> range_of(text) == Ok::<(u64, Option<u64>), RangeError>(
            (number_of(text)->0, None),
        ),
{
}

/// `--once` in front of some arguments sets that and changes nothing else.
pub proof fn law_once_can_come_first(args: Seq<Seq<char>>)
    ensures
        options_of(seq!["--once"@] + args) == match options_of(args) {
            Ok(options) => Ok::<Gathered, Fault>(Gathered { once: true, ..options }),
            Err(fault) => Err(fault),
        },
{
    let all = seq!["--once"@] + args;
    assert(all.skip(1) =~= args);
    lemma_gathered(args, Gathered { once: true, range: None, ticket: None });
}

/// `--range` in front of some arguments takes the argument behind it, which has to be a
/// range; of several the last one counts.
pub proof fn law_range_can_come_first(range: Seq<char>, args: Seq<Seq<char>>)
    ensures
        options_of(seq!["--range"@, range] + args) == match range_of(range) {
            Err(error) => Err::<Gathered, Fault>(Fault::Range(error)),
            Ok(found) => match options_of(args) {
                Err(fault) => Err(fault),
                Ok(options) => Ok(
                    Gathered {
                        range: if options.range is Some {
                            options.range
                        } else {
                            Some(found)
                        },
                        ..options
                    },
                ),
            },
        },
        options_of(seq!["--range"@]) == Err::<Gathered, Fault>(Fault::RangeMissing),
{
    reveal_strlit("--once");
    reveal_strlit("--range");
    assert("--range"@.len() != "--once"@.len());
    let all = seq!["--range"@, range] + args;
    assert(all[0] == "--range"@ && all[1] == range);
    assert(all.skip(2) =~= args);
    if let Ok(found) = range_of(range) {
        lemma_gathered(args, Gathered { once: false, range: Some(found), ticket: None });
    }
    assert(seq!["--range"@][0] == "--range"@);
}

/// Any other argument that begins with two dashes is refused, whatever follows it, and no
/// arguments at all lack a ticket.
pub proof fn law_other_flags_are_refused(flag: Seq<char>, args: Seq<Seq<char>>)
    requires
        starts(flag, "--"@),
        flag != "--once"@,
        flag != "--range"@,
    ensures
        options_of(seq![flag] + args) == Err::<Gathered, Fault>(Fault::UnknownFlag(flag)),
        options_of(Seq::empty()) == Err::<Gathered, Fault>(Fault::NoTicket),
{
    assert((seq![flag] + args)[0] == flag);
}

/// The one argument without two dashes is the ticket, wherever it stands among the flags.
/// A second one is refused.
pub proof fn law_ticket_can_stand_anywhere(ticket: Seq<char>, args: Seq<Seq<char>>)
    requires
        !starts(ticket, "--"@),
    ensures
        options_of(seq![ticket]) == Ok::<Gathered, Fault>(
            Gathered { once: false, range: None, ticket: Some(ticket) },
        ),
        options_of(args) is Ok ==> options_of(seq![ticket] + args) == Err::<Gathered, Fault>(
            Fault::ExtraTicket,
        ),
        options_of(args) == Err::<Gathered, Fault>(Fault::NoTicket) ==> {
            &&& options_of(seq![ticket] + args) == options_of(args.push(ticket))
            &&& options_of(seq![ticket] + args) is Ok
            &&& options_of(seq![ticket] + args)->Ok_0.ticket == Some(ticket)
        },
{
    reveal_strlit("--once");
    reveal_strlit("--range");
    reveal_strlit("--");
    let start = Gathered { once: false, range: None, ticket: None };
    let found = Gathered { once: false, range: None, ticket: Some(ticket) };
    assert("--once"@.subrange(0, 2) =~= "--"@);
    assert("--range"@.subrange(0, 2) =~= "--"@);
    assert(starts("--once"@, "--"@) && starts("--range"@, "--"@));
    let all = seq![ticket] + args;
    assert(all[0] == ticket);
    assert(all.skip(1) =~= args);
    assert(options_of(all) == gathered(args, found));
    assert(seq![ticket].skip(1) =~= Seq::<Seq<char>>::empty());
    assert(gathered(seq![ticket].skip(1), found) == Ok::<Gathered, Fault>(found));
    lemma_ticket_first(args, start, ticket);
}

/// What was read before some arguments is kept, but for a range that comes again.
proof fn lemma_gathered(args: Seq<Seq<char>>, so_far: Gathered)
    requires
        so_far.ticket is None,
    ensures
        gathered(args, so_far) == match options_of(args) {
            Ok(options) => Ok::<Gathered, Fault>(
                Gathered {
                    once: so_far.once || options.once,
                    range: if options.range is Some {
                        options.range
                    } else {
                        so_far.range
                    },
                    ticket: options.ticket,
                },
            ),
            Err(fault) => Err(fault),
        },
{
    lemma_gathered_with(args, so_far, None);
}

/// The same, whether or not there is a ticket already.
proof fn lemma_gathered_with(args: Seq<Seq<char>>, so_far: Gathered, ticket: Option<Seq<char>>)
    requires
        so_far.ticket == ticket,
    ensures
        gathered(args, so_far) == match gathered(
            args,
            Gathered { once: false, range: None, ticket },
        ) {
            Ok(options) => Ok::<Gathered, Fault>(
                Gathered {
                    once: so_far.once || options.once,
                    range: if options.range is Some {
                        options.range
                    } else {
                        so_far.range
                    },
                    ticket: options.ticket,
                },
            ),
            Err(fault) => Err(fault),
        },
    decreases args.len(),
{
    let plain = Gathered { once: false, range: None, ticket };
    if args.len() > 0 {
        if args[0] == "--once"@ {
            lemma_gathered_with(args.skip(1), Gathered { once: true, ..so_far }, ticket);
            lemma_gathered_with(args.skip(1), Gathered { once: true, ..plain }, ticket);
        } else if args[0] == "--range"@ {
            if args.len() > 1 {
                if let Ok(range) = range_of(args[1]) {
                    lemma_gathered_with(
                        args.skip(2),
                        Gathered { range: Some(range), ..so_far },
                        ticket,
                    );
                    lemma_gathered_with(
                        args.skip(2),
                        Gathered { range: Some(range), ..plain },
                        ticket,
                    );
                }
            }
        } else if !starts(args[0], "--"@) && ticket is None {
            lemma_gathered_with(
                args.skip(1),
                Gathered { ticket: Some(args[0]), ..so_far },
                Some(args[0]),
            );
        }
    }
}

/// A ticket before some arguments that have none is as good as one behind them.
proof fn lemma_ticket_first(args: Seq<Seq<char>>, so_far: Gathered, ticket: Seq<char>)
    requires
        so_far.ticket is None,
        !starts(ticket, "--"@),
    ensures
        gathered(args, so_far) is Ok ==> gathered(
            args,
            Gathered { ticket: Some(ticket), ..so_far },
        ) == Err::<Gathered, Fault>(Fault::ExtraTicket),
        gathered(args, so_far) == Err::<Gathered, Fault>(Fault::NoTicket) ==> {
            let first = gathered(args, Gathered { ticket: Some(ticket), ..so_far });
            &&& first == gathered(args.push(ticket), so_far)
            &&& first is Ok
            &&& first->Ok_0.ticket == Some(ticket)
        },
    decreases args.len(),
{
    reveal_strlit("--once");
    reveal_strlit("--range");
    reveal_strlit("--");
    assert("--once"@.subrange(0, 2) =~= "--"@);
    assert("--range"@.subrange(0, 2) =~= "--"@);
    assert(starts("--once"@, "--"@) && starts("--range"@, "--"@));
    let all = args.push(ticket);
    if args.len() == 0 {
        assert(all[0] == ticket);
        assert(all.skip(1) =~= Seq::<Seq<char>>::empty());
        let found = Gathered { ticket: Some(ticket), ..so_far };
        assert(gathered(all.skip(1), found) == Ok::<Gathered, Fault>(found));
    } else {
        assert(all[0] == args[0]);
        assert(all.skip(1) =~= args.skip(1).push(ticket));
        if args[0] == "--once"@ {
            lemma_ticket_first(args.skip(1), Gathered { once: true, ..so_far }, ticket);
        } else if args[0] == "--range"@ {
            if args.len() > 1 {
                assert(all[1] == args[1]);
                assert(all.skip(2) =~= args.skip(2).push(ticket));
                if let Ok(range) = range_of(args[1]) {
                    lemma_ticket_first(
                        args.skip(2),
                        Gathered { range: Some(range), ..so_far },
                        ticket,
                    );
                }
            }
        } else if !starts(args[0], "--"@) {
            lemma_no_second_ticket(args.skip(1), Gathered { ticket: Some(args[0]), ..so_far });
        }
    }
}

/// With a ticket none is missing.
proof fn lemma_no_second_ticket(args: Seq<Seq<char>>, so_far: Gathered)
    requires
        so_far.ticket is Some,
    ensures
        gathered(args, so_far) != Err::<Gathered, Fault>(Fault::NoTicket),
    decreases args.len(),
{
    if args.len() > 0 {
        if args[0] == "--once"@ {
            lemma_no_second_ticket(args.skip(1), Gathered { once: true, ..so_far });
        } else if args[0] == "--range"@ && args.len() > 1 {
            if let Ok(range) = range_of(args[1]) {
                lemma_no_second_ticket(args.skip(2), Gathered { range: Some(range), ..so_far });
            }
        }
    }
}

/// What is said of a flag that is unknown ends with the flag, and a range that could not be
/// read is told as its own error.
pub proof fn law_faults_name_what_was_wrong(flag: Seq<char>, error: RangeError)
    ensures
        fault_text(Fault::UnknownFlag(flag)) == "unknown flag: "@ + flag,
        fault_text(Fault::Range(error)) == error.text(),
{
}

/// A column of at least `width` characters with `s` at its right edge and blanks before it.
pub open spec fn right_column(column: Seq<char>, s: Seq<char>, width: nat) -> bool {
    let blank = column.len() - s.len();
    &&& column.len() == if s.len() < width {
        width
    } else {
        s.len()
    }
    &&& column.skip(blank) == s
    &&& forall|i: int| 0 <= i < blank ==> #[trigger] column[i] == ' '
}

/// A reading is shown as its temperature and its humidity, each in a column of its own with
/// its unit behind it.
pub proof fn law_reading_shows_temperature_then_humidity(r: Reading)
    ensures
        exists|t: Seq<char>, h: Seq<char>|
            {
                &&& reading_text(Some(r)) == #[trigger] (t + "°C "@ + h + "%"@)
                &&& right_column(t, r.temperature.text(), 5)
                &&& right_column(h, r.humidity.text(), 4)
            },
        reading_text(None).len() == 12,
        forall|i: int|
            0 <= i < 12 ==> #[trigger] reading_text(None)[i] == if i == 4 || i == 5 {
                '-'
            } else {
                ' '
            },
{
    law_columns(r.temperature.text(), 5);
    law_columns(r.humidity.text(), 4);
    let t = pad_left(r.temperature.text(), 5);
    let h = pad_left(r.humidity.text(), 4);
    assert(reading_text(Some(r)) == t + "°C "@ + h + "%"@);
    reveal_strlit("    --      ");
}

/// Two numbers given as text are shown in the same way.
pub proof fn law_measured_shows_temperature_then_humidity(
    temperature: Seq<char>,
    humidity: Seq<char>,
)
    ensures
        exists|t: Seq<char>, h: Seq<char>|
            {
                &&& reading_line(temperature, humidity) == #[trigger] (t + "°C "@ + h + "%"@)
                &&& right_column(t, temperature, 5)
                &&& right_column(h, humidity, 4)
            },
{
    law_columns(temperature, 5);
    law_columns(humidity, 4);
    let t = pad_left(temperature, 5);
    let h = pad_left(humidity, 4);
    assert(reading_line(temperature, humidity) == t + "°C "@ + h + "%"@);
}

/// A line whose two readings are given as text holds them in the order in which they are
/// given.
pub proof fn law_line_keeps_the_order(
    id: nat,
    time: nat,
    inside: Seq<char>,
    outside: Seq<char>,
    fan: bool,
)
    ensures
        exists|i: Seq<char>, t: Seq<char>|
            {
                &&& record_line(id, time, inside, outside, fan) == #[trigger] ("[id "@ + i + " t="@
                    + t + "] inside: "@ + inside + "  outside: "@ + outside + "  fan: "@
                    + fan_words(fan))
                &&& right_column(i, decimal(id), 6)
                &&& right_column(t, decimal(time), 10)
            },
{
    law_columns(decimal(id), 6);
    law_columns(decimal(time), 10);
    let i = pad_left(decimal(id), 6);
    let t = pad_left(decimal(time), 10);
    assert(record_line(id, time, inside, outside, fan) == "[id "@ + i + " t="@ + t + "] inside: "@
        + inside + "  outside: "@ + outside + "  fan: "@ + fan_words(fan));
}

/// The line of a record shows its id and its time as numbers in columns, then the inside
/// and the outside reading in this order, and whether the fan is on.
pub proof fn law_line_shows_the_record(r: Record)
    ensures
        exists|id: Seq<char>, time: Seq<char>|
            {
                &&& record_text(r) == #[trigger] ("[id "@ + id + " t="@ + time + "] inside: "@
                    + reading_text(r.inside) + "  outside: "@ + reading_text(r.outside)
                    + "  fan: "@ + fan_words(r.fan))
                &&& right_column(id, decimal(r.id as nat), 6)
                &&& right_column(time, decimal(r.time as nat), 10)
            },
        fan_words(true) == "on"@,
        fan_words(false) == "off"@,
{
    law_columns(decimal(r.id as nat), 6);
    law_columns(decimal(r.time as nat), 10);
    let id = pad_left(decimal(r.id as nat), 6);
    let time = pad_left(decimal(r.time as nat), 10);
    assert(record_text(r) == "[id "@ + id + " t="@ + time + "] inside: "@ + reading_text(r.inside)
        + "  outside: "@ + reading_text(r.outside) + "  fan: "@ + fan_words(r.fan));
}

/// The words for the state of the fan.
pub open spec fn fan_words(on: bool) -> Seq<char> {
    if on {
        "on"@
    } else {
        "off"@
    }
}

/// The heading says which ids are fetched: the start, and where there is one the end.
pub proof fn law_heading_says_the_range(start: u64, end: u64)
    ensures
        heading_text(start as nat, None) == "Fetching log from id "@ + decimal(start as nat)
            + "..."@,
        heading_text(start as nat, Some(end)) == "Fetching log range id "@ + decimal(start as nat)
            + "..="@ + decimal(end as nat) + "..."@,
{
}

} // verus!
