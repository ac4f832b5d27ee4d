//! Replaying a journal and recovering from a snapshot.
//!
//! The processor is deterministic, so replaying a journal produces the same
//! reports again; a snapshot and the journal's tail rebuild the same state as
//! the whole journal.

use vstd::prelude::*;

use crate::codec::{fnv, fnv_extend, lemma_fnv_concat, FNV_OFFSET};
use crate::crossing::prepared;
use crate::exchange::{
    admissible, applied, coherent, engine_at, exported, law_export_is_unique,
    law_restore_gives_back_export, restored, resumable, screened, state_views, Command, Engines,
    ExecReport, Processor, Rules, Snapshot, StateView,
};
use crate::fingerprint::state_words;
use crate::journal::{
    journal_of, journal_records, law_journal_round_trip, views, JournalReader, Record, RecordView,
    RECORD_LEN,
};
use crate::order::Order;
use crate::risk::PriceGuard;
use crate::strategy::MatchingStrategy;
use crate::wire::{
    carried, command_frame, command_of, decode_command, encode_report, law_command_round_trip,
    law_frames_tell_reports_apart, law_report_round_trip, lemma_command_len, report_frame, words_le,
    REPORT_LEN,
};

verus! {

/// The encoded report stream.
pub open spec fn report_stream(reports: Seq<ExecReport>) -> Seq<u8>
    decreases reports.len(),
{
    if reports.len() == 0 {
        Seq::empty()
    } else {
        report_stream(reports.drop_last()) + report_frame(reports.last())
    }
}

/// Different reports, or the same in another order, are different streams: equal
/// fingerprints mean identical results, but for a collision of the 64-bit hash.
pub proof fn law_stream_tells_reports_apart(a: Seq<ExecReport>, b: Seq<ExecReport>)
    requires
        report_stream(a) == report_stream(b),
    ensures
        a == b,
    decreases a.len(),
{
    lemma_stream_len(a);
    lemma_stream_len(b);
    if a.len() > 0 {
        let n = REPORT_LEN * (a.len() - 1);
        lemma_stream_len(a.drop_last());
        lemma_stream_len(b.drop_last());
        assert(report_stream(a.drop_last()) =~= report_stream(a).take(n));
        assert(report_stream(b.drop_last()) =~= report_stream(b).take(n));
        assert(report_frame(a.last()) =~= report_stream(a).skip(n));
        assert(report_frame(b.last()) =~= report_stream(b).skip(n));
        law_stream_tells_reports_apart(a.drop_last(), b.drop_last());
        law_frames_tell_reports_apart(a.last(), b.last());
        assert(a =~= a.drop_last().push(a.last()));
        assert(b =~= b.drop_last().push(b.last()));
    }
    assert(a =~= b);
}

proof fn lemma_stream_len(reports: Seq<ExecReport>)
    ensures
        report_stream(reports).len() == REPORT_LEN * reports.len(),
    decreases reports.len(),
{
    if reports.len() > 0 {
        lemma_stream_len(reports.drop_last());
        law_report_round_trip(reports.last());
    }
}

/// FNV-1a fingerprint of a report stream; it depends on the order.
pub fn fingerprint_reports(reports: &[ExecReport]) -> (r: u64)
    ensures
        r == fnv(report_stream(reports@)),
{
    let mut h: u64 = FNV_OFFSET;
    let mut i: usize = 0;
    assert(reports@.take(0) =~= Seq::<ExecReport>::empty());
    while i < reports.len()
        invariant
            i <= reports@.len(),
            h == fnv(report_stream(reports@.take(i as int))),
        decreases reports@.len() - i,
    {
        let frame = encode_report(&reports[i]);
        proof {
            let next = reports@.take(i + 1);
            assert(next.drop_last() =~= reports@.take(i as int));
            lemma_fnv_concat(
                FNV_OFFSET,
                report_stream(reports@.take(i as int)),
                report_frame(reports@[i as int]),
            );
            assert(frame@.subrange(0, REPORT_LEN as int) =~= frame@);
        }
        h = fnv_extend(h, frame.as_slice(), 0, REPORT_LEN);
        i += 1;
    }
    assert(reports@.take(i as int) =~= reports@);
    h
}

/// Where a replay has got to.
pub struct Replay {
    pub engines: Engines,
    pub reports: Seq<ExecReport>,
    pub commands: nat,
}

/// The command that a record replays, unless a snapshot covers it.
pub open spec fn replays(record: RecordView, covered: Option<u64>) -> Option<Command> {
    if covered is Some && record.seq <= covered->0 {
        None
    } else {
        command_of(record.frame)
    }
}

/// The outcome of replaying `records`, or `None` where a command cannot be
/// applied. Records that hold no command are passed over.
pub open spec fn replayed<S: MatchingStrategy>(
    rules: Rules<S>,
    start: Engines,
    records: Seq<RecordView>,
    covered: Option<u64>,
) -> Option<Replay>
    decreases records.len(),
{
    if records.len() == 0 {
        Some(Replay { engines: start, reports: Seq::empty(), commands: 0 })
    } else {
        match replayed(rules, start, records.drop_last(), covered) {
            None => None,
            Some(at) => match replays(records.last(), covered) {
                None => Some(at),
                Some(command) => if admissible(rules, at.engines, command) {
                    let end = applied(rules, at.engines, command);
                    Some(
                        Replay {
                            engines: end.0,
                            reports: at.reports + end.1,
                            commands: at.commands + 1,
                        },
                    )
                } else {
                    None
                },
            },
        }
    }
}

/// The records up to the first one after `limit`.
pub open spec fn until(records: Seq<RecordView>, limit: Option<u64>) -> Seq<RecordView>
    decreases records.len(),
{
    if records.len() == 0 || (limit is Some && records[0].ts_nanos > limit->0) {
        Seq::empty()
    } else {
        seq![records[0]] + until(records.skip(1), limit)
    }
}

/// The outcome of applying commands as they come, or `None` where one cannot be
/// applied.
pub open spec fn lived<S: MatchingStrategy>(
    rules: Rules<S>,
    start: Engines,
    commands: Seq<Command>,
) -> Option<Replay>
    decreases commands.len(),
{
    if commands.len() == 0 {
        Some(Replay { engines: start, reports: Seq::empty(), commands: 0 })
    } else {
        match lived(rules, start, commands.drop_last()) {
            None => None,
            Some(at) => if admissible(rules, at.engines, commands.last()) {
                let end = applied(rules, at.engines, commands.last());
                Some(
                    Replay {
                        engines: end.0,
                        reports: at.reports + end.1,
                        commands: at.commands + 1,
                    },
                )
            } else {
                None
            },
        }
    }
}

/// The books and the answers follow from the commands, step by step: `states[i]` are
/// the books after `i` commands and `reports[i]` is what command `i` was answered.
pub open spec fn follows<S: MatchingStrategy>(
    rules: Rules<S>,
    commands: Seq<Command>,
    states: Seq<Engines>,
    reports: Seq<Seq<ExecReport>>,
) -> bool {
    &&& states.len() == commands.len() + 1
    &&& reports.len() == commands.len()
    &&& forall|i: int|
        0 <= i < commands.len() ==> (states[i + 1], reports[i]) == applied(
            rules,
            states[i],
            #[trigger] commands[i],
        )
}

/// A run: each command may be applied when its turn comes.
pub open spec fn is_run<S: MatchingStrategy>(
    rules: Rules<S>,
    commands: Seq<Command>,
    states: Seq<Engines>,
    reports: Seq<Seq<ExecReport>>,
) -> bool {
    &&& follows(rules, commands, states, reports)
    &&& forall|i: int|
        0 <= i < commands.len() ==> admissible(rules, states[i], #[trigger] commands[i])
}

/// Processor `i` is what a processor was after `i` commands, as `Processor::process`
/// leaves it, and `reports[i]` is what command `i` was answered.
pub open spec fn fed<S: MatchingStrategy + Copy>(
    processors: Seq<Processor<S>>,
    commands: Seq<Command>,
    reports: Seq<Seq<ExecReport>>,
) -> bool {
    &&& processors.len() == commands.len() + 1
    &&& reports.len() == commands.len()
    &&& forall|i: int|
        0 <= i < commands.len() ==> {
            &&& processors[i + 1].rules() == processors[i].rules()
            &&& (processors[i + 1].engines(), reports[i]) == applied(
                processors[i].rules(),
                processors[i].engines(),
                #[trigger] commands[i],
            )
        }
}

/// Two processors with the same rules and the same books that are fed the same
/// commands in the same order give the same reports in the same order, and have the
/// same books and the same fingerprint afterwards.
pub proof fn law_processors_are_deterministic<S: MatchingStrategy + Copy>(
    commands: Seq<Command>,
    a: Seq<Processor<S>>,
    reports_a: Seq<Seq<ExecReport>>,
    b: Seq<Processor<S>>,
    reports_b: Seq<Seq<ExecReport>>,
)
    requires
        fed(a, commands, reports_a),
        fed(b, commands, reports_b),
        a[0].rules() == b[0].rules(),
        a[0].engines() == b[0].engines(),
    ensures
        reports_a == reports_b,
        a.last().rules() == b.last().rules(),
        a.last().engines() == b.last().engines(),
        forall|x: Seq<StateView>, y: Seq<StateView>| #[trigger]
            exported(x, a.last().engines()) && #[trigger] exported(y, b.last().engines()) ==> fnv(
                words_le(state_words(x)),
            ) == fnv(words_le(state_words(y))),
{
    let rules = a[0].rules();
    let states_a = Seq::new(a.len(), |i: int| a[i].engines());
    let states_b = Seq::new(b.len(), |i: int| b[i].engines());
    assert forall|i: int| 0 <= i < a.len() implies #[trigger] a[i].rules() == rules by {
        lemma_rules_stay(a, commands, reports_a, i);
    }
    assert forall|i: int| 0 <= i < b.len() implies #[trigger] b[i].rules() == rules by {
        lemma_rules_stay(b, commands, reports_b, i);
    }
    assert(follows(rules, commands, states_a, reports_a)) by {
        assert forall|i: int| 0 <= i < commands.len() implies (states_a[i + 1], reports_a[i])
            == applied(rules, states_a[i], #[trigger] commands[i]) by {
            assert(a[i].rules() == rules);
        }
    }
    assert(follows(rules, commands, states_b, reports_b)) by {
        assert forall|i: int| 0 <= i < commands.len() implies (states_b[i + 1], reports_b[i])
            == applied(rules, states_b[i], #[trigger] commands[i]) by {
            assert(b[i].rules() == rules);
        }
    }
    law_runs_are_deterministic(rules, commands, states_a, reports_a, states_b, reports_b);
    let n = commands.len() as int;
    assert(a.last() == a[n] && b.last() == b[n]);
    assert(states_a[n] == states_b[n]);
    assert(states_a.last() == a.last().engines() && states_b.last() == b.last().engines());
}

proof fn lemma_rules_stay<S: MatchingStrategy + Copy>(
    processors: Seq<Processor<S>>,
    commands: Seq<Command>,
    reports: Seq<Seq<ExecReport>>,
    i: int,
)
    requires
        fed(processors, commands, reports),
        0 <= i < processors.len(),
    ensures
        processors[i].rules() == processors[0].rules(),
    decreases i,
{
    if i > 0 {
        lemma_rules_stay(processors, commands, reports, i - 1);
        let command = commands[i - 1];
        assert(processors[i - 1 + 1].rules() == processors[i - 1].rules());
    }
}

/// A run ends where its commands lead, and its answers, one after the other, are the
/// reports.
pub proof fn law_run_is_lived<S: MatchingStrategy>(
    rules: Rules<S>,
    commands: Seq<Command>,
    states: Seq<Engines>,
    reports: Seq<Seq<ExecReport>>,
)
    requires
        is_run(rules, commands, states, reports),
    ensures
        lived(rules, states[0], commands) == Some(
            Replay {
                engines: states.last(),
                reports: reports.flatten(),
                commands: commands.len(),
            },
        ),
    decreases commands.len(),
{
    let n = commands.len() as int;
    if n == 0 {
        assert(reports =~= Seq::<Seq<ExecReport>>::empty());
    } else {
        let front = commands.drop_last();
        assert forall|i: int| 0 <= i < front.len() implies ({
            &&& admissible(rules, states.drop_last()[i], #[trigger] front[i])
            &&& (states.drop_last()[i + 1], reports.drop_last()[i]) == applied(
                rules,
                states.drop_last()[i],
                front[i],
            )
        }) by {
            assert(front[i] == commands[i]);
        }
        law_run_is_lived(rules, front, states.drop_last(), reports.drop_last());
        assert(commands[n - 1] == commands.last());
        assert(states.drop_last().last() == states[n - 1]);
        reports.lemma_flatten_and_flatten_alt_are_equivalent();
        reports.drop_last().lemma_flatten_and_flatten_alt_are_equivalent();
    }
}

/// The same commands from the same books, under the same rules, always pass
/// through the same books, give the same reports and end with the same fingerprint.
pub proof fn law_runs_are_deterministic<S: MatchingStrategy>(
    rules: Rules<S>,
    commands: Seq<Command>,
    states_a: Seq<Engines>,
    reports_a: Seq<Seq<ExecReport>>,
    states_b: Seq<Engines>,
    reports_b: Seq<Seq<ExecReport>>,
)
    requires
        follows(rules, commands, states_a, reports_a),
        follows(rules, commands, states_b, reports_b),
        states_a[0] == states_b[0],
    ensures
        states_a == states_b,
        reports_a == reports_b,
        forall|a: Seq<StateView>, b: Seq<StateView>| #[trigger]
            exported(a, states_a.last()) && #[trigger] exported(b, states_b.last()) ==> fnv(
                words_le(state_words(a)),
            ) == fnv(words_le(state_words(b))),
{
    assert forall|i: int| 0 <= i < states_a.len() implies states_a[i] == states_b[i] by {
        lemma_in_step(rules, commands, states_a, reports_a, states_b, reports_b, i);
    }
    assert(states_a =~= states_b);
    assert forall|i: int| 0 <= i < reports_a.len() implies reports_a[i] == reports_b[i] by {
        assert(applied(rules, states_a[i], commands[i]).1 == reports_a[i]);
        assert(applied(rules, states_b[i], commands[i]).1 == reports_b[i]);
    }
    assert(reports_a =~= reports_b);
    assert forall|a: Seq<StateView>, b: Seq<StateView>| #[trigger]
        exported(a, states_a.last()) && #[trigger] exported(b, states_b.last()) implies fnv(
        words_le(state_words(a)),
    ) == fnv(words_le(state_words(b))) by {
        law_export_is_unique(a, b, states_a.last());
    }
}

proof fn lemma_in_step<S: MatchingStrategy>(
    rules: Rules<S>,
    commands: Seq<Command>,
    states_a: Seq<Engines>,
    reports_a: Seq<Seq<ExecReport>>,
    states_b: Seq<Engines>,
    reports_b: Seq<Seq<ExecReport>>,
    i: int,
)
    requires
        follows(rules, commands, states_a, reports_a),
        follows(rules, commands, states_b, reports_b),
        states_a[0] == states_b[0],
        0 <= i < states_a.len(),
    ensures
        states_a[i] == states_b[i],
    decreases i,
{
    if i > 0 {
        lemma_in_step(rules, commands, states_a, reports_a, states_b, reports_b, i - 1);
        let c = commands[i - 1];
        assert(applied(rules, states_a[i - 1], c).0 == states_a[i]);
        assert(applied(rules, states_b[i - 1], c).0 == states_b[i]);
    }
}

/// The records hold the commands, in order.
pub open spec fn journalled(records: Seq<RecordView>, commands: Seq<Command>) -> bool {
    &&& records.len() == commands.len()
    &&& forall|i: int|
        0 <= i < records.len() ==> (#[trigger] records[i]).frame == command_frame(commands[i])
}

/// What a frame does not carry of a command has no effect.
proof fn lemma_carried<S: MatchingStrategy>(rules: Rules<S>, engines: Engines, command: Command)
    ensures
        admissible(rules, engines, carried(command)) == admissible(rules, engines, command),
        applied(rules, engines, carried(command)) == applied(rules, engines, command),
{
    if let Command::New(order) = command {
        let bare = Order { remaining: order.quantity, timestamp: 0, ..order };
        let engine = engine_at(engines, order.instrument);
        let seq = (engine.seq + 1) as u64;
        let a = screened(rules, engine.book, order);
        let b = screened(rules, engine.book, bare);
        assert(a is Ok <==> b is Ok);
        if a is Ok {
            assert(b->Ok_0 == (Order { remaining: order.quantity, timestamp: 0, ..a->Ok_0 }));
            assert(prepared(a->Ok_0, seq) == prepared(b->Ok_0, seq));
        }
    }
}

/// Replaying the journal of a run gives back the run: the same state and the same
/// reports in the same order, whatever was left half-written at its end.
pub proof fn law_replay_equals_live<S: MatchingStrategy>(
    rules: Rules<S>,
    start: Engines,
    commands: Seq<Command>,
    records: Seq<RecordView>,
    torn: Seq<u8>,
)
    requires
        journalled(records, commands),
        torn.len() < RECORD_LEN,
    ensures
        journal_records(journal_of(records) + torn) == Some(records),
        replayed(rules, start, records, None) == lived(rules, start, commands),
{
    assert forall|i: int| 0 <= i < records.len() implies (#[trigger] records[i]).frame.len()
        == crate::wire::MSG_LEN by {
        lemma_command_len(commands[i]);
    }
    law_journal_round_trip(records, torn);
    lemma_replay_equals_live(rules, start, commands, records);
}

proof fn lemma_replay_equals_live<S: MatchingStrategy>(
    rules: Rules<S>,
    start: Engines,
    commands: Seq<Command>,
    records: Seq<RecordView>,
)
    requires
        journalled(records, commands),
    ensures
        replayed(rules, start, records, None) == lived(rules, start, commands),
    decreases records.len(),
{
    if records.len() > 0 {
        let front = commands.drop_last();
        assert(journalled(records.drop_last(), front));
        lemma_replay_equals_live(rules, start, front, records.drop_last());
        assert(records[records.len() - 1].frame == command_frame(commands.last()));
        law_command_round_trip(commands.last());
        if let Some(at) = lived(rules, start, front) {
            lemma_carried(rules, at.engines, commands.last());
        }
    }
}

/// A replay that stops does so for good.
proof fn lemma_stops<S: MatchingStrategy>(
    rules: Rules<S>,
    start: Engines,
    records: Seq<RecordView>,
    covered: Option<u64>,
    n: int,
)
    requires
        0 <= n <= records.len(),
        replayed(rules, start, records.take(n), covered) is None,
    ensures
        replayed(rules, start, records, covered) is None,
    decreases records.len(),
{
    if n == records.len() {
        assert(records.take(n) =~= records);
    } else {
        let front = records.drop_last();
        assert(front.take(n) =~= records.take(n));
        lemma_stops(rules, start, front, covered, n);
    }
}

/// How far a replay gets: the books after the records before the first one that
/// cannot be applied, or after all of them.
pub open spec fn progress<S: MatchingStrategy>(
    rules: Rules<S>,
    start: Engines,
    records: Seq<RecordView>,
    covered: Option<u64>,
) -> Engines
    decreases records.len(),
{
    match replayed(rules, start, records, covered) {
        Some(at) => at.engines,
        None => if records.len() == 0 {
            start
        } else {
            progress(rules, start, records.drop_last(), covered)
        },
    }
}

proof fn lemma_progress<S: MatchingStrategy>(
    rules: Rules<S>,
    start: Engines,
    records: Seq<RecordView>,
    covered: Option<u64>,
    n: int,
)
    requires
        0 <= n < records.len(),
        replayed(rules, start, records.take(n), covered) is Some,
        replayed(rules, start, records.take(n + 1), covered) is None,
    ensures
        progress(rules, start, records, covered) == replayed(
            rules,
            start,
            records.take(n),
            covered,
        )->0.engines,
    decreases records.len(),
{
    reveal_with_fuel(progress, 2);
    lemma_stops(rules, start, records, covered, n + 1);
    let front = records.drop_last();
    if n + 1 < records.len() {
        assert(front.take(n) =~= records.take(n));
        assert(front.take(n + 1) =~= records.take(n + 1));
        lemma_progress(rules, start, front, covered, n);
    } else {
        assert(front =~= records.take(n));
    }
}

/// A snapshot and the records that it does not cover rebuild the state that the
/// whole journal builds, whether or not the covered records are still there.
pub proof fn law_recovery_equals_replay<S: MatchingStrategy>(
    rules: Rules<S>,
    records: Seq<RecordView>,
    n: int,
    seq: u64,
    states: Seq<StateView>,
)
    requires
        0 <= n <= records.len(),
        forall|i: int| 0 <= i < n ==> (#[trigger] records[i]).seq <= seq,
        forall|i: int| n <= i < records.len() ==> (#[trigger] records[i]).seq > seq,
        ({
            let taken = replayed(rules, Map::empty(), records.take(n), None);
            taken is Some && coherent(taken->0.engines) && exported(states, taken->0.engines)
        }),
    ensures
        ({
            let whole = replayed(rules, Map::empty(), records, None);
            let taken = replayed(rules, Map::empty(), records.take(n), None);
            let start = restored(Map::empty(), states);
            let tail = replayed(rules, start, records, Some(seq));
            let rest = replayed(rules, start, records.skip(n), Some(seq));
            &&& tail == rest
            &&& (whole is Some <==> tail is Some)
            &&& whole is Some ==> {
                &&& whole->0.engines == tail->0.engines
                &&& whole->0.reports == taken->0.reports + tail->0.reports
                &&& whole->0.commands == taken->0.commands + tail->0.commands
            }
        }),
    decreases records.len(),
{
    let none = Map::<u32, crate::exchange::EngineView>::empty();
    let taken = replayed(rules, none, records.take(n), None)->0.engines;
    law_restore_gives_back_export(taken, states);
    if records.len() == n {
        assert(records.take(n) =~= records);
        assert(records.skip(n) =~= Seq::<RecordView>::empty());
        lemma_covered(rules, taken, records, seq);
        let reports = replayed(rules, none, records, None)->0.reports;
        assert(reports + Seq::<ExecReport>::empty() =~= reports);
    } else {
        let front = records.drop_last();
        assert(front.take(n) =~= records.take(n));
        assert(front.skip(n) =~= records.skip(n).drop_last());
        assert(records.skip(n).last() == records.last());
        law_recovery_equals_replay(rules, front, n, seq, states);
        assert(replays(records.last(), Some(seq)) == replays(records.last(), None)) by {
            assert(records[records.len() - 1].seq > seq);
        }
        let before = replayed(rules, none, front, None);
        let whole = replayed(rules, none, records, None);
        if whole is Some {
            let early = replayed(rules, none, records.take(n), None)->0.reports;
            let tail = replayed(rules, taken, records, Some(seq))->0.reports;
            assert(whole->0.reports =~= early + tail);
        }
    }
}

/// Crash recovery rebuilds the run: a snapshot of the books after `k` commands and
/// the journal, whole or without the records that the snapshot covers, give the
/// books that the run ended with, and the commands after the first `k` are applied.
pub proof fn law_recovery_rebuilds_the_run<S: MatchingStrategy>(
    rules: Rules<S>,
    commands: Seq<Command>,
    books: Seq<Engines>,
    reports: Seq<Seq<ExecReport>>,
    records: Seq<RecordView>,
    k: int,
    states: Seq<StateView>,
)
    requires
        is_run(rules, commands, books, reports),
        books[0] == Map::<u32, crate::exchange::EngineView>::empty(),
        journalled(records, commands),
        forall|i: int| 0 <= i < records.len() ==> (#[trigger] records[i]).seq == i + 1,
        0 <= k <= commands.len() <= u64::MAX,
        coherent(books[k]),
        exported(states, books[k]),
    ensures
        ({
            let start = restored(Map::empty(), states);
            let whole = replayed(rules, start, records, Some(k as u64));
            let rest = replayed(rules, start, records.skip(k), Some(k as u64));
            &&& whole == rest
            &&& whole is Some
            &&& whole->0.engines == books.last()
            &&& whole->0.reports == reports.skip(k).flatten()
            &&& whole->0.commands == commands.len() - k
        }),
{
    let first = commands.take(k);
    let early = reports.take(k);
    let late = reports.skip(k);
    assert forall|i: int| 0 <= i < first.len() implies ({
        &&& admissible(rules, books.take(k + 1)[i], #[trigger] first[i])
        &&& (books.take(k + 1)[i + 1], early[i]) == applied(rules, books.take(k + 1)[i], first[i])
    }) by {
        assert(first[i] == commands[i]);
    }
    law_run_is_lived(rules, commands, books, reports);
    law_run_is_lived(rules, first, books.take(k + 1), early);
    assert(books.take(k + 1).last() == books[k]);
    assert(journalled(records.take(k), first));
    lemma_replay_equals_live(rules, books[0], commands, records);
    lemma_replay_equals_live(rules, books[0], first, records.take(k));
    law_recovery_equals_replay(rules, records, k, k as u64, states);
    assert(reports =~= early + late);
    vstd::seq_lib::lemma_flatten_concat(early, late);
    let tail = replayed(rules, restored(Map::empty(), states), records, Some(k as u64))->0;
    assert(tail.reports =~= (early.flatten() + tail.reports).skip(early.flatten().len() as int));
    assert(late.flatten() =~= (early.flatten() + late.flatten()).skip(
        early.flatten().len() as int,
    ));
}

proof fn lemma_covered<S: MatchingStrategy>(
    rules: Rules<S>,
    start: Engines,
    records: Seq<RecordView>,
    seq: u64,
)
    requires
        forall|i: int| 0 <= i < records.len() ==> (#[trigger] records[i]).seq <= seq,
    ensures
        replayed(rules, start, records, Some(seq)) == Some(
            Replay { engines: start, reports: Seq::empty(), commands: 0 },
        ),
    decreases records.len(),
{
    if records.len() > 0 {
        lemma_covered(rules, start, records.drop_last(), seq);
        assert(records[records.len() - 1].seq <= seq);
    }
}

/// Why a replay failed.
#[derive(Clone, Copy, Debug, PartialEq, Eq, Structural)]
pub enum ReplayError {
    /// The journal is of another format.
    Format,
    /// The journal holds a command that cannot be applied.
    Refused,
}

/// Applies the commands of the first `n` records that are not covered; the
/// reports are appended to `out`. Returns the number applied, or `None` at the
/// first command that cannot be applied.
fn replay_records<S: MatchingStrategy + Copy>(
    processor: &mut Processor<S>,
    records: &Vec<Record>,
    n: usize,
    covered: Option<u64>,
    out: &mut Vec<ExecReport>,
) -> (r: Option<u64>)
    requires
        old(processor).wf(),
        n <= records@.len(),
    ensures
        final(processor).wf(),
        final(processor).rules() == old(processor).rules(),
        ({
            let end = replayed(
                old(processor).rules(),
                old(processor).engines(),
                views(records@).take(n as int),
                covered,
            );
            match r {
                Some(commands) => {
                    &&& end is Some
                    &&& commands == end->0.commands
                    &&& final(processor).engines() == end->0.engines
                    &&& final(out)@ == old(out)@ + end->0.reports
                },
                None => {
                    &&& end is None
                    &&& final(processor).engines() == progress(
                        old(processor).rules(),
                        old(processor).engines(),
                        views(records@).take(n as int),
                        covered,
                    )
                },
            }
        }),
{
    let ghost rules = processor.rules();
    let ghost start = processor.engines();
    let ghost all = views(records@).take(n as int);
    let mut commands: u64 = 0;
    let mut i: usize = 0;
    assert(all.take(0) =~= Seq::<RecordView>::empty());
    assert(out@.skip(out@.len() as int) =~= Seq::<ExecReport>::empty());
    assert(out@.take(out@.len() as int) =~= out@);
    while i < n
        invariant
            i <= n <= records@.len(),
            commands <= i,
            all == views(records@).take(n as int),
            processor.wf(),
            processor.rules() == rules,
            rules == old(processor).rules(),
            start == old(processor).engines(),
            replayed(rules, start, all.take(i as int), covered) == Some(
                Replay {
                    engines: processor.engines(),
                    reports: out@.skip(old(out)@.len() as int),
                    commands: commands as nat,
                },
            ),
            out@.len() >= old(out)@.len(),
            out@.take(old(out)@.len() as int) == old(out)@,
        decreases n - i,
    {
        let record = &records[i];
        let ghost was = out@;
        let ghost base = old(out)@.len() as int;
        let ghost next = all.take(i + 1);
        proof {
            assert(next.drop_last() =~= all.take(i as int));
            assert(next.last() == record@);
        }
        let skip: bool = match covered {
            Some(seq) => record.seq <= seq,
            None => false,
        };
        if !skip {
            if let Some(command) = decode_command(record.frame.as_slice()) {
                if !processor.accepts(&command) {
                    proof {
                        assert(replayed(rules, start, next, covered) is None);
                        lemma_stops(rules, start, all, covered, i + 1);
                        lemma_progress(rules, start, all, covered, i as int);
                    }
                    return None;
                }
                let ghost added = applied(rules, processor.engines(), command).1;
                processor.process(command, out);
                commands += 1;
                proof {
                    assert(out@.skip(base) =~= was.skip(base) + added);
                    assert(out@.take(base) =~= was.take(base));
                }
            }
        }
        i += 1;
    }
    proof {
        assert(all.take(i as int) =~= all);
        let base = old(out)@.len() as int;
        assert(out@ =~= out@.take(base) + out@.skip(base));
    }
    Some(commands)
}

/// The outcome of replaying one journal.
pub struct ReplaySummary<S: MatchingStrategy + Copy> {
    /// Commands applied.
    pub commands: u64,
    /// Every report emitted, in order.
    pub reports: Vec<ExecReport>,
    /// Fingerprint of the report stream.
    pub fingerprint: u64,
    /// The rebuilt processor.
    pub processor: Processor<S>,
}

/// How many records there are before the first one after `limit`.
fn count_until(records: &Vec<Record>, limit: Option<u64>) -> (n: usize)
    ensures
        n <= records@.len(),
        views(records@).take(n as int) == until(views(records@), limit),
{
    let ghost all = views(records@);
    let mut n: usize = 0;
    proof {
        assert(all.skip(0) =~= all);
        assert(all.take(0) + until(all, limit) =~= until(all, limit));
    }
    while n < records.len()
        invariant
            n <= records@.len(),
            all == views(records@),
            all.take(n as int) + until(all.skip(n as int), limit) == until(all, limit),
        decreases records@.len() - n,
    {
        assert(all.skip(n as int)[0] == records@[n as int]@);
        if let Some(limit) = limit {
            if records[n].ts_nanos > limit {
                assert(all.take(n as int) + Seq::<RecordView>::empty() =~= all.take(n as int));
                return n;
            }
        }
        proof {
            let rest = all.skip(n as int);
            assert(rest.skip(1) =~= all.skip(n + 1));
            assert(all.take(n as int) + (seq![rest[0]] + until(rest.skip(1), limit)) =~= all.take(
                n + 1,
            ) + until(all.skip(n + 1), limit));
        }
        n += 1;
    }
    proof {
        assert(all.skip(n as int) =~= Seq::<RecordView>::empty());
        assert(all.take(n as int) + Seq::<RecordView>::empty() =~= all.take(n as int));
    }
    n
}

/// The rules of a replay: no limits, no fees, self-trades allowed.
pub open spec fn replay_rules<S>(strategy: S, guard: Option<PriceGuard>) -> Rules<S> {
    Rules {
        strategy,
        stp: crate::crossing::SelfTradePolicy::Allow,
        fees: crate::fees::FeeSchedule { maker_bps: 0, taker_bps: 0 },
        limits: None,
        guard,
    }
}

/// Replays the content of a journal through a fresh processor; records after
/// `until_ts` (nanoseconds since the epoch) are ignored.
pub fn replay_journal<S: MatchingStrategy + Copy>(
    journal: &[u8],
    strategy: S,
    guard: Option<PriceGuard>,
    until_ts: Option<u64>,
) -> (r: Result<ReplaySummary<S>, ReplayError>)
    ensures
        match journal_records(journal@) {
            None => r matches Err(ReplayError::Format),
            Some(records) => {
                let end = replayed(
                    replay_rules(strategy, guard),
                    Map::empty(),
                    until(records, until_ts),
                    None,
                );
                match r {
                    Ok(summary) => {
                        &&& end is Some
                        &&& summary.commands == end->0.commands
                        &&& summary.reports@ == end->0.reports
                        &&& summary.fingerprint == fnv(report_stream(end->0.reports))
                        &&& summary.processor.wf()
                        &&& summary.processor.rules() == replay_rules(strategy, guard)
                        &&& summary.processor.engines() == end->0.engines
                    },
                    Err(error) => error is Refused && end is None,
                }
            },
        },
{
    let reader = match JournalReader::open(journal) {
        Some(reader) => reader,
        None => {
            return Err(ReplayError::Format);
        },
    };
    let mut processor = Processor::new(strategy, guard);
    let mut reports: Vec<ExecReport> = Vec::new();
    let n: usize = count_until(reader.records(), until_ts);
    match replay_records(&mut processor, reader.records(), n, None, &mut reports) {
        Some(commands) => {
            proof {
                let end = replayed(
                    replay_rules(strategy, guard),
                    Map::empty(),
                    until(reader.content(), until_ts),
                    None,
                );
                assert(Seq::<ExecReport>::empty() + end->0.reports =~= end->0.reports);
            }
            let fingerprint: u64 = fingerprint_reports(reports.as_slice());
            Ok(ReplaySummary { commands, reports, fingerprint, processor })
        },
        None => Err(ReplayError::Refused),
    }
}

/// Crash recovery: restores the snapshot, if there is one, then applies the
/// journal records that it does not cover. The reports were delivered before the
/// crash and are dropped. Returns the number of commands applied. Where a command
/// cannot be applied, those before it stay applied.
pub fn recover_into<S: MatchingStrategy + Copy>(
    processor: &mut Processor<S>,
    snapshot: Option<&Snapshot>,
    journal: Option<&[u8]>,
) -> (r: Result<u64, ReplayError>)
    requires
        old(processor).wf(),
        snapshot is Some ==> resumable(
            old(processor).engines(),
            state_views(snapshot->0.engines@),
        ),
    ensures
        final(processor).wf(),
        final(processor).rules() == old(processor).rules(),
        ({
            let start = match snapshot {
                Some(snapshot) => restored(
                    old(processor).engines(),
                    state_views(snapshot.engines@),
                ),
                None => old(processor).engines(),
            };
            let covered = match snapshot {
                Some(snapshot) => snapshot.journal_seq,
                None => 0,
            };
            match journal {
                None => r == Ok::<u64, ReplayError>(0) && final(processor).engines() == start,
                Some(bytes) => match journal_records(bytes@) {
                    None => r matches Err(ReplayError::Format) && final(processor).engines()
                        == start,
                    Some(records) => {
                        let end = replayed(old(processor).rules(), start, records, Some(covered));
                        match r {
                            Ok(applied) => {
                                &&& end is Some
                                &&& applied == end->0.commands
                                &&& final(processor).engines() == end->0.engines
                            },
                            Err(error) => {
                                &&& error is Refused
                                &&& end is None
                                &&& final(processor).engines() == progress(
                                    old(processor).rules(),
                                    start,
                                    records,
                                    Some(covered),
                                )
                            },
                        }
                    },
                },
            }
        }),
{
    let mut covered: u64 = 0;
    if let Some(snapshot) = snapshot {
        processor.restore_state(snapshot);
        covered = snapshot.journal_seq;
    }
    let bytes = match journal {
        Some(bytes) => bytes,
        None => {
            return Ok(0);
        },
    };
    let reader = match JournalReader::open(bytes) {
        Some(reader) => reader,
        None => {
            return Err(ReplayError::Format);
        },
    };
    let mut dropped: Vec<ExecReport> = Vec::new();
    let records = reader.records();
    assert(views(records@).take(records@.len() as int) =~= views(records@));
    match replay_records(processor, records, records.len(), Some(covered), &mut dropped) {
        Some(applied) => Ok(applied),
        None => Err(ReplayError::Refused),
    }
}

/// A replay up to a time takes the records from the first one on, all of them not after that
/// time, and stops only at the end or before a record that is after it.
pub proof fn law_replay_stops_at_the_time(records: Seq<RecordView>, limit: u64)
    ensures
        ({
            let taken = until(records, Some(limit));
            let n = taken.len() as int;
            &&& n <= records.len()
            &&& taken == records.take(n)
            &&& forall|i: int| 0 <= i < n ==> (#[trigger] records[i]).ts_nanos <= limit
            &&& n < records.len() ==> records[n].ts_nanos > limit
        }),
        until(records, None) == records,
    decreases records.len(),
{
    let taken = until(records, Some(limit));
    if records.len() == 0 {
        assert(taken =~= records.take(0));
        assert(until(records, None) =~= records);
    } else {
        let rest = records.skip(1);
        law_replay_stops_at_the_time(rest, limit);
        assert(until(records, None) =~= records);
        if records[0].ts_nanos <= limit {
            let m = until(rest, Some(limit)).len() as int;
            assert(taken =~= records.take(m + 1));
            assert forall|i: int| 0 <= i < m + 1 implies (#[trigger] records[i]).ts_nanos
                <= limit by {
                if i > 0 {
                    assert(records[i] == rest[i - 1]);
                }
            }
            if m + 1 < records.len() {
                assert(records[m + 1] == rest[m]);
            }
        } else {
            assert(taken =~= records.take(0));
        }
    }
}

/// A record that a snapshot covers is passed over, and no other one that holds a command.
pub proof fn law_covered_records_are_passed_over(record: RecordView, covered: u64)
    ensures
        record.seq <= covered ==> replays(record, Some(covered)) is None,
        record.seq > covered ==> replays(record, Some(covered)) == command_of(record.frame),
        replays(record, None) == command_of(record.frame),
{
}

} // verus!
