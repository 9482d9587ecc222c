//! The collector: what it is configured with, what it reports, and what it decides between reads,
//! writes and waits.

use vstd::prelude::*;
use vstd::string::*;
use vstd::utf8;

use crate::announce;
use crate::announce::{load_named, Announce, AnnounceView};
use crate::error::{CaptureError, ErrorView};
use crate::event;
use crate::event::validate_db_name;
use crate::model;
use crate::number;
use crate::number::{parse_i32, parse_u32};
use crate::outbox::{DrainRun, DrainView};
use crate::text;
use crate::text::trim;

verus! {

/// `std::path::PathBuf`, which is only carried.
#[verifier::external_type_specification]
#[verifier::external_body]
pub struct ExPathBuf(std::path::PathBuf);

/// The configuration of the collector.
#[derive(Debug)]
pub struct CollectCfg {
    pub announce_dir: std::path::PathBuf,
    pub spool_dir: std::path::PathBuf,
    pub sock: std::path::PathBuf,
    /// Nanoseconds between two rounds over all announced databases.
    pub tick: u128,
    /// Snapshot only this announced database; all of them when absent.
    pub snapshot_db: Option<String>,
    /// Floor for the sequence numbers that a snapshot reserves.
    pub min_seq: Option<i64>,
}

/// What was spooled of one database.
#[derive(Debug, Default, Clone, PartialEq, Eq)]
pub struct DrainStats {
    pub src_db: String,
    pub rows: usize,
    pub seq_lo: Option<i64>,
    pub seq_hi: Option<i64>,
}

/// What was spooled of one database, with its name as a character sequence.
pub struct DrainStatsView {
    pub src_db: Seq<char>,
    pub rows: nat,
    pub seq_lo: Option<i64>,
    pub seq_hi: Option<i64>,
}

impl View for DrainStats {
    type V = DrainStatsView;

    open spec fn view(&self) -> DrainStatsView {
        DrainStatsView {
            src_db: self.src_db@,
            rows: self.rows as nat,
            seq_lo: self.seq_lo,
            seq_hi: self.seq_hi,
        }
    }
}

/// Accepts a database to open: one with a valid name whose sqlite file is there.
pub fn open_sqlite(src_db: &str, sqlite_path: &str, is_file: bool) -> (r: Result<(), CaptureError>)
    ensures
        match r {
            Ok(_) => event::valid_db_name(src_db@) && is_file,
            Err(e) => e@ == (if !event::valid_db_name(src_db@) {
                ErrorView::DbName { name: src_db@ }
            } else {
                ErrorView::SqliteMissing { path: sqlite_path@ }
            }) && !(event::valid_db_name(src_db@) && is_file),
        },
{
    match validate_db_name(src_db) {
        Err(e) => Err(e),
        Ok(_) => if is_file {
            Ok(())
        } else {
            Err(CaptureError::SqliteMissing { path: sqlite_path.to_owned() })
        },
    }
}

/// Starts the drain of an opened database; one without an `_outbox` has nothing to drain.
pub fn drain_sqlite(src_db: &str, has_outbox: bool) -> (r: Option<DrainRun>)
    ensures
        r is Some <==> has_outbox,
        r matches Some(run) ==> run@ == DrainView::start(src_db@) && run@.well_formed(),
{
    if has_outbox {
        Some(DrainRun::new(src_db))
    } else {
        None
    }
}

/// The database to drain on a wake for `db_name`, by what its announce file holds; nothing where
/// nobody announced it.
pub fn drain_named(db_name: &str, file: &str, found: Option<Announce>) -> (r: Result<Option<Announce>, CaptureError>)
    ensures
        announce::announce_view(r) == announce::named(db_name@, file@, model::option_view(found)),
{
    load_named(db_name, file, found)
}

/// What a round over all announced databases does with each.
#[derive(Debug, Clone, Copy, PartialEq, Eq, Structural)]
pub enum Round {
    Drain,
    Snapshot,
}

/// What came of one database.
#[derive(Debug, Clone, PartialEq, Eq)]
pub enum Outcome {
    Spooled(DrainStats),
    Nothing,
    Failed,
}

/// What came of one database, with its report by its view.
pub enum OutcomeView {
    Spooled(DrainStatsView),
    Nothing,
    Failed,
}

impl View for Outcome {
    type V = OutcomeView;

    open spec fn view(&self) -> OutcomeView {
        match *self {
            Outcome::Spooled(stats) => OutcomeView::Spooled(stats@),
            Outcome::Nothing => OutcomeView::Nothing,
            Outcome::Failed => OutcomeView::Failed,
        }
    }
}

/// A round over all announced databases.
pub struct Sweep {
    round: Round,
    names: Vec<String>,
    at: usize,
    stats: Vec<DrainStats>,
    failed: Vec<String>,
}

/// The state of a round over all announced databases.
#[verifier::ext_equal]
pub struct SweepView {
    pub round: Round,
    pub names: Seq<Seq<char>>,
    /// How many databases are done.
    pub at: nat,
    /// The reports of those of which something was spooled.
    pub stats: Seq<DrainStatsView>,
    /// The names of those that failed.
    pub failed: Seq<Seq<char>>,
}

impl SweepView {
    /// A round that has not started.
    pub open spec fn start(round: Round, announced: Seq<AnnounceView>) -> SweepView {
        SweepView {
            round,
            names: announced.map_values(|a: AnnounceView| a.db_name),
            at: 0,
            stats: seq![],
            failed: seq![],
        }
    }

    /// The database to take next.
    pub open spec fn next(self) -> Option<Seq<char>> {
        if self.at < self.names.len() {
            Some(self.names[self.at as int])
        } else {
            None
        }
    }

    /// The database at hand is done. A failure is noted, and the round goes on.
    pub open spec fn settled(self, outcome: OutcomeView) -> SweepView {
        SweepView {
            at: self.at + 1,
            stats: match outcome {
                OutcomeView::Spooled(stats) => self.stats.push(stats),
                _ => self.stats,
            },
            failed: match outcome {
                OutcomeView::Failed => self.failed.push(self.names[self.at as int]),
                _ => self.failed,
            },
            ..self
        }
    }

    /// How the round ends: with all reports where no database failed, else with the names of those
    /// that did.
    pub open spec fn end(self) -> Result<Seq<DrainStatsView>, ErrorView> {
        if self.failed.len() == 0 {
            Ok(self.stats)
        } else {
            match self.round {
                Round::Drain => Err(ErrorView::DrainFailed { names: self.failed }),
                Round::Snapshot => Err(ErrorView::SnapshotFailed { names: self.failed }),
            }
        }
    }
}

impl View for Sweep {
    type V = SweepView;

    closed spec fn view(&self) -> SweepView {
        SweepView {
            round: self.round,
            names: model::views(self.names@),
            at: self.at as nat,
            stats: model::views(self.stats@),
            failed: model::views(self.failed@),
        }
    }
}

/// Reports or a refusal, by their views.
pub open spec fn reports_view(r: Result<Vec<DrainStats>, CaptureError>) -> Result<Seq<DrainStatsView>, ErrorView> {
    match r {
        Ok(stats) => Ok(model::views(stats@)),
        Err(e) => Err(e@),
    }
}

impl Sweep {
    /// A round over the announced databases.
    pub fn new(round: Round, announced: Vec<Announce>) -> (r: Sweep)
        ensures
            r@ == SweepView::start(round, model::views(announced@)),
    {
        let ghost all = model::views(announced@);
        let mut names: Vec<String> = Vec::new();
        let ghost mut n: int = 0;
        for a in it: announced
            invariant
                it.seq() == announced@,
                n == it.index(),
                all == model::views(announced@),
                names@.len() == n,
                forall|i: int| 0 <= i < n ==> (#[trigger] names@[i])@ == all[i].db_name,
        {
            names.push(a.db_name);
            proof {
                n = n + 1;
            }
        }
        let r = Sweep { round, names, at: 0, stats: Vec::new(), failed: Vec::new() };
        assert(r@ =~= SweepView::start(round, all));
        r
    }

    /// The database to take next.
    pub fn next(&self) -> (r: Option<&str>)
        ensures
            match r {
                Some(name) => self@.next() == Some(name@),
                None => self@.next() is None,
            },
    {
        if self.at < self.names.len() {
            Some(self.names[self.at].as_str())
        } else {
            None
        }
    }

    /// Takes in what came of the database at hand.
    pub fn settled(&mut self, outcome: Outcome)
        requires
            old(self)@.next() is Some,
        ensures
            final(self)@ == old(self)@.settled(outcome@),
    {
        let ghost before = self@;
        assert(self.at < self.names.len());
        match outcome {
            Outcome::Spooled(stats) => self.stats.push(stats),
            Outcome::Nothing => {},
            Outcome::Failed => self.failed.push(self.names[self.at].clone()),
        }
        self.at = self.at + 1;
        assert(self@ =~= before.settled(outcome@));
    }

    /// How the round ends.
    pub fn finish(self) -> (r: Result<Vec<DrainStats>, CaptureError>)
        ensures
            reports_view(r) == self@.end(),
    {
        if self.failed.len() == 0 {
            Ok(self.stats)
        } else {
            match self.round {
                Round::Drain => Err(CaptureError::DrainFailed { names: self.failed }),
                Round::Snapshot => Err(CaptureError::SnapshotFailed { names: self.failed }),
            }
        }
    }
}

/// Starts a round that drains all announced databases.
pub fn drain_all(announced: Vec<Announce>) -> (r: Sweep)
    ensures
        r@ == SweepView::start(Round::Drain, model::views(announced@)),
{
    Sweep::new(Round::Drain, announced)
}

/// The state of a round after some outcomes.
pub open spec fn swept(state: SweepView, outcomes: Seq<OutcomeView>) -> SweepView
    decreases outcomes.len(),
{
    if outcomes.len() == 0 {
        state
    } else {
        swept(state, outcomes.drop_last()).settled(outcomes.last())
    }
}

/// The reports among outcomes.
pub open spec fn reports_of(outcomes: Seq<OutcomeView>) -> Seq<DrainStatsView>
    decreases outcomes.len(),
{
    if outcomes.len() == 0 {
        seq![]
    } else {
        match outcomes.last() {
            OutcomeView::Spooled(stats) => reports_of(outcomes.drop_last()).push(stats),
            _ => reports_of(outcomes.drop_last()),
        }
    }
}

/// The names of the databases whose outcome is a failure.
pub open spec fn failures_of(names: Seq<Seq<char>>, outcomes: Seq<OutcomeView>) -> Seq<Seq<char>>
    decreases outcomes.len(),
{
    if outcomes.len() == 0 {
        seq![]
    } else {
        match outcomes.last() {
            OutcomeView::Failed => failures_of(names, outcomes.drop_last()).push(names[outcomes.len() - 1]),
            _ => failures_of(names, outcomes.drop_last()),
        }
    }
}

proof fn lemma_swept(state: SweepView, outcomes: Seq<OutcomeView>)
    requires
        state.at == 0,
        state.stats.len() == 0,
        state.failed.len() == 0,
    ensures
        swept(state, outcomes).round == state.round,
        swept(state, outcomes).names == state.names,
        swept(state, outcomes).at == outcomes.len(),
        swept(state, outcomes).stats == reports_of(outcomes),
        swept(state, outcomes).failed == failures_of(state.names, outcomes),
    decreases outcomes.len(),
{
    if outcomes.len() > 0 {
        lemma_swept(state, outcomes.drop_last());
    }
}

/// A round takes every announced database in turn, whatever comes of the ones before: after some
/// outcomes it asks for the next one, until there is none. It succeeds, with the reports in their
/// order, exactly when none failed; else it names those that did, in their order.
pub proof fn round_attempts_every_database(round: Round, announced: Seq<AnnounceView>, outcomes: Seq<OutcomeView>)
    requires
        outcomes.len() <= announced.len(),
    ensures
        ({
            let names = announced.map_values(|a: AnnounceView| a.db_name);
            let state = swept(SweepView::start(round, announced), outcomes);
            let failed = failures_of(names, outcomes);
            &&& state.next() == (if outcomes.len() < announced.len() {
                Some(announced[outcomes.len() as int].db_name)
            } else {
                None
            })
            &&& state.end() == (if failed.len() == 0 {
                Ok(reports_of(outcomes))
            } else {
                match round {
                    Round::Drain => Err(ErrorView::DrainFailed { names: failed }),
                    Round::Snapshot => Err(ErrorView::SnapshotFailed { names: failed }),
                }
            })
        }),
{
    lemma_swept(SweepView::start(round, announced), outcomes);
}

/// What the collector learns while it serves.
#[derive(Debug, Clone, PartialEq, Eq)]
pub enum ServeEvent {
    /// It listens.
    Started,
    /// The nanoseconds since the last round over all databases, if there was one.
    Clock(Option<u128>),
    /// The round over all databases is over, whatever came of it.
    AllDrained,
    /// A datagram came.
    Datagram(Vec<u8>),
    /// No datagram came for a while.
    Quiet,
    /// The database that was asked for is drained, whatever came of it.
    NamedDrained,
    /// The socket failed.
    Broken,
}

/// What the collector does next while it serves.
#[derive(Debug, Clone, PartialEq, Eq)]
pub enum ServeStep {
    /// Look at the clock.
    Clock,
    /// Drain all announced databases.
    DrainAll,
    /// Wait for a datagram.
    Receive,
    /// Drain the database with this name.
    DrainNamed(String),
    /// Stop with the failure of the socket.
    Stop,
}

/// What the collector does next, with a name as a character sequence.
pub enum ServeStepView {
    Clock,
    DrainAll,
    Receive,
    DrainNamed(Seq<char>),
    Stop,
}

impl View for ServeStep {
    type V = ServeStepView;

    open spec fn view(&self) -> ServeStepView {
        match *self {
            ServeStep::Clock => ServeStepView::Clock,
            ServeStep::DrainAll => ServeStepView::DrainAll,
            ServeStep::Receive => ServeStepView::Receive,
            ServeStep::DrainNamed(name) => ServeStepView::DrainNamed(name@),
            ServeStep::Stop => ServeStepView::Stop,
        }
    }
}

/// The name that a datagram asks for: its text without white space at the ends, and nothing where it
/// holds no text.
pub open spec fn nudged_name(datagram: Seq<u8>) -> Seq<char> {
    if utf8::valid_utf8(datagram) {
        text::trimmed(utf8::decode_utf8(datagram))
    } else {
        seq![]
    }
}

/// What the collector does next. A round over all databases is due at the start and whenever `tick`
/// nanoseconds have passed; between rounds each datagram that names a database has it drained. Only a
/// failure of the socket stops it.
pub open spec fn serve_step(tick: u128, event: ServeEvent) -> ServeStepView {
    match event {
        ServeEvent::Started => ServeStepView::Clock,
        ServeEvent::Clock(None) => ServeStepView::DrainAll,
        ServeEvent::Clock(Some(elapsed)) => if elapsed >= tick {
            ServeStepView::DrainAll
        } else {
            ServeStepView::Receive
        },
        ServeEvent::AllDrained => ServeStepView::Receive,
        ServeEvent::Datagram(bytes) => {
            let name = nudged_name(bytes@);
            if name.len() == 0 {
                ServeStepView::Clock
            } else {
                ServeStepView::DrainNamed(name)
            }
        },
        ServeEvent::Quiet => ServeStepView::Clock,
        ServeEvent::NamedDrained => ServeStepView::Clock,
        ServeEvent::Broken => ServeStepView::Stop,
    }
}

/// The name that a datagram asks for.
pub fn nudge_name(datagram: &Vec<u8>) -> (r: String)
    ensures
        r@ == nudged_name(datagram@),
{
    match std::str::from_utf8(datagram.as_slice()) {
        Ok(s) => {
            proof {
                utf8::encode_utf8_decode_utf8(s@);
            }
            trim(s)
        },
        Err(_) => {
            let r = String::new();
            assert(r@ =~= seq![]);
            r
        },
    }
}

/// What the collector does next.
pub fn serve(cfg: &CollectCfg, event: ServeEvent) -> (r: ServeStep)
    ensures
        r@ == serve_step(cfg.tick, event),
{
    match event {
        ServeEvent::Started => ServeStep::Clock,
        ServeEvent::Clock(since) => match since {
            None => ServeStep::DrainAll,
            Some(elapsed) => if elapsed >= cfg.tick {
                ServeStep::DrainAll
            } else {
                ServeStep::Receive
            },
        },
        ServeEvent::AllDrained => ServeStep::Receive,
        ServeEvent::Datagram(bytes) => {
            let name = nudge_name(&bytes);
            if name.as_str().is_empty() {
                ServeStep::Clock
            } else {
                ServeStep::DrainNamed(name)
            }
        },
        ServeEvent::Quiet => ServeStep::Clock,
        ServeEvent::NamedDrained => ServeStep::Clock,
        ServeEvent::Broken => ServeStep::Stop,
    }
}

/// The collector stops only where its socket fails: no failing drain and no datagram stops it.
pub proof fn serve_stops_only_on_a_broken_socket(tick: u128, event: ServeEvent)
    ensures
        serve_step(tick, event) is Stop <==> event is Broken,
{
}

/// What the service manager says in the environment about passed descriptors.
#[derive(Debug, Clone, Copy, PartialEq, Eq, Structural)]
pub enum PassedSocket {
    /// It passed none.
    Absent,
    /// It does not say for which process.
    OwnerUnset,
    /// It passed one to another process.
    OtherOwner { owner: u32 },
    /// It passed one to this process, under this descriptor.
    Descriptor { fd: i32 },
}

/// What the service manager says: the number of descriptors, and the process they are for.
pub open spec fn passed_to(listen_fds: Option<Seq<char>>, listen_pid: Option<Seq<char>>, pid: u32) -> PassedSocket {
    let fds = match listen_fds {
        Some(s) => number::i32_value(utf8::encode_utf8(s)),
        None => None,
    };
    let owner = match listen_pid {
        Some(s) => number::u32_value(utf8::encode_utf8(s)),
        None => None,
    };
    match fds {
        Some(n) => if n < 1 {
            PassedSocket::Absent
        } else {
            match owner {
                None => PassedSocket::OwnerUnset,
                Some(owner) => if owner == pid {
                    PassedSocket::Descriptor { fd: 3 }
                } else {
                    PassedSocket::OtherOwner { owner }
                },
            }
        },
        None => PassedSocket::Absent,
    }
}

/// What the service manager says in the environment about passed descriptors.
pub fn passed_socket(listen_fds: &Option<String>, listen_pid: &Option<String>, pid: u32) -> (r: PassedSocket)
    ensures
        r == passed_to(model::option_view(*listen_fds), model::option_view(*listen_pid), pid),
{
    let fds: Option<i32> = match listen_fds {
        None => None,
        Some(s) => parse_i32(s.as_str().as_bytes()),
    };
    match fds {
        None => return PassedSocket::Absent,
        Some(n) => if n < 1 {
            return PassedSocket::Absent;
        },
    }
    let owner: Option<u32> = match listen_pid {
        None => None,
        Some(s) => parse_u32(s.as_str().as_bytes()),
    };
    match owner {
        None => PassedSocket::OwnerUnset,
        Some(owner) => if owner == pid {
            PassedSocket::Descriptor { fd: 3 }
        } else {
            PassedSocket::OtherOwner { owner }
        },
    }
}

/// The descriptor that the service manager passed to this process, if it passed one.
pub fn systemd_listen_fd(listen_fds: &Option<String>, listen_pid: &Option<String>, pid: u32) -> (r: Option<i32>)
    ensures
        r == (match passed_to(model::option_view(*listen_fds), model::option_view(*listen_pid), pid) {
            PassedSocket::Descriptor { fd } => Some(fd),
            _ => None,
        }),
{
    match passed_socket(listen_fds, listen_pid, pid) {
        PassedSocket::Descriptor { fd } => Some(fd),
        _ => None,
    }
}

/// A datagram that holds the name of a database, alone or with white space around it, has exactly that
/// database drained.
pub proof fn a_named_database_is_drained(
    tick: u128,
    before: Seq<char>,
    name: Seq<char>,
    behind: Seq<char>,
    datagram: Vec<u8>,
)
    requires
        forall|i: int| 0 <= i < before.len() ==> text::is_space(#[trigger] before[i]),
        forall|i: int| 0 <= i < behind.len() ==> text::is_space(#[trigger] behind[i]),
        event::valid_db_name(name),
        datagram@ == utf8::encode_utf8(before + name + behind),
    ensures
        serve_step(tick, ServeEvent::Datagram(datagram)) == ServeStepView::DrainNamed(name),
{
    let whole = before + name + behind;
    event::db_names_by_their_characters(name);
    let first = name[0];
    let last = name[name.len() - 1];
    text::trimming_takes_the_white_space_around(before, name, behind);
    utf8::encode_utf8_valid_utf8(whole);
    utf8::encode_utf8_decode_utf8(whole);
}

/// Any text that a datagram holds is taken without the white space around it, and drained under what is
/// left. A datagram that holds nothing else, or no text at all, has nothing drained.
pub proof fn a_datagram_is_taken_by_its_text(
    tick: u128,
    before: Seq<char>,
    name: Seq<char>,
    behind: Seq<char>,
    datagram: Vec<u8>,
)
    requires
        forall|i: int| 0 <= i < before.len() ==> text::is_space(#[trigger] before[i]),
        forall|i: int| 0 <= i < behind.len() ==> text::is_space(#[trigger] behind[i]),
        name.len() > 0 ==> !text::is_space(name[0]) && !text::is_space(name.last()),
    ensures
        datagram@ == utf8::encode_utf8(before + name + behind) ==> serve_step(tick, ServeEvent::Datagram(datagram)) == (
        if name.len() == 0 {
            ServeStepView::Clock
        } else {
            ServeStepView::DrainNamed(name)
        }),
        datagram@ == utf8::encode_utf8(before + name + behind) ==> nudged_name(datagram@) == name,
        !utf8::valid_utf8(datagram@) ==> serve_step(tick, ServeEvent::Datagram(datagram)) == ServeStepView::Clock,
{
    let whole = before + name + behind;
    text::trimming_takes_the_white_space_around(before, name, behind);
    utf8::encode_utf8_valid_utf8(whole);
    utf8::encode_utf8_decode_utf8(whole);
}

/// A round over all databases is due at the start, and again exactly when as much time has passed since
/// the last as lies between two; behind a round, and where none is due, the collector waits for a
/// datagram, and behind anything that happens then it looks at the clock again.
pub proof fn rounds_are_due_by_the_clock(tick: u128, elapsed: u128)
    ensures
        serve_step(tick, ServeEvent::Started) is Clock,
        serve_step(tick, ServeEvent::Clock(None)) is DrainAll,
        serve_step(tick, ServeEvent::Clock(Some(elapsed))) is DrainAll <==> elapsed >= tick,
        serve_step(tick, ServeEvent::Clock(Some(elapsed))) is Receive <==> elapsed < tick,
        serve_step(tick, ServeEvent::AllDrained) is Receive,
        serve_step(tick, ServeEvent::Quiet) is Clock,
        serve_step(tick, ServeEvent::NamedDrained) is Clock,
        serve_step(tick, ServeEvent::Broken) is Stop,
{
}

/// A passed descriptor is the third, and it is taken exactly when the environment counts at least one
/// descriptor and names this process as their owner.
pub proof fn a_passed_socket_is_for_its_owner(fds: Seq<char>, owner: Seq<char>, pid: u32)
    ensures
        passed_to(Some(fds), Some(owner), pid) == (PassedSocket::Descriptor { fd: 3 }) <==> {
            &&& number::i32_value(utf8::encode_utf8(fds)) matches Some(n)
            &&& n >= 1
            &&& number::u32_value(utf8::encode_utf8(owner)) == Some(pid)
        },
        forall|fd: i32| #[trigger]
            passed_to(Some(fds), Some(owner), pid) == (PassedSocket::Descriptor { fd }) ==> fd == 3,
        passed_to(None, Some(owner), pid) == PassedSocket::Absent,
        passed_to(None, None, pid) == PassedSocket::Absent,
        ({
            let count = number::i32_value(utf8::encode_utf8(fds));
            let other = number::u32_value(utf8::encode_utf8(owner));
            if count is None || count->0 < 1 {
                passed_to(Some(fds), Some(owner), pid) == PassedSocket::Absent && passed_to(Some(fds), None, pid)
                    == PassedSocket::Absent
            } else {
                &&& passed_to(Some(fds), None, pid) == PassedSocket::OwnerUnset
                &&& other is None ==> passed_to(Some(fds), Some(owner), pid) == PassedSocket::OwnerUnset
                &&& other is Some && other->0 != pid ==> passed_to(Some(fds), Some(owner), pid)
                    == (PassedSocket::OtherOwner { owner: other->0 })
            }
        }),
{
}

/// One outcome more adds its report, if it is one, behind the others, or the name of its database to the
/// failures, if it is one, and nothing else.
pub proof fn outcomes_are_reported_in_turn(
    state: SweepView,
    names: Seq<Seq<char>>,
    outcomes: Seq<OutcomeView>,
    outcome: OutcomeView,
)
    requires
        state.at < state.names.len(),
        outcomes.len() < names.len(),
    ensures
        reports_of(seq![]).len() == 0,
        failures_of(names, seq![]).len() == 0,
        reports_of(outcomes.push(outcome)) == (match outcome {
            OutcomeView::Spooled(stats) => reports_of(outcomes).push(stats),
            OutcomeView::Nothing => reports_of(outcomes),
            OutcomeView::Failed => reports_of(outcomes),
        }),
        failures_of(names, outcomes.push(outcome)) == (match outcome {
            OutcomeView::Spooled(_) => failures_of(names, outcomes),
            OutcomeView::Nothing => failures_of(names, outcomes),
            OutcomeView::Failed => failures_of(names, outcomes).push(names[outcomes.len() as int]),
        }),
        ({
            let next = state.settled(outcome);
            &&& next.round == state.round && next.names == state.names && next.at == state.at + 1
            &&& next.stats == (match outcome {
                OutcomeView::Spooled(stats) => state.stats.push(stats),
                OutcomeView::Nothing => state.stats,
                OutcomeView::Failed => state.stats,
            })
            &&& next.failed == (match outcome {
                OutcomeView::Spooled(_) => state.failed,
                OutcomeView::Nothing => state.failed,
                OutcomeView::Failed => state.failed.push(state.names[state.at as int]),
            })
        }),
{
    assert(outcomes.push(outcome).drop_last() =~= outcomes);
}

/// A round asks for its databases from the first to the last, and it succeeds exactly when none failed.
pub proof fn a_round_asks_for_its_databases_in_turn(round: Round, announced: Seq<AnnounceView>, state: SweepView)
    ensures
        ({
            let start = SweepView::start(round, announced);
            &&& start.round == round && start.at == 0 && start.stats.len() == 0 && start.failed.len() == 0
            &&& start.names.len() == announced.len()
            &&& forall|i: int| 0 <= i < announced.len() ==> (#[trigger] start.names[i]) == announced[i].db_name
        }),
        state.at < state.names.len() ==> state.next() == Some(state.names[state.at as int]),
        state.at >= state.names.len() ==> state.next() is None,
        state.failed.len() == 0 ==> state.end() == Ok::<Seq<DrainStatsView>, ErrorView>(state.stats),
        state.failed.len() > 0 && state.round == Round::Drain ==> state.end() == Err::<Seq<DrainStatsView>, ErrorView>(
            ErrorView::DrainFailed { names: state.failed },
        ),
        state.failed.len() > 0 && state.round == Round::Snapshot ==> state.end() == Err::<
            Seq<DrainStatsView>,
            ErrorView,
        >(ErrorView::SnapshotFailed { names: state.failed }),
{
}

} // verus!
