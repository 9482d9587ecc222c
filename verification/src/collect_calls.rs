//! What callers of the collector rely on: each law takes the arguments of one call and what came of it.

use vstd::prelude::*;
use vstd::utf8;

use crate::announce;
use crate::announce::{announce_file, announce_names, check_announce, load_dir, load_named};
use crate::announce::{Announce, AnnounceFile, FileName};
use crate::collect;
use crate::collect::{drain_all, drain_named, drain_sqlite, nudge_name, open_sqlite, passed_socket, serve};
use crate::collect::{systemd_listen_fd, CollectCfg, DrainStats, Outcome, PassedSocket, Round, ServeEvent, ServeStep};
use crate::collect::{ServeStepView, Sweep};
use crate::error::{CaptureError, ErrorView, JsonField};
use crate::event;
use crate::event::{Event, EventView};
use crate::json;
use crate::model;
use crate::number;
use crate::order::Ordered;
use crate::outbox;
use crate::outbox::{assemble_event, optional_json, outbox_event, outbox_events, parsed_or_refused, required_json};
use crate::outbox::{DrainAction, DrainPhase, DrainRun, OutboxRow};
use crate::spool;
use crate::spool::{batch_body, list_jsonl, parse_lo_hi, write_batch, BatchFile, SpoolFile};
use crate::text;

verus! {

/// `write_batch` gives no file exactly for an empty batch. Else the directory is the whole name of the
/// database, and the file is named by the decimal numbers of the first and last event.
pub proof fn a_batch_is_written_under_its_database(src_db: &str, events: &Vec<Event>, r: Option<BatchFile>)
    requires
        call_ensures(write_batch, (src_db, events), r),
    ensures
        r is None <==> events@.len() == 0,
        r matches Some(batch) ==> {
            &&& batch.dir@ == src_db@
            &&& batch.name@ == number::decimal(events@[0].seq as int) + "-"@ + number::decimal(
                events@[events@.len() - 1].seq as int,
            ) + ".jsonl"@
            &&& batch.tmp_name@ == batch.name@ + ".tmp"@
        },
{
    let all = model::views(events@);
    spool::a_batch_goes_to_its_database(src_db@, all);
    if events@.len() > 0 {
        assert(all[0] == events@[0]@);
        assert(all[all.len() - 1] == events@[events@.len() - 1]@);
    }
}

/// Two calls of `write_batch` give the same file only for batches of the same database with the same first
/// and last numbers.
pub proof fn batches_are_written_apart(
    a_db: &str,
    a: &Vec<Event>,
    b_db: &str,
    b: &Vec<Event>,
    x: BatchFile,
    y: BatchFile,
)
    requires
        call_ensures(write_batch, (a_db, a), Some(x)),
        call_ensures(write_batch, (b_db, b), Some(y)),
        x.dir@ == y.dir@,
        x.name@ == y.name@,
    ensures
        a_db@ == b_db@,
        a@[0].seq == b@[0].seq,
        a@[a@.len() - 1].seq == b@[b@.len() - 1].seq,
{
    let p = model::views(a@);
    let q = model::views(b@);
    assert(p.len() > 0 && q.len() > 0);
    spool::batches_do_not_share_a_file(a_db@, p, b_db@, q);
    assert(p[0] == a@[0]@ && q[0] == b@[0]@);
    assert(p[p.len() - 1] == a@[a@.len() - 1]@ && q[q.len() - 1] == b@[b@.len() - 1]@);
}

/// What `batch_body` writes is read back line by line as it was, where every line fits one.
pub proof fn a_body_holds_every_line(all: &Vec<String>, r: String)
    requires
        call_ensures(batch_body, (all,), r),
        forall|i: int| 0 <= i < all@.len() ==> text::fits_a_line(#[trigger] all@[i]@),
    ensures
        text::lines_of(r@) == model::views(all@),
{
    assert forall|i: int| 0 <= i < model::views(all@).len() implies text::fits_a_line(
        #[trigger] model::views(all@)[i],
    ) by {
        assert(model::views(all@)[i] == all@[i]@);
    }
    text::ended_lines_read_back(model::views(all@));
}

/// `SpoolFile::jsonl` takes the names that are something and `.jsonl` behind it.
pub proof fn closed_batches_are_told_by_name(file: &SpoolFile, r: bool)
    requires
        call_ensures(SpoolFile::jsonl, (file,), r),
    ensures
        r <==> file.path@.len() > 0 && {
            let name = file.path@[file.path@.len() - 1]@;
            let n = name.len() as int;
            &&& n > 6
            &&& name[n - 6] == '.' as u8 && name[n - 5] == 'j' as u8 && name[n - 4] == 's' as u8
            &&& name[n - 3] == 'o' as u8 && name[n - 2] == 'n' as u8 && name[n - 1] == 'l' as u8
        },
{
    spool::closed_batches_by_their_names(*file);
}

/// `parse_lo_hi` reads the numbers around the hyphen of a name, and none where there is no such hyphen;
/// `SpoolFile::numbers` reads them off a file name, and gives the highest there is for a name without any.
pub proof fn numbers_are_read_off_the_name(
    name: &Vec<u8>,
    to: usize,
    r: Option<(i64, i64)>,
    lo: Seq<u8>,
    hi: Seq<u8>,
    file: &SpoolFile,
    numbers: (i64, i64),
)
    requires
        call_ensures(parse_lo_hi, (name, to), r),
        call_ensures(SpoolFile::numbers, (file,), numbers),
        lo.len() > 0,
        forall|i: int| 1 <= i < lo.len() ==> (#[trigger] lo[i]) != 45,
        file.path@.len() > 0,
        file.path@[file.path@.len() - 1]@ == lo + seq![45u8] + hi + seq![46u8, 106, 115, 111, 110, 108],
    ensures
        name@.take(to as int) == lo + seq![45u8] + hi ==> r == (match (number::i64_value(lo), number::i64_value(hi)) {
            (Some(lo), Some(hi)) => Some((lo, hi)),
            _ => None,
        }),
        name@.take(to as int) == lo ==> r is None,
        numbers == (match (number::i64_value(lo), number::i64_value(hi)) {
            (Some(lo), Some(hi)) => (lo, hi),
            _ => (i64::MAX, i64::MAX),
        }),
{
    spool::numbers_stand_around_a_hyphen(lo, hi);
    let path = file@.path;
    let stem = lo + seq![45u8] + hi;
    assert(path.last() == file.path@[file.path@.len() - 1]@);
    assert(path =~= path.drop_last().push(stem + seq![46u8, 106, 115, 111, 110, 108]));
    spool::a_file_is_sorted_by_its_names(file@, path.drop_last(), stem);
}

/// `list_jsonl` gives every closed batch as often as it was there and nothing else, those first that go
/// first.
pub proof fn every_closed_batch_is_listed(files: Vec<SpoolFile>, r: Vec<SpoolFile>)
    requires
        call_ensures(list_jsonl, (files,), r),
    ensures
        r@.to_multiset() == files@.filter(|f: SpoolFile| spool::is_jsonl(f@)).to_multiset(),
        forall|i: int, j: int|
            #![trigger r@[i], r@[j]]
            0 <= i < j < r@.len() ==> spool::key_up_to(spool::jsonl_key(r@[i]@), spool::jsonl_key(r@[j]@)),
{
    assert((|f: SpoolFile| spool::is_jsonl(f@)) =~= spool::closed_batch());
    assert forall|i: int, j: int| #![trigger r@[i], r@[j]] 0 <= i < j < r@.len() implies spool::key_up_to(
        spool::jsonl_key(r@[i]@),
        spool::jsonl_key(r@[j]@),
    ) by {
        assert(r@[i].up_to(&r@[j]));
    }
}

/// `announce_names` gives every announce file as often as it was there and nothing else, by name.
pub proof fn every_announce_file_is_listed(names: Vec<FileName>, r: Vec<FileName>)
    requires
        call_ensures(announce_names, (names,), r),
    ensures
        r@.to_multiset() == names@.filter(|f: FileName| announce::is_json_name(f@)).to_multiset(),
        forall|i: int, j: int|
            #![trigger r@[i], r@[j]]
            0 <= i < j < r@.len() ==> crate::order::bytes_up_to(r@[i].bytes@, r@[j].bytes@),
{
    assert((|f: FileName| announce::is_json_name(f@)) =~= announce::announces());
    assert forall|i: int, j: int| #![trigger r@[i], r@[j]] 0 <= i < j < r@.len() implies crate::order::bytes_up_to(
        r@[i].bytes@,
        r@[j].bytes@,
    ) by {
        assert(r@[i].up_to(&r@[j]));
    }
}

/// `check_announce` gives back what it was given, or refuses a bad name, or else an empty path.
pub proof fn an_announcement_is_checked(a: Announce, file: &str, r: Result<Announce, CaptureError>)
    requires
        call_ensures(check_announce, (a, file), r),
    ensures
        match r {
            Ok(b) => {
                &&& b.db_name@ == a.db_name@
                &&& b.sqlite_path@ == a.sqlite_path@
                &&& event::valid_db_name(a.db_name@)
                &&& a.sqlite_path@.len() > 0
            },
            Err(e) => if !event::valid_db_name(a.db_name@) {
                e@ == (ErrorView::DbName { name: a.db_name@ })
            } else {
                a.sqlite_path@.len() == 0 && e@ == (ErrorView::EmptySqlitePath { file: file@ })
            },
        },
{
    announce::an_announcement_is_taken_as_it_is(a@, file@);
}

/// `announce_file` is the name of the database and `.json` behind it, and a bad name is refused.
pub proof fn an_announce_file_is_named_by_its_database(db_name: &str, r: Result<String, CaptureError>)
    requires
        call_ensures(announce_file, (db_name,), r),
    ensures
        match r {
            Ok(name) => event::valid_db_name(db_name@) && name@ == db_name@ + ".json"@,
            Err(e) => !event::valid_db_name(db_name@) && e@ == (ErrorView::DbName { name: db_name@ }),
        },
{
}

/// What `load_named`, `drain_named` and `snapshot_named` make of the announce file of a database: all three
/// the same.
pub open spec fn is_named(
    db_name: Seq<char>,
    file: Seq<char>,
    found: Option<Announce>,
    r: Result<Option<Announce>, CaptureError>,
) -> bool {
    match r {
        Ok(None) => event::valid_db_name(db_name) && found is None,
        Ok(Some(a)) => {
            &&& event::valid_db_name(db_name)
            &&& found is Some
            &&& a.db_name@ == found->0.db_name@
            &&& a.sqlite_path@ == found->0.sqlite_path@
            &&& event::valid_db_name(a.db_name@)
            &&& a.sqlite_path@.len() > 0
        },
        Err(e) => if !event::valid_db_name(db_name) {
            e@ == (ErrorView::DbName { name: db_name })
        } else {
            &&& found is Some
            &&& if !event::valid_db_name(found->0.db_name@) {
                e@ == (ErrorView::DbName { name: found->0.db_name@ })
            } else {
                found->0.sqlite_path@.len() == 0 && e@ == (ErrorView::EmptySqlitePath { file })
            }
        },
    }
}

/// `load_named`, `drain_named` and `snapshot_named` give the announcement that the file of the database
/// holds, none without a file, and refuse a bad name and a bad announcement.
pub proof fn a_named_database_is_found(
    db_name: &str,
    file: &str,
    found: Option<Announce>,
    loaded: Result<Option<Announce>, CaptureError>,
    drained: Result<Option<Announce>, CaptureError>,
    snapped: Result<Option<Announce>, CaptureError>,
)
    requires
        call_ensures(load_named, (db_name, file, found), loaded),
        call_ensures(drain_named, (db_name, file, found), drained),
        call_ensures(crate::snapshot::snapshot_named, (db_name, file, found), snapped),
    ensures
        is_named(db_name@, file@, found, loaded),
        is_named(db_name@, file@, found, drained),
        is_named(db_name@, file@, found, snapped),
{
    announce::a_named_announcement_is_the_one_in_its_file(db_name@, file@, model::option_view(found));
}

/// `load_dir` gives what the good files hold, in order; one file more adds what it holds at the end, if it
/// is good.
pub proof fn a_directory_announces_its_good_files(
    files: Vec<AnnounceFile>,
    more: Vec<AnnounceFile>,
    r: Vec<Announce>,
    s: Vec<Announce>,
    next: AnnounceFile,
)
    requires
        call_ensures(load_dir, (files,), r),
        call_ensures(load_dir, (more,), s),
        more@ == files@.push(next),
    ensures
        files@.len() == 0 ==> r@.len() == 0,
        match next.parsed {
            Some(a) => if event::valid_db_name(a.db_name@) && a.sqlite_path@.len() > 0 {
                model::views(s@) == model::views(r@).push(a@)
            } else {
                model::views(s@) == model::views(r@)
            },
            None => model::views(s@) == model::views(r@),
        },
{
    let all = model::views(files@);
    assert(model::views(more@) =~= all.push(next@));
    announce::each_good_file_announces_its_database(all, next@);
    if files@.len() == 0 {
        assert(all =~= seq![]);
        assert(model::views(r@).len() == 0);
    }
}

/// `open_sqlite` accepts exactly the databases with a good name whose file is there.
pub proof fn a_database_is_opened(src_db: &str, sqlite_path: &str, is_file: bool, r: Result<(), CaptureError>)
    requires
        call_ensures(open_sqlite, (src_db, sqlite_path, is_file), r),
    ensures
        r is Ok <==> event::valid_db_name(src_db@) && is_file,
        r matches Err(e) ==> if !event::valid_db_name(src_db@) {
            e@ == (ErrorView::DbName { name: src_db@ })
        } else {
            e@ == (ErrorView::SqliteMissing { path: sqlite_path@ })
        },
{
}

/// `drain_sqlite` drains a database exactly when it has an `_outbox`, from its first row on.
pub proof fn a_drain_starts_at_the_first_row(src_db: &str, has_outbox: bool, r: Option<DrainRun>)
    requires
        call_ensures(drain_sqlite, (src_db, has_outbox), r),
    ensures
        r is Some <==> has_outbox,
        r matches Some(run) ==> {
            &&& run@.src_db == src_db@
            &&& run@.phase == DrainPhase::Fetch
            &&& run@.after_seq is None
            &&& run@.page.len() == 0
            &&& run@.rows == 0
            &&& run@.seq_lo is None
            &&& run@.seq_hi is None
        },
{
}

/// `nudge_name` gives the text of a datagram without the white space around it, and nothing where it holds
/// no text.
pub proof fn a_nudge_names_its_database(
    datagram: &Vec<u8>,
    r: String,
    before: Seq<char>,
    name: Seq<char>,
    behind: Seq<char>,
)
    requires
        call_ensures(nudge_name, (datagram,), r),
        forall|i: int| 0 <= i < before.len() ==> text::is_space(#[trigger] before[i]),
        forall|i: int| 0 <= i < behind.len() ==> text::is_space(#[trigger] behind[i]),
        name.len() > 0 ==> !text::is_space(name[0]) && !text::is_space(name.last()),
    ensures
        datagram@ == utf8::encode_utf8(before + name + behind) ==> r@ == name,
        !utf8::valid_utf8(datagram@) ==> r@.len() == 0,
{
    collect::a_datagram_is_taken_by_its_text(0, before, name, behind, *datagram);
}

/// `serve` looks at the clock, drains all databases when a round is due, drains the one that a datagram
/// names, and stops only with its socket.
pub proof fn serving_goes_by_clock_and_datagrams(cfg: &CollectCfg, e: ServeEvent, r: ServeStep)
    requires
        call_ensures(serve, (cfg, e), r),
    ensures
        match e {
            ServeEvent::Started => r is Clock,
            ServeEvent::Clock(None) => r is DrainAll,
            ServeEvent::Clock(Some(elapsed)) => if elapsed >= cfg.tick {
                r is DrainAll
            } else {
                r is Receive
            },
            ServeEvent::AllDrained => r is Receive,
            ServeEvent::Datagram(bytes) => if collect::nudged_name(bytes@).len() == 0 {
                r is Clock
            } else {
                r matches ServeStep::DrainNamed(name) && name@ == collect::nudged_name(bytes@)
            },
            ServeEvent::Quiet => r is Clock,
            ServeEvent::NamedDrained => r is Clock,
            ServeEvent::Broken => r is Stop,
        },
{
    assert(r@ == collect::serve_step(cfg.tick, e));
    match r {
        ServeStep::Clock => assert(r@ is Clock),
        ServeStep::DrainAll => assert(r@ is DrainAll),
        ServeStep::Receive => assert(r@ is Receive),
        ServeStep::DrainNamed(name) => assert(r@ == ServeStepView::DrainNamed(name@)),
        ServeStep::Stop => assert(r@ is Stop),
    }
}

/// `passed_socket` and `systemd_listen_fd` take descriptor three, exactly when at least one descriptor was
/// passed and to this process.
pub proof fn a_passed_socket_is_taken(
    fds: &Option<String>,
    owner: &Option<String>,
    pid: u32,
    r: PassedSocket,
    fd: Option<i32>,
)
    requires
        call_ensures(passed_socket, (fds, owner, pid), r),
        call_ensures(systemd_listen_fd, (fds, owner, pid), fd),
    ensures
        ({
            let count = if fds is Some {
                number::i32_value(utf8::encode_utf8(fds->0@))
            } else {
                None
            };
            let process = if owner is Some {
                number::u32_value(utf8::encode_utf8(owner->0@))
            } else {
                None
            };
            if count is None || count->0 < 1 {
                r == PassedSocket::Absent && fd is None
            } else if process is None {
                r == PassedSocket::OwnerUnset && fd is None
            } else if process->0 != pid {
                r == (PassedSocket::OtherOwner { owner: process->0 }) && fd is None
            } else {
                r == (PassedSocket::Descriptor { fd: 3 }) && fd == Some(3i32)
            }
        }),
{
}

/// `Sweep::new` and `drain_all` start a round over all announced databases, in their order.
pub proof fn a_round_is_over_all_announced_databases(round: Round, announced: Vec<Announce>, sweep: Sweep, drain: Sweep)
    requires
        call_ensures(Sweep::new, (round, announced), sweep),
        call_ensures(drain_all, (announced,), drain),
    ensures
        sweep@.round == round,
        drain@.round == Round::Drain,
        sweep@.names == drain@.names,
        sweep@.names.len() == announced@.len(),
        forall|i: int| 0 <= i < announced@.len() ==> (#[trigger] sweep@.names[i]) == announced@[i].db_name@,
        sweep@.at == 0 && sweep@.stats.len() == 0 && sweep@.failed.len() == 0,
        drain@.at == 0 && drain@.stats.len() == 0 && drain@.failed.len() == 0,
{
    collect::a_round_asks_for_its_databases_in_turn(round, model::views(announced@), sweep@);
}

/// `Sweep::next` gives the database at hand, and none behind the last.
pub proof fn a_round_gives_the_next_database(sweep: &Sweep, r: Option<&str>)
    requires
        call_ensures(Sweep::next, (sweep,), r),
    ensures
        r is Some <==> sweep@.at < sweep@.names.len(),
        r matches Some(name) ==> name@ == sweep@.names[sweep@.at as int],
{
}

/// `Sweep::settled` goes on to the next database, and keeps a report, or the name of a failure.
pub proof fn a_settled_database_is_behind(sweep: &mut Sweep, outcome: Outcome)
    requires
        call_ensures(Sweep::settled, (sweep, outcome), ()),
        old(sweep)@.at < old(sweep)@.names.len(),
    ensures
        final(sweep)@.round == old(sweep)@.round,
        final(sweep)@.names == old(sweep)@.names,
        final(sweep)@.at == old(sweep)@.at + 1,
        final(sweep)@.stats == (match outcome {
            Outcome::Spooled(stats) => old(sweep)@.stats.push(stats@),
            _ => old(sweep)@.stats,
        }),
        final(sweep)@.failed == (match outcome {
            Outcome::Failed => old(sweep)@.failed.push(old(sweep)@.names[old(sweep)@.at as int]),
            _ => old(sweep)@.failed,
        }),
{
}

/// `Sweep::finish` gives all reports where no database failed, and else the names of those that did.
pub proof fn a_round_ends_with_its_reports(sweep: Sweep, r: Result<Vec<DrainStats>, CaptureError>)
    requires
        call_ensures(Sweep::finish, (sweep,), r),
    ensures
        r is Ok <==> sweep@.failed.len() == 0,
        r matches Ok(stats) ==> model::views(stats@) == sweep@.stats,
        r matches Err(e) ==> match sweep@.round {
            Round::Drain => e@ == (ErrorView::DrainFailed { names: sweep@.failed }),
            Round::Snapshot => e@ == (ErrorView::SnapshotFailed { names: sweep@.failed }),
        },
{
}

/// `parsed_or_refused`, `required_json` and `optional_json` give the value that a column writes, none for
/// NULL, and refuse what writes none, with the words of the parser.
pub proof fn a_json_column_is_read(
    seq: i64,
    field: JsonField,
    parsed: Result<serde_json::Value, serde_json::Error>,
    raw: &str,
    cell: &Option<String>,
    a: Result<serde_json::Value, CaptureError>,
    b: Result<serde_json::Value, CaptureError>,
    c: Result<Option<serde_json::Value>, CaptureError>,
)
    requires
        call_ensures(parsed_or_refused, (seq, field, parsed), a),
        call_ensures(required_json, (seq, field, raw), b),
        call_ensures(optional_json, (seq, field, cell), c),
    ensures
        match a {
            Ok(v) => parsed == Ok::<serde_json::Value, serde_json::Error>(v),
            Err(e) => parsed is Err && e@ == (ErrorView::NotJson {
                seq,
                field,
                cause: json::complaint(parsed->Err_0),
            }),
        },
        match b {
            Ok(v) => json::parsed_json(raw@) == Ok::<serde_json::Value, serde_json::Error>(v),
            Err(e) => json::parsed_json(raw@) is Err && e@ == (ErrorView::NotJson {
                seq,
                field,
                cause: json::complaint(json::parsed_json(raw@)->Err_0),
            }),
        },
        match c {
            Ok(None) => cell is None,
            Ok(Some(v)) => cell is Some && json::parsed_json(cell->0@) == Ok::<serde_json::Value, serde_json::Error>(v),
            Err(e) => cell is Some && json::parsed_json(cell->0@) is Err && e@ == (ErrorView::NotJson {
                seq,
                field,
                cause: json::complaint(json::parsed_json(cell->0@)->Err_0),
            }),
        },
{
}

/// `assemble_event` puts every value in its own field, and is refused for the first refused column.
pub proof fn an_event_is_assembled_field_by_field(
    src_db: &str,
    row: OutboxRow,
    key: Result<serde_json::Value, CaptureError>,
    before: Result<Option<serde_json::Value>, CaptureError>,
    after: Result<Option<serde_json::Value>, CaptureError>,
    r: Result<Event, CaptureError>,
)
    requires
        call_ensures(assemble_event, (src_db, row, key, before, after), r),
    ensures
        match r {
            Ok(e) => {
                &&& key == Ok::<serde_json::Value, CaptureError>(e.key)
                &&& before == Ok::<Option<serde_json::Value>, CaptureError>(e.before)
                &&& after == Ok::<Option<serde_json::Value>, CaptureError>(e.after)
                &&& e.src_db@ == src_db@
                &&& e.seq == row.seq
                &&& e.tbl@ == row.tbl@
                &&& e.op@ == row.op@
                &&& e.ts == row.ts
            },
            Err(e) => if key is Err {
                e@ == key->Err_0@
            } else if before is Err {
                e@ == before->Err_0@
            } else {
                after is Err && e@ == after->Err_0@
            },
        },
{
}

/// `outbox_event` gives the event of a row: its fields, and what its JSON columns write.
pub proof fn an_outbox_row_is_its_event(src_db: &str, row: OutboxRow, r: Result<Event, CaptureError>)
    requires
        call_ensures(outbox_event, (src_db, row), r),
    ensures
        r matches Ok(e) ==> {
            &&& e.src_db@ == src_db@ && e.seq == row.seq && e.tbl@ == row.tbl@ && e.op@ == row.op@ && e.ts == row.ts
            &&& json::parsed_json(row.key@) == Ok::<serde_json::Value, serde_json::Error>(e.key)
            &&& e.before is Some <==> row.before is Some
            &&& row.before is Some ==> json::parsed_json(row.before->0@) == Ok::<serde_json::Value, serde_json::Error>(
                e.before->0,
            )
            &&& e.after is Some <==> row.after is Some
            &&& row.after is Some ==> json::parsed_json(row.after->0@) == Ok::<serde_json::Value, serde_json::Error>(
                e.after->0,
            )
        },
        r matches Err(e) ==> e@ is NotJson,
        r is Err <==> json::parsed_json(row.key@) is Err || (row.before is Some && json::parsed_json(
            row.before->0@,
        ) is Err) || (row.after is Some && json::parsed_json(row.after->0@) is Err),
{
    outbox::a_row_is_refused_for_its_json(src_db@, row@);
    if let Ok(_) = r {
        outbox::an_event_is_its_row(src_db@, row@);
    }
}

/// `outbox_events` gives the event of every row, in order, or the refusal of the first refused row.
pub proof fn outbox_rows_are_their_events(src_db: &str, rows: Vec<OutboxRow>, r: Result<Vec<Event>, CaptureError>)
    requires
        call_ensures(outbox_events, (src_db, rows), r),
    ensures
        match r {
            Ok(events) => events@.len() == rows@.len() && forall|i: int|
                0 <= i < rows@.len() ==> outbox::event_of_row(src_db@, (#[trigger] rows@[i])@) == Ok::<_, ErrorView>(
                    events@[i]@,
                ),
            Err(e) => exists|bad: int|
                {
                    &&& 0 <= bad < rows@.len()
                    &&& outbox::event_of_row(src_db@, (#[trigger] rows@[bad])@) is Err
                    &&& outbox::event_of_row(src_db@, rows@[bad]@)->Err_0 == e@
                    &&& forall|i: int| 0 <= i < bad ==> outbox::event_of_row(src_db@, (#[trigger] rows@[i])@) is Ok
                },
        },
{
    let all = model::views(rows@);
    outbox::events_are_their_rows_in_order(src_db@, all);
    match r {
        Ok(events) => {
            assert forall|i: int| 0 <= i < rows@.len() implies outbox::event_of_row(src_db@, (#[trigger] rows@[i])@)
                == Ok::<_, ErrorView>(events@[i]@) by {
                assert(all[i] == rows@[i]@);
                assert(model::views(events@)[i] == events@[i]@);
            }
        },
        Err(e) => {
            let bad = choose|bad: int|
                {
                    &&& 0 <= bad < all.len()
                    &&& outbox::event_of_row(src_db@, #[trigger] all[bad]) == Err::<EventView, ErrorView>(e@)
                    &&& forall|i: int| 0 <= i < bad ==> outbox::event_of_row(src_db@, #[trigger] all[i]) is Ok
                };
            assert(all[bad] == rows@[bad]@);
            assert forall|i: int| 0 <= i < bad implies outbox::event_of_row(src_db@, (#[trigger] rows@[i])@) is Ok by {
                assert(all[i] == rows@[i]@);
            }
        },
    }
}

/// `DrainRun::new` starts before the first row, and `DrainRun::finish` reports what was taken.
pub proof fn a_drain_starts_and_reports(src_db: &str, run: DrainRun, end: DrainRun, r: Option<DrainStats>)
    requires
        call_ensures(DrainRun::new, (src_db,), run),
        call_ensures(DrainRun::finish, (end,), r),
    ensures
        run@.src_db == src_db@ && run@.phase == DrainPhase::Fetch && run@.after_seq is None,
        run@.page.len() == 0 && run@.rows == 0 && run@.seq_lo is None && run@.seq_hi is None,
        r is None <==> end@.rows == 0,
        r matches Some(stats) ==> {
            &&& stats.src_db@ == end@.src_db
            &&& stats.rows == end@.rows
            &&& stats.seq_lo == end@.seq_lo
            &&& stats.seq_hi == end@.seq_hi
        },
{
}

/// `DrainRun::action` asks for the next page behind the last row taken, for the page at hand to be spooled,
/// or for its rows to be deleted; `DrainRun::page` and `DrainRun::rows` give what is at hand.
pub proof fn a_drain_asks_by_its_phase(run: &DrainRun, r: DrainAction, page: &Vec<Event>, rows: usize)
    requires
        call_ensures(DrainRun::action, (run,), r),
        call_ensures(DrainRun::page, (run,), page),
        call_ensures(DrainRun::rows, (run,), rows),
    ensures
        run@.phase == DrainPhase::Fetch ==> r == (DrainAction::Fetch { after_seq: run@.after_seq, limit: 5_000 }),
        run@.phase == DrainPhase::Spool ==> r == DrainAction::Spool,
        run@.phase == DrainPhase::Prune ==> r == (DrainAction::Prune { through: run@.page[run@.page.len() - 1].seq }),
        run@.phase == DrainPhase::Done ==> r == DrainAction::Done,
        model::views(page@) == run@.page,
        rows == run@.rows,
{
}

/// `DrainRun::fetched` takes a page in whole, ends the drain with an empty one, and stays where it is where
/// a row is refused.
pub proof fn a_drain_takes_a_page_whole(run: &mut DrainRun, rows: Vec<OutboxRow>, r: Result<(), CaptureError>)
    requires
        call_ensures(DrainRun::fetched, (run, rows), r),
    ensures
        ({
            let events = outbox::events_of_rows(old(run)@.src_db, model::views(rows@));
            &&& r is Ok <==> events is Ok
            &&& r is Err ==> final(run)@ == old(run)@ && r->Err_0@ == events->Err_0
            &&& r is Ok ==> {
                &&& final(run)@.page == events->Ok_0
                &&& final(run)@.page.len() == rows@.len()
                &&& final(run)@.phase == (if rows@.len() == 0 {
                    DrainPhase::Done
                } else {
                    DrainPhase::Spool
                })
                &&& final(run)@.src_db == old(run)@.src_db && final(run)@.rows == old(run)@.rows
                &&& final(run)@.seq_lo == old(run)@.seq_lo && final(run)@.seq_hi == old(run)@.seq_hi
                &&& final(run)@.after_seq == old(run)@.after_seq
            }
        }),
{
    outbox::events_are_their_rows_in_order(old(run)@.src_db, model::views(rows@));
}

/// `DrainRun::spooled` leads to the deletion of the same page.
pub proof fn a_spooled_page_is_deleted_next(run: &mut DrainRun)
    requires
        call_ensures(DrainRun::spooled, (run,), ()),
    ensures
        final(run)@.phase == DrainPhase::Prune,
        final(run)@.src_db == old(run)@.src_db && final(run)@.page == old(run)@.page && final(run)@.rows == old(run)@.rows,
        final(run)@.seq_lo == old(run)@.seq_lo && final(run)@.seq_hi == old(run)@.seq_hi,
        final(run)@.after_seq == old(run)@.after_seq,
{
}

/// `DrainRun::pruned` counts the page and leads to the next one behind its last row, or ends where it was
/// not full.
pub proof fn a_deleted_page_is_counted(run: &mut DrainRun)
    requires
        call_ensures(DrainRun::pruned, (run,), ()),
        old(run)@.page.len() > 0,
    ensures
        ({
            let page = old(run)@.page;
            let last = page[page.len() - 1].seq;
            &&& final(run)@.src_db == old(run)@.src_db
            &&& final(run)@.page.len() == 0
            &&& final(run)@.rows == old(run)@.rows + page.len()
            &&& old(run)@.seq_lo is Some ==> final(run)@.seq_lo == old(run)@.seq_lo
            &&& old(run)@.seq_lo is None ==> final(run)@.seq_lo == Some(page[0].seq)
            &&& final(run)@.seq_hi == Some(last)
            &&& final(run)@.after_seq == Some(last)
            &&& final(run)@.phase == (if page.len() < 5_000 {
                DrainPhase::Done
            } else {
                DrainPhase::Fetch
            })
        }),
{
}

} // verus!
