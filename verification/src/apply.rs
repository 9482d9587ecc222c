//! Applying events: each is logged once, and the live rows follow the events that are new in the log.
//!
//! Nothing here knows the captured tables by name: a new source needs no change.

use vstd::prelude::*;

use crate::event::{Event, EventView};
use crate::model;
use crate::tables::{Tables, TablesView};
use crate::text;
use crate::text::{blank, chars_of, lines, same_text};

verus! {

/// What was applied.
#[derive(Debug, Clone, Copy, PartialEq, Eq, Structural)]
pub struct ApplyStats {
    pub files: usize,
    pub events: usize,
    pub inserted: usize,
}

impl Default for ApplyStats {
    fn default() -> (r: ApplyStats)
        ensures
            r == (ApplyStats { files: 0, events: 0, inserted: 0 }),
    {
        ApplyStats { files: 0, events: 0, inserted: 0 }
    }
}

/// Where an application of events stands.
#[derive(Debug, Clone, Copy, PartialEq, Eq, Structural)]
pub enum ApplyPhase {
    /// The event at hand has to be logged.
    Insert,
    /// Its row has to be taken away.
    Delete,
    /// Its row has to be written.
    Upsert,
    /// The watermark has to follow.
    Watermark,
    /// The live rows under later deletions have to be taken away.
    Retract,
    /// Nothing is left to do.
    Done,
}

/// What an application of events asks for next; an index tells the event.
#[derive(Debug, Clone, Copy, PartialEq, Eq, Structural)]
pub enum ApplyAction {
    /// Log the event unless its number is taken.
    Insert { index: usize },
    /// Take away the row of the event.
    Delete { index: usize },
    /// Write the row of the event, unless a later deletion is logged or the row is as new.
    Upsert { index: usize },
    /// Raise the watermark of the event's database to the event's number where it is lower.
    Watermark { index: usize },
    /// Take away the live rows of the first event's database that sit under a later deletion.
    Retract,
    Done,
}

/// An application of events.
pub struct ApplyRun {
    events: Vec<Event>,
    phase: ApplyPhase,
    at: usize,
    inserted: usize,
}

/// What has to be done with the row of an event that is new in the log: a deletion takes it away, an
/// insertion or update with a payload writes it, and anything else leaves it.
pub open spec fn row_phase(e: EventView) -> ApplyPhase {
    if e.op == "D"@ {
        ApplyPhase::Delete
    } else if e.after is None {
        ApplyPhase::Watermark
    } else {
        ApplyPhase::Upsert
    }
}

/// The state of an application of events.
pub struct ApplyView {
    pub events: Seq<EventView>,
    pub phase: ApplyPhase,
    /// How many events are done.
    pub at: nat,
    /// How many were new in the log.
    pub inserted: nat,
}

impl ApplyView {
    /// An application that has not started.
    pub open spec fn start(events: Seq<EventView>) -> ApplyView {
        ApplyView {
            events,
            phase: if events.len() == 0 {
                ApplyPhase::Done
            } else {
                ApplyPhase::Insert
            },
            at: 0,
            inserted: 0,
        }
    }

    /// Whether there is an event at hand where one is needed.
    pub open spec fn well_formed(self) -> bool {
        match self.phase {
            ApplyPhase::Retract => self.events.len() > 0,
            ApplyPhase::Done => true,
            ApplyPhase::Upsert => self.at < self.events.len() && self.events[self.at as int].after is Some,
            _ => self.at < self.events.len(),
        }
    }

    /// Logging the event at hand gave `n` new entries. Only a new entry touches the row.
    pub open spec fn logged(self, n: nat) -> ApplyView {
        ApplyView {
            phase: if n == 0 {
                ApplyPhase::Watermark
            } else {
                row_phase(self.events[self.at as int])
            },
            inserted: self.inserted + n,
            ..self
        }
    }

    /// The row of the event at hand was taken away or written.
    pub open spec fn row_done(self) -> ApplyView {
        ApplyView { phase: ApplyPhase::Watermark, ..self }
    }

    /// The watermark was raised, and the event at hand is done.
    pub open spec fn marked(self) -> ApplyView {
        ApplyView {
            phase: if self.at + 1 < self.events.len() {
                ApplyPhase::Insert
            } else {
                ApplyPhase::Retract
            },
            at: self.at + 1,
            ..self
        }
    }

    /// The live rows under later deletions were taken away.
    pub open spec fn retracted(self) -> ApplyView {
        ApplyView { phase: ApplyPhase::Done, ..self }
    }

    /// What the application asks for next.
    pub open spec fn action(self) -> ApplyAction {
        match self.phase {
            ApplyPhase::Insert => ApplyAction::Insert { index: self.at as usize },
            ApplyPhase::Delete => ApplyAction::Delete { index: self.at as usize },
            ApplyPhase::Upsert => ApplyAction::Upsert { index: self.at as usize },
            ApplyPhase::Watermark => ApplyAction::Watermark { index: self.at as usize },
            ApplyPhase::Retract => ApplyAction::Retract,
            ApplyPhase::Done => ApplyAction::Done,
        }
    }
}

impl View for ApplyRun {
    type V = ApplyView;

    closed spec fn view(&self) -> ApplyView {
        ApplyView {
            events: model::views(self.events@),
            phase: self.phase,
            at: self.at as nat,
            inserted: self.inserted as nat,
        }
    }
}

impl ApplyRun {
    /// An application of events, in their order.
    pub fn new(events: Vec<Event>) -> (r: ApplyRun)
        ensures
            r@ == ApplyView::start(model::views(events@)),
            r@.well_formed(),
    {
        ApplyRun {
            phase: if events.len() == 0 {
                ApplyPhase::Done
            } else {
                ApplyPhase::Insert
            },
            events,
            at: 0,
            inserted: 0,
        }
    }

    /// What the application asks for next.
    pub fn action(&self) -> (r: ApplyAction)
        ensures
            r == self@.action(),
    {
        match self.phase {
            ApplyPhase::Insert => ApplyAction::Insert { index: self.at },
            ApplyPhase::Delete => ApplyAction::Delete { index: self.at },
            ApplyPhase::Upsert => ApplyAction::Upsert { index: self.at },
            ApplyPhase::Watermark => ApplyAction::Watermark { index: self.at },
            ApplyPhase::Retract => ApplyAction::Retract,
            ApplyPhase::Done => ApplyAction::Done,
        }
    }

    /// The events.
    pub fn events(&self) -> (r: &Vec<Event>)
        ensures
            model::views(r@) == self@.events,
    {
        &self.events
    }

    /// Takes in how many entries logging the event at hand gave.
    pub fn logged(&mut self, n: usize)
        requires
            old(self)@.well_formed(),
            old(self)@.phase == ApplyPhase::Insert,
            old(self)@.inserted + n <= usize::MAX,
        ensures
            final(self)@.well_formed(),
            final(self)@ == old(self)@.logged(n as nat),
    {
        self.inserted = self.inserted + n;
        assert(self@.events[self.at as int] == self.events@[self.at as int]@);
        let e = &self.events[self.at];
        self.phase = if n == 0 {
            ApplyPhase::Watermark
        } else if same_text(e.op.as_str(), "D") {
            ApplyPhase::Delete
        } else if e.after.is_none() {
            ApplyPhase::Watermark
        } else {
            ApplyPhase::Upsert
        };
    }

    /// The row of the event at hand was taken away or written.
    pub fn row_done(&mut self)
        requires
            old(self)@.well_formed(),
            old(self)@.phase == ApplyPhase::Delete || old(self)@.phase == ApplyPhase::Upsert,
        ensures
            final(self)@.well_formed(),
            final(self)@ == old(self)@.row_done(),
    {
        self.phase = ApplyPhase::Watermark;
    }

    /// The watermark was raised.
    pub fn marked(&mut self)
        requires
            old(self)@.well_formed(),
            old(self)@.phase == ApplyPhase::Watermark,
        ensures
            final(self)@.well_formed(),
            final(self)@ == old(self)@.marked(),
    {
        assert(self.at < self.events.len());
        self.at = self.at + 1;
        self.phase = if self.at < self.events.len() {
            ApplyPhase::Insert
        } else {
            ApplyPhase::Retract
        };
    }

    /// The live rows under later deletions were taken away.
    pub fn retracted(&mut self)
        requires
            old(self)@.well_formed(),
            old(self)@.phase == ApplyPhase::Retract,
        ensures
            final(self)@.well_formed(),
            final(self)@ == old(self)@.retracted(),
    {
        self.phase = ApplyPhase::Done;
    }

    /// How many events there are, and how many were new in the log.
    pub fn stats(&self) -> (r: ApplyStats)
        ensures
            r == (ApplyStats { files: 0, events: self@.events.len() as usize, inserted: self@.inserted as usize }),
    {
        ApplyStats { files: 0, events: self.events.len(), inserted: self.inserted }
    }
}

/// The tables after an event that is new in the log has been applied to its row.
pub open spec fn row_applied(t: TablesView, e: EventView) -> TablesView {
    match row_phase(e) {
        ApplyPhase::Delete => t.without_row(e),
        ApplyPhase::Upsert => t.with_row(e, e.after->0),
        _ => t,
    }
}

/// The tables after one event.
pub open spec fn applied_one(t: TablesView, e: EventView) -> TablesView {
    let followed = if t.logs(e) {
        t
    } else {
        row_applied(t.with_event(e), e)
    };
    followed.with_watermark(e.src_db, e.seq)
}

/// The tables after events, one after the other.
pub open spec fn applied_each(t: TablesView, events: Seq<EventView>) -> TablesView
    decreases events.len(),
{
    if events.len() == 0 {
        t
    } else {
        applied_one(applied_each(t, events.drop_last()), events.last())
    }
}

/// How many of the events are new in the log.
pub open spec fn newly_logged(t: TablesView, events: Seq<EventView>) -> nat
    decreases events.len(),
{
    if events.len() == 0 {
        0
    } else {
        newly_logged(t, events.drop_last()) + (if applied_each(t, events.drop_last()).logs(events.last()) {
            0nat
        } else {
            1nat
        })
    }
}

/// The tables after an application of events: each in its order, and then the live rows of the first
/// event's database that sit under a later deletion are taken away.
pub open spec fn applied(t: TablesView, events: Seq<EventView>) -> TablesView {
    if events.len() == 0 {
        t
    } else {
        applied_each(t, events).without_stale(events[0].src_db)
    }
}

pub proof fn lemma_newly_logged_bound(t: TablesView, events: Seq<EventView>)
    ensures
        newly_logged(t, events) <= events.len(),
    decreases events.len(),
{
    if events.len() > 0 {
        lemma_newly_logged_bound(t, events.drop_last());
    }
}

/// What holds of the tables at each phase of an application that began on `t`.
spec fn in_step(t: TablesView, run: ApplyView, now: TablesView) -> bool {
    let done = run.events.take(run.at as int);
    let before = applied_each(t, done);
    let e = run.events[run.at as int];
    &&& run.well_formed()
    &&& run.at <= run.events.len()
    &&& match run.phase {
        ApplyPhase::Insert => now == before && run.inserted == newly_logged(t, done),
        ApplyPhase::Delete | ApplyPhase::Upsert => {
            &&& !before.logs(e)
            &&& row_phase(e) == run.phase
            &&& now == before.with_event(e)
            &&& run.inserted == newly_logged(t, done.push(e))
        },
        ApplyPhase::Watermark => {
            &&& now.with_watermark(e.src_db, e.seq) == applied_one(before, e)
            &&& run.inserted == newly_logged(t, done.push(e))
        },
        ApplyPhase::Retract => now == applied_each(t, run.events) && run.inserted == newly_logged(t, run.events),
        ApplyPhase::Done => now == applied(t, run.events) && run.inserted == newly_logged(t, run.events),
    }
}

/// How far an application has come within an event.
spec fn phase_rank(phase: ApplyPhase) -> nat {
    match phase {
        ApplyPhase::Insert => 4,
        ApplyPhase::Delete => 3,
        ApplyPhase::Upsert => 3,
        ApplyPhase::Watermark => 2,
        ApplyPhase::Retract => 1,
        ApplyPhase::Done => 0,
    }
}

/// Applies events to the tables.
pub fn apply_events(tables: &mut Tables, events: Vec<Event>) -> (r: ApplyStats)
    requires
        old(tables).well_formed(),
    ensures
        final(tables).well_formed(),
        final(tables)@ == applied(old(tables)@, model::views(events@)),
        r == (ApplyStats {
            files: 0,
            events: events@.len() as usize,
            inserted: newly_logged(old(tables)@, model::views(events@)) as usize,
        }),
{
    let ghost t = tables@;
    let ghost all = model::views(events@);
    let mut run = ApplyRun::new(events);
    assert(all.take(0) =~= Seq::<EventView>::empty());
    loop
        invariant
            tables.well_formed(),
            run@.events == all,
            in_step(t, run@, tables@),
        ensures
            run@.phase == ApplyPhase::Done,
        decreases all.len() - run@.at, phase_rank(run@.phase),
    {
        let ghost at = run@.at as int;
        let ghost done = all.take(at);
        let events = run.events();
        assert(model::views(events@) == all);
        assert(events@.len() == all.len());
        match run.action() {
            ApplyAction::Insert { index } => {
                let n = tables.insert_event(&events[index]);
                proof {
                    lemma_newly_logged_bound(t, done);
                    assert(events.len() == all.len());
                    assert(done.push(all[at]).drop_last() =~= done);
                }
                run.logged(n);
            },
            ApplyAction::Delete { index } => {
                tables.delete_row(&events[index]);
                run.row_done();
            },
            ApplyAction::Upsert { index } => {
                let e = &events[index];
                assert(e@ == all[at]);
                if let Some(after) = &e.after {
                    tables.upsert_row(e, after);
                }
                run.row_done();
            },
            ApplyAction::Watermark { index } => {
                let e = &events[index];
                tables.bump_watermark(e.src_db.as_str(), e.seq);
                proof {
                    assert(all.take(at + 1) =~= done.push(all[at]));
                    assert(done.push(all[at]).drop_last() =~= done);
                    assert(all.take(all.len() as int) =~= all);
                }
                run.marked();
            },
            ApplyAction::Retract => {
                tables.retract_stale(events[0].src_db.as_str());
                run.retracted();
            },
            ApplyAction::Done => break,
        }
    }
    proof {
        lemma_newly_logged_bound(t, all);
    }
    run.stats()
}

/// A line of a batch that is not blank, with its number, counted from one.
#[derive(Debug, Clone, PartialEq, Eq)]
pub struct EventLine {
    pub number: usize,
    pub text: String,
}

/// A line of a batch, with its text as a character sequence.
pub struct EventLineView {
    pub number: nat,
    pub text: Seq<char>,
}

impl View for EventLine {
    type V = EventLineView;

    open spec fn view(&self) -> EventLineView {
        EventLineView { number: self.number as nat, text: self.text@ }
    }
}

/// The lines that are not blank, each with its number among all of them.
pub open spec fn not_blank(lines: Seq<Seq<char>>) -> Seq<EventLineView>
    decreases lines.len(),
{
    if lines.len() == 0 {
        seq![]
    } else {
        let before = not_blank(lines.drop_last());
        if text::is_blank(lines.last()) {
            before
        } else {
            before.push(EventLineView { number: lines.len(), text: lines.last() })
        }
    }
}

/// The lines of a batch that hold events.
pub fn event_lines(body: &str) -> (r: Vec<EventLine>)
    ensures
        model::views(r@) == not_blank(text::lines_of(body@)),
{
    let all = lines(body);
    let ghost whole = model::views(all@);
    let mut out: Vec<EventLine> = Vec::new();
    let mut i: usize = 0;
    assert(whole.take(0) =~= Seq::<Seq<char>>::empty());
    assert(model::views(out@) =~= Seq::<EventLineView>::empty());
    while i < all.len()
        invariant
            i <= all@.len(),
            whole == model::views(all@),
            model::views(out@) == not_blank(whole.take(i as int)),
        decreases all@.len() - i,
    {
        let ghost before = model::views(out@);
        let cs = chars_of(all[i].as_str());
        let len = cs.len();
        assert(cs@.subrange(0, len as int) =~= cs@);
        assert(whole.take(i + 1).drop_last() =~= whole.take(i as int));
        assert(whole.take(i + 1).last() == all@[i as int]@);
        if !blank(&cs, 0, len) {
            let line = EventLine { number: i + 1, text: all[i].clone() };
            out.push(line);
            assert(model::views(out@) =~= before.push(line@));
        }
        i = i + 1;
    }
    assert(whole.take(whole.len() as int) =~= whole);
    out
}

/// The first line, from `at` on, that holds no event, or their number.
pub open spec fn first_unparsed(parsed: Seq<Option<EventView>>, at: int) -> int
    decreases parsed.len() - at,
{
    if 0 <= at < parsed.len() && parsed[at] is Some {
        first_unparsed(parsed, at + 1)
    } else {
        at
    }
}

/// The events of a batch, by what parsing each of its lines gave: all of them in their order where
/// every line holds one, else the number of the first line that holds none.
pub open spec fn events_of_file(lines: Seq<EventLineView>, parsed: Seq<Option<EventView>>) -> Result<Seq<EventView>, nat> {
    let bad = first_unparsed(parsed, 0);
    if bad < parsed.len() {
        Err(lines[bad].number)
    } else {
        Ok(parsed.map_values(|e: Option<EventView>| e->0))
    }
}

/// What parsing each line gave, by its views.
pub open spec fn parsed_views(parsed: Seq<Option<Event>>) -> Seq<Option<EventView>> {
    parsed.map_values(|e: Option<Event>| model::option_view(e))
}

/// The events of a batch, or the number of the line that refuses it.
pub open spec fn file_view(r: Result<Vec<Event>, usize>) -> Result<Seq<EventView>, nat> {
    match r {
        Ok(events) => Ok(model::views(events@)),
        Err(number) => Err(number as nat),
    }
}

/// The events of a batch, by what parsing each of its lines gave. A line that holds no event refuses
/// the batch as a whole.
pub fn file_events(lines: &Vec<EventLine>, parsed: Vec<Option<Event>>) -> (r: Result<Vec<Event>, usize>)
    requires
        lines@.len() == parsed@.len(),
    ensures
        file_view(r) == events_of_file(model::views(lines@), parsed_views(parsed@)),
{
    let ghost all = parsed_views(parsed@);
    let mut events: Vec<Event> = Vec::new();
    let mut i: usize = 0;
    for one in it: parsed
        invariant
            it.seq() == parsed@,
            i == it.index(),
            lines@.len() == parsed@.len(),
            all == parsed_views(parsed@),
            events@.len() == i,
            forall|j: int| 0 <= j < i ==> all[j] == Some((#[trigger] events@[j])@),
            first_unparsed(all, 0) == first_unparsed(all, i as int),
    {
        assert(all[i as int] == model::option_view(one));
        assert(i < lines.len());
        match one {
            Some(event) => events.push(event),
            None => {
                assert(model::views(lines@)[i as int] == lines@[i as int]@);
                return Err(lines[i].number);
            },
        }
        i = i + 1;
    }
    assert(model::views(events@) =~= all.map_values(|e: Option<EventView>| e->0));
    Ok(events)
}

proof fn lemma_first_unparsed(parsed: Seq<Option<EventView>>, at: int)
    requires
        0 <= at <= parsed.len(),
    ensures
        at <= first_unparsed(parsed, at) <= parsed.len(),
        forall|i: int| at <= i < first_unparsed(parsed, at) ==> (#[trigger] parsed[i]) is Some,
        first_unparsed(parsed, at) < parsed.len() ==> parsed[first_unparsed(parsed, at)] is None,
    decreases parsed.len() - at,
{
    if at < parsed.len() && parsed[at] is Some {
        lemma_first_unparsed(parsed, at + 1);
    }
}

/// A batch is taken exactly when each of its lines holds an event, and then it is taken whole and in
/// order. Else it is refused with the number of a line that holds none, all lines before it holding one.
pub proof fn batch_is_taken_whole(lines: Seq<EventLineView>, parsed: Seq<Option<EventView>>)
    requires
        lines.len() == parsed.len(),
    ensures
        events_of_file(lines, parsed) is Ok <==> forall|i: int| 0 <= i < parsed.len() ==> (#[trigger] parsed[i]) is Some,
        match events_of_file(lines, parsed) {
            Ok(events) => events.len() == lines.len() && forall|i: int|
                0 <= i < parsed.len() ==> parsed[i] == Some(#[trigger] events[i]),
            Err(number) => exists|bad: int|
                {
                    &&& 0 <= bad < parsed.len()
                    &&& number == (#[trigger] lines[bad]).number
                    &&& parsed[bad] is None
                    &&& forall|i: int| 0 <= i < bad ==> (#[trigger] parsed[i]) is Some
                },
        },
{
    lemma_first_unparsed(parsed, 0);
    let bad = first_unparsed(parsed, 0);
    if bad < parsed.len() {
        assert(lines[bad].number == lines[bad].number);
    } else if let Ok(events) = events_of_file(lines, parsed) {
        assert forall|i: int| 0 <= i < parsed.len() implies parsed[i] == Some(#[trigger] events[i]) by {
            assert(parsed[i] is Some);
        }
    }
}

/// Applies a batch to the tables, by what parsing each of its lines gave. A batch that is refused leaves
/// the tables as they are, whatever lines come before the one that refuses it.
pub fn apply_file(tables: &mut Tables, lines: &Vec<EventLine>, parsed: Vec<Option<Event>>) -> (r: Result<
    ApplyStats,
    usize,
>)
    requires
        old(tables).well_formed(),
        lines@.len() == parsed@.len(),
    ensures
        final(tables).well_formed(),
        match events_of_file(model::views(lines@), parsed_views(parsed@)) {
            Ok(events) => {
                &&& final(tables)@ == applied(old(tables)@, events)
                &&& r == Ok::<ApplyStats, usize>(
                    ApplyStats {
                        files: 0,
                        events: lines@.len() as usize,
                        inserted: newly_logged(old(tables)@, events) as usize,
                    },
                )
            },
            Err(number) => {
                &&& final(tables)@ == old(tables)@
                &&& r matches Err(n) && n == number
            },
        },
{
    proof {
        batch_is_taken_whole(model::views(lines@), parsed_views(parsed@));
    }
    match file_events(lines, parsed) {
        Ok(events) => Ok(apply_events(tables, events)),
        Err(number) => Err(number),
    }
}

/// The lines of a written batch come back as they were written, numbered from one.
pub proof fn batch_lines_come_back(lines: Seq<Seq<char>>)
    requires
        forall|i: int| 0 <= i < lines.len() ==> text::fits_a_line(#[trigger] lines[i]) && !text::is_blank(lines[i]),
    ensures
        not_blank(text::lines_of(text::ended_lines(lines))) == Seq::new(
            lines.len(),
            |i: int| EventLineView { number: (i + 1) as nat, text: lines[i] },
        ),
{
    text::ended_lines_read_back(lines);
    lemma_all_lines_count(lines);
}

proof fn lemma_all_lines_count(lines: Seq<Seq<char>>)
    requires
        forall|i: int| 0 <= i < lines.len() ==> !text::is_blank(#[trigger] lines[i]),
    ensures
        not_blank(lines) == Seq::new(
            lines.len(),
            |i: int| EventLineView { number: (i + 1) as nat, text: lines[i] },
        ),
    decreases lines.len(),
{
    if lines.len() > 0 {
        assert forall|i: int| 0 <= i < lines.drop_last().len() implies !text::is_blank(
            #[trigger] lines.drop_last()[i],
        ) by {
            assert(lines.drop_last()[i] == lines[i]);
        }
        lemma_all_lines_count(lines.drop_last());
        assert(!text::is_blank(lines[lines.len() - 1]));
    }
    assert(not_blank(lines) =~= Seq::new(
        lines.len(),
        |i: int| EventLineView { number: (i + 1) as nat, text: lines[i] },
    ));
}

/// Where an application of a spool stands.
#[derive(Debug, Clone, Copy, PartialEq, Eq, Structural)]
pub enum SpoolPhase {
    /// The file at hand has to be applied.
    Apply,
    /// The file at hand is applied and has to be removed.
    Remove,
    /// Nothing is left to do.
    Done,
}

/// What an application of a spool asks for next; an index tells the file.
#[derive(Debug, Clone, Copy, PartialEq, Eq, Structural)]
pub enum SpoolAction {
    /// Apply the events of the file, all of them or none.
    Apply { index: usize },
    /// Remove the file.
    Remove { index: usize },
    Done,
}

/// An application of the files of a spool, in their order.
#[derive(Debug, Clone, Copy, PartialEq, Eq, Structural)]
pub struct SpoolRun {
    pub files: usize,
    pub delete_after: bool,
    pub phase: SpoolPhase,
    pub at: usize,
    pub stats: ApplyStats,
}

impl SpoolRun {
    /// Whether there is a file at hand where one is needed, and every file before it is counted.
    pub open spec fn well_formed(self) -> bool {
        &&& self.phase != SpoolPhase::Done <==> self.at < self.files
        &&& self.at <= self.files
        &&& self.stats.files == (if self.phase == SpoolPhase::Remove {
            self.at + 1
        } else {
            self.at as int
        })
        &&& self.phase == SpoolPhase::Remove ==> self.delete_after
    }

    /// The state behind the file at hand.
    pub open spec fn behind(self) -> SpoolRun {
        SpoolRun {
            phase: if self.at + 1 < self.files {
                SpoolPhase::Apply
            } else {
                SpoolPhase::Done
            },
            at: (self.at + 1) as usize,
            ..self
        }
    }

    /// The state after the file at hand was applied: it counts, and it is to be removed where files
    /// are removed.
    pub open spec fn after_apply(self, s: ApplyStats) -> SpoolRun {
        let counted = SpoolRun {
            stats: ApplyStats {
                files: (self.stats.files + 1) as usize,
                events: (self.stats.events + s.events) as usize,
                inserted: (self.stats.inserted + s.inserted) as usize,
            },
            ..self
        };
        if self.delete_after {
            SpoolRun { phase: SpoolPhase::Remove, ..counted }
        } else {
            counted.behind()
        }
    }

    /// What the application asks for in its state.
    pub open spec fn next_action(self) -> SpoolAction {
        match self.phase {
            SpoolPhase::Apply => SpoolAction::Apply { index: self.at },
            SpoolPhase::Remove => SpoolAction::Remove { index: self.at },
            SpoolPhase::Done => SpoolAction::Done,
        }
    }

    /// What the application asks for next.
    pub fn action(&self) -> (r: SpoolAction)
        ensures
            r == self.next_action(),
    {
        match self.phase {
            SpoolPhase::Apply => SpoolAction::Apply { index: self.at },
            SpoolPhase::Remove => SpoolAction::Remove { index: self.at },
            SpoolPhase::Done => SpoolAction::Done,
        }
    }

    /// Takes in what applying the file at hand gave.
    pub fn applied(&mut self, s: ApplyStats)
        requires
            old(self).well_formed(),
            old(self).phase == SpoolPhase::Apply,
            old(self).stats.events + s.events <= usize::MAX,
            old(self).stats.inserted + s.inserted <= usize::MAX,
        ensures
            final(self).well_formed(),
            *final(self) == old(self).after_apply(s),
    {
        self.stats = ApplyStats {
            files: self.stats.files + 1,
            events: self.stats.events + s.events,
            inserted: self.stats.inserted + s.inserted,
        };
        if self.delete_after {
            self.phase = SpoolPhase::Remove;
        } else {
            self.advance();
        }
    }

    /// The file at hand was removed.
    pub fn removed(&mut self)
        requires
            old(self).well_formed(),
            old(self).phase == SpoolPhase::Remove,
        ensures
            final(self).well_formed(),
            *final(self) == old(self).behind(),
    {
        self.advance();
    }

    fn advance(&mut self)
        requires
            old(self).at < old(self).files,
        ensures
            *final(self) == old(self).behind(),
    {
        self.at = self.at + 1;
        self.phase = if self.at < self.files {
            SpoolPhase::Apply
        } else {
            SpoolPhase::Done
        };
    }
}

/// An application of `files` files, which are removed once they are applied where `delete_after` says
/// so.
pub open spec fn spool_start(files: usize, delete_after: bool) -> SpoolRun {
    SpoolRun {
        files,
        delete_after,
        phase: if files == 0 {
            SpoolPhase::Done
        } else {
            SpoolPhase::Apply
        },
        at: 0,
        stats: ApplyStats { files: 0, events: 0, inserted: 0 },
    }
}

/// Starts an application of `files` files.
pub fn apply_spool(files: usize, delete_after: bool) -> (r: SpoolRun)
    ensures
        r == spool_start(files, delete_after),
        r.well_formed(),
{
    SpoolRun {
        files,
        delete_after,
        phase: if files == 0 {
            SpoolPhase::Done
        } else {
            SpoolPhase::Apply
        },
        at: 0,
        stats: ApplyStats::default(),
    }
}

/// What an application of a spool asks for from `run` on, where the files give `outcomes`: it ends
/// early where a file gives none, because applying it failed.
pub open spec fn spool_actions(run: SpoolRun, outcomes: Seq<ApplyStats>) -> Seq<SpoolAction>
    decreases outcomes.len(),
{
    match run.next_action() {
        SpoolAction::Apply { index } => if outcomes.len() == 0 {
            seq![run.next_action()]
        } else {
            let applied = run.after_apply(outcomes[0]);
            if applied.phase == SpoolPhase::Remove {
                seq![run.next_action(), applied.next_action()] + spool_actions(applied.behind(), outcomes.drop_first())
            } else {
                seq![run.next_action()] + spool_actions(applied, outcomes.drop_first())
            }
        },
        _ => seq![run.next_action()],
    }
}

proof fn lemma_spool_actions(run: SpoolRun, outcomes: Seq<ApplyStats>, i: int)
    requires
        run.well_formed(),
        run.phase != SpoolPhase::Remove,
        0 <= i < spool_actions(run, outcomes).len(),
    ensures
        ({
            let actions = spool_actions(run, outcomes);
            match actions[i] {
                SpoolAction::Remove { index } => {
                    &&& run.delete_after
                    &&& i > 0
                    &&& actions[i - 1] == (SpoolAction::Apply { index })
                    &&& index < run.at + outcomes.len()
                },
                SpoolAction::Apply { index } => {
                    &&& run.at <= index < run.files
                    &&& run.delete_after ==> i == 2 * (index - run.at)
                    &&& !run.delete_after ==> i == index - run.at
                },
                SpoolAction::Done => run.files <= run.at + outcomes.len(),
            }
        }),
    decreases outcomes.len(),
{
    if run.phase == SpoolPhase::Apply && outcomes.len() > 0 {
        let applied = run.after_apply(outcomes[0]);
        let rest = outcomes.drop_first();
        if run.delete_after {
            if i >= 2 {
                lemma_spool_actions(applied.behind(), rest, i - 2);
            }
        } else if i >= 1 {
            lemma_spool_actions(applied, rest, i - 1);
        }
    }
}

/// The files of a spool are applied one after the other, in their order and each once. A file is
/// removed only right after it was applied, and only where files are removed: a file whose
/// application fails stays, and so does every file behind it. All files are done only when each gave
/// an outcome.
pub proof fn spool_file_goes_only_once_applied(
    files: usize,
    delete_after: bool,
    outcomes: Seq<ApplyStats>,
    i: int,
)
    requires
        0 <= i < spool_actions(spool_start(files, delete_after), outcomes).len(),
    ensures
        ({
            let actions = spool_actions(spool_start(files, delete_after), outcomes);
            match actions[i] {
                SpoolAction::Remove { index } => {
                    &&& delete_after
                    &&& i > 0
                    &&& actions[i - 1] == (SpoolAction::Apply { index })
                    &&& index < outcomes.len()
                },
                SpoolAction::Apply { index } => {
                    &&& index < files
                    &&& i == (if delete_after {
                        2 * index
                    } else {
                        index as int
                    })
                },
                SpoolAction::Done => files <= outcomes.len(),
            }
        }),
{
    lemma_spool_actions(spool_start(files, delete_after), outcomes, i);
}

/// After an event was logged, its row is taken away if it is a deletion, and written if it is anything
/// else with a payload, whatever else the event holds. A row is touched by no event whose number was taken and by
/// none without a payload.
pub proof fn the_row_follows_a_new_event(run: ApplyView, n: nat)
    requires
        run.at < run.events.len(),
    ensures
        ({
            let e = run.events[run.at as int];
            let next = run.logged(n);
            &&& n > 0 && e.op == "D"@ ==> next.action() == (ApplyAction::Delete { index: run.at as usize })
            &&& n > 0 && e.op != "D"@ && e.after is Some ==> next.action() == (ApplyAction::Upsert {
                index: run.at as usize,
            })
            &&& n == 0 || (e.op != "D"@ && e.after is None) ==> next.action() == (ApplyAction::Watermark {
                index: run.at as usize,
            })
            &&& next.inserted == run.inserted + n
            &&& next.events == run.events
            &&& next.at == run.at
        }),
{
}

/// An application logs the first event first. Behind the row comes the watermark; behind the watermark
/// the next event is logged, and behind the last one the live rows under later deletions go, which ends
/// it. Without events there is nothing to do.
pub proof fn an_application_goes_event_by_event(run: ApplyView)
    ensures
        ({
            let start = ApplyView::start(run.events);
            &&& start.events == run.events && start.at == 0 && start.inserted == 0
            &&& start.action() == (if run.events.len() == 0 {
                ApplyAction::Done
            } else {
                ApplyAction::Insert { index: 0 }
            })
        }),
        ({
            let next = run.row_done();
            &&& next.events == run.events && next.at == run.at && next.inserted == run.inserted
            &&& next.action() == (ApplyAction::Watermark { index: run.at as usize })
        }),
        ({
            let next = run.marked();
            &&& next.events == run.events && next.at == run.at + 1 && next.inserted == run.inserted
            &&& next.action() == (if run.at + 1 < run.events.len() {
                ApplyAction::Insert { index: (run.at + 1) as usize }
            } else {
                ApplyAction::Retract
            })
        }),
        ({
            let next = run.retracted();
            &&& next.events == run.events && next.at == run.at && next.inserted == run.inserted
            &&& next.action() == ApplyAction::Done
        }),
{
}

/// The lines of a batch that are kept are exactly those with a character that is no white space, each
/// with its own text and its number, counted from one over all lines, in order.
pub proof fn every_line_with_text_is_kept(lines: Seq<Seq<char>>, line: Seq<char>)
    ensures
        not_blank(seq![]).len() == 0,
        (exists|i: int| 0 <= i < line.len() && !text::is_space(#[trigger] line[i])) ==> not_blank(lines.push(line))
            == not_blank(lines).push(EventLineView { number: lines.len() + 1, text: line }),
        (forall|i: int| 0 <= i < line.len() ==> text::is_space(#[trigger] line[i])) ==> not_blank(lines.push(line))
            == not_blank(lines),
{
    assert(lines.push(line).drop_last() =~= lines);
}

/// The figures of a spool are the sums over its files: a file that was applied counts once, with its
/// events and those of them that were new, and nothing else changes the figures.
pub proof fn figures_add_up(run: SpoolRun, s: ApplyStats)
    requires
        run.at < run.files,
        run.stats.files < usize::MAX,
        run.stats.events + s.events <= usize::MAX,
        run.stats.inserted + s.inserted <= usize::MAX,
    ensures
        spool_start(run.files, run.delete_after).stats == (ApplyStats { files: 0, events: 0, inserted: 0 }),
        run.after_apply(s).stats.files == run.stats.files + 1,
        run.after_apply(s).stats.events == run.stats.events + s.events,
        run.after_apply(s).stats.inserted == run.stats.inserted + s.inserted,
        run.behind().stats == run.stats,
        run.behind().at == run.at + 1,
        run.after_apply(s).files == run.files && run.after_apply(s).delete_after == run.delete_after,
        run.behind().files == run.files && run.behind().delete_after == run.delete_after,
{
}

/// A file that was applied is removed next where files are removed; behind it comes the next file, and
/// behind the last one nothing.
pub proof fn files_are_applied_in_turn(run: SpoolRun, s: ApplyStats)
    requires
        run.at < run.files,
    ensures
        spool_start(run.files, run.delete_after).next_action() == (SpoolAction::Apply { index: 0 }),
        spool_start(0, run.delete_after).next_action() == SpoolAction::Done,
        run.delete_after ==> run.after_apply(s).next_action() == (SpoolAction::Remove { index: run.at }),
        !run.delete_after ==> run.after_apply(s).next_action() == run.behind().next_action(),
        run.behind().next_action() == (if run.at + 1 < run.files {
            SpoolAction::Apply { index: (run.at + 1) as usize }
        } else {
            SpoolAction::Done
        }),
{
}

} // verus!
