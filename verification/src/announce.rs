//! Announce files: each names a database and its sqlite file, as `{db_name, sqlite_path}`.

use vstd::prelude::*;

use crate::error::{CaptureError, ErrorView};
use crate::event;
use crate::event::validate_db_name;
use crate::model;
use crate::order;
use crate::order::{is_bytes_up_to, sort, Ordered};
use crate::text::same_bytes;

verus! {

/// An announced database.
#[derive(Debug, Clone, PartialEq, Eq)]
pub struct Announce {
    pub db_name: String,
    pub sqlite_path: String,
}

/// An announced database, with its names as character sequences.
pub struct AnnounceView {
    pub db_name: Seq<char>,
    pub sqlite_path: Seq<char>,
}

impl View for Announce {
    type V = AnnounceView;

    open spec fn view(&self) -> AnnounceView {
        AnnounceView { db_name: self.db_name@, sqlite_path: self.sqlite_path@ }
    }
}

/// What becomes of what an announce file holds: a name that is no database name refuses it, and then
/// an empty path does.
pub open spec fn checked(a: AnnounceView, file: Seq<char>) -> Result<AnnounceView, ErrorView> {
    if !event::valid_db_name(a.db_name) {
        Err(ErrorView::DbName { name: a.db_name })
    } else if a.sqlite_path.len() == 0 {
        Err(ErrorView::EmptySqlitePath { file })
    } else {
        Ok(a)
    }
}

/// Accepts what an announce file holds, or refuses it.
pub fn check_announce(a: Announce, file: &str) -> (r: Result<Announce, CaptureError>)
    ensures
        model::result_view(r) == checked(a@, file@),
{
    match validate_db_name(a.db_name.as_str()) {
        Err(e) => Err(e),
        Ok(_) => if a.sqlite_path.as_str().is_empty() {
            Err(CaptureError::EmptySqlitePath { file: file.to_owned() })
        } else {
            Ok(a)
        },
    }
}

/// The name of the announce file of a database.
pub fn announce_file(db_name: &str) -> (r: Result<String, CaptureError>)
    ensures
        model::result_view(r) == (if event::valid_db_name(db_name@) {
            Ok(db_name@ + ".json"@)
        } else {
            Err(ErrorView::DbName { name: db_name@ })
        }),
{
    match validate_db_name(db_name) {
        Err(e) => Err(e),
        Ok(_) => {
            let mut name = db_name.to_owned();
            name.append(".json");
            Ok(name)
        },
    }
}

/// What is announced of a database, by what its announce file holds, if there is one.
pub open spec fn named(
    db_name: Seq<char>,
    file: Seq<char>,
    found: Option<AnnounceView>,
) -> Result<Option<AnnounceView>, ErrorView> {
    if !event::valid_db_name(db_name) {
        Err(ErrorView::DbName { name: db_name })
    } else {
        match found {
            None => Ok(None),
            Some(a) => match checked(a, file) {
                Ok(a) => Ok(Some(a)),
                Err(e) => Err(e),
            },
        }
    }
}

/// An announcement, if there is one, or a refusal, by their views.
pub open spec fn announce_view(r: Result<Option<Announce>, CaptureError>) -> Result<Option<AnnounceView>, ErrorView> {
    match r {
        Ok(a) => Ok(model::option_view(a)),
        Err(e) => Err(e@),
    }
}

/// What is announced of a database, by what its announce file holds, if there is one.
pub fn load_named(db_name: &str, file: &str, found: Option<Announce>) -> (r: Result<Option<Announce>, CaptureError>)
    ensures
        announce_view(r) == named(db_name@, file@, model::option_view(found)),
{
    match validate_db_name(db_name) {
        Err(e) => Err(e),
        Ok(_) => match found {
            None => Ok(None),
            Some(a) => match check_announce(a, file) {
                Ok(a) => Ok(Some(a)),
                Err(e) => Err(e),
            },
        },
    }
}

/// The name of a file in the announce directory.
#[derive(Debug, Clone, PartialEq, Eq)]
pub struct FileName {
    pub bytes: Vec<u8>,
}

impl View for FileName {
    type V = Seq<u8>;

    open spec fn view(&self) -> Seq<u8> {
        self.bytes@
    }
}

impl Ordered for FileName {
    open spec fn up_to(&self, other: &Self) -> bool {
        order::bytes_up_to(self@, other@)
    }

    proof fn up_to_total(a: &Self, b: &Self) {
        order::lemma_bytes_total(a@, b@);
    }

    proof fn up_to_transitive(a: &Self, b: &Self, c: &Self) {
        order::lemma_bytes_transitive(a@, b@, c@);
    }

    fn is_up_to(&self, other: &Self) -> (r: bool) {
        is_bytes_up_to(self.bytes.as_slice(), other.bytes.as_slice())
    }
}

/// Whether a file name ends in `.json`, with something before it.
pub open spec fn is_json_name(name: Seq<u8>) -> bool {
    name.len() > 5 && name.skip(name.len() - 5) == seq![46u8, 106, 115, 111, 110]
}

/// Whether a file is an announce file, by its name.
pub open spec fn announces() -> spec_fn(FileName) -> bool {
    |name: FileName| is_json_name(name@)
}

fn json_name(name: &FileName) -> (r: bool)
    ensures
        r == is_json_name(name@),
{
    let len = name.bytes.len();
    if len <= 5 {
        return false;
    }
    let suffix: [u8; 5] = [46, 106, 115, 111, 110];
    assert(suffix@ =~= seq![46u8, 106, 115, 111, 110]);
    assert(name@.subrange(len - 5, len as int) =~= name@.skip(len - 5));
    same_bytes(vstd::slice::slice_subrange(name.bytes.as_slice(), len - 5, len), suffix.as_slice())
}

/// The announce files among the files of a directory, in the order of their names.
pub fn announce_names(names: Vec<FileName>) -> (r: Vec<FileName>)
    ensures
        order::in_order(r@),
        r@.to_multiset() == names@.filter(announces()).to_multiset(),
{
    let mut out: Vec<FileName> = Vec::new();
    let ghost mut n: int = 0;
    assert(names@.take(0) =~= Seq::<FileName>::empty());
    reveal(Seq::filter);
    for name in it: names
        invariant
            it.seq() == names@,
            n == it.index(),
            out@ == names@.take(n).filter(announces()),
    {
        proof {
            reveal(Seq::filter);
            assert(names@.take(n + 1).drop_last() =~= names@.take(n));
            assert(names@.take(n + 1).last() == name);
        }
        if json_name(&name) {
            out.push(name);
        }
        proof {
            n = n + 1;
        }
    }
    assert(names@.take(names@.len() as int) =~= names@);
    sort(out)
}

/// An announce file that was read: its name, and what it holds where it could be read.
#[derive(Debug, Clone, PartialEq, Eq)]
pub struct AnnounceFile {
    pub file: String,
    pub parsed: Option<Announce>,
}

/// An announce file that was read, with its name as a character sequence.
pub struct AnnounceFileView {
    pub file: Seq<char>,
    pub parsed: Option<AnnounceView>,
}

impl View for AnnounceFile {
    type V = AnnounceFileView;

    open spec fn view(&self) -> AnnounceFileView {
        AnnounceFileView { file: self.file@, parsed: model::option_view(self.parsed) }
    }
}

/// The databases that files announce, in the order of the files. A file that could not be read, or
/// that is refused, is passed over.
pub open spec fn announced(files: Seq<AnnounceFileView>) -> Seq<AnnounceView>
    decreases files.len(),
{
    if files.len() == 0 {
        seq![]
    } else {
        let before = announced(files.drop_last());
        match files.last().parsed {
            None => before,
            Some(a) => match checked(a, files.last().file) {
                Ok(a) => before.push(a),
                Err(_) => before,
            },
        }
    }
}

/// The databases that files announce.
pub fn load_dir(files: Vec<AnnounceFile>) -> (r: Vec<Announce>)
    ensures
        model::views(r@) == announced(model::views(files@)),
{
    let ghost all = model::views(files@);
    let mut out: Vec<Announce> = Vec::new();
    let ghost mut n: int = 0;
    assert(all.take(0) =~= Seq::<AnnounceFileView>::empty());
    assert(model::views(out@) =~= Seq::<AnnounceView>::empty());
    for f in it: files
        invariant
            it.seq() == files@,
            n == it.index(),
            all == model::views(files@),
            model::views(out@) == announced(all.take(n)),
    {
        let ghost before = model::views(out@);
        proof {
            assert(all.take(n + 1).drop_last() =~= all.take(n));
            assert(all.take(n + 1).last() == f@);
        }
        if let Some(a) = f.parsed {
            if let Ok(a) = check_announce(a, f.file.as_str()) {
                out.push(a);
                assert(model::views(out@) =~= before.push(a@));
            }
        }
        proof {
            n = n + 1;
        }
    }
    assert(all.take(all.len() as int) =~= all);
    out
}

/// Every database that a directory announces has a name that can stand as a file name, and a path.
pub proof fn announced_databases_are_named(files: Seq<AnnounceFileView>)
    ensures
        forall|i: int|
            0 <= i < announced(files).len() ==> event::valid_db_name((#[trigger] announced(files)[i]).db_name)
                && announced(files)[i].sqlite_path.len() > 0,
    decreases files.len(),
{
    if files.len() > 0 {
        let before = announced(files.drop_last());
        announced_databases_are_named(files.drop_last());
        assert forall|i: int| 0 <= i < announced(files).len() implies event::valid_db_name(
            (#[trigger] announced(files)[i]).db_name,
        ) && announced(files)[i].sqlite_path.len() > 0 by {
            if i < before.len() {
                assert(announced(files)[i] == before[i]);
            }
        }
    }
}

/// What an announce file holds is taken as it is exactly when its name is a database name and its path is
/// not empty. A bad name is named by the refusal, whatever the path; an empty path by the file.
pub proof fn an_announcement_is_taken_as_it_is(a: AnnounceView, file: Seq<char>)
    ensures
        event::valid_db_name(a.db_name) && a.sqlite_path.len() > 0 ==> checked(a, file) == Ok::<AnnounceView, ErrorView>(
            AnnounceView { db_name: a.db_name, sqlite_path: a.sqlite_path },
        ),
        !event::valid_db_name(a.db_name) ==> checked(a, file) == Err::<AnnounceView, ErrorView>(
            ErrorView::DbName { name: a.db_name },
        ),
        event::valid_db_name(a.db_name) && a.sqlite_path.len() == 0 ==> checked(a, file) == Err::<AnnounceView, ErrorView>(
            ErrorView::EmptySqlitePath { file },
        ),
{
}

/// The announcement of a named database is the one that its file holds. Without a file there is none; a
/// name that is no database name is refused, and so is what may not be announced.
pub proof fn a_named_announcement_is_the_one_in_its_file(
    db_name: Seq<char>,
    file: Seq<char>,
    found: Option<AnnounceView>,
)
    ensures
        !event::valid_db_name(db_name) ==> named(db_name, file, found) == Err::<Option<AnnounceView>, ErrorView>(
            ErrorView::DbName { name: db_name },
        ),
        event::valid_db_name(db_name) ==> match found {
            None => named(db_name, file, found) == Ok::<Option<AnnounceView>, ErrorView>(None),
            Some(a) => if !event::valid_db_name(a.db_name) {
                named(db_name, file, found) == Err::<Option<AnnounceView>, ErrorView>(
                    ErrorView::DbName { name: a.db_name },
                )
            } else if a.sqlite_path.len() == 0 {
                named(db_name, file, found) == Err::<Option<AnnounceView>, ErrorView>(
                    ErrorView::EmptySqlitePath { file },
                )
            } else {
                named(db_name, file, found) == Ok::<Option<AnnounceView>, ErrorView>(Some(a))
            },
        },
{
}

/// One file more announces what it holds, behind everything announced before, if that was read and names
/// a database and a path; else it adds nothing.
pub proof fn each_good_file_announces_its_database(files: Seq<AnnounceFileView>, next: AnnounceFileView)
    ensures
        announced(seq![]).len() == 0,
        announced(files.push(next)) == (match next.parsed {
            Some(a) => if event::valid_db_name(a.db_name) && a.sqlite_path.len() > 0 {
                announced(files).push(a)
            } else {
                announced(files)
            },
            None => announced(files),
        }),
{
    assert(files.push(next).drop_last() =~= files);
}

/// A file is an announce file exactly when its name is something and `.json` behind it, and announce
/// files go by their names, byte by byte.
pub proof fn announce_files_by_their_names(a: FileName, b: FileName)
    ensures
        announces()(a) <==> {
            let n = a.bytes@.len() as int;
            &&& n > 5
            &&& a.bytes@[n - 5] == '.' as u8 && a.bytes@[n - 4] == 'j' as u8 && a.bytes@[n - 3] == 's' as u8
            &&& a.bytes@[n - 2] == 'o' as u8 && a.bytes@[n - 1] == 'n' as u8
        },
        a.up_to(&b) <==> order::bytes_up_to(a.bytes@, b.bytes@),
{
    let n = a.bytes@.len() as int;
    if n > 5 {
        let end = a.bytes@.skip(n - 5);
        let suffix = seq![46u8, 106, 115, 111, 110];
        assert forall|i: int| 0 <= i < 5 implies end[i] == a.bytes@[n - 5 + i] by {}
        if end == suffix {
            assert(end[0] == 46 && end[1] == 106 && end[2] == 115 && end[3] == 111 && end[4] == 110);
        } else if a.bytes@[n - 5] == 46 && a.bytes@[n - 4] == 106 && a.bytes@[n - 3] == 115 && a.bytes@[n - 2] == 111
            && a.bytes@[n - 1] == 110 {
            assert(end =~= suffix);
        }
    }
}

} // verus!
