//! Closed batches in the spool: how their files are named and in which order they are read.
//!
//! A batch is written under a temporary name and renamed once it is complete, so that nobody sees a
//! part of one.

use vstd::prelude::*;
use vstd::utf8;

use crate::event::{Event, EventView};
use crate::model;
use crate::number;
use crate::number::{parse_i64, push_decimal};
use crate::order;
use crate::order::{is_bytes_up_to, is_parts_up_to, sort, Ordered};
use crate::text;
use crate::text::same_bytes;

verus! {

/// How many events a batch holds at most.
pub const JSONL_BATCH: usize = 5_000;

/// Where a batch goes: the directory below the spool, the name of the file, and the name under which
/// it is written.
#[derive(Debug, Clone, PartialEq, Eq)]
pub struct BatchFile {
    pub dir: String,
    pub name: String,
    pub tmp_name: String,
}

/// Where a batch goes, with its names as character sequences.
pub struct BatchFileView {
    pub dir: Seq<char>,
    pub name: Seq<char>,
    pub tmp_name: Seq<char>,
}

impl View for BatchFile {
    type V = BatchFileView;

    open spec fn view(&self) -> BatchFileView {
        BatchFileView { dir: self.dir@, name: self.name@, tmp_name: self.tmp_name@ }
    }
}

/// The name of the batch from number `lo` to number `hi`.
pub open spec fn batch_name(lo: i64, hi: i64) -> Seq<char> {
    number::decimal(lo as int) + seq!['-'] + number::decimal(hi as int) + ".jsonl"@
}

/// Where a batch of a database goes: nowhere where it is empty, else into the directory of the
/// database, named by the numbers of its first and its last event.
pub open spec fn batch_file(src_db: Seq<char>, events: Seq<EventView>) -> Option<BatchFileView> {
    if events.len() == 0 {
        None
    } else {
        let name = batch_name(events[0].seq, events.last().seq);
        Some(BatchFileView { dir: src_db, name, tmp_name: name + ".tmp"@ })
    }
}

/// Where a batch of a database goes; an empty batch is not written.
pub fn write_batch(src_db: &str, events: &Vec<Event>) -> (r: Option<BatchFile>)
    ensures
        model::option_view(r) == batch_file(src_db@, model::views(events@)),
{
    if events.len() == 0 {
        return None;
    }
    let lo = events[0].seq;
    let hi = events[events.len() - 1].seq;
    let mut name = String::new();
    push_decimal(&mut name, lo);
    name.push('-');
    push_decimal(&mut name, hi);
    name.append(".jsonl");
    assert(name@ =~= batch_name(lo, hi));
    let mut tmp_name = name.clone();
    tmp_name.append(".tmp");
    Some(BatchFile { dir: src_db.to_owned(), name, tmp_name })
}

/// The body of a batch, by the JSON text of each of its events.
pub fn batch_body(lines: &Vec<String>) -> (r: String)
    ensures
        r@ == text::ended_lines(model::views(lines@)),
{
    let mut out = String::new();
    let mut i: usize = 0;
    let ghost all = model::views(lines@);
    assert(all.take(0) =~= Seq::<Seq<char>>::empty());
    while i < lines.len()
        invariant
            i <= lines@.len(),
            all == model::views(lines@),
            out@ == text::ended_lines(all.take(i as int)),
        decreases lines@.len() - i,
    {
        let ghost before = out@;
        out.append(lines[i].as_str());
        out.push('\n');
        assert(all.take(i + 1).drop_last() =~= all.take(i as int));
        assert(out@ =~= before + all[i as int].push('\n'));
        i = i + 1;
    }
    assert(all.take(all.len() as int) =~= all);
    out
}

/// A file somewhere below the spool.
#[derive(Debug, Clone, PartialEq, Eq)]
pub struct SpoolFile {
    /// The name of the directory that holds it, where that is text.
    pub parent: Option<String>,
    /// The path below the spool, part by part; the last part is the name of the file.
    pub path: Vec<Vec<u8>>,
}

/// A file somewhere below the spool, with its names as sequences.
pub struct SpoolFileView {
    pub parent: Option<Seq<char>>,
    pub path: Seq<Seq<u8>>,
}

impl View for SpoolFile {
    type V = SpoolFileView;

    open spec fn view(&self) -> SpoolFileView {
        SpoolFileView { parent: model::option_view(self.parent), path: model::views(self.path@) }
    }
}

/// The bytes of `.jsonl`.
pub open spec fn jsonl_suffix() -> Seq<u8> {
    seq![46u8, 106, 115, 111, 110, 108]
}

/// Whether a file name ends in `.jsonl`, with something before it.
pub open spec fn is_jsonl_name(name: Seq<u8>) -> bool {
    name.len() > 6 && name.skip(name.len() - 6) == jsonl_suffix()
}

/// Whether a file is a closed batch, by its name.
pub open spec fn is_jsonl(file: SpoolFileView) -> bool {
    file.path.len() > 0 && is_jsonl_name(file.path.last())
}

/// Whether a byte is a hyphen.
pub open spec fn is_hyphen() -> spec_fn(u8) -> bool {
    |b: u8| b == 45
}

/// How many bytes stand before the first hyphen, or all of them.
pub open spec fn before_hyphen(s: Seq<u8>) -> nat {
    model::count_before(s, is_hyphen())
}

/// Where the first number of a text ends: at the first hyphen that is not its sign.
pub open spec fn first_end(stem: Seq<u8>) -> nat {
    if stem.len() > 0 && stem[0] == 45 {
        1 + before_hyphen(stem.skip(1))
    } else {
        before_hyphen(stem)
    }
}

/// The two numbers that a text holds, one before and one behind the hyphen between them.
pub open spec fn lo_hi(stem: Seq<u8>) -> Option<(i64, i64)> {
    let n = first_end(stem) as int;
    if n >= stem.len() {
        None
    } else {
        match (number::i64_value(stem.take(n)), number::i64_value(stem.skip(n + 1))) {
            (Some(lo), Some(hi)) => Some((lo, hi)),
            _ => None,
        }
    }
}

/// What a file of the spool is sorted by: the database, the numbers of its first and last event, and
/// its path.
pub struct JsonlKey {
    pub src_db: Seq<u8>,
    pub lo: i64,
    pub hi: i64,
    pub path: Seq<Seq<u8>>,
}

/// The name of a file without `.jsonl`.
pub open spec fn stem_of(file: SpoolFileView) -> Seq<u8> {
    if file.path.len() > 0 && file.path.last().len() >= 6 {
        file.path.last().take(file.path.last().len() - 6)
    } else {
        seq![]
    }
}

/// What a file of the spool is sorted by. A file whose name holds no numbers comes last in its
/// directory.
pub open spec fn jsonl_key(file: SpoolFileView) -> JsonlKey {
    let (lo, hi) = match lo_hi(stem_of(file)) {
        Some((lo, hi)) => (lo, hi),
        None => (i64::MAX, i64::MAX),
    };
    let src_db = match file.parent {
        Some(name) => utf8::encode_utf8(name),
        None => seq![],
    };
    JsonlKey { src_db, lo, hi, path: file.path }
}

/// Whether a file comes before another one or is the same.
pub open spec fn key_up_to(a: JsonlKey, b: JsonlKey) -> bool {
    if a.src_db != b.src_db {
        order::bytes_up_to(a.src_db, b.src_db)
    } else if a.lo != b.lo {
        a.lo < b.lo
    } else if a.hi != b.hi {
        a.hi < b.hi
    } else {
        order::parts_up_to(a.path, b.path)
    }
}

/// The two numbers that the first `to` bytes of a file name hold.
pub fn parse_lo_hi(name: &Vec<u8>, to: usize) -> (r: Option<(i64, i64)>)
    requires
        to <= name@.len(),
    ensures
        r == lo_hi(name@.take(to as int)),
{
    let ghost stem = name@.take(to as int);
    let from: usize = if to > 0 && name[0] == 45 {
        1
    } else {
        0
    };
    let ghost rest = stem.skip(from as int);
    let mut at: usize = from;
    while at < to && name[at] != 45
        invariant
            from <= at <= to <= name@.len(),
            stem == name@.take(to as int),
            rest == stem.skip(from as int),
            forall|i: int| 0 <= i < at - from ==> !is_hyphen()(#[trigger] rest[i]),
        decreases to - at,
    {
        assert(rest[at - from] == name@[at as int]);
        at = at + 1;
    }
    proof {
        if at < to {
            assert(rest[at - from] == name@[at as int]);
        }
        model::lemma_count_before(rest, is_hyphen(), at - from);
        assert(stem.skip(0) =~= stem);
    }
    if at == to {
        return None;
    }
    assert(name@.subrange(0, at as int) =~= stem.take(at as int));
    assert(name@.subrange(at + 1, to as int) =~= stem.skip(at + 1));
    let lo = parse_i64(vstd::slice::slice_subrange(name.as_slice(), 0, at));
    let hi = parse_i64(vstd::slice::slice_subrange(name.as_slice(), at + 1, to));
    match (lo, hi) {
        (Some(lo), Some(hi)) => Some((lo, hi)),
        _ => None,
    }
}

impl SpoolFile {
    /// Whether the file is a closed batch.
    pub fn jsonl(&self) -> (r: bool)
        ensures
            r == is_jsonl(self@),
    {
        if self.path.len() == 0 {
            return false;
        }
        let name = &self.path[self.path.len() - 1];
        assert(name@ == self@.path.last());
        let len = name.len();
        if len <= 6 {
            return false;
        }
        let suffix: [u8; 6] = [46, 106, 115, 111, 110, 108];
        assert(suffix@ =~= jsonl_suffix());
        assert(name@.subrange(len - 6, len as int) =~= name@.skip(len - 6));
        same_bytes(vstd::slice::slice_subrange(name.as_slice(), len - 6, len), suffix.as_slice())
    }

    /// The numbers by which the file is sorted.
    pub fn numbers(&self) -> (r: (i64, i64))
        ensures
            r == (jsonl_key(self@).lo, jsonl_key(self@).hi),
    {
        if self.path.len() > 0 {
            let name = &self.path[self.path.len() - 1];
            assert(name@ == self@.path.last());
            if name.len() >= 6 {
                return match parse_lo_hi(name, name.len() - 6) {
                    Some((lo, hi)) => (lo, hi),
                    None => (i64::MAX, i64::MAX),
                };
            }
        }
        assert(first_end(seq![]) == 0);
        (i64::MAX, i64::MAX)
    }

    /// The name of the database of the file, or nothing.
    fn src_db(&self) -> (r: &str)
        ensures
            utf8::encode_utf8(r@) == jsonl_key(self@).src_db,
    {
        match &self.parent {
            Some(name) => name.as_str(),
            None => {
                proof {
                    reveal_strlit("");
                    utf8::is_ascii_chars_encode_utf8(""@);
                }
                assert(utf8::encode_utf8(""@) =~= seq![]);
                ""
            },
        }
    }
}

impl Ordered for SpoolFile {
    open spec fn up_to(&self, other: &Self) -> bool {
        key_up_to(jsonl_key(self@), jsonl_key(other@))
    }

    proof fn up_to_total(a: &Self, b: &Self) {
        order::lemma_bytes_total(jsonl_key(a@).src_db, jsonl_key(b@).src_db);
        order::lemma_parts_total(a@.path, b@.path);
    }

    proof fn up_to_transitive(a: &Self, b: &Self, c: &Self) {
        let x = jsonl_key(a@);
        let y = jsonl_key(b@);
        let z = jsonl_key(c@);
        if x.src_db != y.src_db && y.src_db != z.src_db {
            order::lemma_bytes_transitive(x.src_db, y.src_db, z.src_db);
            if x.src_db == z.src_db {
                order::lemma_bytes_total(x.src_db, y.src_db);
            }
        }
        if order::parts_up_to(x.path, y.path) && order::parts_up_to(y.path, z.path) {
            order::lemma_parts_transitive(x.path, y.path, z.path);
        }
    }

    fn is_up_to(&self, other: &Self) -> (r: bool) {
        let a = self.src_db().as_bytes();
        let b = other.src_db().as_bytes();
        let (a_lo, a_hi) = self.numbers();
        let (b_lo, b_hi) = other.numbers();
        if !same_bytes(a, b) {
            is_bytes_up_to(a, b)
        } else if a_lo != b_lo {
            a_lo < b_lo
        } else if a_hi != b_hi {
            a_hi < b_hi
        } else {
            is_parts_up_to(&self.path, &other.path)
        }
    }
}

/// Whether a file is a closed batch.
pub open spec fn closed_batch() -> spec_fn(SpoolFile) -> bool {
    |file: SpoolFile| is_jsonl(file@)
}

/// The closed batches among the files of a spool, in the order in which they are applied: by
/// database, then by the numbers in their names, then by path.
pub fn list_jsonl(files: Vec<SpoolFile>) -> (r: Vec<SpoolFile>)
    ensures
        order::in_order(r@),
        r@.to_multiset() == files@.filter(closed_batch()).to_multiset(),
{
    let mut out: Vec<SpoolFile> = Vec::new();
    let ghost mut n: int = 0;
    assert(files@.take(0) =~= Seq::<SpoolFile>::empty());
    reveal(Seq::filter);
    for file in it: files
        invariant
            it.seq() == files@,
            n == it.index(),
            out@ == files@.take(n).filter(closed_batch()),
    {
        proof {
            reveal(Seq::filter);
            assert(files@.take(n + 1).drop_last() =~= files@.take(n));
            assert(files@.take(n + 1).last() == file);
        }
        if file.jsonl() {
            out.push(file);
        }
        proof {
            n = n + 1;
        }
    }
    assert(files@.take(files@.len() as int) =~= files@);
    sort(out)
}

/// A file that stands under a name in the directory of a database.
pub open spec fn file_of(src_db: Seq<char>, name: Seq<char>) -> SpoolFileView {
    SpoolFileView { parent: Some(src_db), path: seq![utf8::encode_utf8(src_db), utf8::encode_utf8(name)] }
}

proof fn lemma_batch_name(lo: i64, hi: i64)
    ensures
        utf8::is_ascii_chars(batch_name(lo, hi)),
        ({
            let bytes = utf8::encode_utf8(batch_name(lo, hi));
            &&& is_jsonl_name(bytes)
            &&& lo_hi(bytes.take(bytes.len() - 6)) == Some((lo, hi))
        }),
{
    reveal_strlit(".jsonl");
    let a = number::decimal(lo as int);
    let b = number::decimal(hi as int);
    let name = batch_name(lo, hi);
    let first: nat = if lo < 0 {
        (-lo) as nat
    } else {
        lo as nat
    };
    number::lemma_nat_decimal(first);
    number::lemma_nat_decimal(
        if hi < 0 {
            (-hi) as nat
        } else {
            hi as nat
        },
    );
    assert(utf8::is_ascii_chars(a));
    assert(utf8::is_ascii_chars(b));
    let n = a.len() as int;
    let m = b.len() as int;
    assert(name.len() == n + 1 + m + 6);
    assert forall|i: int| 0 <= i < name.len() implies '\0' <= #[trigger] name[i] <= '\u{7f}' by {
        if i < n {
            assert(name[i] == a[i]);
        } else if i > n && i < n + 1 + m {
            assert(name[i] == b[i - n - 1]);
        }
    }
    utf8::is_ascii_chars_encode_utf8(name);
    utf8::is_ascii_chars_encode_utf8(a);
    utf8::is_ascii_chars_encode_utf8(b);
    let bytes = utf8::encode_utf8(name);
    assert(bytes.skip(bytes.len() - 6) =~= jsonl_suffix());
    let stem = bytes.take(bytes.len() - 6);
    let k: int = if lo < 0 {
        1
    } else {
        0
    };
    let digits = number::nat_decimal(first);
    let rest = stem.skip(k);
    assert forall|i: int| 0 <= i < n - k implies !is_hyphen()(#[trigger] rest[i]) by {
        assert(name[k + i] == a[k + i]);
        assert(a[k + i] == digits[i]);
        assert(number::is_digit(number::ascii(digits)[i]));
    }
    assert(name[n] == '-');
    assert(rest[n - k] == 45);
    model::lemma_count_before(rest, is_hyphen(), n - k);
    if lo < 0 {
        assert(name[0] == a[0]);
        assert(stem[0] == 45);
    } else {
        assert(!is_hyphen()(rest[0]));
        assert(rest =~= stem);
    }
    assert(stem.take(n) =~= utf8::encode_utf8(a)) by {
        assert forall|i: int| 0 <= i < n implies stem.take(n)[i] == utf8::encode_utf8(a)[i] by {
            assert(name[i] == a[i]);
        }
    }
    assert(stem.skip(n + 1) =~= utf8::encode_utf8(b)) by {
        assert forall|i: int| 0 <= i < m implies stem.skip(n + 1)[i] == utf8::encode_utf8(b)[i] by {
            assert(name[n + 1 + i] == b[i]);
        }
    }
    number::decimal_reads_back(lo);
    number::decimal_reads_back(hi);
}

/// A batch that is written is listed, under its database and the numbers of its first and last event,
/// and the file under its temporary name is not.
pub proof fn written_batch_is_listed(src_db: Seq<char>, events: Seq<EventView>)
    requires
        events.len() > 0,
    ensures
        ({
            let batch = batch_file(src_db, events)->0;
            let key = jsonl_key(file_of(batch.dir, batch.name));
            &&& is_jsonl(file_of(batch.dir, batch.name))
            &&& file_of(batch.dir, batch.name).parent == Some(src_db)
            &&& key.src_db == utf8::encode_utf8(src_db)
            &&& key.lo == events[0].seq
            &&& key.hi == events.last().seq
            &&& !is_jsonl(file_of(batch.dir, batch.tmp_name))
        }),
{
    let lo = events[0].seq;
    let hi = events.last().seq;
    lemma_batch_name(lo, hi);
    reveal_strlit(".tmp");
    let name = batch_name(lo, hi);
    let tmp = name + ".tmp"@;
    assert(utf8::is_ascii_chars(tmp)) by {
        assert forall|i: int| 0 <= i < tmp.len() implies '\0' <= #[trigger] tmp[i] <= '\u{7f}' by {
            if i < name.len() {
                assert(tmp[i] == name[i]);
            }
        }
    }
    utf8::is_ascii_chars_encode_utf8(tmp);
    let bytes = utf8::encode_utf8(tmp);
    assert(tmp[tmp.len() - 1] == 'p');
    assert(bytes.skip(bytes.len() - 6)[5] != jsonl_suffix()[5]);
}

/// Of two batches of one database, the one whose events all have lower numbers is applied first.
pub proof fn earlier_batch_comes_first(src_db: Seq<char>, earlier: Seq<EventView>, later: Seq<EventView>)
    requires
        earlier.len() > 0,
        later.len() > 0,
        earlier[0].seq <= earlier.last().seq < later[0].seq,
    ensures
        ({
            let first = batch_file(src_db, earlier)->0;
            let second = batch_file(src_db, later)->0;
            let a = jsonl_key(file_of(first.dir, first.name));
            let b = jsonl_key(file_of(second.dir, second.name));
            key_up_to(a, b) && !key_up_to(b, a)
        }),
{
    written_batch_is_listed(src_db, earlier);
    written_batch_is_listed(src_db, later);
}

/// A batch goes nowhere exactly when it is empty. Else its directory is the name of its database, all of
/// it, and its file is named by the decimal numbers of its first and last event with a hyphen between
/// them; while it is written, the name has `.tmp` behind it.
pub proof fn a_batch_goes_to_its_database(src_db: Seq<char>, events: Seq<EventView>)
    ensures
        events.len() == 0 <==> batch_file(src_db, events) is None,
        events.len() > 0 ==> {
            let batch = batch_file(src_db, events)->0;
            &&& batch.dir == src_db
            &&& batch.name == number::decimal(events[0].seq as int) + "-"@ + number::decimal(
                events[events.len() - 1].seq as int,
            ) + ".jsonl"@
            &&& batch.tmp_name == batch.name + ".tmp"@
        },
{
    reveal_strlit("-");
    assert("-"@ =~= seq!['-']);
}

/// Two batches have the same file only if they are batches of the same database with the same first and
/// last number.
pub proof fn batches_do_not_share_a_file(a_db: Seq<char>, a: Seq<EventView>, b_db: Seq<char>, b: Seq<EventView>)
    requires
        a.len() > 0,
        b.len() > 0,
    ensures
        ({
            let x = batch_file(a_db, a)->0;
            let y = batch_file(b_db, b)->0;
            x.dir == y.dir && x.name == y.name <==> a_db == b_db && a[0].seq == b[0].seq && a[a.len() - 1].seq
                == b[b.len() - 1].seq
        }),
{
    lemma_batch_name(a[0].seq, a.last().seq);
    lemma_batch_name(b[0].seq, b.last().seq);
}

/// The two numbers of a name stand before and behind a hyphen; one in front of everything is a sign. A
/// name without another hyphen holds no numbers.
pub proof fn numbers_stand_around_a_hyphen(a: Seq<u8>, b: Seq<u8>)
    requires
        forall|i: int| 1 <= i < a.len() ==> (#[trigger] a[i]) != 45,
    ensures
        a.len() > 0 ==> lo_hi(a + seq![45u8] + b) == (match (number::i64_value(a), number::i64_value(b)) {
            (Some(lo), Some(hi)) => Some((lo, hi)),
            _ => None,
        }),
        lo_hi(a) is None,
{
    let k: int = if a.len() > 0 && a[0] == 45 {
        1
    } else {
        0
    };
    if a.len() > 0 {
        let stem = a + seq![45u8] + b;
        let n = a.len() as int;
        let rest = stem.skip(k);
        assert forall|i: int| 0 <= i < n - k implies !is_hyphen()(#[trigger] rest[i]) by {
            assert(rest[i] == a[i + k]);
        }
        assert(rest[n - k] == 45);
        model::lemma_count_before(rest, is_hyphen(), n - k);
        assert(stem.skip(0) =~= stem);
        assert(stem.take(n) =~= a);
        assert(stem.skip(n + 1) =~= b);
    }
    let rest = a.skip(k);
    assert forall|i: int| 0 <= i < rest.len() implies !is_hyphen()(#[trigger] rest[i]) by {
        assert(rest[i] == a[i + k]);
    }
    model::lemma_count_before(rest, is_hyphen(), rest.len() as int);
    assert(a.skip(0) =~= a);
}

/// A file is a closed batch exactly when its name is something and `.jsonl` behind it.
pub proof fn closed_batches_by_their_names(file: SpoolFile)
    ensures
        closed_batch()(file) <==> is_jsonl(file@),
        is_jsonl(file@) <==> file.path@.len() > 0 && {
            let name = file.path@[file.path@.len() - 1]@;
            let n = name.len() as int;
            &&& n > 6
            &&& name[n - 6] == '.' as u8 && name[n - 5] == 'j' as u8 && name[n - 4] == 's' as u8
            &&& name[n - 3] == 'o' as u8 && name[n - 2] == 'n' as u8 && name[n - 1] == 'l' as u8
        },
{
    if file.path@.len() > 0 {
        let name = file.path@[file.path@.len() - 1]@;
        let n = name.len() as int;
        assert(file@.path.last() == name);
        if n > 6 {
            let end = name.skip(n - 6);
            assert forall|i: int| 0 <= i < 6 implies end[i] == name[n - 6 + i] by {}
            if end == jsonl_suffix() {
                assert(end[0] == 46 && end[1] == 106 && end[2] == 115 && end[3] == 111 && end[4] == 110 && end[5] == 108);
            } else if name[n - 6] == 46 && name[n - 5] == 106 && name[n - 4] == 115 && name[n - 3] == 111 && name[n - 2]
                == 110 && name[n - 1] == 108 {
                assert(end =~= jsonl_suffix());
            }
        }
    }
}

/// A file is sorted by the name of its directory, by the numbers in its name without `.jsonl`, and by its
/// path. Where the name holds no numbers, both count as the highest there is; where the directory has no
/// name that is text, it counts as empty.
pub proof fn a_file_is_sorted_by_its_names(file: SpoolFileView, dirs: Seq<Seq<u8>>, stem: Seq<u8>)
    requires
        file.path == dirs.push(stem + seq![46u8, 106, 115, 111, 110, 108]),
    ensures
        ({
            let key = jsonl_key(file);
            &&& file.parent matches Some(name) ==> key.src_db == utf8::encode_utf8(name)
            &&& file.parent is None ==> key.src_db.len() == 0
            &&& key.path == file.path
            &&& lo_hi(stem) matches Some((lo, hi)) ==> key.lo == lo && key.hi == hi
            &&& lo_hi(stem) is None ==> key.lo == i64::MAX && key.hi == i64::MAX
        }),
{
    let name = stem + seq![46u8, 106, 115, 111, 110, 108];
    assert(file.path.last() == name);
    assert(name.take(name.len() - 6) =~= stem);
}

/// Files go by database first; within one by their first numbers, then by their last numbers, and then by
/// path.
pub proof fn files_go_by_database_numbers_and_path(a: SpoolFile, b: SpoolFile)
    ensures
        ({
            let x = jsonl_key(a@);
            let y = jsonl_key(b@);
            &&& x.src_db != y.src_db ==> (a.up_to(&b) <==> order::bytes_up_to(x.src_db, y.src_db))
            &&& x.src_db == y.src_db && x.lo != y.lo ==> (a.up_to(&b) <==> x.lo < y.lo)
            &&& x.src_db == y.src_db && x.lo == y.lo && x.hi != y.hi ==> (a.up_to(&b) <==> x.hi < y.hi)
            &&& x.src_db == y.src_db && x.lo == y.lo && x.hi == y.hi ==> (a.up_to(&b) <==> order::parts_up_to(
                a@.path,
                b@.path,
            ))
        }),
{
}

/// A batch holds at most five thousand events.
pub proof fn batches_are_bounded()
    ensures
        JSONL_BATCH == 5_000,
{
}

} // verus!
