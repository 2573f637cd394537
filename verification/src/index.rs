//! The questions the index answers.
use std::collections::HashSet;

use vstd::prelude::*;
use vstd::string::*;
use vstd::utf8::*;

use crate::db;
use crate::db::{
    AttrRun, ByNumber, ByText, OutputRow, PairPath, PathDetails, PathInfo, Reference, Release,
    Revision, Run, SiblingOutput, StorePath, Tables,
};
use crate::refusal;
use crate::refusal::Refusal;
use crate::order;
use crate::order::{Duplicate, Ranked};
use crate::pattern;
use crate::rows;
use crate::text;
use crate::text::{cat2, cat3};

verus! {

/// The index: the rows of the database, and how many revisions its history
/// was built against. Runs point into that many revisions, so it is what
/// "still current" is measured against.
pub struct Index {
    tables: Tables,
    covered: i64,
}

pub struct IndexView {
    pub tables: db::TablesView,
    pub covered: i64,
}

impl View for Index {
    type V = IndexView;

    closed spec fn view(&self) -> IndexView {
        IndexView { tables: self.tables@, covered: self.covered }
    }
}

impl DeepView for Index {
    type V = IndexView;

    open spec fn deep_view(&self) -> IndexView {
        self@
    }
}

/// Being a row of meta with a key.
pub open spec fn under_key(key: Seq<char>) -> spec_fn((Seq<char>, Seq<char>)) -> bool {
    |row: (Seq<char>, Seq<char>)| row.0 == key
}

/// The value the database's meta table has under a key.
pub open spec fn meta_value(tables: db::TablesView, key: Seq<char>) -> Option<Seq<char>> {
    match rows::first_where(tables.meta, under_key(key)) {
        Some(row) => Some(row.1),
        None => None,
    }
}

/// What opening a database comes to: an index over its rows, or a refusal
/// when the number of revisions is missing or no number.
pub open spec fn opened(tables: db::TablesView) -> Result<IndexView, refusal::RefusalView> {
    match meta_value(tables, db::REVISION_COUNT_KEY@) {
        None => Err(refusal::RefusalView::NoRevisionCount),
        Some(count) => match text::number_in(count) {
            None => Err(refusal::RefusalView::BadRevisionCount),
            Some(covered) => Ok(IndexView { tables, covered }),
        },
    }
}

/// The database to open: the one given, else the one the environment names.
pub fn database_path<P>(given: Option<P>, named: Option<P>) -> (r: Result<P, Refusal>)
    ensures
        match (given, named) {
            (Some(p), _) => r == Ok::<P, Refusal>(p),
            (None, Some(p)) => r == Ok::<P, Refusal>(p),
            (None, None) => r matches Err(e) && e is NoDatabase,
        },
{
    match given {
        Some(p) => Ok(p),
        None => match named {
            Some(p) => Ok(p),
            None => Err(Refusal::NoDatabase),
        },
    }
}

/// The opening of a commit hash that a label carries.
pub open spec fn short_hash(rev: Seq<char>) -> Seq<char> {
    decode_utf8(encode_utf8(rev).subrange(0, db::LABEL_HASH_LEN as int))
}

/// Of an ASCII hash, the label carries the first twelve characters.
pub proof fn short_hash_is_a_prefix(rev: Seq<char>)
    requires
        is_ascii_chars(rev),
        rev.len() >= db::LABEL_HASH_LEN,
    ensures
        short_hash(rev) == rev.take(db::LABEL_HASH_LEN as int),
{
    let n = db::LABEL_HASH_LEN as int;
    is_ascii_chars_encode_utf8(rev);
    assert(is_ascii_chars(rev.take(n)));
    is_ascii_chars_encode_utf8(rev.take(n));
    assert(encode_utf8(rev).subrange(0, n) =~= encode_utf8(rev.take(n))) by {
        assert forall|i: int| 0 <= i < n implies encode_utf8(rev)[i] == encode_utf8(
            rev.take(n),
        )[i] by {
            assert(rev.take(n)[i] == rev[i]);
        }
    }
    encode_utf8_decode_utf8(rev.take(n));
}

impl Index {
    /// A revision out of its columns, labelled `<date>-<short hash>`.
    pub fn revision_from_row(
        off: i64,
        rev: String,
        date: String,
        name: Option<String>,
        narhash: Option<String>,
    ) -> (r: Revision)
        requires
            is_char_boundary(encode_utf8(rev@), db::LABEL_HASH_LEN as int),
        ensures
            r.deep_view() == (db::RevisionView {
                off,
                rev: rev@,
                date: date@,
                name: name.deep_view(),
                narhash: narhash.deep_view(),
                label: date@ + "-"@ + short_hash(rev@),
            }),
    {
        let (short, _rest) = rev.as_str().split_at(db::LABEL_HASH_LEN);
        proof {
            encode_utf8_decode_utf8(short@);
        }
        let label: String = cat3(date.as_str(), "-", short);
        Revision { off, rev, date, name, narhash, label }
    }

    /// A pair out of its columns. The tip flag is stored as a number.
    pub fn pair_from_row(
        attr: String,
        version: String,
        path: StorePath,
        tip: i64,
        found_off: Option<i64>,
    ) -> (r: PairPath)
        ensures
            r.deep_view() == (db::PairView {
                attr: attr@,
                version: version@,
                path: path.deep_view(),
                tip: tip != 0,
                found_off,
            }),
    {
        PairPath { attr, version, path, tip: tip != 0, found_off }
    }

    /// Cache facts out of their columns. The live flag is stored as a number.
    pub fn details_from_row(
        live: Option<i64>,
        nar_size: Option<i64>,
        file_size: Option<i64>,
        closure_bytes: Option<i64>,
        closure_paths: Option<i64>,
        closure_dead: Option<i64>,
    ) -> (r: PathDetails)
        ensures
            r == (PathDetails {
                live: match live {
                    Some(flag) => Some(flag != 0),
                    None => None,
                },
                nar_size,
                file_size,
                closure_bytes,
                closure_paths,
                closure_dead,
            }),
    {
        PathDetails {
            live: match live {
                Some(flag) => Some(flag != 0),
                None => None,
            },
            nar_size,
            file_size,
            closure_bytes,
            closure_paths,
            closure_dead,
        }
    }
}

/// Whether the `i`th revision fits and none that fits has a higher offset, or
/// the same offset and comes earlier.
pub open spec fn is_newest(
    revisions: Seq<db::RevisionView>,
    fits: spec_fn(db::RevisionView) -> bool,
    i: int,
) -> bool {
    &&& 0 <= i < revisions.len()
    &&& fits(revisions[i])
    &&& forall|j: int|
        0 <= j < revisions.len() && fits(#[trigger] revisions[j]) ==> revisions[j].off
            < revisions[i].off || (revisions[j].off == revisions[i].off && i <= j)
}

/// The newest revision that fits.
pub open spec fn newest_where(
    revisions: Seq<db::RevisionView>,
    fits: spec_fn(db::RevisionView) -> bool,
) -> Option<db::RevisionView> {
    if exists|i: int| is_newest(revisions, fits, i) {
        Some(revisions[choose|i: int| is_newest(revisions, fits, i)])
    } else {
        None
    }
}

/// There is a newest revision that fits as soon as one fits; it fits, and none
/// that fits has a higher offset.
pub proof fn newest_is_the_highest(
    revisions: Seq<db::RevisionView>,
    fits: spec_fn(db::RevisionView) -> bool,
)
    ensures
        newest_where(revisions, fits) matches Some(row) ==> exists|k: int|
            0 <= k < revisions.len() && fits(#[trigger] revisions[k]) && revisions[k] == row,
        forall|k: int|
            0 <= k < revisions.len() && fits(#[trigger] revisions[k]) ==> (newest_where(
                revisions,
                fits,
            ) matches Some(row) && revisions[k].off <= row.off),
{
    if exists|k: int| 0 <= k < revisions.len() && fits(#[trigger] revisions[k]) {
        let i = lemma_newest_exists(revisions, fits, revisions.len() as int);
        assert(is_newest(revisions, fits, i));
    }
}

proof fn lemma_newest_exists(
    revisions: Seq<db::RevisionView>,
    fits: spec_fn(db::RevisionView) -> bool,
    n: int,
) -> (i: int)
    requires
        0 <= n <= revisions.len(),
        exists|k: int| 0 <= k < n && fits(#[trigger] revisions[k]),
    ensures
        0 <= i < n,
        fits(revisions[i]),
        forall|j: int|
            0 <= j < n && fits(#[trigger] revisions[j]) ==> revisions[j].off < revisions[i].off || (
            revisions[j].off == revisions[i].off && i <= j),
    decreases n,
{
    if exists|k: int| 0 <= k < n - 1 && fits(#[trigger] revisions[k]) {
        let i = lemma_newest_exists(revisions, fits, n - 1);
        if fits(revisions[n - 1]) && revisions[i].off < revisions[n - 1].off {
            n - 1
        } else {
            i
        }
    } else {
        n - 1
    }
}

/// Whether the `i`th revision fits and none that fits has a lower offset, or
/// the same offset and comes earlier.
pub open spec fn is_oldest(
    revisions: Seq<db::RevisionView>,
    fits: spec_fn(db::RevisionView) -> bool,
    i: int,
) -> bool {
    &&& 0 <= i < revisions.len()
    &&& fits(revisions[i])
    &&& forall|j: int|
        0 <= j < revisions.len() && fits(#[trigger] revisions[j]) ==> revisions[i].off
            < revisions[j].off || (revisions[j].off == revisions[i].off && i <= j)
}

/// The oldest revision that fits.
pub open spec fn oldest_where(
    revisions: Seq<db::RevisionView>,
    fits: spec_fn(db::RevisionView) -> bool,
) -> Option<db::RevisionView> {
    if exists|i: int| is_oldest(revisions, fits, i) {
        Some(revisions[choose|i: int| is_oldest(revisions, fits, i)])
    } else {
        None
    }
}

fn find_newest<F: Fn(&Revision) -> bool>(
    revisions: &Vec<Revision>,
    test: F,
    Ghost(fits): Ghost<spec_fn(db::RevisionView) -> bool>,
) -> (r: Option<Revision>)
    requires
        forall|a: &Revision| test.requires((a,)),
        forall|a: &Revision, b: bool| test.ensures((a,), b) ==> b == fits(a.deep_view()),
    ensures
        r.deep_view() == newest_where(revisions.deep_view(), fits),
{
    let ghost all = revisions.deep_view();
    let mut best: Option<usize> = None;
    let mut i: usize = 0;
    while i < revisions.len()
        invariant
            i <= revisions.len(),
            all == revisions.deep_view(),
            forall|a: &Revision| test.requires((a,)),
            forall|a: &Revision, b: bool| test.ensures((a,), b) ==> b == fits(a.deep_view()),
            match best {
                Some(k) => k < i && fits(all[k as int]) && (forall|j: int|
                    0 <= j < i && fits(#[trigger] all[j]) ==> all[j].off < all[k as int].off || (
                    all[j].off == all[k as int].off && k <= j)),
                None => forall|j: int| 0 <= j < i ==> !fits(#[trigger] all[j]),
            },
        decreases revisions.len() - i,
    {
        if test(&revisions[i]) {
            let better: bool = match best {
                Some(k) => revisions[k].off < revisions[i].off,
                None => true,
            };
            if better {
                best = Some(i);
            }
        }
        i = i + 1;
    }
    match best {
        Some(k) => {
            assert(is_newest(all, fits, k as int));
            Some(revisions[k].duplicate())
        },
        None => None,
    }
}

fn find_oldest<F: Fn(&Revision) -> bool>(
    revisions: &Vec<Revision>,
    test: F,
    Ghost(fits): Ghost<spec_fn(db::RevisionView) -> bool>,
) -> (r: Option<Revision>)
    requires
        forall|a: &Revision| test.requires((a,)),
        forall|a: &Revision, b: bool| test.ensures((a,), b) ==> b == fits(a.deep_view()),
    ensures
        r.deep_view() == oldest_where(revisions.deep_view(), fits),
{
    let ghost all = revisions.deep_view();
    let mut best: Option<usize> = None;
    let mut i: usize = 0;
    while i < revisions.len()
        invariant
            i <= revisions.len(),
            all == revisions.deep_view(),
            forall|a: &Revision| test.requires((a,)),
            forall|a: &Revision, b: bool| test.ensures((a,), b) ==> b == fits(a.deep_view()),
            match best {
                Some(k) => k < i && fits(all[k as int]) && (forall|j: int|
                    0 <= j < i && fits(#[trigger] all[j]) ==> all[k as int].off < all[j].off || (
                    all[j].off == all[k as int].off && k <= j)),
                None => forall|j: int| 0 <= j < i ==> !fits(#[trigger] all[j]),
            },
        decreases revisions.len() - i,
    {
        if test(&revisions[i]) {
            let better: bool = match best {
                Some(k) => revisions[i].off < revisions[k].off,
                None => true,
            };
            if better {
                best = Some(i);
            }
        }
        i = i + 1;
    }
    match best {
        Some(k) => {
            assert(is_oldest(all, fits, k as int));
            Some(revisions[k].duplicate())
        },
        None => None,
    }
}

/// There is an oldest revision that fits as soon as one fits; it fits, and none
/// that fits has a lower offset.
pub proof fn oldest_is_the_lowest(
    revisions: Seq<db::RevisionView>,
    fits: spec_fn(db::RevisionView) -> bool,
)
    ensures
        oldest_where(revisions, fits) matches Some(row) ==> exists|k: int|
            0 <= k < revisions.len() && fits(#[trigger] revisions[k]) && revisions[k] == row,
        forall|k: int|
            0 <= k < revisions.len() && fits(#[trigger] revisions[k]) ==> (oldest_where(
                revisions,
                fits,
            ) matches Some(row) && row.off <= revisions[k].off),
{
    if exists|k: int| 0 <= k < revisions.len() && fits(#[trigger] revisions[k]) {
        let i = lemma_oldest_exists(revisions, fits, revisions.len() as int);
        assert(is_oldest(revisions, fits, i));
    }
}

proof fn lemma_oldest_exists(
    revisions: Seq<db::RevisionView>,
    fits: spec_fn(db::RevisionView) -> bool,
    n: int,
) -> (i: int)
    requires
        0 <= n <= revisions.len(),
        exists|k: int| 0 <= k < n && fits(#[trigger] revisions[k]),
    ensures
        0 <= i < n,
        fits(revisions[i]),
        forall|j: int|
            0 <= j < n && fits(#[trigger] revisions[j]) ==> revisions[i].off < revisions[j].off || (
            revisions[j].off == revisions[i].off && i <= j),
    decreases n,
{
    if exists|k: int| 0 <= k < n - 1 && fits(#[trigger] revisions[k]) {
        let i = lemma_oldest_exists(revisions, fits, n - 1);
        if fits(revisions[n - 1]) && revisions[n - 1].off < revisions[i].off {
            n - 1
        } else {
            i
        }
    } else {
        n - 1
    }
}

/// Whether a hash falls in the range a prefix stands for: from the prefix
/// itself up to, but not reaching, the prefix followed by a `g`.
pub open spec fn in_prefix_range(rev: Seq<char>, prefix: Seq<char>) -> bool {
    text::text_at_most(prefix, rev) && text::text_before(rev, prefix + "g"@)
}

pub open spec fn is_hex(c: char) -> bool {
    '0' <= c <= '9' || 'a' <= c <= 'f'
}

/// Of hexadecimal hashes, those in the range of a prefix are those that start
/// with it.
pub proof fn prefix_range_is_starts_with(rev: Seq<char>, prefix: Seq<char>)
    requires
        forall|i: int| 0 <= i < rev.len() ==> is_hex(#[trigger] rev[i]),
    ensures
        in_prefix_range(rev, prefix) <==> prefix.is_prefix_of(rev),
    decreases prefix.len(),
{
    reveal_strlit("g");
    let end = prefix + "g"@;
    if prefix.len() == 0 {
        assert(end =~= seq!['g']);
        assert(prefix =~= rev.take(0));
        if rev.len() > 0 {
            assert(is_hex(rev[0]));
        }
    } else if rev.len() == 0 {
    } else if rev[0] == prefix[0] {
        let fewer = rev.drop_first();
        let shorter = prefix.drop_first();
        assert forall|i: int| 0 <= i < fewer.len() implies is_hex(#[trigger] fewer[i]) by {
            assert(fewer[i] == rev[i + 1]);
        }
        prefix_range_is_starts_with(fewer, shorter);
        assert(end.drop_first() =~= shorter + "g"@);
        assert(rev == end <==> fewer == end.drop_first()) by {
            assert(rev =~= seq![rev[0]] + fewer);
            assert(end =~= seq![end[0]] + end.drop_first());
        }
        if prefix.is_prefix_of(rev) {
            assert(shorter =~= fewer.take(shorter.len() as int));
        }
        if shorter.is_prefix_of(fewer) {
            assert(prefix =~= rev.take(prefix.len() as int)) by {
                assert forall|i: int| 0 <= i < prefix.len() implies prefix[i] == rev[i] by {
                    if i > 0 {
                        assert(shorter[i - 1] == fewer[i - 1]);
                    }
                }
            }
        }
    } else {
        assert(end[0] == prefix[0]);
        if prefix.is_prefix_of(rev) {
            assert(prefix[0] == rev[0]);
        }
    }
}

impl Index {
    /// An index over the rows of a database.
    pub fn open(tables: Tables) -> (r: Result<Index, Refusal>)
        ensures
            refusal::agrees(r, opened(tables@)),
    {
        let count: Option<String> = value_in(&tables.meta, db::REVISION_COUNT_KEY);
        match count {
            None => Err(Refusal::NoRevisionCount),
            Some(number) => match text::parse_number(number.as_str()) {
                None => Err(Refusal::BadRevisionCount),
                Some(covered) => Ok(Index { tables, covered }),
            },
        }
    }

    /// The newest offset the history covers. Runs never point past it, and a
    /// version whose run ends here is still current.
    pub fn covered_tip(&self) -> (r: i64)
        requires
            self@.covered > i64::MIN,
        ensures
            r == self@.covered - 1,
    {
        self.covered - 1
    }

    pub fn meta(&self, key: &str) -> (r: Option<String>)
        ensures
            r.deep_view() == meta_value(self@.tables, key@),
    {
        value_in(&self.tables.meta, key)
    }

    /// The revision at an offset.
    pub fn revision(&self, off: i64) -> (r: Result<Revision, Refusal>)
        ensures
            refusal::agrees(r, revision_at(self@, off)),
    {
        let found: Option<Revision> = rows::find(
            &self.tables.revisions,
            |row: &Revision| -> (b: bool)
                ensures
                    b == (row.deep_view().off == off)
                { row.off == off },
            Ghost(|row: db::RevisionView| row.off == off),
        );
        match found {
            Some(revision) => Ok(revision),
            None => Err(Refusal::NoRevision { off }),
        }
    }

    /// First revision whose commit hash starts with `prefix`.
    pub fn revision_by_prefix(&self, prefix: &str) -> (r: Option<Revision>)
        ensures
            r.deep_view() == revision_starting(self@, prefix@),
    {
        let end: String = cat2(prefix, "g");
        find_oldest(
            &self.tables.revisions,
            |row: &Revision| -> (b: bool)
                ensures
                    b == in_prefix_range(row.deep_view().rev, prefix@)
                {
                    text::is_text_at_most(prefix, row.rev.as_str()) && text::is_text_at_most(
                        row.rev.as_str(),
                        end.as_str(),
                    ) && row.rev != end
                },
            Ghost(|row: db::RevisionView| in_prefix_range(row.rev, prefix@)),
        )
    }

    /// Newest revision dated on or before `date`, which is what a date selector
    /// means: the tree you would have got that day.
    pub fn revision_on_or_before(&self, date: &str) -> (r: Option<Revision>)
        ensures
            r.deep_view() == revision_dated(self@, date@),
    {
        find_newest(
            &self.tables.revisions,
            |row: &Revision| -> (b: bool)
                ensures
                    b == text::text_at_most(row.deep_view().date, date@)
                { text::is_text_at_most(row.date.as_str(), date) },
            Ghost(|row: db::RevisionView| text::text_at_most(row.date, date@)),
        )
    }

    /// What `tip` resolves to: the newest revision that can actually be
    /// materialised, which takes a narHash.
    pub fn tip(&self) -> (r: Result<Revision, Refusal>)
        ensures
            refusal::agrees(r, tip_of(self@)),
    {
        let found: Option<Revision> = find_newest(
            &self.tables.revisions,
            |row: &Revision| -> (b: bool)
                ensures
                    b == (row.deep_view().narhash is Some)
                { row.narhash.is_some() },
            Ghost(|row: db::RevisionView| row.narhash is Some),
        );
        match found {
            Some(revision) => Ok(revision),
            None => Err(Refusal::NoTip),
        }
    }

    /// Newest offset in `first ..= last` that can actually be materialised.
    pub fn newest_materialisable_in(&self, first: i64, last: i64) -> (r: Option<i64>)
        ensures
            r == newest_offset_in(self@, first, last),
    {
        let found: Option<Revision> = find_newest(
            &self.tables.revisions,
            |row: &Revision| -> (b: bool)
                ensures
                    b == (row.deep_view().narhash is Some && first <= row.deep_view().off <= last)
                { row.narhash.is_some() && first <= row.off && row.off <= last },
            Ghost(|row: db::RevisionView| row.narhash is Some && first <= row.off <= last),
        );
        match found {
            Some(revision) => Some(revision.off),
            None => None,
        }
    }

    pub fn release(&self, name: &str) -> (r: Option<Release>)
        ensures
            r.deep_view() == release_called(self@, name@),
    {
        let wanted: String = name.to_string();
        rows::find(
            &self.tables.releases,
            |row: &Release| -> (b: bool)
                ensures
                    b == (row.deep_view().name == name@)
                { row.name == wanted },
            Ghost(|row: db::ReleaseView| row.name == name@),
        )
    }
}

impl Index {
    /// Every run of every version of one attribute, oldest first.
    pub fn runs_of(&self, attr: &str) -> (r: Vec<Run>)
        ensures
            r.deep_view() == runs_of(self@, attr@),
    {
        let wanted: String = attr.to_string();
        let found: Vec<AttrRun> = rows::select(
            &self.tables.runs,
            |row: &AttrRun| -> (b: bool)
                ensures
                    b == (row.deep_view().attr == attr@)
                { row.attr == wanted },
            Ghost(|row: db::AttrRunView| row.attr == attr@),
        );
        let runs: Vec<Run> = rows::map_rows(
            &found,
            |row: &AttrRun| -> (run: Run)
                ensures
                    run.deep_view() == row.deep_view().run
                { row.run.duplicate() },
            Ghost(|row: db::AttrRunView| row.run),
        );
        db::oldest_runs_first(&runs)
    }

    /// Whether the index has ever seen this attribute. Distinguishes "never in
    /// nixpkgs" from "in nixpkgs but gone", which are different answers.
    pub fn knows_attr(&self, attr: &str) -> (r: bool)
        ensures
            r == self@.tables.attrs.contains(attr@),
    {
        text::holds_text(&self.tables.attrs, &attr.to_string())
    }

    /// Every attribute and version present at one revision.
    pub fn snapshot(&self, off: i64) -> (r: Vec<(String, String)>)
        ensures
            r.deep_view() == snapshot_at(self@, off),
    {
        let found: Vec<AttrRun> = rows::select(
            &self.tables.runs,
            |row: &AttrRun| -> (b: bool)
                ensures
                    b == (row.deep_view().run.first <= off && row.deep_view().run.last >= off)
                { row.run.first <= off && row.run.last >= off },
            Ghost(|row: db::AttrRunView| row.run.first <= off && row.run.last >= off),
        );
        rows::map_rows(
            &found,
            |row: &AttrRun| -> (entry: (String, String))
                ensures
                    entry.deep_view() == (row.deep_view().attr, row.deep_view().run.version)
                { (row.attr.clone(), row.run.version.clone()) },
            Ghost(|row: db::AttrRunView| (row.attr, row.run.version)),
        )
    }

    /// Attributes matching a GLOB pattern, in dictionary order. A pattern
    /// without wildcards is treated as a substring search. The refusal is
    /// SQLite's, for a pattern it will not match; with nothing to match or
    /// nothing to list, it is not asked.
    pub fn search(&self, pattern: &str, limit: usize) -> (r: Result<Vec<String>, Refusal>)
        ensures
            self@.tables.attrs.len() == 0 ==> r is Ok,
            limit == 0 ==> (r matches Ok(names) && names.deep_view().len() == 0),
            match r {
                Ok(names) => names.deep_view() == pattern::first_flagged(
                    self@.tables.attrs,
                    self@.tables.attrs.map_values(
                        |name: Seq<char>|
                            pattern::sqlite_glob(pattern::glob_for(pattern@), name),
                    ),
                    limit as nat,
                ),
                Err(e) => e is PatternRefused,
            },
            r matches Ok(names) ==> names.deep_view() == names_found(
                self@,
                pattern@,
                limit as nat,
            ),
    {
        let ghost attrs = self@.tables.attrs;
        if limit == 0 {
            let names: Vec<String> = Vec::new();
            proof {
                assert forall|flags: Seq<bool>| names.deep_view()
                    == #[trigger] pattern::first_flagged(attrs, flags, 0) by {
                    assert(names.deep_view() =~= pattern::first_flagged(attrs, flags, 0));
                }
            }
            return Ok(names);
        }
        let glob: String = pattern::glob_pattern(pattern);
        match pattern::glob_flags(glob.as_str(), &self.tables.attrs) {
            Some(flags) => {
                proof {
                    let found = attrs.map_values(
                        |name: Seq<char>| pattern::glob_finds(pattern@, name),
                    );
                    assert forall|k: int| 0 <= k < attrs.len() implies #[trigger] flags@[k]
                        == found[k] by {
                        assert(flags@[k] == pattern::sqlite_glob(glob@, attrs[k]));
                        if !pattern::holds_glob_mark(pattern@) {
                            assert(glob@ == "*"@ + pattern@ + "*"@);
                        }
                    }
                    assert(flags@ =~= found);
                }
                Ok(pattern::pick_flagged(&self.tables.attrs, &flags, limit))
            },
            None => Err(Refusal::PatternRefused),
        }
    }

    /// Case-insensitive fallback for a search that found nothing: GLOB is
    /// case-sensitive, and half of nixpkgs is lowercase while the half people
    /// type is not.
    pub fn search_nocase(&self, pattern: &str, limit: usize) -> (r: Result<Vec<String>, Refusal>)
        ensures
            self@.tables.attrs.len() == 0 ==> r is Ok,
            limit == 0 ==> (r matches Ok(names) && names.deep_view().len() == 0),
            match r {
                Ok(names) => names.deep_view() == pattern::first_flagged(
                    self@.tables.attrs,
                    self@.tables.attrs.map_values(
                        |name: Seq<char>|
                            pattern::sqlite_like(pattern::like_for(pattern@), name),
                    ),
                    limit as nat,
                ),
                Err(e) => e is PatternRefused,
            },
            r matches Ok(names) ==> names.deep_view() == names_found_nocase(
                self@,
                pattern@,
                limit as nat,
            ),
    {
        let ghost attrs = self@.tables.attrs;
        if limit == 0 {
            let names: Vec<String> = Vec::new();
            proof {
                assert forall|flags: Seq<bool>| names.deep_view()
                    == #[trigger] pattern::first_flagged(attrs, flags, 0) by {
                    assert(names.deep_view() =~= pattern::first_flagged(attrs, flags, 0));
                }
            }
            return Ok(names);
        }
        let like: String = pattern::like_pattern(pattern);
        match pattern::like_flags(like.as_str(), &self.tables.attrs) {
            Some(flags) => {
                proof {
                    let found = attrs.map_values(
                        |name: Seq<char>| pattern::like_finds(pattern@, name),
                    );
                    assert forall|k: int| 0 <= k < attrs.len() implies #[trigger] flags@[k]
                        == found[k] by {
                        assert(flags@[k] == pattern::sqlite_like(like@, attrs[k]));
                        if !pattern::holds_like_mark(pattern@) {
                            assert(like@ == "%"@ + pattern@ + "%"@);
                        }
                    }
                    assert(flags@ =~= found);
                }
                Ok(pattern::pick_flagged(&self.tables.attrs, &flags, limit))
            },
            None => Err(Refusal::PatternRefused),
        }
    }

    /// Whether the database was built with store-path data.
    pub fn has_store_data(&self) -> (r: bool)
        ensures
            r == has_store_data(self@),
    {
        self.meta(db::STORE_META_KEY).is_some()
    }

    /// The guard every store command runs first, so a database built without
    /// the data refuses with a sentence.
    pub fn require_store_data(&self) -> (r: Result<(), Refusal>)
        ensures
            match r {
                Ok(_) => has_store_data(self@),
                Err(e) => !has_store_data(self@) && e is NoStoreData,
            },
    {
        if self.has_store_data() {
            Ok(())
        } else {
            Err(Refusal::NoStoreData)
        }
    }

    /// Every version of one attribute whose store path is known.
    pub fn store_pairs_of(&self, attr: &str) -> (r: Vec<PairPath>)
        ensures
            r.deep_view() == store_pairs_of(self@, attr@),
    {
        let wanted: String = attr.to_string();
        rows::select(
            &self.tables.pairs,
            |row: &PairPath| -> (b: bool)
                ensures
                    b == (row.deep_view().attr == attr@)
                { row.attr == wanted },
            Ghost(|row: db::PairView| row.attr == attr@),
        )
    }

    fn pairs_at(&self, ids: &[i64], from: usize, to: usize) -> (r: Vec<PairPath>)
        requires
            from <= to <= ids.len(),
        ensures
            r.deep_view() == pairs_at(self@, ids@.subrange(from as int, to as int)),
    {
        let wanted: HashSet<i64> = set_of(ids, from, to);
        let ghost chunk = ids@.subrange(from as int, to as int);
        rows::select(
            &self.tables.pairs,
            |row: &PairPath| -> (b: bool)
                ensures
                    b == chunk.contains(row.deep_view().path.id)
                { wanted.contains(&row.path.id) },
            Ghost(|row: db::PairView| chunk.contains(row.path.id)),
        )
    }

    /// The pairs built to any of these store paths — how a digest resolves
    /// back to (attr, version).
    pub fn pairs_by_path_ids(&self, ids: &[i64]) -> (r: Vec<PairPath>)
        ensures
            r.deep_view() == pairs_by_path_ids(self@, ids@),
    {
        let mut out: Vec<PairPath> = Vec::new();
        let mut from: usize = 0;
        assert(out.deep_view() =~= Seq::<db::PairView>::empty());
        assert(ids@.skip(0) =~= ids@);
        assert(out.deep_view() + pairs_by_path_ids(self@, ids@) =~= pairs_by_path_ids(self@, ids@));
        while from < ids.len()
            invariant
                from <= ids.len(),
                out.deep_view() + pairs_by_path_ids(self@, ids@.skip(from as int))
                    == pairs_by_path_ids(self@, ids@),
            decreases ids.len() - from,
        {
            let to: usize = if ids.len() - from <= db::SQL_IN_CHUNK {
                ids.len()
            } else {
                from + db::SQL_IN_CHUNK
            };
            let found: Vec<PairPath> = self.pairs_at(ids, from, to);
            let ghost before = out.deep_view();
            rows::extend_rows(&mut out, &found);
            proof {
                let rest = ids@.skip(from as int);
                if rest.len() <= db::SQL_IN_CHUNK {
                    assert(ids@.subrange(from as int, to as int) =~= rest);
                    assert(ids@.skip(to as int) =~= Seq::<i64>::empty());
                    assert(out.deep_view() + Seq::<db::PairView>::empty() =~= before
                        + pairs_by_path_ids(self@, rest));
                } else {
                    assert(ids@.subrange(from as int, to as int) =~= rest.take(
                        db::SQL_IN_CHUNK as int,
                    ));
                    assert(ids@.skip(to as int) =~= rest.skip(db::SQL_IN_CHUNK as int));
                    assert(out.deep_view() + pairs_by_path_ids(self@, ids@.skip(to as int))
                        =~= before + pairs_by_path_ids(self@, rest));
                }
            }
            from = to;
        }
        assert(ids@.skip(from as int) =~= Seq::<i64>::empty());
        assert(out.deep_view() + Seq::<db::PairView>::empty() =~= out.deep_view());
        out
    }

    /// The store path with this digest, if the index has ever seen it.
    pub fn store_path_by_digest(&self, digest: &str) -> (r: Option<StorePath>)
        ensures
            r.deep_view() == store_path_by_digest(self@, digest@),
    {
        let wanted: String = digest.to_string();
        rows::find(
            &self.tables.store_paths,
            |row: &StorePath| -> (b: bool)
                ensures
                    b == (row.deep_view().digest == digest@)
                { row.digest == wanted },
            Ghost(|row: db::PathView| row.digest == digest@),
        )
    }

    fn ids_named(&self, names: &Vec<String>) -> (r: Vec<(i64, String)>)
        ensures
            r.deep_view() == named_ids(self@.tables.store_paths, names.deep_view()),
    {
        let found: Vec<StorePath> = rows::select(
            &self.tables.store_paths,
            |row: &StorePath| -> (b: bool)
                ensures
                    b == (row.deep_view().name is Some && names.deep_view().contains(
                        row.deep_view().name->0,
                    ))
                {
                    match &row.name {
                        Some(name) => text::holds_text(names, name),
                        None => false,
                    }
                },
            Ghost(
                |row: db::PathView|
                    row.name is Some && names.deep_view().contains(row.name->0),
            ),
        );
        let mut out: Vec<(i64, String)> = Vec::new();
        let mut i: usize = 0;
        let ghost turned = |row: db::PathView| (row.id, row.name->0);
        let ghost fits = |row: db::PathView|
            row.name is Some && names.deep_view().contains(row.name->0);
        let ghost all = found.deep_view().map_values(turned);
        while i < found.len()
            invariant
                i <= found.len(),
                turned == (|row: db::PathView| (row.id, row.name->0)),
                fits == (|row: db::PathView|
                    row.name is Some && names.deep_view().contains(row.name->0)),
                found.deep_view() == self@.tables.store_paths.filter(fits),
                all == found.deep_view().map_values(turned),
                out.deep_view() == all.take(i as int),
            decreases found.len() - i,
        {
            proof {
                self@.tables.store_paths.lemma_filter_pred(fits, i as int);
                assert(found.deep_view()[i as int] == found@[i as int].deep_view());
            }
            let ghost before = out.deep_view();
            if let Some(name) = &found[i].name {
                out.push((found[i].id, name.clone()));
                assert(out.deep_view() =~= before.push(all[i as int]));
            }
            assert(out.deep_view() =~= all.take(i + 1));
            i = i + 1;
        }
        assert(all.take(i as int) =~= all);
        out
    }

    /// Ids of every store path with one of these names — the same package
    /// built by other revisions to other digests.
    pub fn store_path_ids_named(&self, names: &Vec<String>) -> (r: Vec<(i64, String)>)
        ensures
            r.deep_view() == store_path_ids_named(self@, names.deep_view()),
    {
        let mut out: Vec<(i64, String)> = Vec::new();
        let mut from: usize = 0;
        let ghost all = names.deep_view();
        let ghost wanted = store_path_ids_named(self@, all);
        assert(out.deep_view() =~= Seq::<(i64, Seq<char>)>::empty());
        assert(all.skip(0) =~= all);
        assert(out.deep_view() + wanted =~= wanted);
        while from < names.len()
            invariant
                from <= names.len(),
                all == names.deep_view(),
                wanted == store_path_ids_named(self@, all),
                out.deep_view() + store_path_ids_named(self@, all.skip(from as int)) == wanted,
            decreases names.len() - from,
        {
            let to: usize = if names.len() - from <= db::SQL_IN_CHUNK {
                names.len()
            } else {
                from + db::SQL_IN_CHUNK
            };
            let chunk: Vec<String> = slice_of(names, from, to);
            let found: Vec<(i64, String)> = self.ids_named(&chunk);
            let ghost before = out.deep_view();
            rows::extend_rows(&mut out, &found);
            proof {
                let rest = all.skip(from as int);
                if rest.len() <= db::SQL_IN_CHUNK {
                    assert(chunk.deep_view() =~= rest);
                    assert(all.skip(to as int) =~= Seq::<Seq<char>>::empty());
                    assert(out.deep_view() + Seq::<(i64, Seq<char>)>::empty() =~= before
                        + store_path_ids_named(self@, rest));
                } else {
                    assert(chunk.deep_view() =~= rest.take(db::SQL_IN_CHUNK as int));
                    assert(all.skip(to as int) =~= rest.skip(db::SQL_IN_CHUNK as int));
                    assert(out.deep_view() + store_path_ids_named(self@, all.skip(to as int))
                        =~= before + store_path_ids_named(self@, rest));
                }
            }
            from = to;
        }
        assert(all.skip(from as int) =~= Seq::<Seq<char>>::empty());
        assert(out.deep_view() + Seq::<(i64, Seq<char>)>::empty() =~= out.deep_view());
        out
    }

    /// Cache facts for one store path, or `None` when neither the narinfo nor
    /// the closure artifacts covered it.
    pub fn path_details(&self, path_id: i64) -> (r: Option<PathDetails>)
        ensures
            r == path_details(self@, path_id),
    {
        let found: Option<PathInfo> = rows::find(
            &self.tables.path_info,
            |row: &PathInfo| -> (b: bool)
                ensures
                    b == (row.deep_view().path_id == path_id)
                { row.path_id == path_id },
            Ghost(|row: PathInfo| row.path_id == path_id),
        );
        match found {
            Some(row) => Some(row.details),
            None => None,
        }
    }

    fn paths_with_id(&self, id: i64) -> (r: Vec<StorePath>)
        ensures
            r.deep_view() == self@.tables.store_paths.filter(|row: db::PathView| row.id == id),
    {
        rows::select(
            &self.tables.store_paths,
            |row: &StorePath| -> (b: bool)
                ensures
                    b == (row.deep_view().id == id)
                { row.id == id },
            Ghost(|row: db::PathView| row.id == id),
        )
    }

    /// Direct references of one store path, name attached where known.
    pub fn refs_of_path(&self, path_id: i64) -> (r: Vec<StorePath>)
        ensures
            r.deep_view() == refs_of_path(self@, path_id),
    {
        let refs: Vec<Reference> = rows::select(
            &self.tables.path_refs,
            |row: &Reference| -> (b: bool)
                ensures
                    b == (row.deep_view().src == path_id)
                { row.src == path_id },
            Ghost(|row: Reference| row.src == path_id),
        );
        let mut out: Vec<StorePath> = Vec::new();
        let mut i: usize = 0;
        let ghost paths = self@.tables.store_paths;
        let ghost all = refs.deep_view();
        assert(out.deep_view() =~= Seq::<db::PathView>::empty());
        while i < refs.len()
            invariant
                i <= refs.len(),
                all == refs.deep_view(),
                paths == self@.tables.store_paths,
                out.deep_view() == ends_of(paths, all.take(i as int)),
            decreases refs.len() - i,
        {
            let found: Vec<StorePath> = self.paths_with_id(refs[i].dst);
            rows::extend_rows(&mut out, &found);
            assert(all.take(i + 1).drop_last() =~= all.take(i as int));
            assert(all.take(i + 1).last() == refs@[i as int]);
            i = i + 1;
        }
        assert(all.take(i as int) =~= all);
        out
    }

    /// Ids of every store path whose references include one of `dst_ids`, in
    /// one pass over all the references.
    pub fn referrers_of(&self, dst_ids: &HashSet<i64>) -> (r: Vec<i64>)
        ensures
            r@ == referrers_of(self@, dst_ids@),
    {
        let found: Vec<Reference> = rows::select(
            &self.tables.path_refs,
            |row: &Reference| -> (b: bool)
                ensures
                    b == dst_ids@.contains(row.deep_view().dst)
                { dst_ids.contains(&row.dst) },
            Ghost(|row: Reference| dst_ids@.contains(row.dst)),
        );
        let srcs: Vec<i64> = rows::map_rows(
            &found,
            |row: &Reference| -> (src: i64)
                ensures
                    src.deep_view() == row.deep_view().src
                { row.src },
            Ghost(|row: Reference| row.src),
        );
        let keys: Vec<ByNumber> = rows::map_rows(
            &srcs,
            |src: &i64| -> (key: ByNumber)
                ensures
                    key.deep_view() == src.deep_view()
                { ByNumber { number: *src } },
            Ghost(|src: i64| src),
        );
        assert(keys.deep_view() =~= srcs.deep_view());
        let ranked: Vec<i64> = order::sort_by_keys(&srcs, &keys);
        assert(ranked.deep_view() =~= ranked@);
        drop_repeats(&ranked)
    }

    /// The sibling outputs recorded for one derivation name, suffix order.
    pub fn outputs_of(&self, drv_name: &str) -> (r: Vec<SiblingOutput>)
        ensures
            r.deep_view() == outputs_of(self@, drv_name@),
    {
        let wanted: String = drv_name.to_string();
        let outs: Vec<OutputRow> = rows::select(
            &self.tables.outputs,
            |row: &OutputRow| -> (b: bool)
                ensures
                    b == (row.deep_view().drv_name == drv_name@)
                { row.drv_name == wanted },
            Ghost(|row: db::OutputRowView| row.drv_name == drv_name@),
        );
        let mut found: Vec<SiblingOutput> = Vec::new();
        let mut i: usize = 0;
        let ghost paths = self@.tables.store_paths;
        let ghost all = outs.deep_view();
        assert(found.deep_view() =~= Seq::<db::SiblingView>::empty());
        while i < outs.len()
            invariant
                i <= outs.len(),
                all == outs.deep_view(),
                paths == self@.tables.store_paths,
                found.deep_view() == siblings_in(paths, all.take(i as int)),
            decreases outs.len() - i,
        {
            let row: &OutputRow = &outs[i];
            let here: Vec<StorePath> = self.paths_with_id(row.path_id);
            let ghost last = all[i as int];
            let more: Vec<SiblingOutput> = rows::map_rows(
                &here,
                |path: &StorePath| -> (out: SiblingOutput)
                    ensures
                        out.deep_view() == (db::SiblingView {
                            suffix: row.suffix@,
                            path: path.deep_view(),
                            nar_size: row.nar_size,
                        })
                    {
                        SiblingOutput {
                            suffix: row.suffix.clone(),
                            path: path.duplicate(),
                            nar_size: row.nar_size,
                        }
                    },
                Ghost(
                    |path: db::PathView|
                        db::SiblingView { suffix: last.suffix, path, nar_size: last.nar_size },
                ),
            );
            rows::extend_rows(&mut found, &more);
            assert(all.take(i + 1).drop_last() =~= all.take(i as int));
            assert(all.take(i + 1).last() == last);
            i = i + 1;
        }
        assert(all.take(i as int) =~= all);
        let keys: Vec<ByText> = rows::map_rows(
            &found,
            |out: &SiblingOutput| -> (key: ByText)
                ensures
                    key.deep_view() == out.deep_view().suffix
                { ByText { text: out.suffix.clone() } },
            Ghost(|out: db::SiblingView| out.suffix),
        );
        order::sort_by_keys(&found, &keys)
    }

    /// Which derivation a store path is an output of: `(drv name, suffix)`
    /// rows, empty for a path that is no recorded sibling output.
    pub fn outputs_by_path_id(&self, path_id: i64) -> (r: Vec<(String, String)>)
        ensures
            r.deep_view() == outputs_by_path_id(self@, path_id),
    {
        let found: Vec<OutputRow> = rows::select(
            &self.tables.outputs,
            |row: &OutputRow| -> (b: bool)
                ensures
                    b == (row.deep_view().path_id == path_id)
                { row.path_id == path_id },
            Ghost(|row: db::OutputRowView| row.path_id == path_id),
        );
        rows::map_rows(
            &found,
            |row: &OutputRow| -> (entry: (String, String))
                ensures
                    entry.deep_view() == (row.deep_view().drv_name, row.deep_view().suffix)
                { (row.drv_name.clone(), row.suffix.clone()) },
            Ghost(|row: db::OutputRowView| (row.drv_name, row.suffix)),
        )
    }
}

fn set_of(ids: &[i64], from: usize, to: usize) -> (r: HashSet<i64>)
    requires
        from <= to <= ids.len(),
    ensures
        forall|id: i64|
            r@.contains(id) <==> ids@.subrange(from as int, to as int).contains(id),
{
    broadcast use vstd::std_specs::hash::group_hash_axioms;

    let mut out: HashSet<i64> = HashSet::new();
    let mut i: usize = from;
    while i < to
        invariant
            from <= i <= to <= ids.len(),
            forall|id: i64|
                out@.contains(id) <==> ids@.subrange(from as int, i as int).contains(id),
        decreases to - i,
    {
        out.insert(ids[i]);
        proof {
            let before = ids@.subrange(from as int, i as int);
            let after = ids@.subrange(from as int, i + 1);
            assert(after =~= before.push(ids@[i as int]));
            assert forall|id: i64| #[trigger] out@.contains(id) <==> after.contains(id) by {
                if before.contains(id) {
                    let w = choose|w: int| 0 <= w < before.len() && before[w] == id;
                    assert(after[w] == id);
                }
                if id == ids@[i as int] {
                    assert(after[i - from] == id);
                }
                if after.contains(id) && id != ids@[i as int] {
                    let w = choose|w: int| 0 <= w < after.len() && after[w] == id;
                    assert(before[w] == id);
                }
            }
        }
        i = i + 1;
    }
    out
}

fn slice_of(names: &Vec<String>, from: usize, to: usize) -> (r: Vec<String>)
    requires
        from <= to <= names.len(),
    ensures
        r.deep_view() == names.deep_view().subrange(from as int, to as int),
{
    let mut out: Vec<String> = Vec::new();
    let mut i: usize = from;
    while i < to
        invariant
            from <= i <= to <= names.len(),
            out.deep_view() == names.deep_view().subrange(from as int, i as int),
        decreases to - i,
    {
        let ghost before = out.deep_view();
        out.push(names[i].clone());
        assert(out.deep_view() =~= before.push(names.deep_view()[i as int]));
        assert(out.deep_view() =~= names.deep_view().subrange(from as int, i + 1));
        i = i + 1;
    }
    out
}

fn drop_repeats(numbers: &Vec<i64>) -> (r: Vec<i64>)
    ensures
        r@ == order::unrepeated(numbers@),
{
    let mut out: Vec<i64> = Vec::new();
    let mut i: usize = 0;
    assert(numbers@.take(0) =~= Seq::<i64>::empty());
    while i < numbers.len()
        invariant
            i <= numbers.len(),
            out@ == order::unrepeated(numbers@.take(i as int)),
        decreases numbers.len() - i,
    {
        assert(numbers@.take(i + 1).drop_last() =~= numbers@.take(i as int));
        if i == 0 || numbers[i] != numbers[i - 1] {
            out.push(numbers[i]);
        }
        i = i + 1;
    }
    assert(numbers@.take(i as int) =~= numbers@);
    out
}

/// Whether the database was built with store-path data.
pub open spec fn has_store_data(ix: IndexView) -> bool {
    meta_value(ix.tables, db::STORE_META_KEY@) is Some
}

/// Every run of one attribute, oldest first.
pub open spec fn runs_of(ix: IndexView, attr: Seq<char>) -> Seq<db::RunView> {
    let found = ix.tables.runs.filter(|row: db::AttrRunView| row.attr == attr).map_values(
        |row: db::AttrRunView| row.run,
    );
    db::runs_by_first(found)
}

/// The runs of an attribute start ever later, and are just the runs the index
/// has of it.
pub proof fn runs_come_oldest_first(ix: IndexView, attr: Seq<char>, run: db::RunView)
    ensures
        forall|p: int, q: int|
            0 <= p < q < runs_of(ix, attr).len() ==> (#[trigger] runs_of(ix, attr)[p]).first <= (
            #[trigger] runs_of(ix, attr)[q]).first,
        runs_of(ix, attr).contains(run) <==> ix.tables.runs.contains(db::AttrRunView { attr, run }),
{
    let of_attr = |row: db::AttrRunView| row.attr == attr;
    let all = ix.tables.runs;
    let kept = all.filter(of_attr);
    let found = kept.map_values(|row: db::AttrRunView| row.run);
    let first = |r: db::RunView| r.first;
    order::sorted_things_ascend::<db::RunView, ByNumber>(found, first);
    let ranked = runs_of(ix, attr);
    assert(ranked == order::sorted_by::<db::RunView, ByNumber>(found, found.map_values(first)));
    order::sorting_arranges::<db::RunView, ByNumber>(found, found.map_values(first));
    assert forall|p: int, q: int| 0 <= p < q < ranked.len() implies (#[trigger] ranked[p]).first
        <= (#[trigger] ranked[q]).first by {
        assert(ByNumber::at_most(first(ranked[p]), first(ranked[q])));
    }
    let row = db::AttrRunView { attr, run };
    if found.contains(run) {
        let w = choose|w: int| 0 <= w < found.len() && found[w] == run;
        all.lemma_filter_pred(of_attr, w);
        assert(kept.contains(kept[w]));
        all.lemma_filter_contains_rev(of_attr, kept[w]);
        assert(kept[w] == row);
    }
    if all.contains(row) {
        let i = choose|i: int| 0 <= i < all.len() && all[i] == row;
        all.lemma_filter_contains(of_attr, i);
        let w = choose|w: int| 0 <= w < kept.len() && kept[w] == row;
        assert(found[w] == run);
    }
}

/// Every attribute and version present at one revision.
pub open spec fn snapshot_at(ix: IndexView, off: i64) -> Seq<(Seq<char>, Seq<char>)> {
    ix.tables.runs.filter(
        |row: db::AttrRunView| row.run.first <= off && row.run.last >= off,
    ).map_values(|row: db::AttrRunView| (row.attr, row.run.version))
}

/// Every version of one attribute whose store path is known.
pub open spec fn store_pairs_of(ix: IndexView, attr: Seq<char>) -> Seq<db::PairView> {
    ix.tables.pairs.filter(|row: db::PairView| row.attr == attr)
}

/// The pairs built to one of these store paths, in table order.
pub open spec fn pairs_at(ix: IndexView, ids: Seq<i64>) -> Seq<db::PairView> {
    ix.tables.pairs.filter(|row: db::PairView| ids.contains(row.path.id))
}

/// The pairs built to these store paths, looked up a bounded number of ids at
/// a time.
pub open spec fn pairs_by_path_ids(ix: IndexView, ids: Seq<i64>) -> Seq<db::PairView>
    decreases ids.len(),
{
    if ids.len() == 0 {
        Seq::empty()
    } else if ids.len() <= db::SQL_IN_CHUNK {
        pairs_at(ix, ids)
    } else {
        pairs_at(ix, ids.take(db::SQL_IN_CHUNK as int)) + pairs_by_path_ids(
            ix,
            ids.skip(db::SQL_IN_CHUNK as int),
        )
    }
}

/// A looked-up pair is one of the index whose store path was asked for, and
/// each such pair is looked up.
pub proof fn path_lookup_finds_the_pairs(ix: IndexView, ids: Seq<i64>, pair: db::PairView)
    ensures
        pairs_by_path_ids(ix, ids).contains(pair) <==> ix.tables.pairs.contains(pair)
            && ids.contains(pair.path.id),
    decreases ids.len(),
{
    let n = db::SQL_IN_CHUNK as int;
    let here = if ids.len() <= n {
        ids
    } else {
        ids.take(n)
    };
    let fits = |row: db::PairView| here.contains(row.path.id);
    assert(ix.tables.pairs.filter(fits).contains(pair) <==> ix.tables.pairs.contains(pair)
        && here.contains(pair.path.id)) by {
        if ix.tables.pairs.filter(fits).contains(pair) {
            let w = choose|w: int|
                0 <= w < ix.tables.pairs.filter(fits).len() && ix.tables.pairs.filter(fits)[w]
                    == pair;
            ix.tables.pairs.lemma_filter_pred(fits, w);
            ix.tables.pairs.lemma_filter_contains_rev(fits, pair);
        }
        if ix.tables.pairs.contains(pair) && fits(pair) {
            let i = choose|i: int| 0 <= i < ix.tables.pairs.len() && ix.tables.pairs[i] == pair;
            ix.tables.pairs.lemma_filter_contains(fits, i);
        }
    }
    if ids.len() > n {
        let rest = ids.skip(n);
        path_lookup_finds_the_pairs(ix, rest, pair);
        let a = pairs_at(ix, here);
        let b = pairs_by_path_ids(ix, rest);
        assert((a + b).contains(pair) <==> a.contains(pair) || b.contains(pair)) by {
            if a.contains(pair) {
                let w = choose|w: int| 0 <= w < a.len() && a[w] == pair;
                assert((a + b)[w] == pair);
            }
            if b.contains(pair) {
                let w = choose|w: int| 0 <= w < b.len() && b[w] == pair;
                assert((a + b)[a.len() + w] == pair);
            }
        }
        let id = pair.path.id;
        assert(ids.contains(id) <==> here.contains(id) || rest.contains(id)) by {
            if here.contains(id) {
                let w = choose|w: int| 0 <= w < here.len() && here[w] == id;
                assert(ids[w] == id);
            }
            if rest.contains(id) {
                let w = choose|w: int| 0 <= w < rest.len() && rest[w] == id;
                assert(ids[n + w] == id);
            }
            if ids.contains(id) {
                let w = choose|w: int| 0 <= w < ids.len() && ids[w] == id;
                if w < n {
                    assert(here[w] == id);
                } else {
                    assert(rest[w - n] == id);
                }
            }
        }
    }
}

/// The id and name of a store path that has a name.
pub open spec fn named_ids(paths: Seq<db::PathView>, names: Seq<Seq<char>>) -> Seq<
    (i64, Seq<char>),
> {
    paths.filter(
        |row: db::PathView| row.name is Some && names.contains(row.name->0),
    ).map_values(|row: db::PathView| (row.id, row.name->0))
}

/// Ids of every store path with one of these names, looked up a bounded number
/// of names at a time.
pub open spec fn store_path_ids_named(ix: IndexView, names: Seq<Seq<char>>) -> Seq<
    (i64, Seq<char>),
>
    decreases names.len(),
{
    if names.len() == 0 {
        Seq::empty()
    } else if names.len() <= db::SQL_IN_CHUNK {
        named_ids(ix.tables.store_paths, names)
    } else {
        named_ids(ix.tables.store_paths, names.take(db::SQL_IN_CHUNK as int))
            + store_path_ids_named(ix, names.skip(db::SQL_IN_CHUNK as int))
    }
}

/// The store path with a digest, if the index has ever seen it.
pub open spec fn store_path_by_digest(ix: IndexView, digest: Seq<char>) -> Option<db::PathView> {
    rows::first_where(ix.tables.store_paths, |row: db::PathView| row.digest == digest)
}

/// Cache facts for one store path, if any were recorded.
pub open spec fn path_details(ix: IndexView, path_id: i64) -> Option<PathDetails> {
    match rows::first_where(ix.tables.path_info, |row: PathInfo| row.path_id == path_id) {
        Some(row) => Some(row.details),
        None => None,
    }
}

/// The store paths that references point at, reference by reference.
pub open spec fn ends_of(paths: Seq<db::PathView>, refs: Seq<Reference>) -> Seq<db::PathView>
    decreases refs.len(),
{
    if refs.len() == 0 {
        Seq::empty()
    } else {
        ends_of(paths, refs.drop_last()) + paths.filter(
            |row: db::PathView| row.id == refs.last().dst,
        )
    }
}

/// Direct references of one store path.
pub open spec fn refs_of_path(ix: IndexView, path_id: i64) -> Seq<db::PathView> {
    ends_of(ix.tables.store_paths, ix.tables.path_refs.filter(|row: Reference| row.src == path_id))
}

/// Ids of every store path whose references include one of the targets, lowest
/// first, each once.
pub open spec fn referrers_of(ix: IndexView, targets: Set<i64>) -> Seq<i64> {
    let found = ix.tables.path_refs.filter(|row: Reference| targets.contains(row.dst)).map_values(
        |row: Reference| row.src,
    );
    order::unrepeated(order::sorted_by::<i64, ByNumber>(found, found))
}

/// The sibling outputs that output rows stand for, row by row.
pub open spec fn siblings_in(paths: Seq<db::PathView>, outs: Seq<db::OutputRowView>) -> Seq<
    db::SiblingView,
>
    decreases outs.len(),
{
    if outs.len() == 0 {
        Seq::empty()
    } else {
        siblings_in(paths, outs.drop_last()) + paths.filter(
            |row: db::PathView| row.id == outs.last().path_id,
        ).map_values(
            |path: db::PathView|
                db::SiblingView { suffix: outs.last().suffix, path, nar_size: outs.last().nar_size },
        )
    }
}

/// The sibling outputs recorded for one derivation name, suffix order.
pub open spec fn outputs_of(ix: IndexView, drv_name: Seq<char>) -> Seq<db::SiblingView> {
    let found = siblings_in(
        ix.tables.store_paths,
        ix.tables.outputs.filter(|row: db::OutputRowView| row.drv_name == drv_name),
    );
    order::sorted_by::<db::SiblingView, ByText>(
        found,
        found.map_values(|out: db::SiblingView| out.suffix),
    )
}

/// The sibling outputs of a derivation come in suffix order, and there is one
/// for each output row of its name and each store path the row points at.
pub proof fn outputs_come_in_suffix_order(ix: IndexView, drv_name: Seq<char>, out: db::SiblingView)
    ensures
        forall|p: int, q: int|
            0 <= p < q < outputs_of(ix, drv_name).len() ==> text::text_at_most(
                (#[trigger] outputs_of(ix, drv_name)[p]).suffix,
                (#[trigger] outputs_of(ix, drv_name)[q]).suffix,
            ),
        outputs_of(ix, drv_name).contains(out) <==> ix.tables.store_paths.contains(out.path)
            && ix.tables.outputs.contains(
            db::OutputRowView {
                drv_name,
                suffix: out.suffix,
                path_id: out.path.id,
                nar_size: out.nar_size,
            },
        ),
{
    let named = |row: db::OutputRowView| row.drv_name == drv_name;
    let all = ix.tables.outputs;
    let kept = all.filter(named);
    let found = siblings_in(ix.tables.store_paths, kept);
    let suffix = |o: db::SiblingView| o.suffix;
    order::sorted_things_ascend::<db::SiblingView, ByText>(found, suffix);
    order::sorting_arranges::<db::SiblingView, ByText>(found, found.map_values(suffix));
    let ranked = outputs_of(ix, drv_name);
    assert(ranked == order::sorted_by::<db::SiblingView, ByText>(found, found.map_values(suffix)));
    assert forall|p: int, q: int| 0 <= p < q < ranked.len() implies text::text_at_most(
        (#[trigger] ranked[p]).suffix,
        (#[trigger] ranked[q]).suffix,
    ) by {
        assert(ByText::at_most(suffix(ranked[p]), suffix(ranked[q])));
    }
    let row = db::OutputRowView {
        drv_name,
        suffix: out.suffix,
        path_id: out.path.id,
        nar_size: out.nar_size,
    };
    lemma_siblings(ix.tables.store_paths, kept, out);
    if exists|k: int| 0 <= k < kept.len() && is_row_of(#[trigger] kept[k], out) {
        let k = choose|k: int| 0 <= k < kept.len() && is_row_of(#[trigger] kept[k], out);
        all.lemma_filter_pred(named, k);
        assert(kept.contains(kept[k]));
        all.lemma_filter_contains_rev(named, kept[k]);
        assert(kept[k] == row);
    }
    if all.contains(row) {
        let i = choose|i: int| 0 <= i < all.len() && all[i] == row;
        all.lemma_filter_contains(named, i);
        let k = choose|k: int| 0 <= k < kept.len() && kept[k] == row;
        assert(is_row_of(kept[k], out));
    }
}

/// Whether a sibling output is what an output row says of its path.
spec fn is_row_of(row: db::OutputRowView, out: db::SiblingView) -> bool {
    row.path_id == out.path.id && row.suffix == out.suffix && row.nar_size == out.nar_size
}

proof fn lemma_siblings(
    paths: Seq<db::PathView>,
    outs: Seq<db::OutputRowView>,
    out: db::SiblingView,
)
    ensures
        siblings_in(paths, outs).contains(out) <==> paths.contains(out.path) && exists|k: int|
            0 <= k < outs.len() && is_row_of(#[trigger] outs[k], out),
    decreases outs.len(),
{
    if outs.len() > 0 {
        let fewer = outs.drop_last();
        lemma_siblings(paths, fewer, out);
        let last = outs.last();
        let n = outs.len() - 1;
        let fits = |row: db::PathView| row.id == last.path_id;
        let here = paths.filter(fits);
        let a = siblings_in(paths, fewer);
        let b = here.map_values(
            |path: db::PathView|
                db::SiblingView { suffix: last.suffix, path, nar_size: last.nar_size },
        );
        if a.contains(out) {
            let w = choose|w: int| 0 <= w < a.len() && a[w] == out;
            assert((a + b)[w] == out);
            let k = choose|k: int| 0 <= k < fewer.len() && is_row_of(#[trigger] fewer[k], out);
            assert(is_row_of(outs[k], out));
        }
        if b.contains(out) {
            let w = choose|w: int| 0 <= w < b.len() && b[w] == out;
            assert((a + b)[a.len() + w] == out);
            paths.lemma_filter_pred(fits, w);
            assert(here.contains(here[w]));
            paths.lemma_filter_contains_rev(fits, here[w]);
            assert(is_row_of(outs[n], out));
        }
        if (a + b).contains(out) {
            let w = choose|w: int| 0 <= w < (a + b).len() && (a + b)[w] == out;
            if w < a.len() {
                assert(a[w] == out);
            } else {
                assert(b[w - a.len()] == out);
            }
        }
        if paths.contains(out.path) && exists|k: int|
            0 <= k < outs.len() && is_row_of(#[trigger] outs[k], out) {
            let k = choose|k: int| 0 <= k < outs.len() && is_row_of(#[trigger] outs[k], out);
            if k < n {
                assert(is_row_of(fewer[k], out));
            } else {
                let i = choose|i: int| 0 <= i < paths.len() && paths[i] == out.path;
                paths.lemma_filter_contains(fits, i);
                let w = choose|w: int| 0 <= w < here.len() && here[w] == out.path;
                assert(b[w] == out);
            }
        }
    }
}

/// Which derivations a store path is an output of, with the suffix of each.
pub open spec fn outputs_by_path_id(ix: IndexView, path_id: i64) -> Seq<(Seq<char>, Seq<char>)> {
    ix.tables.outputs.filter(|row: db::OutputRowView| row.path_id == path_id).map_values(
        |row: db::OutputRowView| (row.drv_name, row.suffix),
    )
}

/// The referrers of some store paths ascend, and are just those that hold a
/// reference to one of them.
pub proof fn referrers_ascend(ix: IndexView, targets: Set<i64>, id: i64)
    ensures
        forall|i: int, j: int|
            0 <= i < j < referrers_of(ix, targets).len() ==> #[trigger] referrers_of(
                ix,
                targets,
            )[i] < #[trigger] referrers_of(ix, targets)[j],
        referrers_of(ix, targets).contains(id) <==> exists|k: int|
            0 <= k < ix.tables.path_refs.len() && (#[trigger] ix.tables.path_refs[k]).src == id
                && targets.contains(ix.tables.path_refs[k].dst),
{
    let refs = ix.tables.path_refs;
    let fits = |row: Reference| targets.contains(row.dst);
    let src = |row: Reference| row.src;
    let kept = refs.filter(fits);
    let found = kept.map_values(src);
    let ranked = order::sorted_by::<i64, ByNumber>(found, found);
    order::sorting_arranges::<i64, ByNumber>(found, found);
    let number_at_most = |a: i64, b: i64| a <= b;
    assert forall|i: int, j: int| 0 <= i < j < ranked.len() implies number_at_most(
        #[trigger] ranked[i],
        #[trigger] ranked[j],
    ) by {
        assert(ByNumber::at_most(ranked[i], ranked[j]));
    }
    order::unrepeated_ascends(ranked, number_at_most);
    order::unrepeated_keeps_everything(ranked);
    broadcast use vstd::seq_lib::group_to_multiset_ensures;

    assert(ranked.contains(id) <==> found.contains(id)) by {
        assert(ranked.to_multiset() == found.to_multiset());
        assert(ranked.contains(id) <==> ranked.to_multiset().count(id) > 0);
        assert(found.contains(id) <==> found.to_multiset().count(id) > 0);
    }
    if found.contains(id) {
        let w = choose|w: int| 0 <= w < found.len() && found[w] == id;
        refs.lemma_filter_pred(fits, w);
        assert(kept.contains(kept[w]));
        refs.lemma_filter_contains_rev(fits, kept[w]);
        assert(refs.contains(kept[w]));
        let k = choose|k: int| 0 <= k < refs.len() && refs[k] == kept[w];
        assert(refs[k].src == id);
    }
    if exists|k: int|
        0 <= k < refs.len() && (#[trigger] refs[k]).src == id && targets.contains(refs[k].dst) {
        let k = choose|k: int|
            0 <= k < refs.len() && (#[trigger] refs[k]).src == id && targets.contains(refs[k].dst);
        refs.lemma_filter_contains(fits, k);
        assert(kept.contains(refs[k]));
        let w = choose|w: int| 0 <= w < kept.len() && kept[w] == refs[k];
        assert(found[w] == id);
    }
}

/// The revision at an offset, or the refusal when there is none.
pub open spec fn revision_at(ix: IndexView, off: i64) -> Result<
    db::RevisionView,
    refusal::RefusalView,
> {
    match rows::first_where(ix.tables.revisions, |row: db::RevisionView| row.off == off) {
        Some(row) => Ok(row),
        None => Err(refusal::RefusalView::NoRevision { off }),
    }
}

/// The attributes a pattern finds, in text order, as many as the limit allows.
pub open spec fn names_found(ix: IndexView, pattern: Seq<char>, limit: nat) -> Seq<Seq<char>> {
    pattern::first_flagged(
        ix.tables.attrs,
        ix.tables.attrs.map_values(|name: Seq<char>| pattern::glob_finds(pattern, name)),
        limit,
    )
}

/// The attributes a pattern finds whatever the case of their letters, in text
/// order, as many as the limit allows.
pub open spec fn names_found_nocase(ix: IndexView, pattern: Seq<char>, limit: nat) -> Seq<
    Seq<char>,
> {
    pattern::first_flagged(
        ix.tables.attrs,
        ix.tables.attrs.map_values(|name: Seq<char>| pattern::like_finds(pattern, name)),
        limit,
    )
}

/// The oldest revision whose hash starts with a prefix.
pub open spec fn revision_starting(ix: IndexView, prefix: Seq<char>) -> Option<db::RevisionView> {
    oldest_where(
        ix.tables.revisions,
        |row: db::RevisionView| in_prefix_range(row.rev, prefix),
    )
}

/// The newest revision on or before a date.
pub open spec fn revision_dated(ix: IndexView, date: Seq<char>) -> Option<db::RevisionView> {
    newest_where(
        ix.tables.revisions,
        |row: db::RevisionView| text::text_at_most(row.date, date),
    )
}

/// The release with a name.
pub open spec fn release_called(ix: IndexView, name: Seq<char>) -> Option<db::ReleaseView> {
    rows::first_where(ix.tables.releases, |row: db::ReleaseView| row.name == name)
}

/// The newest revision that has a narHash, or the refusal when none has.
pub open spec fn tip_of(ix: IndexView) -> Result<db::RevisionView, refusal::RefusalView> {
    match newest_where(ix.tables.revisions, |row: db::RevisionView| row.narhash is Some) {
        Some(row) => Ok(row),
        None => Err(refusal::RefusalView::NoTip),
    }
}

/// The highest offset between two of a revision that has a narHash.
pub open spec fn newest_offset_in(ix: IndexView, first: i64, last: i64) -> Option<i64> {
    match newest_where(
        ix.tables.revisions,
        |row: db::RevisionView| row.narhash is Some && first <= row.off <= last,
    ) {
        Some(row) => Some(row.off),
        None => None,
    }
}

fn value_in(meta: &Vec<(String, String)>, key: &str) -> (r: Option<String>)
    ensures
        r.deep_view() == (match rows::first_where(
            meta.deep_view(),
            under_key(key@),
        ) {
            Some(row) => Some(row.1),
            None => None,
        }),
{
    let wanted: String = key.to_string();
    let found: Option<(String, String)> = rows::find(
        meta,
        |row: &(String, String)| -> (b: bool)
            ensures
                b == (row.deep_view().0 == key@)
            { row.0 == wanted },
        Ghost(under_key(key@)),
    );
    match found {
        Some(row) => Some(row.1),
        None => None,
    }
}

} // verus!
