//! What the index answers of revisions, releases, names and runs.
use vstd::prelude::*;

use crate::db;
use crate::index;
use crate::laws;
use crate::order;
use crate::pattern;
use crate::refusal;
use crate::rows;
use crate::text;

verus! {

/// Whether a row of meta is the first with its key.
pub open spec fn is_first_meta(tables: db::TablesView, key: Seq<char>, k: int) -> bool {
    &&& 0 <= k < tables.meta.len()
    &&& tables.meta[k].0 == key
    &&& forall|j: int| 0 <= j < k ==> (#[trigger] tables.meta[j]).0 != key
}

/// Whether some row of meta has a key.
pub open spec fn has_meta(tables: db::TablesView, key: Seq<char>) -> bool {
    exists|j: int| 0 <= j < tables.meta.len() && (#[trigger] tables.meta[j]).0 == key
}

/// A key of meta has the value of its first row.
pub proof fn meta_is_the_first_row_of_its_key(tables: db::TablesView, key: Seq<char>)
    ensures
        match index::meta_value(tables, key) {
            Some(value) => exists|k: int| #[trigger]
                is_first_meta(tables, key, k) && tables.meta[k].1 == value,
            None => !has_meta(tables, key),
        },
{
    let fits = index::under_key(key);
    let all = tables.meta;
    laws::lemma_first_where(all, fits);
    match rows::first_where(all, fits) {
        Some(row) => {
            let k = choose|k: int|
                0 <= k < all.len() && #[trigger] all[k] == row && fits(row) && forall|j: int|
                    0 <= j < k ==> !fits(#[trigger] all[j]);
            assert forall|j: int| 0 <= j < k implies (#[trigger] all[j]).0 != key by {
                assert(!fits(all[j]));
            }
            assert(is_first_meta(tables, key, k));
            assert(index::meta_value(tables, key) == Some(tables.meta[k].1));
        },
        None => {
            if has_meta(tables, key) {
                let j = choose|j: int| 0 <= j < all.len() && (#[trigger] all[j]).0 == key;
                assert(fits(all[j]));
            }
        },
    }
}

/// A database opens when it records, as a number, how many revisions it
/// covers, and then has all its rows. It has store data just when it says so
/// in meta.
pub proof fn databases_open_on_their_revision_count(tables: db::TablesView, ix: index::IndexView)
    ensures
        match index::opened(tables) {
            Ok(opened) => opened.tables == tables && exists|k: int| #[trigger]
                is_first_meta(tables, "revisionCount"@, k) && text::number_in(tables.meta[k].1)
                    == Some(opened.covered),
            Err(refusal::RefusalView::NoRevisionCount) => !has_meta(tables, "revisionCount"@),
            Err(refusal::RefusalView::BadRevisionCount) => exists|k: int| #[trigger]
                is_first_meta(tables, "revisionCount"@, k) && text::number_in(tables.meta[k].1)
                    is None,
            Err(_) => false,
        },
        index::has_store_data(ix) <==> has_meta(ix.tables, "store_paths"@),
{
    meta_is_the_first_row_of_its_key(tables, "revisionCount"@);
    meta_is_the_first_row_of_its_key(ix.tables, "store_paths"@);
}

/// Whether a row is the newest of the revisions that fit, the first of those
/// where several have its offset.
pub open spec fn is_newest_of(
    ix: index::IndexView,
    fits: spec_fn(db::RevisionView) -> bool,
    row: db::RevisionView,
) -> bool {
    exists|k: int|
        0 <= k < ix.tables.revisions.len() && #[trigger] ix.tables.revisions[k] == row && fits(row)
            && forall|j: int|
            0 <= j < ix.tables.revisions.len() && fits(#[trigger] ix.tables.revisions[j])
                ==> ix.tables.revisions[j].off <= row.off && (ix.tables.revisions[j].off == row.off
                ==> k <= j)
}

/// Whether a row is the oldest of the revisions that fit, the first of those
/// where several have its offset.
pub open spec fn is_oldest_of(
    ix: index::IndexView,
    fits: spec_fn(db::RevisionView) -> bool,
    row: db::RevisionView,
) -> bool {
    exists|k: int|
        0 <= k < ix.tables.revisions.len() && #[trigger] ix.tables.revisions[k] == row && fits(row)
            && forall|j: int|
            0 <= j < ix.tables.revisions.len() && fits(#[trigger] ix.tables.revisions[j])
                ==> row.off <= ix.tables.revisions[j].off && (ix.tables.revisions[j].off == row.off
                ==> k <= j)
}

/// Whether no revision fits.
pub open spec fn none_fits(ix: index::IndexView, fits: spec_fn(db::RevisionView) -> bool) -> bool {
    forall|j: int|
        0 <= j < ix.tables.revisions.len() ==> !fits(#[trigger] ix.tables.revisions[j])
}

/// Being a revision that can be fetched, at an offset between two.
pub open spec fn being_fetchable(first: int, last: int) -> spec_fn(db::RevisionView) -> bool {
    |row: db::RevisionView| row.narhash is Some && first <= row.off <= last
}

/// Being a revision of a date or one before it.
pub open spec fn being_dated(date: Seq<char>) -> spec_fn(db::RevisionView) -> bool {
    |row: db::RevisionView| text::text_at_most(row.date, date)
}

/// Being a revision whose hash starts with a prefix.
pub open spec fn being_called(prefix: Seq<char>) -> spec_fn(db::RevisionView) -> bool {
    |row: db::RevisionView| prefix.is_prefix_of(row.rev)
}

proof fn lemma_newest(ix: index::IndexView, fits: spec_fn(db::RevisionView) -> bool)
    ensures
        match index::newest_where(ix.tables.revisions, fits) {
            Some(row) => is_newest_of(ix, fits, row),
            None => none_fits(ix, fits),
        },
{
    let all = ix.tables.revisions;
    index::newest_is_the_highest(all, fits);
    if let Some(row) = index::newest_where(all, fits) {
        let k = choose|i: int| index::is_newest(all, fits, i);
        if !index::is_newest(all, fits, k) {
            assert(!(exists|i: int| index::is_newest(all, fits, i)));
        }
        assert(all[k] == row);
    }
}

proof fn lemma_oldest(ix: index::IndexView, fits: spec_fn(db::RevisionView) -> bool)
    ensures
        match index::oldest_where(ix.tables.revisions, fits) {
            Some(row) => is_oldest_of(ix, fits, row),
            None => none_fits(ix, fits),
        },
{
    let all = ix.tables.revisions;
    index::oldest_is_the_lowest(all, fits);
    if let Some(row) = index::oldest_where(all, fits) {
        let k = choose|i: int| index::is_oldest(all, fits, i);
        if !index::is_oldest(all, fits, k) {
            assert(!(exists|i: int| index::is_oldest(all, fits, i)));
        }
        assert(all[k] == row);
    }
}

/// A revision is looked up by its offset; the tip is the newest of all that
/// can be fetched, and the newest in a span the newest there.
pub proof fn revisions_are_found_by_offset(ix: index::IndexView, off: i64, first: i64, last: i64)
    ensures
        match index::revision_at(ix, off) {
            Ok(row) => exists|k: int| #[trigger]
                laws::is_first_at(ix, off, k) && ix.tables.revisions[k] == row,
            Err(e) => e == (refusal::RefusalView::NoRevision { off }) && forall|j: int|
                0 <= j < ix.tables.revisions.len() ==> (#[trigger] ix.tables.revisions[j]).off
                    != off,
        },
        match index::tip_of(ix) {
            Ok(row) => is_newest_of(ix, being_fetchable(i64::MIN as int, i64::MAX as int), row),
            Err(e) => e == refusal::RefusalView::NoTip && none_fits(
                ix,
                being_fetchable(i64::MIN as int, i64::MAX as int),
            ),
        },
        match index::newest_offset_in(ix, first, last) {
            Some(found) => exists|row: db::RevisionView| #[trigger]
                is_newest_of(ix, being_fetchable(first as int, last as int), row) && row.off
                    == found,
            None => none_fits(ix, being_fetchable(first as int, last as int)),
        },
{
    let all = ix.tables.revisions;
    let at = |row: db::RevisionView| row.off == off;
    laws::lemma_first_where(all, at);
    match rows::first_where(all, at) {
        Some(row) => {
            let k = choose|k: int|
                0 <= k < all.len() && #[trigger] all[k] == row && at(row) && forall|j: int|
                    0 <= j < k ==> !at(#[trigger] all[j]);
            assert forall|j: int| 0 <= j < k implies (#[trigger] all[j]).off != off by {
                assert(!at(all[j]));
            }
            assert(laws::is_first_at(ix, off, k));
        },
        None => {
            assert forall|j: int| 0 <= j < all.len() implies (#[trigger] all[j]).off != off by {
                assert(!at(all[j]));
            }
        },
    }
    let any = |row: db::RevisionView| row.narhash is Some;
    assert(any =~= being_fetchable(i64::MIN as int, i64::MAX as int));
    lemma_newest(ix, any);
    let within = |row: db::RevisionView| row.narhash is Some && first <= row.off <= last;
    assert(within =~= being_fetchable(first as int, last as int));
    lemma_newest(ix, within);
    if let Some(row) = index::newest_where(all, within) {
        assert(is_newest_of(ix, being_fetchable(first as int, last as int), row));
    }
}

/// A date finds the newest revision that is no later than it.
pub proof fn dates_find_the_newest_revision_up_to_them(ix: index::IndexView, date: Seq<char>)
    ensures
        match index::revision_dated(ix, date) {
            Some(row) => is_newest_of(ix, being_dated(date), row),
            None => none_fits(ix, being_dated(date)),
        },
{
    let fits = |row: db::RevisionView| text::text_at_most(row.date, date);
    assert(fits =~= being_dated(date));
    lemma_newest(ix, fits);
}

/// A prefix finds the oldest revision whose hash starts with it.
pub proof fn prefixes_find_the_oldest_revision_they_start(ix: index::IndexView, prefix: Seq<char>)
    requires
        forall|k: int, i: int|
            0 <= k < ix.tables.revisions.len() && 0 <= i < ix.tables.revisions[k].rev.len() ==> {
                let c = #[trigger] ix.tables.revisions[k].rev[i];
                '0' <= c <= '9' || 'a' <= c <= 'f'
            },
    ensures
        match index::revision_starting(ix, prefix) {
            Some(row) => is_oldest_of(ix, being_called(prefix), row),
            None => none_fits(ix, being_called(prefix)),
        },
{
    let all = ix.tables.revisions;
    let fits = |row: db::RevisionView| index::in_prefix_range(row.rev, prefix);
    lemma_oldest(ix, fits);
    let called = being_called(prefix);
    assert forall|j: int| 0 <= j < all.len() implies fits(#[trigger] all[j]) == called(all[j]) by {
        assert forall|i: int| 0 <= i < all[j].rev.len() implies index::is_hex(
            #[trigger] all[j].rev[i],
        ) by {
            let c = all[j].rev[i];
        }
        index::prefix_range_is_starts_with(all[j].rev, prefix);
    }
    match index::revision_starting(ix, prefix) {
        Some(row) => {
            let k = choose|k: int|
                0 <= k < all.len() && #[trigger] all[k] == row && fits(row) && forall|j: int|
                    0 <= j < all.len() && fits(#[trigger] all[j]) ==> row.off <= all[j].off && (
                    all[j].off == row.off ==> k <= j);
            assert(all[k] == row && called(row));
            assert forall|j: int| 0 <= j < all.len() && called(#[trigger] all[j]) implies row.off
                <= all[j].off && (all[j].off == row.off ==> k <= j) by {
                assert(fits(all[j]));
            }
        },
        None => {
            assert forall|j: int| 0 <= j < all.len() implies !called(#[trigger] all[j]) by {
                assert(!fits(all[j]));
            }
        },
    }
}

/// A release is looked up by its name.
pub proof fn releases_are_found_by_name(ix: index::IndexView, name: Seq<char>)
    ensures
        match index::release_called(ix, name) {
            Some(row) => row.name == name && exists|k: int|
                0 <= k < ix.tables.releases.len() && #[trigger] ix.tables.releases[k] == row
                    && forall|j: int|
                    0 <= j < k ==> (#[trigger] ix.tables.releases[j]).name != name,
            None => forall|j: int|
                0 <= j < ix.tables.releases.len() ==> (#[trigger] ix.tables.releases[j]).name
                    != name,
        },
{
    let fits = |row: db::ReleaseView| row.name == name;
    let all = ix.tables.releases;
    laws::lemma_first_where(all, fits);
    match rows::first_where(all, fits) {
        Some(row) => {
            let k = choose|k: int|
                0 <= k < all.len() && #[trigger] all[k] == row && fits(row) && forall|j: int|
                    0 <= j < k ==> !fits(#[trigger] all[j]);
            assert forall|j: int| 0 <= j < k implies (#[trigger] all[j]).name != name by {
                assert(!fits(all[j]));
            }
            assert(all[k] == row);
        },
        None => {
            assert forall|j: int| 0 <= j < all.len() implies (#[trigger] all[j]).name != name by {
                assert(!fits(all[j]));
            }
        },
    }
}

/// Being a run that goes over an offset.
pub open spec fn being_there_at(off: i64) -> spec_fn(db::AttrRunView) -> bool {
    |row: db::AttrRunView| row.run.first <= off <= row.run.last
}

/// A run as its attribute and its version.
pub open spec fn version_entry() -> spec_fn(db::AttrRunView) -> (Seq<char>, Seq<char>) {
    |row: db::AttrRunView| (row.attr, row.run.version)
}

/// A snapshot has an entry for each run that goes over the offset, both its
/// ends among those it goes over.
pub proof fn snapshots_hold_the_runs_over_the_offset(ix: index::IndexView, off: i64)
    ensures
        index::snapshot_at(ix, off) == ix.tables.runs.filter(being_there_at(off)).map_values(
            version_entry(),
        ),
{
    let there = |row: db::AttrRunView| row.run.first <= off && row.run.last >= off;
    assert(there =~= being_there_at(off));
    assert(index::snapshot_at(ix, off) =~= ix.tables.runs.filter(being_there_at(off)).map_values(
        version_entry(),
    ));
}

/// Being a run of an attribute.
pub open spec fn being_run_of(attr: Seq<char>) -> spec_fn(db::AttrRunView) -> bool {
    |row: db::AttrRunView| row.attr == attr
}

/// A row of runs as the run alone.
pub open spec fn run_alone() -> spec_fn(db::AttrRunView) -> db::RunView {
    |row: db::AttrRunView| row.run
}

/// The runs of an attribute are all those the index has of it, each as often,
/// and start ever later.
pub proof fn histories_are_whole_and_start_ever_later(ix: index::IndexView, attr: Seq<char>)
    ensures
        index::runs_of(ix, attr).to_multiset() == ix.tables.runs.filter(
            being_run_of(attr),
        ).map_values(run_alone()).to_multiset(),
        forall|p: int, q: int|
            0 <= p < q < index::runs_of(ix, attr).len() ==> (#[trigger] index::runs_of(
                ix,
                attr,
            )[p]).first <= (#[trigger] index::runs_of(ix, attr)[q]).first,
{
    let of_attr = |row: db::AttrRunView| row.attr == attr;
    let alone = |row: db::AttrRunView| row.run;
    assert(of_attr =~= being_run_of(attr));
    let found = ix.tables.runs.filter(of_attr).map_values(alone);
    assert(found =~= ix.tables.runs.filter(being_run_of(attr)).map_values(run_alone()));
    order::sorting_arranges::<db::RunView, db::ByNumber>(
        found,
        found.map_values(|run: db::RunView| run.first),
    );
    index::runs_come_oldest_first(ix, attr, arbitrary());
}

/// The ids of some names are those of the store paths so named.
pub proof fn names_find_the_paths_so_named(
    ix: index::IndexView,
    names: Seq<Seq<char>>,
    id: i64,
    name: Seq<char>,
)
    ensures
        index::store_path_ids_named(ix, names).contains((id, name)) <==> names.contains(name)
            && exists|m: int|
            0 <= m < ix.tables.store_paths.len() && (#[trigger] ix.tables.store_paths[m]).id == id
                && ix.tables.store_paths[m].name == Some(name),
    decreases names.len(),
{
    let n = db::SQL_IN_CHUNK as int;
    if names.len() > n {
        let here = names.take(n);
        let rest = names.skip(n);
        lemma_named(ix, here, id, name);
        names_find_the_paths_so_named(ix, rest, id, name);
        let a = index::named_ids(ix.tables.store_paths, here);
        let b = index::store_path_ids_named(ix, rest);
        assert((a + b).contains((id, name)) <==> a.contains((id, name)) || b.contains((id, name)))
            by {
            if a.contains((id, name)) {
                let w = choose|w: int| 0 <= w < a.len() && a[w] == (id, name);
                assert((a + b)[w] == (id, name));
            }
            if b.contains((id, name)) {
                let w = choose|w: int| 0 <= w < b.len() && b[w] == (id, name);
                assert((a + b)[a.len() + w] == (id, name));
            }
        }
        assert(names.contains(name) <==> here.contains(name) || rest.contains(name)) by {
            if names.contains(name) {
                let w = choose|w: int| 0 <= w < names.len() && names[w] == name;
                if w < n {
                    assert(here[w] == name);
                } else {
                    assert(rest[w - n] == name);
                }
            }
            if here.contains(name) {
                let w = choose|w: int| 0 <= w < here.len() && here[w] == name;
                assert(names[w] == name);
            }
            if rest.contains(name) {
                let w = choose|w: int| 0 <= w < rest.len() && rest[w] == name;
                assert(names[n + w] == name);
            }
        }
    } else if names.len() > 0 {
        lemma_named(ix, names, id, name);
    }
}

proof fn lemma_named(ix: index::IndexView, names: Seq<Seq<char>>, id: i64, name: Seq<char>)
    ensures
        index::named_ids(ix.tables.store_paths, names).contains((id, name)) <==> names.contains(
            name,
        ) && exists|m: int|
            0 <= m < ix.tables.store_paths.len() && (#[trigger] ix.tables.store_paths[m]).id == id
                && ix.tables.store_paths[m].name == Some(name),
{
    let all = ix.tables.store_paths;
    let fits = |row: db::PathView| row.name is Some && names.contains(row.name->0);
    let kept = all.filter(fits);
    let ids = index::named_ids(all, names);
    if ids.contains((id, name)) {
        let w = choose|w: int| 0 <= w < ids.len() && ids[w] == (id, name);
        assert(kept.contains(kept[w]));
        laws::lemma_filtered(all, fits, kept[w]);
        let m = choose|m: int| 0 <= m < all.len() && all[m] == kept[w];
        assert(all[m].id == id && all[m].name == Some(name));
    }
    if names.contains(name) && exists|m: int|
        0 <= m < all.len() && (#[trigger] all[m]).id == id && all[m].name == Some(name) {
        let m = choose|m: int|
            0 <= m < all.len() && (#[trigger] all[m]).id == id && all[m].name == Some(name);
        assert(all.contains(all[m]));
        laws::lemma_filtered(all, fits, all[m]);
        let w = choose|w: int| 0 <= w < kept.len() && kept[w] == all[m];
        assert(ids[w] == (id, name));
    }
}

/// Whether a pattern is plain: it has none of the marks of GLOB, and no NUL.
pub open spec fn is_plain_glob(s: Seq<char>) -> bool {
    !s.contains('*') && !s.contains('?') && !s.contains('[') && !s.contains('\0')
}

/// Whether a pattern is plain: it has none of the marks of LIKE, and no NUL.
pub open spec fn is_plain_like(s: Seq<char>) -> bool {
    !s.contains('%') && !s.contains('_') && !s.contains('\0')
}

/// Whether a name has a text somewhere in it.
pub open spec fn is_within(part: Seq<char>, name: Seq<char>) -> bool {
    exists|before: Seq<char>, after: Seq<char>| name == #[trigger] (before + part + after)
}

/// A plain pattern finds the names it is somewhere within, letter for letter,
/// or whatever the case of its letters; any other is SQLite's to read, as it
/// is typed.
pub proof fn plain_patterns_find_names_they_are_within(asked: Seq<char>, name: Seq<char>)
    requires
        !name.contains('\0'),
    ensures
        is_plain_glob(asked) ==> (pattern::glob_finds(asked, name) <==> is_within(asked, name)),
        is_plain_like(asked) ==> (pattern::like_finds(asked, name) <==> is_within(
            pattern::lowered(asked),
            pattern::lowered(name),
        )),
        asked.contains('*') || asked.contains('?') || asked.contains('[') ==> pattern::glob_finds(
            asked,
            name,
        ) == pattern::sqlite_glob(asked, name),
        asked.contains('%') || asked.contains('_') ==> pattern::like_finds(asked, name)
            == pattern::sqlite_like(asked, name),
{
    lemma_marks(asked);
    lemma_within(asked, name);
    lemma_within(pattern::lowered(asked), pattern::lowered(name));
}

proof fn lemma_marks(s: Seq<char>)
    ensures
        pattern::holds_glob_mark(s) <==> s.contains('*') || s.contains('?') || s.contains('['),
        pattern::holds_like_mark(s) <==> s.contains('%') || s.contains('_'),
{
    if pattern::holds_glob_mark(s) {
        let i = choose|i: int| 0 <= i < s.len() && pattern::is_glob_mark(#[trigger] s[i]);
        assert(s.contains(s[i]));
    }
    if s.contains('*') {
        let i = choose|i: int| 0 <= i < s.len() && s[i] == '*';
        assert(pattern::is_glob_mark(s[i]));
    }
    if s.contains('?') {
        let i = choose|i: int| 0 <= i < s.len() && s[i] == '?';
        assert(pattern::is_glob_mark(s[i]));
    }
    if s.contains('[') {
        let i = choose|i: int| 0 <= i < s.len() && s[i] == '[';
        assert(pattern::is_glob_mark(s[i]));
    }
    if pattern::holds_like_mark(s) {
        let i = choose|i: int| 0 <= i < s.len() && pattern::is_like_mark(#[trigger] s[i]);
        assert(s.contains(s[i]));
    }
    if s.contains('%') {
        let i = choose|i: int| 0 <= i < s.len() && s[i] == '%';
        assert(pattern::is_like_mark(s[i]));
    }
    if s.contains('_') {
        let i = choose|i: int| 0 <= i < s.len() && s[i] == '_';
        assert(pattern::is_like_mark(s[i]));
    }
}

proof fn lemma_within(part: Seq<char>, name: Seq<char>)
    ensures
        pattern::holds(name, part) <==> is_within(part, name),
{
    let n = part.len() as int;
    if pattern::holds(name, part) {
        let i = choose|i: int|
            0 <= i && i + part.len() <= name.len() && #[trigger] name.subrange(
                i,
                i + part.len(),
            ) == part;
        assert(name =~= name.take(i) + part + name.skip(i + n)) by {
            assert(part =~= name.subrange(i, i + n));
        }
    }
    if is_within(part, name) {
        let (before, after) = choose|before: Seq<char>, after: Seq<char>|
            name == #[trigger] (before + part + after);
        let i = before.len() as int;
        assert(name.subrange(i, i + part.len()) =~= part);
    }
}

/// Whether a listing is what a search finds: only names that are found, in
/// text order, all of them up to the limit, and none left out that comes
/// before one that is listed.
pub open spec fn lists_the_found(
    listing: Seq<Seq<char>>,
    names: Seq<Seq<char>>,
    finds: spec_fn(Seq<char>) -> bool,
    limit: nat,
) -> bool {
    let found = names.filter(finds);
    &&& listing.to_multiset().subset_of(found.to_multiset())
    &&& listing.len() == if found.len() <= limit {
        found.len()
    } else {
        limit
    }
    &&& forall|p: int, q: int|
        0 <= p < q < listing.len() ==> text::text_at_most(
            #[trigger] listing[p],
            #[trigger] listing[q],
        )
    &&& forall|p: int, name: Seq<char>|
        0 <= p < listing.len() && found.to_multiset().count(name) > listing.to_multiset().count(
            name,
        ) ==> text::text_at_most(#[trigger] listing[p], name) || !#[trigger] names.contains(name)
}

proof fn lemma_flagged_filter(
    names: Seq<Seq<char>>,
    finds: spec_fn(Seq<char>) -> bool,
)
    ensures
        pattern::flagged(names, names.map_values(finds)) == names.filter(finds),
    decreases names.len(),
{
    let flags = names.map_values(finds);
    if names.len() == 0 {
        reveal(Seq::filter);
    } else {
        let fewer = names.drop_last();
        lemma_flagged_filter(fewer, finds);
        assert(flags.drop_last() =~= fewer.map_values(finds));
        lemma_flagged_prefix(names, fewer, flags.drop_last());
        assert(names =~= fewer.push(names.last()));
        Seq::lemma_filter_push(fewer, names.last(), finds);
    }
}

proof fn lemma_flagged_prefix(a: Seq<Seq<char>>, b: Seq<Seq<char>>, flags: Seq<bool>)
    requires
        flags.len() <= a.len(),
        flags.len() <= b.len(),
        forall|i: int| 0 <= i < flags.len() ==> a[i] == b[i],
    ensures
        pattern::flagged(a, flags) == pattern::flagged(b, flags),
    decreases flags.len(),
{
    if flags.len() > 0 {
        lemma_flagged_prefix(a, b, flags.drop_last());
    }
}

proof fn lemma_listing(
    names: Seq<Seq<char>>,
    finds: spec_fn(Seq<char>) -> bool,
    limit: nat,
)
    ensures
        lists_the_found(
            pattern::first_flagged(names, names.map_values(finds), limit),
            names,
            finds,
            limit,
        ),
{
    broadcast use vstd::seq_lib::group_to_multiset_ensures;

    lemma_flagged_filter(names, finds);
    let found = names.filter(finds);
    let ranked = order::sorted_by::<Seq<char>, db::ByText>(found, found);
    let same = |name: Seq<char>| name;
    assert(found.map_values(same) =~= found);
    order::sorting_arranges::<Seq<char>, db::ByText>(found, found);
    order::sorted_things_ascend::<Seq<char>, db::ByText>(found, same);
    let listing = pattern::first_flagged(names, names.map_values(finds), limit);
    let n = listing.len() as int;
    let left = ranked.skip(n);
    assert(ranked =~= listing + left);
    vstd::seq_lib::lemma_multiset_commutative(listing, left);
    assert forall|p: int, q: int| 0 <= p < q < ranked.len() implies text::text_at_most(
        #[trigger] ranked[p],
        #[trigger] ranked[q],
    ) by {
        assert(text::text_at_most(same(ranked[p]), same(ranked[q])));
    }
    assert(listing.to_multiset().subset_of(found.to_multiset()));
    assert forall|p: int, name: Seq<char>|
        0 <= p < listing.len() && found.to_multiset().count(name) > listing.to_multiset().count(
            name,
        ) implies text::text_at_most(#[trigger] listing[p], name)
        || !#[trigger] names.contains(name) by {
        assert(left.to_multiset().count(name) > 0);
        assert(left.contains(name));
        let w = choose|w: int| 0 <= w < left.len() && left[w] == name;
        assert(ranked[n + w] == name);
        assert(ranked[p] == listing[p]);
    }
}

/// Being a name that a pattern finds.
pub open spec fn being_found(asked: Seq<char>) -> spec_fn(Seq<char>) -> bool {
    |name: Seq<char>| pattern::glob_finds(asked, name)
}

/// Being a name that a pattern finds whatever the case of its letters.
pub open spec fn being_found_nocase(asked: Seq<char>) -> spec_fn(Seq<char>) -> bool {
    |name: Seq<char>| pattern::like_finds(asked, name)
}

/// A search lists the first names, in text order, of all that the pattern
/// finds, as many as the limit allows.
pub proof fn searches_list_the_first_names_found(
    ix: index::IndexView,
    asked: Seq<char>,
    limit: nat,
)
    ensures
        lists_the_found(
            index::names_found(ix, asked, limit),
            ix.tables.attrs,
            being_found(asked),
            limit,
        ),
        lists_the_found(
            index::names_found_nocase(ix, asked, limit),
            ix.tables.attrs,
            being_found_nocase(asked),
            limit,
        ),
{
    let names = ix.tables.attrs;
    let a = |name: Seq<char>| pattern::glob_finds(asked, name);
    let b = |name: Seq<char>| pattern::like_finds(asked, name);
    assert(names.map_values(a) =~= names.map_values(being_found(asked)));
    assert(names.map_values(b) =~= names.map_values(being_found_nocase(asked)));
    lemma_listing(names, being_found(asked), limit);
    lemma_listing(names, being_found_nocase(asked), limit);
}

/// Small letters for capital ones, of the first hundred and twenty-eight
/// characters, and every other character as it is.
pub proof fn lowering_turns_capitals_small(s: Seq<char>, i: int)
    requires
        0 <= i < s.len(),
    ensures
        pattern::lowered(s).len() == s.len(),
        'A' <= s[i] <= 'Z' ==> pattern::lowered(s)[i] as int == s[i] as int + 32,
        !('A' <= s[i] <= 'Z') ==> pattern::lowered(s)[i] == s[i],
{
}

} // verus!
