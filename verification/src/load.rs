//! Putting the tables together: the database names attributes and store paths
//! by id, and the index names them outright.
use std::collections::HashMap;

use vstd::prelude::*;

use crate::db;
use crate::db::{
    AttrRun, OutputRow, PairPath, PathDetails, PathInfo, Reference, Release, Revision, Run,
    StorePath, Tables,
};
use crate::index;
use crate::index::Index;
use crate::order::Duplicate;
use crate::refusal;
use crate::rows;
use crate::store;

verus! {

/// A name under an id: an attribute's, or a store path's.
#[derive(Debug, Clone)]
pub struct NameRow {
    pub id: i64,
    pub name: String,
}

pub struct NameRowView {
    pub id: i64,
    pub name: Seq<char>,
}

impl DeepView for NameRow {
    type V = NameRowView;

    open spec fn deep_view(&self) -> NameRowView {
        NameRowView { id: self.id, name: self.name@ }
    }
}

/// A run, its attribute by id.
#[derive(Debug, Clone)]
pub struct RunRow {
    pub attr_id: i64,
    pub version: String,
    pub first: i64,
    pub last: i64,
}

pub struct RunRowView {
    pub attr_id: i64,
    pub version: Seq<char>,
    pub first: i64,
    pub last: i64,
}

impl DeepView for RunRow {
    type V = RunRowView;

    open spec fn deep_view(&self) -> RunRowView {
        RunRowView {
            attr_id: self.attr_id,
            version: self.version@,
            first: self.first,
            last: self.last,
        }
    }
}

/// A store path, its name by id where it has one.
#[derive(Debug, Clone)]
pub struct PathRow {
    pub id: i64,
    pub digest: String,
    pub name_id: Option<i64>,
}

pub struct PathRowView {
    pub id: i64,
    pub digest: Seq<char>,
    pub name_id: Option<i64>,
}

impl DeepView for PathRow {
    type V = PathRowView;

    open spec fn deep_view(&self) -> PathRowView {
        PathRowView { id: self.id, digest: self.digest@, name_id: self.name_id }
    }
}

/// A pair, its attribute and its store path by id. The tip flag is a number.
#[derive(Debug, Clone)]
pub struct PairRow {
    pub attr_id: i64,
    pub version: String,
    pub path_id: i64,
    pub tip: i64,
    pub found_off: Option<i64>,
}

pub struct PairRowView {
    pub attr_id: i64,
    pub version: Seq<char>,
    pub path_id: i64,
    pub tip: i64,
    pub found_off: Option<i64>,
}

impl DeepView for PairRow {
    type V = PairRowView;

    open spec fn deep_view(&self) -> PairRowView {
        PairRowView {
            attr_id: self.attr_id,
            version: self.version@,
            path_id: self.path_id,
            tip: self.tip,
            found_off: self.found_off,
        }
    }
}

/// Cache facts about a store path. The live flag is a number.
#[derive(Debug, Clone, Copy)]
pub struct InfoRow {
    pub path_id: i64,
    pub live: Option<i64>,
    pub nar_size: Option<i64>,
    pub file_size: Option<i64>,
    pub closure_bytes: Option<i64>,
    pub closure_paths: Option<i64>,
    pub closure_dead: Option<i64>,
}

impl DeepView for InfoRow {
    type V = InfoRow;

    open spec fn deep_view(&self) -> InfoRow {
        *self
    }
}

/// A sibling output, its derivation's name by id.
#[derive(Debug, Clone)]
pub struct SiblingRow {
    pub drv_name_id: i64,
    pub suffix: String,
    pub path_id: i64,
    pub nar_size: Option<i64>,
}

pub struct SiblingRowView {
    pub drv_name_id: i64,
    pub suffix: Seq<char>,
    pub path_id: i64,
    pub nar_size: Option<i64>,
}

impl DeepView for SiblingRow {
    type V = SiblingRowView;

    open spec fn deep_view(&self) -> SiblingRowView {
        SiblingRowView {
            drv_name_id: self.drv_name_id,
            suffix: self.suffix@,
            path_id: self.path_id,
            nar_size: self.nar_size,
        }
    }
}

/// The rows of the database as it stores them.
#[derive(Debug, Clone)]
pub struct Stored {
    pub meta: Vec<(String, String)>,
    pub revisions: Vec<Revision>,
    pub releases: Vec<Release>,
    pub attrs: Vec<NameRow>,
    pub runs: Vec<RunRow>,
    pub store_names: Vec<NameRow>,
    pub store_paths: Vec<PathRow>,
    pub pairs: Vec<PairRow>,
    pub path_info: Vec<InfoRow>,
    pub path_refs: Vec<Reference>,
    pub outputs: Vec<SiblingRow>,
}

pub struct StoredView {
    pub meta: Seq<(Seq<char>, Seq<char>)>,
    pub revisions: Seq<db::RevisionView>,
    pub releases: Seq<db::ReleaseView>,
    pub attrs: Seq<NameRowView>,
    pub runs: Seq<RunRowView>,
    pub store_names: Seq<NameRowView>,
    pub store_paths: Seq<PathRowView>,
    pub pairs: Seq<PairRowView>,
    pub path_info: Seq<InfoRow>,
    pub path_refs: Seq<Reference>,
    pub outputs: Seq<SiblingRowView>,
}

impl View for Stored {
    type V = StoredView;

    open spec fn view(&self) -> StoredView {
        StoredView {
            meta: self.meta.deep_view(),
            revisions: self.revisions.deep_view(),
            releases: self.releases.deep_view(),
            attrs: self.attrs.deep_view(),
            runs: self.runs.deep_view(),
            store_names: self.store_names.deep_view(),
            store_paths: self.store_paths.deep_view(),
            pairs: self.pairs.deep_view(),
            path_info: self.path_info.deep_view(),
            path_refs: self.path_refs.deep_view(),
            outputs: self.outputs.deep_view(),
        }
    }
}

/// The name under an id.
pub open spec fn name_under(names: Seq<NameRowView>, id: i64) -> Option<Seq<char>> {
    match rows::first_where(names, |row: NameRowView| row.id == id) {
        Some(row) => Some(row.name),
        None => None,
    }
}

/// The store path under an id.
pub open spec fn path_under(paths: Seq<db::PathView>, id: i64) -> Option<db::PathView> {
    rows::first_where(paths, |path: db::PathView| path.id == id)
}

/// A run by its attribute's name. One without an attribute is left out.
pub open spec fn named_run(attrs: Seq<NameRowView>, row: RunRowView) -> Option<db::AttrRunView> {
    match name_under(attrs, row.attr_id) {
        Some(attr) => Some(
            db::AttrRunView {
                attr,
                run: db::RunView { version: row.version, first: row.first, last: row.last },
            },
        ),
        None => None,
    }
}

/// A store path with its name, where any source of the data knew it.
pub open spec fn named_path(names: Seq<NameRowView>, row: PathRowView) -> db::PathView {
    db::PathView {
        id: row.id,
        digest: row.digest,
        name: match row.name_id {
            Some(id) => name_under(names, id),
            None => None,
        },
    }
}

/// A pair by its attribute's name and its store path. One that lacks either is
/// left out.
pub open spec fn named_pair(
    attrs: Seq<NameRowView>,
    paths: Seq<db::PathView>,
    row: PairRowView,
) -> Option<db::PairView> {
    match (name_under(attrs, row.attr_id), path_under(paths, row.path_id)) {
        (Some(attr), Some(path)) => Some(
            db::PairView {
                attr,
                version: row.version,
                path,
                tip: row.tip != 0,
                found_off: row.found_off,
            },
        ),
        _ => None,
    }
}

/// Cache facts with the live flag read.
pub open spec fn read_info(row: InfoRow) -> PathInfo {
    PathInfo {
        path_id: row.path_id,
        details: PathDetails {
            live: match row.live {
                Some(flag) => Some(flag != 0),
                None => None,
            },
            nar_size: row.nar_size,
            file_size: row.file_size,
            closure_bytes: row.closure_bytes,
            closure_paths: row.closure_paths,
            closure_dead: row.closure_dead,
        },
    }
}

/// A sibling output by its derivation's name. One without is left out.
pub open spec fn named_output(names: Seq<NameRowView>, row: SiblingRowView) -> Option<
    db::OutputRowView,
> {
    match name_under(names, row.drv_name_id) {
        Some(drv_name) => Some(
            db::OutputRowView {
                drv_name,
                suffix: row.suffix,
                path_id: row.path_id,
                nar_size: row.nar_size,
            },
        ),
        None => None,
    }
}

/// The store paths with their names.
pub open spec fn paths_in(stored: StoredView) -> Seq<db::PathView> {
    stored.store_paths.map_values(|row: PathRowView| named_path(stored.store_names, row))
}

/// The tables the index answers from, ids replaced by what they stand for.
pub open spec fn tables_of(stored: StoredView) -> db::TablesView {
    let paths = paths_in(stored);
    db::TablesView {
        meta: stored.meta,
        revisions: stored.revisions,
        releases: stored.releases,
        attrs: stored.attrs.map_values(|row: NameRowView| row.name),
        runs: rows::kept_and_turned(
            stored.runs,
            |row: RunRowView| named_run(stored.attrs, row),
        ),
        store_paths: paths,
        pairs: rows::kept_and_turned(
            stored.pairs,
            |row: PairRowView| named_pair(stored.attrs, paths, row),
        ),
        path_info: stored.path_info.map_values(|row: InfoRow| read_info(row)),
        path_refs: stored.path_refs,
        outputs: rows::kept_and_turned(
            stored.outputs,
            |row: SiblingRowView| named_output(stored.store_names, row),
        ),
    }
}

/// Whether a map leads from each id to the first position it is at.
pub open spec fn leads_to_firsts(at: Map<i64, usize>, ids: Seq<i64>) -> bool {
    &&& forall|id: i64| #[trigger] at.contains_key(id) <==> ids.contains(id)
    &&& forall|id: i64| #[trigger]
        at.contains_key(id) ==> at[id] < ids.len() && ids[at[id] as int] == id && forall|j: int|
            0 <= j < at[id] ==> ids[j] != id
}

fn first_positions(ids: &Vec<i64>) -> (r: HashMap<i64, usize>)
    ensures
        leads_to_firsts(r@, ids@),
{
    broadcast use vstd::std_specs::hash::group_hash_axioms;

    let mut at: HashMap<i64, usize> = HashMap::new();
    let mut i: usize = ids.len();
    assert(ids@.skip(i as int) =~= Seq::<i64>::empty());
    while i > 0
        invariant
            i <= ids.len(),
            forall|id: i64| #[trigger]
                at@.contains_key(id) <==> exists|j: int| i <= j < ids.len() && #[trigger] ids@[j] == id,
            forall|id: i64| #[trigger]
                at@.contains_key(id) ==> i <= at@[id] < ids.len() && ids@[at@[id] as int] == id
                    && forall|j: int| i <= j < at@[id] ==> ids@[j] != id,
        decreases i,
    {
        i = i - 1;
        let ghost before = at@;
        at.insert(ids[i], i);
        proof {
            assert forall|id: i64| #[trigger] at@.contains_key(id) <==> exists|j: int|
                i <= j < ids.len() && #[trigger] ids@[j] == id by {
                assert(before.contains_key(id) <==> exists|j: int|
                    i + 1 <= j < ids.len() && #[trigger] ids@[j] == id);
                if id == ids@[i as int] {
                    assert(ids@[i as int] == id);
                }
            }
        }
    }
    assert forall|id: i64| #[trigger] at@.contains_key(id) <==> ids@.contains(id) by {
        if ids@.contains(id) {
            let j = choose|j: int| 0 <= j < ids@.len() && ids@[j] == id;
            assert(0 <= j < ids.len() && ids@[j] == id);
        }
    }
    at
}

/// Names, and where each id is first.
struct Names<'a> {
    rows: &'a Vec<NameRow>,
    at: HashMap<i64, usize>,
}

impl<'a> Names<'a> {
    spec fn well_formed(&self) -> bool {
        leads_to_firsts(
            self.at@,
            self.rows.deep_view().map_values(|row: NameRowView| row.id),
        )
    }

    fn over(rows: &'a Vec<NameRow>) -> (r: Names<'a>)
        ensures
            r.rows == rows,
            r.well_formed(),
    {
        let ids: Vec<i64> = rows::map_rows(
            rows,
            |row: &NameRow| -> (id: i64)
                ensures
                    id.deep_view() == row.deep_view().id
                { row.id },
            Ghost(|row: NameRowView| row.id),
        );
        assert(ids.deep_view() =~= ids@);
        Names { rows, at: first_positions(&ids) }
    }

    fn under(&self, id: i64) -> (r: Option<String>)
        requires
            self.well_formed(),
        ensures
            r.deep_view() == name_under(self.rows.deep_view(), id),
    {
        broadcast use vstd::std_specs::hash::group_hash_axioms;

        let ghost all = self.rows.deep_view();
        let ghost ids = all.map_values(|row: NameRowView| row.id);
        let ghost fits = |row: NameRowView| row.id == id;
        proof {
            rows::first_where_is_first(all, fits);
        }
        match self.at.get(&id) {
            Some(at) => {
                proof {
                    assert(ids[*at as int] == id);
                    assert(fits(all[*at as int]));
                    assert forall|j: int| 0 <= j < *at implies !fits(#[trigger] all[j]) by {
                        assert(ids[j] == all[j].id);
                    }
                }
                Some(self.rows[*at].name.clone())
            },
            None => {
                proof {
                    assert forall|j: int| 0 <= j < all.len() implies !fits(#[trigger] all[j]) by {
                        if fits(all[j]) {
                            assert(ids[j] == id);
                            assert(ids.contains(id));
                        }
                    }
                }
                None
            },
        }
    }
}

/// Store paths, and where each id is first.
struct Paths<'a> {
    rows: &'a Vec<StorePath>,
    at: HashMap<i64, usize>,
}

impl<'a> Paths<'a> {
    spec fn well_formed(&self) -> bool {
        leads_to_firsts(
            self.at@,
            self.rows.deep_view().map_values(|path: db::PathView| path.id),
        )
    }

    fn over(rows: &'a Vec<StorePath>) -> (r: Paths<'a>)
        ensures
            r.rows == rows,
            r.well_formed(),
    {
        let ids: Vec<i64> = rows::map_rows(
            rows,
            |path: &StorePath| -> (id: i64)
                ensures
                    id.deep_view() == path.deep_view().id
                { path.id },
            Ghost(|path: db::PathView| path.id),
        );
        assert(ids.deep_view() =~= ids@);
        Paths { rows, at: first_positions(&ids) }
    }

    fn under(&self, id: i64) -> (r: Option<StorePath>)
        requires
            self.well_formed(),
        ensures
            r.deep_view() == path_under(self.rows.deep_view(), id),
    {
        broadcast use vstd::std_specs::hash::group_hash_axioms;

        let ghost all = self.rows.deep_view();
        let ghost ids = all.map_values(|path: db::PathView| path.id);
        let ghost fits = |path: db::PathView| path.id == id;
        proof {
            rows::first_where_is_first(all, fits);
        }
        match self.at.get(&id) {
            Some(at) => {
                proof {
                    assert(ids[*at as int] == id);
                    assert(fits(all[*at as int]));
                    assert forall|j: int| 0 <= j < *at implies !fits(#[trigger] all[j]) by {
                        assert(ids[j] == all[j].id);
                    }
                }
                Some(self.rows[*at].duplicate())
            },
            None => {
                proof {
                    assert forall|j: int| 0 <= j < all.len() implies !fits(#[trigger] all[j]) by {
                        if fits(all[j]) {
                            assert(ids[j] == id);
                            assert(ids.contains(id));
                        }
                    }
                }
                None
            },
        }
    }
}

fn name_runs(stored: &Vec<RunRow>, attrs: &Names) -> (r: Vec<AttrRun>)
    requires
        attrs.well_formed(),
    ensures
        r.deep_view() == rows::kept_and_turned(
            stored.deep_view(),
            |row: RunRowView| named_run(attrs.rows.deep_view(), row),
        ),
{
    rows::turn_rows(
        stored,
        |row: &RunRow| -> (run: Option<AttrRun>)
            ensures
                run.deep_view() == named_run(attrs.rows.deep_view(), row.deep_view())
            {
                match attrs.under(row.attr_id) {
                    Some(attr) => Some(
                        AttrRun {
                            attr,
                            run: Run {
                                version: row.version.clone(),
                                first: row.first,
                                last: row.last,
                            },
                        },
                    ),
                    None => None,
                }
            },
        Ghost(|row: RunRowView| named_run(attrs.rows.deep_view(), row)),
    )
}

fn name_paths(stored: &Vec<PathRow>, names: &Names) -> (r: Vec<StorePath>)
    requires
        names.well_formed(),
    ensures
        r.deep_view() == stored.deep_view().map_values(
            |row: PathRowView| named_path(names.rows.deep_view(), row),
        ),
{
    rows::map_rows(
        stored,
        |row: &PathRow| -> (path: StorePath)
            ensures
                path.deep_view() == named_path(names.rows.deep_view(), row.deep_view())
            {
                StorePath {
                    id: row.id,
                    digest: row.digest.clone(),
                    name: match row.name_id {
                        Some(id) => names.under(id),
                        None => None,
                    },
                }
            },
        Ghost(|row: PathRowView| named_path(names.rows.deep_view(), row)),
    )
}

fn name_pairs(stored: &Vec<PairRow>, attrs: &Names, paths: &Paths) -> (r: Vec<PairPath>)
    requires
        attrs.well_formed(),
        paths.well_formed(),
    ensures
        r.deep_view() == rows::kept_and_turned(
            stored.deep_view(),
            |row: PairRowView|
                named_pair(attrs.rows.deep_view(), paths.rows.deep_view(), row),
        ),
{
    rows::turn_rows(
        stored,
        |row: &PairRow| -> (pair: Option<PairPath>)
            ensures
                pair.deep_view() == named_pair(
                    attrs.rows.deep_view(),
                    paths.rows.deep_view(),
                    row.deep_view(),
                )
            {
                match (attrs.under(row.attr_id), paths.under(row.path_id)) {
                    (Some(attr), Some(path)) => Some(
                        Index::pair_from_row(
                            attr,
                            row.version.clone(),
                            path,
                            row.tip,
                            row.found_off,
                        ),
                    ),
                    _ => None,
                }
            },
        Ghost(
            |row: PairRowView|
                named_pair(attrs.rows.deep_view(), paths.rows.deep_view(), row),
        ),
    )
}

fn read_infos(stored: &Vec<InfoRow>) -> (r: Vec<PathInfo>)
    ensures
        r.deep_view() == stored.deep_view().map_values(|row: InfoRow| read_info(row)),
{
    rows::map_rows(
        stored,
        |row: &InfoRow| -> (info: PathInfo)
            ensures
                info.deep_view() == read_info(row.deep_view())
            {
                PathInfo {
                    path_id: row.path_id,
                    details: Index::details_from_row(
                        row.live,
                        row.nar_size,
                        row.file_size,
                        row.closure_bytes,
                        row.closure_paths,
                        row.closure_dead,
                    ),
                }
            },
        Ghost(|row: InfoRow| read_info(row)),
    )
}

fn name_outputs(stored: &Vec<SiblingRow>, names: &Names) -> (r: Vec<OutputRow>)
    requires
        names.well_formed(),
    ensures
        r.deep_view() == rows::kept_and_turned(
            stored.deep_view(),
            |row: SiblingRowView| named_output(names.rows.deep_view(), row),
        ),
{
    rows::turn_rows(
        stored,
        |row: &SiblingRow| -> (output: Option<OutputRow>)
            ensures
                output.deep_view() == named_output(names.rows.deep_view(), row.deep_view())
            {
                match names.under(row.drv_name_id) {
                    Some(drv_name) => Some(
                        OutputRow {
                            drv_name,
                            suffix: row.suffix.clone(),
                            path_id: row.path_id,
                            nar_size: row.nar_size,
                        },
                    ),
                    None => None,
                }
            },
        Ghost(|row: SiblingRowView| named_output(names.rows.deep_view(), row)),
    )
}

impl Stored {
    /// The tables the index answers from, ids replaced by what they stand for.
    pub fn into_tables(self) -> (r: Tables)
        ensures
            r@ == tables_of(self@),
    {
        let attr_names: Vec<String> = rows::map_rows(
            &self.attrs,
            |row: &NameRow| -> (name: String)
                ensures
                    name.deep_view() == row.deep_view().name
                { row.name.clone() },
            Ghost(|row: NameRowView| row.name),
        );
        let attrs: Names = Names::over(&self.attrs);
        let names: Names = Names::over(&self.store_names);
        let store_paths: Vec<StorePath> = name_paths(&self.store_paths, &names);
        let runs: Vec<AttrRun> = name_runs(&self.runs, &attrs);
        let paths: Paths = Paths::over(&store_paths);
        let pairs: Vec<PairPath> = name_pairs(&self.pairs, &attrs, &paths);
        let path_info: Vec<PathInfo> = read_infos(&self.path_info);
        let outputs: Vec<OutputRow> = name_outputs(&self.outputs, &names);
        Tables {
            meta: self.meta,
            revisions: self.revisions,
            releases: self.releases,
            attrs: attr_names,
            runs,
            store_paths,
            pairs,
            path_info,
            path_refs: self.path_refs,
            outputs,
        }
    }
}

/// A pair comes out of the tables just where a stored pair has an attribute
/// and a store path, and carries that store path: every pair's path is one of
/// the store paths.
pub proof fn pairs_carry_stored_paths(stored: StoredView, pair: db::PairView)
    ensures
        tables_of(stored).pairs.contains(pair) <==> exists|i: int|
            0 <= i < stored.pairs.len() && named_pair(
                stored.attrs,
                paths_in(stored),
                #[trigger] stored.pairs[i],
            ) == Some(pair),
        tables_of(stored).pairs.contains(pair) ==> paths_in(stored).contains(pair.path),
{
    let paths = paths_in(stored);
    let turned = |row: PairRowView| named_pair(stored.attrs, paths, row);
    rows::kept_comes_of_a_row(stored.pairs, turned, pair);
    if exists|i: int|
        0 <= i < stored.pairs.len() && named_pair(stored.attrs, paths, #[trigger] stored.pairs[i])
            == Some(pair) {
        let i = choose|i: int|
            0 <= i < stored.pairs.len() && named_pair(
                stored.attrs,
                paths,
                #[trigger] stored.pairs[i],
            ) == Some(pair);
        assert(turned(stored.pairs[i]) == Some(pair));
        let id = stored.pairs[i].path_id;
        let fits = |path: db::PathView| path.id == id;
        let found = paths.filter(fits);
        assert(found.contains(found[0]));
        paths.lemma_filter_contains_rev(fits, found[0]);
    }
    if tables_of(stored).pairs.contains(pair) {
        let i = choose|i: int|
            0 <= i < stored.pairs.len() && turned(#[trigger] stored.pairs[i]) == Some(pair);
        assert(named_pair(stored.attrs, paths, stored.pairs[i]) == Some(pair));
    }
}

/// Of a database in which no two store paths share a digest, whatever path
/// `path` prints, `identify` names the package again.
pub proof fn printed_paths_are_identified(
    stored: StoredView,
    ix: index::IndexView,
    spec: Seq<char>,
    pair: db::PairView,
)
    requires
        ix.tables == tables_of(stored),
        forall|i: int, j: int|
            0 <= i < j < stored.store_paths.len() ==> (#[trigger] stored.store_paths[i]).digest != (
            #[trigger] stored.store_paths[j]).digest,
        store::guarded(ix, spec) == Ok::<db::PairView, refusal::RefusalView>(pair),
        store::is_digest(pair.path.digest),
        pair.path.name matches Some(name) ==> !name.contains('/'),
    ensures
        store::identified(ix, db::store_path_of(pair.path)) matches Ok(answer)
            && answer.packages.contains(store::package_entry(pair)) && answer.store_path
            == db::store_path_of(pair.path),
{
    let paths = paths_in(stored);
    store::resolved_pairs_are_indexed(ix, spec);
    pairs_carry_stored_paths(stored, pair);
    let k = choose|k: int| 0 <= k < paths.len() && paths[k] == pair.path;
    let fits = |row: db::PathView| row.digest == pair.path.digest;
    rows::first_where_is_first(paths, fits);
    assert(fits(paths[k]));
    assert forall|j: int| 0 <= j < k implies !fits(#[trigger] paths[j]) by {
        assert(paths[j].digest == stored.store_paths[j].digest);
        assert(paths[k].digest == stored.store_paths[k].digest);
    }
    store::identify_undoes_path(ix, spec, pair);
}

} // verus!
