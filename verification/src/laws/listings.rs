//! How rows are put together, grouped, chosen between and printed.
use vstd::prelude::*;

use crate::db;
use crate::index;
use crate::laws;
use crate::load;
use crate::order;
use crate::order::Ranked;
use crate::output;
use crate::refusal;
use crate::rows;
use crate::run;
use crate::solve;
use crate::store;
use crate::text;
use crate::version;

verus! {

/// Being a run of a version.
pub open spec fn being_of(version: Seq<char>) -> spec_fn(db::RunView) -> bool {
    |run: db::RunView| run.version == version
}

/// Whether a version is first met in some runs before another.
pub open spec fn is_met_before(runs: Seq<db::RunView>, a: Seq<char>, b: Seq<char>) -> bool {
    exists|p: int|
        0 <= p < runs.len() && (#[trigger] runs[p]).version == a && forall|q: int|
            0 <= q < runs.len() && (#[trigger] runs[q]).version == b ==> p < q
}

/// Grouping gives each version of the runs a group, in the order in which they
/// are first met, and each group all the runs of its version, the earliest
/// first.
pub proof fn groups_are_the_versions_as_they_are_met(runs: Seq<db::RunView>)
    ensures
        forall|version: Seq<char>|
            #![trigger is_grouped(db::grouped(runs), version)]
            is_grouped(db::grouped(runs), version) <==> exists|k: int|
                0 <= k < runs.len() && (#[trigger] runs[k]).version == version,
        forall|i: int, j: int|
            0 <= i < j < db::grouped(runs).len() ==> is_met_before(
                runs,
                (#[trigger] db::grouped(runs)[i]).0,
                (#[trigger] db::grouped(runs)[j]).0,
            ),
        forall|i: int|
            0 <= i < db::grouped(runs).len() ==> (#[trigger] db::grouped(runs)[i]).1.to_multiset()
                == runs.filter(being_of(db::grouped(runs)[i].0)).to_multiset(),
        forall|i: int, p: int, q: int|
            0 <= i < db::grouped(runs).len() && 0 <= p < q < db::grouped(runs)[i].1.len() ==> (
            #[trigger] db::grouped(runs)[i].1[p]).first <= (
            #[trigger] db::grouped(runs)[i].1[q]).first,
{
    db::grouping_partitions_the_runs(runs);
    let groups = db::grouped(runs);
    let versions = db::versions_in(runs);
    let heads = db::firsts(versions);
    db::firsts_are_all_and_distinct(versions);
    assert forall|version: Seq<char>| #![trigger is_grouped(groups, version)]
        is_grouped(groups, version) <==> exists|k: int|
            0 <= k < runs.len() && (#[trigger] runs[k]).version == version by {
        if is_grouped(groups, version) {
            let i = choose|i: int| 0 <= i < groups.len() && (#[trigger] groups[i]).0 == version;
            assert(heads[i] == version);
            assert(heads.contains(version));
            let k = choose|k: int| 0 <= k < versions.len() && versions[k] == version;
            assert(runs[k].version == version);
        }
        if exists|k: int| 0 <= k < runs.len() && (#[trigger] runs[k]).version == version {
            let k = choose|k: int| 0 <= k < runs.len() && (#[trigger] runs[k]).version == version;
            assert(versions[k] == version);
            assert(heads.contains(version));
            let i = choose|i: int| 0 <= i < heads.len() && heads[i] == version;
            assert(groups[i].0 == version);
        }
    }
    assert forall|i: int, j: int| 0 <= i < j < groups.len() implies is_met_before(
        runs,
        (#[trigger] groups[i]).0,
        (#[trigger] groups[j]).0,
    ) by {
        db::firsts_keep_the_order_of_meeting(versions, i, j);
        let p = choose|p: int|
            0 <= p < versions.len() && #[trigger] versions[p] == heads[i] && (forall|q: int|
                0 <= q < versions.len() && #[trigger] versions[q] == heads[j] ==> p < q);
        assert(runs[p].version == groups[i].0);
        assert forall|q: int|
            0 <= q < runs.len() && (#[trigger] runs[q]).version == groups[j].0 implies p < q by {
            assert(versions[q] == heads[j]);
        }
    }
    assert forall|i: int| 0 <= i < groups.len() implies (#[trigger] groups[i]).1.to_multiset()
        == runs.filter(being_of(groups[i].0)).to_multiset() by {
        let version = groups[i].0;
        assert((|run: db::RunView| run.version == version) =~= being_of(version));
    }
}

/// Whether some group is that of a version.
pub open spec fn is_grouped(
    groups: Seq<(Seq<char>, Seq<db::RunView>)>,
    version: Seq<char>,
) -> bool {
    exists|i: int| 0 <= i < groups.len() && (#[trigger] groups[i]).0 == version
}

/// Whether places are an order of some keys: each place once, lower keys
/// first, and of keys that rank alike the one that came first.
pub open spec fn are_places<T: Ranked>(keys: Seq<T::V>, places: Seq<int>) -> bool {
    &&& places.len() == keys.len()
    &&& forall|i: int| 0 <= i < keys.len() ==> #[trigger] places.contains(i)
    &&& forall|p: int, q: int|
        0 <= p < q < places.len() ==> {
            let a = #[trigger] places[p];
            let b = #[trigger] places[q];
            &&& 0 <= a < keys.len() && 0 <= b < keys.len()
            &&& T::at_most(keys[a], keys[b])
            &&& T::at_most(keys[b], keys[a]) ==> a < b
        }
}

/// Sorting puts things with lower keys first, and leaves those whose keys rank
/// alike in the order they came in.
pub proof fn sorting_leaves_equals_in_their_order<A, T: Ranked>(things: Seq<A>, keys: Seq<T::V>)
    requires
        things.len() == keys.len(),
    ensures
        exists|places: Seq<int>| #[trigger]
            are_places::<T>(keys, places) && order::sorted_by::<A, T>(things, keys) == Seq::new(
                things.len(),
                |p: int| things[places[p]],
            ),
{
    order::sorted_order_exists::<T>(keys);
    let places = order::order_of::<T>(keys);
    assert forall|p: int, q: int| 0 <= p < q < places.len() implies {
        let a = #[trigger] places[p];
        let b = #[trigger] places[q];
        &&& 0 <= a < keys.len() && 0 <= b < keys.len()
        &&& T::at_most(keys[a], keys[b])
        &&& T::at_most(keys[b], keys[a]) ==> a < b
    } by {
        assert(order::goes_before::<T>(keys, places[p], places[q]));
    }
    assert(are_places::<T>(keys, places));
    assert(order::sorted_by::<A, T>(things, keys) =~= Seq::new(
        things.len(),
        |p: int| things[places[p]],
    ));
}

/// Of candidates that are as good, the last is chosen: every one behind the
/// chosen is worse, as it is not current where the chosen is, or is older.
pub proof fn the_last_of_the_best_is_chosen(candidates: Seq<db::PairView>)
    requires
        candidates.len() > 0,
    ensures
        exists|k: int|
            0 <= k < candidates.len() && #[trigger] candidates[k] == store::chosen(candidates)
                && forall|j: int|
                k < j < candidates.len() ==> (candidates[k].tip && !(
                #[trigger] candidates[j]).tip) || (candidates[k].tip == candidates[j].tip
                    && !version::at_most(candidates[k].version, candidates[j].version)),
{
    let keys = store::tip_keys(candidates);
    order::sorted_order_exists::<store::ByTip>(keys);
    let o = order::order_of::<store::ByTip>(keys);
    let last = o.len() - 1;
    let k = o[last];
    assert(0 <= k < keys.len());
    assert(candidates[k] == store::chosen(candidates));
    assert forall|j: int| k < j < candidates.len() implies (candidates[k].tip && !(
    #[trigger] candidates[j]).tip) || (candidates[k].tip == candidates[j].tip && !version::at_most(
        candidates[k].version,
        candidates[j].version,
    )) by {
        assert(o.contains(j));
        let p = choose|p: int| 0 <= p < o.len() && o[p] == j;
        assert(order::goes_before::<store::ByTip>(keys, o[p], o[last]));
        assert(keys[j] == (candidates[j].tip, candidates[j].version));
        assert(keys[k] == (candidates[k].tip, candidates[k].version));
        assert(!store::ByTip::at_most(keys[k], keys[j]));
        version::versions_are_ranked(candidates[k].version, candidates[j].version);
    }
}

/// The program to run is the entry of `bin/` named as the attribute; without
/// one, that named as the store path is without its version; without either,
/// the only one. Where that leaves none, what there is is told, in text order.
pub proof fn programs_are_named_after_what_is_run(
    store_path: Seq<char>,
    target: store::TargetView,
    names: Seq<Seq<char>>,
)
    ensures
        run::program_of(store_path, target, None) == Err::<Seq<char>, refusal::RefusalView>(
            refusal::RefusalView::NothingToRun { attr: target.attr, version: target.version },
        ),
        match run::program_of(store_path, target, Some(names)) {
            Ok(program) => exists|name: Seq<char>| #[trigger]
                names.contains(name) && program == store_path + "/bin/"@ + name && {
                    ||| name == target.attr
                    ||| !names.contains(target.attr) && target.pname == Some(name)
                    ||| !names.contains(target.attr) && names.len() == 1 && !(
                    target.pname matches Some(pname) && names.contains(pname))
                },
            Err(refusal::RefusalView::ManyPrograms { attr, version, names: told }) => attr
                == target.attr && version == target.version && !names.contains(target.attr) && !(
            target.pname matches Some(pname) && names.contains(pname)) && names.len() != 1
                && told.to_multiset() == names.to_multiset() && forall|p: int, q: int|
                0 <= p < q < told.len() ==> text::text_at_most(
                    #[trigger] told[p],
                    #[trigger] told[q],
                ),
            Err(_) => false,
        },
{
    reveal_strlit("/bin");
    reveal_strlit("/");
    reveal_strlit("/bin/");
    assert("/bin"@ + "/"@ =~= "/bin/"@);
    let front = store_path + "/bin"@ + "/"@;
    assert(front =~= store_path + "/bin/"@);
    let same = |name: Seq<char>| name;
    assert(names.map_values(same) =~= names);
    order::sorting_arranges::<Seq<char>, db::ByText>(names, names);
    order::sorted_things_ascend::<Seq<char>, db::ByText>(names, same);
    let told = order::sorted_by::<Seq<char>, db::ByText>(names, names);
    assert forall|p: int, q: int| 0 <= p < q < told.len() implies text::text_at_most(
        #[trigger] told[p],
        #[trigger] told[q],
    ) by {
        assert(text::text_at_most(same(told[p]), same(told[q])));
    }
    if names.len() == 1 {
        assert(names.contains(names[0]));
    }
}

/// Whether a name is that under an id, that of the first row with the id.
pub open spec fn is_name_under(names: Seq<load::NameRowView>, id: i64, name: Seq<char>) -> bool {
    exists|k: int|
        0 <= k < names.len() && (#[trigger] names[k]).id == id && names[k].name == name && forall|
            j: int,
        |
            0 <= j < k ==> (#[trigger] names[j]).id != id
}

/// Whether some row has an id.
pub open spec fn has_name_under(names: Seq<load::NameRowView>, id: i64) -> bool {
    exists|k: int| 0 <= k < names.len() && (#[trigger] names[k]).id == id
}

proof fn lemma_name_under(names: Seq<load::NameRowView>, id: i64)
    ensures
        match load::name_under(names, id) {
            Some(name) => is_name_under(names, id, name),
            None => !has_name_under(names, id),
        },
        forall|name: Seq<char>| #[trigger]
            is_name_under(names, id, name) ==> load::name_under(names, id) == Some(name),
{
    let fits = |row: load::NameRowView| row.id == id;
    laws::lemma_first_where(names, fits);
    match rows::first_where(names, fits) {
        Some(row) => {
            let k = choose|k: int|
                0 <= k < names.len() && #[trigger] names[k] == row && fits(row) && forall|j: int|
                    0 <= j < k ==> !fits(#[trigger] names[j]);
            assert forall|j: int| 0 <= j < k implies (#[trigger] names[j]).id != id by {
                assert(!fits(names[j]));
            }
            assert(names[k].id == id);
            assert(is_name_under(names, id, row.name));
            assert forall|name: Seq<char>| #[trigger] is_name_under(names, id, name) implies name
                == row.name by {
                let m = choose|m: int|
                    0 <= m < names.len() && (#[trigger] names[m]).id == id && names[m].name == name
                        && forall|j: int| 0 <= j < m ==> (#[trigger] names[j]).id != id;
                assert(m == k) by {
                    if m < k {
                        assert(names[m].id != id);
                    } else if k < m {
                        assert(names[k].id != id);
                    }
                }
            }
        },
        None => {
            assert forall|k: int| 0 <= k < names.len() implies (#[trigger] names[k]).id != id by {
                assert(!fits(names[k]));
            }
        },
    }
}

/// Loading names each run by its attribute, and keeps just the runs whose
/// attribute has a name.
pub proof fn loaded_runs_are_named(stored: load::StoredView, row: db::AttrRunView)
    ensures
        load::tables_of(stored).runs.contains(row) <==> exists|i: int|
            0 <= i < stored.runs.len() && is_name_under(
                stored.attrs,
                (#[trigger] stored.runs[i]).attr_id,
                row.attr,
            ) && stored.runs[i].version == row.run.version && stored.runs[i].first == row.run.first
                && stored.runs[i].last == row.run.last,
{
    let turned = |r: load::RunRowView| load::named_run(stored.attrs, r);
    rows::kept_comes_of_a_row(stored.runs, turned, row);
    assert forall|i: int| 0 <= i < stored.runs.len() implies (turned(#[trigger] stored.runs[i])
        == Some(row) <==> is_name_under(stored.attrs, stored.runs[i].attr_id, row.attr)
        && stored.runs[i].version == row.run.version && stored.runs[i].first == row.run.first
        && stored.runs[i].last == row.run.last) by {
        lemma_name_under(stored.attrs, stored.runs[i].attr_id);
    }
    if load::tables_of(stored).runs.contains(row) {
        let i = choose|i: int|
            0 <= i < stored.runs.len() && turned(#[trigger] stored.runs[i]) == Some(row);
        assert(is_name_under(stored.attrs, stored.runs[i].attr_id, row.attr));
    }
}

/// Loading names each output by its derivation, and keeps just the outputs
/// whose derivation has a name.
pub proof fn loaded_outputs_are_named(stored: load::StoredView, row: db::OutputRowView)
    ensures
        load::tables_of(stored).outputs.contains(row) <==> exists|i: int|
            0 <= i < stored.outputs.len() && is_name_under(
                stored.store_names,
                (#[trigger] stored.outputs[i]).drv_name_id,
                row.drv_name,
            ) && stored.outputs[i].suffix == row.suffix && stored.outputs[i].path_id == row.path_id
                && stored.outputs[i].nar_size == row.nar_size,
{
    let turned = |r: load::SiblingRowView| load::named_output(stored.store_names, r);
    rows::kept_comes_of_a_row(stored.outputs, turned, row);
    assert forall|i: int| 0 <= i < stored.outputs.len() implies (turned(
        #[trigger] stored.outputs[i],
    ) == Some(row) <==> is_name_under(
        stored.store_names,
        stored.outputs[i].drv_name_id,
        row.drv_name,
    ) && stored.outputs[i].suffix == row.suffix && stored.outputs[i].path_id == row.path_id
        && stored.outputs[i].nar_size == row.nar_size) by {
        lemma_name_under(stored.store_names, stored.outputs[i].drv_name_id);
    }
    if load::tables_of(stored).outputs.contains(row) {
        let i = choose|i: int|
            0 <= i < stored.outputs.len() && turned(#[trigger] stored.outputs[i]) == Some(row);
        assert(is_name_under(stored.store_names, stored.outputs[i].drv_name_id, row.drv_name));
    }
}

/// Loading keeps every store path in its place, with the name its id stands
/// for, and every attribute and fact; a flag is set when it is not zero. The
/// rest is taken as it is stored.
pub proof fn loaded_rows_keep_their_place(stored: load::StoredView, i: int)
    ensures
        load::tables_of(stored).meta == stored.meta,
        load::tables_of(stored).revisions == stored.revisions,
        load::tables_of(stored).releases == stored.releases,
        load::tables_of(stored).path_refs == stored.path_refs,
        load::tables_of(stored).attrs.len() == stored.attrs.len(),
        load::tables_of(stored).store_paths.len() == stored.store_paths.len(),
        load::tables_of(stored).path_info.len() == stored.path_info.len(),
        0 <= i < stored.attrs.len() ==> load::tables_of(stored).attrs[i] == stored.attrs[i].name,
        0 <= i < stored.store_paths.len() ==> {
            let row = stored.store_paths[i];
            let path = load::tables_of(stored).store_paths[i];
            &&& path.id == row.id
            &&& path.digest == row.digest
            &&& match (row.name_id, path.name) {
                (Some(id), Some(name)) => is_name_under(stored.store_names, id, name),
                (Some(id), None) => !has_name_under(stored.store_names, id),
                (None, name) => name is None,
            }
        },
        0 <= i < stored.path_info.len() ==> {
            let row = stored.path_info[i];
            let info = load::tables_of(stored).path_info[i];
            &&& info.path_id == row.path_id
            &&& row.live is None <==> info.details.live is None
            &&& row.live matches Some(flag) ==> info.details.live == Some(flag != 0)
            &&& info.details.nar_size == row.nar_size
            &&& info.details.file_size == row.file_size
            &&& info.details.closure_bytes == row.closure_bytes
            &&& info.details.closure_paths == row.closure_paths
            &&& info.details.closure_dead == row.closure_dead
        },
{
    if 0 <= i < stored.store_paths.len() {
        if let Some(id) = stored.store_paths[i].name_id {
            lemma_name_under(stored.store_names, id);
        }
    }
}

/// Loading joins each pair with the attribute and the store path its ids stand
/// for, and keeps just the pairs that have both; a pair is current when its
/// flag is not zero.
pub proof fn loaded_pairs_are_joined(stored: load::StoredView, pair: db::PairView)
    ensures
        load::tables_of(stored).pairs.contains(pair) <==> exists|i: int|
            0 <= i < stored.pairs.len() && is_name_under(
                stored.attrs,
                (#[trigger] stored.pairs[i]).attr_id,
                pair.attr,
            ) && is_path_under(
                load::tables_of(stored).store_paths,
                stored.pairs[i].path_id,
                pair.path,
            ) && stored.pairs[i].version == pair.version && (stored.pairs[i].tip != 0) == pair.tip
                && stored.pairs[i].found_off == pair.found_off,
{
    load::pairs_carry_stored_paths(stored, pair);
    let paths = load::tables_of(stored).store_paths;
    assert forall|i: int| 0 <= i < stored.pairs.len() implies (load::named_pair(
        stored.attrs,
        paths,
        #[trigger] stored.pairs[i],
    ) == Some(pair) <==> is_name_under(stored.attrs, stored.pairs[i].attr_id, pair.attr)
        && is_path_under(paths, stored.pairs[i].path_id, pair.path) && stored.pairs[i].version
        == pair.version && (stored.pairs[i].tip != 0) == pair.tip && stored.pairs[i].found_off
        == pair.found_off) by {
        lemma_name_under(stored.attrs, stored.pairs[i].attr_id);
        lemma_path_under(paths, stored.pairs[i].path_id);
    }
    if load::tables_of(stored).pairs.contains(pair) {
        let i = choose|i: int|
            0 <= i < stored.pairs.len() && load::named_pair(
                stored.attrs,
                load::paths_in(stored),
                #[trigger] stored.pairs[i],
            ) == Some(pair);
        assert(is_name_under(stored.attrs, stored.pairs[i].attr_id, pair.attr));
    }
}

/// Whether a path is the first row with an id.
pub open spec fn is_path_under(paths: Seq<db::PathView>, id: i64, path: db::PathView) -> bool {
    exists|k: int|
        0 <= k < paths.len() && #[trigger] paths[k] == path && path.id == id && forall|j: int|
            0 <= j < k ==> (#[trigger] paths[j]).id != id
}

proof fn lemma_path_under(paths: Seq<db::PathView>, id: i64)
    ensures
        load::path_under(paths, id) matches Some(path) ==> is_path_under(paths, id, path),
        forall|path: db::PathView| #[trigger]
            is_path_under(paths, id, path) ==> load::path_under(paths, id) == Some(path),
{
    let fits = |path: db::PathView| path.id == id;
    laws::lemma_first_where(paths, fits);
    match rows::first_where(paths, fits) {
        Some(row) => {
            let k = choose|k: int|
                0 <= k < paths.len() && #[trigger] paths[k] == row && fits(row) && forall|j: int|
                    0 <= j < k ==> !fits(#[trigger] paths[j]);
            assert forall|j: int| 0 <= j < k implies (#[trigger] paths[j]).id != id by {
                assert(!fits(paths[j]));
            }
            assert(is_path_under(paths, id, row));
            assert forall|path: db::PathView| #[trigger] is_path_under(paths, id, path) implies path
                == row by {
                let m = choose|m: int|
                    0 <= m < paths.len() && #[trigger] paths[m] == path && path.id == id && forall|
                        j: int,
                    |
                        0 <= j < m ==> (#[trigger] paths[j]).id != id;
                assert(m == k) by {
                    if m < k {
                        assert(paths[m].id != id);
                    } else if k < m {
                        assert(paths[k].id != id);
                    }
                }
            }
        },
        None => {
            assert forall|path: db::PathView| !#[trigger] is_path_under(paths, id, path) by {
                if is_path_under(paths, id, path) {
                    let m = choose|m: int|
                        0 <= m < paths.len() && #[trigger] paths[m] == path && path.id == id
                            && forall|j: int| 0 <= j < m ==> (#[trigger] paths[j]).id != id;
                    assert(fits(paths[m]));
                }
            }
        },
    }
}

/// Dimmed text, as it is printed.
pub open spec fn dim(shown: Seq<char>) -> Seq<char> {
    "\x1b[2m"@ + shown + "\x1b[0m"@
}

/// What is printed of a package that is current, and of one that is not.
pub open spec fn mark_of(tip: bool) -> Seq<char> {
    if tip {
        " (current)"@
    } else {
        ""@
    }
}

/// What `identify` prints: the full path first, a line for each package and a
/// line for each output in their order, and, only where there is neither, that
/// the path is a mere dependency.
pub proof fn identities_are_printed_line_by_line(answer: store::IdentifyAnswerView, i: int)
    ensures
        ({
            let lines = store::identify_lines(answer);
            let n = answer.packages.len() as int;
            let m = answer.outputs.len() as int;
            &&& lines.len() == if n == 0 && m == 0 {
                2
            } else {
                1 + n + m
            }
            &&& lines[0] == answer.store_path
            &&& 0 <= i < n ==> lines[1 + i] == "  package  "@ + answer.packages[i].attr + " "@ + (
            "\x1b[32m"@ + answer.packages[i].version + "\x1b[0m"@) + mark_of(answer.packages[i].tip)
            &&& 0 <= i < m ==> lines[1 + n + i] == "  output   "@ + answer.outputs[i].1 + " of "@
                + answer.outputs[i].0
            &&& n == 0 && m == 0 ==> lines[1] == dim(
                "  a dependency path — nothing in the index builds to it directly"@,
            )
        }),
{
}

/// What `rdeps` prints: how many packages there are, a table of them, and,
/// only where there are any, how many referrers are no package.
pub proof fn referrers_are_printed_in_a_table(answer: store::RdepsAnswerView, i: int)
    ensures
        ({
            let lines = store::rdeps_lines(answer);
            let n = answer.rdeps.len();
            let more: nat = if answer.unindexed_referrers > 0 {
                1
            } else {
                0
            };
            let table = store::rdeps_table(answer.rdeps);
            &&& lines.len() == 1 + more + if n == 0 {
                0
            } else {
                n + 1
            }
            &&& lines[0] == answer.attr + " "@ + answer.version + " · referenced by "@
                + output::counted(n, "indexed package"@)
            &&& lines.skip(1).take(lines.len() - 1 - more) == output::lines_of(table)
            &&& answer.unindexed_referrers > 0 ==> lines.last() == dim(
                "  and "@ + output::counted(answer.unindexed_referrers, "store path"@)
                    + " not indexed as packages (outputs, dependencies)"@,
            )
            &&& table.headers == seq!["ATTR"@, "VERSION"@, "STATUS"@]
            &&& table.rows.len() == n
            &&& 0 <= i < n ==> {
                let row = table.rows[i];
                &&& row.len() == 3
                &&& row[0].text == answer.rdeps[i].attr
                &&& row[1].text == answer.rdeps[i].version
                &&& row[2].text == if answer.rdeps[i].tip {
                    "current"@
                } else {
                    ""@
                }
                &&& answer.rdeps[i].tip ==> row[2].style == output::Style::Green
                &&& row[0].style == output::Style::Plain && row[1].style == output::Style::Plain
            }
        }),
{
    let lines = store::rdeps_lines(answer);
    let table = store::rdeps_table(answer.rdeps);
    let n = answer.rdeps.len();
    output::tables_print_a_line_per_row(table, 0);
    let listed = output::lines_of(table);
    let more: nat = if answer.unindexed_referrers > 0 {
        1
    } else {
        0
    };
    assert(lines.skip(1).take(lines.len() - 1 - more) =~= listed);
    assert(0 <= i < n ==> table.rows[i] == store::rdep_row(answer.rdeps[i]));
}

/// What `deps` prints: how many references there are and a table of them, each
/// with its packages and how they were tied to it, or that it is not indexed.
pub proof fn references_are_printed_in_a_table(answer: store::DepsAnswerView, i: int)
    ensures
        ({
            let lines = store::deps_lines(answer);
            let n = answer.refs.len();
            let table = store::deps_table(answer.refs);
            &&& lines[0] == answer.attr + " "@ + answer.version + " · "@ + output::counted(
                n,
                "direct reference"@,
            )
            &&& lines.skip(1) == output::lines_of(table)
            &&& table.headers == seq!["REFERENCE"@, "PACKAGE"@, "VIA"@]
            &&& table.rows.len() == n
            &&& 0 <= i < n ==> {
                let row = table.rows[i];
                let entry = answer.refs[i];
                &&& row.len() == 3
                &&& "/nix/store/"@ + row[0].text == laws::full_path(entry.path)
                &&& row[1].text == if entry.matched_by is Some {
                    text::joined(entry.packages, ", "@)
                } else {
                    "(not indexed)"@
                }
                &&& row[2].text == match entry.matched_by {
                    Some(store::MatchedBy::Digest) => "digest"@,
                    Some(store::MatchedBy::Name) => "name"@,
                    None => ""@,
                }
            }
        }),
{
    let lines = store::deps_lines(answer);
    let table = store::deps_table(answer.refs);
    assert(lines.skip(1) =~= output::lines_of(table));
    if 0 <= i < answer.refs.len() {
        assert(table.rows[i] == store::dep_row(answer.refs[i]));
        laws::store_paths_are_spelled_in_full(answer.refs[i].path);
    }
}

/// A size that is recorded, or that it is not.
pub open spec fn size_or_unknown(size: Option<i64>) -> Seq<char> {
    match size {
        Some(n) => output::bytes_shown(n as int),
        None => "unknown"@,
    }
}

/// What `size` prints: the pair and its path; where nothing is recorded, just
/// that; else its sizes, its closure, and whether the cache has it, and, only
/// where there are any, its outputs. A closure is told where both its bytes
/// and its paths are recorded, and what is missing of it only where any is.
pub proof fn sizes_are_printed_line_by_line(answer: store::SizeAnswerView)
    ensures
        ({
            let lines = store::size_lines(answer);
            &&& lines[0] == answer.attr + " "@ + answer.version + " · "@ + answer.store_path
            &&& match answer.details {
                None => lines.len() == 2 && lines[1] == dim(
                    "  no cache data recorded for this path"@,
                ),
                Some(d) => {
                    &&& lines.len() == 5 + if answer.outputs.len() == 0 {
                        0
                    } else {
                        3 + answer.outputs.len()
                    }
                    &&& lines[1] == "  nar (unpacked)  "@ + size_or_unknown(d.nar_size)
                    &&& lines[2] == "  download        "@ + size_or_unknown(d.file_size)
                    &&& lines[3] == "  closure         "@ + if d.closure_bytes is Some
                        && d.closure_paths is Some {
                        output::bytes_shown(d.closure_bytes->0 as int) + " · "@ + output::counted(
                            store::count_in(d.closure_paths->0),
                            "path"@,
                        ) + if d.closure_dead is Some && d.closure_dead->0 > 0 {
                            " ("@ + text::signed_decimal(d.closure_dead->0 as int)
                                + " no longer cached)"@
                        } else {
                            ""@
                        }
                    } else {
                        "unknown"@
                    }
                    &&& lines[4] == "  cache           "@ + match d.live {
                        Some(live) => if live {
                            "\x1b[32m"@ + "live"@ + "\x1b[0m"@
                        } else {
                            "\x1b[31m"@ + "no longer downloadable"@ + "\x1b[0m"@
                        },
                        None => "unknown"@,
                    }
                    &&& answer.outputs.len() > 0 ==> lines[5] == ""@ && lines[6] == "\x1b[1m"@
                        + "outputs"@ + "\x1b[0m"@ && lines.skip(7) == output::lines_of(
                        store::outputs_table(answer.outputs),
                    )
                },
            }
        }),
{
    reveal_strlit("");
    let lines = store::size_lines(answer);
    let table = store::outputs_table(answer.outputs);
    output::tables_print_a_line_per_row(table, 0);
    if let Some(d) = answer.details {
        let told = if d.closure_bytes is Some && d.closure_paths is Some {
            output::bytes_shown(d.closure_bytes->0 as int) + " · "@ + output::counted(
                store::count_in(d.closure_paths->0),
                "path"@,
            ) + if d.closure_dead is Some && d.closure_dead->0 > 0 {
                " ("@ + text::signed_decimal(d.closure_dead->0 as int) + " no longer cached)"@
            } else {
                ""@
            }
        } else {
            "unknown"@
        };
        assert(store::closure_line(d) =~= "  closure         "@ + told);
        if answer.outputs.len() > 0 {
            assert(lines.skip(7) =~= output::lines_of(table));
        }
    }
}

/// A table of outputs has a row for each: its suffix, its size and its path.
pub proof fn outputs_are_printed_in_a_table(outputs: Seq<db::SiblingView>, i: int)
    requires
        0 <= i < outputs.len(),
    ensures
        ({
            let table = store::outputs_table(outputs);
            let row = table.rows[i];
            &&& table.headers == seq!["SUFFIX"@, "NAR"@, "STORE PATH"@]
            &&& table.rows.len() == outputs.len()
            &&& row.len() == 3
            &&& row[0].text == outputs[i].suffix
            &&& row[1].text == size_or_unknown(outputs[i].nar_size)
            &&& row[2].text == laws::full_path(outputs[i].path)
        }),
{
    laws::store_paths_are_spelled_in_full(outputs[i].path);
    assert(store::outputs_table(outputs).rows[i] == store::output_row(outputs[i]));
}

/// An answer is given as it is under `--json`, and else as its lines, without
/// notes.
pub proof fn answers_are_shown_in_the_format_asked<T>(answer: T, lines: Seq<Seq<char>>)
    ensures
        store::shown(answer, lines, store::Format::Json) == store::ShownView::Json(answer),
        store::shown(answer, lines, store::Format::Text) == (store::ShownView::Text::<T> {
            notes: Seq::empty(),
            lines,
        }),
{
}

/// Being of just a version.
pub open spec fn being_exactly<A>(version_of: spec_fn(A) -> Seq<char>, wanted: Seq<char>) -> spec_fn(
    A,
) -> bool {
    |thing: A| version_of(thing) == wanted
}

/// Being of a version, or of one that goes on from it with a dot.
pub open spec fn being_under<A>(version_of: spec_fn(A) -> Seq<char>, wanted: Seq<char>) -> spec_fn(
    A,
) -> bool {
    |thing: A| version_of(thing) == wanted || laws::goes_on_from(version_of(thing), wanted)
}

/// A version selects, in their order, all things of just that version; only
/// where there are none, those that go on from it. No version selects all.
pub proof fn selections_are_exact_where_they_can_be<A>(
    things: Seq<A>,
    version_of: spec_fn(A) -> Seq<char>,
    wanted: Seq<char>,
)
    ensures
        solve::selected(things, version_of, None) == things,
        (exists|i: int| 0 <= i < things.len() && version_of(#[trigger] things[i]) == wanted)
            ==> solve::selected(things, version_of, Some(wanted)) == things.filter(
            being_exactly(version_of, wanted),
        ),
        !(exists|i: int| 0 <= i < things.len() && version_of(#[trigger] things[i]) == wanted)
            ==> solve::selected(things, version_of, Some(wanted)) == things.filter(
            being_under(version_of, wanted),
        ),
{
    let exact = solve::being_at(version_of, wanted);
    let like = solve::being_like(version_of, wanted);
    assert(exact =~= being_exactly(version_of, wanted));
    assert forall|thing: A| #[trigger] like(thing) == being_under(version_of, wanted)(thing) by {
        laws::versions_match_by_component(version_of(thing), wanted);
    }
    assert(like =~= being_under(version_of, wanted));
    if exists|i: int| 0 <= i < things.len() && version_of(#[trigger] things[i]) == wanted {
        let i = choose|i: int| 0 <= i < things.len() && version_of(#[trigger] things[i]) == wanted;
        things.lemma_filter_contains(exact, i);
    } else if things.filter(exact).len() > 0 {
        let first = things.filter(exact)[0];
        assert(things.filter(exact).contains(first));
        laws::lemma_filtered(things, exact, first);
        let i = choose|i: int| 0 <= i < things.len() && things[i] == first;
        assert(version_of(things[i]) == wanted);
    }
}

/// The spans of a spec are those of the runs that suit it.
pub proof fn spans_are_of_the_runs_that_suit(
    ix: index::IndexView,
    attr: Seq<char>,
    wanted: Option<Seq<char>>,
    span: (i64, i64),
)
    ensures
        solve::spans_in(ix, solve::ConstraintView { attr, version: wanted }).contains(span)
            <==> exists|run: db::RunView| #[trigger]
            laws::run_suits(ix, attr, wanted, run) && (run.first, run.last) == span,
{
    let spans = solve::spans_in(ix, solve::ConstraintView { attr, version: wanted });
    let kept = solve::selected(index::runs_of(ix, attr), solve::run_version(), wanted);
    if spans.contains(span) {
        let i = choose|i: int| 0 <= i < spans.len() && spans[i] == span;
        assert(kept.contains(kept[i]));
        laws::lemma_selected_runs_suit(ix, attr, wanted, kept[i]);
        assert((kept[i].first, kept[i].last) == span);
    }
    if exists|run: db::RunView| #[trigger]
        laws::run_suits(ix, attr, wanted, run) && (run.first, run.last) == span {
        let run = choose|run: db::RunView| #[trigger]
            laws::run_suits(ix, attr, wanted, run) && (run.first, run.last) == span;
        laws::lemma_selected_runs_suit(ix, attr, wanted, run);
        let i = choose|i: int| 0 <= i < kept.len() && kept[i] == run;
        assert(spans[i] == span);
    }
}

/// Being a pair at one of some ids.
pub open spec fn being_at_one_of(ids: Seq<i64>) -> spec_fn(db::PairView) -> bool {
    |pair: db::PairView| ids.contains(pair.path.id)
}

/// Distinct ids, however many, find each pair at one of them as often as the
/// index has it.
pub proof fn ids_find_every_pair_at_them(ix: index::IndexView, ids: Seq<i64>)
    requires
        ids.no_duplicates(),
    ensures
        index::pairs_by_path_ids(ix, ids).to_multiset() == ix.tables.pairs.filter(
            being_at_one_of(ids),
        ).to_multiset(),
{
    let same = |pair: db::PairView| pair;
    let found = index::pairs_by_path_ids(ix, ids);
    let wanted = ix.tables.pairs.filter(being_at_one_of(ids));
    assert(laws::at_one_of(ids) =~= being_at_one_of(ids));
    assert(found.map_values(same) =~= found);
    assert(wanted.map_values(same) =~= wanted);
    assert forall|pair: db::PairView| #[trigger] found.to_multiset().count(pair)
        == wanted.to_multiset().count(pair) by {
        laws::lemma_lookup_times(ix, ids, same, pair);
    }
    assert(found.to_multiset() =~= wanted.to_multiset());
}

/// What is no spec is refused as such, by whatever would resolve it, and only
/// that is.
pub proof fn what_is_no_spec_is_refused(ix: index::IndexView, spec: Seq<char>)
    ensures
        (forall|attr: Seq<char>, wanted: Option<Seq<char>>|
            laws::is_spellable(attr, wanted) ==> #[trigger] laws::spelled(attr, wanted) != spec)
            ==> store::resolved(ix, spec) == Err::<db::PairView, refusal::RefusalView>(
            refusal::RefusalView::BadSpec { spec },
        ) && run::installed(ix, spec) == Err::<run::InstallableView, refusal::RefusalView>(
            refusal::RefusalView::BadSpec { spec },
        ),
        store::resolved(ix, spec) matches Err(refusal::RefusalView::BadSpec { .. }) ==> forall|
            attr: Seq<char>,
            wanted: Option<Seq<char>>,
        |
            laws::is_spellable(attr, wanted) ==> #[trigger] laws::spelled(attr, wanted) != spec,
{
    laws::specs_split_at_the_first_mark(spec, Seq::empty(), None);
    if let Ok(c) = solve::parsed(spec) {
        assert(laws::spelled(c.attr, c.version) == spec);
    } else {
        assert forall|attr: Seq<char>, wanted: Option<Seq<char>>| laws::is_spellable(
            attr,
            wanted,
        ) implies #[trigger] laws::spelled(attr, wanted) != spec by {
            laws::specs_split_at_the_first_mark(spec, attr, wanted);
        }
    }
}

/// A refusal tells what it is about: its message holds what was asked for, and
/// what there is instead.
pub proof fn refusals_tell_what_they_are_about(
    one: Seq<char>,
    other: Seq<char>,
    known: Seq<Seq<char>>,
    off: i64,
)
    ensures
        tells(refusal::RefusalView::MissingDatabase { path: one }, one),
        tells(refusal::RefusalView::UnopenedDatabase { path: one }, one),
        tells(refusal::RefusalView::NoRevision { off }, text::signed_decimal(off as int)),
        tells(refusal::RefusalView::BadSpec { spec: one }, one),
        tells(refusal::RefusalView::UnknownAttr { attr: one }, one),
        tells(refusal::RefusalView::NoStorePath { attr: one }, one),
        tells(refusal::RefusalView::NoIndexedVersion { wanted: one, known }, one),
        tells(
            refusal::RefusalView::NoIndexedVersion { wanted: one, known },
            text::joined(known, " "@),
        ),
        tells(refusal::RefusalView::NotAStorePath { target: one }, one),
        tells(refusal::RefusalView::UnseenDigest { digest: one }, one),
        tells(refusal::RefusalView::NoSuchVersion { wanted: one, attr: other }, one),
        tells(refusal::RefusalView::NoSuchVersion { wanted: one, attr: other }, other),
        tells(refusal::RefusalView::NotPinnable { wanted: one }, one),
        tells(refusal::RefusalView::NotInRevision { attr: one, label: other }, one),
        tells(refusal::RefusalView::NotInRevision { attr: one, label: other }, other),
        tells(
            refusal::RefusalView::NothingToRun { attr: one, version: other },
            one + " "@ + other,
        ),
        tells(
            refusal::RefusalView::ManyPrograms { attr: one, version: other, names: known },
            one + " "@ + other,
        ),
        tells(
            refusal::RefusalView::ManyPrograms { attr: one, version: other, names: known },
            text::joined(known, " "@),
        ),
        tells(refusal::RefusalView::NixStoreMissing { reason: one }, one),
        tells(refusal::RefusalView::NotSubstituted { store_path: one }, one),
        tells(refusal::RefusalView::NotExecutable { program: one, reason: other }, one),
        tells(refusal::RefusalView::NotExecutable { program: one, reason: other }, other),
        tells(refusal::RefusalView::NixMissing { reason: one }, one),
{
    let none = Seq::<char>::empty();
    let listed = text::joined(known, " "@);
    lemma_told(refusal::RefusalView::MissingDatabase { path: one }, "index database "@, one);
    lemma_told(refusal::RefusalView::UnopenedDatabase { path: one }, "opening index database "@, one);
    lemma_told(
        refusal::RefusalView::NoRevision { off },
        "no revision at offset "@,
        text::signed_decimal(off as int),
    );
    lemma_told(refusal::RefusalView::BadSpec { spec: one }, none, one);
    lemma_told(refusal::RefusalView::UnknownAttr { attr: one }, "the index has never seen "@, one);
    lemma_told(refusal::RefusalView::NoStorePath { attr: one }, "the index knows "@, one);
    let unindexed = refusal::RefusalView::NoIndexedVersion { wanted: one, known };
    lemma_told(unindexed, "no store path is indexed for "@, one);
    lemma_told(
        unindexed,
        "no store path is indexed for "@ + one + ".\nVersions with one: "@,
        listed,
    );
    lemma_told(refusal::RefusalView::NotAStorePath { target: one }, none, one);
    lemma_told(
        refusal::RefusalView::UnseenDigest { digest: one },
        "the index has never seen a store path with digest "@,
        one,
    );
    let unknown = refusal::RefusalView::NoSuchVersion { wanted: one, attr: other };
    lemma_told(unknown, "no revision ever had "@, one);
    lemma_told(
        unknown,
        "no revision ever had "@ + one + ". `mvs query versions "@,
        other,
    );
    lemma_told(refusal::RefusalView::NotPinnable { wanted: one }, "no revision with "@, one);
    let absent = refusal::RefusalView::NotInRevision { attr: one, label: other };
    lemma_told(absent, none, one);
    lemma_told(absent, one + " is not in "@, other);
    lemma_told(
        refusal::RefusalView::NothingToRun { attr: one, version: other },
        none,
        one + " "@ + other,
    );
    let many = refusal::RefusalView::ManyPrograms { attr: one, version: other, names: known };
    lemma_told(many, none, one + " "@ + other);
    lemma_told(
        many,
        one + " "@ + other + " ships several programs and none is named after it: "@,
        listed,
    );
    lemma_told(
        refusal::RefusalView::NixStoreMissing { reason: one },
        "could not run nix-store: "@,
        one,
    );
    lemma_told(refusal::RefusalView::NotSubstituted { store_path: one }, none, one);
    let stuck = refusal::RefusalView::NotExecutable { program: one, reason: other };
    lemma_told(stuck, "could not execute "@, one);
    lemma_told(stuck, "could not execute "@ + one + ": "@, other);
    lemma_told(refusal::RefusalView::NixMissing { reason: one }, "could not run nix: "@, one);
}

/// Whether the message of a refusal holds a text.
pub open spec fn tells(e: refusal::RefusalView, told: Seq<char>) -> bool {
    exists|before: Seq<char>, after: Seq<char>|
        refusal::message_of(e) == #[trigger] (before + told + after)
}

proof fn lemma_told(e: refusal::RefusalView, before: Seq<char>, told: Seq<char>)
    requires
        (before + told).len() <= refusal::message_of(e).len(),
        refusal::message_of(e).take((before + told).len() as int) =~= before + told,
    ensures
        tells(e, told),
{
    let message = refusal::message_of(e);
    let n = (before + told).len() as int;
    assert(message =~= message.take(n) + message.skip(n));
    assert(message == before + told + message.skip(n));
}

} // verus!
