//! What the commands promise, stated of the rows of the index and of the text
//! that is asked, whatever way the answer is worked out.
use vstd::prelude::*;

use crate::db;
use crate::index;
use crate::order;
use crate::order::Ranked;
use crate::refusal;
use crate::rows;
use crate::run;
use crate::solve;
use crate::store;
use crate::text;
use crate::version;

pub mod listings;
pub mod lookups;
pub mod paths;
pub mod tables;
pub mod texts;
pub mod versions;

verus! {

/// A spec as it is typed: an attribute, and a version behind an `@`.
pub open spec fn spelled(attr: Seq<char>, wanted: Option<Seq<char>>) -> Seq<char> {
    match wanted {
        Some(version) => attr + "@"@ + version,
        None => attr,
    }
}

/// Whether an attribute and a version can be told apart in a spec.
pub open spec fn is_spellable(attr: Seq<char>, wanted: Option<Seq<char>>) -> bool {
    attr.len() > 0 && !attr.contains('@') && (wanted matches Some(version) ==> version.len() > 0)
}

/// Whether a version goes on from another with a dot.
pub open spec fn goes_on_from(longer: Seq<char>, shorter: Seq<char>) -> bool {
    exists|rest: Seq<char>| longer == #[trigger] (shorter + "."@ + rest)
}

proof fn lemma_spelling_parses(attr: Seq<char>, wanted: Option<Seq<char>>)
    requires
        is_spellable(attr, wanted),
    ensures
        solve::parsed(spelled(attr, wanted)) == Ok::<solve::ConstraintView, refusal::RefusalView>(
            solve::ConstraintView { attr, version: wanted },
        ),
{
    reveal_strlit("@");
    let spec = spelled(attr, wanted);
    spec.index_of_first_ensures('@');
    match wanted {
        None => {},
        Some(version) => {
            assert(spec[attr.len() as int] == '@');
            assert(spec.contains('@'));
            let i = spec.index_of_first('@')->0;
            if i < attr.len() {
                assert(attr[i] == '@');
            }
            assert(i == attr.len());
            assert(spec.take(i) =~= attr);
            assert(spec.skip(i + 1) =~= version);
        },
    }
}

/// A spec is taken apart at its first `@`. It is refused when there is nothing
/// before it, or nothing behind it.
pub proof fn specs_split_at_the_first_mark(
    spec: Seq<char>,
    attr: Seq<char>,
    wanted: Option<Seq<char>>,
)
    ensures
        is_spellable(attr, wanted) ==> solve::parsed(spelled(attr, wanted)) == Ok::<
            solve::ConstraintView,
            refusal::RefusalView,
        >(solve::ConstraintView { attr, version: wanted }),
        solve::parsed(spec) matches Ok(c) ==> is_spellable(c.attr, c.version) && spec == spelled(
            c.attr,
            c.version,
        ),
        solve::parsed(spec) matches Err(e) ==> e == (refusal::RefusalView::BadSpec { spec }),
{
    if is_spellable(attr, wanted) {
        lemma_spelling_parses(attr, wanted);
    }
    reveal_strlit("@");
    spec.index_of_first_ensures('@');
    if let Some(i) = spec.index_of_first('@') {
        assert(spec =~= spec.take(i) + "@"@ + spec.skip(i + 1));
        if spec.take(i).contains('@') {
            let k = choose|k: int| 0 <= k < i && spec.take(i)[k] == '@';
            assert(spec[k] == '@');
        }
    }
}

/// A version is what is asked for when it is just that, or goes on from it
/// with a dot.
pub proof fn versions_match_by_component(version: Seq<char>, wanted: Seq<char>)
    ensures
        solve::is_match(version, wanted) <==> version == wanted || goes_on_from(version, wanted),
{
    let longer = wanted + "."@;
    if longer.is_prefix_of(version) {
        let rest = version.skip(longer.len() as int);
        assert(version =~= wanted + "."@ + rest);
    }
    if goes_on_from(version, wanted) {
        let rest = choose|rest: Seq<char>| version == #[trigger] (wanted + "."@ + rest);
        assert(longer =~= version.take(longer.len() as int));
    }
}

/// Whether the index has a pair of an attribute at just this version.
pub open spec fn has_pair_at(ix: index::IndexView, attr: Seq<char>, wanted: Seq<char>) -> bool {
    exists|k: int|
        0 <= k < ix.tables.pairs.len() && (#[trigger] ix.tables.pairs[k]).attr == attr
            && ix.tables.pairs[k].version == wanted
}

/// Whether a pair of the index is one that an attribute and a version ask for:
/// any of the attribute when no version is given, else those of just the
/// version, and where there is none of those, those that go on from it.
pub open spec fn suits(
    ix: index::IndexView,
    attr: Seq<char>,
    wanted: Option<Seq<char>>,
    pair: db::PairView,
) -> bool {
    &&& ix.tables.pairs.contains(pair)
    &&& pair.attr == attr
    &&& match wanted {
        None => true,
        Some(version) => pair.version == version || (!has_pair_at(ix, attr, version)
            && goes_on_from(pair.version, version)),
    }
}

/// Whether the index has a pair of an attribute.
pub open spec fn has_pair_of(ix: index::IndexView, attr: Seq<char>) -> bool {
    exists|k: int| 0 <= k < ix.tables.pairs.len() && (#[trigger] ix.tables.pairs[k]).attr == attr
}

/// Whether the index has a run of an attribute.
pub open spec fn has_run_of(ix: index::IndexView, attr: Seq<char>) -> bool {
    exists|k: int| 0 <= k < ix.tables.runs.len() && (#[trigger] ix.tables.runs[k]).attr == attr
}

proof fn lemma_filtered<A>(things: Seq<A>, fits: spec_fn(A) -> bool, thing: A)
    ensures
        things.filter(fits).contains(thing) <==> things.contains(thing) && fits(thing),
{
    let kept = things.filter(fits);
    if kept.contains(thing) {
        let w = choose|w: int| 0 <= w < kept.len() && kept[w] == thing;
        things.lemma_filter_pred(fits, w);
        things.lemma_filter_contains_rev(fits, thing);
    }
    if things.contains(thing) && fits(thing) {
        let i = choose|i: int| 0 <= i < things.len() && things[i] == thing;
        things.lemma_filter_contains(fits, i);
    }
}

proof fn lemma_pairs_of(ix: index::IndexView, attr: Seq<char>, pair: db::PairView)
    ensures
        index::store_pairs_of(ix, attr).contains(pair) <==> ix.tables.pairs.contains(pair)
            && pair.attr == attr,
        index::store_pairs_of(ix, attr).len() > 0 <==> has_pair_of(ix, attr),
{
    let of_attr = |row: db::PairView| row.attr == attr;
    let all = ix.tables.pairs;
    let pairs = index::store_pairs_of(ix, attr);
    lemma_filtered(all, of_attr, pair);
    if pairs.len() > 0 {
        let first = pairs[0];
        assert(pairs.contains(first));
        lemma_filtered(all, of_attr, first);
        let k = choose|k: int| 0 <= k < all.len() && all[k] == first;
        assert(all[k].attr == attr);
    }
    if has_pair_of(ix, attr) {
        let k = choose|k: int| 0 <= k < all.len() && (#[trigger] all[k]).attr == attr;
        assert(all.contains(all[k]));
        lemma_filtered(all, of_attr, all[k]);
        assert(pairs.contains(all[k]));
    }
}

proof fn lemma_runs_of(ix: index::IndexView, attr: Seq<char>)
    ensures
        index::runs_of(ix, attr).len() > 0 <==> has_run_of(ix, attr),
{
    let runs = index::runs_of(ix, attr);
    let all = ix.tables.runs;
    if runs.len() > 0 {
        index::runs_come_oldest_first(ix, attr, runs[0]);
        assert(runs.contains(runs[0]));
        let row = db::AttrRunView { attr, run: runs[0] };
        let k = choose|k: int| 0 <= k < all.len() && all[k] == row;
        assert(all[k].attr == attr);
    }
    if has_run_of(ix, attr) {
        let k = choose|k: int| 0 <= k < all.len() && (#[trigger] all[k]).attr == attr;
        let run = all[k].run;
        assert(all[k] == (db::AttrRunView { attr, run }));
        assert(all.contains(db::AttrRunView { attr, run }));
        index::runs_come_oldest_first(ix, attr, run);
        assert(runs.contains(run));
    }
}

/// The pairs that a version spec selects are those that suit.
proof fn lemma_selected_suit(
    ix: index::IndexView,
    attr: Seq<char>,
    wanted: Option<Seq<char>>,
    pair: db::PairView,
)
    ensures
        solve::selected(
            index::store_pairs_of(ix, attr),
            store::pair_version(),
            wanted,
        ).contains(pair) <==> suits(ix, attr, wanted, pair),
{
    let pairs = index::store_pairs_of(ix, attr);
    lemma_pairs_of(ix, attr, pair);
    if let Some(version) = wanted {
        solve::exact_versions_win(pairs, store::pair_version(), version, pair);
        versions_match_by_component(pair.version, version);
        let of = store::pair_version();
        if exists|i: int| 0 <= i < pairs.len() && of(#[trigger] pairs[i]) == version {
            let i = choose|i: int| 0 <= i < pairs.len() && of(#[trigger] pairs[i]) == version;
            assert(pairs.contains(pairs[i]));
            lemma_pairs_of(ix, attr, pairs[i]);
            let k = choose|k: int| 0 <= k < ix.tables.pairs.len() && ix.tables.pairs[k] == pairs[i];
            assert(ix.tables.pairs[k].attr == attr && ix.tables.pairs[k].version == version);
        }
        if has_pair_at(ix, attr, version) {
            let k = choose|k: int|
                0 <= k < ix.tables.pairs.len() && (#[trigger] ix.tables.pairs[k]).attr == attr
                    && ix.tables.pairs[k].version == version;
            let other = ix.tables.pairs[k];
            assert(ix.tables.pairs.contains(other));
            lemma_pairs_of(ix, attr, other);
            let i = choose|i: int| 0 <= i < pairs.len() && pairs[i] == other;
            assert(of(pairs[i]) == version);
        }
    }
}

/// A spec resolves just when some pair of the index suits it. The pair it
/// resolves to suits, is current at the tip if any that suits is, and among
/// those alike in that, none that suits has a newer version.
pub proof fn specs_resolve_to_the_tip_then_the_newest(
    ix: index::IndexView,
    attr: Seq<char>,
    wanted: Option<Seq<char>>,
)
    requires
        is_spellable(attr, wanted),
    ensures
        match store::resolved(ix, spelled(attr, wanted)) {
            Ok(pair) => suits(ix, attr, wanted, pair) && forall|other: db::PairView| #[trigger]
                suits(ix, attr, wanted, other) ==> (other.tip ==> pair.tip) && (other.tip == pair.tip
                    ==> version::at_most(other.version, pair.version)),
            Err(_) => forall|other: db::PairView| !#[trigger] suits(ix, attr, wanted, other),
        },
{
    let spec = spelled(attr, wanted);
    lemma_spelling_parses(attr, wanted);
    let pairs = index::store_pairs_of(ix, attr);
    let candidates = solve::selected(pairs, store::pair_version(), wanted);
    assert forall|other: db::PairView| #[trigger] suits(ix, attr, wanted, other)
        <==> candidates.contains(other) by {
        lemma_selected_suit(ix, attr, wanted, other);
    }
    if candidates.len() > 0 {
        store::tip_is_chosen_then_the_newest(candidates);
        if pairs.len() == 0 {
            lemma_selected_suit(ix, attr, wanted, candidates[0]);
            assert(candidates.contains(candidates[0]));
            lemma_pairs_of(ix, attr, candidates[0]);
        }
        let pair = store::chosen(candidates);
        assert forall|other: db::PairView| #[trigger] suits(ix, attr, wanted, other) implies (
        other.tip ==> pair.tip) && (other.tip == pair.tip ==> version::at_most(
            other.version,
            pair.version,
        )) by {
            let i = choose|i: int| 0 <= i < candidates.len() && candidates[i] == other;
            assert(candidates[i] == other);
        }
    }
}

/// Why a spec does not resolve: no store path and no history of the attribute,
/// no store path of it, or none of the version, and then the versions there
/// are, oldest first.
pub proof fn unresolved_specs_are_told_apart(
    ix: index::IndexView,
    attr: Seq<char>,
    wanted: Option<Seq<char>>,
)
    requires
        is_spellable(attr, wanted),
    ensures
        store::resolved(ix, spelled(attr, wanted)) matches Err(e) ==> match e {
            refusal::RefusalView::UnknownAttr { attr: named } => named == attr && !has_pair_of(
                ix,
                attr,
            ) && !has_run_of(ix, attr),
            refusal::RefusalView::NoStorePath { attr: named } => named == attr && !has_pair_of(
                ix,
                attr,
            ) && has_run_of(ix, attr),
            refusal::RefusalView::NoIndexedVersion { wanted: asked, known } => {
                &&& asked == spelled(attr, wanted)
                &&& has_pair_of(ix, attr)
                &&& forall|version: Seq<char>| #[trigger]
                    known.contains(version) <==> has_pair_at(ix, attr, version)
                &&& forall|p: int, q: int|
                    0 <= p < q < known.len() ==> version::at_most(
                        #[trigger] known[p],
                        #[trigger] known[q],
                    )
            },
            _ => false,
        },
{
    let spec = spelled(attr, wanted);
    lemma_spelling_parses(attr, wanted);
    let pairs = index::store_pairs_of(ix, attr);
    let all = ix.tables.pairs;
    lemma_runs_of(ix, attr);
    lemma_pairs_of(ix, attr, pairs[0]);
    let of = |pair: db::PairView| pair.version;
    let versions = pairs.map_values(of);
    let known = version::oldest_first(versions);
    let same = |v: Seq<char>| v;
    assert(versions.map_values(same) =~= versions);
    order::sorted_things_ascend::<Seq<char>, version::ByVersion>(versions, same);
    order::sorting_arranges::<Seq<char>, version::ByVersion>(versions, versions);
    assert forall|v: Seq<char>| #[trigger] known.contains(v) <==> has_pair_at(ix, attr, v) by {
        assert(known.contains(v) <==> versions.contains(v));
        if versions.contains(v) {
            let w = choose|w: int| 0 <= w < versions.len() && versions[w] == v;
            assert(pairs.contains(pairs[w]));
            lemma_pairs_of(ix, attr, pairs[w]);
            let k = choose|k: int| 0 <= k < all.len() && all[k] == pairs[w];
            assert(all[k].attr == attr && all[k].version == v);
        }
        if has_pair_at(ix, attr, v) {
            let k = choose|k: int|
                0 <= k < all.len() && (#[trigger] all[k]).attr == attr && all[k].version == v;
            assert(all.contains(all[k]));
            lemma_pairs_of(ix, attr, all[k]);
            let w = choose|w: int| 0 <= w < pairs.len() && pairs[w] == all[k];
            assert(versions[w] == v);
        }
    }
    assert forall|p: int, q: int| 0 <= p < q < known.len() implies version::at_most(
        #[trigger] known[p],
        #[trigger] known[q],
    ) by {
        assert(version::ByVersion::at_most(same(known[p]), same(known[q])));
    }
}

/// How often something comes out of the things that fit.
spec fn times<A, B>(things: Seq<A>, fits: spec_fn(A) -> bool, turned: spec_fn(A) -> B, b: B) -> nat {
    things.filter(fits).map_values(turned).to_multiset().count(b)
}

proof fn lemma_times_push<A, B>(
    things: Seq<A>,
    thing: A,
    fits: spec_fn(A) -> bool,
    turned: spec_fn(A) -> B,
    b: B,
)
    ensures
        times(things.push(thing), fits, turned, b) == times(things, fits, turned, b) + if fits(thing)
            && turned(thing) == b {
            1nat
        } else {
            0
        },
{
    broadcast use vstd::seq_lib::group_to_multiset_ensures;

    Seq::lemma_filter_push(things, thing, fits);
    if fits(thing) {
        let kept = things.filter(fits);
        assert(kept.push(thing).map_values(turned) =~= kept.map_values(turned).push(turned(thing)));
    }
}

/// What fits one of two things that never fit together comes out as often as
/// what fits the one and what fits the other.
proof fn lemma_times_add_up<A, B>(
    things: Seq<A>,
    one: spec_fn(A) -> bool,
    other: spec_fn(A) -> bool,
    either: spec_fn(A) -> bool,
    turned: spec_fn(A) -> B,
    b: B,
)
    requires
        forall|a: A| !(#[trigger] one(a) && other(a)),
        forall|a: A| #[trigger] either(a) <==> one(a) || other(a),
    ensures
        times(things, either, turned, b) == times(things, one, turned, b) + times(
            things,
            other,
            turned,
            b,
        ),
    decreases things.len(),
{
    if things.len() == 0 {
        reveal(Seq::filter);
        broadcast use vstd::seq_lib::group_to_multiset_ensures;

        assert(things.filter(one).map_values(turned) =~= Seq::<B>::empty());
        assert(things.filter(other).map_values(turned) =~= Seq::<B>::empty());
        assert(things.filter(either).map_values(turned) =~= Seq::<B>::empty());
    } else {
        let fewer = things.drop_last();
        let last = things.last();
        assert(things =~= fewer.push(last));
        lemma_times_add_up(fewer, one, other, either, turned, b);
        lemma_times_push(fewer, last, one, turned, b);
        lemma_times_push(fewer, last, other, turned, b);
        lemma_times_push(fewer, last, either, turned, b);
    }
}

/// Whether a pair's path is one of some.
spec fn at_one_of(ids: Seq<i64>) -> spec_fn(db::PairView) -> bool {
    |row: db::PairView| ids.contains(row.path.id)
}

/// Looking up distinct ids brings each pair at one of them, as often as the
/// index has it.
proof fn lemma_lookup_times<B>(
    ix: index::IndexView,
    ids: Seq<i64>,
    turned: spec_fn(db::PairView) -> B,
    b: B,
)
    requires
        ids.no_duplicates(),
    ensures
        index::pairs_by_path_ids(ix, ids).map_values(turned).to_multiset().count(b) == times(
            ix.tables.pairs,
            at_one_of(ids),
            turned,
            b,
        ),
    decreases ids.len(),
{
    broadcast use vstd::seq_lib::group_to_multiset_ensures;

    let all = ix.tables.pairs;
    let n = db::SQL_IN_CHUNK as int;
    if ids.len() == 0 {
        let found = all.filter(at_one_of(ids));
        assert(found.len() == 0) by {
            if found.len() > 0 {
                all.lemma_filter_pred(at_one_of(ids), 0);
            }
        }
        assert(found.map_values(turned) =~= Seq::<B>::empty());
        assert(index::pairs_by_path_ids(ix, ids).map_values(turned) =~= Seq::<B>::empty());
    } else if ids.len() <= n {
        assert(index::pairs_by_path_ids(ix, ids) == all.filter(at_one_of(ids)));
    } else {
        let here = ids.take(n);
        let rest = ids.skip(n);
        let a = index::pairs_at(ix, here);
        let c = index::pairs_by_path_ids(ix, rest);
        lemma_lookup_times(ix, rest, turned, b);
        assert(a == all.filter(at_one_of(here)));
        assert((a + c).map_values(turned) =~= a.map_values(turned) + c.map_values(turned));
        vstd::seq_lib::lemma_multiset_commutative(a.map_values(turned), c.map_values(turned));
        let one = at_one_of(here);
        let other = at_one_of(rest);
        let either = at_one_of(ids);
        assert forall|row: db::PairView| #[trigger] either(row) <==> one(row) || other(row) by {
            let id = row.path.id;
            if here.contains(id) {
                let w = choose|w: int| 0 <= w < here.len() && here[w] == id;
                assert(ids[w] == id);
            }
            if rest.contains(id) {
                let w = choose|w: int| 0 <= w < rest.len() && rest[w] == id;
                assert(ids[n + w] == id);
            }
            if ids.contains(id) {
                let w = choose|w: int| 0 <= w < ids.len() && ids[w] == id;
                if w < n {
                    assert(here[w] == id);
                } else {
                    assert(rest[w - n] == id);
                }
            }
        }
        assert forall|row: db::PairView| !(#[trigger] one(row) && other(row)) by {
            let id = row.path.id;
            if here.contains(id) && rest.contains(id) {
                let v = choose|v: int| 0 <= v < here.len() && here[v] == id;
                let w = choose|w: int| 0 <= w < rest.len() && rest[w] == id;
                assert(ids[v] == id && ids[n + w] == id);
            }
        }
        lemma_times_add_up(all, one, other, either, turned, b);
    }
}

/// What comes of sorted things, one for one, comes of the things as often.
proof fn lemma_sorted_times<A, T: Ranked, B>(
    things: Seq<A>,
    keys: Seq<T::V>,
    turned: spec_fn(A) -> B,
)
    requires
        things.len() == keys.len(),
    ensures
        order::sorted_by::<A, T>(things, keys).map_values(turned).to_multiset()
            == things.map_values(turned).to_multiset(),
{
    order::sorted_order_exists::<T>(keys);
    order::sorting_arranges::<B, T>(things.map_values(turned), keys);
    let o = order::order_of::<T>(keys);
    assert forall|p: int| 0 <= p < o.len() implies 0 <= #[trigger] o[p] < keys.len() by {}
    assert(order::sorted_by::<A, T>(things, keys).map_values(turned) =~= order::sorted_by::<B, T>(
        things.map_values(turned),
        keys,
    ));
}

/// Whether a row id is that of a path, or of a store path of the path's name.
pub open spec fn is_as_good_as(ix: index::IndexView, path: db::PathView, id: i64) -> bool {
    id == path.id || (path.name is Some && exists|m: int|
        0 <= m < ix.tables.store_paths.len() && (#[trigger] ix.tables.store_paths[m]).id == id
            && ix.tables.store_paths[m].name == path.name)
}

/// Whether the store path with an id holds a reference to a path, or to one of
/// the path's name.
pub open spec fn refers_to(ix: index::IndexView, id: i64, path: db::PathView) -> bool {
    exists|k: int|
        0 <= k < ix.tables.path_refs.len() && (#[trigger] ix.tables.path_refs[k]).src == id
            && is_as_good_as(ix, path, ix.tables.path_refs[k].dst)
}

/// Whether some pair of the index built to the store path with an id.
pub open spec fn is_built(ix: index::IndexView, id: i64) -> bool {
    exists|k: int|
        0 <= k < ix.tables.pairs.len() && (#[trigger] ix.tables.pairs[k]).path.id == id
}

/// Being a pair whose own path refers to a path.
pub open spec fn being_a_referrer(ix: index::IndexView, path: db::PathView) -> spec_fn(
    db::PairView,
) -> bool {
    |pair: db::PairView| refers_to(ix, pair.path.id, path)
}

/// A pair as an entry of what refers to another.
pub open spec fn referrer_entry() -> spec_fn(db::PairView) -> store::RdepEntryView {
    |pair: db::PairView|
        store::RdepEntryView {
            attr: pair.attr,
            version: pair.version,
            store_path: full_path(pair.path),
            tip: pair.tip,
        }
}

/// The full path of a store path: its digest, and its name where it has one.
pub open spec fn full_path(path: db::PathView) -> Seq<char> {
    match path.name {
        Some(name) => "/nix/store/"@ + path.digest + "-"@ + name,
        None => "/nix/store/"@ + path.digest,
    }
}

/// A store path is spelled under the store directory, by its digest and, where
/// it has one, its name.
pub proof fn store_paths_are_spelled_in_full(path: db::PathView)
    ensures
        db::store_path_of(path) == full_path(path),
        db::store_path_of(path) == "/nix/store/"@ + db::basename_of(path),
{
    reveal_strlit("/nix/store");
    reveal_strlit("/nix/store/");
    reveal_strlit("/");
    assert("/nix/store"@ + "/"@ =~= "/nix/store/"@);
    assert(db::store_path_of(path) =~= full_path(path));
}

proof fn lemma_targets(ix: index::IndexView, path: db::PathView, id: i64)
    ensures
        store::targets_of(ix, path).contains(id) <==> is_as_good_as(ix, path, id),
        store::referrers_to(ix, path).contains(id) <==> refers_to(ix, id, path),
{
    lemma_targets_only(ix, path, id);
    index::referrers_ascend(ix, store::targets_of(ix, path), id);
    let refs = ix.tables.path_refs;
    let targets = store::targets_of(ix, path);
    if store::referrers_to(ix, path).contains(id) {
        let k = choose|k: int|
            0 <= k < refs.len() && (#[trigger] refs[k]).src == id && targets.contains(refs[k].dst);
        lemma_targets_only(ix, path, refs[k].dst);
    }
    if refers_to(ix, id, path) {
        let k = choose|k: int|
            0 <= k < refs.len() && (#[trigger] refs[k]).src == id && is_as_good_as(
                ix,
                path,
                refs[k].dst,
            );
        lemma_targets_only(ix, path, refs[k].dst);
        assert(targets.contains(refs[k].dst));
    }
}

proof fn lemma_targets_only(ix: index::IndexView, path: db::PathView, id: i64)
    ensures
        store::targets_of(ix, path).contains(id) <==> is_as_good_as(ix, path, id),
{
    if let Some(name) = path.name {
        store::named_ids_carry_the_name(ix, name, id);
    }
}

/// What `rdeps` answers is one entry for each pair of the index whose own path
/// refers to the asked pair's path, or to any store path of the same name, in
/// the order of attributes and then of versions.
pub proof fn rdeps_list_every_referring_pair(ix: index::IndexView, pair: db::PairView)
    ensures
        store::rdeps_of(ix, pair).attr == pair.attr,
        store::rdeps_of(ix, pair).version == pair.version,
        store::rdeps_of(ix, pair).store_path == full_path(pair.path),
        store::rdeps_of(ix, pair).rdeps.to_multiset() == ix.tables.pairs.filter(
            being_a_referrer(ix, pair.path),
        ).map_values(referrer_entry()).to_multiset(),
        forall|p: int, q: int|
            0 <= p < q < store::rdeps_of(ix, pair).rdeps.len() ==> {
                let a = #[trigger] store::rdeps_of(ix, pair).rdeps[p];
                let b = #[trigger] store::rdeps_of(ix, pair).rdeps[q];
                text::text_before(a.attr, b.attr) || (a.attr == b.attr && version::at_most(
                    a.version,
                    b.version,
                ))
            },
{
    store_paths_are_spelled_in_full(pair.path);
    let referrers = store::referrers_to(ix, pair.path);
    let targets = store::targets_of(ix, pair.path);
    let found = index::pairs_by_path_ids(ix, referrers);
    let keys = found.map_values(|p: db::PairView| (p.attr, p.version));
    let rdeps = store::rdeps_of(ix, pair).rdeps;
    let pairs = store::pairs_referring(ix, pair.path);
    assert(rdeps =~= pairs.map_values(referrer_entry())) by {
        assert forall|i: int| 0 <= i < pairs.len() implies rdeps[i] == referrer_entry()(
            pairs[i],
        ) by {
            store_paths_are_spelled_in_full(pairs[i].path);
        }
    }
    lemma_sorted_times::<db::PairView, store::ByAttr, store::RdepEntryView>(
        found,
        keys,
        referrer_entry(),
    );
    index::referrers_ascend(ix, targets, 0);
    assert(referrers.no_duplicates()) by {
        assert forall|i: int, j: int|
            0 <= i < referrers.len() && 0 <= j < referrers.len() && i != j implies referrers[i]
            != referrers[j] by {
            if i < j {
                assert(referrers[i] < referrers[j]);
            } else {
                assert(referrers[j] < referrers[i]);
            }
        }
    }
    let wanted = ix.tables.pairs.filter(being_a_referrer(ix, pair.path)).map_values(
        referrer_entry(),
    );
    let by_id = ix.tables.pairs.filter(at_one_of(referrers));
    assert(by_id == ix.tables.pairs.filter(being_a_referrer(ix, pair.path))) by {
        assert forall|p: db::PairView| #[trigger] at_one_of(referrers)(p) == being_a_referrer(
            ix,
            pair.path,
        )(p) by {
            lemma_targets(ix, pair.path, p.path.id);
        }
        assert(at_one_of(referrers) =~= being_a_referrer(ix, pair.path));
    }
    assert(rdeps.to_multiset() =~= wanted.to_multiset()) by {
        assert forall|b: store::RdepEntryView| #[trigger] rdeps.to_multiset().count(b)
            == wanted.to_multiset().count(b) by {
            lemma_lookup_times(ix, referrers, referrer_entry(), b);
        }
    }
    store::listings_ascend(ix, pair.path, 0);
    assert forall|p: int, q: int| 0 <= p < q < rdeps.len() implies {
        let a = #[trigger] rdeps[p];
        let b = #[trigger] rdeps[q];
        text::text_before(a.attr, b.attr) || (a.attr == b.attr && version::at_most(
            a.version,
            b.version,
        ))
    } by {
        assert(pairs[p].attr == rdeps[p].attr && pairs[q].attr == rdeps[q].attr);
        assert(pairs[p].version == rdeps[p].version && pairs[q].version == rdeps[q].version);
    }
}

/// The ids of the referrers to a path that no pair built to.
pub open spec fn unlisted_referrers(ix: index::IndexView, path: db::PathView) -> Set<i64> {
    Set::new(|id: i64| refers_to(ix, id, path) && !is_built(ix, id))
}

/// Every other referrer is counted: as many as there are store paths that
/// refer to the path, or to one of its name, and that no pair built to.
pub proof fn rdeps_count_every_other_referrer(ix: index::IndexView, pair: db::PairView)
    ensures
        unlisted_referrers(ix, pair.path).finite(),
        store::rdeps_of(ix, pair).unindexed_referrers == unlisted_referrers(ix, pair.path).len(),
{
    let referrers = store::referrers_to(ix, pair.path);
    let pairs = store::pairs_referring(ix, pair.path);
    let fits = store::is_unindexed(pairs);
    let counted = referrers.filter(fits);
    index::referrers_ascend(ix, store::targets_of(ix, pair.path), 0);
    assert(referrers.no_duplicates()) by {
        assert forall|i: int, j: int|
            0 <= i < referrers.len() && 0 <= j < referrers.len() && i != j implies referrers[i]
            != referrers[j] by {
            if i < j {
                assert(referrers[i] < referrers[j]);
            } else {
                assert(referrers[j] < referrers[i]);
            }
        }
    }
    lemma_filter_stays_distinct(referrers, fits);
    counted.unique_seq_to_set();
    assert(counted.to_set() =~= unlisted_referrers(ix, pair.path)) by {
        assert forall|id: i64| counted.contains(id) <==> #[trigger] unlisted_referrers(
            ix,
            pair.path,
        ).contains(id) by {
            lemma_filtered(referrers, fits, id);
            lemma_targets(ix, pair.path, id);
            if referrers.contains(id) {
                store::unindexed_referrers_have_no_pair(ix, pair.path, id);
            }
        }
    }
}

proof fn lemma_filter_stays_distinct(things: Seq<i64>, fits: spec_fn(i64) -> bool)
    requires
        things.no_duplicates(),
    ensures
        things.filter(fits).no_duplicates(),
    decreases things.len(),
{
    reveal(Seq::filter);
    if things.len() > 0 {
        let fewer = things.drop_last();
        let last = things.last();
        lemma_filter_stays_distinct(fewer, fits);
        let kept = fewer.filter(fits);
        if fits(last) {
            let all = kept.push(last);
            assert forall|i: int, j: int|
                0 <= i < all.len() && 0 <= j < all.len() && i != j implies all[i] != all[j] by {
                let k = if i < j {
                    i
                } else {
                    j
                };
                assert(kept.contains(kept[k]));
                lemma_filtered(fewer, fits, kept[k]);
                let w = choose|w: int| 0 <= w < fewer.len() && fewer[w] == kept[k];
                assert(things[w] == kept[k]);
            }
        }
    }
}

proof fn lemma_first_where<A>(things: Seq<A>, fits: spec_fn(A) -> bool)
    ensures
        match rows::first_where(things, fits) {
            Some(thing) => exists|k: int|
                0 <= k < things.len() && #[trigger] things[k] == thing && fits(thing) && forall|j: int|
                    0 <= j < k ==> !fits(#[trigger] things[j]),
            None => forall|j: int| 0 <= j < things.len() ==> !fits(#[trigger] things[j]),
        },
    decreases things.len(),
{
    reveal(Seq::filter);
    if things.len() > 0 {
        let fewer = things.drop_last();
        let last = things.last();
        lemma_first_where(fewer, fits);
        match rows::first_where(fewer, fits) {
            Some(thing) => {
                let k = choose|k: int|
                    0 <= k < fewer.len() && #[trigger] fewer[k] == thing && fits(thing) && forall|
                        j: int,
                    |
                        0 <= j < k ==> !fits(#[trigger] fewer[j]);
                assert(rows::first_where(things, fits) == Some(thing));
                assert(things[k] == thing);
                assert forall|j: int| 0 <= j < k implies !fits(#[trigger] things[j]) by {
                    assert(things[j] == fewer[j]);
                }
            },
            None => {
                assert forall|j: int| 0 <= j < things.len() - 1 implies !fits(
                    #[trigger] things[j],
                ) by {
                    assert(things[j] == fewer[j]);
                }
                if fits(last) {
                    assert(rows::first_where(things, fits) == Some(last));
                    assert(things[things.len() - 1] == last);
                }
            },
        }
    }
}

/// Whether a row is the first of the store paths with its digest.
pub open spec fn is_first_of_digest(ix: index::IndexView, digest: Seq<char>, k: int) -> bool {
    &&& 0 <= k < ix.tables.store_paths.len()
    &&& ix.tables.store_paths[k].digest == digest
    &&& forall|j: int| 0 <= j < k ==> (#[trigger] ix.tables.store_paths[j]).digest != digest
}

/// Whether some store path of the index has a digest.
pub open spec fn has_digest(ix: index::IndexView, digest: Seq<char>) -> bool {
    exists|j: int|
        0 <= j < ix.tables.store_paths.len() && (#[trigger] ix.tables.store_paths[j]).digest
            == digest
}

/// Having a store path of its own, given by its id.
pub open spec fn being_built_to(id: i64) -> spec_fn(db::PairView) -> bool {
    |pair: db::PairView| pair.path.id == id
}

/// A pair as a package that built to a path.
pub open spec fn builder_entry() -> spec_fn(db::PairView) -> store::PackageEntryView {
    |pair: db::PairView|
        store::PackageEntryView { attr: pair.attr, version: pair.version, tip: pair.tip }
}

/// Being a recorded output with a store path, given by its id.
pub open spec fn being_output_at(id: i64) -> spec_fn(db::OutputRowView) -> bool {
    |row: db::OutputRowView| row.path_id == id
}

/// A recorded output as the derivation's name and the output's suffix.
pub open spec fn output_entry() -> spec_fn(db::OutputRowView) -> (Seq<char>, Seq<char>) {
    |row: db::OutputRowView| (row.drv_name, row.suffix)
}

/// Whether an answer tells of a store path just what built it: a package for
/// each pair whose own store path it is, none where there is no such pair, and
/// the outputs recorded of it.
pub open spec fn tells_what_built(
    ix: index::IndexView,
    path: db::PathView,
    answer: store::IdentifyAnswerView,
) -> bool {
    &&& answer.name == path.name
    &&& answer.store_path == full_path(path)
    &&& answer.packages.to_multiset() == ix.tables.pairs.filter(being_built_to(path.id)).map_values(
        builder_entry(),
    ).to_multiset()
    &&& !is_built(ix, path.id) ==> answer.packages.len() == 0
    &&& forall|entry: store::PackageEntryView| #[trigger]
        answer.packages.contains(entry) <==> exists|n: int|
            0 <= n < ix.tables.pairs.len() && (#[trigger] ix.tables.pairs[n]).path.id == path.id
                && ix.tables.pairs[n].attr == entry.attr && ix.tables.pairs[n].version
                == entry.version && ix.tables.pairs[n].tip == entry.tip
    &&& answer.outputs == ix.tables.outputs.filter(being_output_at(path.id)).map_values(
        output_entry(),
    )
}

/// The store path identified is the first with the digest that is asked. Its
/// packages are one for each pair whose own store path it is, in attribute
/// order: a path that no pair built to has none, whatever its name. Its
/// outputs are those recorded of it.
pub proof fn identify_names_just_what_built_the_path(ix: index::IndexView, target: Seq<char>)
    ensures
        store::identified(ix, target) matches Ok(answer) ==> {
            &&& index::has_store_data(ix)
            &&& store::digest_in(target) == Ok::<Seq<char>, refusal::RefusalView>(answer.digest)
            &&& exists|k: int| #[trigger]
                is_first_of_digest(ix, answer.digest, k) && tells_what_built(
                    ix,
                    ix.tables.store_paths[k],
                    answer,
                )
            &&& forall|p: int, q: int|
                0 <= p < q < answer.packages.len() ==> text::text_at_most(
                    (#[trigger] answer.packages[p]).attr,
                    (#[trigger] answer.packages[q]).attr,
                )
        },
        store::identified(ix, target) matches Err(e) ==> match e {
            refusal::RefusalView::NoStoreData => !index::has_store_data(ix),
            refusal::RefusalView::NotAStorePath { target: asked } => index::has_store_data(ix)
                && asked == target && store::digest_in(target) is Err,
            refusal::RefusalView::UnseenDigest { digest } => index::has_store_data(ix)
                && store::digest_in(target) == Ok::<Seq<char>, refusal::RefusalView>(digest)
                && !has_digest(ix, digest),
            _ => false,
        },
{
    broadcast use vstd::seq_lib::group_to_multiset_ensures;

    if let Ok(digest) = store::digest_in(target) {
        let fits = |row: db::PathView| row.digest == digest;
        lemma_first_where(ix.tables.store_paths, fits);
        if index::has_store_data(ix) {
            if let Some(path) = index::store_path_by_digest(ix, digest) {
                let k = choose|k: int|
                    0 <= k < ix.tables.store_paths.len() && #[trigger] ix.tables.store_paths[k]
                        == path && fits(path) && forall|j: int|
                        0 <= j < k ==> !fits(#[trigger] ix.tables.store_paths[j]);
                assert forall|j: int| 0 <= j < k implies (
                #[trigger] ix.tables.store_paths[j]).digest != digest by {
                    assert(!fits(ix.tables.store_paths[j]));
                }
                assert(is_first_of_digest(ix, digest, k));
                store_paths_are_spelled_in_full(path);
                let answer = store::identity_of(ix, path);
                let own = seq![path.id];
                let found = index::pairs_by_path_ids(ix, own);
                let builders = store::builders_of(ix, path.id);
                assert(answer.packages =~= builders.map_values(builder_entry()));
                lemma_sorted_times::<db::PairView, db::ByText, store::PackageEntryView>(
                    found,
                    found.map_values(|pair: db::PairView| pair.attr),
                    builder_entry(),
                );
                assert(own.contains(path.id)) by {
                    assert(own[0] == path.id);
                }
                assert(at_one_of(own) =~= being_built_to(path.id));
                let all = ix.tables.pairs;
                let built = all.filter(being_built_to(path.id));
                let wanted = built.map_values(builder_entry());
                assert(answer.packages.to_multiset() =~= wanted.to_multiset()) by {
                    assert forall|b: store::PackageEntryView| #[trigger]
                        answer.packages.to_multiset().count(b) == wanted.to_multiset().count(b) by {
                        lemma_lookup_times(ix, own, builder_entry(), b);
                    }
                }
                assert forall|entry: store::PackageEntryView| #[trigger]
                    answer.packages.contains(entry) <==> exists|n: int|
                        0 <= n < ix.tables.pairs.len() && (#[trigger] ix.tables.pairs[n]).path.id
                            == path.id && ix.tables.pairs[n].attr == entry.attr
                            && ix.tables.pairs[n].version == entry.version
                            && ix.tables.pairs[n].tip == entry.tip by {
                    assert(answer.packages.to_multiset().count(entry) > 0
                        <==> answer.packages.contains(entry));
                    assert(wanted.to_multiset().count(entry) > 0 <==> wanted.contains(entry));
                    if wanted.contains(entry) {
                        let w = choose|w: int| 0 <= w < wanted.len() && wanted[w] == entry;
                        assert(built.contains(built[w]));
                        lemma_filtered(all, being_built_to(path.id), built[w]);
                        let n = choose|n: int| 0 <= n < all.len() && all[n] == built[w];
                        assert(all[n].path.id == path.id);
                    }
                    if exists|n: int|
                        0 <= n < all.len() && (#[trigger] all[n]).path.id == path.id && all[n].attr
                            == entry.attr && all[n].version == entry.version && all[n].tip
                            == entry.tip {
                        let n = choose|n: int|
                            0 <= n < all.len() && (#[trigger] all[n]).path.id == path.id
                                && all[n].attr == entry.attr && all[n].version == entry.version
                                && all[n].tip == entry.tip;
                        assert(all.contains(all[n]));
                        lemma_filtered(all, being_built_to(path.id), all[n]);
                        let w = choose|w: int| 0 <= w < built.len() && built[w] == all[n];
                        assert(wanted[w] == entry);
                    }
                }
                if answer.packages.len() > 0 {
                    let entry = answer.packages[0];
                    assert(answer.packages.contains(entry));
                    assert(is_built(ix, path.id));
                }
                assert(being_output_at(path.id) =~= (|row: db::OutputRowView|
                    row.path_id == path.id));
                assert(answer.outputs =~= ix.tables.outputs.filter(
                    being_output_at(path.id),
                ).map_values(output_entry()));
                assert(tells_what_built(ix, ix.tables.store_paths[k], answer));
                store::listings_ascend(ix, path, path.id);
                assert forall|p: int, q: int| 0 <= p < q < answer.packages.len() implies
                    text::text_at_most(
                    (#[trigger] answer.packages[p]).attr,
                    (#[trigger] answer.packages[q]).attr,
                ) by {
                    assert(answer.packages[p].attr == builders[p].attr);
                    assert(answer.packages[q].attr == builders[q].attr);
                }
                assert(answer.digest == digest);
                assert(store::identified(ix, target) == Ok::<
                    store::IdentifyAnswerView,
                    refusal::RefusalView,
                >(answer));
            } else if has_digest(ix, digest) {
                let j = choose|j: int|
                    0 <= j < ix.tables.store_paths.len() && (
                    #[trigger] ix.tables.store_paths[j]).digest == digest;
                assert(fits(ix.tables.store_paths[j]));
            }
        }
    }
}

/// Whether the index has a run of an attribute at just this version.
pub open spec fn has_run_at(ix: index::IndexView, attr: Seq<char>, wanted: Seq<char>) -> bool {
    exists|k: int|
        0 <= k < ix.tables.runs.len() && (#[trigger] ix.tables.runs[k]).attr == attr
            && ix.tables.runs[k].run.version == wanted
}

/// Whether a run of the index is one that an attribute and a version ask for:
/// any of the attribute when no version is given, else those of just the
/// version, and where there is none of those, those that go on from it.
pub open spec fn run_suits(
    ix: index::IndexView,
    attr: Seq<char>,
    wanted: Option<Seq<char>>,
    run: db::RunView,
) -> bool {
    &&& ix.tables.runs.contains(db::AttrRunView { attr, run })
    &&& match wanted {
        None => true,
        Some(version) => run.version == version || (!has_run_at(ix, attr, version) && goes_on_from(
            run.version,
            version,
        )),
    }
}

/// Whether some run that suits goes over an offset.
pub open spec fn suits_at(
    ix: index::IndexView,
    attr: Seq<char>,
    wanted: Option<Seq<char>>,
    off: i64,
) -> bool {
    exists|run: db::RunView| #[trigger]
        run_suits(ix, attr, wanted, run) && run.first <= off <= run.last
}

/// Whether a revision has a narHash and lies in a run that suits.
pub open spec fn can_be_fetched(
    ix: index::IndexView,
    attr: Seq<char>,
    wanted: Option<Seq<char>>,
    k: int,
) -> bool {
    &&& 0 <= k < ix.tables.revisions.len()
    &&& ix.tables.revisions[k].narhash is Some
    &&& suits_at(ix, attr, wanted, ix.tables.revisions[k].off)
}

/// Whether a revision is the first row with its offset.
pub open spec fn is_first_at(ix: index::IndexView, off: i64, k: int) -> bool {
    &&& 0 <= k < ix.tables.revisions.len()
    &&& ix.tables.revisions[k].off == off
    &&& forall|j: int| 0 <= j < k ==> (#[trigger] ix.tables.revisions[j]).off != off
}

/// Whether no two revisions have the same offset.
pub open spec fn offsets_differ(ix: index::IndexView) -> bool {
    forall|i: int, j: int|
        0 <= i < j < ix.tables.revisions.len() ==> (#[trigger] ix.tables.revisions[i]).off != (
        #[trigger] ix.tables.revisions[j]).off
}

/// Whether the runs of an attribute that go over an offset are of one version.
pub open spec fn has_one_version_at(ix: index::IndexView, attr: Seq<char>, off: i64) -> bool {
    forall|a: db::RunView, b: db::RunView|
        #![trigger ix.tables.runs.contains(db::AttrRunView { attr, run: a }), ix.tables.runs.contains(db::AttrRunView { attr, run: b })]
        ix.tables.runs.contains(db::AttrRunView { attr, run: a }) && ix.tables.runs.contains(
            db::AttrRunView { attr, run: b },
        ) && a.first <= off <= a.last && b.first <= off <= b.last ==> a.version == b.version
}

proof fn lemma_run_rows(ix: index::IndexView, attr: Seq<char>, run: db::RunView)
    ensures
        index::runs_of(ix, attr).contains(run) <==> ix.tables.runs.contains(
            db::AttrRunView { attr, run },
        ),
{
    index::runs_come_oldest_first(ix, attr, run);
}

/// The runs that a version spec selects are those that suit.
proof fn lemma_selected_runs_suit(
    ix: index::IndexView,
    attr: Seq<char>,
    wanted: Option<Seq<char>>,
    run: db::RunView,
)
    ensures
        solve::selected(index::runs_of(ix, attr), solve::run_version(), wanted).contains(run)
            <==> run_suits(ix, attr, wanted, run),
{
    let runs = index::runs_of(ix, attr);
    let all = ix.tables.runs;
    lemma_run_rows(ix, attr, run);
    if let Some(version) = wanted {
        let of = solve::run_version();
        solve::exact_versions_win(runs, of, version, run);
        versions_match_by_component(run.version, version);
        if exists|i: int| 0 <= i < runs.len() && of(#[trigger] runs[i]) == version {
            let i = choose|i: int| 0 <= i < runs.len() && of(#[trigger] runs[i]) == version;
            assert(runs.contains(runs[i]));
            lemma_run_rows(ix, attr, runs[i]);
            let k = choose|k: int|
                0 <= k < all.len() && all[k] == (db::AttrRunView { attr, run: runs[i] });
            assert(all[k].attr == attr && all[k].run.version == version);
        }
        if has_run_at(ix, attr, version) {
            let k = choose|k: int|
                0 <= k < all.len() && (#[trigger] all[k]).attr == attr && all[k].run.version
                    == version;
            let other = all[k].run;
            assert(all[k] == (db::AttrRunView { attr, run: other }));
            assert(all.contains(db::AttrRunView { attr, run: other }));
            lemma_run_rows(ix, attr, other);
            let i = choose|i: int| 0 <= i < runs.len() && runs[i] == other;
            assert(of(runs[i]) == version);
        }
    }
}

/// What can be pinned in the spans a spec selects is what can be fetched.
proof fn lemma_pinnable_suits(
    ix: index::IndexView,
    attr: Seq<char>,
    wanted: Option<Seq<char>>,
    k: int,
)
    ensures
        solve::is_pinnable(
            ix,
            solve::spans_in(ix, solve::ConstraintView { attr, version: wanted }),
            k,
        ) <==> can_be_fetched(ix, attr, wanted, k),
{
    let spans = solve::spans_in(ix, solve::ConstraintView { attr, version: wanted });
    let kept = solve::selected(index::runs_of(ix, attr), solve::run_version(), wanted);
    let off = ix.tables.revisions[k].off;
    if solve::is_pinnable(ix, spans, k) {
        let i = choose|i: int|
            0 <= i < spans.len() && (#[trigger] spans[i]).0 <= ix.tables.revisions[k].off
                <= spans[i].1;
        assert(kept.contains(kept[i]));
        lemma_selected_runs_suit(ix, attr, wanted, kept[i]);
        assert(run_suits(ix, attr, wanted, kept[i]));
    }
    if can_be_fetched(ix, attr, wanted, k) {
        let run = choose|run: db::RunView| #[trigger]
            run_suits(ix, attr, wanted, run) && run.first <= off <= run.last;
        lemma_selected_runs_suit(ix, attr, wanted, run);
        let i = choose|i: int| 0 <= i < kept.len() && kept[i] == run;
        assert(spans[i].0 <= off <= spans[i].1);
    }
}

/// Whether a revision can be fetched and no other that can is newer.
pub open spec fn is_newest_to_fetch(
    ix: index::IndexView,
    attr: Seq<char>,
    wanted: Option<Seq<char>>,
    k: int,
) -> bool {
    &&& can_be_fetched(ix, attr, wanted, k)
    &&& forall|j: int| #[trigger]
        can_be_fetched(ix, attr, wanted, j) ==> ix.tables.revisions[j].off
            <= ix.tables.revisions[k].off
}

/// Whether a version is that of a run of an attribute at an offset, of the one
/// that starts first where there are several.
pub open spec fn is_version_at(
    ix: index::IndexView,
    attr: Seq<char>,
    off: i64,
    version: Seq<char>,
) -> bool {
    exists|run: db::RunView|
        #![trigger ix.tables.runs.contains(db::AttrRunView { attr, run })]
        ix.tables.runs.contains(db::AttrRunView { attr, run }) && run.first <= off <= run.last
            && run.version == version && forall|other: db::RunView|
            #![trigger ix.tables.runs.contains(db::AttrRunView { attr, run: other })]
            ix.tables.runs.contains(db::AttrRunView { attr, run: other }) && other.first <= off
                <= other.last ==> run.first <= other.first
}

/// A spec that resolves to an installable names the newest revision that has a
/// narHash among those of every run that the spec's version selects, and the
/// version there. It resolves just when there is such a revision.
pub proof fn installables_name_the_newest_revision_that_can_be_fetched(
    ix: index::IndexView,
    attr: Seq<char>,
    wanted: Option<Seq<char>>,
)
    requires
        is_spellable(attr, wanted),
    ensures
        run::installed(ix, spelled(attr, wanted)) matches Ok(found) ==> exists|k: int, named: int|
            #![trigger is_newest_to_fetch(ix, attr, wanted, k), ix.tables.revisions[named]]
            is_newest_to_fetch(ix, attr, wanted, k) && {
                let off = ix.tables.revisions[k].off;
                &&& is_first_at(ix, off, named)
                &&& offsets_differ(ix) ==> named == k
                &&& found.installable == "github:NixOS/nixpkgs/"@ + ix.tables.revisions[named].rev
                    + "#"@ + attr
                &&& found.label == ix.tables.revisions[named].label
                &&& is_version_at(ix, attr, off, found.version)
                &&& has_one_version_at(ix, attr, off) ==> exists|run: db::RunView| #[trigger]
                    run_suits(ix, attr, wanted, run) && run.first <= off <= run.last && run.version
                        == found.version
            },
        run::installed(ix, spelled(attr, wanted)) matches Err(e) ==> match e {
            refusal::RefusalView::NoSuchVersion { wanted: asked, attr: named } => asked == spelled(
                attr,
                wanted,
            ) && named == attr && forall|run: db::RunView| !#[trigger]
                run_suits(ix, attr, wanted, run),
            refusal::RefusalView::NotPinnable { wanted: asked } => asked == spelled(attr, wanted)
                && (exists|run: db::RunView| #[trigger] run_suits(ix, attr, wanted, run))
                && forall|k: int| !#[trigger] can_be_fetched(ix, attr, wanted, k),
            _ => false,
        },
{
    let spec = spelled(attr, wanted);
    lemma_spelling_parses(attr, wanted);
    let constraint = solve::ConstraintView { attr, version: wanted };
    let spans = solve::spans_in(ix, constraint);
    let runs = index::runs_of(ix, attr);
    let kept = solve::selected(runs, solve::run_version(), wanted);
    solve::pins_the_newest_fetchable(ix, spans);
    assert forall|k: int| #[trigger] can_be_fetched(ix, attr, wanted, k) <==> solve::is_pinnable(
        ix,
        spans,
        k,
    ) by {
        lemma_pinnable_suits(ix, attr, wanted, k);
    }
    assert forall|run: db::RunView| #[trigger] run_suits(ix, attr, wanted, run) <==> kept.contains(
        run,
    ) by {
        lemma_selected_runs_suit(ix, attr, wanted, run);
    }
    if spans.len() > 0 {
        assert(kept.contains(kept[0]));
        assert(run_suits(ix, attr, wanted, kept[0]));
    }
    run::what_can_be_pinned_can_be_installed(ix, spec);
    if spans.len() > 0 && solve::pinnable_in(ix, spans) is Some {
        let off = solve::pinnable_in(ix, spans)->0;
        let k = choose|k: int| solve::is_pinnable(ix, spans, k) && ix.tables.revisions[k].off == off;
        assert(can_be_fetched(ix, attr, wanted, k));
        assert(is_newest_to_fetch(ix, attr, wanted, k));
        let at = |row: db::RevisionView| row.off == off;
        lemma_first_where(ix.tables.revisions, at);
        assert(at(ix.tables.revisions[k]));
        let revision = rows::first_where(ix.tables.revisions, at)->0;
        let named = choose|named: int|
            0 <= named < ix.tables.revisions.len() && #[trigger] ix.tables.revisions[named]
                == revision && at(revision) && forall|j: int|
                0 <= j < named ==> !at(#[trigger] ix.tables.revisions[j]);
        assert forall|j: int| 0 <= j < named implies (#[trigger] ix.tables.revisions[j]).off
            != off by {
            assert(!at(ix.tables.revisions[j]));
        }
        assert(is_first_at(ix, off, named));
        let found = run::installed(ix, spec)->Ok_0;
        reveal_strlit("github:NixOS/nixpkgs");
        reveal_strlit("github:NixOS/nixpkgs/");
        reveal_strlit("/");
        assert("github:NixOS/nixpkgs"@ + "/"@ =~= "github:NixOS/nixpkgs/"@);
        let covers = |run: db::RunView| run.first <= off && off <= run.last;
        lemma_first_where(runs, covers);
        let at_off = run::run_at(ix, attr, off)->0;
        let p = choose|p: int|
            0 <= p < runs.len() && #[trigger] runs[p] == at_off && covers(at_off) && forall|j: int|
                0 <= j < p ==> !covers(#[trigger] runs[j]);
        assert(runs.contains(runs[p]));
        lemma_run_rows(ix, attr, at_off);
        index::runs_come_oldest_first(ix, attr, at_off);
        assert forall|other: db::RunView|
            #![trigger ix.tables.runs.contains(db::AttrRunView { attr, run: other })]
            ix.tables.runs.contains(db::AttrRunView { attr, run: other }) && other.first <= off
                <= other.last implies at_off.first <= other.first by {
            lemma_run_rows(ix, attr, other);
            let q = choose|q: int| 0 <= q < runs.len() && runs[q] == other;
            assert(covers(runs[q]));
            assert(runs[p].first <= runs[q].first);
        }
        assert(is_version_at(ix, attr, off, found.version));
        if has_one_version_at(ix, attr, off) {
            let run = choose|run: db::RunView| #[trigger]
                run_suits(ix, attr, wanted, run) && run.first <= off <= run.last;
            assert(run_suits(ix, attr, wanted, run));
            assert(run.version == at_off.version);
        }
        if offsets_differ(ix) && named != k {
            if named < k {
                assert(ix.tables.revisions[named].off != ix.tables.revisions[k].off);
            } else {
                assert(ix.tables.revisions[k].off != ix.tables.revisions[named].off);
            }
        }
    }
}

/// The attribute of a spec: what stands before its first `@`.
pub open spec fn is_attr_of(spec: Seq<char>, attr: Seq<char>) -> bool {
    exists|wanted: Option<Seq<char>>| #[trigger]
        spelled(attr, wanted) == spec && is_spellable(attr, wanted)
}

proof fn lemma_attr_of(spec: Seq<char>)
    requires
        solve::parsed(spec) is Ok,
    ensures
        is_attr_of(spec, text::before_first(spec, '@')),
{
    let c = solve::parsed(spec)->Ok_0;
    specs_split_at_the_first_mark(spec, c.attr, c.version);
    solve::describing_undoes_parsing(spec);
    assert(spelled(c.attr, c.version) == spec);
}

/// Whether a place and a note are what the eval road makes of a spec: the
/// flake installable it resolves to, and the version and revision that names.
pub open spec fn is_evaluated(
    ix: index::IndexView,
    spec: Seq<char>,
    place: Seq<char>,
    note: Seq<char>,
) -> bool {
    run::installed(ix, spec) matches Ok(found) && place == found.installable && exists|
        attr: Seq<char>,
    | #[trigger]
        is_attr_of(spec, attr) && note == "\x1b[2m"@ + (attr + " "@ + found.version + " from "@
            + found.label) + "\x1b[0m"@
}

/// Whether a place and a note are what the fast road makes of a spec: the
/// store path of the pair it resolves to, and that pair.
pub open spec fn is_substituted(
    ix: index::IndexView,
    spec: Seq<char>,
    place: Seq<char>,
    note: Seq<char>,
) -> bool {
    index::has_store_data(ix) && (store::resolved(ix, spec) matches Ok(pair) && place == full_path(
        pair.path,
    ) && note == "\x1b[2m"@ + (pair.attr + " "@ + pair.version + if pair.tip {
        " (current)"@
    } else {
        ""@
    } + " from the store-path index"@) + "\x1b[0m"@)
}

/// Whether the fast road has an answer to a spec.
pub open spec fn is_indexed(ix: index::IndexView, spec: Seq<char>) -> bool {
    index::has_store_data(ix) && store::resolved(ix, spec) is Ok
}

/// Whether a place and a note are what a spec comes to: under `--eval` always
/// the eval road's, else the fast road's where it has an answer.
pub open spec fn is_answer_to(
    ix: index::IndexView,
    spec: Seq<char>,
    speed: run::Speed,
    place: Seq<char>,
    note: Seq<char>,
) -> bool {
    match speed {
        run::Speed::Eval => is_evaluated(ix, spec, place, note),
        run::Speed::Fast => if is_indexed(ix, spec) {
            is_substituted(ix, spec, place, note)
        } else {
            is_evaluated(ix, spec, place, note)
        },
    }
}

/// Whether a note is that on what a spec comes to.
pub open spec fn is_noted(
    ix: index::IndexView,
    spec: Seq<char>,
    speed: run::Speed,
    note: Seq<char>,
) -> bool {
    exists|place: Seq<char>| #[trigger] is_answer_to(ix, spec, speed, place, note)
}

/// Whether a spec is refused: it has no installable, and under `--eval`, or
/// where the fast road has no answer, nothing else stands in for one.
pub open spec fn is_refused(ix: index::IndexView, spec: Seq<char>, speed: run::Speed) -> bool {
    run::installed(ix, spec) is Err && (speed == run::Speed::Eval || !is_indexed(ix, spec))
}

proof fn lemma_installed_parses(ix: index::IndexView, spec: Seq<char>)
    ensures
        run::installed(ix, spec) is Ok ==> is_attr_of(spec, text::before_first(spec, '@')),
        store::resolved(ix, spec) is Ok ==> is_attr_of(spec, text::before_first(spec, '@')),
{
    if solve::parsed(spec) is Ok {
        lemma_attr_of(spec);
    }
}

proof fn lemma_shell_entry(ix: index::IndexView, spec: Seq<char>, speed: run::Speed)
    ensures
        match run::shell_entry(ix, spec, speed) {
            Ok((place, note)) => is_answer_to(ix, spec, speed, place, note) && !is_refused(
                ix,
                spec,
                speed,
            ),
            Err(e) => is_refused(ix, spec, speed) && run::installed(ix, spec) == Err::<
                run::InstallableView,
                refusal::RefusalView,
            >(e),
        },
{
    lemma_installed_parses(ix, spec);
    if let Ok(pair) = store::resolved(ix, spec) {
        store_paths_are_spelled_in_full(pair.path);
    }
}

/// Whether the arguments for `nix shell` ask for a place for each spec, with
/// the note on it, and then for the command, where there is one.
pub open spec fn asks_for(
    ix: index::IndexView,
    specs: Seq<Seq<char>>,
    args: Seq<Seq<char>>,
    speed: run::Speed,
    argv: Seq<Seq<char>>,
    notes: Seq<Seq<char>>,
) -> bool {
    let n = specs.len() as int;
    &&& notes.len() == n
    &&& argv.len() == 1 + n + if args.len() == 0 {
        0
    } else {
        1 + args.len()
    }
    &&& argv[0] == "shell"@
    &&& forall|i: int|
        0 <= i < n ==> is_answer_to(ix, #[trigger] specs[i], speed, argv[1 + i], notes[i])
    &&& args.len() > 0 ==> argv[1 + n] == "--command"@ && argv.skip(2 + n) == args
}

/// `shell` asks `nix shell` for what each spec comes to on the road that was
/// chosen: under `--eval` every place is the flake installable its spec
/// resolves to, though the spec is indexed, and its note names that revision.
/// A dry run prints that command line. Where a spec is refused, so is the
/// whole, with the refusal of the first; those before it are noted.
pub proof fn shells_ask_for_what_each_spec_comes_to(
    ix: index::IndexView,
    specs: Seq<Seq<char>>,
    args: Seq<Seq<char>>,
    execute: run::Execute,
    speed: run::Speed,
)
    ensures
        match run::shell_plan(ix, specs, args, execute, speed).result {
            Ok(action) => {
                let notes = run::shell_plan(ix, specs, args, execute, speed).notes;
                &&& forall|i: int| 0 <= i < specs.len() ==> !is_refused(ix, #[trigger] specs[i], speed)
                &&& match (execute, action) {
                    (run::Execute::Yes, run::ActionView::Nix { argv }) => asks_for(
                        ix,
                        specs,
                        args,
                        speed,
                        argv,
                        notes,
                    ),
                    (run::Execute::No, run::ActionView::Print { line }) => exists|
                        argv: Seq<Seq<char>>,
                    | #[trigger]
                        asks_for(ix, specs, args, speed, argv, notes) && line == "nix "@
                            + text::joined(argv, " "@),
                    _ => false,
                }
            },
            Err(e) => exists|n: int|
                0 <= n < specs.len() && is_refused(ix, #[trigger] specs[n], speed) && run::installed(
                    ix,
                    specs[n],
                ) == Err::<run::InstallableView, refusal::RefusalView>(e) && {
                    let notes = run::shell_plan(ix, specs, args, execute, speed).notes;
                    &&& notes.len() == n
                    &&& forall|i: int|
                        0 <= i < n ==> !is_refused(ix, #[trigger] specs[i], speed) && is_noted(
                            ix,
                            specs[i],
                            speed,
                            notes[i],
                        )
                },
        },
{
    run::shells_are_refused_at_the_first_refused_spec(ix, specs, args, execute, speed);
    lemma_refused_in_range(ix, specs, speed, 0);
    let plan = run::shell_plan(ix, specs, args, execute, speed);
    match plan.result {
        Ok(action) => {
            lemma_shell_asks(ix, specs, args, speed);
            assert(action == run::handed_over(run::shell_argv(ix, specs, args, speed), execute));
        },
        Err(e) => {
            let n = choose|n: int|
                0 <= n < specs.len() && run::shell_entry(ix, #[trigger] specs[n], speed) == Err::<
                    (Seq<char>, Seq<char>),
                    refusal::RefusalView,
                >(e) && (forall|i: int|
                    0 <= i < n ==> run::shell_entry(ix, #[trigger] specs[i], speed) is Ok)
                    && plan.notes.len() == n;
            lemma_shell_entry(ix, specs[n], speed);
            lemma_shell_notes(ix, specs, speed, n);
        },
    }
}

proof fn lemma_shell_notes(ix: index::IndexView, specs: Seq<Seq<char>>, speed: run::Speed, n: int)
    requires
        0 <= n <= specs.len(),
        forall|i: int| 0 <= i < n ==> run::shell_entry(ix, #[trigger] specs[i], speed) is Ok,
    ensures
        forall|i: int|
            0 <= i < n ==> !is_refused(ix, #[trigger] specs[i], speed) && is_noted(
                ix,
                specs[i],
                speed,
                run::shell_notes(ix, specs, speed, n)[i],
            ),
{
    let notes = run::shell_notes(ix, specs, speed, n);
    assert forall|i: int| 0 <= i < n implies !is_refused(ix, #[trigger] specs[i], speed)
        && is_noted(ix, specs[i], speed, notes[i]) by {
        lemma_shell_entry(ix, specs[i], speed);
        let (place, note) = run::shell_entry(ix, specs[i], speed)->Ok_0;
        assert(specs.take(n)[i] == specs[i]);
        assert(notes[i] == note);
        assert(is_answer_to(ix, specs[i], speed, place, notes[i]));
    }
}

proof fn lemma_shell_asks(
    ix: index::IndexView,
    specs: Seq<Seq<char>>,
    args: Seq<Seq<char>>,
    speed: run::Speed,
)
    requires
        forall|i: int|
            0 <= i < specs.len() ==> run::shell_entry(ix, #[trigger] specs[i], speed) is Ok,
    ensures
        forall|i: int| 0 <= i < specs.len() ==> !is_refused(ix, #[trigger] specs[i], speed),
        asks_for(
            ix,
            specs,
            args,
            speed,
            run::shell_argv(ix, specs, args, speed),
            run::shell_notes(ix, specs, speed, specs.len() as int),
        ),
{
    let n = specs.len() as int;
    let argv = run::shell_argv(ix, specs, args, speed);
    let notes = run::shell_notes(ix, specs, speed, n);
    assert(specs.take(n) =~= specs);
    assert forall|i: int| 0 <= i < n implies is_answer_to(
        ix,
        #[trigger] specs[i],
        speed,
        argv[1 + i],
        notes[i],
    ) && !is_refused(ix, specs[i], speed) by {
        lemma_shell_entry(ix, specs[i], speed);
        let (place, note) = run::shell_entry(ix, specs[i], speed)->Ok_0;
        assert(notes[i] == note);
        assert(argv[1 + i] == place);
    }
    if args.len() > 0 {
        assert(argv.skip(2 + n) =~= args);
    }
}

proof fn lemma_refused_in_range(
    ix: index::IndexView,
    specs: Seq<Seq<char>>,
    speed: run::Speed,
    from: int,
)
    requires
        0 <= from <= specs.len(),
    ensures
        from <= run::first_refused(ix, specs, speed, from) <= specs.len(),
    decreases specs.len() - from,
{
    if from < specs.len() && run::shell_entry(ix, specs[from], speed) is Ok {
        lemma_refused_in_range(ix, specs, speed, from + 1);
    }
}

proof fn lemma_joining_in_front(first: Seq<char>, rest: Seq<Seq<char>>, separator: Seq<char>)
    requires
        rest.len() > 0,
    ensures
        text::joined(seq![first] + rest, separator) == first + separator + text::joined(
            rest,
            separator,
        ),
    decreases rest.len(),
{
    let all = seq![first] + rest;
    assert(all.last() == rest.last());
    assert(all.drop_last() =~= seq![first] + rest.drop_last());
    if rest.len() == 1 {
        assert(all.drop_last() =~= seq![first]);
        assert(text::joined(seq![first], separator) == first);
        assert(text::joined(all, separator) =~= first + separator + rest[0]);
    } else {
        lemma_joining_in_front(first, rest.drop_last(), separator);
        assert(text::joined(all, separator) =~= first + separator + text::joined(rest, separator));
    }
}

/// Joining puts the separator between each part and the next, and nowhere
/// else.
pub proof fn joining_separates(first: Seq<char>, rest: Seq<Seq<char>>, separator: Seq<char>)
    ensures
        text::joined(Seq::empty(), separator) == Seq::<char>::empty(),
        text::joined(seq![first], separator) == first,
        rest.len() > 0 ==> text::joined(seq![first] + rest, separator) == first + separator
            + text::joined(rest, separator),
        rest.len() > 0 ==> text::joined(rest.push(first), separator) == text::joined(
            rest,
            separator,
        ) + separator + first,
{
    if rest.len() > 0 {
        lemma_joining_in_front(first, rest, separator);
        assert(rest.push(first).drop_last() =~= rest);
    }
}

/// Whether the arguments are those of `nix run` for a place: the place, and
/// behind a `--` what the program is given, where it is given anything.
pub open spec fn runs_with(
    place: Seq<char>,
    args: Seq<Seq<char>>,
    argv: Seq<Seq<char>>,
) -> bool {
    &&& argv.len() == 2 + if args.len() == 0 {
        0
    } else {
        1 + args.len()
    }
    &&& argv[0] == "run"@
    &&& argv[1] == place
    &&& args.len() > 0 ==> argv[2] == "--"@ && argv.skip(3) == args
}

proof fn lemma_run_line(place: Seq<char>, args: Seq<Seq<char>>)
    ensures
        runs_with(place, args, run::run_argv(place, args)),
        "nix "@ + text::joined(run::run_argv(place, args), " "@) == "nix run "@ + place
            + if args.len() == 0 {
            ""@
        } else {
            " -- "@ + text::joined(args, " "@)
        },
{
    let argv = run::run_argv(place, args);
    reveal_strlit("nix ");
    reveal_strlit("run");
    reveal_strlit("nix run ");
    reveal_strlit(" ");
    reveal_strlit("");
    reveal_strlit("--");
    reveal_strlit(" -- ");
    assert("nix "@ + "run"@ + " "@ =~= "nix run "@);
    if args.len() == 0 {
        assert(argv =~= seq!["run"@] + seq![place]);
        lemma_joining_in_front("run"@, seq![place], " "@);
        assert(text::joined(seq![place], " "@) == place);
        assert("nix "@ + ("run"@ + " "@ + place) =~= "nix "@ + "run"@ + " "@ + place + ""@);
    } else {
        let given = text::joined(args, " "@);
        assert(argv.skip(3) =~= args);
        lemma_joining_in_front("--"@, args, " "@);
        lemma_joining_in_front(place, seq!["--"@] + args, " "@);
        lemma_joining_in_front("run"@, seq![place] + (seq!["--"@] + args), " "@);
        assert(argv =~= seq!["run"@] + (seq![place] + (seq!["--"@] + args)));
        assert(" "@ + "--"@ + " "@ =~= " -- "@);
        assert("nix "@ + ("run"@ + " "@ + (place + " "@ + ("--"@ + " "@ + given))) =~= "nix "@
            + "run"@ + " "@ + place + (" "@ + "--"@ + " "@ + given));
    }
}

/// `run` takes the fast road where it is asked for and has an answer, and then
/// substitutes the store path of the pair the spec resolves to. Else it hands
/// the flake installable the spec resolves to over to `nix run`; under `--eval`
/// always. A dry run prints the command line of the same. It is refused just
/// where the spec is, and with that refusal.
pub proof fn runs_take_the_road_they_are_told(
    ix: index::IndexView,
    spec: Seq<char>,
    args: Seq<Seq<char>>,
    execute: run::Execute,
    speed: run::Speed,
)
    ensures
        match run::run_plan(ix, spec, args, execute, speed).result {
            Err(e) => is_refused(ix, spec, speed) && run::installed(ix, spec) == Err::<
                run::InstallableView,
                refusal::RefusalView,
            >(e) && run::run_plan(ix, spec, args, execute, speed).notes.len() == 0,
            Ok(action) => {
                let notes = run::run_plan(ix, spec, args, execute, speed).notes;
                &&& notes.len() == 1
                &&& !is_refused(ix, spec, speed)
                &&& if speed == run::Speed::Fast && is_indexed(ix, spec) {
                    match (execute, action) {
                        (run::Execute::No, run::ActionView::Print { line }) => exists|
                            place: Seq<char>,
                        | #[trigger]
                            is_answer_to(ix, spec, speed, place, notes[0]) && line
                                == "nix-store --realise "@ + place,
                        (
                            run::Execute::Yes,
                            run::ActionView::Realise { target, args: given },
                        ) => is_answer_to(ix, spec, speed, target.store_path, notes[0]) && given
                            == args && is_target_of(target, store::resolved(ix, spec)->Ok_0),
                        _ => false,
                    }
                } else {
                    match (execute, action) {
                        (run::Execute::No, run::ActionView::Print { line }) => exists|
                            place: Seq<char>,
                        | #[trigger]
                            is_answer_to(ix, spec, speed, place, notes[0]) && line == "nix run "@
                                + place + if args.len() == 0 {
                                ""@
                            } else {
                                " -- "@ + text::joined(args, " "@)
                            },
                        (run::Execute::Yes, run::ActionView::Nix { argv }) => exists|
                            place: Seq<char>,
                        | #[trigger]
                            is_answer_to(ix, spec, speed, place, notes[0]) && runs_with(
                                place,
                                args,
                                argv,
                            ),
                        _ => false,
                    }
                }
            },
        },
{
    lemma_installed_parses(ix, spec);
    let plan = run::run_plan(ix, spec, args, execute, speed);
    lemma_shell_entry(ix, spec, speed);
    if let Ok((place, note)) = run::shell_entry(ix, spec, speed) {
        assert(plan.notes =~= seq![note]);
        assert(is_answer_to(ix, spec, speed, place, plan.notes[0]));
        if speed == run::Speed::Fast && is_indexed(ix, spec) {
            targets_are_of_the_pair(ix, spec);
        } else {
            lemma_run_line(place, args);
        }
    }
}

/// Whether a derivation name ends where a dash stands before a digit.
pub open spec fn ends_at(name: Seq<char>, i: int) -> bool {
    0 <= i < name.len() - 1 && name[i] == '-' && '0' <= name[i + 1] <= '9'
}

/// Whether something is a name without its version: all before the first dash
/// that a digit follows, or the whole name where none does.
pub open spec fn is_pname_of(pname: Seq<char>, name: Seq<char>) -> bool {
    let n = pname.len() as int;
    &&& pname.is_prefix_of(name)
    &&& pname == name || ends_at(name, n)
    &&& forall|j: int| 0 <= j < n ==> !#[trigger] ends_at(name, j)
}

/// Whether something to run is a pair: its attribute, version and full path,
/// whether it is current, and the name of its store path without the version.
pub open spec fn is_target_of(target: store::TargetView, pair: db::PairView) -> bool {
    &&& target.attr == pair.attr
    &&& target.version == pair.version
    &&& target.tip == pair.tip
    &&& target.store_path == full_path(pair.path)
    &&& match (target.pname, pair.path.name) {
        (Some(pname), Some(name)) => is_pname_of(pname, name),
        (None, None) => true,
        _ => false,
    }
}

proof fn lemma_cut(name: Seq<char>, pname: Seq<char>)
    requires
        pname.is_prefix_of(name),
        pname == name || store::is_split(name, pname.len() as int),
        forall|j: int| !store::is_split(pname, j),
    ensures
        is_pname_of(pname, name),
{
    let n = pname.len() as int;
    assert(pname =~= name.take(n));
    assert forall|j: int| 0 <= j < n implies !#[trigger] ends_at(name, j) by {
        if ends_at(name, j) {
            assert(pname[j] == name[j]);
            if j + 1 < n {
                assert(pname[j + 1] == name[j + 1]);
            }
            assert(!store::is_split(pname, j));
        }
    }
}

/// A derivation name is cut at the first dash that a digit follows.
pub proof fn names_are_cut_before_the_version(name: Seq<char>)
    ensures
        is_pname_of(store::pname_in(name), name),
{
    store::pname_opens_the_name(name);
    lemma_cut(name, store::pname_in(name));
}

/// What is run is the pair that the spec resolves to, in a database that has
/// store data.
pub proof fn targets_are_of_the_pair(ix: index::IndexView, spec: Seq<char>)
    ensures
        match store::targeted(ix, spec) {
            Ok(target) => index::has_store_data(ix) && (store::resolved(ix, spec) matches Ok(pair)
                && is_target_of(target, pair)),
            Err(e) => if index::has_store_data(ix) {
                store::resolved(ix, spec) == Err::<db::PairView, refusal::RefusalView>(e)
            } else {
                e == refusal::RefusalView::NoStoreData
            },
        },
        match store::guarded(ix, spec) {
            Ok(pair) => index::has_store_data(ix) && store::resolved(ix, spec) == Ok::<
                db::PairView,
                refusal::RefusalView,
            >(pair),
            Err(e) => if index::has_store_data(ix) {
                store::resolved(ix, spec) == Err::<db::PairView, refusal::RefusalView>(e)
            } else {
                e == refusal::RefusalView::NoStoreData
            },
        },
{
    if let Ok(pair) = store::resolved(ix, spec) {
        store_paths_are_spelled_in_full(pair.path);
        if let Some(name) = pair.path.name {
            names_are_cut_before_the_version(name);
        }
    }
}

} // verus!
