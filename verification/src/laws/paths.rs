//! What the store commands tell of a path: how it is spelled, how large it is,
//! what it references.
use vstd::prelude::*;

use crate::db;
use crate::index;
use crate::laws;
use crate::order;
use crate::refusal;
use crate::rows;
use crate::store;
use crate::text;

verus! {

/// Whether text is a digest: thirty-two digits and small letters, without the
/// four letters that are left out.
pub open spec fn is_hash(digest: Seq<char>) -> bool {
    &&& digest.len() == 32
    &&& forall|i: int|
        0 <= i < digest.len() ==> is_hash_letter(#[trigger] digest[i])
}

pub open spec fn is_hash_letter(c: char) -> bool {
    ('0' <= c <= '9' || 'a' <= c <= 'z') && c != 'e' && c != 'o' && c != 'u' && c != 't'
}

/// Whether text spells a digest: alone, or as the front of a name behind a
/// dash, or with a directory before either.
pub open spec fn spells(target: Seq<char>, digest: Seq<char>) -> bool {
    is_hash(digest) && exists|before: Seq<char>, after: Seq<char>|
        target == #[trigger] (before + digest + after) && (before.len() == 0 || before.last() == '/')
            && (after.len() == 0 || after[0] == '-') && !after.contains('/')
}

proof fn lemma_hash(digest: Seq<char>)
    ensures
        store::is_digest(digest) <==> is_hash(digest),
        is_hash(digest) ==> !digest.contains('/') && !digest.contains('-'),
{
    if store::is_digest(digest) {
        assert forall|i: int| 0 <= i < digest.len() implies is_hash_letter(
            #[trigger] digest[i],
        ) by {
            assert(store::NIX32_ALPHABET@.contains(digest[i]));
            store::alphabet_leaves_out_four_letters(digest[i]);
        }
    }
    if is_hash(digest) {
        assert forall|i: int| 0 <= i < digest.len() implies store::NIX32_ALPHABET@.contains(
            #[trigger] digest[i],
        ) by {
            assert(is_hash_letter(digest[i]));
            store::alphabet_leaves_out_four_letters(digest[i]);
        }
        if digest.contains('/') {
            let i = choose|i: int| 0 <= i < digest.len() && digest[i] == '/';
            assert(is_hash_letter(digest[i]));
        }
        if digest.contains('-') {
            let i = choose|i: int| 0 <= i < digest.len() && digest[i] == '-';
            assert(is_hash_letter(digest[i]));
        }
    }
}

proof fn lemma_spelling(target: Seq<char>, before: Seq<char>, digest: Seq<char>, after: Seq<char>)
    requires
        is_hash(digest),
        target == before + digest + after,
        before.len() == 0 || before.last() == '/',
        after.len() == 0 || after[0] == '-',
        !after.contains('/'),
    ensures
        store::digest_in(target) == Ok::<Seq<char>, refusal::RefusalView>(digest),
{
    lemma_hash(digest);
    let base = digest + after;
    target.index_of_last_ensures('/');
    assert forall|j: int| before.len() <= j < target.len() implies target[j] != '/' by {
        if j < before.len() + digest.len() {
            assert(target[j] == digest[j - before.len()]);
        } else {
            assert(target[j] == after[j - before.len() - digest.len()]);
        }
    }
    if before.len() == 0 {
        assert(target =~= base);
        if target.contains('/') {
            let j = choose|j: int| 0 <= j < target.len() && target[j] == '/';
            assert(false);
        }
        assert(text::after_last(target, '/') == base);
    } else {
        let n = before.len() - 1;
        assert(target[n] == before[n]);
        assert(target.contains('/'));
        let i = target.index_of_last('/')->0;
        assert(i == n);
        assert(target.skip(n + 1) =~= base);
    }
    base.index_of_first_ensures('-');
    assert forall|j: int| 0 <= j < digest.len() implies base[j] != '-' by {
        assert(base[j] == digest[j]);
    }
    if after.len() == 0 {
        assert(base =~= digest);
    } else {
        assert(base[digest.len() as int] == '-');
        assert(base.contains('-'));
        assert(base.index_of_first('-')->0 == digest.len());
        assert(base.take(digest.len() as int) =~= digest);
    }
}

/// A path is asked for by its digest, by its name or by its full path, and by
/// nothing else: the digest is what stands in the last part of the text,
/// before the first dash.
pub proof fn digests_are_read_from_any_spelling(target: Seq<char>, digest: Seq<char>)
    ensures
        store::digest_in(target) == Ok::<Seq<char>, refusal::RefusalView>(digest) <==> spells(
            target,
            digest,
        ),
        store::digest_in(target) matches Err(e) ==> e == (refusal::RefusalView::NotAStorePath {
            target,
        }),
{
    if spells(target, digest) {
        let (before, after) = choose|before: Seq<char>, after: Seq<char>|
            target == #[trigger] (before + digest + after) && (before.len() == 0 || before.last()
                == '/') && (after.len() == 0 || after[0] == '-') && !after.contains('/');
        lemma_spelling(target, before, digest, after);
    }
    if store::digest_in(target) == Ok::<Seq<char>, refusal::RefusalView>(digest) {
        lemma_hash(digest);
        let base = text::after_last(target, '/');
        target.index_of_last_ensures('/');
        base.index_of_first_ensures('-');
        let before = match target.index_of_last('/') {
            Some(i) => target.take(i + 1),
            None => Seq::empty(),
        };
        let after = match base.index_of_first('-') {
            Some(j) => base.skip(j),
            None => Seq::empty(),
        };
        assert(target =~= before + base);
        assert(base =~= digest + after);
        assert(target =~= before + digest + after);
        if after.contains('/') {
            let j = choose|j: int| 0 <= j < after.len() && after[j] == '/';
            let k = before.len() + digest.len() + j;
            assert(target[k] == '/');
        }
    }
}

/// What `path` answers of a pair: each field is the pair's, and what is printed
/// is the full path alone, with the pair in a note.
pub proof fn path_answers_are_of_the_pair(pair: db::PairView)
    ensures
        store::path_answer(pair, store::Format::Json) matches store::ShownView::Json(answer)
            && answer.attr == pair.attr && answer.version == pair.version && answer.digest
            == pair.path.digest && answer.name == pair.path.name && answer.tip == pair.tip
            && answer.store_path == laws::full_path(pair.path),
        store::path_answer(pair, store::Format::Text) matches store::ShownView::Text {
            notes,
            lines,
        } && lines == seq![laws::full_path(pair.path)] && notes == seq![
            "\x1b[2m"@ + (pair.attr + " "@ + pair.version + if pair.tip {
                " (current)"@
            } else {
                ""@
            }) + "\x1b[0m"@,
        ],
{
    laws::store_paths_are_spelled_in_full(pair.path);
}

proof fn lemma_filter_count<A>(things: Seq<A>, fits: spec_fn(A) -> bool, thing: A)
    ensures
        things.filter(fits).to_multiset().count(thing) == if fits(thing) {
            things.to_multiset().count(thing)
        } else {
            0
        },
    decreases things.len(),
{
    broadcast use vstd::seq_lib::group_to_multiset_ensures;

    if things.len() == 0 {
        reveal(Seq::filter);
        assert(things.filter(fits) =~= Seq::<A>::empty());
        assert(things =~= Seq::<A>::empty());
    } else {
        let fewer = things.drop_last();
        assert(things =~= fewer.push(things.last()));
        lemma_filter_count(fewer, fits, thing);
        Seq::lemma_filter_push(fewer, things.last(), fits);
    }
}

/// Being a reference from one row id to another.
pub open spec fn being_reference(src: i64, dst: i64) -> spec_fn(db::Reference) -> bool {
    |row: db::Reference| row.src == src && row.dst == dst
}

spec fn leading_to(dst: i64) -> spec_fn(db::Reference) -> bool {
    |row: db::Reference| row.dst == dst
}

proof fn lemma_ends_count(paths: Seq<db::PathView>, refs: Seq<db::Reference>, path: db::PathView)
    ensures
        index::ends_of(paths, refs).to_multiset().count(path) == refs.filter(
            leading_to(path.id),
        ).len() * paths.to_multiset().count(path),
    decreases refs.len(),
{
    broadcast use vstd::seq_lib::group_to_multiset_ensures;

    let copies = paths.to_multiset().count(path);
    if refs.len() == 0 {
        reveal(Seq::filter);
        assert(refs.filter(leading_to(path.id)).len() == 0);
        assert(0 * copies == 0);
    } else {
        let fewer = refs.drop_last();
        let last = refs.last();
        assert(refs =~= fewer.push(last));
        lemma_ends_count(paths, fewer, path);
        let at = |row: db::PathView| row.id == refs.last().dst;
        lemma_filter_count(paths, at, path);
        Seq::lemma_filter_push(fewer, last, leading_to(path.id));
        vstd::seq_lib::lemma_multiset_commutative(index::ends_of(paths, fewer), paths.filter(at));
        let n = fewer.filter(leading_to(path.id)).len();
        assert((n + 1) * copies == n * copies + copies) by (nonlinear_arith);
    }
}

proof fn lemma_filter_twice(refs: Seq<db::Reference>, src: i64, dst: i64)
    ensures
        refs.filter(|row: db::Reference| row.src == src).filter(leading_to(dst)) == refs.filter(
            being_reference(src, dst),
        ),
    decreases refs.len(),
{
    let from = |row: db::Reference| row.src == src;
    if refs.len() == 0 {
        reveal(Seq::filter);
    } else {
        let fewer = refs.drop_last();
        let last = refs.last();
        assert(refs =~= fewer.push(last));
        lemma_filter_twice(fewer, src, dst);
        Seq::lemma_filter_push(fewer, last, from);
        Seq::lemma_filter_push(fewer, last, being_reference(src, dst));
        if from(last) {
            Seq::lemma_filter_push(fewer.filter(from), last, leading_to(dst));
        }
    }
}

/// Being a pair whose store path is as good as a path: the path itself, or
/// one of its name.
pub open spec fn being_as_good_as(ix: index::IndexView, path: db::PathView) -> spec_fn(
    db::PairView,
) -> bool {
    |pair: db::PairView| laws::is_as_good_as(ix, path, pair.path.id)
}

/// Whether the index has a pair that fits.
pub open spec fn has_pair_that(ix: index::IndexView, fits: spec_fn(db::PairView) -> bool) -> bool {
    exists|k: int| 0 <= k < ix.tables.pairs.len() && fits(#[trigger] ix.tables.pairs[k])
}

/// A pair as a label: its attribute and its version, with an `@` between.
pub open spec fn label(pair: db::PairView) -> Seq<char> {
    pair.attr + "@"@ + pair.version
}

/// Whether labels are those of the pairs that fit, once each, and come in the
/// order of attributes and then of labels.
pub open spec fn are_labels_of(
    ix: index::IndexView,
    labels: Seq<Seq<char>>,
    fits: spec_fn(db::PairView) -> bool,
) -> bool {
    &&& labels.no_duplicates()
    &&& forall|text: Seq<char>| #[trigger]
        labels.contains(text) <==> exists|k: int|
            0 <= k < ix.tables.pairs.len() && fits(#[trigger] ix.tables.pairs[k]) && label(
                ix.tables.pairs[k],
            ) == text
    &&& (forall|k: int|
        0 <= k < ix.tables.pairs.len() ==> !(#[trigger] ix.tables.pairs[k]).attr.contains('@'))
        ==> forall|i: int, j: int, a: int, b: int|
        #![trigger labels[i], labels[j], ix.tables.pairs[a], ix.tables.pairs[b]]
        0 <= i < j < labels.len() && 0 <= a < ix.tables.pairs.len() && 0 <= b
            < ix.tables.pairs.len() && fits(ix.tables.pairs[a]) && fits(ix.tables.pairs[b])
            && label(ix.tables.pairs[a]) == labels[i] && label(ix.tables.pairs[b]) == labels[j]
            ==> text::text_before(ix.tables.pairs[a].attr, ix.tables.pairs[b].attr) || (
        ix.tables.pairs[a].attr == ix.tables.pairs[b].attr && text::text_before(
            labels[i],
            labels[j],
        ))
}

proof fn lemma_labels(
    ix: index::IndexView,
    pairs: Seq<db::PairView>,
    fits: spec_fn(db::PairView) -> bool,
)
    requires
        forall|pair: db::PairView| #[trigger]
            pairs.contains(pair) <==> ix.tables.pairs.contains(pair) && fits(pair),
    ensures
        are_labels_of(ix, store::labels_of(pairs), fits),
{
    let labels = store::labels_of(pairs);
    let all = ix.tables.pairs;
    store::labels_ascend(pairs, Seq::empty());
    assert forall|text: Seq<char>| #[trigger] labels.contains(text) <==> exists|k: int|
        0 <= k < all.len() && fits(#[trigger] all[k]) && label(all[k]) == text by {
        store::labels_ascend(pairs, text);
        if labels.contains(text) {
            let w = choose|w: int|
                0 <= w < pairs.len() && store::pair_label(#[trigger] pairs[w]) == text;
            assert(pairs.contains(pairs[w]));
            let k = choose|k: int| 0 <= k < all.len() && all[k] == pairs[w];
            assert(fits(all[k]));
        }
        if exists|k: int| 0 <= k < all.len() && fits(#[trigger] all[k]) && label(all[k]) == text {
            let k = choose|k: int|
                0 <= k < all.len() && fits(#[trigger] all[k]) && label(all[k]) == text;
            assert(all.contains(all[k]));
            assert(pairs.contains(all[k]));
            let w = choose|w: int| 0 <= w < pairs.len() && pairs[w] == all[k];
            assert(store::pair_label(pairs[w]) == text);
        }
    }
    if forall|k: int| 0 <= k < all.len() ==> !(#[trigger] all[k]).attr.contains('@') {
        assert forall|w: int| 0 <= w < pairs.len() implies !(
        #[trigger] pairs[w]).attr.contains('@') by {
            assert(pairs.contains(pairs[w]));
            let k = choose|k: int| 0 <= k < all.len() && all[k] == pairs[w];
            assert(!all[k].attr.contains('@'));
        }
        assert forall|i: int, j: int, a: int, b: int|
            #![trigger labels[i], labels[j], all[a], all[b]]
            0 <= i < j < labels.len() && 0 <= a < all.len() && 0 <= b < all.len() && fits(all[a])
                && fits(all[b]) && label(all[a]) == labels[i] && label(all[b])
                == labels[j] implies text::text_before(all[a].attr, all[b].attr) || (all[a].attr
            == all[b].attr && text::text_before(labels[i], labels[j])) by {
            assert(all.contains(all[a]) && all.contains(all[b]));
            assert(pairs.contains(all[a]) && pairs.contains(all[b]));
            store::labels_come_in_attribute_order(pairs, i, j, all[a], all[b]);
        }
    }
}

/// Whether an entry tells what a reference is: the packages that built to it,
/// where there are any, else the packages that built to a path of its name,
/// else nothing.
pub open spec fn tells_the_package(ix: index::IndexView, entry: store::DepEntryView) -> bool {
    let own = laws::being_built_to(entry.path.id);
    let alike = being_as_good_as(ix, entry.path);
    if has_pair_that(ix, own) {
        entry.matched_by == Some(store::MatchedBy::Digest) && are_labels_of(
            ix,
            entry.packages,
            own,
        )
    } else if has_pair_that(ix, alike) {
        entry.matched_by == Some(store::MatchedBy::Name) && are_labels_of(
            ix,
            entry.packages,
            alike,
        )
    } else {
        entry.matched_by is None && entry.packages.len() == 0
    }
}

proof fn lemma_has_pair(
    ix: index::IndexView,
    pairs: Seq<db::PairView>,
    fits: spec_fn(db::PairView) -> bool,
)
    requires
        forall|pair: db::PairView| #[trigger]
            pairs.contains(pair) <==> ix.tables.pairs.contains(pair) && fits(pair),
    ensures
        pairs.len() > 0 <==> has_pair_that(ix, fits),
{
    let all = ix.tables.pairs;
    if pairs.len() > 0 {
        assert(pairs.contains(pairs[0]));
        let k = choose|k: int| 0 <= k < all.len() && all[k] == pairs[0];
        assert(fits(all[k]));
    }
    if has_pair_that(ix, fits) {
        let k = choose|k: int| 0 <= k < all.len() && fits(#[trigger] all[k]);
        assert(all.contains(all[k]));
        assert(pairs.contains(all[k]));
    }
}

proof fn lemma_entry(ix: index::IndexView, path: db::PathView)
    ensures
        tells_the_package(ix, store::dep_entry(path, store::tied(ix, path))),
        store::dep_entry(path, store::tied(ix, path)).path == path,
{
    let own = laws::being_built_to(path.id);
    let alike = being_as_good_as(ix, path);
    let ids = seq![path.id];
    let exact = index::pairs_by_path_ids(ix, ids);
    assert forall|pair: db::PairView| #[trigger] exact.contains(pair) <==> ix.tables.pairs.contains(
        pair,
    ) && own(pair) by {
        index::path_lookup_finds_the_pairs(ix, ids, pair);
        assert(ids[0] == path.id);
    }
    lemma_has_pair(ix, exact, own);
    if exact.len() > 0 {
        lemma_labels(ix, exact, own);
    } else {
        match path.name {
            Some(name) => {
                let named_ids = store::ids_named(ix, name);
                let named = index::pairs_by_path_ids(ix, named_ids);
                assert forall|pair: db::PairView| #[trigger]
                    named.contains(pair) <==> ix.tables.pairs.contains(pair) && alike(pair) by {
                    index::path_lookup_finds_the_pairs(ix, named_ids, pair);
                    store::named_ids_carry_the_name(ix, name, pair.path.id);
                    if ix.tables.pairs.contains(pair) && pair.path.id == path.id {
                        assert(exact.contains(pair));
                    }
                }
                lemma_has_pair(ix, named, alike);
                if named.len() > 0 {
                    lemma_labels(ix, named, alike);
                }
            },
            None => {
                if has_pair_that(ix, alike) {
                    let k = choose|k: int|
                        0 <= k < ix.tables.pairs.len() && alike(#[trigger] ix.tables.pairs[k]);
                    assert(own(ix.tables.pairs[k]));
                }
            },
        }
    }
}

/// The path of an entry.
pub open spec fn entry_path() -> spec_fn(store::DepEntryView) -> db::PathView {
    |entry: store::DepEntryView| entry.path
}

/// What `deps` answers is an entry for each reference that the pair's own path
/// holds, with the store path it points at, in the order of their names. Each
/// tells the package it is.
pub proof fn deps_list_every_reference(ix: index::IndexView, pair: db::PairView)
    ensures
        store::deps_of(ix, pair).attr == pair.attr,
        store::deps_of(ix, pair).version == pair.version,
        store::deps_of(ix, pair).store_path == laws::full_path(pair.path),
        forall|path: db::PathView| #[trigger]
            store::deps_of(ix, pair).refs.map_values(entry_path()).to_multiset().count(path)
                == ix.tables.path_refs.filter(being_reference(pair.path.id, path.id)).len()
                * ix.tables.store_paths.to_multiset().count(path),
        forall|i: int|
            0 <= i < store::deps_of(ix, pair).refs.len() ==> tells_the_package(
                ix,
                #[trigger] store::deps_of(ix, pair).refs[i],
            ),
        forall|p: int, q: int|
            0 <= p < q < store::deps_of(ix, pair).refs.len() ==> text::text_at_most(
                laws::full_path((#[trigger] store::deps_of(ix, pair).refs[p]).path),
                laws::full_path((#[trigger] store::deps_of(ix, pair).refs[q]).path),
            ),
{
    laws::store_paths_are_spelled_in_full(pair.path);
    let refs = store::deps_of(ix, pair).refs;
    let found = index::refs_of_path(ix, pair.path.id);
    let keys = found.map_values(|path: db::PathView| db::basename_of(path));
    let ranked = store::refs_by_basename(ix, pair.path.id);
    assert forall|i: int| 0 <= i < refs.len() implies tells_the_package(ix, #[trigger] refs[i])
        && refs[i].path == ranked[i] by {
        lemma_entry(ix, ranked[i]);
    }
    assert(refs.map_values(entry_path()) =~= ranked);
    order::sorting_arranges::<db::PathView, db::ByText>(found, keys);
    assert forall|path: db::PathView| #[trigger]
        refs.map_values(entry_path()).to_multiset().count(path) == ix.tables.path_refs.filter(
            being_reference(pair.path.id, path.id),
        ).len() * ix.tables.store_paths.to_multiset().count(path) by {
        let own = ix.tables.path_refs.filter(|row: db::Reference| row.src == pair.path.id);
        lemma_ends_count(ix.tables.store_paths, own, path);
        lemma_filter_twice(ix.tables.path_refs, pair.path.id, path.id);
    }
    store::listings_ascend(ix, pair.path, pair.path.id);
    assert forall|p: int, q: int| 0 <= p < q < refs.len() implies text::text_at_most(
        laws::full_path((#[trigger] refs[p]).path),
        laws::full_path((#[trigger] refs[q]).path),
    ) by {
        let a = ranked[p];
        let b = ranked[q];
        assert(refs[p].path == a && refs[q].path == b);
        laws::store_paths_are_spelled_in_full(a);
        laws::store_paths_are_spelled_in_full(b);
        lemma_shared_front("/nix/store/"@, db::basename_of(a), db::basename_of(b));
    }
}

proof fn lemma_shared_front(shared: Seq<char>, a: Seq<char>, b: Seq<char>)
    ensures
        text::text_at_most(shared + a, shared + b) == text::text_at_most(a, b),
    decreases shared.len(),
{
    if shared.len() == 0 {
        assert(shared + a =~= a);
        assert(shared + b =~= b);
    } else {
        lemma_shared_front(shared.drop_first(), a, b);
        assert((shared + a).drop_first() =~= shared.drop_first() + a);
        assert((shared + b).drop_first() =~= shared.drop_first() + b);
        assert((shared + a)[0] == shared[0]);
        assert((shared + b)[0] == shared[0]);
    }
}

/// Whether a row is the first of those that tell of a store path.
pub open spec fn is_first_info(ix: index::IndexView, id: i64, k: int) -> bool {
    &&& 0 <= k < ix.tables.path_info.len()
    &&& ix.tables.path_info[k].path_id == id
    &&& forall|j: int| 0 <= j < k ==> (#[trigger] ix.tables.path_info[j]).path_id != id
}

/// What `size` answers of a pair is what is recorded of its own path, if
/// anything is, and the outputs recorded of the derivation that the path is
/// named after, in the order of their suffixes.
pub proof fn sizes_are_those_recorded(ix: index::IndexView, pair: db::PairView)
    ensures
        store::sizes_of(ix, pair).attr == pair.attr,
        store::sizes_of(ix, pair).version == pair.version,
        store::sizes_of(ix, pair).tip == pair.tip,
        store::sizes_of(ix, pair).store_path == laws::full_path(pair.path),
        match store::sizes_of(ix, pair).details {
            Some(details) => exists|k: int| #[trigger]
                is_first_info(ix, pair.path.id, k) && ix.tables.path_info[k].details == details,
            None => forall|j: int|
                0 <= j < ix.tables.path_info.len() ==> (#[trigger] ix.tables.path_info[j]).path_id
                    != pair.path.id,
        },
        forall|out: db::SiblingView| #[trigger]
            store::sizes_of(ix, pair).outputs.contains(out) <==> (pair.path.name matches Some(name)
                && ix.tables.store_paths.contains(out.path) && ix.tables.outputs.contains(
                db::OutputRowView {
                    drv_name: name,
                    suffix: out.suffix,
                    path_id: out.path.id,
                    nar_size: out.nar_size,
                },
            )),
        forall|p: int, q: int|
            0 <= p < q < store::sizes_of(ix, pair).outputs.len() ==> text::text_at_most(
                (#[trigger] store::sizes_of(ix, pair).outputs[p]).suffix,
                (#[trigger] store::sizes_of(ix, pair).outputs[q]).suffix,
            ),
{
    laws::store_paths_are_spelled_in_full(pair.path);
    let id = pair.path.id;
    let of_path = |row: db::PathInfo| row.path_id == id;
    let infos = ix.tables.path_info;
    laws::lemma_first_where(infos, of_path);
    match rows::first_where(infos, of_path) {
        Some(row) => {
            let k = choose|k: int|
                0 <= k < infos.len() && #[trigger] infos[k] == row && of_path(row) && forall|j: int|
                    0 <= j < k ==> !of_path(#[trigger] infos[j]);
            assert forall|j: int| 0 <= j < k implies (#[trigger] infos[j]).path_id != id by {
                assert(!of_path(infos[j]));
            }
            assert(is_first_info(ix, id, k));
        },
        None => {
            assert forall|j: int| 0 <= j < infos.len() implies (#[trigger] infos[j]).path_id
                != id by {
                assert(!of_path(infos[j]));
            }
        },
    }
    let outputs = store::sizes_of(ix, pair).outputs;
    if let Some(name) = pair.path.name {
        assert forall|out: db::SiblingView| #[trigger] outputs.contains(out) <==> (
        ix.tables.store_paths.contains(out.path) && ix.tables.outputs.contains(
            db::OutputRowView {
                drv_name: name,
                suffix: out.suffix,
                path_id: out.path.id,
                nar_size: out.nar_size,
            },
        )) by {
            index::outputs_come_in_suffix_order(ix, name, out);
        }
        if outputs.len() > 0 {
            index::outputs_come_in_suffix_order(ix, name, outputs[0]);
        }
    }
}

} // verus!
