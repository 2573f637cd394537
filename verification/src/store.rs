//! `mvs path`, `size`, `deps`, `rdeps` and `identify` — the store-path
//! surface of the index.
//!
//! These answer which `/nix/store` path an (attr, version) pair built to, how
//! big it and its closure are, what it references, and what references it. All
//! of it offline: the digest is in the index, so `nix-store --realise` on the
//! printed path fetches from the binary cache with no evaluation at all.
//!
//! Every command starts with [`Index::require_store_data`], so a database
//! without store paths is refused with a sentence.
use std::collections::HashSet;

use vstd::prelude::*;
use vstd::string::*;

use crate::db;
use crate::db::{ByText, PairPath, PathDetails, Reference, SiblingOutput, StorePath};
use crate::index;
use crate::index::Index;
use crate::order;
use crate::order::{Duplicate, Ranked};
use crate::output;
use crate::output::{Cell, Table};
use crate::refusal;
use crate::refusal::Refusal;
use crate::rows;
use crate::solve;
use crate::solve::Constraint;
use crate::text;
use crate::text::{cat2, cat3};
use crate::version;

verus! {

/// The digest half of a store path basename: 32 characters of Nix base32.
pub const DIGEST_LEN: usize = 32;

/// Nix's base32 alphabet — 0-9 and lowercase letters minus e, o, u, t. A
/// candidate digest with any other character is a typo, not a digest.
pub const NIX32_ALPHABET: &'static str = "0123456789abcdfghijklmnpqrsvwxyz";

/// How a reference was tied back to an indexed package.
#[derive(Clone, Copy, PartialEq, Eq, Structural, Debug)]
pub enum MatchedBy {
    /// The reference is the exact store path an indexed pair built to.
    Digest,
    /// A path with the same store name is: the same package, built by some
    /// other revision to another digest.
    Name,
}

impl DeepView for MatchedBy {
    type V = MatchedBy;

    open spec fn deep_view(&self) -> MatchedBy {
        *self
    }
}

pub open spec fn label_of(matched: MatchedBy) -> Seq<char> {
    match matched {
        MatchedBy::Digest => "digest"@,
        MatchedBy::Name => "name"@,
    }
}

impl MatchedBy {
    pub fn label(self) -> (r: &'static str)
        ensures
            r@ == label_of(self),
    {
        match self {
            MatchedBy::Digest => "digest",
            MatchedBy::Name => "name",
        }
    }
}

/// The version of a pair.
pub open spec fn pair_version() -> spec_fn(db::PairView) -> Seq<char> {
    |pair: db::PairView| pair.version
}

/// A text that may be missing, read as characters.
pub open spec fn text_in(wanted: Option<&str>) -> Option<Seq<char>> {
    match wanted {
        Some(text) => Some(text@),
        None => None,
    }
}

/// The pairs a version spec selects: exact matches when there are any,
/// otherwise component-wise prefix matches, everything when no version was
/// given.
pub fn matching_pairs(pairs: Vec<PairPath>, wanted: Option<&str>) -> (r: Vec<PairPath>)
    ensures
        r.deep_view() == solve::selected(pairs.deep_view(), pair_version(), text_in(wanted)),
{
    match wanted {
        None => pairs,
        Some(wanted) => {
            let version: String = wanted.to_string();
            let exact: Vec<PairPath> = rows::select(
                &pairs,
                |pair: &PairPath| -> (b: bool)
                    ensures
                        b == (pair.deep_view().version == wanted@)
                    { pair.version == version },
                Ghost(solve::being_at(pair_version(), wanted@)),
            );
            assert(exact.len() == exact.deep_view().len());
            if exact.len() > 0 {
                exact
            } else {
                rows::select(
                    &pairs,
                    |pair: &PairPath| -> (b: bool)
                        ensures
                            b == solve::is_match(pair.deep_view().version, wanted@)
                        { solve::matches(pair.version.as_str(), wanted) },
                    Ghost(solve::being_like(pair_version(), wanted@)),
                )
            }
        },
    }
}

/// What candidates are chosen by: being current at the tip, then the version.
pub struct ByTip {
    pub tip: bool,
    pub version: String,
}

impl DeepView for ByTip {
    type V = (bool, Seq<char>);

    open spec fn deep_view(&self) -> (bool, Seq<char>) {
        (self.tip, self.version@)
    }
}

impl Ranked for ByTip {
    open spec fn at_most(a: (bool, Seq<char>), b: (bool, Seq<char>)) -> bool {
        (!a.0 && b.0) || (a.0 == b.0 && version::at_most(a.1, b.1))
    }

    proof fn rank_is_total(a: (bool, Seq<char>), b: (bool, Seq<char>)) {
        version::versions_are_ranked(a.1, b.1);
    }

    proof fn rank_is_transitive(a: (bool, Seq<char>), b: (bool, Seq<char>), c: (bool, Seq<char>)) {
        if a.0 == b.0 && b.0 == c.0 {
            version::version_order_is_transitive(a.1, b.1, c.1);
        }
    }

    fn is_at_most(&self, other: &Self) -> (r: bool) {
        (!self.tip && other.tip) || (self.tip == other.tip && version::is_at_most(
            self.version.as_str(),
            other.version.as_str(),
        ))
    }
}

pub open spec fn tip_keys(pairs: Seq<db::PairView>) -> Seq<(bool, Seq<char>)> {
    pairs.map_values(|pair: db::PairView| (pair.tip, pair.version))
}

/// The pair that comes last when candidates are sorted by being current, then
/// by version.
pub open spec fn chosen(candidates: Seq<db::PairView>) -> db::PairView {
    order::sorted_by::<db::PairView, ByTip>(candidates, tip_keys(candidates)).last()
}

/// One pair out of several candidates: the tip pair if any, else the newest
/// version.
pub fn choose_pair(candidates: Vec<PairPath>) -> (r: PairPath)
    requires
        candidates.len() > 0,
    ensures
        r.deep_view() == chosen(candidates.deep_view()),
{
    let keys: Vec<ByTip> = rows::map_rows(
        &candidates,
        |pair: &PairPath| -> (key: ByTip)
            ensures
                key.deep_view() == (pair.deep_view().tip, pair.deep_view().version)
            { ByTip { tip: pair.tip, version: pair.version.clone() } },
        Ghost(|pair: db::PairView| (pair.tip, pair.version)),
    );
    let ranked: Vec<PairPath> = order::sort_by_keys(&candidates, &keys);
    proof {
        order::sorting_arranges::<db::PairView, ByTip>(
            candidates.deep_view(),
            tip_keys(candidates.deep_view()),
        );
        assert(ranked.deep_view().len() == ranked.len());
    }
    let last: usize = ranked.len() - 1;
    assert(ranked.deep_view().last() == ranked@[last as int].deep_view());
    ranked[last].duplicate()
}

/// The chosen pair is one of the candidates. A current pair is chosen over any
/// that is not, and among those alike in that, no candidate has a newer
/// version.
pub proof fn tip_is_chosen_then_the_newest(candidates: Seq<db::PairView>)
    requires
        candidates.len() > 0,
    ensures
        candidates.contains(chosen(candidates)),
        forall|i: int|
            0 <= i < candidates.len() ==> {
                &&& (#[trigger] candidates[i]).tip ==> chosen(candidates).tip
                &&& candidates[i].tip == chosen(candidates).tip ==> version::at_most(
                    candidates[i].version,
                    chosen(candidates).version,
                )
            },
{
    let keys = tip_keys(candidates);
    order::sorted_order_exists::<ByTip>(keys);
    let o = order::order_of::<ByTip>(keys);
    let last = o.len() - 1;
    assert(0 <= o[last] < keys.len());
    assert(chosen(candidates) == candidates[o[last]]);
    assert forall|i: int| 0 <= i < candidates.len() implies ByTip::at_most(
        keys[i],
        keys[o[last]],
    ) by {
        assert(o.contains(i));
        let p = choose|p: int| 0 <= p < o.len() && o[p] == i;
        if p < last {
            assert(order::goes_before::<ByTip>(keys, o[p], o[last]));
        } else {
            ByTip::rank_is_total(keys[i], keys[i]);
        }
    }
    assert forall|i: int| 0 <= i < candidates.len() implies {
        &&& (#[trigger] candidates[i]).tip ==> chosen(candidates).tip
        &&& candidates[i].tip == chosen(candidates).tip ==> version::at_most(
            candidates[i].version,
            chosen(candidates).version,
        )
    } by {
        assert(ByTip::at_most(keys[i], keys[o[last]]));
    }
}

/// The pair a spec stands for, or why there is none: an attribute the index
/// never saw, one it has no store path for, or a version it has none for.
pub open spec fn resolved(ix: index::IndexView, spec: Seq<char>) -> Result<
    db::PairView,
    refusal::RefusalView,
> {
    match solve::parsed(spec) {
        Err(e) => Err(e),
        Ok(constraint) => {
            let pairs = index::store_pairs_of(ix, constraint.attr);
            let candidates = solve::selected(pairs, pair_version(), constraint.version);
            if pairs.len() == 0 {
                if index::runs_of(ix, constraint.attr).len() == 0 {
                    Err(refusal::RefusalView::UnknownAttr { attr: constraint.attr })
                } else {
                    Err(refusal::RefusalView::NoStorePath { attr: constraint.attr })
                }
            } else if candidates.len() == 0 {
                Err(
                    refusal::RefusalView::NoIndexedVersion {
                        wanted: solve::described(constraint),
                        known: version::oldest_first(
                            pairs.map_values(|pair: db::PairView| pair.version),
                        ),
                    },
                )
            } else {
                Ok(chosen(candidates))
            }
        },
    }
}

/// Resolve `attr[@version]` to the one pair the store commands act on.
///
/// The version is matched exactly first, then as a component-wise prefix, and
/// when several versions qualify, the pair current at the index tip wins, then
/// the newest version.
pub fn resolve_pair(index: &Index, spec: &str) -> (r: Result<PairPath, Refusal>)
    ensures
        refusal::agrees(r, resolved(index@, spec@)),
{
    let constraint: Constraint = match Constraint::parse(spec) {
        Ok(constraint) => constraint,
        Err(e) => return Err(e),
    };
    let pairs: Vec<PairPath> = index.store_pairs_of(constraint.attr.as_str());
    assert(pairs.len() == pairs.deep_view().len());
    if pairs.len() == 0 {
        let runs: Vec<db::Run> = index.runs_of(constraint.attr.as_str());
        assert(runs.len() == runs.deep_view().len());
        if runs.len() == 0 {
            return Err(Refusal::UnknownAttr { attr: constraint.attr });
        }
        return Err(Refusal::NoStorePath { attr: constraint.attr });
    }
    let mut known: Vec<String> = rows::map_rows(
        &pairs,
        |pair: &PairPath| -> (version: String)
            ensures
                version.deep_view() == pair.deep_view().version
            { pair.version.clone() },
        Ghost(|pair: db::PairView| pair.version),
    );
    let wanted: Option<&str> = match &constraint.version {
        Some(version) => Some(version.as_str()),
        None => None,
    };
    let candidates: Vec<PairPath> = matching_pairs(pairs, wanted);
    assert(candidates.len() == candidates.deep_view().len());
    if candidates.len() == 0 {
        version::sort(&mut known);
        return Err(Refusal::NoIndexedVersion { wanted: constraint.describe(), known });
    }
    Ok(choose_pair(candidates))
}

/// What stands behind a version that is current at the tip.
pub open spec fn state_of(tip: bool) -> Seq<char> {
    if tip {
        " (current)"@
    } else {
        ""@
    }
}

pub(crate) fn state_text(tip: bool) -> (r: &'static str)
    ensures
        r@ == state_of(tip),
{
    if tip {
        " (current)"
    } else {
        ""
    }
}

/// Where a derivation name splits: the first dash that is followed by a digit.
pub open spec fn is_split(name: Seq<char>, i: int) -> bool {
    0 <= i < name.len() - 1 && name[i] == '-' && text::is_digit(name[i + 1])
}

/// The pname half of a derivation name: everything before the first dash that
/// is followed by a digit, which is how Nix itself splits one.
pub open spec fn pname_in(name: Seq<char>) -> Seq<char> {
    if exists|i: int| is_split(name, i) {
        name.take(
            choose|i: int| is_split(name, i) && forall|j: int| is_split(name, j) ==> i <= j,
        )
    } else {
        name
    }
}

/// The pname half of a derivation name: everything before the first dash that
/// is followed by a digit, which is how Nix itself splits one.
pub fn pname_of(name: &str) -> (r: &str)
    ensures
        r@ == pname_in(name@),
{
    let chars: Vec<char> = text::chars_of(name);
    let mut i: usize = 0;
    while i < chars.len() && i + 1 < chars.len()
        invariant
            chars@ == name@,
            i <= chars.len(),
            forall|j: int| 0 <= j < i ==> !is_split(name@, j),
        decreases chars.len() - i,
    {
        if chars[i] == '-' && text::is_digit_char(chars[i + 1]) {
            proof {
                assert(is_split(name@, i as int));
                let k = choose|k: int|
                    is_split(name@, k) && forall|j: int| is_split(name@, j) ==> k <= j;
                assert(forall|j: int| is_split(name@, j) ==> i <= j);
                assert(k == i);
            }
            return name.substring_char(0, i);
        }
        i = i + 1;
    }
    name
}

/// A pname is how its derivation name begins, and holds no dash followed by a
/// digit; what is left of the name is nothing, or begins with one.
pub proof fn pname_opens_the_name(name: Seq<char>)
    ensures
        pname_in(name).is_prefix_of(name),
        pname_in(name) == name || is_split(name, pname_in(name).len() as int),
        forall|j: int| !is_split(pname_in(name), j),
{
    if exists|i: int| is_split(name, i) {
        let some = choose|i: int| is_split(name, i);
        let first = lemma_first_split(name, some);
        let i = choose|i: int| is_split(name, i) && forall|j: int| is_split(name, j) ==> i <= j;
        assert(is_split(name, i) && forall|j: int| is_split(name, j) ==> i <= j);
        let pname = name.take(i);
        assert forall|j: int| !is_split(pname, j) by {
            if is_split(pname, j) {
                assert(is_split(name, j));
            }
        }
    } else {
        assert(name =~= name.take(name.len() as int));
    }
}

proof fn lemma_first_split(name: Seq<char>, some: int) -> (first: int)
    requires
        is_split(name, some),
    ensures
        is_split(name, first),
        forall|j: int| is_split(name, j) ==> first <= j,
    decreases some,
{
    if exists|j: int| is_split(name, j) && j < some {
        let j = choose|j: int| is_split(name, j) && j < some;
        lemma_first_split(name, j)
    } else {
        some
    }
}

/// What `mvs run` and `mvs shell` need to take the fast road: the store path
/// to substitute, and the names to report and to look for under `bin/`.
#[derive(Debug, Clone)]
pub struct Target {
    pub attr: String,
    pub version: String,
    pub store_path: String,
    /// The derivation's pname, which is the other plausible spelling of the
    /// program when it differs from the attribute.
    pub pname: Option<String>,
    pub tip: bool,
}

pub struct TargetView {
    pub attr: Seq<char>,
    pub version: Seq<char>,
    pub store_path: Seq<char>,
    pub pname: Option<Seq<char>>,
    pub tip: bool,
}

impl DeepView for Target {
    type V = TargetView;

    open spec fn deep_view(&self) -> TargetView {
        TargetView {
            attr: self.attr@,
            version: self.version@,
            store_path: self.store_path@,
            pname: self.pname.deep_view(),
            tip: self.tip,
        }
    }
}

pub open spec fn target_of(pair: db::PairView) -> TargetView {
    TargetView {
        attr: pair.attr,
        version: pair.version,
        store_path: db::store_path_of(pair.path),
        pname: match pair.path.name {
            Some(name) => Some(pname_in(name)),
            None => None,
        },
        tip: pair.tip,
    }
}

/// The indexed store path a spec stands for, refused just as the store
/// commands refuse it.
pub open spec fn targeted(ix: index::IndexView, spec: Seq<char>) -> Result<
    TargetView,
    refusal::RefusalView,
> {
    match guarded(ix, spec) {
        Ok(pair) => Ok(target_of(pair)),
        Err(e) => Err(e),
    }
}

/// Resolve a spec to its indexed store path, for callers that execute rather
/// than print. Refuses exactly as the store commands do.
pub fn target(index: &Index, spec: &str) -> (r: Result<Target, Refusal>)
    ensures
        refusal::agrees(r, targeted(index@, spec@)),
{
    match guard_and_resolve(index, spec) {
        Ok(pair) => {
            let pname: Option<String> = match &pair.path.name {
                Some(name) => Some(pname_of(name.as_str()).to_string()),
                None => None,
            };
            let store_path: String = pair.path.store_path();
            Ok(Target { attr: pair.attr, version: pair.version, store_path, pname, tip: pair.tip })
        },
        Err(e) => Err(e),
    }
}

/// Whether a text is a digest: the right number of characters, all of them
/// of Nix's base32 alphabet.
pub open spec fn is_digest(s: Seq<char>) -> bool {
    &&& s.len() == DIGEST_LEN
    &&& forall|i: int| 0 <= i < s.len() ==> NIX32_ALPHABET@.contains(#[trigger] s[i])
}

/// The alphabet is the digits and the lowercase letters, without e, o, u and t.
pub proof fn alphabet_leaves_out_four_letters(c: char)
    ensures
        NIX32_ALPHABET@.contains(c) <==> ('0' <= c <= '9' || 'a' <= c <= 'z') && c != 'e' && c != 'o'
            && c != 'u' && c != 't',
{
    reveal_strlit("0123456789abcdfghijklmnpqrsvwxyz");
    let all = NIX32_ALPHABET@;
    assert(all.len() == 32);
    if ('0' <= c <= '9' || 'a' <= c <= 'z') && c != 'e' && c != 'o' && c != 'u' && c != 't' {
        let place: int = if c <= '9' {
            c as int - '0' as int
        } else if c <= 'd' {
            c as int - 'a' as int + 10
        } else if c <= 'n' {
            c as int - 'a' as int + 9
        } else if c <= 's' {
            c as int - 'a' as int + 8
        } else {
            c as int - 'a' as int + 6
        };
        assert(all[place] == c);
    }
}

/// The digest part of a store path spelled any accepted way: what comes before
/// the first dash of what comes after the last slash.
pub open spec fn digest_part(target: Seq<char>) -> Seq<char> {
    text::before_first(text::after_last(target, '/'), '-')
}

/// The digest inside a store path spelled any accepted way, or the refusal of
/// what is none.
pub open spec fn digest_in(target: Seq<char>) -> Result<Seq<char>, refusal::RefusalView> {
    if is_digest(digest_part(target)) {
        Ok(digest_part(target))
    } else {
        Err(refusal::RefusalView::NotAStorePath { target })
    }
}

fn is_digest_text(s: &str) -> (r: bool)
    ensures
        r == is_digest(s@),
{
    let chars: Vec<char> = text::chars_of(s);
    let alphabet: Vec<char> = text::chars_of(NIX32_ALPHABET);
    if chars.len() != DIGEST_LEN {
        return false;
    }
    let mut i: usize = 0;
    while i < chars.len()
        invariant
            chars@ == s@,
            alphabet@ == NIX32_ALPHABET@,
            i <= chars.len(),
            forall|j: int| 0 <= j < i ==> NIX32_ALPHABET@.contains(#[trigger] s@[j]),
        decreases chars.len() - i,
    {
        let found: Option<usize> = text::position_of(&alphabet, chars[i]);
        proof {
            alphabet@.index_of_first_ensures(s@[i as int]);
        }
        if found.is_none() {
            assert(!NIX32_ALPHABET@.contains(s@[i as int]));
            return false;
        }
        i = i + 1;
    }
    true
}

/// The digest inside a store path spelled any accepted way: a full
/// `/nix/store/…` path, a basename, or a bare 32-character digest.
pub fn digest_of(target: &str) -> (r: Result<String, Refusal>)
    ensures
        refusal::agrees(r, digest_in(target@)),
{
    let basename: &str = text::tail_after(target, '/');
    let digest: &str = text::head_before(basename, '-');
    if is_digest_text(digest) {
        Ok(digest.to_string())
    } else {
        Err(Refusal::NotAStorePath { target: target.to_string() })
    }
}

/// The three spellings of a store path — the bare digest, the basename and the
/// full path — give the same digest.
pub proof fn spellings_agree(path: db::PathView)
    requires
        is_digest(path.digest),
        path.name matches Some(name) ==> !name.contains('/'),
    ensures
        digest_in(path.digest) == Ok::<Seq<char>, refusal::RefusalView>(path.digest),
        digest_in(db::basename_of(path)) == Ok::<Seq<char>, refusal::RefusalView>(path.digest),
        digest_in(db::store_path_of(path)) == Ok::<Seq<char>, refusal::RefusalView>(path.digest),
{
    let d = path.digest;
    let base = db::basename_of(path);
    let full = db::store_path_of(path);
    reveal_strlit("-");
    reveal_strlit("/");
    reveal_strlit("/nix/store");
    assert forall|i: int| 0 <= i < d.len() implies d[i] != '/' && d[i] != '-' by {
        alphabet_leaves_out_four_letters(d[i]);
    }
    assert(!base.contains('/')) by {
        if base.contains('/') {
            let i = choose|i: int| 0 <= i < base.len() && base[i] == '/';
            if i > d.len() {
                assert(path.name->0[i - d.len() - 1] == '/');
                assert(path.name->0.contains('/'));
            }
        }
    }
    lemma_head_is_the_digest(d, d);
    lemma_head_is_the_digest(base, d);
    d.index_of_last_ensures('/');
    base.index_of_last_ensures('/');
    full.index_of_last_ensures('/');
    assert(!d.contains('/'));
    let dir = db::STORE_DIR@ + "/"@;
    assert(full[dir.len() - 1] == '/');
    assert(full.contains('/'));
    let i = full.index_of_last('/')->0;
    if i > dir.len() - 1 {
        assert(base[i - dir.len()] == '/');
        assert(base.contains('/'));
    }
    assert(full.skip(i + 1) =~= base);
}

proof fn lemma_head_is_the_digest(s: Seq<char>, digest: Seq<char>)
    requires
        digest.is_prefix_of(s),
        s.len() > digest.len() ==> s[digest.len() as int] == '-',
        forall|i: int| 0 <= i < digest.len() ==> digest[i] != '-',
    ensures
        text::before_first(s, '-') == digest,
{
    s.index_of_first_ensures('-');
    assert forall|i: int| 0 <= i < digest.len() implies s[i] == digest[i] by {
        assert(s.take(digest.len() as int)[i] == digest[i]);
    }
    if s.len() == digest.len() {
        assert(s =~= digest);
        if s.contains('-') {
            let i = choose|i: int| 0 <= i < s.len() && s[i] == '-';
            assert(digest[i] == '-');
        }
    } else {
        assert(s.contains('-'));
        let i = s.index_of_first('-')->0;
        assert(i == digest.len());
        assert(s.take(i) =~= digest);
    }
}

/// An answer: the facts for a caller that wants them as data, or what to
/// print.
#[derive(Debug, Clone)]
pub enum Shown<T> {
    Json(T),
    Text(Printed),
}

/// What to print: notes beside the answer, and the answer itself.
#[derive(Debug, Clone)]
pub struct Printed {
    pub notes: Vec<String>,
    pub lines: Vec<String>,
}

pub enum ShownView<T> {
    Json(T),
    Text { notes: Seq<Seq<char>>, lines: Seq<Seq<char>> },
}

impl<T: DeepView> DeepView for Shown<T> {
    type V = ShownView<T::V>;

    open spec fn deep_view(&self) -> ShownView<T::V> {
        match *self {
            Shown::Json(answer) => ShownView::Json(answer.deep_view()),
            Shown::Text(printed) => ShownView::Text {
                notes: printed.notes.deep_view(),
                lines: printed.lines.deep_view(),
            },
        }
    }
}

/// Which kind of answer is wanted.
#[derive(Clone, Copy, PartialEq, Eq, Structural, Debug)]
pub enum Format {
    Text,
    Json,
}

/// What `mvs path` answers.
#[derive(Debug, Clone)]
pub struct PathAnswer {
    pub attr: String,
    pub version: String,
    pub digest: String,
    pub name: Option<String>,
    pub store_path: String,
    pub tip: bool,
}

pub struct PathAnswerView {
    pub attr: Seq<char>,
    pub version: Seq<char>,
    pub digest: Seq<char>,
    pub name: Option<Seq<char>>,
    pub store_path: Seq<char>,
    pub tip: bool,
}

impl DeepView for PathAnswer {
    type V = PathAnswerView;

    open spec fn deep_view(&self) -> PathAnswerView {
        PathAnswerView {
            attr: self.attr@,
            version: self.version@,
            digest: self.digest@,
            name: self.name.deep_view(),
            store_path: self.store_path@,
            tip: self.tip,
        }
    }
}

/// What a pair resolved to, as a note beside the answer.
pub open spec fn note_of(pair: db::PairView) -> Seq<char> {
    output::painted(
        pair.attr + " "@ + pair.version + state_of(pair.tip),
        output::Style::Dimmed,
    )
}

/// What a pair resolved to, as a note beside the answer so the answer stays
/// alone — `mvs path` output feeds command substitution.
fn report(pair: &PairPath) -> (r: String)
    ensures
        r@ == note_of(pair.deep_view()),
{
    let mut line: String = cat3(pair.attr.as_str(), " ", pair.version.as_str());
    line.append(state_text(pair.tip));
    output::paint(line.as_str(), output::muted())
}

/// What `mvs path` answers of a pair.
pub open spec fn path_answer(pair: db::PairView, format: Format) -> ShownView<PathAnswerView> {
    if format == Format::Json {
        ShownView::Json(
            PathAnswerView {
                attr: pair.attr,
                version: pair.version,
                digest: pair.path.digest,
                name: pair.path.name,
                store_path: db::store_path_of(pair.path),
                tip: pair.tip,
            },
        )
    } else {
        ShownView::Text {
            notes: seq![note_of(pair)],
            lines: seq![db::store_path_of(pair.path)],
        }
    }
}

/// The pair a store command acts on. A database without store data is refused
/// before anything else.
pub open spec fn guarded(ix: index::IndexView, spec: Seq<char>) -> Result<
    db::PairView,
    refusal::RefusalView,
> {
    if index::has_store_data(ix) {
        resolved(ix, spec)
    } else {
        Err(refusal::RefusalView::NoStoreData)
    }
}

fn guard_and_resolve(index: &Index, spec: &str) -> (r: Result<PairPath, Refusal>)
    ensures
        refusal::agrees(r, guarded(index@, spec@)),
{
    match index.require_store_data() {
        Ok(_) => resolve_pair(index, spec),
        Err(e) => Err(e),
    }
}

/// `mvs path <attr>[@version]` — the bare `/nix/store` path.
pub fn path(index: &Index, spec: &str, format: Format) -> (r: Result<Shown<PathAnswer>, Refusal>)
    ensures
        refusal::agrees(
            r,
            match guarded(index@, spec@) {
                Ok(pair) => Ok(path_answer(pair, format)),
                Err(e) => Err(e),
            },
        ),
{
    let pair: PairPath = match guard_and_resolve(index, spec) {
        Ok(pair) => pair,
        Err(e) => return Err(e),
    };
    let store_path: String = pair.path.store_path();
    match format {
        Format::Json => Ok(
            Shown::Json(
                PathAnswer {
                    attr: pair.attr,
                    version: pair.version,
                    digest: pair.path.digest,
                    name: pair.path.name,
                    store_path,
                    tip: pair.tip,
                },
            ),
        ),
        Format::Text => {
            let notes: Vec<String> = vec![report(&pair)];
            let lines: Vec<String> = vec![store_path];
            assert(notes.deep_view() =~= seq![note_of(pair.deep_view())]);
            assert(lines.deep_view() =~= seq![store_path@]);
            Ok(Shown::Text(Printed { notes, lines }))
        },
    }
}

/// What `mvs size` answers.
#[derive(Debug, Clone)]
pub struct SizeAnswer {
    pub attr: String,
    pub version: String,
    pub store_path: String,
    pub tip: bool,
    pub details: Option<PathDetails>,
    pub outputs: Vec<SiblingOutput>,
}

pub struct SizeAnswerView {
    pub attr: Seq<char>,
    pub version: Seq<char>,
    pub store_path: Seq<char>,
    pub tip: bool,
    pub details: Option<PathDetails>,
    pub outputs: Seq<db::SiblingView>,
}

impl DeepView for SizeAnswer {
    type V = SizeAnswerView;

    open spec fn deep_view(&self) -> SizeAnswerView {
        SizeAnswerView {
            attr: self.attr@,
            version: self.version@,
            store_path: self.store_path@,
            tip: self.tip,
            details: self.details,
            outputs: self.outputs.deep_view(),
        }
    }
}

/// The sizes of a pair: what the cache knows of its path, and the sibling
/// outputs that hang off the path's name.
pub open spec fn sizes_of(ix: index::IndexView, pair: db::PairView) -> SizeAnswerView {
    SizeAnswerView {
        attr: pair.attr,
        version: pair.version,
        store_path: db::store_path_of(pair.path),
        tip: pair.tip,
        details: index::path_details(ix, pair.path.id),
        outputs: match pair.path.name {
            Some(name) => index::outputs_of(ix, name),
            None => Seq::empty(),
        },
    }
}

/// A size for a human, "unknown" where nothing was recorded — absence is an
/// answer here, not something to hide.
pub open spec fn size_shown(size: Option<i64>) -> Seq<char> {
    match size {
        Some(n) => output::bytes_shown(n as int),
        None => "unknown"@,
    }
}

fn size_text(size: Option<i64>) -> (r: String)
    ensures
        r@ == size_shown(size),
{
    match size {
        Some(n) => output::bytes(n),
        None => "unknown".to_string(),
    }
}

/// A count out of a signed column. A negative number, which no column should
/// hold, reads as the unsigned number of the same bits.
pub open spec fn count_in(n: i64) -> nat {
    if n >= 0 {
        n as nat
    } else {
        (n + 0x1_0000_0000_0000_0000) as nat
    }
}

fn count_of(n: i64) -> (r: u64)
    ensures
        r == count_in(n),
{
    if n >= 0 {
        n as u64
    } else {
        (n as i128 + 0x1_0000_0000_0000_0000) as u64
    }
}

pub open spec fn closure_line(details: PathDetails) -> Seq<char> {
    match (details.closure_bytes, details.closure_paths) {
        (Some(bytes), Some(paths)) => {
            let line = "  closure         "@ + output::bytes_shown(bytes as int) + " · "@
                + output::counted(count_in(paths), "path"@);
            match details.closure_dead {
                Some(dead) => if dead > 0 {
                    line + " ("@ + text::signed_decimal(dead as int) + " no longer cached)"@
                } else {
                    line
                },
                None => line,
            }
        },
        _ => "  closure         "@ + "unknown"@,
    }
}

fn show_closure(details: &PathDetails) -> (r: String)
    ensures
        r@ == closure_line(*details),
{
    match (details.closure_bytes, details.closure_paths) {
        (Some(bytes), Some(paths)) => {
            let mut line: String = cat3(
                "  closure         ",
                output::bytes(bytes).as_str(),
                " · ",
            );
            line.append(output::count_text(count_of(paths), "path").as_str());
            match details.closure_dead {
                Some(dead) => {
                    if dead > 0 {
                        line.append(" (");
                        line.append(text::signed_text(dead).as_str());
                        line.append(" no longer cached)");
                    }
                },
                None => {},
            }
            line
        },
        _ => cat2("  closure         ", "unknown"),
    }
}

pub open spec fn cache_line(details: PathDetails) -> Seq<char> {
    "  cache           "@ + match details.live {
        Some(true) => output::painted("live"@, output::Style::Green),
        Some(false) => output::painted("no longer downloadable"@, output::Style::Red),
        None => "unknown"@,
    }
}

fn show_cache(details: &PathDetails) -> (r: String)
    ensures
        r@ == cache_line(*details),
{
    let state: String = match details.live {
        Some(true) => output::paint("live", output::current()),
        Some(false) => output::paint("no longer downloadable", output::ended()),
        None => "unknown".to_string(),
    };
    cat2("  cache           ", state.as_str())
}

pub open spec fn output_row(out: db::SiblingView) -> Seq<output::CellView> {
    seq![
        output::CellView { text: out.suffix, style: output::Style::Plain },
        output::CellView { text: size_shown(out.nar_size), style: output::Style::Dimmed },
        output::CellView { text: db::store_path_of(out.path), style: output::Style::Dimmed },
    ]
}

pub open spec fn outputs_table(outputs: Seq<db::SiblingView>) -> output::TableView {
    output::TableView {
        headers: seq!["SUFFIX"@, "NAR"@, "STORE PATH"@],
        rows: outputs.map_values(|out: db::SiblingView| output_row(out)),
    }
}

fn show_outputs(outputs: &Vec<SiblingOutput>) -> (r: Vec<String>)
    ensures
        r.deep_view() == output::lines_of(outputs_table(outputs.deep_view())),
{
    let mut table: Table = Table::new(&["SUFFIX", "NAR", "STORE PATH"]);
    let ghost all = outputs_table(outputs.deep_view());
    assert(table@.headers =~= all.headers);
    assert(table@.rows =~= all.rows.take(0));
    let mut i: usize = 0;
    while i < outputs.len()
        invariant
            i <= outputs.len(),
            all == outputs_table(outputs.deep_view()),
            table@.headers == all.headers,
            table@.rows == all.rows.take(i as int),
            table@.well_formed(),
        decreases outputs.len() - i,
    {
        let out: &SiblingOutput = &outputs[i];
        let cells: Vec<Cell> = vec![
            Cell::new(out.suffix.clone(), output::plain()),
            Cell::new(size_text(out.nar_size), output::muted()),
            Cell::new(out.path.store_path(), output::muted()),
        ];
        assert(outputs.deep_view()[i as int] == out.deep_view());
        assert(cells.deep_view() =~= output_row(out.deep_view()));
        table.row(cells);
        assert(table@.rows =~= all.rows.take(i + 1));
        i = i + 1;
    }
    assert(all.rows.take(i as int) =~= all.rows);
    assert(table@ == all);
    table.print()
}

/// What `mvs size` prints: a line per fact, and a table of the sibling outputs
/// when there are any.
pub open spec fn size_lines(answer: SizeAnswerView) -> Seq<Seq<char>> {
    let head = answer.attr + " "@ + answer.version + " · "@ + answer.store_path;
    match answer.details {
        None => seq![
            head,
            output::painted("  no cache data recorded for this path"@, output::Style::Dimmed),
        ],
        Some(details) => {
            let facts = seq![
                head,
                "  nar (unpacked)  "@ + size_shown(details.nar_size),
                "  download        "@ + size_shown(details.file_size),
                closure_line(details),
                cache_line(details),
            ];
            if answer.outputs.len() == 0 {
                facts
            } else {
                facts + seq![""@, output::painted("outputs"@, output::Style::Bold)]
                    + output::lines_of(outputs_table(answer.outputs))
            }
        },
    }
}

fn show_size(answer: &SizeAnswer) -> (r: Vec<String>)
    ensures
        r.deep_view() == size_lines(answer.deep_view()),
{
    let mut head: String = cat3(answer.attr.as_str(), " ", answer.version.as_str());
    head.append(" · ");
    head.append(answer.store_path.as_str());
    match &answer.details {
        None => {
            let lines: Vec<String> = vec![
                head,
                output::paint("  no cache data recorded for this path", output::muted()),
            ];
            assert(lines.deep_view() =~= size_lines(answer.deep_view()));
            lines
        },
        Some(details) => {
            let mut lines: Vec<String> = vec![
                head,
                cat2("  nar (unpacked)  ", size_text(details.nar_size).as_str()),
                cat2("  download        ", size_text(details.file_size).as_str()),
                show_closure(details),
                show_cache(details),
            ];
            let ghost facts = lines.deep_view();
            assert(answer.outputs.len() == answer.outputs.deep_view().len());
            if answer.outputs.len() > 0 {
                lines.push("".to_string());
                lines.push(output::paint("outputs", output::header_style()));
                assert(lines.deep_view() =~= facts + seq![
                    ""@,
                    output::painted("outputs"@, output::Style::Bold),
                ]);
                let table: Vec<String> = show_outputs(&answer.outputs);
                rows::extend_rows(&mut lines, &table);
            }
            assert(facts =~= seq![
                answer.attr@ + " "@ + answer.version@ + " · "@ + answer.store_path@,
                "  nar (unpacked)  "@ + size_shown(details.nar_size),
                "  download        "@ + size_shown(details.file_size),
                closure_line(*details),
                cache_line(*details),
            ]);
            lines
        },
    }
}

/// An answer in the format it is wanted in.
pub open spec fn shown<T>(answer: T, lines: Seq<Seq<char>>, format: Format) -> ShownView<T> {
    if format == Format::Json {
        ShownView::Json(answer)
    } else {
        ShownView::Text { notes: Seq::empty(), lines }
    }
}

fn print_only(lines: Vec<String>) -> (r: Printed)
    ensures
        r.notes.deep_view() == Seq::<Seq<char>>::empty(),
        r.lines.deep_view() == lines.deep_view(),
{
    let notes: Vec<String> = Vec::new();
    assert(notes.deep_view() =~= Seq::<Seq<char>>::empty());
    Printed { notes, lines }
}

/// `mvs size <attr>[@version]` — NAR, download and closure sizes.
pub fn size(index: &Index, spec: &str, format: Format) -> (r: Result<Shown<SizeAnswer>, Refusal>)
    ensures
        refusal::agrees(
            r,
            match guarded(index@, spec@) {
                Ok(pair) => Ok(
                    shown(sizes_of(index@, pair), size_lines(sizes_of(index@, pair)), format),
                ),
                Err(e) => Err(e),
            },
        ),
{
    let pair: PairPath = match guard_and_resolve(index, spec) {
        Ok(pair) => pair,
        Err(e) => return Err(e),
    };
    let details: Option<PathDetails> = index.path_details(pair.path.id);
    let outputs: Vec<SiblingOutput> = match &pair.path.name {
        Some(name) => index.outputs_of(name.as_str()),
        None => {
            let none: Vec<SiblingOutput> = Vec::new();
            assert(none.deep_view() =~= Seq::<db::SiblingView>::empty());
            none
        },
    };
    let store_path: String = pair.path.store_path();
    let answer: SizeAnswer = SizeAnswer {
        attr: pair.attr,
        version: pair.version,
        store_path,
        tip: pair.tip,
        details,
        outputs,
    };
    match format {
        Format::Json => Ok(Shown::Json(answer)),
        Format::Text => Ok(Shown::Text(print_only(show_size(&answer)))),
    }
}

/// The ids a store name stands for.
pub open spec fn ids_named(ix: index::IndexView, name: Seq<char>) -> Seq<i64> {
    index::store_path_ids_named(ix, seq![name]).map_values(|entry: (i64, Seq<char>)| entry.0)
}

fn list_ids_named(index: &Index, name: &String) -> (r: Vec<i64>)
    ensures
        r@ == ids_named(index@, name@),
{
    let names: Vec<String> = vec![name.clone()];
    assert(names.deep_view() =~= seq![name@]);
    let found: Vec<(i64, String)> = index.store_path_ids_named(&names);
    let ids: Vec<i64> = rows::map_rows(
        &found,
        |entry: &(i64, String)| -> (id: i64)
            ensures
                id.deep_view() == entry.deep_view().0
            { entry.0 },
        Ghost(|entry: (i64, Seq<char>)| entry.0),
    );
    assert(ids.deep_view() =~= ids@);
    ids
}

/// The pairs a reference is tied back to, and how: by digest where the exact
/// path is some pair's, then by store name for the same package out of another
/// revision.
pub open spec fn tied(ix: index::IndexView, reference: db::PathView) -> Option<
    (Seq<db::PairView>, MatchedBy),
> {
    let exact = index::pairs_by_path_ids(ix, seq![reference.id]);
    if exact.len() > 0 {
        Some((exact, MatchedBy::Digest))
    } else {
        match reference.name {
            Some(name) => {
                let named = index::pairs_by_path_ids(ix, ids_named(ix, name));
                if named.len() > 0 {
                    Some((named, MatchedBy::Name))
                } else {
                    None
                }
            },
            None => None,
        }
    }
}

fn resolve_ref(index: &Index, reference: &StorePath) -> (r: Option<(Vec<PairPath>, MatchedBy)>)
    ensures
        r.deep_view() == tied(index@, reference.deep_view()),
{
    let own: Vec<i64> = vec![reference.id];
    assert(own@ =~= seq![reference.id]);
    let exact: Vec<PairPath> = index.pairs_by_path_ids(own.as_slice());
    assert(exact.len() == exact.deep_view().len());
    if exact.len() > 0 {
        return Some((exact, MatchedBy::Digest));
    }
    match &reference.name {
        Some(name) => {
            let ids: Vec<i64> = list_ids_named(index, name);
            let named: Vec<PairPath> = index.pairs_by_path_ids(ids.as_slice());
            assert(named.len() == named.deep_view().len());
            if named.len() > 0 {
                Some((named, MatchedBy::Name))
            } else {
                None
            }
        },
        None => None,
    }
}

/// Resolve references back to indexed pairs, one answer per reference: by
/// digest where the exact path is indexed, then by store name for the same
/// package out of another revision.
pub fn resolve_refs(index: &Index, refs: &Vec<StorePath>) -> (r: Vec<
    Option<(Vec<PairPath>, MatchedBy)>,
>)
    ensures
        r.deep_view() == refs.deep_view().map_values(
            |reference: db::PathView| tied(index@, reference),
        ),
        r.len() == refs.len(),
{
    rows::map_rows(
        refs,
        |reference: &StorePath| -> (matched: Option<(Vec<PairPath>, MatchedBy)>)
            ensures
                matched.deep_view() == tied(index@, reference.deep_view())
            { resolve_ref(index, reference) },
        Ghost(|reference: db::PathView| tied(index@, reference)),
    )
}

/// A digest match is a match of the exact path, and beats a match by name: a
/// reference some pair built to is tied to the pairs that built to it, and one
/// tied by name is no pair's path.
pub proof fn digests_beat_names(ix: index::IndexView, reference: db::PathView, pair: db::PairView)
    ensures
        ix.tables.pairs.contains(pair) && pair.path.id == reference.id ==> (tied(
            ix,
            reference,
        ) matches Some((pairs, how)) && how == MatchedBy::Digest && pairs.contains(pair)),
        tied(ix, reference) matches Some((pairs, MatchedBy::Digest)) ==> (pairs.contains(pair)
            <==> ix.tables.pairs.contains(pair) && pair.path.id == reference.id),
        tied(ix, reference) matches Some((pairs, MatchedBy::Name)) ==> reference.name is Some && (
        pairs.contains(pair) <==> ix.tables.pairs.contains(pair) && ids_named(
            ix,
            reference.name->0,
        ).contains(pair.path.id)) && !(ix.tables.pairs.contains(pair) && pair.path.id
            == reference.id),
{
    let own = seq![reference.id];
    index::path_lookup_finds_the_pairs(ix, own, pair);
    assert(own.contains(pair.path.id) <==> pair.path.id == reference.id) by {
        assert(own[0] == reference.id);
    }
    if let Some(name) = reference.name {
        index::path_lookup_finds_the_pairs(ix, ids_named(ix, name), pair);
    }
}

/// The ids a store name stands for are those of the store paths that carry it.
pub proof fn named_ids_carry_the_name(ix: index::IndexView, name: Seq<char>, id: i64)
    ensures
        ids_named(ix, name).contains(id) <==> exists|i: int|
            0 <= i < ix.tables.store_paths.len() && (#[trigger] ix.tables.store_paths[i]).id == id
                && ix.tables.store_paths[i].name == Some(name),
{
    let names = seq![name];
    let paths = ix.tables.store_paths;
    let fits = |row: db::PathView| row.name is Some && names.contains(row.name->0);
    let kept = paths.filter(fits);
    let ids = ids_named(ix, name);
    assert(names.contains(name)) by {
        assert(names[0] == name);
    }
    assert(index::store_path_ids_named(ix, names) == index::named_ids(paths, names));
    assert(ids.len() == kept.len());
    assert forall|w: int| 0 <= w < ids.len() implies ids[w] == kept[w].id by {
        assert(index::named_ids(paths, names)[w] == (kept[w].id, kept[w].name->0));
    }
    if ids.contains(id) {
        let w = choose|w: int| 0 <= w < ids.len() && ids[w] == id;
        paths.lemma_filter_pred(fits, w);
        assert(kept.contains(kept[w]));
        paths.lemma_filter_contains_rev(fits, kept[w]);
        let i = choose|i: int| 0 <= i < paths.len() && paths[i] == kept[w];
        assert(paths[i].id == id && paths[i].name == Some(name));
    }
    if exists|i: int|
        0 <= i < paths.len() && (#[trigger] paths[i]).id == id && paths[i].name == Some(name) {
        let i = choose|i: int|
            0 <= i < paths.len() && (#[trigger] paths[i]).id == id && paths[i].name == Some(name);
        paths.lemma_filter_contains(fits, i);
        let w = choose|w: int| 0 <= w < kept.len() && kept[w] == paths[i];
        assert(ids[w] == id);
    }
}

/// `attr@version`.
pub open spec fn pair_label(pair: db::PairView) -> Seq<char> {
    pair.attr + "@"@ + pair.version
}

/// What labels are sorted by: the attribute, then the label itself.
pub struct ByLabel {
    pub attr: String,
    pub label: String,
}

impl DeepView for ByLabel {
    type V = (Seq<char>, Seq<char>);

    open spec fn deep_view(&self) -> (Seq<char>, Seq<char>) {
        (self.attr@, self.label@)
    }
}

impl Ranked for ByLabel {
    open spec fn at_most(a: (Seq<char>, Seq<char>), b: (Seq<char>, Seq<char>)) -> bool {
        text::text_before(a.0, b.0) || (a.0 == b.0 && text::text_at_most(a.1, b.1))
    }

    proof fn rank_is_total(a: (Seq<char>, Seq<char>), b: (Seq<char>, Seq<char>)) {
        text::dictionary_order_is_total(a.0, b.0);
        text::dictionary_order_is_total(a.1, b.1);
    }

    proof fn rank_is_transitive(
        a: (Seq<char>, Seq<char>),
        b: (Seq<char>, Seq<char>),
        c: (Seq<char>, Seq<char>),
    ) {
        if a.0 == b.0 && b.0 == c.0 {
            text::dictionary_order_is_transitive(a.1, b.1, c.1);
        }
        if text::text_at_most(a.0, b.0) && text::text_at_most(b.0, c.0) {
            text::dictionary_order_is_transitive(a.0, b.0, c.0);
            text::dictionary_order_is_total(a.0, b.0);
        }
    }

    fn is_at_most(&self, other: &Self) -> (r: bool) {
        if self.attr == other.attr {
            text::is_text_at_most(self.label.as_str(), other.label.as_str())
        } else {
            text::is_text_at_most(self.attr.as_str(), other.attr.as_str())
        }
    }
}

/// Pairs in the order of their attributes, then of their labels.
pub open spec fn by_label(pairs: Seq<db::PairView>) -> Seq<db::PairView> {
    order::sorted_by::<db::PairView, ByLabel>(
        pairs,
        pairs.map_values(|pair: db::PairView| (pair.attr, pair_label(pair))),
    )
}

/// The `attr@version` of some pairs, in the order of the attributes and within
/// one attribute in dictionary order, each once.
pub open spec fn labels_of(pairs: Seq<db::PairView>) -> Seq<Seq<char>> {
    db::firsts(by_label(pairs).map_values(|pair: db::PairView| pair_label(pair)))
}

/// Unique `attr@version` strings for one resolved reference, attr order.
pub fn pair_labels(pairs: &Vec<PairPath>) -> (r: Vec<String>)
    ensures
        r.deep_view() == labels_of(pairs.deep_view()),
{
    let keys: Vec<ByLabel> = rows::map_rows(
        pairs,
        |pair: &PairPath| -> (key: ByLabel)
            ensures
                key.deep_view() == (pair.deep_view().attr, pair_label(pair.deep_view()))
            {
                ByLabel {
                    attr: pair.attr.clone(),
                    label: cat3(pair.attr.as_str(), "@", pair.version.as_str()),
                }
            },
        Ghost(|pair: db::PairView| (pair.attr, pair_label(pair))),
    );
    let ranked: Vec<PairPath> = order::sort_by_keys(pairs, &keys);
    let labels: Vec<String> = rows::map_rows(
        &ranked,
        |pair: &PairPath| -> (label: String)
            ensures
                label.deep_view() == pair_label(pair.deep_view())
            { cat3(pair.attr.as_str(), "@", pair.version.as_str()) },
        Ghost(|pair: db::PairView| pair_label(pair)),
    );
    db::first_texts(&labels)
}

/// Texts in dictionary order.
pub(crate) fn sort_texts(texts: &Vec<String>) -> (r: Vec<String>)
    ensures
        r.deep_view() == order::sorted_by::<Seq<char>, ByText>(
            texts.deep_view(),
            texts.deep_view(),
        ),
{
    let keys: Vec<ByText> = rows::map_rows(
        texts,
        |text: &String| -> (key: ByText)
            ensures
                key.deep_view() == text.deep_view()
            { ByText { text: text.clone() } },
        Ghost(|text: Seq<char>| text),
    );
    assert(keys.deep_view() =~= texts.deep_view());
    order::sort_by_keys(texts, &keys)
}

/// Whether a pair's attribute comes before another's, or is the same and its
/// label comes before the other's.
pub open spec fn is_labelled_before(a: db::PairView, b: db::PairView) -> bool {
    text::text_before(a.attr, b.attr) || (a.attr == b.attr && text::text_before(
        pair_label(a),
        pair_label(b),
    ))
}

/// Whether one label goes before another: whatever pair has the later label,
/// some pair with the earlier one comes before it.
pub open spec fn is_listed_before(
    pairs: Seq<db::PairView>,
    earlier: Seq<char>,
    later: Seq<char>,
) -> bool {
    forall|b: db::PairView| #[trigger]
        pairs.contains(b) && pair_label(b) == later ==> exists|a: db::PairView|
            pairs.contains(a) && pair_label(a) == earlier && #[trigger] is_labelled_before(a, b)
}

/// No label is listed twice, and those listed are just the labels some pair
/// has. Attributes ascend, and labels within one attribute.
pub proof fn labels_ascend(pairs: Seq<db::PairView>, label: Seq<char>)
    ensures
        labels_of(pairs).no_duplicates(),
        labels_of(pairs).contains(label) <==> exists|k: int|
            0 <= k < pairs.len() && pair_label(#[trigger] pairs[k]) == label,
        forall|i: int, j: int|
            0 <= i < j < labels_of(pairs).len() ==> is_listed_before(
                pairs,
                #[trigger] labels_of(pairs)[i],
                #[trigger] labels_of(pairs)[j],
            ),
{
    let key = |pair: db::PairView| (pair.attr, pair_label(pair));
    let name = |pair: db::PairView| pair_label(pair);
    let ranked = by_label(pairs);
    let labels = ranked.map_values(name);
    let kept = labels_of(pairs);
    order::sorted_things_ascend::<db::PairView, ByLabel>(pairs, key);
    order::sorting_arranges::<db::PairView, ByLabel>(pairs, pairs.map_values(key));
    assert(ranked == order::sorted_by::<db::PairView, ByLabel>(pairs, pairs.map_values(key)));
    db::firsts_are_all_and_distinct(labels);
    assert(kept.contains(label) <==> labels.contains(label));
    if labels.contains(label) {
        let w = choose|w: int| 0 <= w < labels.len() && labels[w] == label;
        assert(ranked.contains(ranked[w]));
        let k = choose|k: int| 0 <= k < pairs.len() && pairs[k] == ranked[w];
        assert(pair_label(pairs[k]) == label);
    }
    if exists|k: int| 0 <= k < pairs.len() && pair_label(#[trigger] pairs[k]) == label {
        let k = choose|k: int| 0 <= k < pairs.len() && pair_label(#[trigger] pairs[k]) == label;
        assert(pairs.contains(pairs[k]));
        assert(ranked.contains(pairs[k]));
        let w = choose|w: int| 0 <= w < ranked.len() && ranked[w] == pairs[k];
        assert(labels[w] == label);
        assert(labels.contains(label));
    }
    assert forall|i: int, j: int| 0 <= i < j < kept.len() implies is_listed_before(
        pairs,
        #[trigger] kept[i],
        #[trigger] kept[j],
    ) by {
        db::firsts_keep_the_order_of_meeting(labels, i, j);
        let p = choose|p: int|
            0 <= p < labels.len() && #[trigger] labels[p] == kept[i] && (forall|q: int|
                0 <= q < labels.len() && #[trigger] labels[q] == kept[j] ==> p < q);
        let a = ranked[p];
        assert(ranked.contains(a));
        assert forall|b: db::PairView| #[trigger]
            pairs.contains(b) && pair_label(b) == kept[j] implies exists|a: db::PairView|
            pairs.contains(a) && pair_label(a) == kept[i] && #[trigger] is_labelled_before(
                a,
                b,
            ) by {
            assert(ranked.contains(b));
            let q = choose|q: int| 0 <= q < ranked.len() && ranked[q] == b;
            assert(labels[q] == kept[j]);
            assert(ByLabel::at_most(key(ranked[p]), key(ranked[q])));
            assert(is_labelled_before(a, b));
        }
    }
}

/// Where no attribute holds an `@`, a label tells its attribute, so of two
/// labels the one listed first is of an earlier attribute, or of the same
/// attribute and the earlier label.
pub proof fn labels_come_in_attribute_order(
    pairs: Seq<db::PairView>,
    i: int,
    j: int,
    a: db::PairView,
    b: db::PairView,
)
    requires
        forall|k: int| 0 <= k < pairs.len() ==> !(#[trigger] pairs[k]).attr.contains('@'),
        0 <= i < j < labels_of(pairs).len(),
        pairs.contains(a) && pair_label(a) == labels_of(pairs)[i],
        pairs.contains(b) && pair_label(b) == labels_of(pairs)[j],
    ensures
        is_labelled_before(a, b),
{
    labels_ascend(pairs, pair_label(a));
    assert(is_listed_before(pairs, labels_of(pairs)[i], labels_of(pairs)[j]));
    let other = choose|other: db::PairView|
        pairs.contains(other) && pair_label(other) == labels_of(pairs)[i]
            && #[trigger] is_labelled_before(other, b);
    lemma_label_tells_the_attribute(a, other);
}

proof fn lemma_label_tells_the_attribute(a: db::PairView, b: db::PairView)
    requires
        !a.attr.contains('@'),
        !b.attr.contains('@'),
        pair_label(a) == pair_label(b),
    ensures
        a.attr == b.attr,
{
    reveal_strlit("@");
    let label = pair_label(a);
    assert(label[a.attr.len() as int] == '@');
    assert(pair_label(b)[b.attr.len() as int] == '@');
    if a.attr.len() < b.attr.len() {
        assert(b.attr[a.attr.len() as int] == pair_label(b)[a.attr.len() as int]);
        assert(b.attr.contains('@'));
    }
    if b.attr.len() < a.attr.len() {
        assert(a.attr[b.attr.len() as int] == label[b.attr.len() as int]);
        assert(a.attr.contains('@'));
    }
    assert forall|k: int| 0 <= k < a.attr.len() implies a.attr[k] == b.attr[k] by {
        assert(label[k] == a.attr[k]);
        assert(pair_label(b)[k] == b.attr[k]);
    }
    assert(a.attr =~= b.attr);
}

/// One direct reference: the path, the packages it is tied back to, and how.
#[derive(Debug, Clone)]
pub struct DepEntry {
    pub path: StorePath,
    pub packages: Vec<String>,
    pub matched_by: Option<MatchedBy>,
}

pub struct DepEntryView {
    pub path: db::PathView,
    pub packages: Seq<Seq<char>>,
    pub matched_by: Option<MatchedBy>,
}

impl DeepView for DepEntry {
    type V = DepEntryView;

    open spec fn deep_view(&self) -> DepEntryView {
        DepEntryView {
            path: self.path.deep_view(),
            packages: self.packages.deep_view(),
            matched_by: self.matched_by,
        }
    }
}

/// What `mvs deps` answers.
#[derive(Debug, Clone)]
pub struct DepsAnswer {
    pub attr: String,
    pub version: String,
    pub store_path: String,
    pub refs: Vec<DepEntry>,
}

pub struct DepsAnswerView {
    pub attr: Seq<char>,
    pub version: Seq<char>,
    pub store_path: Seq<char>,
    pub refs: Seq<DepEntryView>,
}

impl DeepView for DepsAnswer {
    type V = DepsAnswerView;

    open spec fn deep_view(&self) -> DepsAnswerView {
        DepsAnswerView {
            attr: self.attr@,
            version: self.version@,
            store_path: self.store_path@,
            refs: self.refs.deep_view(),
        }
    }
}

/// A reference and what it is tied back to, as an entry of the answer.
pub open spec fn dep_entry(
    reference: db::PathView,
    matched: Option<(Seq<db::PairView>, MatchedBy)>,
) -> DepEntryView {
    match matched {
        Some((pairs, how)) => DepEntryView {
            path: reference,
            packages: labels_of(pairs),
            matched_by: Some(how),
        },
        None => DepEntryView { path: reference, packages: Seq::empty(), matched_by: None },
    }
}

/// Direct references of a path, in basename order.
pub open spec fn refs_by_basename(ix: index::IndexView, path_id: i64) -> Seq<db::PathView> {
    let refs = index::refs_of_path(ix, path_id);
    order::sorted_by::<db::PathView, ByText>(
        refs,
        refs.map_values(|path: db::PathView| db::basename_of(path)),
    )
}

/// The direct references of a pair, in basename order, each tied back to
/// packages where it can be.
pub open spec fn deps_of(ix: index::IndexView, pair: db::PairView) -> DepsAnswerView {
    DepsAnswerView {
        attr: pair.attr,
        version: pair.version,
        store_path: db::store_path_of(pair.path),
        refs: refs_by_basename(ix, pair.path.id).map_values(
            |reference: db::PathView| dep_entry(reference, tied(ix, reference)),
        ),
    }
}

fn sort_by_basename(refs: &Vec<StorePath>) -> (r: Vec<StorePath>)
    ensures
        r.deep_view() == order::sorted_by::<db::PathView, ByText>(
            refs.deep_view(),
            refs.deep_view().map_values(|path: db::PathView| db::basename_of(path)),
        ),
{
    let keys: Vec<ByText> = rows::map_rows(
        refs,
        |path: &StorePath| -> (key: ByText)
            ensures
                key.deep_view() == db::basename_of(path.deep_view())
            { ByText { text: path.basename() } },
        Ghost(|path: db::PathView| db::basename_of(path)),
    );
    order::sort_by_keys(refs, &keys)
}

fn make_entry(reference: &StorePath, matched: &Option<(Vec<PairPath>, MatchedBy)>) -> (r: DepEntry)
    ensures
        r.deep_view() == dep_entry(reference.deep_view(), matched.deep_view()),
{
    match matched {
        Some((pairs, how)) => DepEntry {
            path: reference.duplicate(),
            packages: pair_labels(pairs),
            matched_by: Some(*how),
        },
        None => {
            let packages: Vec<String> = Vec::new();
            assert(packages.deep_view() =~= Seq::<Seq<char>>::empty());
            DepEntry { path: reference.duplicate(), packages, matched_by: None }
        },
    }
}

pub open spec fn dep_row(entry: DepEntryView) -> Seq<output::CellView> {
    seq![
        output::CellView { text: db::basename_of(entry.path), style: output::Style::Plain },
        match entry.matched_by {
            Some(_) => output::CellView {
                text: text::joined(entry.packages, ", "@),
                style: output::Style::Plain,
            },
            None => output::CellView { text: "(not indexed)"@, style: output::Style::Dimmed },
        },
        output::CellView {
            text: match entry.matched_by {
                Some(how) => label_of(how),
                None => ""@,
            },
            style: output::Style::Dimmed,
        },
    ]
}

pub open spec fn deps_table(refs: Seq<DepEntryView>) -> output::TableView {
    output::TableView {
        headers: seq!["REFERENCE"@, "PACKAGE"@, "VIA"@],
        rows: refs.map_values(|entry: DepEntryView| dep_row(entry)),
    }
}

fn show_deps_table(refs: &Vec<DepEntry>) -> (r: Vec<String>)
    ensures
        r.deep_view() == output::lines_of(deps_table(refs.deep_view())),
{
    let mut table: Table = Table::new(&["REFERENCE", "PACKAGE", "VIA"]);
    let ghost all = deps_table(refs.deep_view());
    assert(table@.headers =~= all.headers);
    assert(table@.rows =~= all.rows.take(0));
    let mut i: usize = 0;
    while i < refs.len()
        invariant
            i <= refs.len(),
            all == deps_table(refs.deep_view()),
            table@.headers == all.headers,
            table@.rows == all.rows.take(i as int),
            table@.well_formed(),
        decreases refs.len() - i,
    {
        let entry: &DepEntry = &refs[i];
        let package: Cell = match entry.matched_by {
            Some(_) => Cell::new(text::join(&entry.packages, ", "), output::plain()),
            None => Cell::new("(not indexed)".to_string(), output::muted()),
        };
        let via: String = match entry.matched_by {
            Some(how) => how.label().to_string(),
            None => "".to_string(),
        };
        let cells: Vec<Cell> = vec![
            Cell::new(entry.path.basename(), output::plain()),
            package,
            Cell::new(via, output::muted()),
        ];
        assert(refs.deep_view()[i as int] == entry.deep_view());
        assert(cells.deep_view() =~= dep_row(entry.deep_view()));
        table.row(cells);
        assert(table@.rows =~= all.rows.take(i + 1));
        i = i + 1;
    }
    assert(all.rows.take(i as int) =~= all.rows);
    assert(table@ == all);
    table.print()
}

/// What `mvs deps` prints: how many references there are, and a table of them.
pub open spec fn deps_lines(answer: DepsAnswerView) -> Seq<Seq<char>> {
    seq![
        answer.attr + " "@ + answer.version + " · "@ + output::counted(
            answer.refs.len(),
            "direct reference"@,
        ),
    ] + output::lines_of(deps_table(answer.refs))
}

fn show_deps(answer: &DepsAnswer) -> (r: Vec<String>)
    ensures
        r.deep_view() == deps_lines(answer.deep_view()),
{
    let mut head: String = cat3(answer.attr.as_str(), " ", answer.version.as_str());
    head.append(" · ");
    head.append(output::plural(answer.refs.len(), "direct reference").as_str());
    let mut lines: Vec<String> = vec![head];
    assert(answer.refs.len() == answer.refs.deep_view().len());
    assert(lines.deep_view() =~= seq![head@]);
    let table: Vec<String> = show_deps_table(&answer.refs);
    rows::extend_rows(&mut lines, &table);
    lines
}

/// `mvs deps <attr>[@version]` — direct references, tied back to packages.
pub fn deps(index: &Index, spec: &str, format: Format) -> (r: Result<Shown<DepsAnswer>, Refusal>)
    ensures
        refusal::agrees(
            r,
            match guarded(index@, spec@) {
                Ok(pair) => Ok(
                    shown(deps_of(index@, pair), deps_lines(deps_of(index@, pair)), format),
                ),
                Err(e) => Err(e),
            },
        ),
{
    let pair: PairPath = match guard_and_resolve(index, spec) {
        Ok(pair) => pair,
        Err(e) => return Err(e),
    };
    let found: Vec<StorePath> = index.refs_of_path(pair.path.id);
    let refs: Vec<StorePath> = sort_by_basename(&found);
    let resolved: Vec<Option<(Vec<PairPath>, MatchedBy)>> = resolve_refs(index, &refs);
    let ghost all = deps_of(index@, pair.deep_view()).refs;
    let mut entries: Vec<DepEntry> = Vec::new();
    let mut i: usize = 0;
    while i < refs.len()
        invariant
            i <= refs.len(),
            refs.len() == resolved.len(),
            refs.deep_view() == refs_by_basename(index@, pair.path.id),
            resolved.deep_view() == refs.deep_view().map_values(
                |reference: db::PathView| tied(index@, reference),
            ),
            all == deps_of(index@, pair.deep_view()).refs,
            entries.deep_view() == all.take(i as int),
        decreases refs.len() - i,
    {
        let ghost before = entries.deep_view();
        assert(refs.deep_view()[i as int] == refs@[i as int].deep_view());
        assert(resolved.deep_view()[i as int] == resolved@[i as int].deep_view());
        entries.push(make_entry(&refs[i], &resolved[i]));
        assert(entries.deep_view() =~= before.push(all[i as int]));
        assert(entries.deep_view() =~= all.take(i + 1));
        i = i + 1;
    }
    assert(all.take(i as int) =~= all);
    let store_path: String = pair.path.store_path();
    let answer: DepsAnswer = DepsAnswer {
        attr: pair.attr,
        version: pair.version,
        store_path,
        refs: entries,
    };
    match format {
        Format::Json => Ok(Shown::Json(answer)),
        Format::Text => Ok(Shown::Text(print_only(show_deps(&answer)))),
    }
}

/// What referrers are sorted by: the attribute, then the version.
pub struct ByAttr {
    pub attr: String,
    pub version: String,
}

impl DeepView for ByAttr {
    type V = (Seq<char>, Seq<char>);

    open spec fn deep_view(&self) -> (Seq<char>, Seq<char>) {
        (self.attr@, self.version@)
    }
}

impl Ranked for ByAttr {
    open spec fn at_most(a: (Seq<char>, Seq<char>), b: (Seq<char>, Seq<char>)) -> bool {
        text::text_before(a.0, b.0) || (a.0 == b.0 && version::at_most(a.1, b.1))
    }

    proof fn rank_is_total(a: (Seq<char>, Seq<char>), b: (Seq<char>, Seq<char>)) {
        text::dictionary_order_is_total(a.0, b.0);
        version::versions_are_ranked(a.1, b.1);
    }

    proof fn rank_is_transitive(
        a: (Seq<char>, Seq<char>),
        b: (Seq<char>, Seq<char>),
        c: (Seq<char>, Seq<char>),
    ) {
        if a.0 == b.0 && b.0 == c.0 {
            version::version_order_is_transitive(a.1, b.1, c.1);
        }
        if text::text_at_most(a.0, b.0) && text::text_at_most(b.0, c.0) {
            text::dictionary_order_is_transitive(a.0, b.0, c.0);
            text::dictionary_order_is_total(a.0, b.0);
        }
    }

    fn is_at_most(&self, other: &Self) -> (r: bool) {
        if self.attr == other.attr {
            version::is_at_most(self.version.as_str(), other.version.as_str())
        } else {
            text::is_text_at_most(self.attr.as_str(), other.attr.as_str())
        }
    }
}

/// The ids that count as a pair's path: its own, and that of every path
/// sharing its store name — a referrer out of another revision points at that
/// revision's digest of the same package.
pub open spec fn targets_of(ix: index::IndexView, path: db::PathView) -> Set<i64> {
    Set::new(
        |id: i64|
            id == path.id || (path.name matches Some(name) && ids_named(ix, name).contains(id)),
    )
}

fn list_targets(index: &Index, path: &StorePath) -> (r: HashSet<i64>)
    ensures
        r@ == targets_of(index@, path.deep_view()),
{
    broadcast use vstd::std_specs::hash::group_hash_axioms;

    let mut targets: HashSet<i64> = HashSet::new();
    targets.insert(path.id);
    if let Some(name) = &path.name {
        let ids: Vec<i64> = list_ids_named(index, name);
        let mut i: usize = 0;
        while i < ids.len()
            invariant
                i <= ids.len(),
                forall|id: i64| #[trigger]
                    targets@.contains(id) <==> id == path.id || ids@.take(i as int).contains(id),
            decreases ids.len() - i,
        {
            let ghost before = targets@;
            targets.insert(ids[i]);
            proof {
                let some = ids@.take(i as int);
                let more = ids@.take(i + 1);
                assert(more =~= some.push(ids@[i as int]));
                assert forall|id: i64| #[trigger] targets@.contains(id) <==> id == path.id
                    || more.contains(id) by {
                    broadcast use vstd::seq_lib::group_seq_properties;

                    assert(before.contains(id) <==> id == path.id || some.contains(id));
                    assert(more == some.push(ids@[i as int]));
                }
            }
            i = i + 1;
        }
        assert(ids@.take(i as int) =~= ids@);
    }
    assert(targets@ =~= targets_of(index@, path.deep_view()));
    targets
}

/// Pairs sorted by attribute, then by version.
pub open spec fn by_attr(pairs: Seq<db::PairView>) -> Seq<db::PairView> {
    order::sorted_by::<db::PairView, ByAttr>(
        pairs,
        pairs.map_values(|pair: db::PairView| (pair.attr, pair.version)),
    )
}

fn sort_by_attr(pairs: &Vec<PairPath>) -> (r: Vec<PairPath>)
    ensures
        r.deep_view() == by_attr(pairs.deep_view()),
{
    let keys: Vec<ByAttr> = rows::map_rows(
        pairs,
        |pair: &PairPath| -> (key: ByAttr)
            ensures
                key.deep_view() == (pair.deep_view().attr, pair.deep_view().version)
            { ByAttr { attr: pair.attr.clone(), version: pair.version.clone() } },
        Ghost(|pair: db::PairView| (pair.attr, pair.version)),
    );
    order::sort_by_keys(pairs, &keys)
}

/// The store paths that hold a reference to a pair's path, by id.
pub open spec fn referrers_to(ix: index::IndexView, path: db::PathView) -> Seq<i64> {
    index::referrers_of(ix, targets_of(ix, path))
}

/// The pairs whose references include a path, or a same-named path from
/// another revision.
pub open spec fn pairs_referring(ix: index::IndexView, path: db::PathView) -> Seq<db::PairView> {
    by_attr(index::pairs_by_path_ids(ix, referrers_to(ix, path)))
}

/// Whether a store path is no pair's.
pub open spec fn is_unindexed(pairs: Seq<db::PairView>) -> spec_fn(i64) -> bool {
    |id: i64| !(exists|i: int| 0 <= i < pairs.len() && (#[trigger] pairs[i]).path.id == id)
}

fn count_unindexed(referrers: &Vec<i64>, pairs: &Vec<PairPath>) -> (r: usize)
    ensures
        r == referrers@.filter(is_unindexed(pairs.deep_view())).len(),
{
    let ghost fits = is_unindexed(pairs.deep_view());
    let known: HashSet<i64> = path_ids(pairs);
    let mut count: usize = 0;
    let mut i: usize = 0;
    proof {
        reveal(Seq::filter);
        assert(referrers@.take(0) =~= Seq::<i64>::empty());
    }
    while i < referrers.len()
        invariant
            i <= referrers.len(),
            count <= i,
            fits == is_unindexed(pairs.deep_view()),
            forall|id: i64| #[trigger] known@.contains(id) <==> !fits(id),
            count == referrers@.take(i as int).filter(fits).len(),
        decreases referrers.len() - i,
    {
        broadcast use vstd::std_specs::hash::group_hash_axioms;

        proof {
            assert(referrers@.take(i + 1) =~= referrers@.take(i as int).push(referrers@[i as int]));
            Seq::lemma_filter_push(referrers@.take(i as int), referrers@[i as int], fits);
        }
        if !known.contains(&referrers[i]) {
            count = count + 1;
        }
        i = i + 1;
    }
    assert(referrers@.take(i as int) =~= referrers@);
    count
}

fn path_ids(pairs: &Vec<PairPath>) -> (r: HashSet<i64>)
    ensures
        forall|id: i64| #[trigger] r@.contains(id) <==> !is_unindexed(pairs.deep_view())(id),
{
    broadcast use vstd::std_specs::hash::group_hash_axioms;

    let mut known: HashSet<i64> = HashSet::new();
    let ghost all = pairs.deep_view();
    let mut i: usize = 0;
    while i < pairs.len()
        invariant
            i <= pairs.len(),
            all == pairs.deep_view(),
            forall|id: i64| #[trigger]
                known@.contains(id) <==> exists|j: int|
                    0 <= j < i && (#[trigger] all[j]).path.id == id,
        decreases pairs.len() - i,
    {
        let ghost before = known@;
        known.insert(pairs[i].path.id);
        proof {
            assert(all[i as int].path.id == pairs@[i as int].path.id);
            assert forall|id: i64| #[trigger] known@.contains(id) <==> exists|j: int|
                0 <= j < i + 1 && (#[trigger] all[j]).path.id == id by {
                assert(before.contains(id) <==> exists|j: int|
                    0 <= j < i && (#[trigger] all[j]).path.id == id);
                if known@.contains(id) && !before.contains(id) {
                    assert(all[i as int].path.id == id);
                }
            }
        }
        i = i + 1;
    }
    known
}

/// One package that refers to another.
#[derive(Debug, Clone)]
pub struct RdepEntry {
    pub attr: String,
    pub version: String,
    pub store_path: String,
    pub tip: bool,
}

pub struct RdepEntryView {
    pub attr: Seq<char>,
    pub version: Seq<char>,
    pub store_path: Seq<char>,
    pub tip: bool,
}

impl DeepView for RdepEntry {
    type V = RdepEntryView;

    open spec fn deep_view(&self) -> RdepEntryView {
        RdepEntryView {
            attr: self.attr@,
            version: self.version@,
            store_path: self.store_path@,
            tip: self.tip,
        }
    }
}

/// What `mvs rdeps` answers.
#[derive(Debug, Clone)]
pub struct RdepsAnswer {
    pub attr: String,
    pub version: String,
    pub store_path: String,
    pub rdeps: Vec<RdepEntry>,
    pub unindexed_referrers: usize,
}

pub struct RdepsAnswerView {
    pub attr: Seq<char>,
    pub version: Seq<char>,
    pub store_path: Seq<char>,
    pub rdeps: Seq<RdepEntryView>,
    pub unindexed_referrers: nat,
}

impl DeepView for RdepsAnswer {
    type V = RdepsAnswerView;

    open spec fn deep_view(&self) -> RdepsAnswerView {
        RdepsAnswerView {
            attr: self.attr@,
            version: self.version@,
            store_path: self.store_path@,
            rdeps: self.rdeps.deep_view(),
            unindexed_referrers: self.unindexed_referrers as nat,
        }
    }
}

pub open spec fn rdep_entry(pair: db::PairView) -> RdepEntryView {
    RdepEntryView {
        attr: pair.attr,
        version: pair.version,
        store_path: db::store_path_of(pair.path),
        tip: pair.tip,
    }
}

/// The pairs that refer to a pair, and how many referrers are no pair's path —
/// sibling outputs, plain dependency paths — which are counted rather than
/// dropped silently.
pub open spec fn rdeps_of(ix: index::IndexView, pair: db::PairView) -> RdepsAnswerView {
    let pairs = pairs_referring(ix, pair.path);
    RdepsAnswerView {
        attr: pair.attr,
        version: pair.version,
        store_path: db::store_path_of(pair.path),
        rdeps: pairs.map_values(|referrer: db::PairView| rdep_entry(referrer)),
        unindexed_referrers: referrers_to(ix, pair.path).filter(is_unindexed(pairs)).len(),
    }
}

pub open spec fn rdep_row(entry: RdepEntryView) -> Seq<output::CellView> {
    seq![
        output::CellView { text: entry.attr, style: output::Style::Plain },
        output::CellView { text: entry.version, style: output::Style::Plain },
        if entry.tip {
            output::CellView { text: "current"@, style: output::Style::Green }
        } else {
            output::CellView { text: ""@, style: output::Style::Plain }
        },
    ]
}

pub open spec fn rdeps_table(rdeps: Seq<RdepEntryView>) -> output::TableView {
    output::TableView {
        headers: seq!["ATTR"@, "VERSION"@, "STATUS"@],
        rows: rdeps.map_values(|entry: RdepEntryView| rdep_row(entry)),
    }
}

fn show_rdeps_table(rdeps: &Vec<RdepEntry>) -> (r: Vec<String>)
    ensures
        r.deep_view() == output::lines_of(rdeps_table(rdeps.deep_view())),
{
    let mut table: Table = Table::new(&["ATTR", "VERSION", "STATUS"]);
    let ghost all = rdeps_table(rdeps.deep_view());
    assert(table@.headers =~= all.headers);
    assert(table@.rows =~= all.rows.take(0));
    let mut i: usize = 0;
    while i < rdeps.len()
        invariant
            i <= rdeps.len(),
            all == rdeps_table(rdeps.deep_view()),
            table@.headers == all.headers,
            table@.rows == all.rows.take(i as int),
            table@.well_formed(),
        decreases rdeps.len() - i,
    {
        let entry: &RdepEntry = &rdeps[i];
        let status: Cell = if entry.tip {
            Cell::new("current".to_string(), output::current())
        } else {
            Cell::new("".to_string(), output::plain())
        };
        let cells: Vec<Cell> = vec![
            Cell::new(entry.attr.clone(), output::plain()),
            Cell::new(entry.version.clone(), output::plain()),
            status,
        ];
        assert(rdeps.deep_view()[i as int] == entry.deep_view());
        assert(cells.deep_view() =~= rdep_row(entry.deep_view()));
        table.row(cells);
        assert(table@.rows =~= all.rows.take(i + 1));
        i = i + 1;
    }
    assert(all.rows.take(i as int) =~= all.rows);
    assert(table@ == all);
    table.print()
}

/// What `mvs rdeps` prints: how many packages refer to this one, a table of
/// them, and the count of other referrers when there are any.
pub open spec fn rdeps_lines(answer: RdepsAnswerView) -> Seq<Seq<char>> {
    let listed = seq![
        answer.attr + " "@ + answer.version + " · referenced by "@ + output::counted(
            answer.rdeps.len(),
            "indexed package"@,
        ),
    ] + output::lines_of(rdeps_table(answer.rdeps));
    if answer.unindexed_referrers > 0 {
        listed.push(
            output::painted(
                "  and "@ + output::counted(answer.unindexed_referrers, "store path"@)
                    + " not indexed as packages (outputs, dependencies)"@,
                output::Style::Dimmed,
            ),
        )
    } else {
        listed
    }
}

fn show_rdeps(answer: &RdepsAnswer) -> (r: Vec<String>)
    ensures
        r.deep_view() == rdeps_lines(answer.deep_view()),
{
    let mut head: String = cat3(answer.attr.as_str(), " ", answer.version.as_str());
    head.append(" · referenced by ");
    head.append(output::plural(answer.rdeps.len(), "indexed package").as_str());
    let mut lines: Vec<String> = vec![head];
    assert(answer.rdeps.len() == answer.rdeps.deep_view().len());
    assert(lines.deep_view() =~= seq![head@]);
    let table: Vec<String> = show_rdeps_table(&answer.rdeps);
    rows::extend_rows(&mut lines, &table);
    if answer.unindexed_referrers > 0 {
        let rest: String = cat3(
            "  and ",
            output::plural(answer.unindexed_referrers, "store path").as_str(),
            " not indexed as packages (outputs, dependencies)",
        );
        let ghost before = lines.deep_view();
        lines.push(output::paint(rest.as_str(), output::muted()));
        assert(lines.deep_view() =~= before.push(
            output::painted(rest@, output::Style::Dimmed),
        ));
    }
    lines
}

/// `mvs rdeps <attr>[@version]` — indexed pairs whose references include this
/// pair's store path, or a same-named path from another revision.
pub fn rdeps(index: &Index, spec: &str, format: Format) -> (r: Result<Shown<RdepsAnswer>, Refusal>)
    ensures
        refusal::agrees(
            r,
            match guarded(index@, spec@) {
                Ok(pair) => Ok(
                    shown(rdeps_of(index@, pair), rdeps_lines(rdeps_of(index@, pair)), format),
                ),
                Err(e) => Err(e),
            },
        ),
{
    let pair: PairPath = match guard_and_resolve(index, spec) {
        Ok(pair) => pair,
        Err(e) => return Err(e),
    };
    let targets: HashSet<i64> = list_targets(index, &pair.path);
    let referrers: Vec<i64> = index.referrers_of(&targets);
    let found: Vec<PairPath> = index.pairs_by_path_ids(referrers.as_slice());
    let pairs: Vec<PairPath> = sort_by_attr(&found);
    let unindexed: usize = count_unindexed(&referrers, &pairs);
    let entries: Vec<RdepEntry> = rows::map_rows(
        &pairs,
        |referrer: &PairPath| -> (entry: RdepEntry)
            ensures
                entry.deep_view() == rdep_entry(referrer.deep_view())
            {
                RdepEntry {
                    attr: referrer.attr.clone(),
                    version: referrer.version.clone(),
                    store_path: referrer.path.store_path(),
                    tip: referrer.tip,
                }
            },
        Ghost(|referrer: db::PairView| rdep_entry(referrer)),
    );
    let store_path: String = pair.path.store_path();
    let answer: RdepsAnswer = RdepsAnswer {
        attr: pair.attr,
        version: pair.version,
        store_path,
        rdeps: entries,
        unindexed_referrers: unindexed,
    };
    match format {
        Format::Json => Ok(Shown::Json(answer)),
        Format::Text => Ok(Shown::Text(print_only(show_rdeps(&answer)))),
    }
}

/// Membership survives sorting.
proof fn lemma_sorting_keeps<A, T: Ranked>(things: Seq<A>, keys: Seq<T::V>, thing: A)
    requires
        things.len() == keys.len(),
    ensures
        order::sorted_by::<A, T>(things, keys).contains(thing) <==> things.contains(thing),
{
    broadcast use vstd::seq_lib::group_to_multiset_ensures;

    order::sorting_arranges::<A, T>(things, keys);
    let ranked = order::sorted_by::<A, T>(things, keys);
    assert(ranked.to_multiset().count(thing) == things.to_multiset().count(thing));
    assert(ranked.contains(thing) <==> ranked.to_multiset().count(thing) > 0);
    assert(things.contains(thing) <==> things.to_multiset().count(thing) > 0);
}

/// The pairs that refer to a path are just the pairs of the index whose own
/// path holds a reference to it, or to a path of the same name.
pub proof fn referring_pairs_hold_a_reference(
    ix: index::IndexView,
    path: db::PathView,
    pair: db::PairView,
)
    ensures
        pairs_referring(ix, path).contains(pair) <==> ix.tables.pairs.contains(pair) && exists|k: int|
            0 <= k < ix.tables.path_refs.len() && (#[trigger] ix.tables.path_refs[k]).src
                == pair.path.id && targets_of(ix, path).contains(ix.tables.path_refs[k].dst),
{
    let found = index::pairs_by_path_ids(ix, referrers_to(ix, path));
    lemma_sorting_keeps::<db::PairView, ByAttr>(
        found,
        found.map_values(|p: db::PairView| (p.attr, p.version)),
        pair,
    );
    index::path_lookup_finds_the_pairs(ix, referrers_to(ix, path), pair);
    index::referrers_ascend(ix, targets_of(ix, path), pair.path.id);
}

/// The references of a path are just the store paths some reference of it
/// points at.
pub proof fn refs_are_pointed_at(ix: index::IndexView, path_id: i64, path: db::PathView)
    ensures
        refs_by_basename(ix, path_id).contains(path) <==> ix.tables.store_paths.contains(path)
            && exists|k: int|
            0 <= k < ix.tables.path_refs.len() && (#[trigger] ix.tables.path_refs[k]).src == path_id
                && ix.tables.path_refs[k].dst == path.id,
{
    let refs = index::refs_of_path(ix, path_id);
    lemma_sorting_keeps::<db::PathView, ByText>(
        refs,
        refs.map_values(|p: db::PathView| db::basename_of(p)),
        path,
    );
    let fits = |row: Reference| row.src == path_id;
    let all = ix.tables.path_refs;
    let kept = all.filter(fits);
    lemma_ends(ix.tables.store_paths, kept, path);
    if exists|k: int| 0 <= k < kept.len() && (#[trigger] kept[k]).dst == path.id {
        let k = choose|k: int| 0 <= k < kept.len() && (#[trigger] kept[k]).dst == path.id;
        all.lemma_filter_pred(fits, k);
        assert(kept.contains(kept[k]));
        all.lemma_filter_contains_rev(fits, kept[k]);
        let i = choose|i: int| 0 <= i < all.len() && all[i] == kept[k];
        assert(all[i].src == path_id && all[i].dst == path.id);
    }
    if exists|k: int|
        0 <= k < all.len() && (#[trigger] all[k]).src == path_id && all[k].dst == path.id {
        let k = choose|k: int|
            0 <= k < all.len() && (#[trigger] all[k]).src == path_id && all[k].dst == path.id;
        all.lemma_filter_contains(fits, k);
        let w = choose|w: int| 0 <= w < kept.len() && kept[w] == all[k];
        assert(kept[w].dst == path.id);
    }
}

proof fn lemma_ends(paths: Seq<db::PathView>, refs: Seq<Reference>, path: db::PathView)
    ensures
        index::ends_of(paths, refs).contains(path) <==> paths.contains(path) && exists|k: int|
            0 <= k < refs.len() && (#[trigger] refs[k]).dst == path.id,
    decreases refs.len(),
{
    if refs.len() > 0 {
        let fewer = refs.drop_last();
        lemma_ends(paths, fewer, path);
        let dst = refs.last().dst;
        let fits = |row: db::PathView| row.id == dst;
        let a = index::ends_of(paths, fewer);
        let b = paths.filter(fits);
        let n = refs.len() - 1;
        if a.contains(path) {
            let w = choose|w: int| 0 <= w < a.len() && a[w] == path;
            assert((a + b)[w] == path);
            let k = choose|k: int| 0 <= k < fewer.len() && (#[trigger] fewer[k]).dst == path.id;
            assert(refs[k].dst == path.id);
        }
        if b.contains(path) {
            let w = choose|w: int| 0 <= w < b.len() && b[w] == path;
            assert((a + b)[a.len() + w] == path);
            paths.lemma_filter_pred(fits, w);
            paths.lemma_filter_contains_rev(fits, path);
            assert(refs[n].dst == path.id);
        }
        if paths.contains(path) && exists|k: int|
            0 <= k < refs.len() && (#[trigger] refs[k]).dst == path.id {
            let k = choose|k: int| 0 <= k < refs.len() && (#[trigger] refs[k]).dst == path.id;
            if k < n {
                assert(fewer[k].dst == path.id);
            } else {
                let i = choose|i: int| 0 <= i < paths.len() && paths[i] == path;
                paths.lemma_filter_contains(fits, i);
            }
        }
        assert((a + b).contains(path) ==> a.contains(path) || b.contains(path)) by {
            if (a + b).contains(path) {
                let w = choose|w: int| 0 <= w < (a + b).len() && (a + b)[w] == path;
                if w < a.len() {
                    assert(a[w] == path);
                } else {
                    assert(b[w - a.len()] == path);
                }
            }
        }
    }
}

/// A referrer is counted as unindexed just when no pair of the whole index has
/// its path, so every referrer is either listed through its pairs or counted.
pub proof fn unindexed_referrers_have_no_pair(ix: index::IndexView, path: db::PathView, id: i64)
    requires
        referrers_to(ix, path).contains(id),
    ensures
        is_unindexed(pairs_referring(ix, path))(id) <==> !(exists|i: int|
            0 <= i < ix.tables.pairs.len() && (#[trigger] ix.tables.pairs[i]).path.id == id),
{
    let found = index::pairs_by_path_ids(ix, referrers_to(ix, path));
    let pairs = pairs_referring(ix, path);
    let keys = found.map_values(|p: db::PairView| (p.attr, p.version));
    if exists|i: int|
        0 <= i < ix.tables.pairs.len() && (#[trigger] ix.tables.pairs[i]).path.id == id {
        let i = choose|i: int|
            0 <= i < ix.tables.pairs.len() && (#[trigger] ix.tables.pairs[i]).path.id == id;
        let pair = ix.tables.pairs[i];
        assert(ix.tables.pairs.contains(pair));
        index::path_lookup_finds_the_pairs(ix, referrers_to(ix, path), pair);
        lemma_sorting_keeps::<db::PairView, ByAttr>(found, keys, pair);
        let w = choose|w: int| 0 <= w < pairs.len() && pairs[w] == pair;
        assert(pairs[w].path.id == id);
    }
    if exists|i: int| 0 <= i < pairs.len() && (#[trigger] pairs[i]).path.id == id {
        let i = choose|i: int| 0 <= i < pairs.len() && (#[trigger] pairs[i]).path.id == id;
        let pair = pairs[i];
        assert(pairs.contains(pair));
        lemma_sorting_keeps::<db::PairView, ByAttr>(found, keys, pair);
        index::path_lookup_finds_the_pairs(ix, referrers_to(ix, path), pair);
        let k = choose|k: int| 0 <= k < ix.tables.pairs.len() && ix.tables.pairs[k] == pair;
        assert(ix.tables.pairs[k].path.id == id);
    }
}

/// References are listed by basename, referrers by attribute and then by
/// version, and the packages a path is by attribute.
pub proof fn listings_ascend(ix: index::IndexView, path: db::PathView, path_id: i64)
    ensures
        forall|p: int, q: int|
            0 <= p < q < refs_by_basename(ix, path_id).len() ==> text::text_at_most(
                db::basename_of(#[trigger] refs_by_basename(ix, path_id)[p]),
                db::basename_of(#[trigger] refs_by_basename(ix, path_id)[q]),
            ),
        forall|p: int, q: int|
            0 <= p < q < pairs_referring(ix, path).len() ==> {
                let a = #[trigger] pairs_referring(ix, path)[p];
                let b = #[trigger] pairs_referring(ix, path)[q];
                text::text_before(a.attr, b.attr) || (a.attr == b.attr && version::at_most(
                    a.version,
                    b.version,
                ))
            },
        forall|p: int, q: int|
            0 <= p < q < builders_of(ix, path_id).len() ==> text::text_at_most(
                (#[trigger] builders_of(ix, path_id)[p]).attr,
                (#[trigger] builders_of(ix, path_id)[q]).attr,
            ),
{
    let refs = index::refs_of_path(ix, path_id);
    let basename = |p: db::PathView| db::basename_of(p);
    order::sorted_things_ascend::<db::PathView, ByText>(refs, basename);
    order::sorting_arranges::<db::PathView, ByText>(refs, refs.map_values(basename));
    let by_name = refs_by_basename(ix, path_id);
    assert(by_name == order::sorted_by::<db::PathView, ByText>(refs, refs.map_values(basename)));
    assert forall|p: int, q: int| 0 <= p < q < by_name.len() implies text::text_at_most(
        db::basename_of(#[trigger] by_name[p]),
        db::basename_of(#[trigger] by_name[q]),
    ) by {
        assert(ByText::at_most(basename(by_name[p]), basename(by_name[q])));
    }
    let found = index::pairs_by_path_ids(ix, referrers_to(ix, path));
    let both = |p: db::PairView| (p.attr, p.version);
    order::sorted_things_ascend::<db::PairView, ByAttr>(found, both);
    order::sorting_arranges::<db::PairView, ByAttr>(found, found.map_values(both));
    let referring = pairs_referring(ix, path);
    assert(referring == order::sorted_by::<db::PairView, ByAttr>(found, found.map_values(both)));
    assert forall|p: int, q: int| 0 <= p < q < referring.len() implies {
        let a = #[trigger] referring[p];
        let b = #[trigger] referring[q];
        text::text_before(a.attr, b.attr) || (a.attr == b.attr && version::at_most(
            a.version,
            b.version,
        ))
    } by {
        assert(ByAttr::at_most(both(referring[p]), both(referring[q])));
    }
    let pairs = index::pairs_by_path_ids(ix, seq![path_id]);
    let attr = |p: db::PairView| p.attr;
    order::sorted_things_ascend::<db::PairView, ByText>(pairs, attr);
    order::sorting_arranges::<db::PairView, ByText>(pairs, pairs.map_values(attr));
    let builders = builders_of(ix, path_id);
    assert(builders == order::sorted_by::<db::PairView, ByText>(pairs, pairs.map_values(attr)));
    assert forall|p: int, q: int| 0 <= p < q < builders.len() implies text::text_at_most(
        (#[trigger] builders[p]).attr,
        (#[trigger] builders[q]).attr,
    ) by {
        assert(ByText::at_most(attr(builders[p]), attr(builders[q])));
    }
}

/// What one package's `deps` lists, that package is in the `rdeps` of: where a
/// pair's references include the path of another, or a path of the other's
/// name, the pair is among those that refer to the other.
pub proof fn rdeps_mirror_deps(
    ix: index::IndexView,
    pair: db::PairView,
    other: db::PairView,
    reference: db::PathView,
)
    requires
        ix.tables.pairs.contains(pair),
        refs_by_basename(ix, pair.path.id).contains(reference),
        reference.id == other.path.id || (reference.name is Some && reference.name
            == other.path.name),
    ensures
        pairs_referring(ix, other.path).contains(pair),
{
    refs_are_pointed_at(ix, pair.path.id, reference);
    if reference.name is Some && reference.name == other.path.name {
        let paths = ix.tables.store_paths;
        let i = choose|i: int| 0 <= i < paths.len() && paths[i] == reference;
        assert(paths[i].id == reference.id && paths[i].name == Some(reference.name->0));
        named_ids_carry_the_name(ix, reference.name->0, reference.id);
    }
    assert(targets_of(ix, other.path).contains(reference.id));
    referring_pairs_hold_a_reference(ix, other.path, pair);
}

/// One package a store path is.
#[derive(Debug, Clone)]
pub struct PackageEntry {
    pub attr: String,
    pub version: String,
    pub tip: bool,
}

pub struct PackageEntryView {
    pub attr: Seq<char>,
    pub version: Seq<char>,
    pub tip: bool,
}

impl DeepView for PackageEntry {
    type V = PackageEntryView;

    open spec fn deep_view(&self) -> PackageEntryView {
        PackageEntryView { attr: self.attr@, version: self.version@, tip: self.tip }
    }
}

/// What `mvs identify` answers.
#[derive(Debug, Clone)]
pub struct IdentifyAnswer {
    pub digest: String,
    pub name: Option<String>,
    pub store_path: String,
    pub packages: Vec<PackageEntry>,
    /// The derivations the path is an output of, each with the suffix.
    pub outputs: Vec<(String, String)>,
}

pub struct IdentifyAnswerView {
    pub digest: Seq<char>,
    pub name: Option<Seq<char>>,
    pub store_path: Seq<char>,
    pub packages: Seq<PackageEntryView>,
    pub outputs: Seq<(Seq<char>, Seq<char>)>,
}

impl DeepView for IdentifyAnswer {
    type V = IdentifyAnswerView;

    open spec fn deep_view(&self) -> IdentifyAnswerView {
        IdentifyAnswerView {
            digest: self.digest@,
            name: self.name.deep_view(),
            store_path: self.store_path@,
            packages: self.packages.deep_view(),
            outputs: self.outputs.deep_view(),
        }
    }
}

pub open spec fn package_entry(pair: db::PairView) -> PackageEntryView {
    PackageEntryView { attr: pair.attr, version: pair.version, tip: pair.tip }
}

/// The pairs that built to a path, in attribute order.
pub open spec fn builders_of(ix: index::IndexView, path_id: i64) -> Seq<db::PairView> {
    let pairs = index::pairs_by_path_ids(ix, seq![path_id]);
    order::sorted_by::<db::PairView, ByText>(
        pairs,
        pairs.map_values(|pair: db::PairView| pair.attr),
    )
}

/// What a store path is: the pairs that built to it and the derivations it is
/// a sibling output of.
pub open spec fn identity_of(ix: index::IndexView, path: db::PathView) -> IdentifyAnswerView {
    IdentifyAnswerView {
        digest: path.digest,
        name: path.name,
        store_path: db::store_path_of(path),
        packages: builders_of(ix, path.id).map_values(|pair: db::PairView| package_entry(pair)),
        outputs: index::outputs_by_path_id(ix, path.id),
    }
}

/// What a store path or digest is identified as, or why it is not: the
/// database has no store data, the text names no store path, or the index has
/// never seen the digest.
pub open spec fn identified(ix: index::IndexView, target: Seq<char>) -> Result<
    IdentifyAnswerView,
    refusal::RefusalView,
> {
    if !index::has_store_data(ix) {
        Err(refusal::RefusalView::NoStoreData)
    } else {
        match digest_in(target) {
            Err(e) => Err(e),
            Ok(digest) => match index::store_path_by_digest(ix, digest) {
                None => Err(refusal::RefusalView::UnseenDigest { digest }),
                Some(path) => Ok(identity_of(ix, path)),
            },
        }
    }
}

pub open spec fn package_line(entry: PackageEntryView) -> Seq<char> {
    "  package  "@ + entry.attr + " "@ + output::painted(entry.version, output::Style::Green)
        + state_of(entry.tip)
}

pub open spec fn output_line(entry: (Seq<char>, Seq<char>)) -> Seq<char> {
    "  output   "@ + entry.1 + " of "@ + entry.0
}

/// What `mvs identify` prints: the full path, then each package and each
/// derivation it comes from, or that it is a mere dependency.
pub open spec fn identify_lines(answer: IdentifyAnswerView) -> Seq<Seq<char>> {
    let known = seq![answer.store_path] + answer.packages.map_values(
        |entry: PackageEntryView| package_line(entry),
    ) + answer.outputs.map_values(|entry: (Seq<char>, Seq<char>)| output_line(entry));
    if answer.packages.len() == 0 && answer.outputs.len() == 0 {
        known.push(
            output::painted(
                "  a dependency path — nothing in the index builds to it directly"@,
                output::Style::Dimmed,
            ),
        )
    } else {
        known
    }
}

fn show_package(entry: &PackageEntry) -> (r: String)
    ensures
        r@ == package_line(entry.deep_view()),
{
    let mut line: String = cat3("  package  ", entry.attr.as_str(), " ");
    line.append(output::paint(entry.version.as_str(), output::current()).as_str());
    line.append(state_text(entry.tip));
    line
}

fn show_output(entry: &(String, String)) -> (r: String)
    ensures
        r@ == output_line(entry.deep_view()),
{
    let mut line: String = cat3("  output   ", entry.1.as_str(), " of ");
    line.append(entry.0.as_str());
    line
}

fn show_identity(answer: &IdentifyAnswer) -> (r: Vec<String>)
    ensures
        r.deep_view() == identify_lines(answer.deep_view()),
{
    let mut lines: Vec<String> = vec![answer.store_path.clone()];
    assert(lines.deep_view() =~= seq![answer.store_path@]);
    let packages: Vec<String> = rows::map_rows(
        &answer.packages,
        |entry: &PackageEntry| -> (line: String)
            ensures
                line.deep_view() == package_line(entry.deep_view())
            { show_package(entry) },
        Ghost(|entry: PackageEntryView| package_line(entry)),
    );
    let outputs: Vec<String> = rows::map_rows(
        &answer.outputs,
        |entry: &(String, String)| -> (line: String)
            ensures
                line.deep_view() == output_line(entry.deep_view())
            { show_output(entry) },
        Ghost(|entry: (Seq<char>, Seq<char>)| output_line(entry)),
    );
    rows::extend_rows(&mut lines, &packages);
    rows::extend_rows(&mut lines, &outputs);
    assert(answer.packages.len() == answer.packages.deep_view().len());
    assert(answer.outputs.len() == answer.outputs.deep_view().len());
    if answer.packages.len() == 0 && answer.outputs.len() == 0 {
        let ghost before = lines.deep_view();
        lines.push(
            output::paint(
                "  a dependency path — nothing in the index builds to it directly",
                output::muted(),
            ),
        );
        assert(lines.deep_view() =~= before.push(
            output::painted(
                "  a dependency path — nothing in the index builds to it directly"@,
                output::Style::Dimmed,
            ),
        ));
    }
    lines
}

/// `mvs identify <store-path-or-digest>` — digest back to (attr, version).
///
/// Three answers, in order of usefulness: the pairs that built to this exact
/// path, the derivation it is a sibling output of, and — for a path only ever
/// seen as a reference — its name alone.
pub fn identify(index: &Index, target: &str, format: Format) -> (r: Result<
    Shown<IdentifyAnswer>,
    Refusal,
>)
    ensures
        refusal::agrees(
            r,
            match identified(index@, target@) {
                Ok(answer) => Ok(shown(answer, identify_lines(answer), format)),
                Err(e) => Err(e),
            },
        ),
{
    if let Err(e) = index.require_store_data() {
        return Err(e);
    }
    let digest: String = match digest_of(target) {
        Ok(digest) => digest,
        Err(e) => return Err(e),
    };
    let path: StorePath = match index.store_path_by_digest(digest.as_str()) {
        Some(path) => path,
        None => return Err(Refusal::UnseenDigest { digest }),
    };
    let own: Vec<i64> = vec![path.id];
    assert(own@ =~= seq![path.id]);
    let found: Vec<PairPath> = index.pairs_by_path_ids(own.as_slice());
    let keys: Vec<ByText> = rows::map_rows(
        &found,
        |pair: &PairPath| -> (key: ByText)
            ensures
                key.deep_view() == pair.deep_view().attr
            { ByText { text: pair.attr.clone() } },
        Ghost(|pair: db::PairView| pair.attr),
    );
    let pairs: Vec<PairPath> = order::sort_by_keys(&found, &keys);
    let packages: Vec<PackageEntry> = rows::map_rows(
        &pairs,
        |pair: &PairPath| -> (entry: PackageEntry)
            ensures
                entry.deep_view() == package_entry(pair.deep_view())
            {
                PackageEntry {
                    attr: pair.attr.clone(),
                    version: pair.version.clone(),
                    tip: pair.tip,
                }
            },
        Ghost(|pair: db::PairView| package_entry(pair)),
    );
    let outputs: Vec<(String, String)> = index.outputs_by_path_id(path.id);
    let store_path: String = path.store_path();
    let answer: IdentifyAnswer = IdentifyAnswer {
        digest: path.digest,
        name: path.name,
        store_path,
        packages,
        outputs,
    };
    match format {
        Format::Json => Ok(Shown::Json(answer)),
        Format::Text => Ok(Shown::Text(print_only(show_identity(&answer)))),
    }
}

/// A database without store data refuses every store command, and naming a
/// target to run, with the same sentence, whatever is asked.
pub proof fn no_command_answers_without_store_data(ix: index::IndexView, asked: Seq<char>)
    requires
        !index::has_store_data(ix),
    ensures
        guarded(ix, asked) == Err::<db::PairView, refusal::RefusalView>(
            refusal::RefusalView::NoStoreData,
        ),
        targeted(ix, asked) == Err::<TargetView, refusal::RefusalView>(
            refusal::RefusalView::NoStoreData,
        ),
        identified(ix, asked) == Err::<IdentifyAnswerView, refusal::RefusalView>(
            refusal::RefusalView::NoStoreData,
        ),
{
}

/// A resolved pair is one of the index, of the attribute the spec names, and
/// of a version the spec's version matches.
pub proof fn resolved_pairs_are_indexed(ix: index::IndexView, spec: Seq<char>)
    ensures
        resolved(ix, spec) matches Ok(pair) ==> ix.tables.pairs.contains(pair) && (solve::parsed(
            spec,
        ) matches Ok(constraint) && pair.attr == constraint.attr && (constraint.version matches Some(
            wanted,
        ) ==> solve::is_match(pair.version, wanted))),
{
    if let Ok(constraint) = solve::parsed(spec) {
        let of_attr = |row: db::PairView| row.attr == constraint.attr;
        let pairs = index::store_pairs_of(ix, constraint.attr);
        let candidates = solve::selected(pairs, pair_version(), constraint.version);
        if candidates.len() > 0 {
            let pair = chosen(candidates);
            tip_is_chosen_then_the_newest(candidates);
            if let Some(wanted) = constraint.version {
                solve::exact_versions_win(pairs, pair_version(), wanted, pair);
            }
            assert(pairs.contains(pair));
            let w = choose|w: int| 0 <= w < pairs.len() && pairs[w] == pair;
            ix.tables.pairs.lemma_filter_pred(of_attr, w);
            ix.tables.pairs.lemma_filter_contains_rev(of_attr, pair);
        }
    }
}

/// `identify` undoes `path`: of a path that `path` printed, `identify` names
/// the package, provided the digest belongs to that one path of the index.
pub proof fn identify_undoes_path(ix: index::IndexView, spec: Seq<char>, pair: db::PairView)
    requires
        guarded(ix, spec) == Ok::<db::PairView, refusal::RefusalView>(pair),
        is_digest(pair.path.digest),
        pair.path.name matches Some(name) ==> !name.contains('/'),
        index::store_path_by_digest(ix, pair.path.digest) == Some(pair.path),
    ensures
        identified(ix, db::store_path_of(pair.path)) matches Ok(answer) && answer.packages.contains(
            package_entry(pair),
        ) && answer.store_path == db::store_path_of(pair.path),
{
    spellings_agree(pair.path);
    resolved_pairs_are_indexed(ix, spec);
    let own = seq![pair.path.id];
    let pairs = index::pairs_by_path_ids(ix, own);
    index::path_lookup_finds_the_pairs(ix, own, pair);
    assert(own.contains(pair.path.id)) by {
        assert(own[0] == pair.path.id);
    }
    lemma_sorting_keeps::<db::PairView, ByText>(
        pairs,
        pairs.map_values(|p: db::PairView| p.attr),
        pair,
    );
    let builders = builders_of(ix, pair.path.id);
    let w = choose|w: int| 0 <= w < builders.len() && builders[w] == pair;
    let packages = identity_of(ix, pair.path).packages;
    assert(packages[w] == package_entry(pair));
}

} // verus!
