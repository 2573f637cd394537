//! The rows of the database: which revisions of nixpkgs there are, which
//! versions each attribute had over them, and which store paths those versions
//! built to.
use vstd::prelude::*;
use vstd::string::*;

use crate::order;
use crate::order::{Duplicate, Ranked};
use crate::rows;
use crate::text;
use crate::text::cat3;

verus! {

/// The environment variable that names the database.
pub const DB_ENV: &'static str = "MVS_DB";

/// Where store paths live. Joined with `<digest>-<name>` to print a full path.
pub const STORE_DIR: &'static str = "/nix/store";

/// The meta key of a database built with store-path data.
pub const STORE_META_KEY: &'static str = "store_paths";

/// The meta key that holds how many revisions the history covers.
pub const REVISION_COUNT_KEY: &'static str = "revisionCount";

/// How many values one lookup by a list of them carries at a time.
pub const SQL_IN_CHUNK: usize = 900;

/// How many characters of a commit hash a revision label carries.
pub const LABEL_HASH_LEN: usize = 12;

/// One indexed revision of nixpkgs.
#[derive(Debug, Clone)]
pub struct Revision {
    /// Offset into the date-ordered list of revisions.
    pub off: i64,
    pub rev: String,
    pub date: String,
    /// The channel's own name for it. Absent for release commits.
    pub name: Option<String>,
    pub narhash: Option<String>,
    /// `YYYY-MM-DD-<12 hex>`, the handle every other command accepts back.
    pub label: String,
}

pub struct RevisionView {
    pub off: i64,
    pub rev: Seq<char>,
    pub date: Seq<char>,
    pub name: Option<Seq<char>>,
    pub narhash: Option<Seq<char>>,
    pub label: Seq<char>,
}

impl DeepView for Revision {
    type V = RevisionView;

    open spec fn deep_view(&self) -> RevisionView {
        RevisionView {
            off: self.off,
            rev: self.rev@,
            date: self.date@,
            name: self.name.deep_view(),
            narhash: self.narhash.deep_view(),
            label: self.label@,
        }
    }
}

/// A release channel's current tip.
#[derive(Debug, Clone)]
pub struct Release {
    pub name: String,
    pub rev: String,
    pub date: String,
    pub build: Option<i64>,
    pub channel_name: Option<String>,
}

pub struct ReleaseView {
    pub name: Seq<char>,
    pub rev: Seq<char>,
    pub date: Seq<char>,
    pub build: Option<i64>,
    pub channel_name: Option<Seq<char>>,
}

impl DeepView for Release {
    type V = ReleaseView;

    open spec fn deep_view(&self) -> ReleaseView {
        ReleaseView {
            name: self.name@,
            rev: self.rev@,
            date: self.date@,
            build: self.build,
            channel_name: self.channel_name.deep_view(),
        }
    }
}

/// An unbroken stretch of revisions over which an attribute held one version.
#[derive(Debug, Clone)]
pub struct Run {
    pub version: String,
    pub first: i64,
    pub last: i64,
}

pub struct RunView {
    pub version: Seq<char>,
    pub first: i64,
    pub last: i64,
}

impl DeepView for Run {
    type V = RunView;

    open spec fn deep_view(&self) -> RunView {
        RunView { version: self.version@, first: self.first, last: self.last }
    }
}

/// A run, and the attribute it is a run of.
#[derive(Debug, Clone)]
pub struct AttrRun {
    pub attr: String,
    pub run: Run,
}

pub struct AttrRunView {
    pub attr: Seq<char>,
    pub run: RunView,
}

impl DeepView for AttrRun {
    type V = AttrRunView;

    open spec fn deep_view(&self) -> AttrRunView {
        AttrRunView { attr: self.attr@, run: self.run.deep_view() }
    }
}

/// One interned store path: a digest, and the name after the dash when any
/// source of the data knew it.
#[derive(Debug, Clone)]
pub struct StorePath {
    /// Row id, the integer every reference edge carries.
    pub id: i64,
    pub digest: String,
    pub name: Option<String>,
}

pub struct PathView {
    pub id: i64,
    pub digest: Seq<char>,
    pub name: Option<Seq<char>>,
}

impl DeepView for StorePath {
    type V = PathView;

    open spec fn deep_view(&self) -> PathView {
        PathView { id: self.id, digest: self.digest@, name: self.name.deep_view() }
    }
}

/// An (attr, version) pair matched to the store path it built to.
#[derive(Debug, Clone)]
pub struct PairPath {
    pub attr: String,
    pub version: String,
    pub path: StorePath,
    /// True when the pair is current at the index tip.
    pub tip: bool,
    /// Offset the digest was found at, when older than the pair's newest run.
    pub found_off: Option<i64>,
}

pub struct PairView {
    pub attr: Seq<char>,
    pub version: Seq<char>,
    pub path: PathView,
    pub tip: bool,
    pub found_off: Option<i64>,
}

impl DeepView for PairPath {
    type V = PairView;

    open spec fn deep_view(&self) -> PairView {
        PairView {
            attr: self.attr@,
            version: self.version@,
            path: self.path.deep_view(),
            tip: self.tip,
            found_off: self.found_off,
        }
    }
}

/// Cache facts about one store path. Every field is optional: the narinfo and
/// the closure walk are separate artifacts, and either can be missing.
#[derive(Debug, Clone, Copy)]
pub struct PathDetails {
    /// True while the path is still downloadable from the binary cache.
    pub live: Option<bool>,
    /// Unpacked NAR bytes.
    pub nar_size: Option<i64>,
    /// Compressed download bytes.
    pub file_size: Option<i64>,
    pub closure_bytes: Option<i64>,
    pub closure_paths: Option<i64>,
    /// Closure members no longer in the cache.
    pub closure_dead: Option<i64>,
}

impl DeepView for PathDetails {
    type V = PathDetails;

    open spec fn deep_view(&self) -> PathDetails {
        *self
    }
}

/// The cache facts of one store path, by its row id.
#[derive(Debug, Clone, Copy)]
pub struct PathInfo {
    pub path_id: i64,
    pub details: PathDetails,
}

impl DeepView for PathInfo {
    type V = PathInfo;

    open spec fn deep_view(&self) -> PathInfo {
        *self
    }
}

/// A sibling output of a multi-output package: cups-2.4.2's `dev`, `lib`, …
#[derive(Debug, Clone)]
pub struct SiblingOutput {
    pub suffix: String,
    pub path: StorePath,
    pub nar_size: Option<i64>,
}

pub struct SiblingView {
    pub suffix: Seq<char>,
    pub path: PathView,
    pub nar_size: Option<i64>,
}

impl DeepView for SiblingOutput {
    type V = SiblingView;

    open spec fn deep_view(&self) -> SiblingView {
        SiblingView {
            suffix: self.suffix@,
            path: self.path.deep_view(),
            nar_size: self.nar_size,
        }
    }
}

/// Which derivation a store path is an output of, and under which suffix.
#[derive(Debug, Clone)]
pub struct OutputRow {
    pub drv_name: String,
    pub suffix: String,
    pub path_id: i64,
    pub nar_size: Option<i64>,
}

pub struct OutputRowView {
    pub drv_name: Seq<char>,
    pub suffix: Seq<char>,
    pub path_id: i64,
    pub nar_size: Option<i64>,
}

impl DeepView for OutputRow {
    type V = OutputRowView;

    open spec fn deep_view(&self) -> OutputRowView {
        OutputRowView {
            drv_name: self.drv_name@,
            suffix: self.suffix@,
            path_id: self.path_id,
            nar_size: self.nar_size,
        }
    }
}

/// One reference: the store path `src` holds a reference to the store path
/// `dst`, both by row id.
#[derive(Debug, Clone, Copy)]
pub struct Reference {
    pub src: i64,
    pub dst: i64,
}

impl DeepView for Reference {
    type V = Reference;

    open spec fn deep_view(&self) -> Reference {
        *self
    }
}

/// The rows of the database, table by table.
#[derive(Debug, Clone)]
pub struct Tables {
    pub meta: Vec<(String, String)>,
    pub revisions: Vec<Revision>,
    pub releases: Vec<Release>,
    pub attrs: Vec<String>,
    pub runs: Vec<AttrRun>,
    pub store_paths: Vec<StorePath>,
    pub pairs: Vec<PairPath>,
    pub path_info: Vec<PathInfo>,
    pub path_refs: Vec<Reference>,
    pub outputs: Vec<OutputRow>,
}

pub struct TablesView {
    pub meta: Seq<(Seq<char>, Seq<char>)>,
    pub revisions: Seq<RevisionView>,
    pub releases: Seq<ReleaseView>,
    pub attrs: Seq<Seq<char>>,
    pub runs: Seq<AttrRunView>,
    pub store_paths: Seq<PathView>,
    pub pairs: Seq<PairView>,
    pub path_info: Seq<PathInfo>,
    pub path_refs: Seq<Reference>,
    pub outputs: Seq<OutputRowView>,
}

impl View for Tables {
    type V = TablesView;

    open spec fn view(&self) -> TablesView {
        TablesView {
            meta: self.meta.deep_view(),
            revisions: self.revisions.deep_view(),
            releases: self.releases.deep_view(),
            attrs: self.attrs.deep_view(),
            runs: self.runs.deep_view(),
            store_paths: self.store_paths.deep_view(),
            pairs: self.pairs.deep_view(),
            path_info: self.path_info.deep_view(),
            path_refs: self.path_refs.deep_view(),
            outputs: self.outputs.deep_view(),
        }
    }
}

pub(crate) fn duplicate_name(name: &Option<String>) -> (r: Option<String>)
    ensures
        r.deep_view() == name.deep_view(),
{
    match name {
        Some(text) => Some(text.clone()),
        None => None,
    }
}

impl Duplicate for (String, String) {
    fn duplicate(&self) -> (r: Self) {
        (self.0.clone(), self.1.clone())
    }
}

impl Duplicate for i64 {
    fn duplicate(&self) -> (r: Self) {
        *self
    }
}

impl Duplicate for (i64, String) {
    fn duplicate(&self) -> (r: Self) {
        (self.0, self.1.clone())
    }
}

impl Duplicate for Revision {
    fn duplicate(&self) -> (r: Self) {
        Revision {
            off: self.off,
            rev: self.rev.clone(),
            date: self.date.clone(),
            name: duplicate_name(&self.name),
            narhash: duplicate_name(&self.narhash),
            label: self.label.clone(),
        }
    }
}

impl Duplicate for Release {
    fn duplicate(&self) -> (r: Self) {
        Release {
            name: self.name.clone(),
            rev: self.rev.clone(),
            date: self.date.clone(),
            build: self.build,
            channel_name: duplicate_name(&self.channel_name),
        }
    }
}

impl Duplicate for Run {
    fn duplicate(&self) -> (r: Self) {
        Run { version: self.version.clone(), first: self.first, last: self.last }
    }
}

impl Duplicate for AttrRun {
    fn duplicate(&self) -> (r: Self) {
        AttrRun { attr: self.attr.clone(), run: self.run.duplicate() }
    }
}

impl Duplicate for StorePath {
    fn duplicate(&self) -> (r: Self) {
        StorePath { id: self.id, digest: self.digest.clone(), name: duplicate_name(&self.name) }
    }
}

impl Duplicate for PairPath {
    fn duplicate(&self) -> (r: Self) {
        PairPath {
            attr: self.attr.clone(),
            version: self.version.clone(),
            path: self.path.duplicate(),
            tip: self.tip,
            found_off: self.found_off,
        }
    }
}

impl Duplicate for PathInfo {
    fn duplicate(&self) -> (r: Self) {
        *self
    }
}

impl Duplicate for Reference {
    fn duplicate(&self) -> (r: Self) {
        *self
    }
}

impl Duplicate for SiblingOutput {
    fn duplicate(&self) -> (r: Self) {
        SiblingOutput {
            suffix: self.suffix.clone(),
            path: self.path.duplicate(),
            nar_size: self.nar_size,
        }
    }
}

impl Duplicate for OutputRow {
    fn duplicate(&self) -> (r: Self) {
        OutputRow {
            drv_name: self.drv_name.clone(),
            suffix: self.suffix.clone(),
            path_id: self.path_id,
            nar_size: self.nar_size,
        }
    }
}

/// A text as something to sort by, in dictionary order.
pub struct ByText {
    pub text: String,
}

impl DeepView for ByText {
    type V = Seq<char>;

    open spec fn deep_view(&self) -> Seq<char> {
        self.text@
    }
}

impl Ranked for ByText {
    open spec fn at_most(a: Seq<char>, b: Seq<char>) -> bool {
        text::text_at_most(a, b)
    }

    proof fn rank_is_total(a: Seq<char>, b: Seq<char>) {
        text::dictionary_order_is_total(a, b);
    }

    proof fn rank_is_transitive(a: Seq<char>, b: Seq<char>, c: Seq<char>) {
        text::dictionary_order_is_transitive(a, b, c);
    }

    fn is_at_most(&self, other: &Self) -> (r: bool) {
        text::is_text_at_most(self.text.as_str(), other.text.as_str())
    }
}

/// A number as something to sort by.
pub struct ByNumber {
    pub number: i64,
}

impl DeepView for ByNumber {
    type V = i64;

    open spec fn deep_view(&self) -> i64 {
        self.number
    }
}

impl Ranked for ByNumber {
    open spec fn at_most(a: i64, b: i64) -> bool {
        a <= b
    }

    proof fn rank_is_total(a: i64, b: i64) {
    }

    proof fn rank_is_transitive(a: i64, b: i64, c: i64) {
    }

    fn is_at_most(&self, other: &Self) -> (r: bool) {
        self.number <= other.number
    }
}

/// `<digest>-<name>`, or the bare digest for a path whose name was never
/// seen.
pub open spec fn basename_of(path: PathView) -> Seq<char> {
    match path.name {
        Some(name) => path.digest + "-"@ + name,
        None => path.digest,
    }
}

/// The full `/nix/store/…` path.
pub open spec fn store_path_of(path: PathView) -> Seq<char> {
    STORE_DIR@ + "/"@ + basename_of(path)
}

impl StorePath {
    /// `<digest>-<name>`, or the bare digest for a path whose name was never
    /// seen.
    pub fn basename(&self) -> (r: String)
        ensures
            r@ == basename_of(self.deep_view()),
    {
        match &self.name {
            Some(name) => cat3(self.digest.as_str(), "-", name.as_str()),
            None => self.digest.clone(),
        }
    }

    /// The full `/nix/store/…` path.
    pub fn store_path(&self) -> (r: String)
        ensures
            r@ == store_path_of(self.deep_view()),
    {
        cat3(STORE_DIR, "/", self.basename().as_str())
    }
}

/// Runs by the offset they start at.
pub open spec fn runs_by_first(runs: Seq<RunView>) -> Seq<RunView> {
    order::sorted_by::<RunView, ByNumber>(runs, runs.map_values(|run: RunView| run.first))
}

/// Sort runs by the offset they start at.
pub(crate) fn oldest_runs_first(runs: &Vec<Run>) -> (r: Vec<Run>)
    ensures
        r.deep_view() == runs_by_first(runs.deep_view()),
{
    let keys: Vec<ByNumber> = rows::map_rows(
        runs,
        |run: &Run| -> (key: ByNumber)
            ensures
                key.deep_view() == run.deep_view().first
            { ByNumber { number: run.first } },
        Ghost(|run: RunView| run.first),
    );
    order::sort_by_keys(runs, &keys)
}

/// The things in the order they are first met, each once.
pub open spec fn firsts<A>(things: Seq<A>) -> Seq<A>
    decreases things.len(),
{
    if things.len() == 0 {
        things
    } else if firsts(things.drop_last()).contains(things.last()) {
        firsts(things.drop_last())
    } else {
        firsts(things.drop_last()).push(things.last())
    }
}

/// The runs of one version.
pub open spec fn runs_at(runs: Seq<RunView>, version: Seq<char>) -> Seq<RunView> {
    runs.filter(|run: RunView| run.version == version)
}

/// The versions of some runs.
pub open spec fn versions_in(runs: Seq<RunView>) -> Seq<Seq<char>> {
    runs.map_values(|run: RunView| run.version)
}

/// One entry per version, in the order the versions are first met, each with
/// its runs, oldest first.
pub open spec fn grouped(runs: Seq<RunView>) -> Seq<(Seq<char>, Seq<RunView>)> {
    firsts(versions_in(runs)).map_values(
        |version: Seq<char>| (version, runs_by_first(runs_at(runs, version))),
    )
}

/// The distinct texts of a list, in the order they are first met.
pub(crate) fn first_texts(texts: &Vec<String>) -> (r: Vec<String>)
    ensures
        r.deep_view() == firsts(texts.deep_view()),
{
    let mut out: Vec<String> = Vec::new();
    let mut i: usize = 0;
    let ghost all = texts.deep_view();
    assert(out.deep_view() =~= Seq::<Seq<char>>::empty());
    while i < texts.len()
        invariant
            i <= texts.len(),
            all == texts.deep_view(),
            out.deep_view() == firsts(all.take(i as int)),
        decreases texts.len() - i,
    {
        assert(all.take(i + 1).drop_last() =~= all.take(i as int));
        assert(all.take(i + 1).last() == texts@[i as int]@);
        if !text::holds_text(&out, &texts[i]) {
            let ghost before = out.deep_view();
            out.push(texts[i].clone());
            assert(out.deep_view() =~= before.push(all[i as int]));
        }
        i = i + 1;
    }
    assert(all.take(i as int) =~= all);
    out
}

/// Group a flat list of runs into one entry per version, oldest run first. Two
/// runs of the same version mean the version left and came back.
pub fn group_by_version(runs: Vec<Run>) -> (r: Vec<(String, Vec<Run>)>)
    ensures
        r.deep_view() == grouped(runs.deep_view()),
{
    let every: Vec<String> = rows::map_rows(
        &runs,
        |run: &Run| -> (version: String)
            ensures
                version.deep_view() == run.deep_view().version
            { run.version.clone() },
        Ghost(|run: RunView| run.version),
    );
    let versions: Vec<String> = first_texts(&every);
    rows::map_rows(
        &versions,
        |version: &String| -> (entry: (String, Vec<Run>))
            ensures
                entry.deep_view() == (
                    version@,
                    runs_by_first(runs_at(runs.deep_view(), version@)),
                )
            { (version.clone(), runs_of_version(&runs, version)) },
        Ghost(
            |version: Seq<char>|
                (version, runs_by_first(runs_at(runs.deep_view(), version))),
        ),
    )
}

fn runs_of_version(runs: &Vec<Run>, version: &String) -> (r: Vec<Run>)
    ensures
        r.deep_view() == runs_by_first(runs_at(runs.deep_view(), version@)),
{
    let found: Vec<Run> = rows::select(
        runs,
        |run: &Run| -> (b: bool)
            ensures
                b == (run.deep_view().version == version@)
            { run.version == *version },
        Ghost(|run: RunView| run.version == version@),
    );
    oldest_runs_first(&found)
}

/// Dropping later repeats keeps what there is, each thing once.
pub proof fn firsts_are_all_and_distinct<A>(things: Seq<A>)
    ensures
        firsts(things).no_duplicates(),
        forall|x: A| #[trigger] firsts(things).contains(x) <==> things.contains(x),
    decreases things.len(),
{
    if things.len() > 0 {
        let fewer = things.drop_last();
        let last = things.last();
        firsts_are_all_and_distinct(fewer);
        assert(things =~= fewer.push(last));
        let kept = firsts(fewer);
        assert forall|x: A| #[trigger] firsts(things).contains(x) <==> things.contains(x) by {
            broadcast use vstd::seq_lib::group_seq_properties;

            assert(things == fewer.push(last));
        }
        if !kept.contains(last) {
            let all = kept.push(last);
            assert forall|i: int, j: int|
                0 <= i < all.len() && 0 <= j < all.len() && i != j implies all[i] != all[j] by {
                if i < kept.len() {
                    assert(kept.contains(kept[i]));
                }
                if j < kept.len() {
                    assert(kept.contains(kept[j]));
                }
            }
        }
    }
}

/// Things are kept in the order they are first met: a thing kept earlier is
/// met before any meeting of one kept later.
pub proof fn firsts_keep_the_order_of_meeting<A>(things: Seq<A>, i: int, j: int)
    requires
        0 <= i < j < firsts(things).len(),
    ensures
        exists|p: int|
            0 <= p < things.len() && #[trigger] things[p] == firsts(things)[i] && (forall|q: int|
                0 <= q < things.len() && #[trigger] things[q] == firsts(things)[j] ==> p < q),
    decreases things.len(),
{
    let fewer = things.drop_last();
    let last = things.len() - 1;
    let kept = firsts(fewer);
    firsts_are_all_and_distinct(fewer);
    firsts_are_all_and_distinct(things);
    assert(forall|k: int| 0 <= k < kept.len() ==> firsts(things)[k] == kept[k]);
    if j < kept.len() {
        firsts_keep_the_order_of_meeting(fewer, i, j);
        let p = choose|p: int|
            0 <= p < fewer.len() && #[trigger] fewer[p] == kept[i] && (forall|q: int|
                0 <= q < fewer.len() && #[trigger] fewer[q] == kept[j] ==> p < q);
        assert(things[p] == firsts(things)[i]);
        assert forall|q: int|
            0 <= q < things.len() && #[trigger] things[q] == firsts(things)[j] implies p < q by {
            if q < last {
                assert(fewer[q] == kept[j]);
            }
        }
    } else {
        assert(kept.contains(kept[i]));
        let p = choose|p: int| 0 <= p < fewer.len() && fewer[p] == kept[i];
        assert(things[p] == firsts(things)[i]);
        assert forall|q: int|
            0 <= q < things.len() && #[trigger] things[q] == firsts(things)[j] implies p < q by {
            if q < last {
                assert(fewer[q] == things[last]);
                assert(fewer.contains(things[last]));
                assert(kept.contains(things[last]));
            }
        }
    }
}

/// Grouping runs by version loses none and invents none: no version has two
/// entries, a version has an entry when some run is of it, and an entry holds
/// the runs of its version, oldest first.
pub proof fn grouping_partitions_the_runs(runs: Seq<RunView>)
    ensures
        forall|i: int, j: int|
            0 <= i < j < grouped(runs).len() ==> (#[trigger] grouped(runs)[i]).0 != (
            #[trigger] grouped(runs)[j]).0,
        forall|k: int|
            0 <= k < runs.len() ==> exists|i: int|
                0 <= i < grouped(runs).len() && (#[trigger] grouped(runs)[i]).0 == (
                #[trigger] runs[k]).version,
        forall|i: int|
            0 <= i < grouped(runs).len() ==> (#[trigger] grouped(runs)[i]).1.to_multiset()
                == runs_at(runs, grouped(runs)[i].0).to_multiset() && grouped(runs)[i].1.len() > 0,
        forall|i: int, p: int, q: int|
            0 <= i < grouped(runs).len() && 0 <= p < q < grouped(runs)[i].1.len() ==> (
            #[trigger] grouped(runs)[i].1[p]).first <= (#[trigger] grouped(runs)[i].1[q]).first,
{
    let versions = versions_in(runs);
    firsts_are_all_and_distinct(versions);
    let g = grouped(runs);
    assert forall|k: int| 0 <= k < runs.len() implies exists|i: int|
        0 <= i < g.len() && (#[trigger] g[i]).0 == (#[trigger] runs[k]).version by {
        assert(versions[k] == runs[k].version);
        assert(firsts(versions).contains(versions[k]));
        let i = choose|i: int| 0 <= i < firsts(versions).len() && firsts(versions)[i] == versions[k];
        assert(g[i].0 == runs[k].version);
    }
    assert forall|i: int| 0 <= i < g.len() implies (#[trigger] g[i]).1.to_multiset() == runs_at(
        runs,
        g[i].0,
    ).to_multiset() && g[i].1.len() > 0 by {
        let found = runs_at(runs, g[i].0);
        let keys = found.map_values(|run: RunView| run.first);
        order::sorting_arranges::<RunView, ByNumber>(found, keys);
        assert(firsts(versions).contains(g[i].0)) by {
            assert(firsts(versions)[i] == g[i].0);
        }
        let k = choose|k: int| 0 <= k < versions.len() && versions[k] == g[i].0;
        runs.lemma_filter_contains(|run: RunView| run.version == g[i].0, k);
    }
    assert forall|i: int, p: int, q: int|
        0 <= i < g.len() && 0 <= p < q < g[i].1.len() implies (#[trigger] g[i].1[p]).first <= (
    #[trigger] g[i].1[q]).first by {
        let found = runs_at(runs, g[i].0);
        let keys = found.map_values(|run: RunView| run.first);
        order::sorting_arranges::<RunView, ByNumber>(found, keys);
        let ranked = order::picked(keys, order::order_of::<ByNumber>(keys));
        order::sorted_order_exists::<ByNumber>(keys);
        assert(g[i].1[p].first == ranked[p]);
        assert(g[i].1[q].first == ranked[q]);
        assert(ByNumber::at_most(ranked[p], ranked[q]));
    }
}

/// The runs that some entries list, entry by entry.
pub open spec fn listed(groups: Seq<(Seq<char>, Seq<RunView>)>) -> Seq<RunView>
    decreases groups.len(),
{
    if groups.len() == 0 {
        Seq::empty()
    } else {
        listed(groups.drop_last()) + groups.last().1
    }
}

proof fn lemma_filter_all_or_none(runs: Seq<RunView>, version: Seq<char>, wanted: Seq<char>)
    requires
        is_all_of(runs, version),
    ensures
        runs_at(runs, wanted) == if version == wanted {
            runs
        } else {
            Seq::empty()
        },
    decreases runs.len(),
{
    reveal(Seq::filter);
    if runs.len() > 0 {
        let fewer = runs.drop_last();
        assert forall|k: int| 0 <= k < fewer.len() implies (#[trigger] fewer[k]).version
            == version by {
            assert(fewer[k] == runs[k]);
        }
        lemma_filter_all_or_none(fewer, version, wanted);
        assert(runs[runs.len() - 1].version == version);
        assert(runs =~= fewer.push(runs.last()));
    }
}

proof fn lemma_one_more_first<A>(things: Seq<A>, more: Seq<A>, thing: A)
    requires
        !things.contains(thing),
        more.len() > 0,
        forall|k: int| 0 <= k < more.len() ==> #[trigger] more[k] == thing,
    ensures
        firsts(things + more) == firsts(things).push(thing),
    decreases more.len(),
{
    let fewer = more.drop_last();
    let all = things + more;
    assert(all.drop_last() =~= things + fewer);
    assert(more[more.len() - 1] == thing);
    assert(all.last() == thing);
    if fewer.len() == 0 {
        assert(things + fewer =~= things);
        firsts_are_all_and_distinct(things);
    } else {
        assert forall|k: int| 0 <= k < fewer.len() implies #[trigger] fewer[k] == thing by {
            assert(fewer[k] == more[k]);
        }
        lemma_one_more_first(things, fewer, thing);
        let kept = firsts(things).push(thing);
        assert(kept[kept.len() - 1] == thing);
        assert(kept.contains(thing));
    }
}

/// Whether entries have distinct versions, and each lists runs of its version
/// and at least one.
spec fn is_grouping(groups: Seq<(Seq<char>, Seq<RunView>)>) -> bool {
    &&& forall|i: int, j: int|
        0 <= i < j < groups.len() ==> (#[trigger] groups[i]).0 != (#[trigger] groups[j]).0
    &&& forall|i: int| 0 <= i < groups.len() ==> (#[trigger] groups[i]).1.len() > 0
    &&& forall|i: int|
        0 <= i < groups.len() ==> is_all_of((#[trigger] groups[i]).1, groups[i].0)
}

spec fn is_all_of(runs: Seq<RunView>, version: Seq<char>) -> bool {
    forall|k: int| 0 <= k < runs.len() ==> (#[trigger] runs[k]).version == version
}

proof fn lemma_fewer_groups(groups: Seq<(Seq<char>, Seq<RunView>)>)
    requires
        is_grouping(groups),
        groups.len() > 0,
    ensures
        is_grouping(groups.drop_last()),
{
    let fewer = groups.drop_last();
    assert forall|i: int, j: int| 0 <= i < j < fewer.len() implies (#[trigger] fewer[i]).0 != (
    #[trigger] fewer[j]).0 by {
        assert(groups[i].0 != groups[j].0);
    }
    assert forall|i: int| 0 <= i < fewer.len() implies (#[trigger] fewer[i]).1.len() > 0 by {
        assert(groups[i].1.len() > 0);
    }
    assert forall|i: int| 0 <= i < fewer.len() implies is_all_of(
        (#[trigger] fewer[i]).1,
        fewer[i].0,
    ) by {
        assert(is_all_of(groups[i].1, groups[i].0));
    }
}

/// The runs of a version among those listed are those its entry lists.
proof fn lemma_listed_runs(groups: Seq<(Seq<char>, Seq<RunView>)>, version: Seq<char>)
    requires
        is_grouping(groups),
    ensures
        forall|i: int|
            0 <= i < groups.len() && (#[trigger] groups[i]).0 == version ==> runs_at(
                listed(groups),
                version,
            ) == groups[i].1,
        (forall|i: int| 0 <= i < groups.len() ==> (#[trigger] groups[i]).0 != version) ==> runs_at(
            listed(groups),
            version,
        ) == Seq::<RunView>::empty(),
    decreases groups.len(),
{
    if groups.len() == 0 {
        reveal(Seq::filter);
    } else {
        let fewer = groups.drop_last();
        let n = groups.len() - 1;
        let last = groups[n];
        lemma_fewer_groups(groups);
        lemma_listed_runs(fewer, version);
        let before = listed(fewer);
        assert(is_all_of(last.1, last.0));
        Seq::filter_distributes_over_add(before, last.1, |run: RunView| run.version == version);
        lemma_filter_all_or_none(last.1, last.0, version);
        assert(runs_at(listed(groups), version) == runs_at(before, version) + runs_at(
            last.1,
            version,
        ));
        assert forall|i: int| 0 <= i < fewer.len() implies (#[trigger] fewer[i]) == groups[i] by {}
        if last.0 == version {
            assert forall|i: int| 0 <= i < fewer.len() implies (#[trigger] fewer[i]).0
                != version by {
                assert(groups[i].0 != groups[n].0);
            }
            assert(runs_at(listed(groups), version) =~= last.1);
        } else {
            assert(runs_at(listed(groups), version) =~= runs_at(before, version));
            assert forall|i: int|
                0 <= i < groups.len() && (#[trigger] groups[i]).0 == version implies runs_at(
                listed(groups),
                version,
            ) == groups[i].1 by {
                assert(i < n);
                assert(fewer[i].0 == version);
            }
            if forall|i: int| 0 <= i < groups.len() ==> (#[trigger] groups[i]).0 != version {
                assert forall|i: int| 0 <= i < fewer.len() implies (#[trigger] fewer[i]).0
                    != version by {
                    assert(groups[i].0 != version);
                }
            }
        }
    }
}

/// The versions of an entry list, entry by entry.
spec fn versions_of(groups: Seq<(Seq<char>, Seq<RunView>)>) -> Seq<Seq<char>> {
    groups.map_values(|group: (Seq<char>, Seq<RunView>)| group.0)
}

/// The versions among the runs listed are first met in entry order.
proof fn lemma_listed_versions(groups: Seq<(Seq<char>, Seq<RunView>)>)
    requires
        is_grouping(groups),
    ensures
        firsts(versions_in(listed(groups))) == versions_of(groups),
    decreases groups.len(),
{
    if groups.len() == 0 {
        assert(versions_in(listed(groups)) =~= Seq::<Seq<char>>::empty());
        assert(versions_of(groups) =~= Seq::<Seq<char>>::empty());
    } else {
        let fewer = groups.drop_last();
        let n = groups.len() - 1;
        let last = groups[n];
        lemma_fewer_groups(groups);
        lemma_listed_versions(fewer);
        let a = versions_in(listed(fewer));
        let b = versions_in(last.1);
        assert(versions_in(listed(groups)) =~= a + b);
        firsts_are_all_and_distinct(a);
        assert(!a.contains(last.0)) by {
            if a.contains(last.0) {
                assert(firsts(a).contains(last.0));
                let i = choose|i: int| 0 <= i < firsts(a).len() && firsts(a)[i] == last.0;
                assert(versions_of(fewer)[i] == groups[i].0);
                assert(groups[i].0 != groups[n].0);
            }
        }
        assert(is_all_of(last.1, last.0));
        assert forall|k: int| 0 <= k < b.len() implies #[trigger] b[k] == last.0 by {
            assert(last.1[k].version == last.0);
        }
        lemma_one_more_first(a, b, last.0);
        assert(versions_of(groups) =~= versions_of(fewer).push(last.0));
    }
}

/// Grouping what a grouping lists, entry by entry, gives the same grouping.
pub proof fn grouping_again_changes_nothing(runs: Seq<RunView>)
    ensures
        grouped(listed(grouped(runs))) == grouped(runs),
{
    let g = grouped(runs);
    let flat = listed(g);
    let first = |run: RunView| run.first;
    grouping_partitions_the_runs(runs);
    assert forall|i: int| 0 <= i < g.len() implies is_all_of((#[trigger] g[i]).1, g[i].0) by {
        let fits = |run: RunView| run.version == g[i].0;
        let found = runs_at(runs, g[i].0);
        order::sorted_things_ascend::<RunView, ByNumber>(found, first);
        assert(g[i].1 == order::sorted_by::<RunView, ByNumber>(found, found.map_values(first)));
        assert forall|k: int| 0 <= k < g[i].1.len() implies (#[trigger] g[i].1[k]).version
            == g[i].0 by {
            assert(g[i].1.contains(g[i].1[k]));
            let w = choose|w: int| 0 <= w < found.len() && found[w] == g[i].1[k];
            runs.lemma_filter_pred(fits, w);
        }
    }
    assert(is_grouping(g));
    lemma_listed_versions(g);
    assert(versions_of(g) =~= firsts(versions_in(runs)));
    let again = grouped(flat);
    assert forall|i: int| 0 <= i < g.len() implies again[i] == g[i] by {
        assert(versions_of(g)[i] == g[i].0);
        lemma_listed_runs(g, g[i].0);
        assert(runs_at(flat, g[i].0) == g[i].1);
        let keys = g[i].1.map_values(first);
        assert forall|p: int, q: int| 0 <= p < q < keys.len() implies ByNumber::at_most(
            #[trigger] keys[p],
            #[trigger] keys[q],
        ) by {
            assert(g[i].1[p].first <= g[i].1[q].first);
        }
        order::sorting_leaves_the_sorted_alone::<RunView, ByNumber>(g[i].1, keys);
        assert(runs_by_first(g[i].1) == g[i].1);
    }
    assert(again =~= g);
}

} // verus!
