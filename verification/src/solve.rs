//! Package specs: `attr` or `attr@version`, and what they select.
use vstd::prelude::*;
use vstd::string::*;

use crate::db;
use crate::db::Run;
use crate::index;
use crate::index::Index;
use crate::refusal;
use crate::refusal::Refusal;
use crate::rows;
use crate::text;
use crate::text::cat3;

verus! {

/// A package spec, taken apart.
#[derive(Debug, Clone)]
pub struct Constraint {
    pub attr: String,
    pub version: Option<String>,
}

pub struct ConstraintView {
    pub attr: Seq<char>,
    pub version: Option<Seq<char>>,
}

impl DeepView for Constraint {
    type V = ConstraintView;

    open spec fn deep_view(&self) -> ConstraintView {
        ConstraintView { attr: self.attr@, version: self.version.deep_view() }
    }
}

/// What a spec says: an attribute, and a version when there is an `@`. Neither
/// may be empty.
pub open spec fn parsed(spec: Seq<char>) -> Result<ConstraintView, refusal::RefusalView> {
    match spec.index_of_first('@') {
        None => if spec.len() == 0 {
            Err(refusal::RefusalView::BadSpec { spec })
        } else {
            Ok(ConstraintView { attr: spec, version: None })
        },
        Some(i) => if i == 0 || i == spec.len() - 1 {
            Err(refusal::RefusalView::BadSpec { spec })
        } else {
            Ok(ConstraintView { attr: spec.take(i), version: Some(spec.skip(i + 1)) })
        },
    }
}

/// A spec put back together.
pub open spec fn described(constraint: ConstraintView) -> Seq<char> {
    match constraint.version {
        Some(version) => constraint.attr + "@"@ + version,
        None => constraint.attr,
    }
}

impl Constraint {
    /// Take a spec apart at its first `@`.
    pub fn parse(spec: &str) -> (r: Result<Constraint, Refusal>)
        ensures
            refusal::agrees(r, parsed(spec@)),
    {
        let chars: Vec<char> = text::chars_of(spec);
        proof {
            spec@.index_of_first_ensures('@');
        }
        match text::position_of(&chars, '@') {
            None => {
                if chars.len() == 0 {
                    Err(Refusal::BadSpec { spec: spec.to_string() })
                } else {
                    Ok(Constraint { attr: spec.to_string(), version: None })
                }
            },
            Some(i) => {
                if i == 0 || i == chars.len() - 1 {
                    Err(Refusal::BadSpec { spec: spec.to_string() })
                } else {
                    let attr: String = spec.substring_char(0, i).to_string();
                    let version: String = spec.substring_char(i + 1, chars.len()).to_string();
                    Ok(Constraint { attr, version: Some(version) })
                }
            },
        }
    }

    /// The spec this constraint stands for.
    pub fn describe(&self) -> (r: String)
        ensures
            r@ == described(self.deep_view()),
    {
        match &self.version {
            Some(version) => cat3(self.attr.as_str(), "@", version.as_str()),
            None => self.attr.clone(),
        }
    }
}

/// A spec that can be taken apart comes back the same when it is put together.
pub proof fn describing_undoes_parsing(spec: Seq<char>)
    ensures
        parsed(spec) matches Ok(constraint) ==> described(constraint) == spec
            && constraint.attr == text::before_first(spec, '@'),
{
    reveal_strlit("@");
    spec.index_of_first_ensures('@');
    if let Some(i) = spec.index_of_first('@') {
        assert(spec =~= spec.take(i) + "@"@ + spec.skip(i + 1));
    }
}

/// Whether a version is the wanted one, or goes on from it with a dot: `3.8.9`
/// is a `3.8`, and `3.10.2` is no `3.1`.
pub open spec fn is_match(version: Seq<char>, wanted: Seq<char>) -> bool {
    version == wanted || (wanted + "."@).is_prefix_of(version)
}

/// Whether a version is the wanted one, or goes on from it with a dot.
pub fn matches(version: &str, wanted: &str) -> (r: bool)
    ensures
        r == is_match(version@, wanted@),
{
    proof {
        reveal_strlit(".");
    }
    let have: Vec<char> = text::chars_of(version);
    let want: Vec<char> = text::chars_of(wanted);
    let ghost longer = wanted@ + "."@;
    let mut i: usize = 0;
    while i < want.len()
        invariant
            have@ == version@,
            want@ == wanted@,
            longer == wanted@ + "."@,
            i <= want.len(),
            i <= have.len(),
            forall|j: int| 0 <= j < i ==> have@[j] == want@[j],
        decreases want.len() - i,
    {
        if i >= have.len() || have[i] != want[i] {
            proof {
                if longer.is_prefix_of(version@) {
                    assert(longer[i as int] == version@[i as int]);
                }
            }
            return false;
        }
        i = i + 1;
    }
    if have.len() == want.len() {
        assert(version@ =~= wanted@);
        return true;
    }
    let dotted: bool = have[i] == '.';
    proof {
        if dotted {
            assert(longer =~= version@.take(longer.len() as int));
        } else if longer.is_prefix_of(version@) {
            assert(longer[i as int] == version@[i as int]);
        }
    }
    dotted
}

/// Being of just the wanted version.
pub open spec fn being_at<A>(version_of: spec_fn(A) -> Seq<char>, wanted: Seq<char>) -> spec_fn(
    A,
) -> bool {
    |thing: A| version_of(thing) == wanted
}

/// Being of a version that matches the wanted one.
pub open spec fn being_like<A>(version_of: spec_fn(A) -> Seq<char>, wanted: Seq<char>) -> spec_fn(
    A,
) -> bool {
    |thing: A| is_match(version_of(thing), wanted)
}

/// What a version spec selects: exact matches when there are any, otherwise
/// component-wise prefix matches, everything when no version was given.
pub open spec fn selected<A>(
    things: Seq<A>,
    version_of: spec_fn(A) -> Seq<char>,
    wanted: Option<Seq<char>>,
) -> Seq<A> {
    match wanted {
        None => things,
        Some(version) => {
            let exact = things.filter(being_at(version_of, version));
            if exact.len() > 0 {
                exact
            } else {
                things.filter(being_like(version_of, version))
            }
        },
    }
}

proof fn lemma_filter_is_of_the_fitting<A>(things: Seq<A>, fits: spec_fn(A) -> bool, thing: A)
    ensures
        things.filter(fits).contains(thing) <==> things.contains(thing) && fits(thing),
{
    let kept = things.filter(fits);
    if kept.contains(thing) {
        let w = choose|w: int| 0 <= w < kept.len() && kept[w] == thing;
        things.lemma_filter_pred(fits, w);
        things.lemma_filter_contains_rev(fits, thing);
    }
    if things.contains(thing) && fits(thing) {
        let i = choose|i: int| 0 <= i < things.len() && things[i] == thing;
        things.lemma_filter_contains(fits, i);
    }
}

/// An exact version beats those that go on from it: when anything has just the
/// wanted version, what is selected is what has it; otherwise it is what
/// matches. Without a wanted version everything is selected.
pub proof fn exact_versions_win<A>(
    things: Seq<A>,
    version_of: spec_fn(A) -> Seq<char>,
    wanted: Seq<char>,
    thing: A,
)
    ensures
        selected(things, version_of, None) == things,
        (exists|i: int| 0 <= i < things.len() && version_of(#[trigger] things[i]) == wanted) ==> (
        selected(things, version_of, Some(wanted)).contains(thing) <==> things.contains(thing)
            && version_of(thing) == wanted),
        !(exists|i: int| 0 <= i < things.len() && version_of(#[trigger] things[i]) == wanted) ==> (
        selected(things, version_of, Some(wanted)).contains(thing) <==> things.contains(thing)
            && is_match(version_of(thing), wanted)),
{
    let same = being_at(version_of, wanted);
    let like = being_like(version_of, wanted);
    lemma_filter_is_of_the_fitting(things, same, thing);
    lemma_filter_is_of_the_fitting(things, like, thing);
    if exists|i: int| 0 <= i < things.len() && version_of(#[trigger] things[i]) == wanted {
        let i = choose|i: int| 0 <= i < things.len() && version_of(#[trigger] things[i]) == wanted;
        things.lemma_filter_contains(same, i);
    } else if things.filter(same).len() > 0 {
        let first = things.filter(same)[0];
        assert(things.filter(same).contains(first));
        lemma_filter_is_of_the_fitting(things, same, first);
        let i = choose|i: int| 0 <= i < things.len() && things[i] == first;
        assert(version_of(things[i]) == wanted);
    }
}

/// The version of a run.
pub open spec fn run_version() -> spec_fn(db::RunView) -> Seq<char> {
    |run: db::RunView| run.version
}

/// The stretches of revisions that had what a constraint asks for, oldest
/// first.
pub open spec fn spans_in(ix: index::IndexView, constraint: ConstraintView) -> Seq<(i64, i64)> {
    selected(
        index::runs_of(ix, constraint.attr),
        run_version(),
        constraint.version,
    ).map_values(|run: db::RunView| (run.first, run.last))
}

fn matching_runs(runs: Vec<Run>, wanted: &Option<String>) -> (r: Vec<Run>)
    ensures
        r.deep_view() == selected(
            runs.deep_view(),
            run_version(),
            wanted.deep_view(),
        ),
{
    match wanted {
        None => runs,
        Some(version) => {
            let exact: Vec<Run> = rows::select(
                &runs,
                |run: &Run| -> (b: bool)
                    ensures
                        b == (run.deep_view().version == version@)
                    { run.version == *version },
                Ghost(being_at(run_version(), version@)),
            );
            assert(exact.len() == exact.deep_view().len());
            if exact.len() > 0 {
                exact
            } else {
                rows::select(
                    &runs,
                    |run: &Run| -> (b: bool)
                        ensures
                            b == is_match(run.deep_view().version, version@)
                        { matches(run.version.as_str(), version.as_str()) },
                    Ghost(being_like(run_version(), version@)),
                )
            }
        },
    }
}

/// The stretches of revisions that had what a constraint asks for, oldest
/// first.
pub fn spans_for(index: &Index, constraint: &Constraint) -> (r: Vec<(i64, i64)>)
    ensures
        r@ == spans_in(index@, constraint.deep_view()),
{
    let runs: Vec<Run> = matching_runs(
        index.runs_of(constraint.attr.as_str()),
        &constraint.version,
    );
    let spans: Vec<(i64, i64)> = rows::map_rows(
        &runs,
        |run: &Run| -> (span: (i64, i64))
            ensures
                span.deep_view() == (run.deep_view().first, run.deep_view().last)
            { (run.first, run.last) },
        Ghost(|run: db::RunView| (run.first, run.last)),
    );
    assert(spans.deep_view() =~= spans@);
    spans
}

/// The higher of two offsets, where there are any.
pub open spec fn later_of(a: Option<i64>, b: Option<i64>) -> Option<i64> {
    match (a, b) {
        (Some(x), Some(y)) => if x <= y {
            Some(y)
        } else {
            Some(x)
        },
        (Some(x), None) => Some(x),
        (None, _) => b,
    }
}

/// The newest offset in any of the spans that can be materialised.
pub open spec fn pinnable_in(ix: index::IndexView, spans: Seq<(i64, i64)>) -> Option<i64>
    decreases spans.len(),
{
    if spans.len() == 0 {
        None
    } else {
        later_of(
            pinnable_in(ix, spans.drop_last()),
            index::newest_offset_in(ix, spans.last().0, spans.last().1),
        )
    }
}

/// The newest offset in any of the spans that can be materialised.
pub fn newest_pinnable(index: &Index, spans: &Vec<(i64, i64)>) -> (r: Option<i64>)
    ensures
        r == pinnable_in(index@, spans@),
{
    let mut best: Option<i64> = None;
    let mut i: usize = 0;
    while i < spans.len()
        invariant
            i <= spans.len(),
            best == pinnable_in(index@, spans@.take(i as int)),
        decreases spans.len() - i,
    {
        assert(spans@.take(i + 1).drop_last() =~= spans@.take(i as int));
        let here: Option<i64> = index.newest_materialisable_in(spans[i].0, spans[i].1);
        best = match (best, here) {
            (Some(x), Some(y)) => {
                if x <= y {
                    Some(y)
                } else {
                    Some(x)
                }
            },
            (Some(x), None) => Some(x),
            (None, _) => here,
        };
        i = i + 1;
    }
    assert(spans@.take(i as int) =~= spans@);
    best
}

/// Whether a revision can be materialised and its offset lies in one of the
/// spans.
pub open spec fn is_pinnable(ix: index::IndexView, spans: Seq<(i64, i64)>, k: int) -> bool {
    &&& 0 <= k < ix.tables.revisions.len()
    &&& ix.tables.revisions[k].narhash is Some
    &&& exists|i: int|
        0 <= i < spans.len() && (#[trigger] spans[i]).0 <= ix.tables.revisions[k].off <= spans[i].1
}

/// What is pinned can be fetched and has the version asked for, and nothing
/// newer does: it is the offset of a revision with a narHash in one of the
/// spans, the highest of them, and there is one as soon as there is such a
/// revision.
pub proof fn pins_the_newest_fetchable(ix: index::IndexView, spans: Seq<(i64, i64)>)
    ensures
        pinnable_in(ix, spans) matches Some(off) ==> exists|k: int|
            is_pinnable(ix, spans, k) && ix.tables.revisions[k].off == off,
        forall|k: int| #[trigger]
            is_pinnable(ix, spans, k) ==> (pinnable_in(ix, spans) matches Some(off)
                && ix.tables.revisions[k].off <= off),
    decreases spans.len(),
{
    if spans.len() > 0 {
        let fewer = spans.drop_last();
        pins_the_newest_fetchable(ix, fewer);
        let (first, last) = spans.last();
        let fits = |row: db::RevisionView| row.narhash is Some && first <= row.off <= last;
        index::newest_is_the_highest(ix.tables.revisions, fits);
        let here = index::newest_offset_in(ix, first, last);
        let n = spans.len() - 1;
        assert(spans[n] == (first, last));
        if let Some(off) = here {
            let k = choose|k: int|
                0 <= k < ix.tables.revisions.len() && fits(#[trigger] ix.tables.revisions[k])
                    && ix.tables.revisions[k].off == off;
            assert(spans[n].0 <= ix.tables.revisions[k].off <= spans[n].1);
            assert(is_pinnable(ix, spans, k));
        }
        if let Some(off) = pinnable_in(ix, fewer) {
            let k = choose|k: int|
                is_pinnable(ix, fewer, k) && ix.tables.revisions[k].off == off;
            let i = choose|i: int|
                0 <= i < fewer.len() && (#[trigger] fewer[i]).0 <= ix.tables.revisions[k].off
                    <= fewer[i].1;
            assert(spans[i] == fewer[i]);
            assert(is_pinnable(ix, spans, k));
        }
        assert forall|k: int| #[trigger] is_pinnable(ix, spans, k) implies (pinnable_in(
            ix,
            spans,
        ) matches Some(off) && ix.tables.revisions[k].off <= off) by {
            let i = choose|i: int|
                0 <= i < spans.len() && (#[trigger] spans[i]).0 <= ix.tables.revisions[k].off
                    <= spans[i].1;
            if i < n {
                assert(spans[i] == fewer[i]);
                assert(is_pinnable(ix, fewer, k));
            } else {
                assert(fits(ix.tables.revisions[k]));
            }
        }
    }
}

} // verus!
