//! `mvs run` and `mvs shell` — two roads to the same program.
//!
//! The fast road is the default and needs no evaluation at all: the store-path
//! index already knows which `/nix/store` path the version built to, so the
//! path is substituted straight from the binary cache and executed.
//!
//! The eval road is the fallback and the `--eval` opt-out: `attr@version` is
//! resolved to the commit that shipped it and the rest is handed to Nix. That
//! is the only road for a version the store-path index never matched.
//!
//! This module decides; starting processes is left to the caller, who performs
//! the [`Action`] and hands back what came of it.
use vstd::prelude::*;
use vstd::string::*;

use crate::db;
use crate::db::{ByText, Revision, Run};
use crate::index;
use crate::index::Index;
use crate::order;
use crate::output;
use crate::refusal;
use crate::refusal::Refusal;
use crate::rows;
use crate::solve;
use crate::solve::Constraint;
use crate::store;
use crate::store::Target;
use crate::text;
use crate::text::{cat2, cat5};

verus! {

/// Where a revision is fetched from.
pub const NIXPKGS: &'static str = "github:NixOS/nixpkgs";

/// Whether to execute the resolved command or only show it.
#[derive(Clone, Copy, PartialEq, Eq, Structural, Debug)]
pub enum Execute {
    Yes,
    /// `--dry-run`: print the command line and stop.
    No,
}

/// Which road to the program: the store-path index, or an evaluation of the
/// revision that shipped it.
#[derive(Clone, Copy, PartialEq, Eq, Structural, Debug)]
pub enum Speed {
    /// Substitute the indexed store path and execute it. The default, and
    /// silently degrades to `Eval` when the version has no indexed path.
    Fast,
    /// `--eval`: resolve a revision and hand it to `nix run`/`nix shell`.
    Eval,
}

/// The indexed store path for a spec, unless the fast road is closed: it was
/// not asked for, the database carries no store data, or this version never
/// matched a cached build.
pub open spec fn fast_road(ix: index::IndexView, spec: Seq<char>, speed: Speed) -> Option<
    store::TargetView,
> {
    if speed == Speed::Eval || !index::has_store_data(ix) {
        None
    } else {
        match store::targeted(ix, spec) {
            Ok(target) => Some(target),
            Err(_) => None,
        }
    }
}

/// The indexed store path for a spec, or None when the fast road is closed.
/// None is no refusal here: the eval road answers.
pub fn fast_target(index: &Index, spec: &str, speed: Speed) -> (r: Option<Target>)
    ensures
        r.deep_view() == fast_road(index@, spec@, speed),
{
    if speed == Speed::Eval || !index.has_store_data() {
        return None;
    }
    match store::target(index, spec) {
        Ok(target) => Some(target),
        Err(_) => None,
    }
}

/// A flake installable, and the version and revision it stands for.
#[derive(Debug, Clone)]
pub struct Installable {
    pub installable: String,
    pub version: String,
    pub label: String,
}

pub struct InstallableView {
    pub installable: Seq<char>,
    pub version: Seq<char>,
    pub label: Seq<char>,
}

impl DeepView for Installable {
    type V = InstallableView;

    open spec fn deep_view(&self) -> InstallableView {
        InstallableView {
            installable: self.installable@,
            version: self.version@,
            label: self.label@,
        }
    }
}

/// The first run, oldest first, that covers an offset.
pub open spec fn run_at(ix: index::IndexView, attr: Seq<char>, off: i64) -> Option<db::RunView> {
    rows::first_where(
        index::runs_of(ix, attr),
        |run: db::RunView| run.first <= off && off <= run.last,
    )
}

/// The revision that shipped what a spec asks for, as a flake installable. The
/// newest revision that can be fetched is taken; a version no revision ever
/// had is refused, and so is one none that can be fetched has.
pub open spec fn installed(ix: index::IndexView, spec: Seq<char>) -> Result<
    InstallableView,
    refusal::RefusalView,
> {
    match solve::parsed(spec) {
        Err(e) => Err(e),
        Ok(constraint) => {
            let spans = solve::spans_in(ix, constraint);
            if spans.len() == 0 {
                Err(
                    refusal::RefusalView::NoSuchVersion {
                        wanted: solve::described(constraint),
                        attr: constraint.attr,
                    },
                )
            } else {
                match solve::pinnable_in(ix, spans) {
                    None => Err(
                        refusal::RefusalView::NotPinnable { wanted: solve::described(constraint) },
                    ),
                    Some(off) => match index::revision_at(ix, off) {
                        Err(e) => Err(e),
                        Ok(revision) => match run_at(ix, constraint.attr, off) {
                            None => Err(
                                refusal::RefusalView::NotInRevision {
                                    attr: constraint.attr,
                                    label: revision.label,
                                },
                            ),
                            Some(run) => Ok(
                                InstallableView {
                                    installable: NIXPKGS@ + "/"@ + revision.rev + "#"@
                                        + constraint.attr,
                                    version: run.version,
                                    label: revision.label,
                                },
                            ),
                        },
                    },
                }
            }
        },
    }
}

fn find_run_at(index: &Index, attr: &str, off: i64) -> (r: Option<Run>)
    ensures
        r.deep_view() == run_at(index@, attr@, off),
{
    let runs: Vec<Run> = index.runs_of(attr);
    rows::find(
        &runs,
        |run: &Run| -> (b: bool)
            ensures
                b == (run.deep_view().first <= off && off <= run.deep_view().last)
            { run.first <= off && off <= run.last },
        Ghost(|run: db::RunView| run.first <= off && off <= run.last),
    )
}

/// Resolve `attr[@version]` to a flake installable naming the revision that
/// shipped it: `github:NixOS/nixpkgs/<rev>#<attr>`.
pub fn installable(index: &Index, spec: &str) -> (r: Result<Installable, Refusal>)
    ensures
        refusal::agrees(r, installed(index@, spec@)),
{
    let constraint: Constraint = match Constraint::parse(spec) {
        Ok(constraint) => constraint,
        Err(e) => return Err(e),
    };
    let spans: Vec<(i64, i64)> = solve::spans_for(index, &constraint);
    if spans.len() == 0 {
        return Err(
            Refusal::NoSuchVersion { wanted: constraint.describe(), attr: constraint.attr },
        );
    }
    let off: i64 = match solve::newest_pinnable(index, &spans) {
        Some(off) => off,
        None => return Err(Refusal::NotPinnable { wanted: constraint.describe() }),
    };
    let revision: Revision = match index.revision(off) {
        Ok(revision) => revision,
        Err(e) => return Err(e),
    };
    match find_run_at(index, constraint.attr.as_str(), off) {
        None => Err(Refusal::NotInRevision { attr: constraint.attr, label: revision.label }),
        Some(run) => Ok(
            Installable {
                installable: cat5(
                    NIXPKGS,
                    "/",
                    revision.rev.as_str(),
                    "#",
                    constraint.attr.as_str(),
                ),
                version: run.version,
                label: revision.label,
            },
        ),
    }
}

/// A pinned offset names a revision and lies in a run of the attribute, so
/// once a version can be pinned, resolving it to an installable succeeds.
pub proof fn what_can_be_pinned_can_be_installed(ix: index::IndexView, spec: Seq<char>)
    ensures
        solve::parsed(spec) matches Ok(constraint) ==> (solve::pinnable_in(
            ix,
            solve::spans_in(ix, constraint),
        ) is Some ==> installed(ix, spec) is Ok),
{
    if let Ok(constraint) = solve::parsed(spec) {
        let spans = solve::spans_in(ix, constraint);
        let runs = index::runs_of(ix, constraint.attr);
        let kept = solve::selected(runs, solve::run_version(), constraint.version);
        solve::pins_the_newest_fetchable(ix, spans);
        if let Some(off) = solve::pinnable_in(ix, spans) {
            let k = choose|k: int|
                solve::is_pinnable(ix, spans, k) && ix.tables.revisions[k].off == off;
            let at = |row: db::RevisionView| row.off == off;
            ix.tables.revisions.lemma_filter_contains(at, k);
            let i = choose|i: int|
                0 <= i < spans.len() && (#[trigger] spans[i]).0 <= ix.tables.revisions[k].off
                    <= spans[i].1;
            let run = kept[i];
            assert(kept.contains(run));
            if let Some(wanted) = constraint.version {
                solve::exact_versions_win(runs, solve::run_version(), wanted, run);
            }
            assert(runs.contains(run));
            let covers = |r: db::RunView| r.first <= off && off <= r.last;
            let j = choose|j: int| 0 <= j < runs.len() && runs[j] == run;
            runs.lemma_filter_contains(covers, j);
        }
    }
}

/// What a spec resolved to on the eval road.
pub open spec fn eval_note(attr: Seq<char>, version: Seq<char>, label: Seq<char>) -> Seq<char> {
    output::painted(attr + " "@ + version + " from "@ + label, output::Style::Dimmed)
}

/// Report what a spec resolved to, beside the program's own output.
pub fn report(attr: &str, version: &str, label: &str) -> (r: String)
    ensures
        r@ == eval_note(attr@, version@, label@),
{
    let line: String = cat5(attr, " ", version, " from ", label);
    output::paint(line.as_str(), output::muted())
}

/// What a spec resolved to on the fast road.
pub open spec fn fast_note(target: store::TargetView) -> Seq<char> {
    output::painted(
        target.attr + " "@ + target.version + store::state_of(target.tip)
            + " from the store-path index"@,
        output::Style::Dimmed,
    )
}

/// Report a fast-road resolution, in the same muted shape as the eval road.
pub fn report_fast(target: &Target) -> (r: String)
    ensures
        r@ == fast_note(target.deep_view()),
{
    let line: String = cat5(
        target.attr.as_str(),
        " ",
        target.version.as_str(),
        store::state_text(target.tip),
        " from the store-path index",
    );
    output::paint(line.as_str(), output::muted())
}

/// What came of `nix-store --realise`.
#[derive(Debug, Clone)]
pub enum Realised {
    /// It could not be started.
    NotStarted { reason: String },
    /// It ran and failed.
    Failed,
    /// The path is in the store.
    Done,
}

/// What to make of an attempt to substitute a store path.
pub fn realise(store_path: &str, outcome: Realised) -> (r: Result<(), Refusal>)
    ensures
        match (r, outcome) {
            (Ok(_), Realised::Done) => true,
            (Err(e), Realised::Failed) => e@ == (refusal::RefusalView::NotSubstituted {
                store_path: store_path@,
            }),
            (Err(e), Realised::NotStarted { reason }) => e@
                == (refusal::RefusalView::NixStoreMissing { reason: reason@ }),
            _ => false,
        },
{
    match outcome {
        Realised::Done => Ok(()),
        Realised::Failed => Err(Refusal::NotSubstituted { store_path: store_path.to_string() }),
        Realised::NotStarted { reason } => Err(Refusal::NixStoreMissing { reason }),
    }
}

/// The `bin/` directory of a store path.
pub open spec fn bin_of(store_path: Seq<char>) -> Seq<char> {
    store_path + "/bin"@
}

/// The program to run out of a realised store path, given what its `bin/`
/// holds: the one named as the attribute, then the one named as the pname,
/// then the only one there is.
pub open spec fn program_of(
    store_path: Seq<char>,
    target: store::TargetView,
    entries: Option<Seq<Seq<char>>>,
) -> Result<Seq<char>, refusal::RefusalView> {
    match entries {
        None => Err(
            refusal::RefusalView::NothingToRun { attr: target.attr, version: target.version },
        ),
        Some(names) => if names.contains(target.attr) {
            Ok(bin_of(store_path) + "/"@ + target.attr)
        } else if target.pname is Some && names.contains(target.pname->0) {
            Ok(bin_of(store_path) + "/"@ + target.pname->0)
        } else if names.len() == 1 {
            Ok(bin_of(store_path) + "/"@ + names[0])
        } else {
            Err(
                refusal::RefusalView::ManyPrograms {
                    attr: target.attr,
                    version: target.version,
                    names: order::sorted_by::<Seq<char>, ByText>(names, names),
                },
            )
        },
    }
}

/// The executable to run out of a realised store path, given the entries of
/// its `bin/` directory, or none when that cannot be read.
///
/// The index records no main program, so the name is recovered from the path
/// itself: the attribute, then the derivation's pname, then a sole entry in
/// `bin/`. A package with several binaries and no obvious match is named
/// rather than guessed at.
pub fn program_in(store_path: &str, target: &Target, entries: Option<Vec<String>>) -> (r: Result<
    String,
    Refusal,
>)
    ensures
        refusal::agrees(
            r,
            program_of(store_path@, target.deep_view(), entries.deep_view()),
        ),
{
    let names: Vec<String> = match entries {
        Some(names) => names,
        None => return Err(
            Refusal::NothingToRun { attr: target.attr.clone(), version: target.version.clone() },
        ),
    };
    let mut bin: String = cat2(store_path, "/bin");
    bin.append("/");
    if text::holds_text(&names, &target.attr) {
        bin.append(target.attr.as_str());
        return Ok(bin);
    }
    if let Some(pname) = &target.pname {
        if text::holds_text(&names, pname) {
            bin.append(pname.as_str());
            return Ok(bin);
        }
    }
    assert(names.len() == names.deep_view().len());
    if names.len() == 1 {
        assert(names.deep_view()[0] == names@[0]@);
        bin.append(names[0].as_str());
        return Ok(bin);
    }
    Err(
        Refusal::ManyPrograms {
            attr: target.attr.clone(),
            version: target.version.clone(),
            names: store::sort_texts(&names),
        },
    )
}

/// A program that is found is an entry of `bin/`, named after the attribute
/// where there is one, and a sole entry is always found.
pub proof fn programs_are_found_in_bin(
    store_path: Seq<char>,
    target: store::TargetView,
    names: Seq<Seq<char>>,
)
    ensures
        program_of(store_path, target, Some(names)) matches Ok(program) ==> exists|i: int|
            0 <= i < names.len() && program == bin_of(store_path) + "/"@ + #[trigger] names[i],
        names.contains(target.attr) ==> program_of(store_path, target, Some(names)) == Ok::<
            Seq<char>,
            refusal::RefusalView,
        >(bin_of(store_path) + "/"@ + target.attr),
        names.len() == 1 ==> program_of(store_path, target, Some(names)) is Ok,
{
    if names.contains(target.attr) {
        let i = choose|i: int| 0 <= i < names.len() && names[i] == target.attr;
        assert(names[i] == target.attr);
    } else if target.pname is Some && names.contains(target.pname->0) {
        let i = choose|i: int| 0 <= i < names.len() && names[i] == target.pname->0;
        assert(names[i] == target.pname->0);
    } else if names.len() == 1 {
        assert(names[0] == names[0]);
    }
}

/// What is left to do once a command is resolved.
#[derive(Debug, Clone)]
pub enum Action {
    /// Print a line and stop.
    Print { line: String },
    /// Substitute the target's store path, find the program in it and hand
    /// over to it with these arguments.
    Realise { target: Target, args: Vec<String> },
    /// Hand over to `nix` with these arguments.
    Nix { argv: Vec<String> },
}

pub enum ActionView {
    Print { line: Seq<char> },
    Realise { target: store::TargetView, args: Seq<Seq<char>> },
    Nix { argv: Seq<Seq<char>> },
}

impl DeepView for Action {
    type V = ActionView;

    open spec fn deep_view(&self) -> ActionView {
        match *self {
            Action::Print { line } => ActionView::Print { line: line@ },
            Action::Realise { target, args } => ActionView::Realise {
                target: target.deep_view(),
                args: args.deep_view(),
            },
            Action::Nix { argv } => ActionView::Nix { argv: argv.deep_view() },
        }
    }
}

/// What a command comes to: notes to print first, then something to do or a
/// refusal.
#[derive(Debug)]
pub struct Plan {
    pub notes: Vec<String>,
    pub result: Result<Action, Refusal>,
}

pub struct PlanView {
    pub notes: Seq<Seq<char>>,
    pub result: Result<ActionView, refusal::RefusalView>,
}

/// Whether a plan is the wanted one.
pub open spec fn is_plan(plan: Plan, wanted: PlanView) -> bool {
    plan.notes.deep_view() == wanted.notes && refusal::agrees(plan.result, wanted.result)
}

/// Handing over to `nix`, or the command line under `--dry-run`.
pub open spec fn handed_over(argv: Seq<Seq<char>>, execute: Execute) -> ActionView {
    if execute == Execute::No {
        ActionView::Print { line: "nix "@ + text::joined(argv, " "@) }
    } else {
        ActionView::Nix { argv }
    }
}

/// Hand over to `nix`, or print the command line under `--dry-run`.
pub fn exec(argv: Vec<String>, execute: Execute) -> (r: Action)
    ensures
        r.deep_view() == handed_over(argv.deep_view(), execute),
{
    if execute == Execute::No {
        Action::Print { line: cat2("nix ", text::join(&argv, " ").as_str()) }
    } else {
        Action::Nix { argv }
    }
}

/// The arguments `nix run` is given.
pub open spec fn run_argv(installable: Seq<char>, args: Seq<Seq<char>>) -> Seq<Seq<char>> {
    if args.len() == 0 {
        seq!["run"@, installable]
    } else {
        seq!["run"@, installable, "--"@] + args
    }
}

/// What `mvs run` comes to.
pub open spec fn run_plan(
    ix: index::IndexView,
    spec: Seq<char>,
    args: Seq<Seq<char>>,
    execute: Execute,
    speed: Speed,
) -> PlanView {
    match fast_road(ix, spec, speed) {
        Some(target) => PlanView {
            notes: seq![fast_note(target)],
            result: Ok(
                if execute == Execute::No {
                    ActionView::Print { line: "nix-store --realise "@ + target.store_path }
                } else {
                    ActionView::Realise { target, args }
                },
            ),
        },
        None => match installed(ix, spec) {
            Err(e) => PlanView { notes: Seq::empty(), result: Err(e) },
            Ok(found) => PlanView {
                notes: seq![
                    eval_note(text::before_first(spec, '@'), found.version, found.label),
                ],
                result: Ok(handed_over(run_argv(found.installable, args), execute)),
            },
        },
    }
}

fn note(line: String) -> (r: Vec<String>)
    ensures
        r.deep_view() == seq![line@],
{
    let notes: Vec<String> = vec![line];
    assert(notes.deep_view() =~= seq![line@]);
    notes
}

fn no_notes() -> (r: Vec<String>)
    ensures
        r.deep_view() == Seq::<Seq<char>>::empty(),
{
    let notes: Vec<String> = Vec::new();
    assert(notes.deep_view() =~= Seq::<Seq<char>>::empty());
    notes
}

/// `mvs run <attr>[@ver] [-- args...]`
pub fn run(index: &Index, spec: &str, args: &Vec<String>, execute: Execute, speed: Speed) -> (r:
    Plan)
    ensures
        is_plan(r, run_plan(index@, spec@, args.deep_view(), execute, speed)),
{
    if let Some(target) = fast_target(index, spec, speed) {
        let notes: Vec<String> = note(report_fast(&target));
        if execute == Execute::No {
            let line: String = cat2("nix-store --realise ", target.store_path.as_str());
            return Plan { notes, result: Ok(Action::Print { line }) };
        }
        let args: Vec<String> = order::duplicate_all(args);
        return Plan { notes, result: Ok(Action::Realise { target, args }) };
    }
    match installable(index, spec) {
        Err(e) => Plan { notes: no_notes(), result: Err(e) },
        Ok(found) => {
            let attr: &str = text::head_before(spec, '@');
            let notes: Vec<String> = note(
                report(attr, found.version.as_str(), found.label.as_str()),
            );
            let ghost place = found.installable@;
            let mut argv: Vec<String> = vec!["run".to_string(), found.installable];
            assert(argv.deep_view() =~= seq!["run"@, place]);
            assert(args.len() == args.deep_view().len());
            if args.len() > 0 {
                argv.push("--".to_string());
                assert(argv.deep_view() =~= seq!["run"@, place, "--"@]);
                rows::extend_rows(&mut argv, args);
            }
            Plan { notes, result: Ok(exec(argv, execute)) }
        },
    }
}

/// What `nix shell` is asked for one spec: a store path where one is indexed,
/// else a flake installable, with the note that says so.
pub open spec fn shell_entry(ix: index::IndexView, spec: Seq<char>, speed: Speed) -> Result<
    (Seq<char>, Seq<char>),
    refusal::RefusalView,
> {
    match fast_road(ix, spec, speed) {
        Some(target) => Ok((target.store_path, fast_note(target))),
        None => match installed(ix, spec) {
            Ok(found) => Ok(
                (
                    found.installable,
                    eval_note(text::before_first(spec, '@'), found.version, found.label),
                ),
            ),
            Err(e) => Err(e),
        },
    }
}

/// The first of the specs that is refused, counted from `from`.
pub open spec fn first_refused(
    ix: index::IndexView,
    specs: Seq<Seq<char>>,
    speed: Speed,
    from: int,
) -> int
    decreases specs.len() - from,
{
    if from >= specs.len() || shell_entry(ix, specs[from], speed) is Err {
        from
    } else {
        first_refused(ix, specs, speed, from + 1)
    }
}

/// The notes on the first `n` specs.
pub open spec fn shell_notes(
    ix: index::IndexView,
    specs: Seq<Seq<char>>,
    speed: Speed,
    n: int,
) -> Seq<Seq<char>> {
    specs.take(n).map_values(|spec: Seq<char>| shell_entry(ix, spec, speed)->Ok_0.1)
}

/// The arguments `nix shell` is given: an entry per spec, and a command where
/// there is one.
pub open spec fn shell_argv(
    ix: index::IndexView,
    specs: Seq<Seq<char>>,
    args: Seq<Seq<char>>,
    speed: Speed,
) -> Seq<Seq<char>> {
    let places = seq!["shell"@] + specs.map_values(
        |spec: Seq<char>| shell_entry(ix, spec, speed)->Ok_0.0,
    );
    if args.len() == 0 {
        places
    } else {
        places + seq!["--command"@] + args
    }
}

/// What `mvs shell` comes to. Specs before a refused one are still reported.
pub open spec fn shell_plan(
    ix: index::IndexView,
    specs: Seq<Seq<char>>,
    args: Seq<Seq<char>>,
    execute: Execute,
    speed: Speed,
) -> PlanView {
    let n = first_refused(ix, specs, speed, 0);
    PlanView {
        notes: shell_notes(ix, specs, speed, n),
        result: if n < specs.len() {
            Err(shell_entry(ix, specs[n], speed)->Err_0)
        } else {
            Ok(handed_over(shell_argv(ix, specs, args, speed), execute))
        },
    }
}

fn find_shell_entry(index: &Index, spec: &str, speed: Speed) -> (r: Result<
    (String, String),
    Refusal,
>)
    ensures
        refusal::agrees(r, shell_entry(index@, spec@, speed)),
{
    if let Some(target) = fast_target(index, spec, speed) {
        let line: String = report_fast(&target);
        return Ok((target.store_path, line));
    }
    match installable(index, spec) {
        Ok(found) => {
            let attr: &str = text::head_before(spec, '@');
            let line: String = report(attr, found.version.as_str(), found.label.as_str());
            Ok((found.installable, line))
        },
        Err(e) => Err(e),
    }
}

/// `mvs shell <attr>[@ver]... [-- command args...]`
///
/// `nix shell` takes a store path as an installable, so a spec with an indexed
/// path skips its revision entirely. Specs mix freely: one package can come
/// from the index and the next from an evaluation.
pub fn shell(
    index: &Index,
    specs: &Vec<String>,
    args: &Vec<String>,
    execute: Execute,
    speed: Speed,
) -> (r: Plan)
    ensures
        is_plan(
            r,
            shell_plan(index@, specs.deep_view(), args.deep_view(), execute, speed),
        ),
{
    let ghost all = specs.deep_view();
    let ghost ix = index@;
    let ghost place = |spec: Seq<char>| shell_entry(ix, spec, speed)->Ok_0.0;
    let mut notes: Vec<String> = no_notes();
    let mut argv: Vec<String> = vec!["shell".to_string()];
    let mut i: usize = 0;
    assert(notes.deep_view() =~= shell_notes(ix, all, speed, 0));
    assert(argv.deep_view() =~= seq!["shell"@] + all.take(0).map_values(place));
    while i < specs.len()
        invariant
            i <= specs.len(),
            all == specs.deep_view(),
            ix == index@,
            place == (|spec: Seq<char>| shell_entry(ix, spec, speed)->Ok_0.0),
            first_refused(ix, all, speed, 0) == first_refused(ix, all, speed, i as int),
            notes.deep_view() == shell_notes(ix, all, speed, i as int),
            argv.deep_view() == seq!["shell"@] + all.take(i as int).map_values(place),
        decreases specs.len() - i,
    {
        assert(all[i as int] == specs@[i as int]@);
        match find_shell_entry(index, specs[i].as_str(), speed) {
            Err(e) => return Plan { notes, result: Err(e) },
            Ok((entry, line)) => {
                let ghost noted = notes.deep_view();
                let ghost placed = argv.deep_view();
                notes.push(line);
                argv.push(entry);
                assert(notes.deep_view() =~= noted.push(line@));
                assert(argv.deep_view() =~= placed.push(entry@));
                assert(notes.deep_view() =~= shell_notes(ix, all, speed, i + 1));
                assert(argv.deep_view() =~= seq!["shell"@] + all.take(i + 1).map_values(place));
            },
        }
        i = i + 1;
    }
    assert(all.take(i as int) =~= all);
    assert(args.len() == args.deep_view().len());
    if args.len() > 0 {
        let ghost placed = argv.deep_view();
        argv.push("--command".to_string());
        assert(argv.deep_view() =~= placed + seq!["--command"@]);
        rows::extend_rows(&mut argv, args);
    }
    Plan { notes, result: Ok(exec(argv, execute)) }
}

/// A dry run does nothing but print, on either road and for either command.
pub proof fn dry_runs_only_print(
    ix: index::IndexView,
    spec: Seq<char>,
    specs: Seq<Seq<char>>,
    args: Seq<Seq<char>>,
    speed: Speed,
)
    ensures
        run_plan(ix, spec, args, Execute::No, speed).result matches Ok(action) ==> action is Print,
        shell_plan(ix, specs, args, Execute::No, speed).result matches Ok(action)
            ==> action is Print,
{
}

/// The fast road degrades in silence: where it is closed, `run` does what it
/// does under `--eval`, and under `--eval` nothing is ever realised.
pub proof fn a_closed_fast_road_is_the_eval_road(
    ix: index::IndexView,
    spec: Seq<char>,
    args: Seq<Seq<char>>,
    execute: Execute,
)
    ensures
        fast_road(ix, spec, Speed::Fast) is None ==> run_plan(ix, spec, args, execute, Speed::Fast)
            == run_plan(ix, spec, args, execute, Speed::Eval),
        run_plan(ix, spec, args, execute, Speed::Eval).result matches Ok(action)
            ==> action !is Realise,
        !index::has_store_data(ix) ==> fast_road(ix, spec, Speed::Fast) is None,
{
}

/// The fast road is open just where `mvs path` has an answer, and substitutes
/// the path it prints.
pub proof fn the_fast_road_takes_the_printed_path(ix: index::IndexView, spec: Seq<char>)
    ensures
        match store::guarded(ix, spec) {
            Ok(pair) => fast_road(ix, spec, Speed::Fast) matches Some(target) && target.store_path
                == db::store_path_of(pair.path),
            Err(_) => fast_road(ix, spec, Speed::Fast) is None,
        },
{
}

/// `shell` is refused just where one of its specs is, with the refusal of the
/// first such spec; the specs before it have been reported by then, and those
/// only.
pub proof fn shells_are_refused_at_the_first_refused_spec(
    ix: index::IndexView,
    specs: Seq<Seq<char>>,
    args: Seq<Seq<char>>,
    execute: Execute,
    speed: Speed,
)
    ensures
        match shell_plan(ix, specs, args, execute, speed).result {
            Ok(_) => (forall|i: int|
                0 <= i < specs.len() ==> shell_entry(ix, #[trigger] specs[i], speed) is Ok)
                && shell_plan(ix, specs, args, execute, speed).notes.len() == specs.len(),
            Err(e) => exists|n: int|
                0 <= n < specs.len() && shell_entry(ix, #[trigger] specs[n], speed) == Err::<
                    (Seq<char>, Seq<char>),
                    refusal::RefusalView,
                >(e) && (forall|i: int|
                    0 <= i < n ==> shell_entry(ix, #[trigger] specs[i], speed) is Ok)
                    && shell_plan(ix, specs, args, execute, speed).notes.len() == n,
        },
{
    lemma_first_refused(ix, specs, speed, 0);
    let n = first_refused(ix, specs, speed, 0);
    if n < specs.len() {
        assert(shell_entry(ix, specs[n], speed) is Err);
    }
}

proof fn lemma_first_refused(ix: index::IndexView, specs: Seq<Seq<char>>, speed: Speed, from: int)
    requires
        0 <= from <= specs.len(),
    ensures
        from <= first_refused(ix, specs, speed, from) <= specs.len(),
        first_refused(ix, specs, speed, from) < specs.len() ==> shell_entry(
            ix,
            specs[first_refused(ix, specs, speed, from)],
            speed,
        ) is Err,
        forall|i: int|
            from <= i < first_refused(ix, specs, speed, from) ==> shell_entry(
                ix,
                #[trigger] specs[i],
                speed,
            ) is Ok,
    decreases specs.len() - from,
{
    if from < specs.len() && shell_entry(ix, specs[from], speed) is Ok {
        lemma_first_refused(ix, specs, speed, from + 1);
    }
}

} // verus!
