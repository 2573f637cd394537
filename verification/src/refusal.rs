//! What can go wrong, and the sentence each refusal is answered with.
use vstd::prelude::*;
use vstd::string::*;

use crate::text;
use crate::text::{cat2, cat3, cat5};

verus! {

/// A refusal.
#[derive(Debug, Clone)]
pub enum Refusal {
    /// Neither `--db` nor the environment names a database.
    NoDatabase,
    /// The named database is not there.
    MissingDatabase { path: String },
    /// The database is there but cannot be opened.
    UnopenedDatabase { path: String },
    /// The database does not say how many revisions it covers.
    NoRevisionCount,
    /// What it says is not a number.
    BadRevisionCount,
    /// No revision has this offset.
    NoRevision { off: i64 },
    /// No revision can be materialised.
    NoTip,
    /// The search pattern could not be matched.
    PatternRefused,
    /// The database was built without store-path data.
    NoStoreData,
    /// A spec that is not `attr` or `attr@version`.
    BadSpec { spec: String },
    /// An attribute the index never saw.
    UnknownAttr { attr: String },
    /// An attribute the index knows but has no store path for.
    NoStorePath { attr: String },
    /// A version no store path is indexed for, and those that have one.
    NoIndexedVersion { wanted: String, known: Vec<String> },
    /// Text that names no store path.
    NotAStorePath { target: String },
    /// A digest the index has never seen.
    UnseenDigest { digest: String },
    /// A version no revision ever had.
    NoSuchVersion { wanted: String, attr: String },
    /// A version no revision that can be materialised has.
    NotPinnable { wanted: String },
    /// An attribute absent from the revision it was resolved to.
    NotInRevision { attr: String, label: String },
    /// A store path without a `bin/` directory.
    NothingToRun { attr: String, version: String },
    /// A store path with several programs and no telling which.
    ManyPrograms { attr: String, version: String, names: Vec<String> },
    /// `nix-store` could not be started.
    NixStoreMissing { reason: String },
    /// The binary cache does not have the path.
    NotSubstituted { store_path: String },
    /// A realised program could not be started.
    NotExecutable { program: String, reason: String },
    /// `nix` could not be started.
    NixMissing { reason: String },
}

/// A refusal, its texts read as characters.
pub enum RefusalView {
    NoDatabase,
    MissingDatabase { path: Seq<char> },
    UnopenedDatabase { path: Seq<char> },
    NoRevisionCount,
    BadRevisionCount,
    NoRevision { off: i64 },
    NoTip,
    PatternRefused,
    NoStoreData,
    BadSpec { spec: Seq<char> },
    UnknownAttr { attr: Seq<char> },
    NoStorePath { attr: Seq<char> },
    NoIndexedVersion { wanted: Seq<char>, known: Seq<Seq<char>> },
    NotAStorePath { target: Seq<char> },
    UnseenDigest { digest: Seq<char> },
    NoSuchVersion { wanted: Seq<char>, attr: Seq<char> },
    NotPinnable { wanted: Seq<char> },
    NotInRevision { attr: Seq<char>, label: Seq<char> },
    NothingToRun { attr: Seq<char>, version: Seq<char> },
    ManyPrograms { attr: Seq<char>, version: Seq<char>, names: Seq<Seq<char>> },
    NixStoreMissing { reason: Seq<char> },
    NotSubstituted { store_path: Seq<char> },
    NotExecutable { program: Seq<char>, reason: Seq<char> },
    NixMissing { reason: Seq<char> },
}

impl View for Refusal {
    type V = RefusalView;

    open spec fn view(&self) -> RefusalView {
        match *self {
            Refusal::NoDatabase => RefusalView::NoDatabase,
            Refusal::MissingDatabase { path } => RefusalView::MissingDatabase { path: path@ },
            Refusal::UnopenedDatabase { path } => RefusalView::UnopenedDatabase { path: path@ },
            Refusal::NoRevisionCount => RefusalView::NoRevisionCount,
            Refusal::BadRevisionCount => RefusalView::BadRevisionCount,
            Refusal::NoRevision { off } => RefusalView::NoRevision { off },
            Refusal::NoTip => RefusalView::NoTip,
            Refusal::PatternRefused => RefusalView::PatternRefused,
            Refusal::NoStoreData => RefusalView::NoStoreData,
            Refusal::BadSpec { spec } => RefusalView::BadSpec { spec: spec@ },
            Refusal::UnknownAttr { attr } => RefusalView::UnknownAttr { attr: attr@ },
            Refusal::NoStorePath { attr } => RefusalView::NoStorePath { attr: attr@ },
            Refusal::NoIndexedVersion { wanted, known } => RefusalView::NoIndexedVersion {
                wanted: wanted@,
                known: known.deep_view(),
            },
            Refusal::NotAStorePath { target } => RefusalView::NotAStorePath { target: target@ },
            Refusal::UnseenDigest { digest } => RefusalView::UnseenDigest { digest: digest@ },
            Refusal::NoSuchVersion { wanted, attr } => RefusalView::NoSuchVersion {
                wanted: wanted@,
                attr: attr@,
            },
            Refusal::NotPinnable { wanted } => RefusalView::NotPinnable { wanted: wanted@ },
            Refusal::NotInRevision { attr, label } => RefusalView::NotInRevision {
                attr: attr@,
                label: label@,
            },
            Refusal::NothingToRun { attr, version } => RefusalView::NothingToRun {
                attr: attr@,
                version: version@,
            },
            Refusal::ManyPrograms { attr, version, names } => RefusalView::ManyPrograms {
                attr: attr@,
                version: version@,
                names: names.deep_view(),
            },
            Refusal::NixStoreMissing { reason } => RefusalView::NixStoreMissing { reason: reason@ },
            Refusal::NotSubstituted { store_path } => RefusalView::NotSubstituted {
                store_path: store_path@,
            },
            Refusal::NotExecutable { program, reason } => RefusalView::NotExecutable {
                program: program@,
                reason: reason@,
            },
            Refusal::NixMissing { reason } => RefusalView::NixMissing { reason: reason@ },
        }
    }
}

/// Whether a result is the wanted one: the same value, or the same refusal.
pub open spec fn agrees<T: DeepView>(r: Result<T, Refusal>, wanted: Result<T::V, RefusalView>) -> bool {
    match (r, wanted) {
        (Ok(a), Ok(b)) => a.deep_view() == b,
        (Err(e), Err(f)) => e@ == f,
        _ => false,
    }
}

/// The sentence a refusal is answered with.
pub open spec fn message_of(e: RefusalView) -> Seq<char> {
    match e {
        RefusalView::NoDatabase => "no index database: $MVS_DB is unset and --db was not given.\nThe wrapper built by `nix build .#mvs` always sets it; running the binary directly needs `--db $(nix build --no-link --print-out-paths .#index-db)`."@,
        RefusalView::MissingDatabase { path } => "index database "@ + path + " does not exist"@,
        RefusalView::UnopenedDatabase { path } => "opening index database "@ + path,
        RefusalView::NoRevisionCount => "reading revisionCount from the index database"@,
        RefusalView::BadRevisionCount => "revisionCount is not a number"@,
        RefusalView::NoRevision { off } => "no revision at offset "@ + text::signed_decimal(
            off as int,
        ),
        RefusalView::NoTip => "no revision has a narHash; run tools/build-index.sh"@,
        RefusalView::PatternRefused => "the search pattern could not be matched"@,
        RefusalView::NoStoreData => "this database was built without store-path data, so `mvs path`, `size`, `deps`, `rdeps` and `identify` have nothing to answer from.\nRebuild it with `build-db.py <root> <out> --data-dir <dir>`, where the directory holds outpaths.json, tip-outpaths.json and the *-indexed artifacts."@,
        RefusalView::BadSpec { spec } => spec + " is not a package. Give attr or attr@version."@,
        RefusalView::UnknownAttr { attr } => "the index has never seen "@ + attr + "."@,
        RefusalView::NoStorePath { attr } => "the index knows "@ + attr
            + " but no store path was recorded for it — its versions never matched a cached build."@,
        RefusalView::NoIndexedVersion { wanted, known } => "no store path is indexed for "@ + wanted
            + ".\nVersions with one: "@ + text::joined(known, " "@),
        RefusalView::NotAStorePath { target } => target
            + " does not name a store path. Give a full /nix/store path, a basename like <digest>-hello-2.12.2, or the bare 32-character digest."@,
        RefusalView::UnseenDigest { digest } => "the index has never seen a store path with digest "@
            + digest
            + ". It only knows paths reachable from indexed packages — one out of an unindexed revision is expected to miss."@,
        RefusalView::NoSuchVersion { wanted, attr } => "no revision ever had "@ + wanted
            + ". `mvs query versions "@ + attr + "` lists what there is."@,
        RefusalView::NotPinnable { wanted } => "no revision with "@ + wanted
            + " can be materialised yet."@,
        RefusalView::NotInRevision { attr, label } => attr + " is not in "@ + label,
        RefusalView::NothingToRun { attr, version } => attr + " "@ + version
            + " has no bin/ directory, so there is nothing to run. `mvs shell "@ + attr
            + "` puts it on PATH instead."@,
        RefusalView::ManyPrograms { attr, version, names } => attr + " "@ + version
            + " ships several programs and none is named after it: "@ + text::joined(names, " "@)
            + ".\nRun one with `mvs shell "@ + attr + " -- <program>`."@,
        RefusalView::NixStoreMissing { reason } => "could not run nix-store: "@ + reason
            + ".\nThe fast path substitutes an indexed store path, so nix has to be on PATH. Use --eval for the evaluation path."@,
        RefusalView::NotSubstituted { store_path } => store_path
            + " could not be substituted — the binary cache may have dropped it since the last census. Retry with --eval to build it from its revision."@,
        RefusalView::NotExecutable { program, reason } => "could not execute "@ + program + ": "@
            + reason,
        RefusalView::NixMissing { reason } => "could not run nix: "@ + reason
            + ".\n`mvs run` and `mvs shell` are wrappers around `nix run` and `nix shell`, so nix has to be on PATH."@,
    }
}

impl Refusal {
    /// The sentence this refusal is answered with.
    pub fn message(&self) -> (r: String)
        ensures
            r@ == message_of(self@),
    {
        match self {
            Refusal::NoDatabase => "no index database: $MVS_DB is unset and --db was not given.\nThe wrapper built by `nix build .#mvs` always sets it; running the binary directly needs `--db $(nix build --no-link --print-out-paths .#index-db)`.".to_string(),
            Refusal::MissingDatabase { path } => cat3("index database ", path.as_str(), " does not exist"),
            Refusal::UnopenedDatabase { path } => cat2("opening index database ", path.as_str()),
            Refusal::NoRevisionCount => "reading revisionCount from the index database".to_string(),
            Refusal::BadRevisionCount => "revisionCount is not a number".to_string(),
            Refusal::NoRevision { off } => cat2("no revision at offset ", text::signed_text(*off).as_str()),
            Refusal::NoTip => "no revision has a narHash; run tools/build-index.sh".to_string(),
            Refusal::PatternRefused => "the search pattern could not be matched".to_string(),
            Refusal::NoStoreData => "this database was built without store-path data, so `mvs path`, `size`, `deps`, `rdeps` and `identify` have nothing to answer from.\nRebuild it with `build-db.py <root> <out> --data-dir <dir>`, where the directory holds outpaths.json, tip-outpaths.json and the *-indexed artifacts.".to_string(),
            Refusal::BadSpec { spec } => cat2(spec.as_str(), " is not a package. Give attr or attr@version."),
            Refusal::UnknownAttr { attr } => cat3("the index has never seen ", attr.as_str(), "."),
            Refusal::NoStorePath { attr } => cat3(
                "the index knows ",
                attr.as_str(),
                " but no store path was recorded for it — its versions never matched a cached build.",
            ),
            Refusal::NoIndexedVersion { wanted, known } => {
                let list: String = text::join(known, " ");
                let mut out: String = cat3("no store path is indexed for ", wanted.as_str(), ".\nVersions with one: ");
                out.append(list.as_str());
                out
            },
            Refusal::NotAStorePath { target } => cat2(
                target.as_str(),
                " does not name a store path. Give a full /nix/store path, a basename like <digest>-hello-2.12.2, or the bare 32-character digest.",
            ),
            Refusal::UnseenDigest { digest } => cat3(
                "the index has never seen a store path with digest ",
                digest.as_str(),
                ". It only knows paths reachable from indexed packages — one out of an unindexed revision is expected to miss.",
            ),
            Refusal::NoSuchVersion { wanted, attr } => cat5(
                "no revision ever had ",
                wanted.as_str(),
                ". `mvs query versions ",
                attr.as_str(),
                "` lists what there is.",
            ),
            Refusal::NotPinnable { wanted } => cat3("no revision with ", wanted.as_str(), " can be materialised yet."),
            Refusal::NotInRevision { attr, label } => cat3(attr.as_str(), " is not in ", label.as_str()),
            Refusal::NothingToRun { attr, version } => {
                let mut out: String = cat5(
                    attr.as_str(),
                    " ",
                    version.as_str(),
                    " has no bin/ directory, so there is nothing to run. `mvs shell ",
                    attr.as_str(),
                );
                out.append("` puts it on PATH instead.");
                out
            },
            Refusal::ManyPrograms { attr, version, names } => {
                let list: String = text::join(names, " ");
                let mut out: String = cat5(
                    attr.as_str(),
                    " ",
                    version.as_str(),
                    " ships several programs and none is named after it: ",
                    list.as_str(),
                );
                out.append(".\nRun one with `mvs shell ");
                out.append(attr.as_str());
                out.append(" -- <program>`.");
                out
            },
            Refusal::NixStoreMissing { reason } => cat3(
                "could not run nix-store: ",
                reason.as_str(),
                ".\nThe fast path substitutes an indexed store path, so nix has to be on PATH. Use --eval for the evaluation path.",
            ),
            Refusal::NotSubstituted { store_path } => cat2(
                store_path.as_str(),
                " could not be substituted — the binary cache may have dropped it since the last census. Retry with --eval to build it from its revision.",
            ),
            Refusal::NotExecutable { program, reason } => {
                let mut out: String = cat3("could not execute ", program.as_str(), ": ");
                out.append(reason.as_str());
                out
            },
            Refusal::NixMissing { reason } => cat3(
                "could not run nix: ",
                reason.as_str(),
                ".\n`mvs run` and `mvs shell` are wrappers around `nix run` and `nix shell`, so nix has to be on PATH.",
            ),
        }
    }
}

} // verus!
