//! `run` and `shell`: which road a spec takes, and what is left to do.

use mvs::db::{AttrRun, PairPath, Run, StorePath, Tables};
use mvs::index::Index;
use mvs::refusal::Refusal;
use mvs::run::{
    exec, fast_target, installable, program_in, realise, run, shell, Action, Execute, Plan,
    Realised, Speed,
};
use mvs::store::{path, Format, Shown, Target};

fn texts(parts: &[&str]) -> Vec<String> {
    parts.iter().map(|p| p.to_string()).collect()
}

fn muted(text: &str) -> String {
    format!("\x1b[2m{text}\x1b[0m")
}

fn ran(attr: &str, version: &str, first: i64, last: i64) -> AttrRun {
    AttrRun {
        attr: attr.to_string(),
        run: Run {
            version: version.to_string(),
            first,
            last,
        },
    }
}

/// Three revisions, the last not fetchable yet. `rg` has a store path at its
/// newest version; `fd` has none at all.
fn tables() -> Tables {
    let revision = |off: i64, letter: &str, hash: Option<&str>| {
        Index::revision_from_row(
            off,
            letter.repeat(40),
            format!("2024-0{}-01", off + 1),
            None,
            hash.map(|h| h.to_string()),
        )
    };
    Tables {
        meta: vec![
            ("revisionCount".to_string(), "3".to_string()),
            ("store_paths".to_string(), "1".to_string()),
        ],
        revisions: vec![
            revision(0, "a", Some("h")),
            revision(1, "b", Some("h")),
            revision(2, "c", None),
        ],
        releases: vec![],
        attrs: texts(&["rg", "fd", "new"]),
        runs: vec![
            ran("rg", "13.0", 0, 0),
            ran("rg", "14.1", 1, 2),
            ran("fd", "8.7.0", 0, 1),
            ran("new", "0.1", 2, 2),
        ],
        store_paths: vec![],
        pairs: vec![PairPath {
            attr: "rg".to_string(),
            version: "14.1".to_string(),
            path: StorePath {
                id: 1,
                digest: "0".repeat(32),
                name: Some("ripgrep-14.1".to_string()),
            },
            tip: true,
            found_off: None,
        }],
        path_info: vec![],
        path_refs: vec![],
        outputs: vec![],
    }
}

fn index() -> Index {
    Index::open(tables()).unwrap()
}

fn rg_path() -> String {
    format!("/nix/store/{}-ripgrep-14.1", "0".repeat(32))
}

fn rev(letter: &str) -> String {
    letter.repeat(40)
}

fn line_of(plan: Plan) -> String {
    match plan.result.unwrap() {
        Action::Print { line } => line,
        other => panic!("{other:?}"),
    }
}

/// The fast road reports the indexed version and realises its path.
#[test]
fn runs_the_indexed_path() {
    let plan = run(
        &index(),
        "rg",
        &texts(&["--version"]),
        Execute::Yes,
        Speed::Fast,
    );
    assert_eq!(
        plan.notes,
        vec![muted("rg 14.1 (current) from the store-path index")]
    );
    match plan.result.unwrap() {
        Action::Realise { target, args } => {
            assert_eq!(target.store_path, rg_path());
            assert_eq!(target.pname.as_deref(), Some("ripgrep"));
            assert_eq!(args, vec!["--version"]);
        }
        other => panic!("{other:?}"),
    }
    let plan = run(&index(), "rg", &vec![], Execute::No, Speed::Fast);
    assert_eq!(line_of(plan), format!("nix-store --realise {}", rg_path()));
}

/// A version with no indexed path, `--eval`, and a database without store data
/// all take the eval road.
#[test]
fn degrades_to_an_evaluation() {
    let plan = run(
        &index(),
        "rg@13.0",
        &texts(&["a", "b"]),
        Execute::Yes,
        Speed::Fast,
    );
    assert_eq!(
        plan.notes,
        vec![muted("rg 13.0 from 2024-01-01-aaaaaaaaaaaa")]
    );
    match plan.result.unwrap() {
        Action::Nix { argv } => assert_eq!(
            argv,
            vec![
                "run".to_string(),
                format!("github:NixOS/nixpkgs/{}#rg", rev("a")),
                "--".to_string(),
                "a".to_string(),
                "b".to_string()
            ]
        ),
        other => panic!("{other:?}"),
    }

    let expected = format!("nix run github:NixOS/nixpkgs/{}#rg", rev("b"));
    let plan = run(&index(), "rg", &vec![], Execute::No, Speed::Eval);
    assert_eq!(line_of(plan), expected);

    let mut bare = tables();
    bare.meta.pop();
    let bare = Index::open(bare).unwrap();
    assert!(fast_target(&bare, "rg", Speed::Fast).is_none());
    let plan = run(&bare, "rg", &vec![], Execute::No, Speed::Fast);
    assert_eq!(line_of(plan), expected);
}

/// An installable names the newest revision that can be fetched and has the
/// version; each reason there is none is told apart.
#[test]
fn resolves_installables() {
    let found = installable(&index(), "rg@14").unwrap();
    assert_eq!(
        found.installable,
        format!("github:NixOS/nixpkgs/{}#rg", rev("b"))
    );
    assert_eq!(found.version, "14.1");
    assert_eq!(found.label, "2024-02-01-bbbbbbbbbbbb");
    assert_eq!(
        installable(&index(), "rg@99").err().unwrap().message(),
        "no revision ever had rg@99. `mvs query versions rg` lists what there is."
    );
    assert!(matches!(
        installable(&index(), "new").err().unwrap(),
        Refusal::NotPinnable { .. }
    ));
    assert!(matches!(
        installable(&index(), "").err().unwrap(),
        Refusal::BadSpec { .. }
    ));
}

/// Specs of a shell mix roads freely, and a command follows `--command`.
#[test]
fn composes_shells() {
    let plan = shell(
        &index(),
        &texts(&["rg", "fd@8.7.0"]),
        &texts(&["fd", "-x"]),
        Execute::Yes,
        Speed::Fast,
    );
    assert_eq!(
        plan.notes,
        vec![
            muted("rg 14.1 (current) from the store-path index"),
            muted("fd 8.7.0 from 2024-02-01-bbbbbbbbbbbb"),
        ]
    );
    match plan.result.unwrap() {
        Action::Nix { argv } => assert_eq!(
            argv,
            vec![
                "shell".to_string(),
                rg_path(),
                format!("github:NixOS/nixpkgs/{}#fd", rev("b")),
                "--command".to_string(),
                "fd".to_string(),
                "-x".to_string()
            ]
        ),
        other => panic!("{other:?}"),
    }
    let plan = shell(&index(), &vec![], &vec![], Execute::No, Speed::Fast);
    assert_eq!(line_of(plan), "nix shell");
}

/// A refused spec ends a shell, after the specs before it were reported.
#[test]
fn stops_shells_at_a_refused_spec() {
    let plan = shell(
        &index(),
        &texts(&["rg", "nobody", "fd"]),
        &vec![],
        Execute::Yes,
        Speed::Fast,
    );
    assert_eq!(plan.notes.len(), 1);
    assert!(matches!(
        plan.result.err().unwrap(),
        Refusal::NoSuchVersion { .. }
    ));
    let plan = run(&index(), "nobody", &vec![], Execute::Yes, Speed::Fast);
    assert!(plan.notes.is_empty());
    assert!(plan.result.is_err());
}

/// A dry run prints the command line and nothing else.
#[test]
fn shows_command_lines() {
    match exec(texts(&["run", "x", "--", "a"]), Execute::No) {
        Action::Print { line } => assert_eq!(line, "nix run x -- a"),
        other => panic!("{other:?}"),
    }
    match exec(texts(&["run", "x"]), Execute::Yes) {
        Action::Nix { argv } => assert_eq!(argv, vec!["run", "x"]),
        other => panic!("{other:?}"),
    }
}

fn rg() -> Target {
    Target {
        attr: "rg".to_string(),
        version: "14.1".to_string(),
        store_path: "/s".to_string(),
        pname: Some("ripgrep".to_string()),
        tip: true,
    }
}

/// The program is the attribute's, then the pname's, then the only one.
#[test]
fn picks_programs() {
    let pick = |names: &[&str]| program_in("/s", &rg(), Some(texts(names)));
    assert_eq!(pick(&["ripgrep", "rg", "a"]).unwrap(), "/s/bin/rg");
    assert_eq!(pick(&["ripgrep", "a"]).unwrap(), "/s/bin/ripgrep");
    assert_eq!(pick(&["other"]).unwrap(), "/s/bin/other");
    assert_eq!(
        pick(&["b", "a"]).err().unwrap().message(),
        "rg 14.1 ships several programs and none is named after it: a b.\n\
         Run one with `mvs shell rg -- <program>`."
    );
    assert!(matches!(
        pick(&[]).err().unwrap(),
        Refusal::ManyPrograms { .. }
    ));
    assert_eq!(
        program_in("/s", &rg(), None).err().unwrap().message(),
        "rg 14.1 has no bin/ directory, so there is nothing to run. \
         `mvs shell rg` puts it on PATH instead."
    );
}

/// What came of realising a path decides whether the program can be run.
#[test]
fn judges_realisations() {
    assert!(realise("/s", Realised::Done).is_ok());
    assert_eq!(
        realise("/s", Realised::Failed).err().unwrap().message(),
        "/s could not be substituted — the binary cache may have dropped it since the last \
         census. Retry with --eval to build it from its revision."
    );
    let missing = Realised::NotStarted {
        reason: "gone".to_string(),
    };
    assert_eq!(
        realise("/s", missing).err().unwrap().message(),
        "could not run nix-store: gone.\nThe fast path substitutes an indexed store path, so \
         nix has to be on PATH. Use --eval for the evaluation path."
    );
}

/// The sentence of each refusal not met elsewhere.
#[test]
fn words_refusals() {
    let path = || "/db".to_string();
    assert!(Refusal::NoDatabase
        .message()
        .starts_with("no index database: $MVS_DB is unset and --db was not given.\nThe wrapper"));
    assert_eq!(
        Refusal::MissingDatabase { path: path() }.message(),
        "index database /db does not exist"
    );
    assert_eq!(
        Refusal::UnopenedDatabase { path: path() }.message(),
        "opening index database /db"
    );
    assert_eq!(
        Refusal::NoRevisionCount.message(),
        "reading revisionCount from the index database"
    );
    assert_eq!(
        Refusal::BadRevisionCount.message(),
        "revisionCount is not a number"
    );
    assert_eq!(
        Refusal::NoTip.message(),
        "no revision has a narHash; run tools/build-index.sh"
    );
    assert!(Refusal::NoStoreData
        .message()
        .ends_with("outpaths.json, tip-outpaths.json and the *-indexed artifacts."));
    assert_eq!(
        Refusal::NoStorePath {
            attr: "x".to_string()
        }
        .message(),
        "the index knows x but no store path was recorded for it — its versions never matched a \
         cached build."
    );
    assert_eq!(
        Refusal::NotInRevision {
            attr: "x".to_string(),
            label: "l".to_string()
        }
        .message(),
        "x is not in l"
    );
    assert_eq!(
        Refusal::NotExecutable {
            program: "/s/bin/x".to_string(),
            reason: "no".to_string()
        }
        .message(),
        "could not execute /s/bin/x: no"
    );
    assert_eq!(
        Refusal::NixMissing {
            reason: "no".to_string()
        }
        .message(),
        "could not run nix: no.\n`mvs run` and `mvs shell` are wrappers around `nix run` and \
         `nix shell`, so nix has to be on PATH."
    );
    assert_eq!(
        Refusal::UnseenDigest {
            digest: "d".to_string()
        }
        .message(),
        "the index has never seen a store path with digest d. It only knows paths reachable from \
         indexed packages — one out of an unindexed revision is expected to miss."
    );
    assert_eq!(
        Refusal::NotAStorePath {
            target: "t".to_string()
        }
        .message(),
        "t does not name a store path. Give a full /nix/store path, a basename like \
         <digest>-hello-2.12.2, or the bare 32-character digest."
    );
}

/// The fast road substitutes the path that `path` prints, and is closed where
/// `path` has no answer.
#[test]
fn takes_the_printed_path() {
    let found = fast_target(&index(), "rg", Speed::Fast).unwrap();
    match path(&index(), "rg", Format::Text).unwrap() {
        Shown::Text(printed) => assert_eq!(printed.lines, vec![found.store_path]),
        Shown::Json(_) => panic!("asked for text"),
    }
    for spec in ["rg@13.0", "fd", "nobody", ""] {
        assert!(path(&index(), spec, Format::Text).is_err());
        assert!(fast_target(&index(), spec, Speed::Fast).is_none());
    }
    assert!(fast_target(&index(), "rg", Speed::Eval).is_none());
}
