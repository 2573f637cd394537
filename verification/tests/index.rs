//! The questions the index answers besides the store commands.

use std::collections::HashSet;

use mvs::db::{
    group_by_version, AttrRun, OutputRow, PairPath, Reference, Release, Revision, Run, StorePath,
    Tables,
};
use mvs::index::{database_path, Index};
use mvs::load::{InfoRow, NameRow, PairRow, PathRow, RunRow, SiblingRow, Stored};
use mvs::pattern::pick_flagged;
use mvs::refusal::Refusal;

fn empty() -> Tables {
    Tables {
        meta: vec![("revisionCount".to_string(), "4".to_string())],
        revisions: vec![],
        releases: vec![],
        attrs: vec![],
        runs: vec![],
        store_paths: vec![],
        pairs: vec![],
        path_info: vec![],
        path_refs: vec![],
        outputs: vec![],
    }
}

fn revision(off: i64, rev: &str, date: &str, narhash: Option<&str>) -> Revision {
    Index::revision_from_row(
        off,
        rev.to_string(),
        date.to_string(),
        None,
        narhash.map(|h| h.to_string()),
    )
}

fn dated() -> Index {
    let mut tables = empty();
    tables.revisions = vec![
        revision(2, "cafe0000000000000000", "2024-03-01", Some("h2")),
        revision(0, "abcd1111111111111111", "2024-01-01", Some("h0")),
        revision(3, "cafe9999999999999999", "2024-04-01", None),
        revision(1, "abcf2222222222222222", "2024-02-01", Some("h1")),
    ];
    tables.releases = vec![Release {
        name: "24.05".to_string(),
        rev: "cafe".to_string(),
        date: "2024-05-31".to_string(),
        build: Some(7),
        channel_name: None,
    }];
    Index::open(tables).unwrap()
}

fn named(names: &[&str]) -> Index {
    let mut tables = empty();
    tables.attrs = names.iter().map(|n| n.to_string()).collect();
    Index::open(tables).unwrap()
}

/// Opening takes a revision count that is a number.
#[test]
fn opens_with_a_revision_count() {
    let index = Index::open(empty()).unwrap();
    assert_eq!(index.covered_tip(), 3);
    assert_eq!(index.meta("revisionCount").as_deref(), Some("4"));
    assert!(index.meta("other").is_none());
    assert!(!index.has_store_data());
    assert!(matches!(
        index.require_store_data(),
        Err(Refusal::NoStoreData)
    ));

    let mut none = empty();
    none.meta.clear();
    assert!(matches!(Index::open(none), Err(Refusal::NoRevisionCount)));
    for bad in ["", "four", "4 ", "-", "9223372036854775808"] {
        let mut tables = empty();
        tables.meta[0].1 = bad.to_string();
        assert!(
            matches!(Index::open(tables), Err(Refusal::BadRevisionCount)),
            "{bad}"
        );
    }
    for (good, tip) in [("+4", 3), ("-2", -3), ("007", 6)] {
        let mut tables = empty();
        tables.meta[0].1 = good.to_string();
        assert_eq!(Index::open(tables).unwrap().covered_tip(), tip);
    }
}

/// The database given wins over the one the environment names.
#[test]
fn finds_the_database() {
    assert_eq!(database_path(Some("a"), Some("b")).unwrap(), "a");
    assert_eq!(database_path(None, Some("b")).unwrap(), "b");
    assert!(matches!(
        database_path::<&str>(None, None),
        Err(Refusal::NoDatabase)
    ));
}

/// A revision is labelled by its date and the opening of its hash.
#[test]
fn labels_revisions() {
    let index = dated();
    assert_eq!(index.revision(1).unwrap().label, "2024-02-01-abcf22222222");
    let refused = index.revision(9).err().unwrap();
    assert_eq!(refused.message(), "no revision at offset 9");
    let refused = index.revision(-9).err().unwrap();
    assert_eq!(refused.message(), "no revision at offset -9");
}

/// A hash prefix finds the oldest revision that starts with it.
#[test]
fn finds_revisions_by_prefix() {
    let index = dated();
    let offs = |prefix: &str| index.revision_by_prefix(prefix).map(|r| r.off);
    assert_eq!(offs("cafe"), Some(2));
    assert_eq!(offs("cafe9"), Some(3));
    assert_eq!(offs("abc"), Some(0));
    assert_eq!(offs("abcf"), Some(1));
    assert_eq!(offs(""), Some(0));
    assert_eq!(offs("abce"), None);
    assert_eq!(offs("cafe00000000000000001"), None);
}

/// A date means the newest revision on or before it, and the tip the newest
/// one that can be fetched.
#[test]
fn finds_revisions_by_date() {
    let index = dated();
    let offs = |date: &str| index.revision_on_or_before(date).map(|r| r.off);
    assert_eq!(offs("2024-02-01"), Some(1));
    assert_eq!(offs("2024-02-28"), Some(1));
    assert_eq!(offs("2030-01-01"), Some(3));
    assert_eq!(offs("2023-12-31"), None);
    assert_eq!(index.tip().unwrap().off, 2);
    let bare = Index::open(empty()).unwrap();
    assert!(matches!(bare.tip(), Err(Refusal::NoTip)));
    assert_eq!(index.newest_materialisable_in(0, 3), Some(2));
    assert_eq!(index.newest_materialisable_in(0, 1), Some(1));
    assert_eq!(index.newest_materialisable_in(3, 3), None);
    assert_eq!(index.newest_materialisable_in(2, 0), None);
    assert_eq!(index.release("24.05").unwrap().build, Some(7));
    assert!(index.release("23.11").is_none());
}

/// A pattern without wildcards is looked for anywhere, names come in
/// dictionary order, and the limit cuts the list short.
#[test]
fn searches_attributes() {
    let index = named(&["python3", "cpython", "Python", "ruby", "python2"]);
    let found = |pattern: &str, limit: usize| index.search(pattern, limit).unwrap();
    assert_eq!(found("python", 10), vec!["cpython", "python2", "python3"]);
    assert_eq!(found("python", 2), vec!["cpython", "python2"]);
    assert_eq!(found("python", 0), Vec::<String>::new());
    assert_eq!(found("python?", 10), vec!["python2", "python3"]);
    assert_eq!(found("[rc]*", 10), vec!["cpython", "ruby"]);
    assert_eq!(found("p*n", 10), Vec::<String>::new());
    assert_eq!(found("perl", 10), Vec::<String>::new());
    assert_eq!(found("", 10).len(), 5);
}

/// The fallback takes upper and lower case for the same.
#[test]
fn searches_without_case() {
    let index = named(&["python3", "cpython", "Python", "ruby"]);
    let found = |pattern: &str| index.search_nocase(pattern, 10).unwrap();
    assert_eq!(found("PYTHON"), vec!["Python", "cpython", "python3"]);
    assert_eq!(found("py%"), vec!["Python", "python3"]);
    assert_eq!(found("_uby"), vec!["ruby"]);
    assert_eq!(found("perl"), Vec::<String>::new());
}

/// A pattern SQLite will not match is refused, unless there is nothing to
/// match it against.
#[test]
fn refuses_overlong_patterns() {
    let long = "a".repeat(60_000);
    let index = named(&["a"]);
    assert!(matches!(
        index.search(&long, 1),
        Err(Refusal::PatternRefused)
    ));
    assert!(matches!(
        index.search_nocase(&long, 1),
        Err(Refusal::PatternRefused)
    ));
    assert!(named(&[]).search(&long, 1).unwrap().is_empty());
    assert!(named(&[]).search_nocase(&long, 1).unwrap().is_empty());

    // Nothing to list, so nothing is matched.
    assert!(index.search(&long, 0).unwrap().is_empty());
    assert!(index.search_nocase(&long, 0).unwrap().is_empty());
}

/// Text beyond ASCII is looked for character by character, whatever character
/// it is, and only ASCII letters are taken for the same in either case.
#[test]
fn searches_beyond_ascii() {
    let names = [
        "caf\u{e9}", "cafe", "\u{fffd}", "\u{fffe}", "\u{ffff}", "x\u{1f600}y", "\u{c9}cole",
    ];
    let index = named(&names);
    let found = |pattern: &str| index.search(pattern, 10).unwrap();
    assert_eq!(found("f\u{e9}"), vec!["caf\u{e9}"]);
    assert_eq!(found("\u{fffd}"), vec!["\u{fffd}"]);
    assert_eq!(found("\u{fffe}"), vec!["\u{fffe}"]);
    assert_eq!(found("\u{ffff}"), vec!["\u{ffff}"]);
    assert_eq!(found("\u{1f600}y"), vec!["x\u{1f600}y"]);
    assert_eq!(found("\u{a9}"), Vec::<String>::new());
    let found = |pattern: &str| index.search_nocase(pattern, 10).unwrap();
    assert_eq!(found("CAF\u{e9}"), vec!["caf\u{e9}"]);
    assert_eq!(found("\u{c9}COLE"), vec!["\u{c9}cole"]);
    assert_eq!(found("\u{e9}cole"), Vec::<String>::new());

    // Every short run of every name is found in it.
    for name in names {
        let chars: Vec<char> = name.chars().collect();
        for from in 0..chars.len() {
            for to in from..=chars.len() {
                let part: String = chars[from..to].iter().collect();
                let listed = index.search(&part, 10).unwrap();
                assert!(listed.iter().any(|n| n == name), "{part:?} {name:?}");
                let expected = names.iter().filter(|n| n.contains(&part)).count();
                assert_eq!(listed.len(), expected, "{part:?}");
            }
        }
    }
}

/// What a search matched is listed in order, up to the limit.
#[test]
fn lists_what_matched() {
    let names: Vec<String> = ["b", "a", "c"].iter().map(|n| n.to_string()).collect();
    assert_eq!(
        pick_flagged(&names, &vec![true, true, false], 5),
        vec!["a", "b"]
    );
    assert_eq!(pick_flagged(&names, &vec![true, true, true], 1), vec!["a"]);
}

fn run(version: &str, first: i64, last: i64) -> Run {
    Run {
        version: version.to_string(),
        first,
        last,
    }
}

fn ran(attr: &str, version: &str, first: i64, last: i64) -> AttrRun {
    AttrRun {
        attr: attr.to_string(),
        run: run(version, first, last),
    }
}

/// Runs come oldest first, and a snapshot is what covers an offset.
#[test]
fn lists_runs_and_snapshots() {
    let mut tables = empty();
    tables.attrs = vec!["a".to_string()];
    tables.runs = vec![
        ran("a", "2", 5, 9),
        ran("b", "7", 0, 9),
        ran("a", "1", 0, 4),
    ];
    let index = Index::open(tables).unwrap();
    let versions: Vec<String> = index.runs_of("a").into_iter().map(|r| r.version).collect();
    assert_eq!(versions, vec!["1", "2"]);
    assert!(index.runs_of("c").is_empty());
    assert!(index.knows_attr("a"));
    assert!(!index.knows_attr("b"));
    assert_eq!(
        index.snapshot(4),
        vec![
            ("b".to_string(), "7".to_string()),
            ("a".to_string(), "1".to_string())
        ]
    );
    assert!(index.snapshot(10).is_empty());
}

/// A version that left and came back is one entry with two runs.
#[test]
fn groups_runs_by_version() {
    let grouped = group_by_version(vec![
        run("1.1", 8, 9),
        run("1.0", 6, 7),
        run("1.1", 3, 5),
        run("1.0", 0, 2),
    ]);
    assert_eq!(grouped.len(), 2);
    assert_eq!(grouped[0].0, "1.1");
    assert_eq!(grouped[1].0, "1.0");
    let firsts: Vec<i64> = grouped[0].1.iter().map(|r| r.first).collect();
    assert_eq!(firsts, vec![3, 8]);
    let firsts: Vec<i64> = grouped[1].1.iter().map(|r| r.first).collect();
    assert_eq!(firsts, vec![0, 6]);
    assert!(group_by_version(vec![]).is_empty());

    // Grouping what the grouping lists gives the same grouping.
    let flat: Vec<Run> = grouped.iter().flat_map(|(_, runs)| runs.clone()).collect();
    let again = group_by_version(flat);
    assert_eq!(format!("{again:?}"), format!("{grouped:?}"));
}

fn stored(id: i64, name: Option<&str>) -> StorePath {
    StorePath {
        id,
        digest: format!("d{id}"),
        name: name.map(|n| n.to_string()),
    }
}

/// A path without a name is its digest.
#[test]
fn spells_store_paths() {
    assert_eq!(stored(1, Some("a-1")).basename(), "d1-a-1");
    assert_eq!(stored(1, None).basename(), "d1");
    assert_eq!(stored(1, Some("a-1")).store_path(), "/nix/store/d1-a-1");
}

/// Lookups by long lists go a chunk at a time, and find the same.
#[test]
fn looks_up_long_lists() {
    let mut tables = empty();
    let names: Vec<String> = (0..2000).map(|i| format!("n{i}")).collect();
    for id in 0..2000i64 {
        tables
            .store_paths
            .push(stored(id, Some(&names[id as usize])));
        tables.pairs.push(PairPath {
            attr: format!("a{id}"),
            version: "1".to_string(),
            path: stored(id, None),
            tip: false,
            found_off: None,
        });
    }
    let index = Index::open(tables).unwrap();
    let ids: Vec<i64> = (0..2000).rev().collect();
    let found = index.pairs_by_path_ids(&ids);
    assert_eq!(found.len(), 2000);
    // Chunks in the order asked for, table order within a chunk.
    assert_eq!(found[0].path.id, 1100);
    assert_eq!(found[899].path.id, 1999);
    assert_eq!(found[1999].path.id, 199);
    assert_eq!(index.store_path_ids_named(&names).len(), 2000);
    assert!(index.pairs_by_path_ids(&[]).is_empty());
    assert!(index.store_path_ids_named(&vec![]).is_empty());
}

/// References point both ways, referrers ascend and are listed once.
#[test]
fn follows_references() {
    let mut tables = empty();
    tables.store_paths = vec![
        stored(1, None),
        stored(2, Some("b-1")),
        stored(3, Some("b-1")),
    ];
    let refers = |src: i64, dst: i64| Reference { src, dst };
    tables.path_refs = vec![
        refers(9, 2),
        refers(1, 3),
        refers(1, 2),
        refers(9, 3),
        refers(5, 4),
    ];
    tables.outputs = vec![
        OutputRow {
            drv_name: "x".to_string(),
            suffix: "lib".to_string(),
            path_id: 2,
            nar_size: None,
        },
        OutputRow {
            drv_name: "x".to_string(),
            suffix: "dev".to_string(),
            path_id: 3,
            nar_size: Some(1),
        },
    ];
    let index = Index::open(tables).unwrap();
    let ends: Vec<i64> = index.refs_of_path(1).iter().map(|p| p.id).collect();
    assert_eq!(ends, vec![3, 2]);
    let targets: HashSet<i64> = [2, 3].into_iter().collect();
    assert_eq!(index.referrers_of(&targets), vec![1, 9]);
    assert!(index.referrers_of(&HashSet::new()).is_empty());
    let suffixes: Vec<String> = index
        .outputs_of("x")
        .into_iter()
        .map(|o| o.suffix)
        .collect();
    assert_eq!(suffixes, vec!["dev", "lib"]);
    assert!(index.outputs_of("y").is_empty());
    assert_eq!(
        index.outputs_by_path_id(2),
        vec![("x".to_string(), "lib".to_string())]
    );
    assert!(index.path_details(1).is_none());
    assert_eq!(index.store_path_by_digest("d2").unwrap().id, 2);
    assert!(index.store_path_by_digest("d9").is_none());
}

/// Ids are replaced by what they stand for, rows that point nowhere are left
/// out, and a store path without a known name keeps its digest.
#[test]
fn puts_tables_together() {
    let name = |id: i64, name: &str| NameRow {
        id,
        name: name.to_string(),
    };
    let stored = Stored {
        meta: vec![
            ("revisionCount".to_string(), "1".to_string()),
            ("store_paths".to_string(), "3".to_string()),
        ],
        revisions: vec![],
        releases: vec![],
        attrs: vec![name(7, "hello"), name(8, "app")],
        runs: vec![
            RunRow {
                attr_id: 8,
                version: "0.1".to_string(),
                first: 0,
                last: 0,
            },
            RunRow {
                attr_id: 99,
                version: "9".to_string(),
                first: 0,
                last: 0,
            },
        ],
        store_names: vec![name(3, "hello-2.12.2")],
        store_paths: vec![
            PathRow {
                id: 1,
                digest: "1".repeat(32),
                name_id: Some(3),
            },
            PathRow {
                id: 2,
                digest: "2".repeat(32),
                name_id: None,
            },
            PathRow {
                id: 4,
                digest: "4".repeat(32),
                name_id: Some(99),
            },
        ],
        pairs: vec![
            PairRow {
                attr_id: 7,
                version: "2.12.2".to_string(),
                path_id: 1,
                tip: 2,
                found_off: Some(5),
            },
            PairRow {
                attr_id: 99,
                version: "x".to_string(),
                path_id: 1,
                tip: 0,
                found_off: None,
            },
            PairRow {
                attr_id: 8,
                version: "0.1".to_string(),
                path_id: 99,
                tip: 0,
                found_off: None,
            },
        ],
        path_info: vec![InfoRow {
            path_id: 2,
            live: Some(0),
            nar_size: Some(5),
            file_size: None,
            closure_bytes: None,
            closure_paths: None,
            closure_dead: None,
        }],
        path_refs: vec![Reference { src: 1, dst: 2 }],
        outputs: vec![
            SiblingRow {
                drv_name_id: 3,
                suffix: "dev".to_string(),
                path_id: 2,
                nar_size: None,
            },
            SiblingRow {
                drv_name_id: 98,
                suffix: "lib".to_string(),
                path_id: 2,
                nar_size: None,
            },
        ],
    };
    let tables = stored.into_tables();
    assert_eq!(tables.attrs, vec!["hello", "app"]);
    assert_eq!(tables.runs.len(), 1);
    assert_eq!(tables.runs[0].attr, "app");
    let names: Vec<Option<&str>> = tables
        .store_paths
        .iter()
        .map(|p| p.name.as_deref())
        .collect();
    assert_eq!(names, vec![Some("hello-2.12.2"), None, None]);
    assert_eq!(tables.pairs.len(), 1);
    assert_eq!(tables.pairs[0].attr, "hello");
    assert_eq!(tables.pairs[0].path.id, 1);
    assert!(tables.pairs[0].tip);
    assert_eq!(tables.pairs[0].found_off, Some(5));
    assert_eq!(tables.path_info[0].details.live, Some(false));
    assert_eq!(tables.outputs.len(), 1);
    assert_eq!(tables.outputs[0].drv_name, "hello-2.12.2");

    let index = Index::open(tables).unwrap();
    assert_eq!(index.store_pairs_of("hello").len(), 1);
    assert_eq!(
        index.refs_of_path(1)[0].store_path(),
        format!("/nix/store/{}", "2".repeat(32))
    );
}
