//! The store-path surface: `path`, `size`, `deps`, `rdeps` and `identify`,
//! answered from a small index that tells one story.

use mvs::db::{
    AttrRun, OutputRow, PairPath, PathDetails, PathInfo, Reference, Run, StorePath, Tables,
};
use mvs::index::Index;
use mvs::refusal::Refusal;
use mvs::store::{
    choose_pair, deps, digest_of, identify, matching_pairs, pair_labels, path, pname_of, rdeps,
    resolve_pair, resolve_refs, size, target, DepEntry, DepsAnswer, Format, IdentifyAnswer,
    MatchedBy, PathAnswer, RdepsAnswer, Shown, SizeAnswer,
};

/// The fixture's store digests: 32 characters each, drawn from Nix's base32
/// alphabet (digits are always in it).
const DIGEST_LEN: usize = 32;

/// hello-2.12.1, the closed pair, found at offset 1.
const HELLO_OLD: char = '1';
/// hello-2.12.2, the pair current at the tip.
const HELLO_TIP: char = '2';
/// libfoo 1.0, current, whose derivation name differs: libfoo-unstable-1.0.
const LIBFOO: char = '3';
/// app 0.1, current; its references point at both hellos.
const APP: char = '4';
/// glibc-9.99, seen only as a reference — never an indexed pair.
const GLIBC: char = '5';
/// hello-2.12.2's `dev` sibling output.
const HELLO_DEV: char = '6';
/// A rebuild of hello-2.12.1 out of another revision: same store name,
/// different digest. What the name fallback exists to resolve.
const HELLO_OLD_REBUILD: char = '7';

fn digest(c: char) -> String {
    c.to_string().repeat(DIGEST_LEN)
}

fn basename(c: char, name: &str) -> String {
    format!("{}-{name}", digest(c))
}

fn store_path(c: char, name: &str) -> String {
    format!("/nix/store/{}", basename(c, name))
}

fn row_id(c: char) -> i64 {
    c.to_digit(10).unwrap() as i64
}

fn stored(c: char, name: &str) -> StorePath {
    StorePath {
        id: row_id(c),
        digest: digest(c),
        name: Some(name.to_string()),
    }
}

fn built(attr: &str, version: &str, c: char, name: &str, tip: i64, off: Option<i64>) -> PairPath {
    Index::pair_from_row(
        attr.to_string(),
        version.to_string(),
        stored(c, name),
        tip,
        off,
    )
}

fn ran(attr: &str, version: &str, first: i64, last: i64) -> AttrRun {
    AttrRun {
        attr: attr.to_string(),
        run: Run {
            version: version.to_string(),
            first,
            last,
        },
    }
}

fn info(c: char, details: PathDetails) -> PathInfo {
    PathInfo {
        path_id: row_id(c),
        details,
    }
}

fn refers(src: char, dst: char) -> Reference {
    Reference {
        src: row_id(src),
        dst: row_id(dst),
    }
}

/// Whether the store data goes into the fixture, so one helper builds both the
/// index under test and the one the graceful-refusal test needs.
#[derive(PartialEq)]
enum StoreData {
    Included,
    Omitted,
}

fn tables(store_data: StoreData) -> Tables {
    let revision = |off: i64, letter: &str, date: &str, hash: &str| {
        Index::revision_from_row(
            off,
            letter.repeat(40),
            date.to_string(),
            None,
            Some(hash.to_string()),
        )
    };
    // Three revisions; hello moves 2.12.1 -> 2.12.2 at the last one, libfoo
    // and app hold one version throughout.
    let mut tables = Tables {
        meta: vec![("revisionCount".to_string(), "3".to_string())],
        revisions: vec![
            revision(0, "a", "2024-01-01", "sha256-aaa"),
            revision(1, "b", "2024-02-01", "sha256-bbb"),
            revision(2, "c", "2024-03-01", "sha256-ccc"),
        ],
        releases: vec![],
        attrs: vec!["hello".to_string(), "libfoo".to_string(), "app".to_string()],
        runs: vec![
            ran("hello", "2.12.1", 0, 1),
            ran("hello", "2.12.2", 2, 2),
            ran("libfoo", "1.0", 0, 2),
            ran("app", "0.1", 1, 2),
        ],
        store_paths: vec![],
        pairs: vec![],
        path_info: vec![],
        path_refs: vec![],
        outputs: vec![],
    };
    if store_data == StoreData::Omitted {
        return tables;
    }
    tables
        .meta
        .push(("store_paths".to_string(), "7".to_string()));
    tables.store_paths = vec![
        stored(HELLO_OLD, "hello-2.12.1"),
        stored(HELLO_TIP, "hello-2.12.2"),
        stored(LIBFOO, "libfoo-unstable-1.0"),
        stored(APP, "app-0.1"),
        stored(GLIBC, "glibc-9.99"),
        stored(HELLO_DEV, "hello-2.12.2-dev"),
        stored(HELLO_OLD_REBUILD, "hello-2.12.1"),
    ];
    tables.pairs = vec![
        built("hello", "2.12.1", HELLO_OLD, "hello-2.12.1", 0, Some(1)),
        built("hello", "2.12.2", HELLO_TIP, "hello-2.12.2", 1, None),
        built("libfoo", "1.0", LIBFOO, "libfoo-unstable-1.0", 1, None),
        built("app", "0.1", APP, "app-0.1", 1, None),
    ];
    tables.path_info = vec![
        info(
            HELLO_TIP,
            Index::details_from_row(
                Some(1),
                Some(213432),
                Some(49368),
                Some(50000000),
                Some(12),
                Some(0),
            ),
        ),
        info(
            HELLO_OLD,
            Index::details_from_row(Some(0), Some(50), Some(20), None, None, None),
        ),
        info(
            LIBFOO,
            Index::details_from_row(Some(1), Some(1000), Some(500), None, None, None),
        ),
    ];
    // hello's references resolve one of each way — libfoo by digest, glibc not
    // at all — and app's point at the exact hello-2.12.2 path plus a
    // same-named rebuild of hello-2.12.1.
    tables.path_refs = vec![
        refers(HELLO_TIP, LIBFOO),
        refers(HELLO_TIP, GLIBC),
        refers(APP, HELLO_TIP),
        refers(APP, HELLO_OLD_REBUILD),
        refers(HELLO_DEV, HELLO_TIP),
    ];
    tables.outputs = vec![OutputRow {
        drv_name: "hello-2.12.2".to_string(),
        suffix: "dev".to_string(),
        path_id: row_id(HELLO_DEV),
        nar_size: Some(4096),
    }];
    tables
}

fn fixture(store_data: StoreData) -> Index {
    Index::open(tables(store_data)).unwrap()
}

fn path_text(index: &Index, spec: &str) -> (Vec<String>, Vec<String>) {
    match path(index, spec, Format::Text).unwrap() {
        Shown::Text(printed) => (printed.notes, printed.lines),
        Shown::Json(_) => panic!("asked for text"),
    }
}

fn path_json(index: &Index, spec: &str) -> PathAnswer {
    match path(index, spec, Format::Json).unwrap() {
        Shown::Json(answer) => answer,
        Shown::Text(_) => panic!("asked for facts"),
    }
}

fn size_json(index: &Index, spec: &str) -> SizeAnswer {
    match size(index, spec, Format::Json).unwrap() {
        Shown::Json(answer) => answer,
        Shown::Text(_) => panic!("asked for facts"),
    }
}

fn size_text(index: &Index, spec: &str) -> Vec<String> {
    match size(index, spec, Format::Text).unwrap() {
        Shown::Text(printed) => printed.lines,
        Shown::Json(_) => panic!("asked for text"),
    }
}

fn deps_json(index: &Index, spec: &str) -> DepsAnswer {
    match deps(index, spec, Format::Json).unwrap() {
        Shown::Json(answer) => answer,
        Shown::Text(_) => panic!("asked for facts"),
    }
}

fn deps_text(index: &Index, spec: &str) -> Vec<String> {
    match deps(index, spec, Format::Text).unwrap() {
        Shown::Text(printed) => printed.lines,
        Shown::Json(_) => panic!("asked for text"),
    }
}

fn rdeps_json(index: &Index, spec: &str) -> RdepsAnswer {
    match rdeps(index, spec, Format::Json).unwrap() {
        Shown::Json(answer) => answer,
        Shown::Text(_) => panic!("asked for facts"),
    }
}

fn rdeps_text(index: &Index, spec: &str) -> Vec<String> {
    match rdeps(index, spec, Format::Text).unwrap() {
        Shown::Text(printed) => printed.lines,
        Shown::Json(_) => panic!("asked for text"),
    }
}

fn identify_json(index: &Index, target: &str) -> IdentifyAnswer {
    match identify(index, target, Format::Json).unwrap() {
        Shown::Json(answer) => answer,
        Shown::Text(_) => panic!("asked for facts"),
    }
}

fn identify_text(index: &Index, target: &str) -> Vec<String> {
    match identify(index, target, Format::Text).unwrap() {
        Shown::Text(printed) => printed.lines,
        Shown::Json(_) => panic!("asked for text"),
    }
}

fn muted(text: &str) -> String {
    format!("\x1b[2m{text}\x1b[0m")
}

/// `path`: the printed store path for an exact version, for a bare attribute
/// (tip wins over a newer spelling being absent), and for a pair whose
/// derivation name differs from attr-version. The answer is the bare path
/// alone, which is what command substitution feeds nix-store --realise.
#[test]
fn prints_store_paths() {
    let index = fixture(StoreData::Included);

    assert_eq!(
        path_text(&index, "hello@2.12.2").1,
        vec![store_path(HELLO_TIP, "hello-2.12.2")]
    );
    assert_eq!(
        path_text(&index, "hello@2.12.1").1,
        vec![store_path(HELLO_OLD, "hello-2.12.1")]
    );

    // No version given: the tip pair wins over the older one.
    assert_eq!(
        path_text(&index, "hello").1,
        vec![store_path(HELLO_TIP, "hello-2.12.2")]
    );

    // The derivation name, not attr-version, is what the path carries.
    assert_eq!(
        path_text(&index, "libfoo@1.0").1,
        vec![store_path(LIBFOO, "libfoo-unstable-1.0")]
    );

    // A version no revision ever built is an error, not an empty answer.
    assert!(path(&index, "hello@9.9", Format::Text).is_err());
    assert!(path(&index, "definitely-not-a-package", Format::Text).is_err());
}

/// The note beside the path says what the spec resolved to.
#[test]
fn notes_what_a_path_is_of() {
    let index = fixture(StoreData::Included);
    assert_eq!(
        path_text(&index, "hello").0,
        vec![muted("hello 2.12.2 (current)")]
    );
    assert_eq!(
        path_text(&index, "hello@2.12.1").0,
        vec![muted("hello 2.12.1")]
    );
    let facts = path_json(&index, "hello@2.12.1");
    assert_eq!(facts.attr, "hello");
    assert_eq!(facts.version, "2.12.1");
    assert_eq!(facts.digest, digest(HELLO_OLD));
    assert_eq!(facts.name.as_deref(), Some("hello-2.12.1"));
    assert_eq!(facts.store_path, store_path(HELLO_OLD, "hello-2.12.1"));
    assert!(!facts.tip);
}

/// `size`: cache, closure and sibling-output numbers coming back out of the
/// index exactly as they were put in.
#[test]
fn reports_sizes() {
    let index = fixture(StoreData::Included);

    let answer = size_json(&index, "hello@2.12.2");
    let details = answer.details.unwrap();
    assert_eq!(details.nar_size, Some(213432));
    assert_eq!(details.file_size, Some(49368));
    assert_eq!(details.closure_bytes, Some(50000000));
    assert_eq!(details.closure_paths, Some(12));
    assert_eq!(details.live, Some(true));
    assert_eq!(answer.tip, true);

    // The dev output rides along, with its own path and size.
    assert_eq!(answer.outputs[0].suffix, "dev");
    assert_eq!(answer.outputs[0].nar_size, Some(4096));
    assert_eq!(answer.outputs[0].path.digest, digest(HELLO_DEV));

    // A pair with no cache facts answers with nothing rather than failing.
    let bare = size_json(&index, "app@0.1");
    assert!(bare.details.is_none());
}

/// The lines `size` prints, with every fact known, with some unknown, and with
/// none recorded.
#[test]
fn prints_sizes() {
    let index = fixture(StoreData::Included);
    assert_eq!(
        size_text(&index, "hello@2.12.2"),
        vec![
            format!("hello 2.12.2 · {}", store_path(HELLO_TIP, "hello-2.12.2")),
            "  nar (unpacked)  208.4 KiB".to_string(),
            "  download        48.2 KiB".to_string(),
            "  closure         47.7 MiB · 12 paths".to_string(),
            "  cache           \x1b[32mlive\x1b[0m".to_string(),
            "".to_string(),
            "\x1b[1moutputs\x1b[0m".to_string(),
            "\x1b[1mSUFFIX  NAR      STORE PATH\x1b[0m".to_string(),
            format!(
                "dev     {}  {}",
                muted("4.0 KiB"),
                muted(&store_path(HELLO_DEV, "hello-2.12.2-dev"))
            ),
        ]
    );
    assert_eq!(
        size_text(&index, "hello@2.12.1"),
        vec![
            format!("hello 2.12.1 · {}", store_path(HELLO_OLD, "hello-2.12.1")),
            "  nar (unpacked)  50 B".to_string(),
            "  download        20 B".to_string(),
            "  closure         unknown".to_string(),
            "  cache           \x1b[31mno longer downloadable\x1b[0m".to_string(),
        ]
    );
    assert_eq!(
        size_text(&index, "app"),
        vec![
            format!("app 0.1 · {}", store_path(APP, "app-0.1")),
            muted("  no cache data recorded for this path"),
        ]
    );
}

/// A closure with members no longer cached says how many, one path is not two,
/// and a size nobody recorded is unknown.
#[test]
fn prints_dead_closure_members() {
    let mut rows = tables(StoreData::Included);
    rows.path_info = vec![info(
        APP,
        Index::details_from_row(None, None, Some(7), Some(1024), Some(1), Some(3)),
    )];
    let index = Index::open(rows).unwrap();
    assert_eq!(
        size_text(&index, "app"),
        vec![
            format!("app 0.1 · {}", store_path(APP, "app-0.1")),
            "  nar (unpacked)  unknown".to_string(),
            "  download        7 B".to_string(),
            "  closure         1.0 KiB · 1 path (3 no longer cached)".to_string(),
            "  cache           unknown".to_string(),
        ]
    );
}

fn entry_of<'a>(answer: &'a DepsAnswer, c: char) -> &'a DepEntry {
    answer
        .refs
        .iter()
        .find(|r| r.path.digest == digest(c))
        .unwrap()
}

/// `deps`: references resolved by digest where the exact path is a pair's, by
/// store name for a same-named rebuild, and left unresolved when neither
/// matches.
#[test]
fn resolves_deps() {
    let index = fixture(StoreData::Included);

    // hello's two references: libfoo is a pair's exact path, glibc is nobody's.
    let answer = deps_json(&index, "hello@2.12.2");
    assert_eq!(answer.refs.len(), 2);
    let libfoo = entry_of(&answer, LIBFOO);
    assert_eq!(libfoo.packages, vec!["libfoo@1.0".to_string()]);
    assert_eq!(libfoo.matched_by.map(|how| how.label()), Some("digest"));
    let glibc = entry_of(&answer, GLIBC);
    assert!(glibc.packages.is_empty());
    assert_eq!(glibc.matched_by.map(|how| how.label()), None);

    // app references the exact hello-2.12.2 path and a rebuild of hello-2.12.1
    // under another digest: one digest match, one name match.
    let answer = deps_json(&index, "app@0.1");
    let exact = entry_of(&answer, HELLO_TIP);
    assert_eq!(exact.packages, vec!["hello@2.12.2".to_string()]);
    assert_eq!(exact.matched_by.map(|how| how.label()), Some("digest"));
    let rebuild = entry_of(&answer, HELLO_OLD_REBUILD);
    assert_eq!(rebuild.packages, vec!["hello@2.12.1".to_string()]);
    assert_eq!(rebuild.matched_by.map(|how| how.label()), Some("name"));
}

/// References come in basename order, and the table ties each back or says it
/// cannot.
#[test]
fn prints_deps() {
    let index = fixture(StoreData::Included);
    let wide = basename(LIBFOO, "libfoo-unstable-1.0");
    let narrow = basename(GLIBC, "glibc-9.99");
    assert_eq!(
        deps_text(&index, "hello"),
        vec![
            "hello 2.12.2 · 2 direct references".to_string(),
            format!(
                "\x1b[1mREFERENCE{}  PACKAGE        VIA\x1b[0m",
                " ".repeat(wide.len() - "REFERENCE".len())
            ),
            format!("{wide}  libfoo@1.0     {}", muted("digest")),
            format!(
                "{narrow}{}  {}",
                " ".repeat(wide.len() - narrow.len()),
                muted("(not indexed)")
            ),
        ]
    );
    assert_eq!(
        deps_text(&index, "libfoo"),
        vec!["libfoo 1.0 · 0 direct references".to_string()]
    );
}

/// One reference that several pairs built to names each label once, in the
/// order of the attributes.
#[test]
fn labels_are_sorted_and_unique() {
    let pairs = vec![
        built("zlib", "1.3", APP, "x", 0, None),
        built("abc", "2.0", APP, "x", 0, None),
        built("zlib", "1.3", APP, "x", 1, None),
        built("abc", "10.0", APP, "x", 0, None),
    ];
    assert_eq!(
        pair_labels(&pairs),
        vec!["abc@10.0", "abc@2.0", "zlib@1.3"]
    );
    assert!(pair_labels(&vec![]).is_empty());

    // The attribute decides before the label does: `3` sorts before `@`.
    let pairs = vec![
        built("python3", "1", APP, "x", 0, None),
        built("python", "1", APP, "x", 0, None),
        built("python3", "1", APP, "x", 0, None),
    ];
    assert_eq!(pair_labels(&pairs), vec!["python@1", "python3@1"]);

    // Two attributes may come to the same label, which is still named once.
    let pairs = vec![
        built("a@b", "c", APP, "x", 0, None),
        built("a1", "c", APP, "x", 0, None),
        built("a", "b@c", APP, "x", 0, None),
    ];
    assert_eq!(pair_labels(&pairs), vec!["a@b@c", "a1@c"]);
}

/// A digest match wins even where the name would match too, and a path without
/// a name can only match by digest.
#[test]
fn ties_references_by_digest_first() {
    let index = fixture(StoreData::Included);
    let nameless = StorePath {
        id: 99,
        digest: digest('9'),
        name: None,
    };
    let tied = resolve_refs(
        &index,
        &vec![
            stored(HELLO_OLD, "hello-2.12.2"),
            stored(HELLO_OLD_REBUILD, "hello-2.12.1"),
            nameless,
        ],
    );
    let (pairs, how) = tied[0].as_ref().unwrap();
    assert_eq!(*how, MatchedBy::Digest);
    assert_eq!(pairs[0].version, "2.12.1");
    let (pairs, how) = tied[1].as_ref().unwrap();
    assert_eq!(*how, MatchedBy::Name);
    assert_eq!(pairs[0].version, "2.12.1");
    assert!(tied[2].is_none());
}

/// `rdeps`: the reverse edges, including a referrer that points at a
/// same-named rebuild rather than the pair's own digest, and the count of
/// referrers that are no pair — hello's dev output references hello itself.
#[test]
fn resolves_rdeps() {
    let index = fixture(StoreData::Included);

    // app references hello-2.12.2's exact path; the dev output does too but is
    // no indexed pair, so it is counted rather than listed.
    let answer = rdeps_json(&index, "hello@2.12.2");
    assert_eq!(answer.rdeps.len(), 1);
    assert_eq!(answer.rdeps[0].attr, "app");
    assert_eq!(answer.rdeps[0].version, "0.1");
    assert_eq!(answer.unindexed_referrers, 1);

    // app's reference to old hello names a rebuild digest, not the pair's own
    // path — found through the store name.
    let answer = rdeps_json(&index, "hello@2.12.1");
    assert_eq!(answer.rdeps.len(), 1);
    assert_eq!(answer.rdeps[0].attr, "app");

    // libfoo is referenced by hello alone.
    let answer = rdeps_json(&index, "libfoo@1.0");
    assert_eq!(answer.rdeps.len(), 1);
    assert_eq!(answer.rdeps[0].attr, "hello");
}

/// Referrers are listed by attribute and then version, current ones marked.
#[test]
fn prints_rdeps() {
    let mut rows = tables(StoreData::Included);
    rows.path_refs.push(refers(HELLO_OLD, LIBFOO));
    let index = Index::open(rows).unwrap();
    assert_eq!(
        rdeps_text(&index, "libfoo"),
        vec![
            "libfoo 1.0 · referenced by 2 indexed packages".to_string(),
            "\x1b[1mATTR   VERSION  STATUS\x1b[0m".to_string(),
            "hello  2.12.1".to_string(),
            "hello  2.12.2   \x1b[32mcurrent\x1b[0m".to_string(),
        ]
    );
    assert_eq!(
        rdeps_text(&index, "hello@2.12.2"),
        vec![
            "hello 2.12.2 · referenced by 1 indexed package".to_string(),
            "\x1b[1mATTR  VERSION  STATUS\x1b[0m".to_string(),
            "app   0.1      \x1b[32mcurrent\x1b[0m".to_string(),
            muted("  and 1 store path not indexed as packages (outputs, dependencies)"),
        ]
    );
}

/// What one package's references list, that package is in the referrers of.
#[test]
fn referrers_mirror_references() {
    let index = fixture(StoreData::Included);
    for (spec, attr) in [("hello", "hello"), ("app", "app")] {
        for entry in deps_json(&index, spec).refs {
            for label in entry.packages {
                let back = rdeps_json(&index, &label);
                assert!(back.rdeps.iter().any(|r| r.attr == attr), "{label}");
            }
        }
    }
}

/// `identify`: the three accepted spellings agree, a pair's path comes back as
/// its package, an output digest names its derivation and suffix, and an
/// unknown digest is an error.
#[test]
fn identifies_store_paths() {
    let index = fixture(StoreData::Included);

    let by_digest = identify_json(&index, &digest(HELLO_TIP));
    let by_basename = identify_json(&index, &basename(HELLO_TIP, "hello-2.12.2"));
    let by_path = identify_json(&index, &store_path(HELLO_TIP, "hello-2.12.2"));
    assert_eq!(format!("{by_digest:?}"), format!("{by_basename:?}"));
    assert_eq!(format!("{by_digest:?}"), format!("{by_path:?}"));
    assert_eq!(by_digest.packages[0].attr, "hello");
    assert_eq!(by_digest.packages[0].version, "2.12.2");
    assert_eq!(by_digest.packages[0].tip, true);

    // A sibling output identifies as output of its derivation, not a package.
    let output = identify_json(&index, &digest(HELLO_DEV));
    assert!(output.packages.is_empty());
    assert_eq!(output.outputs[0].0, "hello-2.12.2");
    assert_eq!(output.outputs[0].1, "dev");

    // A digest the index never saw, and a string that is no digest at all.
    assert!(identify(&index, &digest('9'), Format::Json).is_err());
    assert!(identify(&index, "not-a-digest", Format::Json).is_err());
}

/// The lines `identify` prints for a package, an output and a mere dependency.
#[test]
fn prints_identities() {
    let index = fixture(StoreData::Included);
    assert_eq!(
        identify_text(&index, &digest(HELLO_TIP)),
        vec![
            store_path(HELLO_TIP, "hello-2.12.2"),
            "  package  hello \x1b[32m2.12.2\x1b[0m (current)".to_string(),
        ]
    );
    assert_eq!(
        identify_text(&index, &digest(HELLO_OLD)),
        vec![
            store_path(HELLO_OLD, "hello-2.12.1"),
            "  package  hello \x1b[32m2.12.1\x1b[0m".to_string(),
        ]
    );
    assert_eq!(
        identify_text(&index, &digest(HELLO_DEV)),
        vec![
            store_path(HELLO_DEV, "hello-2.12.2-dev"),
            "  output   dev of hello-2.12.2".to_string(),
        ]
    );
    assert_eq!(
        identify_text(&index, &digest(GLIBC)),
        vec![
            store_path(GLIBC, "glibc-9.99"),
            muted("  a dependency path — nothing in the index builds to it directly"),
        ]
    );
}

/// What `path` prints, `identify` names again.
#[test]
fn identify_gives_back_what_path_printed() {
    let index = fixture(StoreData::Included);
    for (attr, version) in [("hello", "2.12.1"), ("hello", "2.12.2"), ("libfoo", "1.0")] {
        let printed = path_text(&index, &format!("{attr}@{version}")).1;
        let answer = identify_json(&index, &printed[0]);
        assert_eq!(answer.store_path, printed[0]);
        assert!(answer
            .packages
            .iter()
            .any(|p| p.attr == attr && p.version == version));
    }
}

/// Pairs that built to the same path are named in attribute order.
#[test]
fn identifies_packages_in_attribute_order() {
    let mut rows = tables(StoreData::Included);
    rows.pairs
        .push(built("greeter", "2.12.2", HELLO_TIP, "hello-2.12.2", 0, None));
    let index = Index::open(rows).unwrap();
    let answer = identify_json(&index, &digest(HELLO_TIP));
    let attrs: Vec<&str> = answer.packages.iter().map(|p| p.attr.as_str()).collect();
    assert_eq!(attrs, vec!["greeter", "hello"]);
}

/// An index without store data: the store commands refuse with the
/// one-sentence explanation, and the history still answers.
#[test]
fn refuses_gracefully_without_store_data() {
    let index = fixture(StoreData::Omitted);

    let refusals = vec![
        path(&index, "hello@2.12.2", Format::Text).err(),
        size(&index, "hello@2.12.2", Format::Text).err(),
        deps(&index, "hello@2.12.2", Format::Text).err(),
        rdeps(&index, "hello@2.12.2", Format::Text).err(),
        target(&index, "hello@2.12.2").err(),
    ];
    for refused in refusals {
        let sentence = refused.expect("must refuse").message();
        assert!(sentence.contains("without store-path data"), "{sentence}");
    }
    assert!(identify(&index, &digest(HELLO_TIP), Format::Text).is_err());

    // The history is untouched by the missing data.
    assert_eq!(version_at(&index, "2024-02-01", "hello"), "2.12.1");
}

/// The version an attribute had at the newest revision on or before a date.
fn version_at(index: &Index, date: &str, attr: &str) -> String {
    let off = index.revision_on_or_before(date).unwrap().off;
    version_in(index, off, attr)
}

fn version_in(index: &Index, off: i64, attr: &str) -> String {
    index
        .snapshot(off)
        .into_iter()
        .find(|(name, _)| name == attr)
        .unwrap()
        .1
}

/// The store data does not disturb the history: the same settled question
/// answers identically on an index with it.
#[test]
fn history_survives_store_tables() {
    let index = fixture(StoreData::Included);
    assert_eq!(version_at(&index, "2024-02-01", "hello"), "2.12.1");
    assert_eq!(
        version_in(&index, index.tip().unwrap().off, "hello"),
        "2.12.2"
    );
}

/// Each way a spec can fail to resolve is told apart, and the refusal of a
/// version lists those there are, oldest first.
#[test]
fn tells_unresolved_specs_apart() {
    let mut rows = tables(StoreData::Included);
    rows.runs.push(ran("lonely", "1.0", 0, 2));
    rows.pairs
        .push(built("hello", "2.9", HELLO_OLD, "hello-2.9", 0, None));
    let index = Index::open(rows).unwrap();
    match resolve_pair(&index, "nobody").err().unwrap() {
        Refusal::UnknownAttr { attr } => assert_eq!(attr, "nobody"),
        other => panic!("{other:?}"),
    }
    match resolve_pair(&index, "lonely@1.0").err().unwrap() {
        Refusal::NoStorePath { attr } => assert_eq!(attr, "lonely"),
        other => panic!("{other:?}"),
    }
    let refused = resolve_pair(&index, "hello@3").err().unwrap();
    assert_eq!(
        refused.message(),
        "no store path is indexed for hello@3.\nVersions with one: 2.9 2.12.1 2.12.2"
    );
    assert!(matches!(
        resolve_pair(&index, "@1").err().unwrap(),
        Refusal::BadSpec { .. }
    ));
    assert!(matches!(
        identify(&index, &digest('9'), Format::Text).err().unwrap(),
        Refusal::UnseenDigest { .. }
    ));
    assert!(matches!(
        identify(&index, "too-short", Format::Text).err().unwrap(),
        Refusal::NotAStorePath { .. }
    ));
}

/// A target carries what running takes: the path and the pname.
#[test]
fn targets_carry_the_pname() {
    let index = fixture(StoreData::Included);
    let found = target(&index, "libfoo").unwrap();
    assert_eq!(found.attr, "libfoo");
    assert_eq!(found.version, "1.0");
    assert_eq!(found.store_path, store_path(LIBFOO, "libfoo-unstable-1.0"));
    assert_eq!(found.pname.as_deref(), Some("libfoo-unstable"));
    assert!(found.tip);
    assert!(target(&index, "hello@9.9").is_err());
}

/// A pair for the pure-function tests below; only version and tip matter to
/// the choosing logic.
fn pair(version: &str, tip: bool) -> PairPath {
    PairPath {
        attr: "hello".to_string(),
        version: version.to_string(),
        path: StorePath {
            id: 1,
            digest: "0".repeat(DIGEST_LEN),
            name: None,
        },
        tip,
        found_off: None,
    }
}

/// Version selection: an exact match beats prefix matches, a prefix selects
/// component-wise, and no version selects everything.
#[test]
fn selects_matching_versions() {
    let pairs = vec![
        pair("3.8", false),
        pair("3.8.9", false),
        pair("3.10.2", true),
    ];

    // "3.8" is both an exact version and a prefix of 3.8.9; exactness wins.
    let exact = matching_pairs(pairs.clone(), Some("3.8"));
    assert_eq!(exact.len(), 1);
    assert_eq!(exact[0].version, "3.8");

    // "3.1" is a component prefix of nothing here — not of 3.10.2.
    assert!(matching_pairs(pairs.clone(), Some("3.1")).is_empty());

    let prefix = matching_pairs(pairs.clone(), Some("3.10"));
    assert_eq!(prefix.len(), 1);
    assert_eq!(prefix[0].version, "3.10.2");

    assert_eq!(matching_pairs(pairs, None).len(), 3);
}

/// Choosing among candidates: the tip pair wins over a newer non-tip version,
/// and without a tip the newest version wins.
#[test]
fn chooses_tip_then_newest() {
    let chosen = choose_pair(vec![pair("2.0", false), pair("1.0", true)]);
    assert_eq!(chosen.version, "1.0");

    let chosen = choose_pair(vec![pair("1.9", false), pair("1.10", false)]);
    assert_eq!(chosen.version, "1.10");
}

/// Among candidates alike in tip and version the last one is chosen.
#[test]
fn chooses_the_last_of_equals() {
    let mut first = pair("1.0", true);
    first.attr = "first".to_string();
    let mut last = pair("1.0", true);
    last.attr = "last".to_string();
    assert_eq!(choose_pair(vec![first, last, pair("9", false)]).attr, "last");
}

/// Digest extraction from every accepted spelling, and the rejections: a wrong
/// length, and a character outside Nix's base32 alphabet.
#[test]
fn extracts_digests() {
    let digest = "8qi947kixhz1nw83dkwxm6d0wndprqkj";
    assert_eq!(digest_of(digest).unwrap(), digest);
    assert_eq!(
        digest_of(&format!("{digest}-hello-2.12.2")).unwrap(),
        digest
    );
    assert_eq!(
        digest_of(&format!("/nix/store/{digest}-hello-2.12.2")).unwrap(),
        digest
    );

    assert!(digest_of("too-short").is_err());
    // 'e' is not in Nix's base32 alphabet, so this 32-character string is not a
    // digest however plausible it looks.
    assert!(digest_of(&"e".repeat(DIGEST_LEN)).is_err());
    assert!(digest_of("").is_err());
}

/// Every letter of the alphabet makes a digest, and every other does not; 32
/// bytes that are not 32 characters do not either.
#[test]
fn digests_keep_to_the_alphabet() {
    for c in ' '..='~' {
        let accepted = c.is_ascii_digit() || (c.is_ascii_lowercase() && !"eout".contains(c));
        assert_eq!(digest_of(&c.to_string().repeat(DIGEST_LEN)).is_ok(), accepted);
    }
    assert!(digest_of(&"é".repeat(16)).is_err());
    assert!(digest_of(&"0".repeat(33)).is_err());
}

/// Tests that a derivation name splits into the pname `mvs run` looks for
/// under bin/: a dashed name, a name whose pname itself ends in a digit, one
/// with no version at all, and one whose version is not the first dashed part.
#[test]
fn splits_pnames() {
    assert_eq!(pname_of("hello-2.12.2"), "hello");
    assert_eq!(pname_of("python3-3.8.9"), "python3");
    assert_eq!(pname_of("ripgrep-15.2.0"), "ripgrep");
    assert_eq!(pname_of("nix-info"), "nix-info");
    assert_eq!(pname_of("gcc-wrapper-13.2.0"), "gcc-wrapper");
}

/// Only the first split counts, and a trailing dash is none.
#[test]
fn splits_pnames_once() {
    assert_eq!(pname_of("a-1-2"), "a");
    assert_eq!(pname_of("a-"), "a-");
    assert_eq!(pname_of(""), "");
    assert_eq!(pname_of("-1"), "");
    assert_eq!(pname_of("é-é-9"), "é-é");
}
