use nix_weather::derivation::{Drv, DrvOutput, InputDrv};
use nix_weather::narinfo::NarInfo;
use nix_weather::store::DiscoverError;
use nix_weather::{StoreCache, StoreHash, StoreItem};

const A_DRV: &str = "/nix/store/aaaaaaaaaaaaaaaaaaaaaaaaaaaaaaaa-A.drv";
const A_OUT: &str = "/nix/store/oooooooooooooooooooooooooooooooa-A";
const B_DRV: &str = "/nix/store/bbbbbbbbbbbbbbbbbbbbbbbbbbbbbbbb-B.drv";
const B_OUT: &str = "/nix/store/ooooooooooooooooooooooooooooooob-B";
const C_DRV: &str = "/nix/store/cccccccccccccccccccccccccccccccc-C.drv";
const C_OUT: &str = "/nix/store/oooooooooooooooooooooooooooooooc-C";
const D_DRV: &str = "/nix/store/dddddddddddddddddddddddddddddddd-D.drv";
const D_OUT: &str = "/nix/store/oooooooooooooooooooooooooooooood-D";
const SRC: &str = "/nix/store/ssssssssssssssssssssssssssssssss-builder.sh";

fn recipe(name: &str, out: &str, inputs: &[&str], sources: &[&str]) -> Drv {
    Drv {
        outputs: vec![DrvOutput {
            key: String::from("out"),
            path: String::from(out),
            hash_algo: String::new(),
            hash: String::new(),
        }],
        input_drvs: inputs
            .iter()
            .map(|path| InputDrv { path: String::from(*path), outputs: vec![String::from("out")] })
            .collect(),
        input_srcs: sources.iter().map(|path| String::from(*path)).collect(),
        platform: String::from("x86_64-linux"),
        builder: String::from("/bin/sh"),
        builder_args: Vec::new(),
        env: vec![(String::from("name"), String::from(name))],
    }
}

fn record(path: &str, references: &[&str], file_size: u64, nar_size: u64) -> NarInfo {
    NarInfo {
        store_path: String::from(path),
        url: String::from("nar/x.nar.xz"),
        compression: String::from("xz"),
        file_hash: String::from("sha256:f"),
        file_size,
        nar_hash: String::from("sha256:n"),
        nar_size,
        references: references.iter().map(|name| String::from(*name)).collect(),
        deriver: None,
        sig: String::from("s"),
    }
}

/// Discovers what the derivation at `path` needs, reading derivations from
/// `files`, and hands back the paths it read, in order.
fn discover(store: &mut StoreCache, path: &str, files: &[(&str, Drv)]) -> Vec<String> {
    let drv = &files.iter().find(|(p, _)| *p == path).expect("no such file").1;
    store.discover_build_time_closure(StoreHash::from_path(path), drv).unwrap();
    let mut read = Vec::new();
    while let Some(wanted) = store.next_input() {
        let drv = &files.iter().find(|(p, _)| *p == wanted).expect("no such file").1;
        store.supply_input(drv).unwrap();
        read.push(wanted);
    }
    read
}

fn files() -> Vec<(&'static str, Drv)> {
    vec![
        (A_DRV, recipe("A", A_OUT, &[B_DRV, C_DRV], &[SRC])),
        (B_DRV, recipe("B", B_OUT, &[D_DRV], &[])),
        (C_DRV, recipe("C", C_OUT, &[D_DRV], &[SRC])),
        (D_DRV, recipe("D", D_OUT, &[], &[])),
    ]
}

fn snapshot(store: &StoreCache) -> Vec<String> {
    let mut lines: Vec<String> = store.entries().iter().map(|(hash, item)| format!("{:?} {:?}", hash, item)).collect();
    lines.sort();
    lines
}

#[test]
fn new_cache_is_empty() {
    let store = StoreCache::new();
    assert_eq!(store.len(), 0);
    assert!(store.entries().is_empty());
    assert!(store.is_settled());
    assert!(store.get(&StoreHash::from_path(A_DRV)).is_none());
    assert!(store.output_hashes().is_empty());
}

#[test]
fn discovery_registers_derivation_sources_and_outputs() {
    let mut store = StoreCache::new();
    let d = recipe("D", D_OUT, &[], &[SRC]);
    assert_eq!(store.discover_build_time_closure(StoreHash::from_path(D_DRV), &d), Ok(()));
    assert_eq!(store.len(), 3);
    match store.get(&StoreHash::from_path(D_DRV)) {
        Some(StoreItem::Drv(drv)) => assert_eq!(*drv, d),
        other => panic!("{:?}", other),
    }
    match store.get(&StoreHash::from_path(SRC)) {
        Some(StoreItem::Source(name)) => assert_eq!(name, "builder.sh"),
        other => panic!("{:?}", other),
    }
    match store.get(&StoreHash::from_path(D_OUT)) {
        Some(StoreItem::Output(name, deriver)) => {
            assert_eq!(name, "D");
            assert_eq!(*deriver, StoreHash::from_path(D_DRV));
        }
        other => panic!("{:?}", other),
    }
    assert!(!store.is_settled());
    assert_eq!(store.next_input(), None);
    assert!(store.is_settled());
}

#[test]
fn discovery_asks_for_the_files_it_needs_depth_first_each_once() {
    let mut store = StoreCache::new();
    let read = discover(&mut store, A_DRV, &files());
    assert_eq!(read, vec![String::from(B_DRV), String::from(D_DRV), String::from(C_DRV)]);
    assert!(store.is_settled());
    // four derivations, four outputs, one source
    assert_eq!(store.len(), 9);
    for path in [A_DRV, B_DRV, C_DRV, D_DRV] {
        assert!(matches!(store.get(&StoreHash::from_path(path)), Some(StoreItem::Drv(_))));
    }
    for path in [A_OUT, B_OUT, C_OUT, D_OUT] {
        assert!(matches!(store.get(&StoreHash::from_path(path)), Some(StoreItem::Output(_, _))));
    }
}

#[test]
fn discovery_waits_for_the_file_it_asked_for() {
    let mut store = StoreCache::new();
    let files = files();
    store.discover_build_time_closure(StoreHash::from_path(A_DRV), &files[0].1).unwrap();
    assert_eq!(store.next_input(), Some(String::from(B_DRV)));
    assert_eq!(store.next_input(), Some(String::from(B_DRV)));
    assert!(!store.is_settled());
    assert!(store.get(&StoreHash::from_path(B_DRV)).is_none());
    assert_eq!(store.supply_input(&files[1].1), Ok(()));
    assert!(matches!(store.get(&StoreHash::from_path(B_DRV)), Some(StoreItem::Drv(_))));
    assert_eq!(store.next_input(), Some(String::from(D_DRV)));
}

#[test]
fn discover_is_idempotent() {
    let mut store = StoreCache::new();
    discover(&mut store, A_DRV, &files());
    let before = snapshot(&store);
    let read = discover(&mut store, A_DRV, &files());
    assert_eq!(read, Vec::<String>::new());
    assert_eq!(snapshot(&store), before);
    assert!(store.is_settled());
    // nor does another derivation under the same hash change anything
    let other = recipe("other", D_OUT, &[], &[]);
    assert_eq!(store.discover_build_time_closure(StoreHash::from_path(A_DRV), &other), Ok(()));
    assert_eq!(snapshot(&store), before);
    assert!(store.is_settled());
}

#[test]
fn discovery_reuses_derivations_of_the_cache() {
    let mut store = StoreCache::new();
    assert_eq!(discover(&mut store, B_DRV, &files()), vec![String::from(D_DRV)]);
    // B and D are in the cache: only C is read
    assert_eq!(discover(&mut store, A_DRV, &files()), vec![String::from(C_DRV)]);
    assert_eq!(store.len(), 9);
}

#[test]
fn cache_is_complete_after_every_discovery() {
    let mut store = StoreCache::new();
    for root in [D_DRV, B_DRV, A_DRV] {
        discover(&mut store, root, &files());
        for (_, item) in store.entries() {
            if let StoreItem::Drv(drv) = item {
                for source in &drv.input_srcs {
                    assert!(store.get(&StoreHash::from_path(source)).is_some());
                }
                for output in &drv.outputs {
                    assert!(store.get(&StoreHash::from_path(&output.path)).is_some());
                }
                for input in &drv.input_drvs {
                    assert!(store.get(&StoreHash::from_path(&input.path)).is_some());
                }
            }
        }
    }
}

#[test]
fn derivation_with_a_path_outside_the_store_is_refused() {
    let mut store = StoreCache::new();
    for bad in [
        recipe("x", "/tmp/out", &[], &[]),
        recipe("x", A_OUT, &["/tmp/input.drv"], &[]),
        recipe("x", A_OUT, &[], &["/tmp/source"]),
        recipe("x", "/nix/store/oooooooooooooooooooooooooooooooa", &[], &[]),
    ] {
        assert_eq!(
            store.discover_build_time_closure(StoreHash::from_path(A_DRV), &bad),
            Err(DiscoverError::InvalidStorePath)
        );
        assert_eq!(store.len(), 0);
        assert!(store.is_settled());
    }
    // an input derivation needs a hash only
    let bare = recipe("x", A_OUT, &["/nix/store/bbbbbbbbbbbbbbbbbbbbbbbbbbbbbbbb"], &[]);
    assert_eq!(store.discover_build_time_closure(StoreHash::from_path(A_DRV), &bare), Ok(()));
}

#[test]
fn refused_input_leaves_the_discovery_waiting() {
    let mut store = StoreCache::new();
    let a = recipe("A", A_OUT, &[B_DRV], &[]);
    store.discover_build_time_closure(StoreHash::from_path(A_DRV), &a).unwrap();
    assert_eq!(store.next_input(), Some(String::from(B_DRV)));
    let bad = recipe("B", "/tmp/out", &[], &[]);
    let before = snapshot(&store);
    assert_eq!(store.supply_input(&bad), Err(DiscoverError::InvalidStorePath));
    assert_eq!(snapshot(&store), before);
    assert_eq!(store.next_input(), Some(String::from(B_DRV)));
    assert_eq!(store.supply_input(&recipe("B", B_OUT, &[], &[])), Ok(()));
    assert_eq!(store.next_input(), None);
}

#[test]
fn nothing_is_taken_while_nothing_is_awaited() {
    let mut store = StoreCache::new();
    let d = recipe("D", D_OUT, &[], &[]);
    assert_eq!(store.supply_input(&d), Err(DiscoverError::NoInputAwaited));
    store.discover_build_time_closure(StoreHash::from_path(D_DRV), &d).unwrap();
    assert_eq!(store.supply_input(&d), Err(DiscoverError::NoInputAwaited));
    assert_eq!(store.len(), 2);
    assert_eq!(store.next_input(), None);
    assert_eq!(store.supply_input(&d), Err(DiscoverError::NoInputAwaited));
}

#[test]
fn input_under_a_hash_with_another_item_is_read_and_left_out() {
    // the input derivation has the hash of a source of the same derivation
    let source = "/nix/store/bbbbbbbbbbbbbbbbbbbbbbbbbbbbbbbb-source";
    let a = recipe("A", A_OUT, &[B_DRV], &[source]);
    let mut store = StoreCache::new();
    store.discover_build_time_closure(StoreHash::from_path(A_DRV), &a).unwrap();
    assert_eq!(store.next_input(), Some(String::from(B_DRV)));
    assert_eq!(store.supply_input(&recipe("B", B_OUT, &[], &[])), Ok(()));
    assert_eq!(store.next_input(), None);
    assert!(matches!(store.get(&StoreHash::from_path(B_DRV)), Some(StoreItem::Source(_))));
    assert!(store.get(&StoreHash::from_path(B_OUT)).is_none());
}

#[test]
fn outputs_are_the_hashes_to_look_up() {
    let mut store = StoreCache::new();
    discover(&mut store, A_DRV, &files());
    let mut hashes: Vec<String> = store.output_hashes().iter().map(|hash| String::from(hash.to_str())).collect();
    hashes.sort();
    assert_eq!(hashes, vec![
        String::from("oooooooooooooooooooooooooooooooa"),
        String::from("ooooooooooooooooooooooooooooooob"),
        String::from("oooooooooooooooooooooooooooooooc"),
        String::from("oooooooooooooooooooooooooooooood"),
    ]);
    assert!(store.merge_narinfo(StoreHash::from_path(B_OUT), record(B_OUT, &[], 1, 2)));
    assert_eq!(store.output_hashes().len(), 3);
    assert!(!store.output_hashes().contains(&StoreHash::from_path(B_OUT)));
}

#[test]
fn record_is_taken_in_place_of_an_output_or_of_nothing() {
    let mut store = StoreCache::new();
    discover(&mut store, D_DRV, &files());
    assert_eq!(store.len(), 2);
    // in place of an output
    assert!(store.merge_narinfo(StoreHash::from_path(D_OUT), record(D_OUT, &[], 10, 20)));
    assert_eq!(store.len(), 2);
    match store.get(&StoreHash::from_path(D_OUT)) {
        Some(StoreItem::NarInfo(info)) => assert_eq!((info.file_size, info.nar_size), (10, 20)),
        other => panic!("{:?}", other),
    }
    // under a hash without an item
    assert!(store.merge_narinfo(StoreHash::from_path(A_OUT), record(A_OUT, &[], 1, 2)));
    assert_eq!(store.len(), 3);
    assert!(matches!(store.get(&StoreHash::from_path(A_OUT)), Some(StoreItem::NarInfo(_))));
}

#[test]
fn record_is_not_taken_in_place_of_another_item() {
    let mut store = StoreCache::new();
    discover(&mut store, C_DRV, &files());
    let before = snapshot(&store);
    assert!(!store.merge_narinfo(StoreHash::from_path(C_DRV), record(C_DRV, &[], 1, 2)));
    assert!(!store.merge_narinfo(StoreHash::from_path(SRC), record(SRC, &[], 1, 2)));
    assert_eq!(snapshot(&store), before);
    // nor in place of a record
    assert!(store.merge_narinfo(StoreHash::from_path(C_OUT), record(C_OUT, &[], 1, 2)));
    assert!(!store.merge_narinfo(StoreHash::from_path(C_OUT), record(C_OUT, &[], 3, 4)));
    match store.get(&StoreHash::from_path(C_OUT)) {
        Some(StoreItem::NarInfo(info)) => assert_eq!((info.file_size, info.nar_size), (1, 2)),
        other => panic!("{:?}", other),
    }
}

#[test]
fn records_taken_are_counted() {
    let mut store = StoreCache::new();
    discover(&mut store, A_DRV, &files());
    let found = vec![
        (StoreHash::from_path(A_OUT), record(A_OUT, &[], 1, 2)),
        (StoreHash::from_path(A_DRV), record(A_DRV, &[], 1, 2)),
        (StoreHash::from_path(B_OUT), record(B_OUT, &[], 1, 2)),
        (StoreHash::from_path(A_OUT), record(A_OUT, &[], 5, 6)),
        (StoreHash::from_name("nnnnnnnnnnnnnnnnnnnnnnnnnnnnnnnn-new"), record("new", &[], 1, 2)),
    ];
    assert_eq!(store.merge_narinfos(found), 3);
    assert_eq!(store.len(), 10);
    assert_eq!(store.merge_narinfos(Vec::new()), 0);
}

#[test]
fn records_leave_the_same_cache_in_whatever_order() {
    let found = || vec![
        (StoreHash::from_path(A_OUT), record(A_OUT, &["ooooooooooooooooooooooooooooooob-B"], 1, 2)),
        (StoreHash::from_path(B_OUT), record(B_OUT, &[], 3, 4)),
        (StoreHash::from_path(C_DRV), record(C_DRV, &[], 5, 6)),
        (StoreHash::from_name("nnnnnnnnnnnnnnnnnnnnnnnnnnnnnnnn-new"), record("new", &[], 7, 8)),
    ];
    let orders: [[usize; 4]; 5] = [[0, 1, 2, 3], [3, 2, 1, 0], [1, 3, 0, 2], [2, 0, 3, 1], [0, 2, 1, 3]];
    let mut snapshots = Vec::new();
    for order in orders {
        let mut store = StoreCache::new();
        discover(&mut store, A_DRV, &files());
        let mut all: Vec<Option<(StoreHash, NarInfo)>> = found().into_iter().map(Some).collect();
        let reordered: Vec<(StoreHash, NarInfo)> = order.iter().map(|i| all[*i].take().unwrap()).collect();
        assert_eq!(store.merge_narinfos(reordered), 3);
        snapshots.push(snapshot(&store));
    }
    for other in &snapshots[1..] {
        assert_eq!(*other, snapshots[0]);
    }
}

#[test]
fn item_is_told_by_its_kind() {
    let d = recipe("D", D_OUT, &[], &[]);
    assert_eq!(StoreItem::Drv(d.clone()).as_drv(), Some(d.clone()));
    assert!(StoreItem::Drv(d.clone()).as_narinfo().is_none());
    assert_eq!(StoreItem::Source(String::from("s")).as_drv(), None);
    assert_eq!(StoreItem::Output(String::from("o"), StoreHash::from_path(D_DRV)).as_drv(), None);
    let info = StoreItem::NarInfo(Box::new(record(D_OUT, &[], 7, 9))).as_narinfo().unwrap();
    assert_eq!((info.file_size, info.nar_size), (7, 9));
    assert!(StoreItem::NarInfo(Box::new(record(D_OUT, &[], 7, 9))).as_drv().is_none());
    assert!(StoreItem::Source(String::from("s")).as_narinfo().is_none());
}

#[test]
fn discovery_writes_over_no_record() {
    // the record of an output is there before the derivation that makes it
    let hello = "/nix/store/oooooooooooooooooooooooooooooooo-hello";
    let mut store = StoreCache::new();
    assert!(store.merge_narinfo(StoreHash::from_path(hello), record(hello, &[], 10, 20)));
    let before = snapshot(&store);
    let a = recipe("hello", hello, &[], &[]);
    assert_eq!(store.discover_build_time_closure(StoreHash::from_path(A_DRV), &a), Ok(()));
    assert_eq!(store.next_input(), None);
    match store.get(&StoreHash::from_path(hello)) {
        Some(StoreItem::NarInfo(info)) => assert_eq!((info.file_size, info.nar_size), (10, 20)),
        other => panic!("{:?}", other),
    }
    assert_eq!(store.len(), 2);
    assert!(snapshot(&store).contains(&before[0]));
    assert!(store.output_hashes().is_empty());
}

#[test]
fn discovery_writes_over_no_item_of_another_kind() {
    let mut store = StoreCache::new();
    discover(&mut store, D_DRV, &files());
    let before = snapshot(&store);
    // a source under the hash of a derivation, and an output under that of a source
    let source_at_d = "/nix/store/dddddddddddddddddddddddddddddddd-source";
    let output_at_d_out = "/nix/store/oooooooooooooooooooooooooooooood-other";
    let e = recipe("E", output_at_d_out, &[], &[source_at_d]);
    let e_drv = "/nix/store/eeeeeeeeeeeeeeeeeeeeeeeeeeeeeeee-E.drv";
    assert_eq!(store.discover_build_time_closure(StoreHash::from_path(e_drv), &e), Ok(()));
    assert_eq!(store.next_input(), None);
    assert_eq!(store.len(), 3);
    for line in &before {
        assert!(snapshot(&store).contains(line));
    }
    assert!(matches!(store.get(&StoreHash::from_path(D_DRV)), Some(StoreItem::Drv(_))));
    match store.get(&StoreHash::from_path(D_OUT)) {
        Some(StoreItem::Output(name, deriver)) => {
            assert_eq!(name, "D");
            assert_eq!(*deriver, StoreHash::from_path(D_DRV));
        }
        other => panic!("{:?}", other),
    }
}

#[test]
fn output_with_the_hash_of_its_derivation_is_left_out() {
    let own = "/nix/store/aaaaaaaaaaaaaaaaaaaaaaaaaaaaaaaa-A";
    let mut store = StoreCache::new();
    let a = recipe("A", own, &[], &[]);
    assert_eq!(store.discover_build_time_closure(StoreHash::from_path(A_DRV), &a), Ok(()));
    assert_eq!(store.len(), 1);
    assert!(matches!(store.get(&StoreHash::from_path(A_DRV)), Some(StoreItem::Drv(_))));
}

#[test]
fn item_is_put_under_a_hash_that_has_none() {
    let mut store = StoreCache::new();
    let hash = StoreHash::from_path(A_OUT);
    assert!(store.add_item(hash, StoreItem::Output(String::from("A"), StoreHash::from_path(A_DRV))));
    assert!(matches!(store.get(&hash), Some(StoreItem::Output(name, _)) if name == "A"));
    assert_eq!(store.output_hashes(), vec![hash]);
    // the hash has an item now
    let before = snapshot(&store);
    assert!(!store.add_item(hash, StoreItem::Source(String::from("other"))));
    assert!(!store.add_item(hash, StoreItem::NarInfo(Box::new(record(A_OUT, &[], 1, 2)))));
    assert_eq!(snapshot(&store), before);
    // a derivation is not taken
    assert!(!store.add_item(StoreHash::from_path(D_DRV), StoreItem::Drv(recipe("D", D_OUT, &[], &[]))));
    assert_eq!(snapshot(&store), before);
    assert!(store.add_item(StoreHash::from_path(SRC), StoreItem::Source(String::from("builder.sh"))));
    assert!(store.add_item(StoreHash::from_path(B_OUT), StoreItem::NarInfo(Box::new(record(B_OUT, &[], 1, 2)))));
    assert_eq!(store.len(), 3);
    assert!(store.is_settled());
}
