use nix_weather::coverage::{standing_of, Standing};
use nix_weather::derivation::{Drv, DrvOutput, InputDrv};
use nix_weather::narinfo::NarInfo;
use nix_weather::runtime::Fault;
use nix_weather::{Closure, CoverageStatistics, StoreCache, StoreHash, StoreItem};

const A_DRV: &str = "/nix/store/aaaaaaaaaaaaaaaaaaaaaaaaaaaaaaaa-A.drv";
const A_OUT: &str = "/nix/store/oooooooooooooooooooooooooooooooa-A";
const B_DRV: &str = "/nix/store/bbbbbbbbbbbbbbbbbbbbbbbbbbbbbbbb-B.drv";
const B_OUT: &str = "/nix/store/ooooooooooooooooooooooooooooooob-B";
const SRC: &str = "/nix/store/ssssssssssssssssssssssssssssssss-builder.sh";
const X: &str = "xxxxxxxxxxxxxxxxxxxxxxxxxxxxxxxx-x";
const Y: &str = "yyyyyyyyyyyyyyyyyyyyyyyyyyyyyyyy-y";
const Z: &str = "zzzzzzzzzzzzzzzzzzzzzzzzzzzzzzzz-z";

fn recipe(name: &str, out: &str, inputs: &[&str], sources: &[&str]) -> Drv {
    Drv {
        outputs: vec![DrvOutput {
            key: String::from("out"),
            path: String::from(out),
            hash_algo: String::new(),
            hash: String::new(),
        }],
        input_drvs: inputs
            .iter()
            .map(|path| InputDrv { path: String::from(*path), outputs: vec![String::from("out")] })
            .collect(),
        input_srcs: sources.iter().map(|path| String::from(*path)).collect(),
        platform: String::from("x86_64-linux"),
        builder: String::from("/bin/sh"),
        builder_args: Vec::new(),
        env: vec![(String::from("name"), String::from(name))],
    }
}

fn record(references: &[&str], file_size: u64, nar_size: u64) -> NarInfo {
    NarInfo {
        store_path: String::from("p"),
        url: String::from("nar/x.nar.xz"),
        compression: String::from("xz"),
        file_hash: String::from("sha256:f"),
        file_size,
        nar_hash: String::from("sha256:n"),
        nar_size,
        references: references.iter().map(|name| String::from(*name)).collect(),
        deriver: None,
        sig: String::from("s"),
    }
}

/// A derivation `A` with the input derivation `B`, which has none, and
/// one output each.
fn store_of_a_and_b() -> StoreCache {
    let mut store = StoreCache::new();
    store.discover_build_time_closure(StoreHash::from_path(A_DRV), &recipe("A", A_OUT, &[B_DRV], &[SRC])).unwrap();
    assert_eq!(store.next_input(), Some(String::from(B_DRV)));
    store.supply_input(&recipe("B", B_OUT, &[], &[])).unwrap();
    assert_eq!(store.next_input(), None);
    store
}

fn closure_of(store: &StoreCache, roots: &[StoreHash]) -> Closure {
    let mut closure = Closure::empty();
    for root in roots {
        closure.add_runtime_closure_of(*root, store).unwrap();
    }
    closure
}

#[test]
fn output_that_a_cache_has_is_found() {
    let mut store = store_of_a_and_b();
    assert!(store.merge_narinfo(StoreHash::from_path(A_OUT), record(&[], 100, 300)));
    let closure = closure_of(&store, &[StoreHash::from_path(A_OUT)]);
    let stats = closure.coverage_statistics(&store).unwrap();
    assert_eq!(stats.total, 1);
    assert_eq!(stats.found, 1);
    assert_eq!(stats.missing, Vec::<String>::new());
    assert_eq!(stats.file_size, 100);
    assert_eq!(stats.nar_size, 300);
}

#[test]
fn output_that_no_cache_has_is_missing_under_the_name_of_its_derivation() {
    let store = store_of_a_and_b();
    // the output alone, as a closure holds it that was made before its derivation was known
    let closure = closure_of(&StoreCache::new(), &[StoreHash::from_path(A_OUT)]);
    let stats = closure.coverage_statistics(&store).unwrap();
    assert_eq!(stats.total, 1);
    assert_eq!(stats.found, 0);
    assert_eq!(stats.missing, vec![String::from("A")]);
    assert_eq!(stats.file_size, 0);
    assert_eq!(stats.nar_size, 0);
}

#[test]
fn output_that_no_cache_has_needs_what_its_derivation_needs() {
    let store = store_of_a_and_b();
    let closure = closure_of(&store, &[StoreHash::from_path(A_OUT)]);
    // the output and its derivation, and the output of B with B
    assert_eq!(closure.len(), 4);
    let stats = closure.coverage_statistics(&store).unwrap();
    assert_eq!(stats.total, 4);
    assert_eq!(stats.found, 0);
    assert_eq!(stats.missing, vec![String::from("A"), String::from("B")]);
}

#[test]
fn output_that_derives_itself_is_a_fault() {
    // the output is recorded as made by the derivation of its own hash
    let own = "/nix/store/aaaaaaaaaaaaaaaaaaaaaaaaaaaaaaaa-A";
    let mut store = StoreCache::new();
    assert!(store.add_item(
        StoreHash::from_path(own),
        StoreItem::Output(String::from("A"), StoreHash::from_path(own))
    ));
    let closure = closure_of(&store, &[StoreHash::from_path(own)]);
    assert_eq!(closure.len(), 1);
    assert_eq!(closure.coverage_statistics(&store).err(), Some(Fault::SelfDerivingOutput));
    assert_eq!(standing_of(&store, StoreHash::from_path(own)).err(), Some(Fault::SelfDerivingOutput));
}

#[test]
fn missing_is_in_order_and_holds_each_name_once() {
    let mut store = StoreCache::new();
    let names = ["zlib", "bash", "hello", "bash", "Zlib", "bash-4.4", "a", ""];
    let mut roots = Vec::new();
    for (i, name) in names.iter().enumerate() {
        let drv = format!("/nix/store/{:032}-{}.drv", i, name);
        let out = format!("/nix/store/{:031}o-{}", i, name);
        store.discover_build_time_closure(StoreHash::from_path(&drv), &recipe(name, &out, &[], &[])).unwrap();
        assert_eq!(store.next_input(), None);
        roots.push(StoreHash::from_path(&out));
    }
    roots.push(StoreHash::from_name(Z));
    roots.push(StoreHash::from_name(X));
    let closure = closure_of(&store, &roots);
    let stats = closure.coverage_statistics(&store).unwrap();
    assert_eq!(stats.total, 18);
    assert_eq!(stats.found, 0);
    assert_eq!(stats.missing, vec![
        String::from(""),
        String::from("Zlib"),
        String::from("a"),
        String::from("bash"),
        String::from("bash-4.4"),
        String::from("hello"),
        String::from("xxxxxxxxxxxxxxxxxxxxxxxxxxxxxxxx"),
        String::from("zlib"),
        String::from("zzzzzzzzzzzzzzzzzzzzzzzzzzzzzzzz"),
    ]);
    let mut sorted = stats.missing.clone();
    sorted.sort();
    sorted.dedup();
    assert_eq!(stats.missing, sorted);
}

#[test]
fn names_are_ordered_by_their_bytes() {
    let mut store = StoreCache::new();
    let names = ["\u{e9}", "z", "e", "\u{1f600}", "~", "\u{7ff}"];
    let mut roots = Vec::new();
    for (i, name) in names.iter().enumerate() {
        let drv = format!("/nix/store/{:032}-x.drv", i);
        let out = format!("/nix/store/{:031}o-x", i);
        store.discover_build_time_closure(StoreHash::from_path(&drv), &recipe(name, &out, &[], &[])).unwrap();
        assert_eq!(store.next_input(), None);
        roots.push(StoreHash::from_path(&drv));
    }
    let stats = closure_of(&store, &roots).coverage_statistics(&store).unwrap();
    let mut sorted: Vec<String> = names.iter().map(|name| String::from(*name)).collect();
    sorted.sort();
    assert_eq!(stats.missing, sorted);
}

#[test]
fn sizes_add_up() {
    let mut store = StoreCache::new();
    store.merge_narinfo(StoreHash::from_name(X), record(&[Y, Z], 1, 10));
    store.merge_narinfo(StoreHash::from_name(Y), record(&[Z], 20, 200));
    store.merge_narinfo(StoreHash::from_name(Z), record(&[], 300, 3000));
    let stats = closure_of(&store, &[StoreHash::from_name(X)]).coverage_statistics(&store).unwrap();
    assert_eq!((stats.total, stats.found, stats.file_size, stats.nar_size), (3, 3, 321, 3210));
    assert!(stats.missing.is_empty());
}

#[test]
fn sizes_up_to_64_bits_are_held() {
    let mut store = StoreCache::new();
    store.merge_narinfo(StoreHash::from_name(X), record(&[Y], u64::MAX - 5, 0));
    store.merge_narinfo(StoreHash::from_name(Y), record(&[], 5, u64::MAX));
    let stats = closure_of(&store, &[StoreHash::from_name(X)]).coverage_statistics(&store).unwrap();
    assert_eq!((stats.file_size, stats.nar_size), (u64::MAX, u64::MAX));
}

#[test]
fn sizes_beyond_64_bits_are_a_fault() {
    let mut store = StoreCache::new();
    store.merge_narinfo(StoreHash::from_name(X), record(&[Y], u64::MAX - 5, 0));
    store.merge_narinfo(StoreHash::from_name(Y), record(&[], 6, 0));
    let closure = closure_of(&store, &[StoreHash::from_name(X)]);
    assert_eq!(closure.coverage_statistics(&store).err(), Some(Fault::SizeOverflow));
    let mut store = StoreCache::new();
    store.merge_narinfo(StoreHash::from_name(X), record(&[Y], 0, 1));
    store.merge_narinfo(StoreHash::from_name(Y), record(&[], 0, u64::MAX));
    let closure = closure_of(&store, &[StoreHash::from_name(X)]);
    assert_eq!(closure.coverage_statistics(&store).err(), Some(Fault::SizeOverflow));
}

#[test]
fn source_is_neither_found_nor_missing() {
    let store = store_of_a_and_b();
    let stats = closure_of(&store, &[StoreHash::from_path(SRC)]).coverage_statistics(&store).unwrap();
    assert_eq!((stats.total, stats.found), (1, 0));
    assert!(stats.missing.is_empty());
}

#[test]
fn unknown_hash_is_missing_under_its_text() {
    let store = store_of_a_and_b();
    let stats = closure_of(&store, &[StoreHash::from_name(X)]).coverage_statistics(&store).unwrap();
    assert_eq!((stats.total, stats.found), (1, 0));
    assert_eq!(stats.missing, vec![String::from("xxxxxxxxxxxxxxxxxxxxxxxxxxxxxxxx")]);
}

#[test]
fn unknown_hash_that_is_no_text_is_a_fault() {
    let store = StoreCache::new();
    let hash = StoreHash::from_name("rgmc4d3spji36n2l1sicm80yq79dpcc\u{e9}-x");
    let closure = closure_of(&store, &[hash]);
    assert_eq!(closure.coverage_statistics(&store).err(), Some(Fault::UnprintableHash));
}

#[test]
fn empty_closure_counts_nothing() {
    let store = store_of_a_and_b();
    let stats = Closure::empty().coverage_statistics(&store).unwrap();
    assert_eq!((stats.total, stats.found, stats.file_size, stats.nar_size), (0, 0, 0, 0));
    assert!(stats.missing.is_empty());
    let stats = CoverageStatistics::default();
    assert_eq!((stats.total, stats.found, stats.file_size, stats.nar_size), (0, 0, 0, 0));
    assert!(stats.missing.is_empty());
}

#[test]
fn item_stands_as_its_kind_says() {
    let mut store = store_of_a_and_b();
    assert!(matches!(standing_of(&store, StoreHash::from_path(A_DRV)), Ok(Standing::Missing(name)) if name == "A"));
    assert!(matches!(standing_of(&store, StoreHash::from_path(B_OUT)), Ok(Standing::Missing(name)) if name == "B"));
    assert!(matches!(standing_of(&store, StoreHash::from_path(SRC)), Ok(Standing::Satisfied)));
    assert!(matches!(standing_of(&store, StoreHash::from_name(X)), Ok(Standing::Missing(name)) if name == "xxxxxxxxxxxxxxxxxxxxxxxxxxxxxxxx"));
    store.merge_narinfo(StoreHash::from_path(B_OUT), record(&[], 7, 9));
    assert!(matches!(standing_of(&store, StoreHash::from_path(B_OUT)), Ok(Standing::Found(7, 9))));
}

#[test]
fn output_stands_as_the_derivation_behind_a_chain_of_outputs() {
    // an output of x, which is an output of y, which is an output of the derivation A
    let mut store = store_of_a_and_b();
    assert!(store.add_item(StoreHash::from_name(Y), StoreItem::Output(String::from("y"), StoreHash::from_path(A_OUT))));
    assert!(store.add_item(StoreHash::from_name(X), StoreItem::Output(String::from("x"), StoreHash::from_name(Y))));
    assert!(matches!(standing_of(&store, StoreHash::from_name(X)), Ok(Standing::Missing(name)) if name == "A"));
    let stats = closure_of(&store, &[StoreHash::from_name(X)]).coverage_statistics(&store).unwrap();
    assert_eq!((stats.total, stats.found), (6, 0));
    assert_eq!(stats.missing, vec![String::from("A"), String::from("B")]);
}

#[test]
fn outputs_that_derive_each_other_are_a_fault() {
    let mut store = StoreCache::new();
    assert!(store.add_item(StoreHash::from_name(X), StoreItem::Output(String::from("x"), StoreHash::from_name(Y))));
    assert!(store.add_item(StoreHash::from_name(Y), StoreItem::Output(String::from("y"), StoreHash::from_name(Z))));
    assert!(store.add_item(StoreHash::from_name(Z), StoreItem::Output(String::from("z"), StoreHash::from_name(X))));
    assert_eq!(standing_of(&store, StoreHash::from_name(X)).err(), Some(Fault::CyclicDerivers));
    let closure = closure_of(&store, &[StoreHash::from_name(Y)]);
    assert_eq!(closure.len(), 3);
    assert_eq!(closure.coverage_statistics(&store).err(), Some(Fault::CyclicDerivers));
    // a chain as long as the cache is large, and no circle, is none
    let mut store = StoreCache::new();
    assert!(store.add_item(StoreHash::from_name(X), StoreItem::Output(String::from("x"), StoreHash::from_name(Y))));
    assert!(store.add_item(StoreHash::from_name(Y), StoreItem::Output(String::from("y"), StoreHash::from_name(Z))));
    assert!(matches!(standing_of(&store, StoreHash::from_name(X)), Ok(Standing::Missing(name)) if name == "zzzzzzzzzzzzzzzzzzzzzzzzzzzzzzzz"));
}
