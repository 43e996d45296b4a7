use nix_weather::derivation::{Drv, DrvOutput, InputDrv};
use nix_weather::narinfo::NarInfo;
use nix_weather::runtime::{runtime_references, Fault};
use nix_weather::{Closure, StoreCache, StoreHash};

const A_DRV: &str = "/nix/store/aaaaaaaaaaaaaaaaaaaaaaaaaaaaaaaa-A.drv";
const A_OUT: &str = "/nix/store/oooooooooooooooooooooooooooooooa-A";
const B_DRV: &str = "/nix/store/bbbbbbbbbbbbbbbbbbbbbbbbbbbbbbbb-B.drv";
const B_OUT: &str = "/nix/store/ooooooooooooooooooooooooooooooob-B";
const B_DEV: &str = "/nix/store/ooooooooooooooooooooooooooooodev-B-dev";
const SRC: &str = "/nix/store/ssssssssssssssssssssssssssssssss-builder.sh";
const X: &str = "xxxxxxxxxxxxxxxxxxxxxxxxxxxxxxxx-x";
const Y: &str = "yyyyyyyyyyyyyyyyyyyyyyyyyyyyyyyy-y";
const Z: &str = "zzzzzzzzzzzzzzzzzzzzzzzzzzzzzzzz-z";

fn output(key: &str, path: &str) -> DrvOutput {
    DrvOutput { key: String::from(key), path: String::from(path), hash_algo: String::new(), hash: String::new() }
}

fn recipe(name: &str, outputs: Vec<DrvOutput>, inputs: Vec<InputDrv>, sources: &[&str]) -> Drv {
    Drv {
        outputs,
        input_drvs: inputs,
        input_srcs: sources.iter().map(|path| String::from(*path)).collect(),
        platform: String::from("x86_64-linux"),
        builder: String::from("/bin/sh"),
        builder_args: Vec::new(),
        env: vec![(String::from("name"), String::from(name))],
    }
}

fn input(path: &str, keys: &[&str]) -> InputDrv {
    InputDrv { path: String::from(path), outputs: keys.iter().map(|key| String::from(*key)).collect() }
}

fn record(references: &[&str]) -> NarInfo {
    NarInfo {
        store_path: String::from("p"),
        url: String::from("nar/x.nar.xz"),
        compression: String::from("xz"),
        file_hash: String::from("sha256:f"),
        file_size: 1,
        nar_hash: String::from("sha256:n"),
        nar_size: 2,
        references: references.iter().map(|name| String::from(*name)).collect(),
        deriver: None,
        sig: String::from("s"),
    }
}

fn a() -> Drv {
    recipe("A", vec![output("out", A_OUT)], vec![input(B_DRV, &["out", "doc", "dev"])], &[SRC])
}

fn b() -> Drv {
    recipe("B", vec![output("out", B_OUT), output("dev", B_DEV)], Vec::new(), &[])
}

fn store_of_a_and_b() -> StoreCache {
    let mut store = StoreCache::new();
    store.discover_build_time_closure(StoreHash::from_path(A_DRV), &a()).unwrap();
    assert_eq!(store.next_input(), Some(String::from(B_DRV)));
    store.supply_input(&b()).unwrap();
    assert_eq!(store.next_input(), None);
    store
}

fn names(closure: &Closure) -> Vec<String> {
    closure.entries().iter().map(|hash| String::from(hash.to_str())).collect()
}

#[test]
fn empty_closure_holds_nothing() {
    let closure = Closure::empty();
    assert_eq!(closure.len(), 0);
    assert!(closure.entries().is_empty());
    assert!(!closure.contains(&StoreHash::from_name(X)));
}

#[test]
fn unknown_hash_is_a_leaf() {
    let store = StoreCache::new();
    let mut closure = Closure::empty();
    assert_eq!(closure.add_runtime_closure_of(StoreHash::from_name(X), &store), Ok(()));
    assert_eq!(names(&closure), vec![String::from("xxxxxxxxxxxxxxxxxxxxxxxxxxxxxxxx")]);
    assert!(closure.contains(&StoreHash::from_name(X)));
}

#[test]
fn source_is_a_leaf() {
    let store = store_of_a_and_b();
    let mut closure = Closure::empty();
    assert_eq!(closure.add_runtime_closure_of(StoreHash::from_path(SRC), &store), Ok(()));
    assert_eq!(names(&closure), vec![String::from("ssssssssssssssssssssssssssssssss")]);
}

#[test]
fn record_leads_to_what_it_refers_to() {
    let mut store = StoreCache::new();
    store.merge_narinfo(StoreHash::from_name(X), record(&[Y, Z, X]));
    store.merge_narinfo(StoreHash::from_name(Y), record(&[Z]));
    store.merge_narinfo(StoreHash::from_name(Z), record(&[X, Y]));
    let mut closure = Closure::empty();
    assert_eq!(closure.add_runtime_closure_of(StoreHash::from_name(X), &store), Ok(()));
    assert_eq!(names(&closure), vec![
        String::from("xxxxxxxxxxxxxxxxxxxxxxxxxxxxxxxx"),
        String::from("yyyyyyyyyyyyyyyyyyyyyyyyyyyyyyyy"),
        String::from("zzzzzzzzzzzzzzzzzzzzzzzzzzzzzzzz"),
    ]);
}

#[test]
fn output_without_record_leads_to_its_derivation_and_on() {
    let store = store_of_a_and_b();
    let mut closure = Closure::empty();
    assert_eq!(closure.add_runtime_closure_of(StoreHash::from_path(A_OUT), &store), Ok(()));
    // the output, its derivation, the outputs asked of B in order, each with B behind it
    assert_eq!(names(&closure), vec![
        String::from("oooooooooooooooooooooooooooooooa"),
        String::from("aaaaaaaaaaaaaaaaaaaaaaaaaaaaaaaa"),
        String::from("ooooooooooooooooooooooooooooooob"),
        String::from("bbbbbbbbbbbbbbbbbbbbbbbbbbbbbbbb"),
        String::from("ooooooooooooooooooooooooooooodev"),
    ]);
}

#[test]
fn walk_turns_back_where_the_closure_has_been() {
    let store = store_of_a_and_b();
    let mut closure = Closure::empty();
    closure.add_runtime_closure_of(StoreHash::from_path(B_DRV), &store).unwrap();
    assert_eq!(names(&closure), vec![String::from("bbbbbbbbbbbbbbbbbbbbbbbbbbbbbbbb")]);
    closure.add_runtime_closure_of(StoreHash::from_path(B_DRV), &store).unwrap();
    assert_eq!(closure.len(), 1);
    closure.add_runtime_closure_of(StoreHash::from_path(A_DRV), &store).unwrap();
    assert_eq!(names(&closure), vec![
        String::from("bbbbbbbbbbbbbbbbbbbbbbbbbbbbbbbb"),
        String::from("aaaaaaaaaaaaaaaaaaaaaaaaaaaaaaaa"),
        String::from("ooooooooooooooooooooooooooooooob"),
        String::from("ooooooooooooooooooooooooooooodev"),
    ]);
}

#[test]
fn input_derivation_out_of_the_cache_is_a_fault() {
    let mut store = StoreCache::new();
    store.discover_build_time_closure(StoreHash::from_path(A_DRV), &a()).unwrap();
    let mut closure = Closure::empty();
    assert_eq!(closure.add_runtime_closure_of(StoreHash::from_path(A_OUT), &store), Err(Fault::MissingInputDrv));
    assert_eq!(a().input_drvs[0].resolve(&store), Err(Fault::MissingInputDrv));
    // a hash that has another item is no better
    store.merge_narinfo(StoreHash::from_path(B_DRV), record(&[]));
    assert_eq!(a().input_drvs[0].resolve(&store), Err(Fault::MissingInputDrv));
    // the fault is out of reach of the source
    let mut closure = Closure::empty();
    assert_eq!(closure.add_runtime_closure_of(StoreHash::from_path(SRC), &store), Ok(()));
}

#[test]
fn reference_without_a_hash_is_a_fault() {
    let mut store = StoreCache::new();
    store.merge_narinfo(StoreHash::from_name(X), record(&[Y, "short"]));
    let mut closure = Closure::empty();
    assert_eq!(closure.add_runtime_closure_of(StoreHash::from_name(X), &store), Err(Fault::InvalidStoreName));
    assert_eq!(runtime_references(&store, &StoreHash::from_name(X)), Err(Fault::InvalidStoreName));
}

#[test]
fn input_resolves_to_the_outputs_asked_for() {
    let store = store_of_a_and_b();
    assert_eq!(a().input_drvs[0].resolve(&store), Ok(vec![String::from(B_OUT), String::from(B_DEV)]));
    assert_eq!(input(B_DRV, &[]).resolve(&store), Ok(Vec::new()));
    assert_eq!(input(B_DRV, &["dev", "dev"]).resolve(&store), Ok(vec![String::from(B_DEV), String::from(B_DEV)]));
    assert_eq!(input("/tmp/b.drv", &["out"]).resolve(&store), Err(Fault::InvalidStoreName));
    assert_eq!(input(B_OUT, &["out"]).resolve(&store), Err(Fault::MissingInputDrv));
}

#[test]
fn item_needs_what_its_kind_says() {
    let mut store = store_of_a_and_b();
    let hashes = |paths: &[&str]| -> Vec<StoreHash> { paths.iter().map(|path| StoreHash::from_path(path)).collect() };
    assert_eq!(runtime_references(&store, &StoreHash::from_path(A_DRV)), Ok(hashes(&[B_OUT, B_DEV])));
    assert_eq!(runtime_references(&store, &StoreHash::from_path(B_DRV)), Ok(Vec::new()));
    assert_eq!(runtime_references(&store, &StoreHash::from_path(A_OUT)), Ok(hashes(&[A_DRV])));
    assert_eq!(runtime_references(&store, &StoreHash::from_path(SRC)), Ok(Vec::new()));
    assert_eq!(runtime_references(&store, &StoreHash::from_name(X)), Ok(Vec::new()));
    store.merge_narinfo(StoreHash::from_path(A_OUT), record(&[Y, X]));
    assert_eq!(runtime_references(&store, &StoreHash::from_path(A_OUT)), Ok(vec![StoreHash::from_name(Y), StoreHash::from_name(X)]));
}
