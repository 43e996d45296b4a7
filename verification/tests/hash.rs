use nix_weather::StoreHash;

const HELLO: &str = "rgmc4d3spji36n2l1sicm80yq79dpcc2-hello-2.10";
const HELLO_PATH: &str = "/nix/store/rgmc4d3spji36n2l1sicm80yq79dpcc2-hello-2.10";

#[test]
fn hash_is_the_first_32_bytes_of_the_name() {
    let hash = StoreHash::from_name(HELLO);
    assert_eq!(hash.to_str(), "rgmc4d3spji36n2l1sicm80yq79dpcc2");
    assert_eq!(hash.as_bytes(), &HELLO.as_bytes()[..32]);
}

#[test]
fn hash_of_a_name_of_exactly_32_bytes() {
    let hash = StoreHash::from_name("rgmc4d3spji36n2l1sicm80yq79dpcc2");
    assert_eq!(hash.to_str(), "rgmc4d3spji36n2l1sicm80yq79dpcc2");
}

#[test]
fn hash_of_a_path_is_that_of_its_last_component() {
    assert_eq!(StoreHash::from_path(HELLO_PATH), StoreHash::from_name(HELLO));
    assert_eq!(StoreHash::from_path(HELLO), StoreHash::from_name(HELLO));
    assert_eq!(
        StoreHash::from_path("rgmc4d3spji36n2l1sicm80yq79dpcc2-a/cif7s5k57iwcxwgcv01myyiypw1skz99-b"),
        StoreHash::from_name("cif7s5k57iwcxwgcv01myyiypw1skz99")
    );
}

#[test]
fn equal_hashes_have_equal_bytes() {
    let a = StoreHash::from_name("rgmc4d3spji36n2l1sicm80yq79dpcc2-hello-2.10");
    let b = StoreHash::from_name("rgmc4d3spji36n2l1sicm80yq79dpcc2-other");
    let c = StoreHash::from_name("rgmc4d3spji36n2l1sicm80yq79dpcc3-hello-2.10");
    assert_eq!(a, b);
    assert_ne!(a, c);
}

#[test]
fn split_cuts_hash_and_label() {
    let (hash, label) = StoreHash::split(HELLO);
    assert_eq!(hash.to_str(), "rgmc4d3spji36n2l1sicm80yq79dpcc2");
    assert_eq!(label, "hello-2.10");
}

#[test]
fn split_drops_one_character_whatever_it_is() {
    let (hash, label) = StoreHash::split("rgmc4d3spji36n2l1sicm80yq79dpcc2_");
    assert_eq!(hash.to_str(), "rgmc4d3spji36n2l1sicm80yq79dpcc2");
    assert_eq!(label, "");
}

#[test]
fn split_path_cuts_the_last_component() {
    let (hash, label) = StoreHash::split_path(HELLO_PATH);
    assert_eq!(hash, StoreHash::from_name(HELLO));
    assert_eq!(label, String::from("hello-2.10"));
}

#[test]
fn names_too_short_are_told_apart() {
    assert!(StoreHash::is_name(HELLO));
    assert!(StoreHash::is_name("rgmc4d3spji36n2l1sicm80yq79dpcc2"));
    assert!(!StoreHash::is_name("rgmc4d3spji36n2l1sicm80yq79dpcc"));
    assert!(!StoreHash::is_name(""));
    assert!(StoreHash::is_path(HELLO_PATH));
    assert!(!StoreHash::is_path("/nix/store/hello"));
    assert!(StoreHash::is_path("/nix/store/rgmc4d3spji36n2l1sicm80yq79dpcc2-hello-2.10/"));
    assert!(!StoreHash::is_path("/"));
    assert!(!StoreHash::is_path(""));
    assert!(!StoreHash::is_path("///"));
    assert!(!StoreHash::is_path("rgmc4d3spji36n2l1sicm80yq79dpcc2-hello-2.10/bin"));
}

#[test]
fn names_that_cannot_be_cut_are_told_apart() {
    assert!(StoreHash::is_labelled_name(HELLO));
    assert!(StoreHash::is_labelled_name("rgmc4d3spji36n2l1sicm80yq79dpcc2-"));
    assert!(!StoreHash::is_labelled_name("rgmc4d3spji36n2l1sicm80yq79dpcc2"));
    // a character of two bytes lies across byte 32
    assert!(!StoreHash::is_labelled_name("rgmc4d3spji36n2l1sicm80yq79dpcc\u{e9}-x"));
    // a character of two bytes follows the hash
    assert!(!StoreHash::is_labelled_name("rgmc4d3spji36n2l1sicm80yq79dpcc2\u{e9}x"));
    assert!(StoreHash::is_labelled_path(HELLO_PATH));
    assert!(!StoreHash::is_labelled_path("/nix/store/rgmc4d3spji36n2l1sicm80yq79dpcc2"));
}

#[test]
fn hash_that_is_no_text_has_no_text() {
    // the first byte of a character of two bytes is the last byte of the hash
    let hash = StoreHash::from_name("rgmc4d3spji36n2l1sicm80yq79dpcc\u{e9}-x");
    assert_eq!(hash.as_text(), None);
    let hash = StoreHash::from_name(HELLO);
    assert_eq!(hash.as_text(), Some("rgmc4d3spji36n2l1sicm80yq79dpcc2"));
}

#[test]
fn last_component_is_what_the_standard_library_takes_for_the_file_name() {
    let paths = [
        HELLO_PATH,
        HELLO,
        "/nix/store/cif7s5k57iwcxwgcv01myyiypw1skz99-stdenv-linux.drv",
        "relative/rgmc4d3spji36n2l1sicm80yq79dpcc2-hello-2.10",
        "/nix/store/9krlzvny65gdc8s7kpb6lkx8cd02c25b-default-builder.sh",
        "//nix//store//rgmc4d3spji36n2l1sicm80yq79dpcc2-hello-2.10",
        "/nix/store/rgmc4d3spji36n2l1sicm80yq79dpcc2-hello-2.10/",
        "/nix/store/rgmc4d3spji36n2l1sicm80yq79dpcc2-hello-2.10///",
        "rgmc4d3spji36n2l1sicm80yq79dpcc2-hello-2.10/",
        "/nix/store/rgmc4d3spji36n2l1sicm80yq79dpcc2-/",
        "/nix/store/rgmc4d3spji36n2l1sicm80yq79dpcc2-gr\u{fc}n-1.0",
    ];
    for path in paths {
        let name = std::path::Path::new(path).file_name().unwrap().to_str().unwrap();
        assert!(StoreHash::is_labelled_path(path));
        assert_eq!(StoreHash::from_path(path), StoreHash::from_name(name));
        let (hash, label) = StoreHash::split_path(path);
        let (expected_hash, expected_label) = StoreHash::split(name);
        assert_eq!(hash, expected_hash);
        assert_eq!(label, expected_label);
    }
}

#[test]
fn separators_at_the_end_of_a_path_are_passed_over() {
    let plain = StoreHash::split_path(HELLO_PATH);
    for path in [
        "/nix/store/rgmc4d3spji36n2l1sicm80yq79dpcc2-hello-2.10/",
        "/nix/store/rgmc4d3spji36n2l1sicm80yq79dpcc2-hello-2.10//",
    ] {
        assert!(StoreHash::is_labelled_path(path));
        assert_eq!(StoreHash::from_path(path), plain.0);
        assert_eq!(StoreHash::split_path(path), plain);
    }
    // what stands before the last separator within the path does not count
    assert!(!StoreHash::is_path("/nix/store/rgmc4d3spji36n2l1sicm80yq79dpcc2-hello-2.10/bin/"));
}
