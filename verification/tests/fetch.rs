use nix_weather::fetch::{narinfo_url, read_response, Lookup, Outcome, Plan, Reply};
use nix_weather::narinfo::NarInfo;
use nix_weather::StoreHash;

const RECORD: &[u8] = b"StorePath: /nix/store/3x7dwzq014bblazs7kq20p9hyzz0qh8g-dejagnu-1.6.1
URL: nar/0dxn3k6yqd6x4cqs9yxj3lnzzx4j2vjq0nqx1ly7f1hslhhg1fa8.nar.xz
Compression: xz
FileHash: sha256:0dxn3k6yqd6x4cqs9yxj3lnzzx4j2vjq0nqx1ly7f1hslhhg1fa8
FileSize: 20971
NarHash: sha256:16nlhaq6yrl5x26b8ry1wx1zldd4b3avxcy3q4y4cv2cvkbai4zz
NarSize: 1252672
References: 
Sig: s
";

fn record() -> NarInfo {
    NarInfo::from(RECORD).unwrap().unwrap()
}

#[test]
fn body_404_is_read_as_status_404_is() {
    assert!(matches!(read_response(200, b"404"), Reply::Absent));
    assert!(matches!(read_response(404, b"404"), Reply::Absent));
    assert!(matches!(read_response(404, b""), Reply::Absent));
    assert!(matches!(read_response(404, b"<html>not found</html>"), Reply::Absent));
    // the record that comes with the status is not looked at
    assert!(matches!(read_response(404, RECORD), Reply::Absent));
}

#[test]
fn record_in_the_body_is_found() {
    match read_response(200, RECORD) {
        Reply::Found(info) => {
            assert_eq!(info.store_path, "/nix/store/3x7dwzq014bblazs7kq20p9hyzz0qh8g-dejagnu-1.6.1");
            assert_eq!(info.file_size, 20971);
        }
        other => panic!("{:?}", other),
    }
}

#[test]
fn body_that_is_no_record_is_a_failure() {
    assert!(matches!(read_response(200, b""), Reply::Failed));
    assert!(matches!(read_response(200, b"404 "), Reply::Failed));
    assert!(matches!(read_response(200, &RECORD[..40]), Reply::Failed));
    assert!(matches!(read_response(500, b"<html>internal server error</html>"), Reply::Failed));
    assert!(matches!(read_response(403, b"denied"), Reply::Failed));
}

#[test]
fn root_that_fails_is_asked_again_after_a_growing_wait() {
    let mut lookup = Lookup::new(2, 3);
    assert_eq!(lookup.plan(), Plan::Ask(0));
    assert!(matches!(lookup.react(Reply::Failed), Outcome::Wait(64)));
    assert_eq!(lookup.plan(), Plan::Ask(0));
    assert!(matches!(lookup.react(Reply::Failed), Outcome::Wait(128)));
    assert_eq!(lookup.plan(), Plan::Ask(0));
    assert!(matches!(lookup.react(Reply::Failed), Outcome::Wait(256)));
    // asked three times: the next root, and the wait starts again
    assert_eq!(lookup.plan(), Plan::Ask(1));
    assert!(matches!(lookup.react(Reply::Failed), Outcome::Wait(64)));
    assert_eq!(lookup.plan(), Plan::Ask(1));
    assert!(matches!(lookup.react(Reply::Failed), Outcome::Wait(128)));
    assert_eq!(lookup.plan(), Plan::Ask(1));
    assert!(matches!(lookup.react(Reply::Failed), Outcome::Wait(256)));
    assert_eq!(lookup.plan(), Plan::GiveUp);
    assert_eq!(lookup.plan(), Plan::GiveUp);
}

#[test]
fn root_without_the_item_is_left_at_once() {
    let mut lookup = Lookup::new(3, 1);
    assert_eq!(lookup.plan(), Plan::Ask(0));
    assert!(matches!(lookup.react(Reply::Absent), Outcome::GoOn));
    assert_eq!(lookup.plan(), Plan::Ask(1));
    assert!(matches!(lookup.react(Reply::Absent), Outcome::GoOn));
    assert_eq!(lookup.plan(), Plan::Ask(2));
    assert!(matches!(lookup.react(Reply::Absent), Outcome::GoOn));
    assert_eq!(lookup.plan(), Plan::GiveUp);
}

#[test]
fn absence_behind_failures_starts_the_next_root_afresh() {
    let mut lookup = Lookup::new(2, 5);
    assert!(matches!(lookup.react(Reply::Failed), Outcome::Wait(64)));
    assert!(matches!(lookup.react(Reply::Failed), Outcome::Wait(128)));
    assert!(matches!(lookup.react(Reply::Absent), Outcome::GoOn));
    assert_eq!(lookup.plan(), Plan::Ask(1));
    assert!(matches!(lookup.react(Reply::Failed), Outcome::Wait(64)));
    assert_eq!(lookup.plan(), Plan::Ask(1));
}

#[test]
fn record_found_ends_the_lookup() {
    let mut lookup = Lookup::new(2, 3);
    assert!(matches!(lookup.react(Reply::Failed), Outcome::Wait(64)));
    match lookup.react(Reply::Found(record())) {
        Outcome::Found(info) => assert_eq!(info.nar_size, 1252672),
        other => panic!("{:?}", other),
    }
}

#[test]
fn nothing_is_asked_without_roots_or_attempts() {
    assert_eq!(Lookup::new(0, 3).plan(), Plan::GiveUp);
    assert_eq!(Lookup::new(3, 0).plan(), Plan::GiveUp);
    let mut lookup = Lookup::new(3, 0);
    assert!(matches!(lookup.react(Reply::Failed), Outcome::GoOn));
    assert!(matches!(lookup.react(Reply::Absent), Outcome::GoOn));
    assert_eq!(lookup.plan(), Plan::GiveUp);
}

#[test]
fn wait_doubles_as_far_as_64_bits_hold_it() {
    let mut lookup = Lookup::new(1, 100);
    let mut waits = Vec::new();
    while lookup.plan() == Plan::Ask(0) {
        match lookup.react(Reply::Failed) {
            Outcome::Wait(wait) => waits.push(wait),
            other => panic!("{:?}", other),
        }
    }
    assert_eq!(waits.len(), 100);
    for (failures, wait) in waits.iter().enumerate() {
        let doubled = if failures < 58 { 64u64 << failures } else { u64::MAX };
        assert_eq!(*wait, doubled);
    }
    assert_eq!(waits[57], 1 << 63);
    assert_eq!(waits[58], u64::MAX);
}

#[test]
fn record_is_served_under_the_hash_of_the_item() {
    let hash = StoreHash::from_name("rgmc4d3spji36n2l1sicm80yq79dpcc2-hello-2.10");
    assert_eq!(
        narinfo_url("https://cache.nixos.org", &hash),
        Some(String::from("https://cache.nixos.org/rgmc4d3spji36n2l1sicm80yq79dpcc2.narinfo"))
    );
    assert_eq!(
        narinfo_url("https://cache.nixos.org/", &hash),
        Some(String::from("https://cache.nixos.org/rgmc4d3spji36n2l1sicm80yq79dpcc2.narinfo"))
    );
    assert_eq!(
        narinfo_url("http://example.org/cache/", &hash),
        Some(String::from("http://example.org/cache/rgmc4d3spji36n2l1sicm80yq79dpcc2.narinfo"))
    );
    // the name takes the place of what follows the last slash of the root
    assert_eq!(
        narinfo_url("http://example.org/cache", &hash),
        Some(String::from("http://example.org/rgmc4d3spji36n2l1sicm80yq79dpcc2.narinfo"))
    );
}

#[test]
fn root_that_is_no_address_gives_none() {
    let hash = StoreHash::from_name("rgmc4d3spji36n2l1sicm80yq79dpcc2-hello-2.10");
    assert_eq!(narinfo_url("", &hash), None);
    assert_eq!(narinfo_url("cache.nixos.org", &hash), None);
    assert_eq!(narinfo_url("mailto:cache@nixos.org", &hash), None);
}

#[test]
fn hash_that_is_no_text_gives_no_address() {
    let hash = StoreHash::from_name("rgmc4d3spji36n2l1sicm80yq79dpcc\u{e9}-x");
    assert_eq!(narinfo_url("https://cache.nixos.org", &hash), None);
}
