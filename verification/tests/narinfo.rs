use nix_weather::narinfo::{data, narinfo, read_number, size, MalformedMetadata, NarInfo};

const BLENDER_NARINFO: &[u8] = b"StorePath: /nix/store/hsqb0cd2b6v0r6prkf8ppqbgly7p7b1y-blender-2.79b
URL: nar/1q9ywfyx1gnrp1dyg4yv0dpkv1m4lszlh1fp7q2w5mgd6lq2rbq0.nar.xz
Compression: xz
FileHash: sha256:1q9ywfyx1gnrp1dyg4yv0dpkv1m4lszlh1fp7q2w5mgd6lq2rbq0
FileSize: 31274732
NarHash: sha256:0bl0zq3q9qxh54s1g141r2d4q1ax6f4ds0vrr8lk3x2sbmjvw7hm
NarSize: 133811480
References: 0v5kxkx0b8pbbxwq1qf3cwkm5b1r7v2h-python3-3.7.2 fwsx7cgmdw9r1wyhbq11v8cwjmn1a31l-boost-1.67_0 hsqb0cd2b6v0r6prkf8ppqbgly7p7b1y-blender-2.79b
Deriver: 2l6pgyxn8hsjs1ff9jhdmharq0wlyspa-blender-2.79b.drv
Sig: cache.nixos.org-1:8dWe5bXJ8Q5T0w4YHm9vFmG5q4B0okBCFgHcj9PS6n2PQl0Cq8l1yPvKXw0nq0w0M7qVtU4B9x0cZ1l9b5h8Dg==
";

const DEJAGNU_NARINFO: &[u8] = b"StorePath: /nix/store/3x7dwzq014bblazs7kq20p9hyzz0qh8g-dejagnu-1.6.1
URL: nar/0dxn3k6yqd6x4cqs9yxj3lnzzx4j2vjq0nqx1ly7f1hslhhg1fa8.nar.xz
Compression: xz
FileHash: sha256:0dxn3k6yqd6x4cqs9yxj3lnzzx4j2vjq0nqx1ly7f1hslhhg1fa8
FileSize: 20971
NarHash: sha256:16nlhaq6yrl5x26b8ry1wx1zldd4b3avxcy3q4y4cv2cvkbai4zz
NarSize: 1252672
References: 
Sig: cache.nixos.org-1:Hq8dgjtvX4yFs7Sy3y0LJ5sJ4RnGUmS0a4z8r9WZ8wq8m3i7t6w5m0y8m8k3yq0f2b1c4s7n9k2j5h8d1a6gAw==
";

#[test]
fn parse_empty_data() {
    assert!(data(b"\n").is_ok());
    assert_eq!(data(b"  foo\n"), Ok((&b""[..], &b"  foo"[..])));
}

#[test]
fn parse_size() {
    assert_eq!(size(b"20971\n"), Ok((&b""[..], 20971)));
}

#[test]
fn parse_narinfo() {
    let info = narinfo(BLENDER_NARINFO);
    println!("{:?}", info);
    assert!(info.is_ok());

    let info = narinfo(DEJAGNU_NARINFO);
    println!("{:?}", info);
    assert!(info.is_ok());
}

#[test]
fn record_holds_every_field() {
    let (rest, info) = narinfo(BLENDER_NARINFO).unwrap();
    assert_eq!(rest, b"");
    assert_eq!(info.store_path, "/nix/store/hsqb0cd2b6v0r6prkf8ppqbgly7p7b1y-blender-2.79b");
    assert_eq!(info.url, "nar/1q9ywfyx1gnrp1dyg4yv0dpkv1m4lszlh1fp7q2w5mgd6lq2rbq0.nar.xz");
    assert_eq!(info.compression, "xz");
    assert_eq!(info.file_hash, "sha256:1q9ywfyx1gnrp1dyg4yv0dpkv1m4lszlh1fp7q2w5mgd6lq2rbq0");
    assert_eq!(info.file_size, 31274732);
    assert_eq!(info.nar_hash, "sha256:0bl0zq3q9qxh54s1g141r2d4q1ax6f4ds0vrr8lk3x2sbmjvw7hm");
    assert_eq!(info.nar_size, 133811480);
    assert_eq!(info.references, vec![
        String::from("0v5kxkx0b8pbbxwq1qf3cwkm5b1r7v2h-python3-3.7.2"),
        String::from("fwsx7cgmdw9r1wyhbq11v8cwjmn1a31l-boost-1.67_0"),
        String::from("hsqb0cd2b6v0r6prkf8ppqbgly7p7b1y-blender-2.79b"),
    ]);
    assert_eq!(info.deriver, Some(String::from("2l6pgyxn8hsjs1ff9jhdmharq0wlyspa-blender-2.79b.drv")));
    assert_eq!(info.sig, "cache.nixos.org-1:8dWe5bXJ8Q5T0w4YHm9vFmG5q4B0okBCFgHcj9PS6n2PQl0Cq8l1yPvKXw0nq0w0M7qVtU4B9x0cZ1l9b5h8Dg==");
}

#[test]
fn deriver_may_be_left_out() {
    let (_, info) = narinfo(DEJAGNU_NARINFO).unwrap();
    assert_eq!(info.deriver, None);
    assert_eq!(info.references, Vec::<String>::new());
    assert_eq!(info.file_size, 20971);
    assert_eq!(info.sig, "cache.nixos.org-1:Hq8dgjtvX4yFs7Sy3y0LJ5sJ4RnGUmS0a4z8r9WZ8wq8m3i7t6w5m0y8m8k3yq0f2b1c4s7n9k2j5h8d1a6gAw==");
}

#[test]
fn value_ends_with_its_line() {
    assert_eq!(data(b"foo\nbar\n"), Ok((&b"bar\n"[..], &b"foo"[..])));
    assert_eq!(data(b"\nbar\n"), Ok((&b"bar\n"[..], &b"\n"[..])));
    assert_eq!(data(b"foo"), Err(MalformedMetadata));
    assert_eq!(data(b""), Err(MalformedMetadata));
}

#[test]
fn number_is_decimal_and_fits_64_bits() {
    assert_eq!(read_number(b"0"), Some(0));
    assert_eq!(read_number(b"007"), Some(7));
    assert_eq!(read_number(b"+42"), Some(42));
    assert_eq!(read_number(b"18446744073709551615"), Some(u64::MAX));
    assert_eq!(read_number(b"18446744073709551616"), None);
    assert_eq!(read_number(b"99999999999999999999999"), None);
    assert_eq!(read_number(b""), None);
    assert_eq!(read_number(b"+"), None);
    assert_eq!(read_number(b"-1"), None);
    assert_eq!(read_number(b"++1"), None);
    assert_eq!(read_number(b"1+"), None);
    assert_eq!(read_number(b" 1"), None);
    assert_eq!(read_number(b"1 "), None);
    assert_eq!(read_number(b"12a"), None);
    assert_eq!(read_number(b"0x10"), None);
    assert_eq!(read_number(b"\n"), None);
    assert_eq!(size(b"\n"), Err(MalformedMetadata));
    assert_eq!(size(b"12"), Err(MalformedMetadata));
    assert_eq!(size(b"12\n34\n"), Ok((&b"34\n"[..], 12)));
}

#[test]
fn number_agrees_with_the_standard_library() {
    let texts: [&str; 12] = ["0", "1", "+1", "-0", "+", "", "00018", "18446744073709551615",
        "18446744073709551616", "1844674407370955161500", "12 ", "٣"];
    for text in texts {
        assert_eq!(read_number(text.as_bytes()), text.parse::<u64>().ok());
    }
}

#[test]
fn body_404_is_no_record() {
    assert!(matches!(NarInfo::from(b"404"), Ok(None)));
}

#[test]
fn body_is_decoded() {
    let info = NarInfo::from(BLENDER_NARINFO).unwrap().unwrap();
    assert_eq!(info.nar_size, 133811480);
    // what follows the record is not looked at
    let mut longer = DEJAGNU_NARINFO.to_vec();
    longer.extend_from_slice(b"CA: fixed:sha256:xyz\n");
    let info = NarInfo::from(&longer).unwrap().unwrap();
    assert_eq!(info.store_path, "/nix/store/3x7dwzq014bblazs7kq20p9hyzz0qh8g-dejagnu-1.6.1");
}

#[test]
fn malformed_body_is_an_error() {
    assert!(matches!(NarInfo::from(b""), Err(MalformedMetadata)));
    assert!(matches!(NarInfo::from(b"404\n"), Err(MalformedMetadata)));
    assert!(matches!(NarInfo::from(b"4040"), Err(MalformedMetadata)));
    assert!(matches!(NarInfo::from(b"40"), Err(MalformedMetadata)));
    assert!(matches!(NarInfo::from(b"<html>not found</html>"), Err(MalformedMetadata)));
    assert!(matches!(NarInfo::from(&BLENDER_NARINFO[..BLENDER_NARINFO.len() - 1]), Err(MalformedMetadata)));
    // lines in another order
    assert!(matches!(NarInfo::from(b"URL: nar/x.nar.xz\nStorePath: /nix/store/hsqb0cd2b6v0r6prkf8ppqbgly7p7b1y-blender-2.79b\nCompression: xz\nFileHash: h\nFileSize: 1\nNarHash: h\nNarSize: 2\nReferences: \nSig: s\n"), Err(MalformedMetadata)));
    // a size that is no number
    assert!(matches!(NarInfo::from(b"StorePath: p\nURL: u\nCompression: xz\nFileHash: h\nFileSize: many\nNarHash: h\nNarSize: 2\nReferences: \nSig: s\n"), Err(MalformedMetadata)));
    // a key without the blank behind its colon
    assert!(matches!(NarInfo::from(b"StorePath:p\nURL: u\nCompression: xz\nFileHash: h\nFileSize: 1\nNarHash: h\nNarSize: 2\nReferences: \nSig: s\n"), Err(MalformedMetadata)));
    // no Sig line
    assert!(matches!(NarInfo::from(b"StorePath: p\nURL: u\nCompression: xz\nFileHash: h\nFileSize: 1\nNarHash: h\nNarSize: 2\nReferences: \nDeriver: d\n"), Err(MalformedMetadata)));
}

#[test]
fn empty_value_is_its_line_feed() {
    let info = NarInfo::from(b"StorePath: p\nURL: \nCompression: xz\nFileHash: h\nFileSize: 1\nNarHash: h\nNarSize: 2\nReferences: \nSig: s\n").unwrap().unwrap();
    assert_eq!(info.url, "\n");
    assert_eq!(info.references, Vec::<String>::new());
}

#[test]
fn references_are_split_at_white_space() {
    let info = NarInfo::from("StorePath: p\nURL: u\nCompression: xz\nFileHash: h\nFileSize: 1\nNarHash: h\nNarSize: 2\nReferences:   a  b\tc\u{a0}d \nSig: s\n".as_bytes()).unwrap().unwrap();
    assert_eq!(info.references, vec![String::from("a"), String::from("b"), String::from("c"), String::from("d")]);
}

#[test]
fn value_that_is_no_text_is_replaced() {
    let info = NarInfo::from(b"StorePath: p\xff\nURL: u\nCompression: xz\nFileHash: h\nFileSize: 1\nNarHash: h\nNarSize: 2\nReferences: \nSig: s\n").unwrap().unwrap();
    assert_eq!(info.store_path, "p\u{fffd}");
}

#[test]
fn copy_of_a_record_holds_the_same() {
    let info = NarInfo::from(BLENDER_NARINFO).unwrap().unwrap();
    let copy = info.clone();
    assert_eq!(copy.store_path, info.store_path);
    assert_eq!(copy.references, info.references);
    assert_eq!(copy.deriver, info.deriver);
    assert_eq!(copy.file_size, info.file_size);
    assert_eq!(copy.nar_size, info.nar_size);
    assert_eq!(copy.sig, info.sig);
}
