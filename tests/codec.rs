use rspack_storage::bucket::{choose_bucket, get_hash, get_name, hex_name};
use rspack_storage::codec::{decode_pack_contents, decode_pack_keys, encode_pack};
use rspack_storage::decimal::parse_dec;
use rspack_storage::merge::merge_entries;
use rspack_storage::meta::{decode_meta, encode_meta, Meta, PackFileMeta};
use rspack_storage::split::split_entries;

fn bytes(s: &str) -> Vec<u8> {
    s.as_bytes().to_vec()
}

#[test]
fn pack_round_trip_keeps_pairs_in_order() {
    let keys = vec![bytes("alpha"), bytes(""), bytes("gamma key")];
    let contents = vec![bytes("1"), bytes("two two"), bytes("")];
    let encoded = encode_pack(&keys, &contents);
    assert_eq!(decode_pack_keys(&encoded), Some(keys));
    assert_eq!(decode_pack_contents(&encoded), Some(contents));
}

#[test]
fn pack_encoding_is_framed_as_documented() {
    let keys = vec![bytes("ab"), bytes("c")];
    let contents = vec![bytes("xyz"), bytes("0123456789")];
    let encoded = encode_pack(&keys, &contents);
    assert_eq!(encoded, bytes("2 1\n3 10\nabcxyz0123456789"));
}

#[test]
fn empty_pack_round_trips() {
    let encoded = encode_pack(&vec![], &vec![]);
    assert_eq!(encoded, bytes("\n\n"));
    assert_eq!(decode_pack_keys(&encoded), Some(vec![]));
    assert_eq!(decode_pack_contents(&encoded), Some(vec![]));
}

#[test]
fn malformed_packs_are_refused() {
    assert_eq!(decode_pack_keys(&bytes("3\n1\nab")), None);
    assert_eq!(decode_pack_keys(&bytes("x\n1\nabc")), None);
    assert_eq!(decode_pack_keys(&bytes("01\n1\na")), None);
    assert_eq!(decode_pack_keys(&bytes("1  2\n\nabc")), None);
    assert_eq!(decode_pack_keys(&bytes("1")), None);
    assert_eq!(decode_pack_contents(&bytes("1\n5\nkab")), None);
    assert_eq!(decode_pack_contents(&bytes("4\n1\nkey")), None);
}

#[test]
fn keys_are_read_without_values() {
    // the second line is not read when only the keys are asked for
    assert_eq!(decode_pack_keys(&bytes("2\nzz\nab")), Some(vec![bytes("ab")]));
    // bytes after the values are left alone
    assert_eq!(decode_pack_contents(&bytes("1\n2\nkvvtrailing")), Some(vec![bytes("vv")]));
}

#[test]
fn decimal_numbers_are_canonical() {
    assert_eq!(parse_dec(b"123 4", 0, 5), Some((123, 3)));
    assert_eq!(parse_dec(b"0", 0, 1), Some((0, 1)));
    assert_eq!(parse_dec(b"007", 0, 3), None);
    assert_eq!(parse_dec(b"a1", 0, 2), None);
    assert_eq!(parse_dec(b"99999999999999999999999", 0, 23), None);
}

#[test]
fn bucket_is_byte_sum_modulo_count() {
    assert_eq!(choose_bucket(b"abc", &4), 294 % 4);
    assert_eq!(choose_bucket(b"", &3), 0);
    assert_eq!(choose_bucket(&[255, 255, 255], &7), 765 % 7);
    assert_eq!(choose_bucket(b"k7", &1), 0);
}

#[test]
fn pack_names_follow_keys_only() {
    let keys = vec![bytes("a"), bytes("b")];
    let n1 = get_name(&keys, &vec![bytes("1"), bytes("2")]);
    let n2 = get_name(&keys, &vec![bytes("other"), bytes("values")]);
    assert_eq!(n1, n2);
    assert_eq!(n1.len(), 16);
    assert!(n1.iter().all(|c| c.is_ascii_digit() || (b'a'..=b'f').contains(c)));
    let n3 = get_name(&vec![bytes("b"), bytes("a")], &vec![]);
    assert_ne!(n1, n3);
    let h = get_hash(&vec![bytes("1"), bytes("2")]);
    assert_eq!(h.len(), 16);
}

#[test]
fn hex_names_are_zero_padded() {
    assert_eq!(hex_name(0), bytes("0000000000000000"));
    assert_eq!(hex_name(0xabc), bytes("0000000000000abc"));
    assert_eq!(hex_name(u64::MAX), bytes("ffffffffffffffff"));
}

#[test]
fn meta_round_trips() {
    let meta = Meta {
        bucket_size: 2,
        pack_size: 1024,
        timestamp: 1700000000000,
        packs: vec![
            vec![
                PackFileMeta { name: bytes("aaaa"), hash: bytes("bbbb"), size: 12 },
                PackFileMeta { name: bytes("cccc"), hash: bytes("dddd"), size: 0 },
            ],
            vec![],
        ],
    };
    let encoded = encode_meta(&meta);
    assert_eq!(encoded, bytes("2 1024 1700000000000\naaaa,bbbb,12 cccc,dddd,0\n\n"));
    let decoded = decode_meta(&encoded).expect("meta should decode");
    assert_eq!(decoded.bucket_size, 2);
    assert_eq!(decoded.pack_size, 1024);
    assert_eq!(decoded.timestamp, 1700000000000);
    assert_eq!(decoded.packs.len(), 2);
    assert_eq!(decoded.packs[0][1].name, bytes("cccc"));
    assert_eq!(decoded.packs[0][0].size, 12);
    assert!(decode_meta(&bytes("2 1024\n\n\n")).is_none());
    assert!(decode_meta(&bytes("1 2 3\nname,hash\n")).is_none());
}

#[test]
fn merge_applies_last_write_and_removals() {
    let entries = vec![(bytes("a"), bytes("1")), (bytes("b"), bytes("2")), (bytes("c"), bytes("3"))];
    let updates = vec![
        (bytes("b"), None),
        (bytes("c"), Some(bytes("33"))),
        (bytes("d"), Some(bytes("4"))),
        (bytes("e"), None),
    ];
    let merged = merge_entries(&entries, &updates);
    assert_eq!(
        merged,
        vec![(bytes("a"), bytes("1")), (bytes("c"), bytes("33")), (bytes("d"), bytes("4"))]
    );
}

#[test]
fn split_keeps_packs_under_size_unless_single() {
    let entries: Vec<(Vec<u8>, Vec<u8>)> = (0..10)
        .map(|i| (format!("k{}", i).into_bytes(), vec![b'v'; 8]))
        .chain(std::iter::once((bytes("huge"), vec![b'x'; 100])))
        .chain(std::iter::once((bytes("z"), bytes("1"))))
        .collect();
    let groups = split_entries(&entries, 30);
    let mut flat = vec![];
    for (keys, contents) in &groups {
        assert!(!keys.is_empty());
        assert_eq!(keys.len(), contents.len());
        let size: usize = keys.iter().chain(contents.iter()).map(|x| x.len()).sum();
        assert!(size <= 30 || keys.len() == 1);
        for (k, v) in keys.iter().zip(contents.iter()) {
            flat.push((k.clone(), v.clone()));
        }
    }
    assert_eq!(flat, entries);
    // three 10-byte pairs fit in 30 bytes
    assert_eq!(groups[0].0.len(), 3);
    assert!(groups.iter().any(|(k, _)| k == &vec![bytes("huge")]));
    assert!(split_entries(&vec![], 30).is_empty());
}
