use aes::cipher::{BlockEncrypt, KeyInit};
use base64::engine::general_purpose::URL_SAFE_NO_PAD;
use base64::Engine;
use cipher::block_padding::NoPadding;
use cipher::{BlockEncryptMut, KeyIvInit};
use mega_dl::crypto::{fold_key, NodeKeyError};
use mega_dl::json::Json;
use mega_dl::tree::{
    attrs_key_of, build_file_list, check_ways_end, list_files, node_name_of, read_node, NodeInfo,
    SkipReason,
};

const FOLDER_KEY: [u8; 16] = [9, 8, 7, 6, 5, 4, 3, 2, 1, 0, 11, 12, 13, 14, 15, 16];

fn text(s: &str) -> Json {
    Json::Text(s.to_owned())
}

fn object(members: Vec<(&str, Json)>) -> Json {
    Json::Object(members.into_iter().map(|(k, v)| (k.to_owned(), v)).collect())
}

fn block_encrypted(data: &[u8]) -> String {
    let c = aes::Aes128::new((&FOLDER_KEY).into());
    let mut out = Vec::new();
    for part in data.chunks(16) {
        let mut b = [0u8; 16];
        b.copy_from_slice(part);
        c.encrypt_block((&mut b).into());
        out.extend_from_slice(&b);
    }
    URL_SAFE_NO_PAD.encode(&out)
}

fn attrs(name: &str, key: &[u8; 16]) -> String {
    let mut buf = format!("MEGA{{\"n\":\"{name}\"}}").into_bytes();
    while buf.len() % 16 != 0 {
        buf.push(0);
    }
    let len = buf.len();
    cbc::Encryptor::<aes::Aes128>::new(key.into(), &[0u8; 16].into())
        .encrypt_padded_mut::<NoPadding>(&mut buf, len)
        .unwrap();
    URL_SAFE_NO_PAD.encode(&buf)
}

fn raw_key(seed: u8) -> [u8; 32] {
    let mut raw = [0u8; 32];
    for i in 0..32 {
        raw[i] = seed.wrapping_mul(17).wrapping_add(i as u8 * 5);
    }
    raw
}

fn file_node(h: &str, p: &str, name: &str, size: i128, seed: u8) -> Json {
    let raw = raw_key(seed);
    object(vec![
        ("h", text(h)),
        ("p", text(p)),
        ("t", Json::Integer(0)),
        ("s", Json::Integer(size)),
        ("k", text(&format!("{p}:{}", block_encrypted(&raw)))),
        ("a", text(&attrs(name, &fold_key(&raw).0))),
    ])
}

fn dir_node(h: &str, p: &str, name: &str, kind: i128) -> Json {
    let key = [kind as u8 + 40; 16];
    object(vec![
        ("h", text(h)),
        ("p", text(p)),
        ("t", Json::Integer(kind)),
        ("k", text(&format!("{h}:{}", block_encrypted(&key)))),
        ("a", text(&attrs(name, &key))),
    ])
}

fn info(h: &str, p: &str, name: &str, kind: Option<u64>) -> NodeInfo {
    NodeInfo {
        handle: h.to_owned(),
        parent: p.to_owned(),
        name: name.to_owned(),
        kind,
        size: 1,
        key: Ok([0u8; 32]),
    }
}

#[test]
fn a_folder_is_listed_with_paths_and_keys() {
    let nodes = vec![
        dir_node("R", "outside", "Root", 2),
        dir_node("D", "R", "sub dir", 1),
        file_node("F1", "R", "top.bin", 100, 1),
        file_node("F2", "D", "in\u{e9}r.bin", 200, 2),
    ];
    let list = build_file_list(&nodes, &FOLDER_KEY).unwrap();
    assert!(list.skipped.is_empty());
    assert_eq!(list.files.len(), 2);
    let f = &list.files[0];
    assert_eq!((f.handle.as_str(), f.path.as_str(), f.size), ("F1", "top.bin", 100));
    assert_eq!((f.aes_key, f.iv), fold_key(&raw_key(1)));
    let f = &list.files[1];
    assert_eq!((f.handle.as_str(), f.path.as_str(), f.size), ("F2", "sub dir/in\u{e9}r.bin", 200));
    assert_eq!((f.aes_key, f.iv), fold_key(&raw_key(2)));
}

#[test]
fn files_without_a_usable_key_are_left_out() {
    let mut no_key = file_node("A", "R", "a", 1, 3);
    let mut short = file_node("B", "R", "b", 1, 4);
    let mut bad = file_node("C", "R", "c", 1, 5);
    for (node, k) in [(&mut no_key, "R:"), (&mut short, "R:AAAA"), (&mut bad, "R:a+b")] {
        if let Json::Object(members) = node {
            for m in members.iter_mut() {
                if m.0 == "k" {
                    m.1 = text(k);
                }
            }
        }
    }
    let nodes = vec![dir_node("R", "", "Root", 2), no_key, short, bad, file_node("D", "R", "d", 1, 6)];
    let list = build_file_list(&nodes, &FOLDER_KEY).unwrap();
    assert_eq!(list.files.len(), 1);
    assert_eq!(list.files[0].path, "d");
    let skipped: Vec<(&str, SkipReason)> =
        list.skipped.iter().map(|s| (s.handle.as_str(), s.reason)).collect();
    assert_eq!(
        skipped,
        vec![
            ("A", SkipReason::NoKey),
            ("B", SkipReason::BadKey(NodeKeyError::Length(3))),
            ("C", SkipReason::BadKey(NodeKeyError::Base64)),
        ]
    );
}

#[test]
fn names_fall_back_to_the_handle() {
    let node = object(vec![("h", text("H")), ("t", Json::Integer(0))]);
    assert_eq!(node_name_of(&node, &FOLDER_KEY), "H");
    let node = object(vec![("h", text("H")), ("a", text("???"))]);
    assert_eq!(node_name_of(&node, &FOLDER_KEY), "H");
    let node = object(vec![("a", text("???"))]);
    assert_eq!(node_name_of(&node, &FOLDER_KEY), "");
}

#[test]
fn the_folder_key_serves_where_a_node_has_none() {
    let node = object(vec![("h", text("H")), ("a", text(&attrs("n", &FOLDER_KEY)))]);
    assert_eq!(attrs_key_of(&node, &FOLDER_KEY), FOLDER_KEY);
    assert_eq!(node_name_of(&node, &FOLDER_KEY), "n");
    let short = object(vec![("t", Json::Integer(1)), ("k", text("o:AAAA"))]);
    assert_eq!(attrs_key_of(&short, &FOLDER_KEY), FOLDER_KEY);
    let short = object(vec![("t", Json::Integer(0)), ("k", text("o:AAAA"))]);
    assert_eq!(attrs_key_of(&short, &FOLDER_KEY), FOLDER_KEY);
    let own = object(vec![
        ("t", Json::Integer(1)),
        ("k", text(&format!("o:{}", block_encrypted(&[77u8; 16])))),
    ]);
    assert_eq!(attrs_key_of(&own, &FOLDER_KEY), [77u8; 16]);
    // A node of no kind is read as a file.
    let raw = raw_key(8);
    let file = object(vec![("k", text(&format!("o:{}", block_encrypted(&raw))))]);
    assert_eq!(attrs_key_of(&file, &FOLDER_KEY), fold_key(&raw).0);
}

#[test]
fn a_node_is_read_member_by_member() {
    let n = read_node(&file_node("F", "P", "name", 12, 9), &FOLDER_KEY);
    assert_eq!(n.handle, "F");
    assert_eq!(n.parent, "P");
    assert_eq!(n.name, "name");
    assert_eq!(n.kind, Some(0));
    assert_eq!(n.size, 12);
    assert_eq!(n.key, Ok(raw_key(9)));
    let n = read_node(&Json::Other, &FOLDER_KEY);
    assert_eq!((n.handle.as_str(), n.parent.as_str(), n.name.as_str()), ("", "", ""));
    assert_eq!((n.kind, n.size), (None, 0));
    assert_eq!(n.key, Err(SkipReason::NoKey));
}

#[test]
fn paths_are_built_from_the_top_down() {
    let nodes = vec![
        info("R", "x", "root", Some(2)),
        info("a", "R", "A", Some(1)),
        info("b", "a", "B", Some(1)),
        info("f", "b", "F", Some(0)),
        info("g", "R", "G", Some(0)),
    ];
    let list = list_files(&nodes);
    let paths: Vec<&str> = list.files.iter().map(|f| f.path.as_str()).collect();
    assert_eq!(paths, vec!["A/B/F", "G"]);
    assert_eq!(list.files[0].names, vec!["root", "A", "B", "F"]);
    assert_eq!(list.files[1].names, vec!["root", "G"]);
}

#[test]
fn unknown_parents_count_by_their_handle() {
    let nodes = vec![info("f", "gone", "F", Some(0)), info("g", "", "G", Some(0))];
    let list = list_files(&nodes);
    let paths: Vec<&str> = list.files.iter().map(|f| f.path.as_str()).collect();
    // The unknown node is the component that goes; a node without a parent has only one.
    assert_eq!(paths, vec!["F", "G"]);
    assert_eq!(list.files[0].names, vec!["gone", "F"]);
    assert_eq!(list.files[1].names, vec!["G"]);
}

#[test]
fn names_are_put_together_as_paths() {
    let nodes = vec![
        info("R", "", "root", Some(2)),
        info("a", "R", "x/y", Some(1)),
        info("f", "a", "./F", Some(0)),
        info("g", "a", "/abs/G", Some(0)),
    ];
    let list = list_files(&nodes);
    let paths: Vec<&str> = list.files.iter().map(|f| f.path.as_str()).collect();
    assert_eq!(paths, vec!["x/y/F", "abs/G"]);
}

#[test]
fn of_two_nodes_with_one_handle_the_later_counts() {
    let nodes = vec![
        info("R", "", "root", Some(2)),
        info("f", "R", "first", Some(0)),
        info("f", "R", "second", Some(0)),
    ];
    let list = list_files(&nodes);
    let paths: Vec<&str> = list.files.iter().map(|f| f.path.as_str()).collect();
    assert_eq!(paths, vec!["second", "second"]);
}

#[test]
fn every_file_is_listed_or_left_out() {
    let mut lost = info("l", "R", "L", Some(0));
    lost.key = Err(SkipReason::NoKey);
    let nodes = vec![
        info("R", "", "root", Some(2)),
        info("f", "R", "F", Some(0)),
        lost,
        info("d", "R", "D", Some(1)),
        info("n", "R", "N", None),
    ];
    let list = list_files(&nodes);
    assert_eq!((list.files.len(), list.skipped.len()), (1, 1));
    assert_eq!(list.skipped[0].handle, "l");
}

#[test]
fn circles_above_a_file_are_found() {
    let circle = vec![
        info("a", "b", "A", Some(1)),
        info("b", "a", "B", Some(1)),
        info("f", "a", "F", Some(0)),
    ];
    assert!(!check_ways_end(&circle));
    let own_parent = vec![info("f", "f", "F", Some(0))];
    assert!(!check_ways_end(&own_parent));
    // The way ends at the root even if the root has a parent.
    let through_root = vec![
        info("R", "a", "root", Some(2)),
        info("a", "R", "A", Some(1)),
        info("f", "a", "F", Some(0)),
    ];
    assert!(check_ways_end(&through_root));
    // A circle that no file is below does not matter.
    let beside = vec![
        info("a", "b", "A", Some(1)),
        info("b", "a", "B", Some(1)),
        info("f", "", "F", Some(0)),
    ];
    assert!(check_ways_end(&beside));
    assert!(check_ways_end(&vec![]));
}

#[test]
fn a_circle_makes_the_list_fail() {
    let mut nodes = vec![dir_node("a", "b", "A", 1), dir_node("b", "a", "B", 1)];
    assert_eq!(build_file_list(&nodes, &FOLDER_KEY).unwrap().files.len(), 0);
    nodes.push(file_node("f", "a", "F", 1, 1));
    assert!(build_file_list(&nodes, &FOLDER_KEY).is_err());
}

#[test]
fn the_order_of_the_nodes_does_not_matter() {
    let make = |order: &[usize]| {
        let nodes = order.iter().map(|i| match *i {
            0 => info("R", "x", "root", Some(2)),
            1 => info("a", "R", "A", Some(1)),
            2 => info("f", "a", "F", Some(0)),
            _ => info("g", "R", "G", Some(0)),
        });
        let mut paths: Vec<String> =
            list_files(&nodes.collect()).files.into_iter().map(|f| f.path).collect();
        paths.sort();
        paths
    };
    assert_eq!(make(&[0, 1, 2, 3]), vec!["A/F".to_owned(), "G".to_owned()]);
    assert_eq!(make(&[3, 2, 1, 0]), make(&[0, 1, 2, 3]));
    assert_eq!(make(&[2, 0, 3, 1]), make(&[0, 1, 2, 3]));
}
