use base64::Engine;
use ic_certification::{fork, HashTree, LookupResult};
use name_canister::certify;
use name_canister::certify::{http_headers, names_hash, remove, root_hash, skip_digest, witness, Tree, SKIP_CEL};
use sha2::{Digest, Sha256};

fn decode(bytes: &[u8]) -> HashTree {
    serde_cbor::from_slice(bytes).unwrap()
}

fn names(list: &[&str]) -> Vec<String> {
    list.iter().map(|s| s.to_string()).collect()
}

/// One base64 part of the IC-Certificate header.
fn part(header: &str, key: &str) -> Vec<u8> {
    let start = header.find(&format!("{key}=:")).unwrap() + key.len() + 2;
    let end = start + header[start..].find(':').unwrap();
    base64::engine::general_purpose::STANDARD.decode(&header[start..end]).unwrap()
}

#[test]
fn skip_subtree_matches_the_http_certification_crate() {
    assert_eq!(
        skip_digest(),
        [
            85, 236, 195, 28, 62, 128, 71, 252, 21, 143, 32, 234, 10, 160, 96, 154, 172, 199,
            181, 126, 6, 234, 64, 220, 65, 134, 2, 114, 167, 214, 66, 145
        ]
    );
    // The HTTP witness and a names witness digest to the same root.
    let mut tree = Tree::new();
    certify::set(&mut tree, "alice/a", b"A".to_vec());
    let headers = http_headers(&tree, &Some(vec![1, 2, 3])).unwrap();
    assert_eq!(headers[0].0, "IC-Certificate");
    let http = decode(&part(&headers[0].1, "tree"));
    assert_eq!(http.digest(), root_hash(&tree));
    assert_eq!(decode(&witness(&tree, &names(&["alice/a"]))).digest(), root_hash(&tree));
    // The gateway looks up ["http_expr", "<*>", sha256(cel)] and must
    // find the empty leaf; the names side is pruned, not revealed.
    let cel_hash: [u8; 32] = Sha256::digest(SKIP_CEL.as_bytes()).into();
    assert!(matches!(
        http.lookup_path([b"http_expr".as_slice(), b"<*>", &cel_hash]),
        LookupResult::Found(b"")
    ));
    assert!(matches!(
        http.lookup_path([b"names".as_slice(), b"alice/a"]),
        LookupResult::Unknown
    ));
}

#[test]
fn witness_reveals_leaf_and_matches_root() {
    let mut tree = Tree::new();
    certify::set(&mut tree, "alice/a", b"A".to_vec());
    certify::set(&mut tree, "alice/b", b"B".to_vec());
    certify::set(&mut tree, "bob/c", b"C".to_vec());
    let root = root_hash(&tree);

    let w = decode(&witness(&tree, &names(&["alice/b"])));
    assert_eq!(w.digest(), root);
    match w.lookup_path([b"names".as_slice(), b"alice/b"]) {
        LookupResult::Found(v) => assert_eq!(v, b"B"),
        other => panic!("expected leaf, got {other:?}"),
    }
    // Names not asked for are pruned, not revealed.
    assert!(!matches!(
        w.lookup_path([b"names".as_slice(), b"alice/a"]),
        LookupResult::Found(_)
    ));

    // A multi-name witness reveals every hop under the same root.
    let w = decode(&witness(&tree, &names(&["alice/a", "bob/c"])));
    assert_eq!(w.digest(), root);
    assert!(matches!(
        w.lookup_path([b"names".as_slice(), b"alice/a"]),
        LookupResult::Found(_)
    ));
    assert!(matches!(
        w.lookup_path([b"names".as_slice(), b"bob/c"]),
        LookupResult::Found(_)
    ));

    // Removing a name changes the root and the witness proves absence.
    remove(&mut tree, "alice/b");
    let root2 = root_hash(&tree);
    assert_ne!(root, root2);
    let w = decode(&witness(&tree, &names(&["alice/b"])));
    assert_eq!(w.digest(), root2);
    assert!(matches!(
        w.lookup_path([b"names".as_slice(), b"alice/b"]),
        LookupResult::Absent
    ));
}

#[test]
fn missing_names_are_absent_wherever_they_would_stand() {
    let mut tree = Tree::new();
    for i in 0..40 {
        certify::set(&mut tree, &format!("alice/n{:02}", 2 * i), vec![i]);
    }
    for i in 0..40 {
        let missing = format!("alice/n{:02}", 2 * i + 1);
        let w = decode(&witness(&tree, &names(&["alice/n10", &missing, "alice/n70", "alice/a"])));
        assert_eq!(w.digest(), root_hash(&tree));
        for absent in [missing.as_str(), "alice/a"] {
            assert!(matches!(
                w.lookup_path([b"names".as_slice(), absent.as_bytes()]),
                LookupResult::Absent
            ));
        }
        assert!(matches!(
            w.lookup_path([b"names".as_slice(), b"alice/n70"]),
            LookupResult::Found(b"\x23")
        ));
    }
}

#[test]
fn trees_are_read_back_up_to_the_depth_of_the_reader() {
    let nested = |labels: usize| {
        let mut t: HashTree = ic_certification::leaf(b"x".to_vec());
        for _ in 0..labels {
            t = ic_certification::labeled("l", t);
        }
        let mut ser = serde_cbor::Serializer::new(Vec::new());
        ser.self_describe().unwrap();
        serde::Serialize::serialize(&t, &mut ser).unwrap();
        serde_cbor::from_slice::<HashTree>(&ser.into_inner()).is_ok()
    };
    assert!(nested(125));
    assert!(!nested(126));
}

#[test]
fn no_names_prune_the_whole_tree() {
    let mut tree = Tree::new();
    certify::set(&mut tree, "alice/a", b"A".to_vec());
    let w = decode(&witness(&tree, &names(&[])));
    assert_eq!(w.digest(), root_hash(&tree));
    assert!(matches!(
        w.lookup_path([b"names".as_slice(), b"alice/a"]),
        LookupResult::Unknown
    ));
}

#[test]
fn the_root_forks_the_static_side_and_the_names() {
    let tree = Tree::new();
    assert_eq!(
        ic_certification::fork_hash(&skip_digest(), &names_hash(&tree)),
        root_hash(&tree)
    );
    let pruned: HashTree = fork(
        ic_certification::pruned(skip_digest()),
        ic_certification::pruned(names_hash(&tree)),
    );
    assert_eq!(pruned.digest(), root_hash(&tree));
}

#[test]
fn http_headers_carry_the_certificate_and_the_expression() {
    let tree = Tree::new();
    assert!(http_headers(&tree, &None).is_none());
    let headers = http_headers(&tree, &Some(vec![0xd9, 0xd9, 0xf7])).unwrap();
    assert_eq!(headers.len(), 2);
    assert!(headers[0].1.starts_with("certificate=:2dn3:, tree=:"));
    assert!(headers[0].1.ends_with(":, version=2"));
    assert_eq!(part(&headers[0].1, "certificate"), vec![0xd9, 0xd9, 0xf7]);
    let path: Vec<String> = serde_cbor::from_slice(&part(&headers[0].1, "expr_path")).unwrap();
    assert_eq!(path, vec!["http_expr", "<*>"]);
    assert_eq!(headers[1], ("IC-CertificateExpression".to_string(), SKIP_CEL.to_string()));
}
