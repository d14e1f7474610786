use ic_certification::{labeled, leaf, Certificate, HashTree};
use name_canister::certify;
use name_canister::lifecycle::{attach, init};
use name_canister::principal::Principal;
use name_canister::record::{Record, Target};
use name_canister::registry::Registry;
use name_canister::resolve::Resolved;
use name_canister::tax::Harberger;
use name_canister::verify::{
    canonical, certificate_of, check_answer, check_module, forge, hex, parse_args, warnings, Failure, Misuse,
};

fn p(n: u8) -> Principal {
    Principal::from_slice(&[n; 10])
}

fn registry() -> Registry {
    let (maps, meta) = attach();
    let mut reg = init(maps, meta).unwrap().open().unwrap();
    let a = p(1);
    reg.register_handle(&a, "alice").unwrap();
    reg.set_record(&a, "alice/app", Target::Address(p(7)), 5).unwrap();
    reg.set_record(&a, "alice/www", Target::Alias("alice/app".into()), 6).unwrap();
    reg.set_record(&a, "alice/other", Target::Address(p(8)), 7).unwrap();
    reg
}

/// A certificate over the registry's root; nothing here checks signatures.
fn certificate(reg: &Registry, canister: &Principal) -> Vec<u8> {
    let tree: HashTree = labeled(
        "canister",
        labeled(
            canister.as_slice(),
            labeled("certified_data", leaf(certify::root_hash(&reg.tree).to_vec())),
        ),
    );
    let cert = Certificate { tree, signature: vec![], delegation: None };
    serde_cbor::to_vec(&cert).unwrap()
}

fn answer(reg: &Registry, name: &str) -> Resolved {
    reg.resolve_inner(name, Some(certificate(reg, &p(9))), 10).unwrap()
}

fn check(asked: &str, a: &Resolved) -> Result<[u8; 32], Failure> {
    check_answer(&certificate_of(a).unwrap(), &p(9), asked, a)
}

#[test]
fn an_honest_answer_passes() {
    let reg = registry();
    let a = answer(&reg, "alice/www");
    assert_eq!(a.canister, p(7));
    assert_eq!(a.chain.len(), 2);
    assert_eq!(check("alice/www", &a), Ok(certify::root_hash(&reg.tree)));
}

#[test]
fn an_answer_without_a_certificate_fails_at_a() {
    let reg = registry();
    let a = reg.resolve_inner("alice/app", None, 10).unwrap();
    let f = certificate_of(&a).unwrap_err();
    assert_eq!((f.step, f.why.as_str()), ('A', "no certificate in the answer"));
}

#[test]
fn a_witness_of_another_root_fails_at_b() {
    let mut reg = registry();
    let mut a = answer(&reg, "alice/app");
    // A certificate for another canister says nothing of this one.
    let f = check_answer(&certificate_of(&a).unwrap(), &p(2), "alice/app", &a).unwrap_err();
    assert_eq!(f.step, 'B');
    assert!(f.why.starts_with("certified_data not in certificate: "));
    let f = check_answer(b"no cbor", &p(9), "alice/app", &a).unwrap_err();
    assert_eq!(f.step, 'A');
    assert!(f.why.starts_with("certificate cbor: "));
    a.certificate = Some(certificate(&reg, &p(9)));
    reg.set_record(&p(1), "alice/app", Target::Address(p(8)), 20).unwrap();
    a.witness = answer(&reg, "alice/app").witness;
    let f = check("alice/app", &a).unwrap_err();
    assert_eq!(f.step, 'B');
    assert!(f.why.contains(&hex(&certify::root_hash(&reg.tree))));
    a.witness = vec![];
    let f = check("alice/app", &a).unwrap_err();
    assert!(f.why.starts_with("witness cbor: "));
}

#[test]
fn forged_answers_are_refused() {
    let reg = registry();
    let mut a = answer(&reg, "alice/app");
    forge(&mut a, "witness").unwrap();
    assert_eq!(check("alice/app", &a).unwrap_err().step, 'B');
    let mut a = answer(&reg, "alice/app");
    forge(&mut a, "record").unwrap();
    assert_eq!(a.chain[0].updated_ns, 6);
    let f = check("alice/app", &a).unwrap_err();
    assert_eq!(f.step, 'C');
    assert!(f.why.starts_with("leaf for alice/app differs from the returned record:\n--- leaf\n"));
    assert_eq!(forge(&mut a, "cheese").unwrap_err(), "unknown --tamper cheese");
}

#[test]
fn a_record_that_the_witness_does_not_show_fails_at_c() {
    let reg = registry();
    let mut a = answer(&reg, "alice/app");
    a.witness = answer(&reg, "alice/other").witness;
    let f = check("alice/app", &a).unwrap_err();
    assert_eq!(f.step, 'C');
    assert_eq!(f.why, "no leaf for alice/app in witness: Unknown");
    a.chain[0] = Record::new("alice/b".into(), p(1), Target::Address(p(7)), 5);
    a.witness = certify::witness(&reg.tree, &vec!["alice/b".to_string()]);
    assert_eq!(check("alice/app", &a).unwrap_err().why, "no leaf for alice/b in witness: Absent");
}

#[test]
fn a_chain_that_does_not_lead_fails_at_d() {
    let reg = registry();
    let a = answer(&reg, "alice/www");
    let why = |asked: &str, a: &Resolved| {
        let f = check(asked, a).unwrap_err();
        assert_eq!(f.step, 'D');
        f.why
    };
    assert_eq!(why("alice/app", &a), "answer is for alice/www not alice/app");
    let mut b = answer(&reg, "alice/www");
    b.chain.remove(0);
    assert_eq!(why("alice/www", &b), "chain starts at alice/app not alice/www");
    let mut b = answer(&reg, "alice/www");
    b.chain.clear();
    assert_eq!(why("alice/www", &b), "empty chain");
    let mut b = answer(&reg, "alice/www");
    b.canister = p(8);
    assert_eq!(
        why("alice/www", &b),
        "last record alice/app is not the answer's address: Address(Principal { len: 10, \
         bytes: [7, 7, 7, 7, 7, 7, 7, 7, 7, 7, 0, 0, 0, 0, 0, 0, 0, 0, 0, 0, 0, 0, 0, 0, 0, 0, 0, \
         0, 0] })"
    );
    let mut b = answer(&reg, "alice/app");
    b.chain.push(answer(&reg, "alice/other").chain.remove(0));
    b.witness = certify::witness(
        &reg.tree,
        &vec!["alice/app".to_string(), "alice/other".to_string()],
    );
    assert_eq!(
        why("alice/app", &b),
        format!(
            "alice/app does not alias alice/other: Address({:?})",
            candid::Principal::from_slice(&[7; 10])
        )
    );
    let mut b = answer(&reg, "alice/www");
    b.chain.pop();
    assert_eq!(
        why("alice/www", &b),
        "last record alice/www is not the answer's address: Alias(\"alice/app\")"
    );
}

#[test]
fn a_pinned_module_must_run() {
    let mut r = Record::new("alice/app".into(), p(1), Target::Address(p(7)), 5);
    assert_eq!(check_module(&r, &None), Ok(()));
    r.text = vec![("module_hash".to_string(), "ab".repeat(32))];
    assert_eq!(check_module(&r, &Some(vec![0xab; 32])), Ok(()));
    let f = check_module(&r, &Some(vec![0xcd; 2])).unwrap_err();
    assert_eq!(f.step, 'E');
    assert_eq!(
        f.why,
        format!("alice/app pins module hash {} but the target runs cdcd", "ab".repeat(32))
    );
    let f = check_module(&r, &None).unwrap_err();
    assert!(f.why.ends_with(" but the target has no module"));
}

#[test]
fn a_chain_warns_of_names_that_changed_hands() {
    let plain = Record::new("alice/app".into(), p(1), Target::Address(p(7)), 5);
    let mut flat = Record::new("ic-git".into(), p(1), Target::Alias("alice/app".into()), 5);
    flat.flat = Some(Harberger::new(1, 1, 0));
    flat.previous_target = Some(Target::Alias("bob/app".into()));
    assert_eq!(
        warnings(&vec![flat, plain]),
        vec!["ic-git changed hands on 1970-01-01: it was bob/app and is now alice/app"]
    );
}

#[test]
fn both_sides_write_the_same_canonical_form() {
    let mut r = Record::new("ic-git".into(), p(1), Target::Alias("alice/app".into()), 5);
    r.text = vec![("a".to_string(), "1".to_string()), ("b".to_string(), "2".to_string())];
    r.flat = Some(Harberger::new(10, 20, 30));
    r.previous_target = Some(Target::Address(p(3)));
    assert_eq!(canonical(&r), r.canonical());
}

#[test]
fn hex_digits_are_lower_case() {
    assert_eq!(hex(&[0x00, 0x9f, 0xff]), "009fff");
    assert_eq!(hex(&[]), "");
}

#[test]
fn arguments() {
    let args = |list: &[&str]| parse_args(&list.iter().map(|s| s.to_string()).collect());
    let id = p(9).to_text();
    let o = args(&["--canister", &id, "alice/app"]).unwrap();
    assert_eq!(o.url, "https://icp-api.io");
    assert_eq!(o.canister, p(9));
    assert_eq!(o.name, "alice/app");
    assert_eq!((o.tamper, o.insecure_local_root_key), (None, false));
    let o = args(&[
        "alice/a", "--url", "http://x", "--tamper", "record", "--insecure-local-root-key",
        "--canister", &id, "alice/b",
    ])
    .unwrap();
    assert_eq!((o.url.as_str(), o.name.as_str()), ("http://x", "alice/b"));
    assert_eq!((o.tamper.as_deref(), o.insecure_local_root_key), (Some("record"), true));
    assert_eq!(args(&[]), Err(Misuse::Usage));
    assert_eq!(args(&["alice/app"]), Err(Misuse::Usage));
    assert_eq!(args(&["--canister", &id]), Err(Misuse::Usage));
    assert_eq!(args(&["--canister"]), Err(Misuse::Usage));
    assert_eq!(args(&["--bogus", "alice/app", "--canister", &id]), Err(Misuse::Usage));
    assert!(matches!(args(&["--canister", "x!", "alice/app"]), Err(Misuse::BadCanister(_))));
}
