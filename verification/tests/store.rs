use name_canister::lifecycle::{attach, init};
use name_canister::principal::Principal;
use name_canister::record::{Handle, Record, Target};
use name_canister::registry::Registry;
use name_canister::store::{
    add_credit, add_deployer, credit_of, credits_outstanding, delete_record, get_handle, handle_owner,
    is_deployer, list_deployers, names_under, put_handle, put_record, register_handle, remove_deployer,
    schema_version, take_credit, SCHEMA,
};
use name_canister::tax::Harberger;

fn fresh() -> Registry {
    let (maps, meta) = attach();
    init(maps, meta).unwrap().open().unwrap()
}

fn sample() -> Record {
    Record {
        name: "alice/ic-git".into(),
        owner: Principal::from_text("2vxsx-fae").unwrap(),
        target: Target::Address(Principal::from_text("umobs-yiaaa-aaaab-agyrq-cai").unwrap()),
        previous_target: None,
        text: vec![
            ("description".into(), "git remote on a canister".into()),
            ("tags".into(), "git,deploy".into()),
        ],
        created_ns: 1,
        updated_ns: 2,
        changed_hands_ns: 1,
        flat: None,
    }
}

#[test]
fn canonical_form_is_stable() {
    let want = "name=alice/ic-git\n\
                owner=2vxsx-fae\n\
                target=address:umobs-yiaaa-aaaab-agyrq-cai\n\
                text.description=git remote on a canister\n\
                text.tags=git,deploy\n\
                created_ns=1\n\
                updated_ns=2\n\
                changed_hands_ns=1\n";
    assert_eq!(String::from_utf8(sample().canonical()).unwrap(), want);
}

#[test]
fn canonical_form_of_a_flat_name() {
    let mut r = sample();
    r.name = "ic-git".into();
    r.target = Target::Alias("alice/ic-git".into());
    r.previous_target = Some(Target::Alias("bob/ic-git".into()));
    r.text = Vec::new();
    r.flat = Some(Harberger::new(5, 6, 7));
    let want = "name=ic-git\n\
                owner=2vxsx-fae\n\
                target=alias:alice/ic-git\n\
                created_ns=1\n\
                updated_ns=2\n\
                changed_hands_ns=1\n\
                previous_target=alias:bob/ic-git\n\
                price=5\n\
                balance=6\n\
                settled_ns=7\n\
                lapsed_ns=none\n";
    assert_eq!(String::from_utf8(r.canonical()).unwrap(), want);
    let mut h = Harberger::new(5, 6, 7);
    h.lapsed_ns = Some(9);
    r.flat = Some(h);
    assert!(String::from_utf8(r.canonical()).unwrap().ends_with("lapsed_ns=9\n"));
}

#[test]
fn storable_round_trip() {
    let r = sample();
    let bytes = r.to_bytes();
    assert_eq!(Record::from_bytes(&bytes), Some(r));
}

#[test]
fn storable_round_trip_of_a_sold_flat_name_and_a_handle() {
    let mut r = sample();
    r.previous_target = Some(Target::Address(Principal::anonymous()));
    let mut h = Harberger::new(5, 6, 7);
    h.lapsed_ns = Some(u64::MAX);
    r.flat = Some(h);
    assert_eq!(Record::from_bytes(&r.to_bytes()), Some(r));
    let h = Handle {
        owner: Principal::anonymous(),
        deployer: Some(Principal::from_slice(&[1, 2, 3])),
    };
    assert_eq!(Handle::from_bytes(&h.to_bytes()), Some(h));
    assert_eq!(Record::from_bytes(&vec![1, 2, 3]), None);
    // A handle is what a record has too: an owner and no deployer.
    let h = Handle::from_bytes(&sample().to_bytes()).unwrap();
    assert_eq!((h.owner, h.deployer), (sample().owner, None));
}

#[test]
fn registry() {
    let mut reg = fresh();
    let alice = Principal::from_text("2vxsx-fae").unwrap();
    assert!(register_handle(&mut reg.store, "alice", &alice).is_ok());
    assert!(register_handle(&mut reg.store, "alice", &alice).is_err());
    assert_eq!(handle_owner(&reg.store, "alice"), Some(alice.clone()));
    assert_eq!(handle_owner(&reg.store, "bob"), None);
    let deployer = Principal::from_text("umobs-yiaaa-aaaab-agyrq-cai").unwrap();
    assert!(!is_deployer(&reg.store, &deployer));
    add_deployer(&mut reg.store, &deployer);
    assert!(is_deployer(&reg.store, &deployer));
    assert_eq!(list_deployers(&reg.store), vec![deployer.clone()]);
    put_handle(
        &mut reg.store,
        "alice",
        &Handle {
            owner: alice,
            deployer: Some(deployer.clone()),
        },
    );
    assert_eq!(get_handle(&reg.store, "alice").unwrap().deployer, Some(deployer.clone()));
    assert!(remove_deployer(&mut reg.store, &deployer));
    assert!(!is_deployer(&reg.store, &deployer));
    put_record(&mut reg.store, &sample());
    let mut other = sample();
    other.name = "alice/other".into();
    put_record(&mut reg.store, &other);
    let mut foreign = sample();
    foreign.name = "alicia/x".into();
    put_record(&mut reg.store, &foreign);
    assert_eq!(names_under(&reg.store, "alice"), vec!["alice/ic-git", "alice/other"]);
    assert!(delete_record(&mut reg.store, "alice/other").is_some());
    assert_eq!(names_under(&reg.store, "alice"), vec!["alice/ic-git"]);
}

#[test]
fn credits() {
    let mut reg = fresh();
    let (a, b) = (Principal::from_slice(&[1]), Principal::from_slice(&[2]));
    add_credit(&mut reg.store, &a, 10);
    add_credit(&mut reg.store, &a, 5);
    add_credit(&mut reg.store, &b, 1);
    assert_eq!(credit_of(&reg.store, &a), 15);
    assert_eq!(credits_outstanding(&reg.store), 16);
    assert_eq!(
        take_credit(&mut reg.store, &a, 16).unwrap_err(),
        "credit is 15 cycles, less than 16"
    );
    take_credit(&mut reg.store, &a, 15).unwrap();
    assert_eq!(credit_of(&reg.store, &a), 0);
    assert_eq!(credits_outstanding(&reg.store), 1);
    assert_eq!(schema_version(&reg.store), SCHEMA);
}

#[test]
fn principals() {
    assert_eq!(Principal::anonymous().to_text(), "2vxsx-fae");
    assert_eq!(Principal::from_slice(&[]).to_text(), "aaaaa-aa");
    assert_eq!(
        Principal::from_text("umobs-yiaaa-aaaab-agyrq-cai").unwrap().as_slice().len(),
        10
    );
    assert!(Principal::from_text("not a principal").is_err());
    assert!(Principal::try_from_slice(&[0; 30]).is_none());
    assert!(Principal::try_from_slice(&[0; 29]).is_some());
}

#[test]
fn different_records_have_different_leaves() {
    let a = sample().canonical();
    let mut b = sample();
    b.updated_ns = 3;
    assert_ne!(a, b.canonical());
    let mut c = sample();
    c.text = vec![("description".into(), "git remote on a canister".into())];
    assert_ne!(a, c.canonical());
}
