use name_canister::lifecycle::{attach, init};
use name_canister::principal::Principal;
use name_canister::record::Target;
use name_canister::registry::{Announcement, Registry};
use name_canister::resolve::follow;
use name_canister::store::handle_owner;

fn fresh() -> Registry {
    let (maps, meta) = attach();
    init(maps, meta).unwrap().open().unwrap()
}

fn p(n: u8) -> Principal {
    Principal::from_slice(&[n; 10])
}

fn address(n: u8) -> Target {
    Target::Address(p(n))
}

fn alias(to: &str) -> Target {
    Target::Alias(to.to_string())
}

fn announcement(name: &str) -> Announcement {
    Announcement {
        name: name.to_string(),
        canister: p(7),
        repo: "https://example.org/repo".to_string(),
        commit: "ab".repeat(20),
        module_hash: "cd".repeat(32),
    }
}

#[test]
fn handles_are_first_come_and_permanent() {
    let mut reg = fresh();
    let (a, b) = (p(1), p(2));
    assert_eq!(
        reg.register_handle(&Principal::anonymous(), "alice").unwrap_err(),
        "anonymous caller"
    );
    assert!(reg.register_handle(&a, "Alice").is_err());
    reg.register_handle(&a, "alice").unwrap();
    assert!(reg.register_handle(&b, "alice").is_err());
    assert_eq!(reg.handle_owner("alice"), Some(a.clone()));
    assert_eq!(reg.handle_owner("bob"), None);
    // Nothing that others do takes it away.
    assert!(reg.set_handle_deployer(&b, "alice", None).is_err());
    assert_eq!(reg.get_handle("alice").unwrap().owner, a);
}

#[test]
fn writes_require_the_owner_of_the_handle() {
    let mut reg = fresh();
    let (a, b) = (p(1), p(2));
    assert_eq!(
        reg.set_record(&a, "alice/app", address(7), 1).unwrap_err(),
        "handle 'alice' is not registered"
    );
    reg.register_handle(&a, "alice").unwrap();
    assert_eq!(
        reg.set_record(&b, "alice/app", address(7), 1).unwrap_err(),
        "caller does not own handle 'alice'"
    );
    assert_eq!(
        reg.set_record(&a, "alice/app", alias("alice/app"), 1).unwrap_err(),
        "a name may not alias itself"
    );
    reg.set_record(&a, "alice/app", address(7), 1).unwrap();
    assert_eq!(
        reg.set_text(&b, "alice/app", "description", Some("x".to_string()), 2).unwrap_err(),
        "caller does not own handle 'alice'"
    );
    assert_eq!(
        reg.delete_record(&b, "alice/app", 2).unwrap_err(),
        "caller does not own handle 'alice'"
    );
    assert_eq!(
        reg.set_text(&a, "alice/none", "description", None, 2).unwrap_err(),
        "no record for 'alice/none'"
    );
    assert_eq!(
        reg.set_record(&a, "ic-git", alias("alice/app"), 2).unwrap_err(),
        "no record for 'ic-git'"
    );
    let r = reg.get_record("alice/app").unwrap();
    assert_eq!((r.created_ns, r.updated_ns, r.changed_hands_ns), (1, 1, 1));
    assert_eq!(reg.list_names("alice"), vec!["alice/app"]);
    reg.delete_record(&a, "alice/app", 3).unwrap();
    assert!(reg.get_record("alice/app").is_none());
}

#[test]
fn text_records_stay_sorted_and_survive_a_repoint() {
    let mut reg = fresh();
    let a = p(1);
    reg.register_handle(&a, "alice").unwrap();
    reg.set_record(&a, "alice/app", address(7), 1).unwrap();
    reg.set_text(&a, "alice/app", "tags", Some("git".to_string()), 2).unwrap();
    reg.set_text(&a, "alice/app", "description", Some("one".to_string()), 3).unwrap();
    reg.set_text(&a, "alice/app", "description", Some("two".to_string()), 4).unwrap();
    reg.set_record(&a, "alice/app", address(8), 5).unwrap();
    let r = reg.get_record("alice/app").unwrap();
    assert_eq!(
        r.text,
        vec![
            ("description".to_string(), "two".to_string()),
            ("tags".to_string(), "git".to_string())
        ]
    );
    assert_eq!(r.updated_ns, 5);
    assert!(reg.set_text(&a, "alice/app", "tags", Some("git, deploy".to_string()), 6).is_err());
    assert!(reg.set_text(&a, "alice/app", "Bad", Some("x".to_string()), 6).is_err());
    assert!(reg.set_text(&a, "alice/app", "ok", Some("two\nlines".to_string()), 6).is_err());
    reg.set_text(&a, "alice/app", "tags", None, 7).unwrap();
    assert_eq!(reg.get_record("alice/app").unwrap().text.len(), 1);
    for i in 0..31 {
        reg.set_text(&a, "alice/app", &format!("k{i}"), Some("v".to_string()), 8).unwrap();
    }
    assert_eq!(
        reg.set_text(&a, "alice/app", "more", Some("v".to_string()), 9).unwrap_err(),
        "at most 32 text records per name"
    );
    // One that is there already can still be changed.
    reg.set_text(&a, "alice/app", "k0", Some("w".to_string()), 9).unwrap();
}

#[test]
fn controllers_manage_the_deployers() {
    let mut reg = fresh();
    let (admin, d) = (p(1), p(2));
    assert_eq!(
        reg.add_deployer(&admin, false, &d).unwrap_err(),
        "caller is not a controller"
    );
    assert_eq!(
        reg.add_deployer(&admin, true, &Principal::anonymous()).unwrap_err(),
        "anonymous cannot be a deployer"
    );
    reg.add_deployer(&admin, true, &d).unwrap();
    assert_eq!(reg.list_deployers(), vec![d.clone()]);
    reg.remove_deployer(&admin, true, &d).unwrap();
    assert_eq!(
        reg.remove_deployer(&admin, true, &d).unwrap_err(),
        format!("{} is not a listed deployer", d.to_text())
    );
}

#[test]
fn announcements_are_trusted_by_caller() {
    let mut reg = fresh();
    let (admin, d, a) = (p(1), p(2), p(3));
    assert_eq!(
        reg.announce(&d, &announcement("bob/app"), 5).unwrap_err(),
        format!("{} is not a listed deployer", d.to_text())
    );
    reg.add_deployer(&admin, true, &d).unwrap();
    // An unregistered handle is registered to the deployer.
    reg.announce(&d, &announcement("bob/app"), 5).unwrap();
    assert_eq!(handle_owner(&reg.store, "bob"), Some(d.clone()));
    let r = reg.get_record("bob/app").unwrap();
    assert_eq!(r.target, Target::Address(p(7)));
    assert_eq!(r.text("repo").as_deref(), Some("https://example.org/repo"));
    assert_eq!(r.text("commit"), Some("ab".repeat(20)));
    assert_eq!(r.text("module_hash"), Some("cd".repeat(32)));
    assert_eq!(r.text("deployer"), Some(d.to_text()));
    assert_eq!(r.text("announced_ns").as_deref(), Some("5"));
    // Under somebody else's handle only where the owner says so.
    reg.register_handle(&a, "alice").unwrap();
    assert!(reg.announce(&d, &announcement("alice/app"), 6).is_err());
    reg.set_handle_deployer(&a, "alice", Some(d.clone())).unwrap();
    reg.announce(&d, &announcement("alice/app"), 7).unwrap();
    assert_eq!(reg.get_record("alice/app").unwrap().owner, a);
    let mut bad = announcement("alice/app");
    bad.commit = "xyz".to_string();
    assert!(reg.announce(&d, &bad, 8).is_err());
}

#[test]
fn resolution_follows_aliases_and_refuses_loops() {
    let mut reg = fresh();
    let a = p(1);
    reg.register_handle(&a, "alice").unwrap();
    reg.set_record(&a, "alice/app", address(7), 1).unwrap();
    reg.set_record(&a, "alice/www", alias("alice/app"), 1).unwrap();
    let (canister, chain) = follow(&reg.store, "alice/www", 2).unwrap();
    assert_eq!(canister, p(7));
    let names: Vec<&str> = chain.iter().map(|r| r.name.as_str()).collect();
    assert_eq!(names, vec!["alice/www", "alice/app"]);
    reg.set_record(&a, "alice/app", alias("alice/www"), 2).unwrap();
    assert_eq!(
        follow(&reg.store, "alice/www", 3).unwrap_err(),
        "alias loop at 'alice/www'"
    );
    assert_eq!(
        follow(&reg.store, "alice/none", 3).unwrap_err(),
        "no record for 'alice/none'"
    );
    assert!(follow(&reg.store, "Alice/none", 3).is_err());
    assert!(follow(&reg.store, "api", 3).is_err());
    // Eight records are visited, a ninth is not.
    for i in 0..9 {
        reg.set_record(&a, &format!("alice/h{i}"), alias(&format!("alice/h{}", i + 1)), 4).unwrap();
    }
    reg.set_record(&a, "alice/h8", address(7), 5).unwrap();
    assert_eq!(follow(&reg.store, "alice/h1", 6).unwrap().1.len(), 8);
    assert_eq!(
        follow(&reg.store, "alice/h0", 6).unwrap_err(),
        "alias chain deeper than 8"
    );
}
