use name_canister::directory;
use name_canister::directory::SearchQuery;
use name_canister::harberger::{config, Config};
use name_canister::lifecycle::{attach, init, post_upgrade};
use name_canister::maps::store_amount;
use name_canister::principal::Principal;
use name_canister::record::Target;
use name_canister::settings::Slot;
use name_canister::store;

fn p(n: u8) -> Principal {
    Principal::from_slice(&[n; 10])
}

#[test]
fn a_newer_schema_is_refused() {
    let (maps, mut meta) = attach();
    meta.set(Slot::Schema, store_amount(4));
    assert_eq!(
        post_upgrade(maps, meta).err().unwrap(),
        "stable memory schema 4 is newer than this code's 3"
    );
}

#[test]
fn init_notes_the_schema() {
    let (maps, meta) = attach();
    let reg = init(maps, meta).unwrap().open().unwrap();
    assert_eq!(store::schema_version(&reg.store), 3);
    assert_eq!(config(&reg.store), Config::default());
    assert_eq!(reg.in_flight, 0);
}

#[test]
fn an_upgrade_of_unversioned_data_starts_over_its_maps() {
    let (maps, meta) = attach();
    let mut reg = post_upgrade(maps, meta).unwrap().open().unwrap();
    assert_eq!(store::schema_version(&reg.store), 3);
    let a = p(1);
    reg.register_handle(&a, "alice").unwrap();
    reg.set_record(&a, "alice/app", Target::Address(p(7)), 1).unwrap();
    reg.set_text(&a, "alice/app", "tags", Some("git".to_string()), 2).unwrap();
    let q = SearchQuery { q: None, tag: Some("git".to_string()), offset: None, limit: None };
    assert_eq!(directory::search(&reg.store, q).total, 1);
}

#[test]
fn an_upgrade_leaves_alone_what_it_does_not_read() {
    let (maps, mut meta) = attach();
    meta.set(Slot::Schema, store_amount(3));
    meta.set(Slot::Harberger, b"garbage".to_vec());
    let started = post_upgrade(maps, meta).unwrap();
    assert_eq!(started.meta.get(Slot::Harberger), Some(b"garbage".to_vec()));
    assert_eq!(started.open().err().unwrap(), "stored data does not decode");
}

#[test]
fn an_upgrade_from_schema_2_refuses_a_config_it_cannot_read() {
    let (maps, mut meta) = attach();
    meta.set(Slot::Schema, store_amount(2));
    meta.set(Slot::Harberger, b"garbage".to_vec());
    assert_eq!(
        post_upgrade(maps, meta).err().unwrap(),
        "decode schema 2 harberger config"
    );
}
