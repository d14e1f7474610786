use name_canister::harberger::{
    config, migrate_config_from_v2, min_deposit, note_tax_collected, note_tax_withdrawn, note_unreconciled,
    ns_until_spent, set_config, settle, settle_record, tax_collected, tax_per_year, tax_withdrawn, top_up,
    undo_tax_withdrawn, unreconciled, Config, ConfigV2, CYCLES_LEDGER,
};
use name_canister::lifecycle::{attach, init};
use name_canister::principal::Principal;
use name_canister::record::{Record, Target};
use name_canister::registry::Registry;
use name_canister::settings::Slot;
use name_canister::tax::{Harberger, Status, MAX_PRICE, YEAR_NS};

fn fresh() -> Registry {
    let (maps, meta) = attach();
    init(maps, meta).unwrap().open().unwrap()
}

#[test]
fn config_round_trip() {
    let mut reg = fresh();
    assert_eq!(config(&reg.store), Config::default());
    let c = |rate_bps: u32, grace_ns: u64, min_price: u128| Config {
        rate_bps,
        grace_ns,
        min_price,
        ..Config::default()
    };
    let d = Config::default();
    let want = Config {
        rate_bps: 500,
        ..Config::default()
    };
    set_config(&mut reg.store, &want).unwrap();
    assert_eq!(config(&reg.store), want);
    assert!(set_config(&mut reg.store, &c(20_000, d.grace_ns, d.min_price)).is_err());
    assert!(set_config(&mut reg.store, &c(500, 0, d.min_price)).is_err());
    assert!(set_config(&mut reg.store, &c(500, 1, MAX_PRICE + 1)).is_err());
    // A refused config changes nothing.
    assert_eq!(config(&reg.store), want);
}

#[test]
fn config_errors_name_their_reason() {
    let mut reg = fresh();
    let mut c = Config::default();
    c.rate_bps = 10_001;
    assert_eq!(
        set_config(&mut reg.store, &c).unwrap_err(),
        "rate_bps above 10000 (100% per year)"
    );
    c.rate_bps = 700;
    c.min_price = MAX_PRICE + 1;
    assert_eq!(
        set_config(&mut reg.store, &c).unwrap_err(),
        "min_price above the maximum price of 1000000000000000000"
    );
    c.min_price = 0;
    c.grace_ns = 0;
    assert_eq!(
        set_config(&mut reg.store, &c).unwrap_err(),
        "grace_ns is zero: every item would be free at once"
    );
}

#[test]
fn tax_is_counted_only_when_noted() {
    let mut reg = fresh();
    let c = Config {
        grace_ns: 10 * 1_000_000_000,
        ..Config::default()
    };
    let mut r = Record::new(
        "ic-git".into(),
        Principal::anonymous(),
        Target::Alias("alice/ic-git".into()),
        0,
    );
    r.flat = Some(Harberger::new(1_000_000_000_000, 1_000_000_000_000, 0));
    let before = tax_collected(&reg.store);
    let (_, taken) = settle_record(&c, &mut r.clone(), YEAR_NS as u64);
    assert_eq!(taken, tax_per_year(&c, 1_000_000_000_000));
    assert_eq!(tax_collected(&reg.store), before);
    note_tax_collected(&mut reg.store, taken);
    assert_eq!(tax_collected(&reg.store), before + taken);
}

#[test]
fn schema_2_config_migrates_with_its_values_kept() {
    let old = ConfigV2 {
        ledger: Principal::anonymous(),
        rate_bps: 123,
        min_price: 7,
        grace_ns: 9,
        fee: 5,
    };
    let (maps, mut meta) = attach();
    meta.set(Slot::Harberger, old.to_bytes());
    assert!(Config::from_bytes(&meta.get(Slot::Harberger).unwrap()).is_none());
    migrate_config_from_v2(&mut meta).unwrap();
    let c = Config::from_bytes(&meta.get(Slot::Harberger).unwrap()).unwrap();
    assert_eq!(c.ledger, Principal::anonymous());
    assert_eq!(c.rate_bps, 123);
    assert_eq!(c.min_price, 7);
    assert_eq!(c.grace_ns, 9);
    assert_eq!(c.fee, 5);
    assert!(!c.flat_names_open);
    assert_eq!(c.handover_warn_ns, Config::default().handover_warn_ns);
    // Idempotent.
    migrate_config_from_v2(&mut meta).unwrap();
    assert_eq!(Config::from_bytes(&meta.get(Slot::Harberger).unwrap()).unwrap(), c);
    let reg = init(maps, meta).unwrap().open().unwrap();
    assert_eq!(config(&reg.store), c);
}

#[test]
fn a_config_that_does_not_decode_is_no_reason_to_run_on_defaults() {
    let (maps, mut meta) = attach();
    meta.set(Slot::Harberger, vec![1, 2, 3]);
    assert_eq!(
        migrate_config_from_v2(&mut meta).unwrap_err(),
        "decode schema 2 harberger config"
    );
    assert_eq!(
        init(maps, meta).unwrap().open().err().unwrap(),
        "stored data does not decode"
    );
}

#[test]
fn the_default_ledger_is_the_cycles_ledger() {
    let c = Config::default();
    assert_eq!(c.ledger.to_text(), CYCLES_LEDGER);
    assert_eq!(CYCLES_LEDGER, "um5iw-rqaaa-aaaaq-qaaba-cai");
    assert_eq!(c.rate_bps, 700);
    assert_eq!((c.min_price, c.fee), (100_000_000_000, 100_000_000));
    assert!(!c.flat_names_open);
    assert_eq!(c.grace_ns, 30 * 24 * 60 * 60 * 1_000_000_000);
    assert_eq!(c.handover_warn_ns, 30 * 24 * 60 * 60 * 1_000_000_000);
}

#[test]
fn tax_formulas() {
    let c = Config {
        rate_bps: 700,
        grace_ns: (YEAR_NS / 10) as u64,
        ..Config::default()
    };
    let price = 1_000_000_000_000;
    assert_eq!(tax_per_year(&c, price), 70_000_000_000);
    assert_eq!(min_deposit(&c, price), 7_000_000_000);
    assert_eq!(ns_until_spent(&c, price, 70_000_000_000), Some(YEAR_NS as u64));
    assert_eq!(ns_until_spent(&c, 0, 1), None);
    let mut h = Harberger::new(price, 70_000_000_000, 0);
    assert_eq!(settle(&c, &mut h, (YEAR_NS / 2) as u64), (Status::Active, 35_000_000_000));
    assert_eq!(h.balance, 35_000_000_000);
    // Settling again at once takes nothing.
    assert_eq!(settle(&c, &mut h, (YEAR_NS / 2) as u64), (Status::Active, 0));
    // Past its balance it is in grace, then free, and stays free.
    let spent = (2 * YEAR_NS) as u64;
    let (status, taken) = settle(&c, &mut h, spent);
    assert_eq!(taken, 35_000_000_000);
    assert!(matches!(status, Status::Free));
    assert_eq!(settle(&c, &mut h, spent + 1), (Status::Free, 0));
}

#[test]
fn a_top_up_must_cover_one_grace_period() {
    let c = Config {
        rate_bps: 700,
        grace_ns: (YEAR_NS / 10) as u64,
        ..Config::default()
    };
    let mut h = Harberger::new(1_000_000_000_000, 0, 0);
    let err = top_up(&c, &mut h, 6_999_999_999, 1_000_000).unwrap_err();
    assert!(err.contains("at least 7000000000"), "{err}");
    top_up(&c, &mut h, 7_000_000_000, 1_000_000).unwrap();
    assert_eq!(h.lapsed_ns, None);
    assert_eq!(h.balance, 7_000_000_000);
}

#[test]
fn treasury_counters() {
    let mut reg = fresh();
    note_tax_collected(&mut reg.store, 100);
    note_tax_withdrawn(&mut reg.store, 60);
    assert_eq!((tax_collected(&reg.store), tax_withdrawn(&reg.store)), (100, 60));
    undo_tax_withdrawn(&mut reg.store, 60);
    assert_eq!(tax_withdrawn(&reg.store), 0);
    assert_eq!(unreconciled(&reg.store), (0, String::new()));
    note_unreconciled(&mut reg.store, 5, "pull 5 from nobody");
    note_unreconciled(&mut reg.store, 6, "pull 6 from nobody");
    assert_eq!(unreconciled(&reg.store), (11, "pull 6 from nobody".to_string()));
}
