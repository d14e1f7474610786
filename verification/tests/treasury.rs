use name_canister::harberger;
use name_canister::harberger::Config;
use name_canister::ledger::{fee, nat_to_u128, read_reply, Failure, Reply};
use name_canister::lifecycle::{attach, init};
use name_canister::principal::Principal;
use name_canister::record::{Record, Target};
use name_canister::registry::Registry;
use name_canister::store;
use name_canister::tax::Harberger;
use name_canister::treasury::{funds_held, settle_all};

const T: u128 = 1_000_000_000_000;
const YEAR: u64 = 365 * 86_400 * 1_000_000_000;
const FEE: u128 = 100_000_000;

fn p(n: u8) -> Principal {
    Principal::from_slice(&[n; 10])
}

fn fresh() -> Registry {
    let (maps, meta) = attach();
    let mut reg = init(maps, meta).unwrap().open().unwrap();
    let c = Config {
        rate_bps: 1_000,
        fee: FEE,
        ..Config::default()
    };
    harberger::set_config(&mut reg.store, &c).unwrap();
    reg
}

fn hold(reg: &mut Registry, name: &str, owner: &Principal, price: u128, balance: u128) {
    let mut r = Record::new(name.into(), owner.clone(), Target::Alias("alice/app".into()), 0);
    r.flat = Some(Harberger::new(price, balance, 0));
    store::put_record(&mut reg.store, &r);
}

#[test]
fn a_withdrawal_pays_the_amount_less_the_fee() {
    let mut reg = fresh();
    let a = p(1);
    store::add_credit(&mut reg.store, &a, 5 * T);
    assert_eq!(
        reg.withdraw_start(&a, FEE).err().unwrap(),
        "amount must exceed the ledger fee of 100000000 cycles"
    );
    assert_eq!(
        reg.withdraw_start(&a, 6 * T).err().unwrap(),
        "credit is 5000000000000 cycles, less than 6000000000000"
    );
    let w = reg.withdraw_start(&a, 2 * T).unwrap();
    assert_eq!(reg.credit(&a), 3 * T);
    assert_eq!(reg.in_flight, 1);
    let (_, pay) = w.payment();
    assert_eq!(pay.amount, 2 * T - FEE);
    assert_eq!(pay.to.owner, a);
    assert_eq!(pay.fee, Some(FEE));
    assert_eq!(reg.withdraw_finish(w, Ok(77)).unwrap(), 77);
    assert_eq!(reg.credit(&a), 3 * T);
    assert_eq!(reg.in_flight, 0);
}

#[test]
fn a_withdrawal_is_given_back_only_where_nothing_moved() {
    let mut reg = fresh();
    let a = p(1);
    store::add_credit(&mut reg.store, &a, 5 * T);
    let w = reg.withdraw_start(&a, 2 * T).unwrap();
    assert_eq!(
        reg.withdraw_finish(w, Err(Failure::Rejected("down".into()))).unwrap_err(),
        "down"
    );
    assert_eq!(reg.credit(&a), 5 * T);
    let w = reg.withdraw_start(&a, 2 * T).unwrap();
    assert!(reg.withdraw_finish(w, Err(Failure::Undecodable("odd".into()))).is_err());
    assert_eq!(reg.credit(&a), 3 * T);
    let t = reg.treasury();
    assert_eq!(t.unreconciled, 2 * T);
    assert!(t.unreconciled_last.starts_with(&format!("pay {} to {}: odd", 2 * T, a.to_text())));
}

#[test]
fn collected_tax_funds_the_canister_and_nothing_else_does() {
    let mut reg = fresh();
    let admin = p(1);
    store::add_credit(&mut reg.store, &p(2), 9 * T);
    harberger::note_tax_collected(&mut reg.store, 3 * T);
    assert_eq!(
        reg.fund_self_start(&admin, false, T).err().unwrap(),
        "caller is not a controller"
    );
    assert_eq!(
        reg.fund_self_start(&admin, true, 4 * T).err().unwrap(),
        "3000000000000 cycles of tax available to withdraw; amount must exceed the ledger fee of 100000000"
    );
    let f = reg.fund_self_start(&admin, true, 2 * T).unwrap();
    let f = reg.fund_self_fee(f, Ok(FEE)).unwrap();
    let pay = f.payment(&p(9));
    assert_eq!((pay.amount, pay.to), (2 * T - FEE, p(9)));
    assert_eq!(reg.fund_self_finish(f, Ok(5)).unwrap(), 5);
    let t = reg.treasury();
    assert_eq!((t.collected, t.withdrawn), (3 * T, 2 * T));
    assert_eq!(reg.credit(&p(2)), 9 * T);
}

#[test]
fn a_changed_fee_or_another_funding_stops_a_funding() {
    let mut reg = fresh();
    let admin = p(1);
    harberger::note_tax_collected(&mut reg.store, 3 * T);
    let f = reg.fund_self_start(&admin, true, 2 * T).unwrap();
    assert_eq!(
        reg.fund_self_fee(f, Ok(FEE + 1)).err().unwrap(),
        "ledger fee is now 100000001, config has 100000000; run set_harberger_config to refresh it"
    );
    let first = reg.fund_self_start(&admin, true, 2 * T).unwrap();
    let second = reg.fund_self_start(&admin, true, 2 * T).unwrap();
    let first = reg.fund_self_fee(first, Ok(FEE)).unwrap();
    assert!(reg.fund_self_fee(second, Ok(FEE)).is_err());
    // A refused withdrawal is undone, an undecodable one is noted.
    reg.fund_self_finish(first, Err(Failure::Refused("no".into()))).unwrap_err();
    assert_eq!(reg.treasury().withdrawn, 0);
    let f = reg.fund_self_start(&admin, true, T).unwrap();
    let f = reg.fund_self_fee(f, Ok(FEE)).unwrap();
    reg.fund_self_finish(f, Err(Failure::Undecodable("odd".into()))).unwrap_err();
    let t = reg.treasury();
    assert_eq!((t.withdrawn, t.unreconciled), (T, T));
    assert_eq!(reg.in_flight, 0);
}

#[test]
fn settle_all_settles_every_flat_name() {
    let mut reg = fresh();
    let a = p(1);
    hold(&mut reg, "one", &a, 10 * T, 5 * T);
    hold(&mut reg, "two", &a, 20 * T, 5 * T);
    let c = reg.harberger_config();
    assert_eq!(settle_all(&mut reg, &c, YEAR), (2, 3 * T));
    assert_eq!(reg.get_record("one").unwrap().flat.unwrap().balance, 4 * T);
    assert_eq!(reg.get_record("two").unwrap().flat.unwrap().balance, 3 * T);
    assert_eq!(harberger::tax_collected(&reg.store), 3 * T);
    assert_eq!(settle_all(&mut reg, &c, YEAR), (2, 0));
}

#[test]
fn a_rate_change_never_reaches_back() {
    let mut reg = fresh();
    let (a, admin) = (p(1), p(2));
    hold(&mut reg, "one", &a, 10 * T, 5 * T);
    let mut c = reg.harberger_config();
    c.rate_bps = 10_000;
    c.fee = 1;
    reg.set_harberger_config_start(&admin, true, &c).unwrap();
    reg.set_harberger_config_finish(c, Ok(FEE + 5), YEAR).unwrap();
    // A year at the old rate.
    assert_eq!(reg.get_record("one").unwrap().flat.unwrap().balance, 4 * T);
    let c = reg.harberger_config();
    assert_eq!((c.rate_bps, c.fee), (10_000, FEE + 5));
    // From there on the new one.
    assert_eq!(reg.flat_status("one", YEAR + YEAR / 10).unwrap().balance, 3 * T);
}

#[test]
fn the_ledger_changes_only_while_nothing_is_held() {
    let mut reg = fresh();
    let admin = p(1);
    let other = |reg: &Registry| {
        let mut c = reg.harberger_config();
        c.ledger = p(8);
        c
    };
    let c = other(&reg);
    assert_eq!(
        reg.set_harberger_config_start(&admin, false, &c).unwrap_err(),
        "caller is not a controller"
    );
    store::add_credit(&mut reg.store, &p(3), 5);
    let c = other(&reg);
    assert_eq!(
        reg.set_harberger_config_start(&admin, true, &c).unwrap_err(),
        "funds are held at the current ledger: 0 flat name(s), 5 cycles of credit, 0 of tax, 0 unreconciled, 0 call(s) in flight"
    );
    assert!(reg.set_harberger_config_finish(c, Ok(FEE), 0).is_err());
    store::take_credit(&mut reg.store, &p(3), 5).unwrap();
    assert!(funds_held(&reg).is_ok());
    let c = other(&reg);
    reg.set_harberger_config_start(&admin, true, &c).unwrap();
    reg.set_harberger_config_finish(c, Ok(FEE), 0).unwrap();
    assert_eq!(reg.harberger_config().ledger, p(8));
    let c = reg.harberger_config();
    assert_eq!(
        reg.set_harberger_config_finish(c, Err(Failure::Rejected("icrc1_fee: down".into())), 0)
            .unwrap_err(),
        "icrc1_fee: down"
    );
}

#[test]
fn ledger_replies() {
    assert_eq!(read_reply("withdraw", &Reply::Number(vec![5, 1])), Ok(261));
    let e = read_reply("withdraw", &Reply::Rejected("down".into())).unwrap_err();
    assert_eq!((e.nothing_moved(), e.message()), (true, "withdraw: down".to_string()));
    let e = read_reply("withdraw", &Reply::Refused("BadFee".into())).unwrap_err();
    assert_eq!(
        (e.nothing_moved(), e.message()),
        (true, "withdraw: ledger refused: BadFee".to_string())
    );
    let e = read_reply("withdraw", &Reply::Undecodable("x".into())).unwrap_err();
    assert!(!e.nothing_moved());
    assert!(e.message().starts_with("withdraw: undecodable reply: x; the transfer may have gone through"));
    assert_eq!(fee(&Reply::Number(vec![0, 1])), Ok(256));
    assert_eq!(nat_to_u128(&vec![0xff; 16]), u128::MAX);
    // Only the low 128 bits count.
    let mut wide = vec![7u8];
    wide.resize(16, 0);
    wide.push(1);
    assert_eq!(nat_to_u128(&wide), 7);
    assert_eq!(nat_to_u128(&vec![]), 0);
}
