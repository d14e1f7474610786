use name_canister::harberger;
use name_canister::harberger::Config;
use name_canister::ledger::Failure;
use name_canister::lifecycle::{attach, init};
use name_canister::principal::Principal;
use name_canister::record::Target;
use name_canister::registry::Registry;
use name_canister::store;
use name_canister::tax::{Status, MAX_PRICE};

const T: u128 = 1_000_000_000_000;
const S: u64 = 1_000_000_000;
const DAY: u64 = 86_400 * S;
const YEAR: u64 = 365 * DAY;

fn p(n: u8) -> Principal {
    Principal::from_slice(&[n; 10])
}

fn open_market() -> Registry {
    let (maps, meta) = attach();
    let mut reg = init(maps, meta).unwrap().open().unwrap();
    let c = Config {
        rate_bps: 1_000,
        min_price: T,
        grace_ns: 30 * DAY,
        fee: 100_000_000,
        flat_names_open: true,
        ..Config::default()
    };
    harberger::set_config(&mut reg.store, &c).unwrap();
    reg
}

/// What the ledger account has to hold.
fn books(reg: &Registry) -> u128 {
    let held: u128 = store::for_each_record(&reg.store)
        .iter()
        .map(|r| r.flat.map(|h| h.balance).unwrap_or(0))
        .sum();
    held + store::credits_outstanding(&reg.store) + harberger::tax_collected(&reg.store)
        - harberger::tax_withdrawn(&reg.store)
}

fn claim(reg: &mut Registry, who: &Principal, name: &str, price: u128, deposit: u128, now: u64) -> Result<(), String> {
    let c = reg.claim_start(who, name, "alice/app", price, deposit, now)?;
    reg.claim_finish(c, Ok(1), now)
}

#[test]
fn a_claim_holds_the_name_and_its_deposit() {
    let mut reg = open_market();
    let a = p(1);
    claim(&mut reg, &a, "ic-git", 10 * T, 2 * T, 0).unwrap();
    let r = reg.get_record("ic-git").unwrap();
    assert_eq!(r.owner, a);
    assert_eq!(r.target, Target::Alias("alice/app".into()));
    let h = r.flat.unwrap();
    assert_eq!((h.price, h.balance), (10 * T, 2 * T));
    assert_eq!(books(&reg), 2 * T);
    assert_eq!(reg.in_flight, 0);
    // 10 percent of 10T a year.
    let s = reg.flat_status("ic-git", YEAR).unwrap();
    assert_eq!(s.tax_per_year, T);
    assert_eq!(s.balance, T);
    assert_eq!(s.status, Status::Active);
    assert!(reg.flat_status("none", 0).is_none());
}

#[test]
fn claims_are_refused_for_a_reason() {
    let mut reg = open_market();
    let (a, b) = (p(1), p(2));
    let refused = |reg: &mut Registry, who: &Principal, name: &str, to: &str, price: u128, deposit: u128| {
        reg.claim_start(who, name, to, price, deposit, 0).err().unwrap()
    };
    assert_eq!(
        refused(&mut reg, &Principal::anonymous(), "ic-git", "alice/app", T, T),
        "anonymous caller"
    );
    assert!(refused(&mut reg, &a, "api", "alice/app", T, T).contains("reserved"));
    assert!(refused(&mut reg, &a, "alice/app", "alice/app", T, T).len() > 0);
    assert!(refused(&mut reg, &a, "ic-git", "other", T, T)
        .starts_with("a flat name must alias a scoped name"));
    assert_eq!(
        refused(&mut reg, &a, "ic-git", "alice/app", T - 1, T),
        "price below the minimum of 1000000000000 cycles"
    );
    assert_eq!(
        refused(&mut reg, &a, "ic-git", "alice/app", MAX_PRICE + 1, T),
        "price above the maximum of 1000000000000000000 cycles"
    );
    let least = harberger::min_deposit(&reg.harberger_config(), 10 * T);
    assert_eq!(
        refused(&mut reg, &a, "ic-git", "alice/app", 10 * T, least - 1),
        format!("deposit must cover one grace period of tax: at least {least} cycles at this price")
    );
    claim(&mut reg, &a, "ic-git", 10 * T, 2 * T, 0).unwrap();
    assert_eq!(
        refused(&mut reg, &b, "ic-git", "alice/app", 10 * T, 2 * T),
        format!("'ic-git' is owned by {}", a.to_text())
    );
    let mut c = reg.harberger_config();
    c.flat_names_open = false;
    harberger::set_config(&mut reg.store, &c).unwrap();
    assert_eq!(
        refused(&mut reg, &b, "free", "alice/app", 10 * T, 2 * T),
        "flat names are not open for claiming yet"
    );
    assert_eq!(reg.in_flight, 0);
}

#[test]
fn a_failed_pull_changes_nothing_and_an_undecodable_one_is_noted() {
    let mut reg = open_market();
    let a = p(1);
    let c = reg.claim_start(&a, "ic-git", "alice/app", 10 * T, 2 * T, 0).unwrap();
    assert_eq!(reg.in_flight, 1);
    let e = reg.claim_finish(c, Err(Failure::Refused("no funds".into())), 0).unwrap_err();
    assert_eq!(e, "no funds");
    assert_eq!(reg.in_flight, 0);
    assert!(reg.get_record("ic-git").is_none());
    assert_eq!(reg.treasury().unreconciled, 0);
    let c = reg.claim_start(&a, "ic-git", "alice/app", 10 * T, 2 * T, 0).unwrap();
    let e = reg.claim_finish(c, Err(Failure::Undecodable("odd".into())), 0).unwrap_err();
    assert!(e.starts_with("odd; the transfer may have gone through"));
    assert!(reg.get_record("ic-git").is_none());
    assert_eq!(reg.credit(&a), 0);
    let t = reg.treasury();
    assert_eq!(t.unreconciled, 2 * T);
    assert!(t.unreconciled_last.starts_with(&format!("pull {} from {}: odd", 2 * T, a.to_text())));
}

#[test]
fn two_claims_racing_cannot_both_have_the_name() {
    let mut reg = open_market();
    let (a, b) = (p(1), p(2));
    let first = reg.claim_start(&a, "ic-git", "alice/app", 10 * T, 2 * T, 5).unwrap();
    let second = reg.claim_start(&b, "ic-git", "bob/app", 10 * T, 3 * T, 5).unwrap();
    reg.claim_finish(first, Ok(1), 6).unwrap();
    let e = reg.claim_finish(second, Ok(2), 7).unwrap_err();
    assert_eq!(e, "'ic-git' changed hands while paying; deposit credited back");
    assert_eq!(reg.credit(&b), 3 * T);
    assert_eq!(reg.get_record("ic-git").unwrap().owner, a);
    assert_eq!(books(&reg), 5 * T);
}

#[test]
fn a_buyer_pays_the_price_and_the_seller_is_credited() {
    let mut reg = open_market();
    let (a, b) = (p(1), p(2));
    claim(&mut reg, &a, "ic-git", 10 * T, 2 * T, 0).unwrap();
    reg.set_text(&a, "ic-git", "module_hash", Some("cd".repeat(32)), 0).unwrap();
    let buy = reg.buy_start(&b, "ic-git", "bob/app", 20 * T, 4 * T, 10 * T, YEAR).unwrap();
    let this = p(9);
    let (ledger, pull) = buy.payment(&this);
    assert_eq!(ledger, Config::default().ledger);
    assert_eq!(pull.amount, 14 * T);
    assert_eq!(pull.fee, Some(100_000_000));
    assert_eq!(pull.to.owner, this);
    assert_eq!(pull.from.owner, b);
    reg.buy_finish(buy, Ok(1), YEAR).unwrap();
    // The price and the unspent balance, after a year of tax.
    assert_eq!(reg.credit(&a), 10 * T + T);
    let r = reg.get_record("ic-git").unwrap();
    assert_eq!(r.owner, b);
    assert_eq!(r.previous_target, Some(Target::Alias("alice/app".into())));
    assert!(r.text.is_empty());
    assert_eq!(r.changed_hands_ns, YEAR);
    assert_eq!(r.created_ns, 0);
    assert_eq!(r.flat.unwrap().price, 20 * T);
    assert_eq!(harberger::tax_collected(&reg.store), T);
    assert_eq!(books(&reg), 2 * T + 14 * T);
}

#[test]
fn purchases_are_refused_for_a_reason() {
    let mut reg = open_market();
    let (a, b) = (p(1), p(2));
    let buy = |reg: &mut Registry, who: &Principal, max: u128, now: u64| {
        reg.buy_start(who, "ic-git", "bob/app", 10 * T, 2 * T, max, now).err()
    };
    assert_eq!(buy(&mut reg, &b, 10 * T, 0).unwrap(), "no record for 'ic-git'");
    claim(&mut reg, &a, "ic-git", 10 * T, 2 * T, 0).unwrap();
    assert_eq!(buy(&mut reg, &a, 10 * T, 0).unwrap(), "you hold this name; use set_price");
    assert_eq!(
        buy(&mut reg, &b, 10 * T - 1, 0).unwrap(),
        "price is now 10000000000000 cycles, above your limit of 9999999999999"
    );
    assert_eq!(
        buy(&mut reg, &b, 10 * T, 3 * YEAR).unwrap(),
        "'ic-git' has lapsed; claim it instead"
    );
    // Closing the market does not stop a purchase.
    let mut c = reg.harberger_config();
    c.flat_names_open = false;
    harberger::set_config(&mut reg.store, &c).unwrap();
    assert_eq!(buy(&mut reg, &b, 10 * T, 0), None);
}

#[test]
fn two_buyers_racing_cannot_both_pay() {
    let mut reg = open_market();
    let (a, b, x) = (p(1), p(2), p(3));
    claim(&mut reg, &a, "ic-git", 10 * T, 2 * T, 0).unwrap();
    let first = reg.buy_start(&b, "ic-git", "bob/app", 10 * T, 2 * T, 10 * T, 5).unwrap();
    let second = reg.buy_start(&x, "ic-git", "carol/app", 10 * T, 3 * T, 10 * T, 5).unwrap();
    reg.buy_finish(first, Ok(1), 6).unwrap();
    let e = reg.buy_finish(second, Ok(2), 7).unwrap_err();
    assert_eq!(e, "'ic-git' changed while paying; payment credited back");
    assert_eq!(reg.credit(&x), 13 * T);
    assert_eq!(reg.get_record("ic-git").unwrap().owner, b);
    assert_eq!(books(&reg), 2 * T + 12 * T + 13 * T);
}

#[test]
fn a_top_up_brings_a_name_in_grace_back() {
    let mut reg = open_market();
    let (a, anyone) = (p(1), p(5));
    claim(&mut reg, &a, "ic-git", 10 * T, 2 * T, 0).unwrap();
    let late = 2 * YEAR + 10 * DAY;
    assert!(matches!(reg.flat_status("ic-git", late).unwrap().status, Status::Grace { .. }));
    assert_eq!(
        reg.deposit_start(&anyone, "ic-git", 0, late).err().unwrap(),
        "amount is zero"
    );
    let e = reg.deposit_start(&anyone, "ic-git", 1, late).err().unwrap();
    assert!(e.starts_with("balance after the deposit must cover one grace period of tax"));
    let t = reg.deposit_start(&anyone, "ic-git", T, late).unwrap();
    assert_eq!(t.payment(&p(9)).1.amount, T);
    reg.deposit_finish(t, Ok(1), late).unwrap();
    let s = reg.flat_status("ic-git", late).unwrap();
    assert_eq!((s.status, s.balance), (Status::Active, T));
    assert_eq!(books(&reg), 3 * T);
    assert_eq!(
        reg.deposit_start(&anyone, "none", T, late).err().unwrap(),
        "no record for 'none'"
    );
}

#[test]
fn a_top_up_of_a_name_sold_meanwhile_is_credited_back() {
    let mut reg = open_market();
    let (a, b) = (p(1), p(2));
    claim(&mut reg, &a, "ic-git", 10 * T, 2 * T, 0).unwrap();
    let t = reg.deposit_start(&a, "ic-git", T, 5).unwrap();
    let buy = reg.buy_start(&b, "ic-git", "bob/app", 10 * T, 2 * T, 10 * T, 5).unwrap();
    reg.buy_finish(buy, Ok(1), 6).unwrap();
    let e = reg.deposit_finish(t, Ok(2), 7).unwrap_err();
    assert_eq!(e, "'ic-git' changed while paying; amount credited back");
    assert_eq!(reg.credit(&a), 10 * T + 2 * T + T);
}

#[test]
fn a_lapsed_name_is_free_to_claim_and_does_not_resolve() {
    let mut reg = open_market();
    let (a, b) = (p(1), p(2));
    reg.register_handle(&a, "alice").unwrap();
    reg.set_record(&a, "alice/app", Target::Address(p(7)), 0).unwrap();
    claim(&mut reg, &a, "ic-git", 10 * T, 2 * T, 0).unwrap();
    assert!(name_canister::resolve::follow(&reg.store, "ic-git", 5).is_ok());
    let free = 2 * YEAR + 31 * DAY;
    assert_eq!(
        name_canister::resolve::follow(&reg.store, "ic-git", free).unwrap_err(),
        "'ic-git' has lapsed and is free to claim"
    );
    assert_eq!(
        reg.set_price(&a, "ic-git", 11 * T, free).unwrap_err(),
        "'ic-git' has lapsed and is free to claim"
    );
    claim(&mut reg, &b, "ic-git", 10 * T, 3 * T, free).unwrap();
    let r = reg.get_record("ic-git").unwrap();
    assert_eq!(r.owner, b);
    assert_eq!(r.previous_target, Some(Target::Alias("alice/app".into())));
    // All of the first deposit became tax.
    assert_eq!(harberger::tax_collected(&reg.store), 2 * T);
    assert_eq!(books(&reg), 5 * T);
    // A scoped name is none of the market's business.
    assert_eq!(reg.get_record("alice/app").unwrap().owner, a);
}

#[test]
fn reassessing_and_releasing() {
    let mut reg = open_market();
    let (a, b) = (p(1), p(2));
    claim(&mut reg, &a, "ic-git", 10 * T, 2 * T, 0).unwrap();
    assert_eq!(
        reg.set_price(&b, "ic-git", 11 * T, 5).unwrap_err(),
        "caller does not own 'ic-git'"
    );
    assert!(reg.set_price(&a, "ic-git", 1, 5).is_err());
    reg.set_price(&a, "ic-git", 20 * T, YEAR).unwrap();
    let h = reg.get_record("ic-git").unwrap().flat.unwrap();
    assert_eq!((h.price, h.balance), (20 * T, T));
    // At the new price half a year costs what a year did.
    assert_eq!(reg.flat_status("ic-git", YEAR + YEAR / 2).unwrap().balance, 0);
    reg.delete_record(&a, "ic-git", YEAR).unwrap();
    assert!(reg.get_record("ic-git").is_none());
    assert_eq!(reg.credit(&a), T);
    assert_eq!(books(&reg), 2 * T);
}

#[test]
fn expiring_names_are_listed_by_deadline() {
    let mut reg = open_market();
    let a = p(1);
    claim(&mut reg, &a, "late", 10 * T, 3 * T, 0).unwrap();
    claim(&mut reg, &a, "soon", 10 * T, T, 0).unwrap();
    let all = reg.expiring(10 * YEAR, 0);
    let names: Vec<&str> = all.iter().map(|e| e.name.as_str()).collect();
    assert_eq!(names, vec!["soon", "late"]);
    assert_eq!(all[0].deadline_ns, YEAR);
    assert_eq!(all[0].tax_per_year, T);
    assert_eq!(reg.expiring(YEAR, 0).len(), 1);
    assert_eq!(reg.expiring(YEAR - 1, 0).len(), 0);
    // In grace its deadline is the end of the grace period; then it is gone.
    let grace = reg.expiring(10 * YEAR, YEAR + DAY);
    assert_eq!(grace[0].deadline_ns, YEAR + 30 * DAY);
    let left = reg.expiring(10 * YEAR, YEAR + 31 * DAY);
    let names: Vec<&str> = left.iter().map(|e| e.name.as_str()).collect();
    assert_eq!(names, vec!["late"]);
}

#[test]
fn a_flat_name_always_aliases_a_scoped_name() {
    let mut reg = open_market();
    let a = p(1);
    claim(&mut reg, &a, "ic-git", 10 * T, 2 * T, 0).unwrap();
    assert_eq!(
        reg.set_record(&a, "ic-git", Target::Address(p(7)), 1).unwrap_err(),
        "a flat name must alias a scoped name"
    );
    assert_eq!(
        reg.set_record(&a, "ic-git", Target::Alias("other".into()), 1).unwrap_err(),
        "a flat name must alias a scoped name: name must be <handle>/<label>"
    );
    reg.set_record(&a, "ic-git", Target::Alias("alice/two".into()), YEAR).unwrap();
    let r = reg.get_record("ic-git").unwrap();
    assert_eq!(r.target, Target::Alias("alice/two".into()));
    // A repoint is no handover, and settles the tax.
    assert_eq!((r.previous_target, r.changed_hands_ns), (None, 0));
    assert_eq!(r.flat.unwrap().balance, T);
    assert_eq!(harberger::tax_collected(&reg.store), T);
    // Whoever does not hold it changes nothing.
    assert_eq!(
        reg.set_record(&p(2), "ic-git", Target::Alias("bob/app".into()), YEAR).unwrap_err(),
        "caller does not own 'ic-git'"
    );
}

#[test]
fn refused_calls_count_no_tax() {
    let mut reg = open_market();
    let (a, b) = (p(1), p(2));
    claim(&mut reg, &a, "ic-git", 10 * T, 2 * T, 0).unwrap();
    assert!(reg.set_price(&b, "ic-git", 11 * T, YEAR).is_err());
    assert!(reg.set_price(&a, "ic-git", 1, YEAR).is_err());
    assert!(reg.set_text(&a, "ic-git", "Bad", None, YEAR).is_err());
    assert!(reg.buy_start(&b, "ic-git", "bob/app", 10 * T, 2 * T, T, YEAR).is_err());
    reg.flat_status("ic-git", YEAR).unwrap();
    assert_eq!(harberger::tax_collected(&reg.store), 0);
    assert_eq!(reg.get_record("ic-git").unwrap().flat.unwrap().balance, 2 * T);
}

#[test]
fn a_closed_market_lets_holders_stay_and_leave() {
    let mut reg = open_market();
    let (a, b) = (p(1), p(2));
    claim(&mut reg, &a, "ic-git", 10 * T, 2 * T, 0).unwrap();
    let mut c = reg.harberger_config();
    c.flat_names_open = false;
    harberger::set_config(&mut reg.store, &c).unwrap();
    let t = reg.deposit_start(&b, "ic-git", T, 1).unwrap();
    reg.deposit_finish(t, Ok(1), 1).unwrap();
    reg.set_price(&a, "ic-git", 12 * T, 2).unwrap();
    reg.delete_record(&a, "ic-git", 3).unwrap();
    assert!(reg.credit(&a) > 2 * T);
}
