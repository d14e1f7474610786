use name_canister::auction::{
    check_bid, close, commitment, config, escrowed, list, place_bid, proceeds, reveal_bid, set_config,
    status, Closed, Config, Running,
};
use name_canister::harberger;
use name_canister::lifecycle::{attach, init};
use name_canister::principal::Principal;
use name_canister::record::{Record, Target};
use name_canister::registry::Registry;
use name_canister::store;
use name_canister::tax::{Harberger, MAX_PRICE};
use name_canister::vickrey::{Params, Phase, SealedAuction};
use sha2::{Digest, Sha256};

const S: u64 = 1_000_000_000;
const T: u128 = 1_000_000_000_000;

fn cfg() -> harberger::Config {
    harberger::Config {
        rate_bps: 10_000,
        min_price: T,
        grace_ns: 10 * S,
        ..harberger::Config::default()
    }
}

fn p(n: u8) -> Principal {
    Principal::from_slice(&[n; 10])
}

fn fresh() -> Registry {
    let (maps, meta) = attach();
    init(maps, meta).unwrap().open().unwrap()
}

fn setup() -> Registry {
    let mut reg = fresh();
    set_config(
        &mut reg.store,
        Config {
            commit_ns: 100 * S,
            reveal_ns: 100 * S,
            reserve: 0,
        },
    )
    .unwrap();
    reg
}

fn commit(reg: &mut Registry, name: &str, who: &Principal, amount: u128, deposit: u128, now: u64) {
    let c = commitment(who, amount, b"salt");
    assert_eq!(place_bid(reg, &cfg(), name, who, c, deposit, now).unwrap(), None);
}

fn open_bid(reg: &mut Registry, name: &str, who: &Principal, amount: u128, to: &str, now: u64) -> Result<(), String> {
    reveal_bid(reg, &cfg(), name, who, amount, b"salt", to.to_string(), now)
}

#[test]
fn running_round_trips_through_stable_memory() {
    let mut a = SealedAuction::open(
        Params {
            commit_ns: 1,
            reveal_ns: 2,
            reserve: 3,
        },
        4,
    );
    a.commit(4, vec![1, 2], [7; 32], 5).unwrap();
    let r = Running {
        auction: a,
        targets: vec![(vec![1, 2], "alice/app".into())],
    };
    assert_eq!(Running::from_bytes(&r.to_bytes()), Some(r));
}

#[test]
fn second_price_wins_and_the_rest_is_credited() {
    let mut reg = setup();
    let c = cfg();
    let (a, b, x) = (p(1), p(2), p(3));
    commit(&mut reg, "vick", &a, 50 * T, 60 * T, 0);
    commit(&mut reg, "vick", &b, 30 * T, 40 * T, 10 * S);
    commit(&mut reg, "vick", &x, 90 * T, 90 * T, 20 * S);
    // Too late to commit, too early to close.
    assert!(check_bid(&reg.store, &c, "vick", 90 * T, 150 * S).is_err());
    assert!(close(&mut reg, &c, "vick", 150 * S).is_err());
    open_bid(&mut reg, "vick", &a, 50 * T, "alice/app", 150 * S).unwrap();
    open_bid(&mut reg, "vick", &b, 30 * T, "bob/app", 150 * S).unwrap();
    // x never reveals.
    let collected = harberger::tax_collected(&reg.store);
    let v = status(&reg.store, "vick", 200 * S).unwrap();
    assert_eq!((v.winner, v.price), (Some(a.clone()), Some(30 * T)));
    let out = close(&mut reg, &c, "vick", 200 * S).unwrap();
    assert_eq!(
        out,
        Closed {
            winner: Some(a.clone()),
            price: 30 * T,
            assessed: 50 * T,
            forfeited: 90 * T
        }
    );
    let r = store::get_record(&reg.store, "vick").unwrap();
    assert_eq!(r.owner, a);
    assert_eq!(r.target, Target::Alias("alice/app".into()));
    let h = r.flat.unwrap();
    assert_eq!(h.price, 50 * T);
    assert_eq!(h.balance, harberger::min_deposit(&c, 50 * T));
    assert_eq!(store::credit_of(&reg.store, &a), 60 * T - 30 * T - h.balance);
    assert_eq!(store::credit_of(&reg.store, &b), 40 * T);
    assert_eq!(store::credit_of(&reg.store, &x), 0);
    assert_eq!(harberger::tax_collected(&reg.store), collected + 30 * T + 90 * T);
    assert_eq!(proceeds(&reg.store), 120 * T);
    assert!(status(&reg.store, "vick", 200 * S).is_none());
    assert_eq!(escrowed(&reg.store), 0);
    // Held now: no new auction.
    assert!(check_bid(&reg.store, &c, "vick", 90 * T, 201 * S)
        .unwrap_err()
        .contains("owned by"));
}

#[test]
fn a_reveal_must_leave_a_grace_period_of_tax() {
    let mut reg = setup();
    let c = cfg();
    let a = p(1);
    commit(&mut reg, "tight", &a, 50 * T, 50 * T, 0);
    let err = open_bid(&mut reg, "tight", &a, 50 * T, "alice/app", 150 * S).unwrap_err();
    assert!(err.contains("grace period"), "{err}");
    // Still unrevealed, so it forfeits.
    assert_eq!(close(&mut reg, &c, "tight", 200 * S).unwrap().forfeited, 50 * T);
}

#[test]
fn deposit_below_the_reserve_is_refused_before_pulling() {
    let reg = setup();
    let c = cfg();
    assert!(check_bid(&reg.store, &c, "cheap", T - 1, 0)
        .unwrap_err()
        .contains("reserve"));
    assert!(check_bid(&reg.store, &c, "cheap", T, 0).is_ok());
}

#[test]
fn an_unwon_auction_is_closed_by_the_next_bid() {
    let mut reg = setup();
    let c = cfg();
    let (a, b) = (p(1), p(2));
    commit(&mut reg, "again", &a, 5 * T, 20 * T, 0);
    // a never reveals; after the reveal phase b's bid closes the old
    // auction (a forfeits) and opens a new one.
    assert!(check_bid(&reg.store, &c, "again", 20 * T, 150 * S).is_err());
    commit(&mut reg, "again", &b, 5 * T, 20 * T, 250 * S);
    let v = status(&reg.store, "again", 250 * S).unwrap();
    assert_eq!(v.opened_ns, 250 * S);
    assert_eq!(v.bidders, vec![b]);
    assert_eq!(store::credit_of(&reg.store, &a), 0);
    assert_eq!(escrowed(&reg.store), 20 * T);
}

#[test]
fn a_lapsed_name_goes_to_the_winner_and_remembers_its_target() {
    let mut reg = setup();
    let c = cfg();
    let old = p(9);
    let mut r = Record::new("gone".into(), old, Target::Alias("old/app".into()), 0);
    r.text.push(("description".into(), "old".into()));
    r.flat = Some(Harberger::new(1_000 * T, 0, 0));
    store::put_record(&mut reg.store, &r);
    // Spent at once, free after grace.
    assert!(check_bid(&reg.store, &c, "gone", 2 * T, 5 * S)
        .unwrap_err()
        .contains("owned by"));
    let a = p(1);
    commit(&mut reg, "gone", &a, 2 * T, 10 * T, 20 * S);
    open_bid(&mut reg, "gone", &a, 2 * T, "alice/app", 150 * S).unwrap();
    let out = close(&mut reg, &c, "gone", 300 * S).unwrap();
    assert_eq!((out.winner, out.price), (Some(a.clone()), T));
    let r = store::get_record(&reg.store, "gone").unwrap();
    assert_eq!(r.owner, a);
    assert_eq!(r.previous_target, Some(Target::Alias("old/app".into())));
    assert!(r.text.is_empty());
    assert_eq!(r.changed_hands_ns, 300 * S);
    assert_eq!(r.created_ns, 0);
}

#[test]
fn nobody_at_the_reserve_means_nobody_wins() {
    let mut reg = setup();
    let c = cfg();
    let a = p(1);
    commit(&mut reg, "low", &a, 500, 5 * T, 0);
    open_bid(&mut reg, "low", &a, 500, "alice/app", 150 * S).unwrap();
    let out = close(&mut reg, &c, "low", 200 * S).unwrap();
    assert_eq!(out.winner, None);
    assert!(store::get_record(&reg.store, "low").is_none());
    assert_eq!(store::credit_of(&reg.store, &a), 5 * T);
}

#[test]
fn config_checks() {
    let mut reg = fresh();
    assert_eq!(config(&reg.store), Config::default());
    let mut c = Config {
        commit_ns: 0,
        ..Config::default()
    };
    assert!(set_config(&mut reg.store, c.clone()).is_err());
    c.commit_ns = 1;
    c.reserve = MAX_PRICE + 1;
    assert!(set_config(&mut reg.store, c).is_err());
}

// --- more ------------------------------------------------------------------------------------

#[test]
fn auction_errors_name_their_reason() {
    let mut reg = setup();
    let c = cfg();
    let (a, b) = (p(1), p(2));
    assert_eq!(
        set_config(&mut reg.store, Config { commit_ns: 1, reveal_ns: 0, reserve: 0 }).unwrap_err(),
        "commit_ns and reveal_ns must be positive"
    );
    assert_eq!(
        set_config(&mut reg.store, Config { commit_ns: 1, reveal_ns: 1, reserve: MAX_PRICE + 1 }).unwrap_err(),
        "reserve above the maximum price of 1000000000000000000"
    );
    assert_eq!(close(&mut reg, &c, "none", 0).unwrap_err(), "no auction for 'none'");
    assert_eq!(
        open_bid(&mut reg, "none", &a, 1, "alice/app", 0).unwrap_err(),
        "no auction for 'none'"
    );
    commit(&mut reg, "ic-git", &a, 5 * T, 20 * T, 0);
    assert_eq!(close(&mut reg, &c, "ic-git", 50 * S).unwrap_err(), "the auction is still open");
    assert_eq!(
        open_bid(&mut reg, "ic-git", &a, 5 * T, "alice/app", 50 * S).unwrap_err(),
        "the reveal phase has not started"
    );
    assert_eq!(
        open_bid(&mut reg, "ic-git", &b, 5 * T, "alice/app", 150 * S).unwrap_err(),
        "no commitment from this bidder"
    );
    assert_eq!(
        open_bid(&mut reg, "ic-git", &a, 6 * T, "alice/app", 150 * S).unwrap_err(),
        "amount and salt do not match the commitment"
    );
    assert_eq!(
        check_bid(&reg.store, &c, "ic-git", 20 * T, 150 * S).unwrap_err(),
        "bidding on 'ic-git' is over; its reveal phase runs until 200000000000"
    );
    open_bid(&mut reg, "ic-git", &a, 5 * T, "alice/app", 150 * S).unwrap();
    assert_eq!(
        open_bid(&mut reg, "ic-git", &a, 5 * T, "alice/app", 150 * S).unwrap_err(),
        "already revealed"
    );
    assert_eq!(
        open_bid(&mut reg, "ic-git", &a, 5 * T, "alice/app", 250 * S).unwrap_err(),
        "the reveal phase is over"
    );
    assert_eq!(
        check_bid(&reg.store, &c, "ic-git", 20 * T, 250 * S).unwrap_err(),
        "the auction for 'ic-git' has a winner; close_auction hands the name over"
    );
    assert_eq!(
        check_bid(&reg.store, &c, "cheap", 1, 0).unwrap_err(),
        "deposit must be at least the reserve of 1000000000000 cycles"
    );
}

#[test]
fn a_bid_above_its_deposit_or_the_price_range_is_refused() {
    let mut reg = setup();
    let (a, b) = (p(1), p(2));
    commit(&mut reg, "wide", &a, 30 * T, 20 * T, 0);
    commit(&mut reg, "wide", &b, MAX_PRICE + 1, 2 * MAX_PRICE, 0);
    assert_eq!(
        open_bid(&mut reg, "wide", &a, 30 * T, "alice/app", 150 * S).unwrap_err(),
        "revealed amount 30000000000000 exceeds the deposit of 20000000000000"
    );
    assert_eq!(
        open_bid(&mut reg, "wide", &b, MAX_PRICE + 1, "bob/app", 150 * S).unwrap_err(),
        "bid above the maximum price of 1000000000000000000 cycles"
    );
}

#[test]
fn a_second_commitment_replaces_the_first() {
    let mut reg = setup();
    let a = p(1);
    commit(&mut reg, "twice", &a, 5 * T, 20 * T, 0);
    let c = commitment(&a, 7 * T, b"salt");
    assert_eq!(
        place_bid(&mut reg, &cfg(), "twice", &a, c, 30 * T, 10 * S).unwrap(),
        Some(20 * T)
    );
    assert_eq!(escrowed(&reg.store), 30 * T);
    let v = status(&reg.store, "twice", 10 * S).unwrap();
    assert_eq!(v.bidders, vec![a]);
}

#[test]
fn amounts_stay_sealed_until_the_end() {
    let mut reg = setup();
    let (a, b) = (p(1), p(2));
    commit(&mut reg, "sealed", &a, 5 * T, 20 * T, 0);
    commit(&mut reg, "sealed", &b, 6 * T, 20 * T, 0);
    open_bid(&mut reg, "sealed", &b, 6 * T, "bob/app", 150 * S).unwrap();
    let v = status(&reg.store, "sealed", 150 * S).unwrap();
    assert_eq!(v.phase, Phase::Reveal);
    assert_eq!(v.revealed, 1);
    assert_eq!((v.winner, v.price), (None, None));
    assert_eq!(v.commit_until_ns, 100 * S);
    assert_eq!(v.reveal_until_ns, 200 * S);
    let all = list(&reg.store, 200 * S);
    assert_eq!(all.len(), 1);
    assert_eq!((all[0].winner.clone(), all[0].price), (Some(b), Some(T)));
}

#[test]
fn a_name_taken_meanwhile_refunds_the_would_be_winner() {
    let mut reg = setup();
    let c = cfg();
    let (a, other) = (p(1), p(2));
    commit(&mut reg, "busy", &a, 5 * T, 20 * T, 0);
    open_bid(&mut reg, "busy", &a, 5 * T, "alice/app", 150 * S).unwrap();
    let mut r = Record::new("busy".into(), other.clone(), Target::Alias("bob/app".into()), 160 * S);
    r.flat = Some(Harberger::new(T, 1_000 * T, 160 * S));
    store::put_record(&mut reg.store, &r);
    let out = close(&mut reg, &c, "busy", 200 * S).unwrap();
    assert_eq!(out, Closed { winner: None, price: 0, assessed: 0, forfeited: 0 });
    assert_eq!(store::credit_of(&reg.store, &a), 20 * T);
    assert_eq!(store::get_record(&reg.store, "busy").unwrap().owner, other);
}

#[test]
fn a_closed_auction_balances_to_the_cycle() {
    let mut reg = setup();
    let c = cfg();
    let (a, b, x) = (p(1), p(2), p(3));
    commit(&mut reg, "sums", &a, 50 * T, 61 * T, 0);
    commit(&mut reg, "sums", &b, 30 * T, 43 * T, 0);
    commit(&mut reg, "sums", &x, 90 * T, 97 * T, 0);
    assert_eq!(escrowed(&reg.store), 201 * T);
    open_bid(&mut reg, "sums", &a, 50 * T, "alice/app", 150 * S).unwrap();
    open_bid(&mut reg, "sums", &b, 30 * T, "bob/app", 150 * S).unwrap();
    close(&mut reg, &c, "sums", 200 * S).unwrap();
    let balance = store::get_record(&reg.store, "sums").unwrap().flat.unwrap().balance;
    assert_eq!(
        balance + store::credits_outstanding(&reg.store) + harberger::tax_collected(&reg.store),
        201 * T
    );
}

#[test]
fn the_earlier_of_two_equal_bids_wins_and_pays_it() {
    let mut reg = setup();
    let c = cfg();
    let (a, b) = (p(1), p(2));
    commit(&mut reg, "tie", &b, 5 * T, 20 * T, 0);
    commit(&mut reg, "tie", &a, 5 * T, 20 * T, S);
    open_bid(&mut reg, "tie", &a, 5 * T, "alice/app", 150 * S).unwrap();
    open_bid(&mut reg, "tie", &b, 5 * T, "bob/app", 151 * S).unwrap();
    let out = close(&mut reg, &c, "tie", 200 * S).unwrap();
    assert_eq!(out.winner, Some(b.clone()));
    assert_eq!((out.price, out.assessed, out.forfeited), (5 * T, 5 * T, 0));
    let r = store::get_record(&reg.store, "tie").unwrap();
    assert_eq!((r.owner, r.target), (b, Target::Alias("bob/app".into())));
    // The loser has the whole deposit back.
    assert_eq!(store::credit_of(&reg.store, &a), 20 * T);
}

#[test]
fn a_commitment_is_the_hash_that_the_auction_rules_check() {
    let a = p(1);
    assert_eq!(
        commitment(&a, 5 * T, b"salt"),
        ic_auction::vickrey::commitment(a.as_slice(), 5 * T, b"salt")
    );
    let mut h = Sha256::new();
    h.update(b"ic-auction/vickrey/v1");
    h.update([0, 0, 0, 0, 0, 0, 0, 10]);
    h.update([1; 10]);
    h.update((5 * T).to_be_bytes());
    h.update([0, 0, 0, 0, 0, 0, 0, 4]);
    h.update(b"salt");
    let want: [u8; 32] = h.finalize().into();
    assert_eq!(commitment(&a, 5 * T, b"salt"), want);
    assert_ne!(commitment(&a, 5 * T, b"salt"), commitment(&a, 6 * T, b"salt"));
    assert_ne!(commitment(&a, 5 * T, b"salt"), commitment(&p(2), 5 * T, b"salt"));
}
