use name_canister::forms;
use name_canister::harberger::{self, migrate_config_from_v2, ConfigV2};
use name_canister::lifecycle::attach;
use name_canister::maps::{load_amount, store_amount};
use name_canister::principal::Principal;
use name_canister::record::{Handle, Record, Target};
use name_canister::running::{self, Running};
use name_canister::settings::Slot;
use name_canister::tax::Harberger;
use name_canister::vickrey::{Params, SealedAuction};

/// The bytes that pairs of hex digits stand for.
fn bytes(hex: &str) -> Vec<u8> {
    (0..hex.len() / 2)
        .map(|i| u8::from_str_radix(&hex[2 * i..2 * i + 2], 16).unwrap())
        .collect()
}

/// record { ledger; rate_bps; min_price; grace_ns; fee }
const V2: &str =
    "4449444c016c05c6fcb6027dc68db51079ecfabca10978a9cbadc30968dcc198c90e7d0100057b000000090000\
     000000000001010407";

/// The same with `flat_names_open` and `handover_warn_ns`.
const CONFIG: &str =
    "4449444c016c07c6fcb6027dc68db51079a2f1deeb0378ecfabca10978a9cbadc30968e7e9c8820d7edcc198c9\
     0e7d0100057b0000000b000000000000000900000000000000010104018080808080808080808001";

/// record { owner; deployer }
const HANDLE: &str =
    "4449444c026c02d4ac990501b3b0dac303686e680100010103010203010104";

/// A record without `flat` and `previous_target`.
const PLAIN_RECORD: &str =
    "4449444c046c078996f6810178b3b0dac30368cbe4fdc70471ad99e7e70401fcc2d9d00678d1e6b3b70803abad\
     b6a30d786d026c02007101716b0290a3c58c0271b4e3ade80968010002000000000000000101040c616c696365\
     2f69632d67697402037461670477696b690375726c017501000000000000000007626f622f6170700300000000\
     000000";

/// A record with every field.
const RECORD: &str =
    "4449444c086c098996f6810178b3b0dac30368b997f89d0401cbe4fdc70471ad99e7e70404fcc2d9d00678d1e6\
     b3b70806abadb6a30d78999be5ea0f076e026c049cbab69c027dadc1f9810403899dadc40c7d8bcfb4ad0f786e\
     786d056c02007101716b0290a3c58c0271b4e3ade809686e060100020000000000000001010401ac0201090000\
     00000000000507000000000000000c616c6963652f69632d67697402037461670477696b690375726c01750100\
     00000000000001010201020300000000000000010007626f622f617070";

/// record { commit_ns; reveal_ns; reserve }
const TERMS: &str =
    "4449444c016c03f7fa86f70278bcfca186067dcdb5b4de067801000200000000000000e8070100000000000000";

/// record { auction; targets }
const RUNNING: &str =
    "4449444c096c0282e89fc30801c3e4adb80d046d026c02000301716d7b6c0396dadb880405dbc6c9ce0478c6f6\
     ebeb0e086d066c05a88386b50178deb694b8067daca9cfb30707b4aac7b30e0395fa91870f036e7d6c03f7fa86\
     f70278bcfca186067dcdb5b4de067801000102010209616c6963652f6170700204000000000000000500020102\
     2007070707070707070707070707070707070707070707070707070707070707070600000000000000d8040182\
     010103200808080808080808080808080808080808080808080808080808080808080808040000000000000002\
     00000000000000030100000000000000";

/// A number.
const AMOUNT: &str =
    "4449444c00017d85808080808080808002";

/// A schema 2 config with a fee of 129 bits.
const BIG: &str =
    "4449444c016c05c6fcb6027dc68db51079ecfabca10978a9cbadc30968dcc198c90e7d01008080808080808080\
     80808080808080808080047b000000090000000000000001010407";

/// A config with one more field.
const EXTRA: &str =
    "4449444c016c08c6fcb6027dc68db51079a2f1deeb0378d8a1c4870571ecfabca10978a9cbadc30968e7e9c882\
     0d7edcc198c90e7d0100057b0000000b0000000000000001780900000000000000010104018080808080808080\
     808001";

/// A running auction with a commitment of 31 bytes.
const SHORT: &str =
    "4449444c096c0282e89fc30801c3e4adb80d046d026c02000301716d7b6c0396dadb880405dbc6c9ce0478c6f6\
     ebeb0e086d066c05a88386b50178deb694b8067daca9cfb30707b4aac7b30e0395fa91870f036e7d6c03f7fa86\
     f70278bcfca186067dcdb5b4de067801000001040000000000000005000201021f070707070707070707070707\
     0707070707070707070707070707070707070704000000000000000200000000000000030100000000000000";

fn old_config() -> ConfigV2 {
    ConfigV2 {
        ledger: Principal::anonymous(),
        rate_bps: 123,
        min_price: 7,
        grace_ns: 9,
        fee: 5,
    }
}

fn new_config() -> harberger::Config {
    harberger::Config {
        ledger: Principal::anonymous(),
        rate_bps: 123,
        min_price: 1 << 70,
        grace_ns: 9,
        fee: 5,
        flat_names_open: true,
        handover_warn_ns: 11,
    }
}

fn plain() -> Record {
    Record {
        name: "alice/ic-git".into(),
        owner: Principal::anonymous(),
        target: Target::Alias("bob/app".into()),
        previous_target: None,
        text: vec![("tag".into(), "wiki".into()), ("url".into(), "u".into())],
        created_ns: 1,
        updated_ns: 2,
        changed_hands_ns: 3,
        flat: None,
    }
}

fn full() -> Record {
    let mut h = Harberger::new(5, 300, 7);
    h.lapsed_ns = Some(9);
    Record {
        target: Target::Address(Principal::from_slice(&[1, 2])),
        previous_target: Some(Target::Alias("bob/app".into())),
        flat: Some(h),
        ..plain()
    }
}

fn two_bids() -> Running {
    let params = Params { commit_ns: 1, reveal_ns: 2, reserve: 3 };
    let mut auction = SealedAuction::open(params, 4);
    auction.commit(4, vec![1, 2], [7; 32], 5).unwrap();
    auction.commit(4, vec![3], [8; 32], 600).unwrap();
    auction.bids[1].committed_ns = 6;
    auction.bids[1].revealed = Some(130);
    Running { auction, targets: vec![(vec![1, 2], "alice/app".into())] }
}

#[test]
fn field_ids_are_the_hashes_of_the_names() {
    for (id, name) in [
        (forms::OWNER, "owner"),
        (forms::DEPLOYER, "deployer"),
        (forms::NAME, "name"),
        (forms::TARGET, "target"),
        (forms::PREVIOUS_TARGET, "previous_target"),
        (forms::TEXT, "text"),
        (forms::CREATED_NS, "created_ns"),
        (forms::UPDATED_NS, "updated_ns"),
        (forms::CHANGED_HANDS_NS, "changed_hands_ns"),
        (forms::FLAT, "flat"),
        (forms::ADDRESS, "address"),
        (forms::ALIAS, "alias"),
        (forms::PRICE, "price"),
        (forms::BALANCE, "balance"),
        (forms::SETTLED_NS, "settled_ns"),
        (forms::LAPSED_NS, "lapsed_ns"),
        (forms::LEDGER, "ledger"),
        (forms::RATE_BPS, "rate_bps"),
        (forms::MIN_PRICE, "min_price"),
        (forms::GRACE_NS, "grace_ns"),
        (forms::FEE, "fee"),
        (forms::FLAT_NAMES_OPEN, "flat_names_open"),
        (forms::HANDOVER_WARN_NS, "handover_warn_ns"),
        (forms::COMMIT_NS, "commit_ns"),
        (forms::REVEAL_NS, "reveal_ns"),
        (forms::RESERVE, "reserve"),
        (forms::BIDDER, "bidder"),
        (forms::COMMITMENT, "commitment"),
        (forms::DEPOSIT, "deposit"),
        (forms::COMMITTED_NS, "committed_ns"),
        (forms::REVEALED, "revealed"),
        (forms::PARAMS, "params"),
        (forms::OPENED_NS, "opened_ns"),
        (forms::BIDS, "bids"),
        (forms::AUCTION, "auction"),
        (forms::TARGETS, "targets"),
    ] {
        assert_eq!(id, candid::idl_hash(name), "{name}");
    }
}

#[test]
fn values_are_stored_as_candid_records() {
    assert_eq!(old_config().to_bytes(), bytes(V2));
    assert_eq!(new_config().to_bytes(), bytes(CONFIG));
    let h = Handle {
        owner: Principal::anonymous(),
        deployer: Some(Principal::from_slice(&[1, 2, 3])),
    };
    assert_eq!(h.to_bytes(), bytes(HANDLE));
    assert_eq!(full().to_bytes(), bytes(RECORD));
    let terms = running::Config { commit_ns: 1, reveal_ns: 2, reserve: 1000 };
    assert_eq!(terms.to_bytes(), bytes(TERMS));
    assert_eq!(two_bids().to_bytes(), bytes(RUNNING));
    assert_eq!(store_amount((1 << 64) + 5), bytes(AMOUNT));
}

#[test]
fn candid_records_are_read() {
    assert_eq!(harberger::Config::from_bytes(&bytes(CONFIG)), Some(new_config()));
    let h = Handle::from_bytes(&bytes(HANDLE)).unwrap();
    assert_eq!(h.owner, Principal::anonymous());
    assert_eq!(h.deployer, Some(Principal::from_slice(&[1, 2, 3])));
    assert_eq!(Record::from_bytes(&bytes(RECORD)), Some(full()));
    let terms = running::Config::from_bytes(&bytes(TERMS)).unwrap();
    assert_eq!((terms.commit_ns, terms.reveal_ns, terms.reserve), (1, 2, 1000));
    assert_eq!(Running::from_bytes(&bytes(RUNNING)), Some(two_bids()));
    assert_eq!(load_amount(&bytes(AMOUNT)), Some((1 << 64) + 5));
}

#[test]
fn fields_that_are_not_needed_may_be_missing_or_more() {
    assert_eq!(Record::from_bytes(&bytes(PLAIN_RECORD)), Some(plain()));
    assert_eq!(harberger::Config::from_bytes(&bytes(EXTRA)), Some(new_config()));
}

#[test]
fn values_of_another_shape_are_not_read() {
    assert_eq!(harberger::Config::from_bytes(&bytes(V2)), None);
    assert_eq!(Handle::from_bytes(&bytes(CONFIG)), None);
    assert_eq!(Record::from_bytes(&bytes(HANDLE)), None);
    assert_eq!(Running::from_bytes(&bytes(SHORT)), None);
    assert_eq!(running::Config::from_bytes(&bytes(RUNNING)), None);
    assert_eq!(load_amount(&bytes(TERMS)), None);
    let mut cut = bytes(RECORD);
    cut.pop();
    assert_eq!(Record::from_bytes(&cut), None);
}

#[test]
fn a_stored_schema_2_config_migrates() {
    let (_maps, mut meta) = attach();
    meta.set(Slot::Harberger, bytes(V2));
    migrate_config_from_v2(&mut meta).unwrap();
    let c = harberger::Config::from_bytes(&meta.get(Slot::Harberger).unwrap()).unwrap();
    assert_eq!(c.rate_bps, 123);
    assert_eq!(c.min_price, 7);
    assert!(!c.flat_names_open);
    meta.set(Slot::Harberger, bytes(BIG));
    let e = migrate_config_from_v2(&mut meta).unwrap_err();
    assert_eq!(e, "decode schema 2 harberger config");
}
