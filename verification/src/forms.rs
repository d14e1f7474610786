//! The candid types that values are stored at.
//!
//! A field is known by the hash of its name, and a type lists its fields
//! by ascending hash.

use candid::types::Type;
use vstd::prelude::*;

use crate::idl::{
    compound_type, kind_of, kinds_of, scalar_type, CompoundType, Kind, ScalarType,
};

verus! {

// --- the ids of fields ------------------------------------------------------------

/// `owner`.
pub const OWNER: u32 = 947296307;

/// `deployer`.
pub const DEPLOYER: u32 = 10901076;

/// `name`.
pub const NAME: u32 = 1224700491;

/// `target`.
pub const TARGET: u32 = 2263675729;

/// `previous_target`.
pub const PREVIOUS_TARGET: u32 = 4250488217;

/// `text`.
pub const TEXT: u32 = 1291439277;

/// `created_ns`.
pub const CREATED_NS: u32 = 1779851644;

/// `updated_ns`.
pub const UPDATED_NS: u32 = 272468745;

/// `changed_hands_ns`.
pub const CHANGED_HANDS_NS: u32 = 3563951787;

/// `flat`.
pub const FLAT: u32 = 1136528313;

/// `address`.
pub const ADDRESS: u32 = 2634772916;

/// `alias`.
pub const ALIAS: u32 = 563171728;

/// `price`.
pub const PRICE: u32 = 3364572809;

/// `balance`.
pub const BALANCE: u32 = 596483356;

/// `settled_ns`.
pub const SETTLED_NS: u32 = 4121765771;

/// `lapsed_ns`.
pub const LAPSED_NS: u32 = 1077829805;

/// `ledger`.
pub const LEDGER: u32 = 2557175209;

/// `rate_bps`.
pub const RATE_BPS: u32 = 34424518;

/// `min_price`.
pub const MIN_PRICE: u32 = 3911590108;

/// `grace_ns`.
pub const GRACE_NS: u32 = 2486123884;

/// `fee`.
pub const FEE: u32 = 5094982;

/// `flat_names_open`.
pub const FLAT_NAMES_OPEN: u32 = 3495048423;

/// `handover_warn_ns`.
pub const HANDOVER_WARN_NS: u32 = 1031256226;

/// `commit_ns`.
pub const COMMIT_NS: u32 = 1808603853;

/// `reveal_ns`.
pub const REVEAL_NS: u32 = 786546039;

/// `reserve`.
pub const RESERVE: u32 = 1623752252;

/// `bidder`.
pub const BIDDER: u32 = 3866219828;

/// `commitment`.
pub const COMMITMENT: u32 = 4041506069;

/// `deposit`.
pub const DEPOSIT: u32 = 1728387934;

/// `committed_ns`.
pub const COMMITTED_NS: u32 = 379683240;

/// `revealed`.
pub const REVEALED: u32 = 1987302572;

/// `params`.
pub const PARAMS: u32 = 3984259910;

/// `opened_ns`.
pub const OPENED_NS: u32 = 1238524763;

/// `bids`.
pub const BIDS: u32 = 1092021526;

/// `auction`.
pub const AUCTION: u32 = 3607851587;

/// `targets`.
pub const TARGETS: u32 = 2288514050;

// --- the types --------------------------------------------------------------------

/// An optional type.
pub open spec fn opt(k: Kind) -> Kind {
    Kind::Opt(Box::new(k))
}

/// The type of lists.
pub open spec fn list(k: Kind) -> Kind {
    Kind::List(Box::new(k))
}

/// The type of pairs.
pub open spec fn pair(first: Kind, second: Kind) -> Kind {
    Kind::Record(seq![(0u32, first), (1u32, second)])
}

/// The type of targets.
pub open spec fn target_kind() -> Kind {
    Kind::Variant(
        seq![
            (ALIAS, Kind::Text),
            (ADDRESS, Kind::Principal),
        ],
    )
}

/// The type of handles.
pub open spec fn handle_kind() -> Kind {
    Kind::Record(
        seq![
            (DEPLOYER, opt(Kind::Principal)),
            (OWNER, Kind::Principal),
        ],
    )
}

/// The type of holdings.
pub open spec fn flat_kind() -> Kind {
    Kind::Record(
        seq![
            (BALANCE, Kind::Nat),
            (LAPSED_NS, opt(Kind::Nat64)),
            (PRICE, Kind::Nat),
            (SETTLED_NS, Kind::Nat64),
        ],
    )
}

/// The type of records.
pub open spec fn record_kind() -> Kind {
    Kind::Record(
        seq![
            (UPDATED_NS, Kind::Nat64),
            (OWNER, Kind::Principal),
            (FLAT, opt(flat_kind())),
            (NAME, Kind::Text),
            (TEXT, list(pair(Kind::Text, Kind::Text))),
            (CREATED_NS, Kind::Nat64),
            (TARGET, target_kind()),
            (CHANGED_HANDS_NS, Kind::Nat64),
            (PREVIOUS_TARGET, opt(target_kind())),
        ],
    )
}

/// The type of the config of the tax.
pub open spec fn tax_kind() -> Kind {
    Kind::Record(
        seq![
            (FEE, Kind::Nat),
            (RATE_BPS, Kind::Nat32),
            (HANDOVER_WARN_NS, Kind::Nat64),
            (GRACE_NS, Kind::Nat64),
            (LEDGER, Kind::Principal),
            (FLAT_NAMES_OPEN, Kind::Bool),
            (MIN_PRICE, Kind::Nat),
        ],
    )
}

/// The type of the config of the tax under schema 2.
pub open spec fn old_tax_kind() -> Kind {
    Kind::Record(
        seq![
            (FEE, Kind::Nat),
            (RATE_BPS, Kind::Nat32),
            (GRACE_NS, Kind::Nat64),
            (LEDGER, Kind::Principal),
            (MIN_PRICE, Kind::Nat),
        ],
    )
}

/// The type of the terms of auctions.
pub open spec fn terms_kind() -> Kind {
    Kind::Record(
        seq![
            (REVEAL_NS, Kind::Nat64),
            (RESERVE, Kind::Nat),
            (COMMIT_NS, Kind::Nat64),
        ],
    )
}

/// The type of bids.
pub open spec fn bid_kind() -> Kind {
    Kind::Record(
        seq![
            (COMMITTED_NS, Kind::Nat64),
            (DEPOSIT, Kind::Nat),
            (REVEALED, opt(Kind::Nat)),
            (BIDDER, Kind::Blob),
            (COMMITMENT, Kind::Blob),
        ],
    )
}

/// The type of auctions.
pub open spec fn auction_kind() -> Kind {
    Kind::Record(
        seq![
            (BIDS, list(bid_kind())),
            (OPENED_NS, Kind::Nat64),
            (PARAMS, terms_kind()),
        ],
    )
}

/// The type of running auctions.
pub open spec fn running_kind() -> Kind {
    Kind::Record(
        seq![
            (TARGETS, list(pair(Kind::Blob, Kind::Text))),
            (AUCTION, auction_kind()),
        ],
    )
}

/// The types that values are stored at.
pub open spec fn stored_form(k: Kind) -> bool {
    ||| k == handle_kind()
    ||| k == record_kind()
    ||| k == tax_kind()
    ||| k == old_tax_kind()
    ||| k == terms_kind()
    ||| k == running_kind()
    ||| k == Kind::Nat
}

/// An optional type.
fn opt_type(t: Type) -> (r: Type)
    ensures
        kind_of(r) == opt(kind_of(t)),
{
    compound_type(CompoundType::Opt(t))
}

/// The type of lists.
fn list_type(t: Type) -> (r: Type)
    ensures
        kind_of(r) == list(kind_of(t)),
{
    compound_type(CompoundType::List(t))
}

/// The type of pairs.
fn pair_type(first: Type, second: Type) -> (r: Type)
    ensures
        kind_of(r) == pair(kind_of(first), kind_of(second)),
{
    let fs: Vec<(u32, Type)> = vec![(0, first), (1, second)];
    assert(kinds_of(fs@) =~= seq![(0u32, kind_of(first)), (1u32, kind_of(second))]);
    compound_type(CompoundType::Record(fs))
}

/// The type of targets.
fn target_type() -> (r: Type)
    ensures
        kind_of(r) == target_kind(),
{
    let fs: Vec<(u32, Type)> = vec![
        (ALIAS, scalar_type(ScalarType::Text)),
        (ADDRESS, scalar_type(ScalarType::Principal)),
    ];
    assert(kinds_of(fs@) =~= target_kind()->Variant_0);
    compound_type(CompoundType::Variant(fs))
}

/// The type of handles.
pub(crate) fn handle_type() -> (r: Type)
    ensures
        kind_of(r) == handle_kind(),
{
    let fs: Vec<(u32, Type)> = vec![
        (DEPLOYER, opt_type(scalar_type(ScalarType::Principal))),
        (OWNER, scalar_type(ScalarType::Principal)),
    ];
    assert(kinds_of(fs@) =~= handle_kind()->Record_0);
    compound_type(CompoundType::Record(fs))
}

/// The type of holdings.
fn flat_type() -> (r: Type)
    ensures
        kind_of(r) == flat_kind(),
{
    let fs: Vec<(u32, Type)> = vec![
        (BALANCE, scalar_type(ScalarType::Nat)),
        (LAPSED_NS, opt_type(scalar_type(ScalarType::Nat64))),
        (PRICE, scalar_type(ScalarType::Nat)),
        (SETTLED_NS, scalar_type(ScalarType::Nat64)),
    ];
    assert(kinds_of(fs@) =~= flat_kind()->Record_0);
    compound_type(CompoundType::Record(fs))
}

/// The type of records.
pub(crate) fn record_type() -> (r: Type)
    ensures
        kind_of(r) == record_kind(),
{
    let fs: Vec<(u32, Type)> = vec![
        (UPDATED_NS, scalar_type(ScalarType::Nat64)),
        (OWNER, scalar_type(ScalarType::Principal)),
        (FLAT, opt_type(flat_type())),
        (NAME, scalar_type(ScalarType::Text)),
        (TEXT, list_type(pair_type(scalar_type(ScalarType::Text), scalar_type(ScalarType::Text)))),
        (CREATED_NS, scalar_type(ScalarType::Nat64)),
        (TARGET, target_type()),
        (CHANGED_HANDS_NS, scalar_type(ScalarType::Nat64)),
        (PREVIOUS_TARGET, opt_type(target_type())),
    ];
    assert(kinds_of(fs@) =~= record_kind()->Record_0);
    compound_type(CompoundType::Record(fs))
}

/// The type of the config of the tax.
pub(crate) fn tax_type() -> (r: Type)
    ensures
        kind_of(r) == tax_kind(),
{
    let fs: Vec<(u32, Type)> = vec![
        (FEE, scalar_type(ScalarType::Nat)),
        (RATE_BPS, scalar_type(ScalarType::Nat32)),
        (HANDOVER_WARN_NS, scalar_type(ScalarType::Nat64)),
        (GRACE_NS, scalar_type(ScalarType::Nat64)),
        (LEDGER, scalar_type(ScalarType::Principal)),
        (FLAT_NAMES_OPEN, scalar_type(ScalarType::Bool)),
        (MIN_PRICE, scalar_type(ScalarType::Nat)),
    ];
    assert(kinds_of(fs@) =~= tax_kind()->Record_0);
    compound_type(CompoundType::Record(fs))
}

/// The type of the config of the tax under schema 2.
pub(crate) fn old_tax_type() -> (r: Type)
    ensures
        kind_of(r) == old_tax_kind(),
{
    let fs: Vec<(u32, Type)> = vec![
        (FEE, scalar_type(ScalarType::Nat)),
        (RATE_BPS, scalar_type(ScalarType::Nat32)),
        (GRACE_NS, scalar_type(ScalarType::Nat64)),
        (LEDGER, scalar_type(ScalarType::Principal)),
        (MIN_PRICE, scalar_type(ScalarType::Nat)),
    ];
    assert(kinds_of(fs@) =~= old_tax_kind()->Record_0);
    compound_type(CompoundType::Record(fs))
}

/// The type of the terms of auctions.
pub(crate) fn terms_type() -> (r: Type)
    ensures
        kind_of(r) == terms_kind(),
{
    let fs: Vec<(u32, Type)> = vec![
        (REVEAL_NS, scalar_type(ScalarType::Nat64)),
        (RESERVE, scalar_type(ScalarType::Nat)),
        (COMMIT_NS, scalar_type(ScalarType::Nat64)),
    ];
    assert(kinds_of(fs@) =~= terms_kind()->Record_0);
    compound_type(CompoundType::Record(fs))
}

/// The type of bids.
fn bid_type() -> (r: Type)
    ensures
        kind_of(r) == bid_kind(),
{
    let fs: Vec<(u32, Type)> = vec![
        (COMMITTED_NS, scalar_type(ScalarType::Nat64)),
        (DEPOSIT, scalar_type(ScalarType::Nat)),
        (REVEALED, opt_type(scalar_type(ScalarType::Nat))),
        (BIDDER, scalar_type(ScalarType::Blob)),
        (COMMITMENT, scalar_type(ScalarType::Blob)),
    ];
    assert(kinds_of(fs@) =~= bid_kind()->Record_0);
    compound_type(CompoundType::Record(fs))
}

/// The type of auctions.
fn auction_type() -> (r: Type)
    ensures
        kind_of(r) == auction_kind(),
{
    let fs: Vec<(u32, Type)> = vec![
        (BIDS, list_type(bid_type())),
        (OPENED_NS, scalar_type(ScalarType::Nat64)),
        (PARAMS, terms_type()),
    ];
    assert(kinds_of(fs@) =~= auction_kind()->Record_0);
    compound_type(CompoundType::Record(fs))
}

/// The type of running auctions.
pub(crate) fn running_type() -> (r: Type)
    ensures
        kind_of(r) == running_kind(),
{
    let fs: Vec<(u32, Type)> = vec![
        (TARGETS, list_type(pair_type(scalar_type(ScalarType::Blob), scalar_type(ScalarType::Text)))),
        (AUCTION, auction_type()),
    ];
    assert(kinds_of(fs@) =~= running_kind()->Record_0);
    compound_type(CompoundType::Record(fs))
}

} // verus!
