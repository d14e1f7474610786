//! Every call that writes, as a step of the registry, and what no call can
//! do: take a handle away, write under somebody else's scoped name, or take
//! a flat name without paying for it.

use vstd::prelude::*;

use crate::auction::{
    bid_placed, close_fault, closed_state, closes_first, is_free, reveal_fault, revealed_auction,
    with_auction,
};
use crate::harberger::{params_of, record_status, settled_record, with_withdrawn};
use crate::ledger::FailureState;
use crate::maps::lookup;
use crate::market::{
    buy_done, buy_stands, claim_done, deposit_done, repriced, sent, set_price_fault, terms_hold,
    BuyState, ClaimState, TopUpState,
};
use crate::names::{
    handle_of, is_flat_name, is_scoped_name, lemma_segment_no_slash, MAX_TEXT_RECORDS,
};
use crate::principal::anonymous;
use crate::record::{HandleState, TargetState};
use crate::registry::{
    admin_fault, announce_fault, announced, delete_fault, deleted, deployer_fault, good_auction,
    good_record, handle_ready, may_announce, pointed, record_fault, register_fault, retexted,
    settled_now, sound, text_fault, with_flat, with_handle, with_record, with_store, Announcement,
    RegistryState,
};
use crate::resolve::keyed_by_name;
use crate::running;
use crate::settings::SettingsState;
use crate::store::{own_handle, StoreState};
use crate::tax::{capped, params_ok, Params};
use crate::treasury::{
    fee_fault, flat_names, fund_done, ledger_fault, rate_settled, settle_each, with_debit,
    withdraw_done, withdraw_fault, FundingState, WithdrawalState,
};
use crate::harberger::{with_config, ConfigState};
use crate::auction::auction_config_fault;
use crate::vickrey::BidState;

verus! {

/// A call that may write.
pub enum Call {
    RegisterHandle { caller: Seq<u8>, handle: Seq<char> },
    SetHandleDeployer { caller: Seq<u8>, handle: Seq<char>, deployer: Option<Seq<u8>> },
    AddDeployer { caller: Seq<u8>, is_controller: bool, p: Seq<u8> },
    RemoveDeployer { caller: Seq<u8>, is_controller: bool, p: Seq<u8> },
    Announce { caller: Seq<u8>, a: Announcement, now: u64 },
    SetRecord { caller: Seq<u8>, name: Seq<char>, target: TargetState, now: u64 },
    SetText {
        caller: Seq<u8>,
        name: Seq<char>,
        key: Seq<char>,
        value: Option<Seq<char>>,
        now: u64,
    },
    DeleteRecord { caller: Seq<u8>, name: Seq<char>, now: u64 },
    SetPrice { caller: Seq<u8>, name: Seq<char>, price: u128, now: u64 },
    /// The first half of a claim, a purchase, a top-up or a funding.
    Send,
    FinishClaim { claim: ClaimState, reply: Result<u128, FailureState>, now: u64 },
    FinishBuy { buy: BuyState, reply: Result<u128, FailureState>, now: u64 },
    FinishDeposit { top_up: TopUpState, reply: Result<u128, FailureState>, now: u64 },
    Withdraw { caller: Seq<u8>, amount: u128 },
    FinishWithdraw { w: WithdrawalState, reply: Result<u128, FailureState> },
    FundFee { f: FundingState, reply: Result<u128, FailureState> },
    FinishFund { f: FundingState, reply: Result<u128, FailureState> },
    SetConfig { c: ConfigState, fee: u128, now: u64 },
    SetAuctionConfig { config: running::Config },
    PlaceBid { name: Seq<char>, bid: BidState, now: u64 },
    RevealBid {
        name: Seq<char>,
        bidder: Seq<u8>,
        amount: u128,
        salt: Seq<u8>,
        alias_to: Seq<char>,
        now: u64,
    },
    CloseAuction { name: Seq<char>, now: u64 },
}

/// Whether a call is one that its first half or its endpoint lets through:
/// a payment of accepted terms, a bid on a flat name.
pub open spec fn proper(call: Call) -> bool {
    match call {
        Call::FinishClaim { claim, .. } => terms_hold(claim.name, claim.target),
        Call::FinishBuy { buy, .. } => terms_hold(buy.name, buy.target),
        Call::FinishDeposit { top_up, .. } => is_flat_name(top_up.name),
        Call::PlaceBid { name, .. } => is_flat_name(name),
        _ => true,
    }
}

/// The registry after a call.
pub open spec fn after(s: RegistryState, call: Call) -> RegistryState {
    let cfg = s.store.settings.config;
    match call {
        Call::RegisterHandle { caller, handle } => if register_fault(
            s.store,
            caller,
            handle,
        ) is None {
            with_handle(s, handle, own_handle(caller))
        } else {
            s
        },
        Call::SetHandleDeployer { caller, handle, deployer } => if deployer_fault(
            s.store,
            caller,
            handle,
            deployer,
        ) is None {
            with_handle(s, handle, HandleState { owner: caller, deployer })
        } else {
            s
        },
        Call::AddDeployer { caller, is_controller, p } => if admin_fault(
            caller,
            is_controller,
        ) is None && p != anonymous() {
            with_store(s, StoreState { deployers: s.store.deployers.insert(p), ..s.store })
        } else {
            s
        },
        Call::RemoveDeployer { caller, is_controller, p } => if admin_fault(
            caller,
            is_controller,
        ) is None && s.store.deployers.contains(p) {
            with_store(s, StoreState { deployers: s.store.deployers.remove(p), ..s.store })
        } else {
            s
        },
        Call::Announce { caller, a, now } => if announce_fault(s.store, caller, a) is Some {
            s
        } else {
            let ready = handle_ready(s, caller, a.name@);
            let record = announced(ready, caller, a, now);
            if record.text.len() > MAX_TEXT_RECORDS {
                ready
            } else {
                with_record(ready, record)
            }
        },
        Call::SetRecord { caller, name, target, now } => if record_fault(
            s.store,
            caller,
            name,
            target,
            now,
        ) is None {
            pointed(s, caller, name, target, now)
        } else {
            s
        },
        Call::SetText { caller, name, key, value, now } => if text_fault(
            s.store,
            caller,
            name,
            key,
            value,
            now,
        ) is None {
            retexted(s, name, key, value, now)
        } else {
            s
        },
        Call::DeleteRecord { caller, name, now } => if delete_fault(
            s.store,
            caller,
            name,
            now,
        ) is None {
            deleted(s, name, now)
        } else {
            s
        },
        Call::SetPrice { caller, name, price, now } => if set_price_fault(
            s.store,
            caller,
            name,
            price,
            now,
        ) is None {
            with_flat(s, name, repriced(settled_now(s.store, name, now), price, now), now)
        } else {
            s
        },
        Call::Send => sent(s),
        Call::FinishClaim { claim, reply, now } => claim_done(s, claim, reply, now),
        Call::FinishBuy { buy, reply, now } => buy_done(s, buy, reply, now),
        Call::FinishDeposit { top_up, reply, now } => deposit_done(s, top_up, reply, now),
        Call::Withdraw { caller, amount } => if withdraw_fault(s.store, caller, amount) is None {
            sent(with_debit(s, caller, amount))
        } else {
            s
        },
        Call::FinishWithdraw { w, reply } => withdraw_done(s, w, reply),
        Call::FundFee { f, reply } => if fee_fault(s.store, f, reply) is None {
            with_store(
                s,
                with_withdrawn(s.store, capped(s.store.settings.tax_withdrawn + f.amount)),
            )
        } else {
            crate::market::landed(s)
        },
        Call::FinishFund { f, reply } => fund_done(s, f, reply),
        Call::SetConfig { c, fee, now } => if ledger_fault(s, c) is Some {
            s
        } else {
            let ready = rate_settled(s, c, now);
            let pinned = ConfigState { fee, ..c };
            if params_ok(params_of(pinned)) {
                with_store(ready, with_config(ready.store, pinned))
            } else {
                ready
            }
        },
        Call::SetAuctionConfig { config } => if auction_config_fault(config) is None {
            with_store(
                s,
                StoreState {
                    settings: SettingsState { auction: config, ..s.store.settings },
                    ..s.store
                },
            )
        } else {
            s
        },
        Call::PlaceBid { name, bid, now } => bid_placed(s, cfg, name, bid, now).1,
        Call::RevealBid { name, bidder, amount, salt, alias_to, now } => if reveal_fault(
            s.store,
            cfg,
            name,
            bidder,
            amount,
            salt,
            now,
        ) is None {
            with_auction(
                s,
                name,
                revealed_auction(s.store.auctions[name], bidder, amount, alias_to),
            )
        } else {
            s
        },
        Call::CloseAuction { name, now } => if close_fault(s.store, cfg, name, now) is None {
            closed_state(s, cfg, name, now)
        } else {
            s
        },
    }
}

// --- handles ------------------------------------------------------------------------------

/// Settling names leaves all but the records and the treasury.
proof fn lemma_settle_each_rest(s: RegistryState, p: Params, names: Seq<Seq<char>>, now: u64)
    ensures
        settle_each(s, p, names, now).store.handles == s.store.handles,
    decreases names.len(),
{
    if names.len() > 0 {
        lemma_settle_each_rest(s, p, names.drop_last(), now);
    }
}

/// A handle is permanent: no call takes it away or gives it to another
/// owner.
pub proof fn law_handles_are_permanent(s: RegistryState, call: Call, handle: Seq<char>)
    requires
        s.store.handles.contains_key(handle),
    ensures
        after(s, call).store.handles.contains_key(handle),
        after(s, call).store.handles[handle].owner == s.store.handles[handle].owner,
{
    match call {
        Call::SetConfig { c, fee, now } => {
            let current = s.store.settings.config;
            lemma_settle_each_rest(s, params_of(current), flat_names(s.store), now);
        },
        _ => {},
    }
}

// --- scoped names -------------------------------------------------------------------------------

/// Whether a call may write the record of a scoped name: its caller owns the
/// handle, or is a listed deployer that may announce under it.
pub open spec fn may_write(s: StoreState, call: Call, name: Seq<char>) -> bool {
    let handle = handle_of(name);
    match call {
        Call::SetRecord { caller, name: n, .. } => n == name && owns_handle(s, caller, handle),
        Call::SetText { caller, name: n, .. } => n == name && owns_handle(s, caller, handle),
        Call::DeleteRecord { caller, name: n, .. } => n == name && owns_handle(s, caller, handle),
        Call::Announce { caller, a, .. } => a.name@ == name && s.deployers.contains(caller)
            && may_announce(s, caller, handle),
        _ => false,
    }
}

/// Whether a caller owns a handle.
pub open spec fn owns_handle(s: StoreState, caller: Seq<u8>, handle: Seq<char>) -> bool {
    s.handles.contains_key(handle) && s.handles[handle].owner == caller
}

/// Settling names leaves records without a holding as they are.
proof fn lemma_settle_each_scoped(
    s: RegistryState,
    p: Params,
    names: Seq<Seq<char>>,
    now: u64,
    name: Seq<char>,
)
    requires
        keyed_by_name(s.store),
        s.store.records.contains_key(name) ==> s.store.records[name].flat is None,
    ensures
        lookup(settle_each(s, p, names, now).store.records, name) == lookup(
            s.store.records,
            name,
        ),
        keyed_by_name(settle_each(s, p, names, now).store),
    decreases names.len(),
{
    if names.len() > 0 {
        lemma_settle_each_scoped(s, p, names.drop_last(), now, name);
        let t = settle_each(s, p, names.drop_last(), now);
        let n = names.last();
        if t.store.records.contains_key(n) {
            assert(t.store.records[n].name == n);
            assert(settled_record(p, t.store.records[n], now).name == n);
        }
    }
}

/// Scoped names are never for sale: the record of one changes only by a call
/// of its handle's owner or of a deployer that may announce under it.
/// Claims, purchases, auctions, top-ups, payouts and config changes leave
/// every scoped name as it is.
pub proof fn law_scoped_names_are_their_owners(s: RegistryState, call: Call, name: Seq<char>)
    requires
        sound(s),
        proper(call),
        is_scoped_name(name),
    ensures
        lookup(after(s, call).store.records, name) != lookup(s.store.records, name) ==> may_write(
            s.store,
            call,
            name,
        ),
{
    let cfg = s.store.settings.config;
    assert(keyed_by_name(s.store)) by {
        assert forall|n: Seq<char>| #[trigger] s.store.records.contains_key(
            n,
        ) implies s.store.records[n].name == n by {
            assert(good_record(s.store.handles, n, s.store.records[n]));
        }
    }
    if s.store.records.contains_key(name) {
        assert(good_record(s.store.handles, name, s.store.records[name]));
    }
    match call {
        Call::SetRecord { caller, name: n, target, now } => {
            if record_fault(s.store, caller, n, target, now) is None && s.store.records.contains_key(
                n,
            ) {
                assert(s.store.records[n].name == n);
            }
        },
        Call::SetText { caller, name: n, key, value, now } => {
            if text_fault(s.store, caller, n, key, value, now) is None {
                assert(s.store.records.contains_key(n));
                assert(s.store.records[n].name == n);
            }
        },
        Call::DeleteRecord { caller, name: n, now } => {},
        Call::SetPrice { caller, name: n, price, now } => {
            if set_price_fault(s.store, caller, n, price, now) is None {
                lemma_segment_no_slash(n);
                assert(s.store.records[n].name == n);
            }
        },
        Call::FinishClaim { claim, reply, now } => {
            lemma_segment_no_slash(claim.name);
            if s.store.records.contains_key(claim.name) {
                assert(s.store.records[claim.name].name == claim.name);
            }
        },
        Call::FinishBuy { buy, reply, now } => {
            lemma_segment_no_slash(buy.name);
            if s.store.records.contains_key(buy.name) {
                assert(s.store.records[buy.name].name == buy.name);
            }
        },
        Call::FinishDeposit { top_up, reply, now } => {
            lemma_segment_no_slash(top_up.name);
            if s.store.records.contains_key(top_up.name) {
                assert(s.store.records[top_up.name].name == top_up.name);
            }
        },
        Call::SetConfig { c, fee, now } => {
            lemma_settle_each_scoped(s, params_of(cfg), flat_names(s.store), now, name);
        },
        Call::PlaceBid { name: n, bid, now } => {
            lemma_segment_no_slash(n);
            if s.store.records.contains_key(n) {
                assert(s.store.records[n].name == n);
            }
        },
        Call::CloseAuction { name: n, now } => {
            if close_fault(s.store, cfg, n, now) is None {
                assert(good_auction(n, s.store.auctions[n]));
                lemma_segment_no_slash(n);
                if s.store.records.contains_key(n) {
                    assert(s.store.records[n].name == n);
                }
            }
        },
        Call::Announce { caller, a, now } => {
            if announce_fault(s.store, caller, a) is None && s.store.records.contains_key(a.name@) {
                assert(s.store.records[a.name@].name == a.name@);
            }
        },
        _ => {},
    }
}

// --- flat names ----------------------------------------------------------------------------------

/// Settling names keeps every record with its owner.
proof fn lemma_settle_each_owners(
    s: RegistryState,
    p: Params,
    names: Seq<Seq<char>>,
    now: u64,
    name: Seq<char>,
)
    requires
        keyed_by_name(s.store),
        s.store.records.contains_key(name),
    ensures
        ({
            let t = settle_each(s, p, names, now);
            &&& t.store.records.contains_key(name)
            &&& t.store.records[name].owner == s.store.records[name].owner
            &&& keyed_by_name(t.store)
        }),
    decreases names.len(),
{
    if names.len() > 0 {
        lemma_settle_each_owners(s, p, names.drop_last(), now, name);
        let t = settle_each(s, p, names.drop_last(), now);
        let n = names.last();
        if t.store.records.contains_key(n) {
            assert(t.store.records[n].name == n);
            assert(settled_record(p, t.store.records[n], now).name == n);
        }
    }
}

/// Whether a call may give a held flat name another owner: a paid purchase
/// of an offer that still stands, or a claim or an auction once the grace
/// period is over.
pub open spec fn may_hand_over(s: StoreState, call: Call, name: Seq<char>) -> bool {
    match call {
        Call::FinishClaim { claim, reply, now } => claim.name == name && reply is Ok
            && record_status(params_of(claim.cfg), s.records[name], now) is Free,
        Call::FinishBuy { buy, reply, now } => buy.name == name && reply is Ok && buy_stands(
            s,
            buy,
            now,
        ),
        Call::PlaceBid { name: n, now, .. } => n == name && closes_first(s, name, now) && is_free(
            s,
            s.settings.config,
            name,
            now,
        ),
        Call::CloseAuction { name: n, now } => n == name && is_free(
            s,
            s.settings.config,
            name,
            now,
        ),
        _ => false,
    }
}

/// Whether a call releases a flat name: a deletion by its owner.
pub open spec fn releases(s: StoreState, call: Call, name: Seq<char>) -> bool {
    match call {
        Call::DeleteRecord { caller, name: n, .. } => n == name && s.records[name].owner == caller,
        _ => false,
    }
}

/// A flat name leaves its holder only by a paid purchase at the price the
/// buyer accepted, by a claim or an auction once its grace period is over,
/// or by the holder's own release.
pub proof fn law_flat_names_are_held(s: RegistryState, call: Call, name: Seq<char>)
    requires
        sound(s),
        proper(call),
        s.store.records.contains_key(name),
        !name.contains('/'),
    ensures
        ({
            let t = after(s, call).store;
            if t.records.contains_key(name) {
                t.records[name].owner != s.store.records[name].owner ==> may_hand_over(
                    s.store,
                    call,
                    name,
                )
            } else {
                releases(s.store, call, name)
            }
        }),
{
    let cfg = s.store.settings.config;
    assert(keyed_by_name(s.store)) by {
        assert forall|n: Seq<char>| #[trigger] s.store.records.contains_key(
            n,
        ) implies s.store.records[n].name == n by {
            assert(good_record(s.store.handles, n, s.store.records[n]));
        }
    }
    let was = s.store.records[name];
    assert(good_record(s.store.handles, name, was));
    match call {
        Call::SetRecord { caller, name: n, target, now } => {
            if s.store.records.contains_key(n) {
                assert(s.store.records[n].name == n);
            }
        },
        Call::SetText { caller, name: n, key, value, now } => {
            if text_fault(s.store, caller, n, key, value, now) is None {
                assert(s.store.records.contains_key(n));
                assert(s.store.records[n].name == n);
            }
        },
        Call::SetPrice { caller, name: n, price, now } => {
            if set_price_fault(s.store, caller, n, price, now) is None {
                assert(s.store.records[n].name == n);
            }
        },
        Call::FinishClaim { claim, reply, now } => {
            if s.store.records.contains_key(claim.name) {
                assert(s.store.records[claim.name].name == claim.name);
            }
        },
        Call::FinishBuy { buy, reply, now } => {
            if s.store.records.contains_key(buy.name) {
                assert(s.store.records[buy.name].name == buy.name);
            }
        },
        Call::FinishDeposit { top_up, reply, now } => {
            if s.store.records.contains_key(top_up.name) {
                assert(s.store.records[top_up.name].name == top_up.name);
            }
        },
        Call::SetConfig { c, fee, now } => {
            lemma_settle_each_owners(s, params_of(cfg), flat_names(s.store), now, name);
        },
        Call::PlaceBid { name: n, bid, now } => {
            if s.store.records.contains_key(n) {
                assert(s.store.records[n].name == n);
            }
        },
        Call::CloseAuction { name: n, now } => {
            if s.store.records.contains_key(n) {
                assert(s.store.records[n].name == n);
            }
        },
        Call::Announce { caller, a, now } => {
            if announce_fault(s.store, caller, a) is None && s.store.records.contains_key(a.name@) {
                assert(s.store.records[a.name@].name == a.name@);
            }
        },
        _ => {},
    }
}

} // verus!
