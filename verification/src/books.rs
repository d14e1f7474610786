//! The books: what the registry owes and holds adds up to what its ledger
//! account was paid and paid out, to the cycle.
//!
//! Prepaid balances, credits, escrowed deposits and collected tax that was
//! not withdrawn all sit in one ledger account. Their sum changes by what a
//! call pulls in or pays out, and by nothing else.

use vstd::prelude::*;

use crate::auction::{
    auction_for, bid_placed, close_fault, close_terms, closed_state, closes_first, forfeits,
    kept_of, opening_of, paid_out, refund_of, revealed_auction, with_auction, won_record,
    CloseTerms,
};
use crate::harberger::{
    params_of, record_status, record_tax, settled_record, with_tax, with_withdrawn, ConfigState,
};
use crate::ledger::{nothing_moved_by, FailureState};
use crate::maps::{as_nats, owed, with_owed};
use crate::market::{
    buy_done, buy_stands, buy_total, claim_done, claim_stands, claimed_record, deposit_done,
    deposit_stands, repriced, sent, set_price_fault, snapshot_of, BuyState, ClaimState, TopUpState,
};
use crate::order::lemma_texts_listed;
use crate::record::{RecordState, TargetState};
use crate::registry::{
    delete_fault, deleted, good_auction, good_record, pointed, record_fault, retexted, settled_now,
    sound, text_fault, with_flat, with_record, with_store, RegistryState,
};
use crate::resolve::keyed_by_name;
use crate::running::{deposits_of, escrow_of, escrows, RunningState};
use crate::store::{credited, StoreState};
use crate::sums::{lemma_sum_take, lemma_total_insert, sum_of, total_of};
use crate::tax::{capped, lapsed_empty, lemma_settled, Params};
use crate::treasury::{
    flat_names, fund_done, fundable, lemma_flat_names, nothing_held, settle_each, settle_one,
    with_debit, withdraw_done, withdraw_fault, FundingState, WithdrawalState,
};
use crate::vickrey::{
    bid_of, bids_with, committed, fair, law_highest_bid_wins, law_winner_pays_second_price,
    lemma_bid_of, outcome_of, settlement_of, winning, BidState, SettlementState,
};

verus! {

// --- what the books hold ------------------------------------------------------------------

/// The prepaid balance of a record.
pub open spec fn balance_of(r: RecordState) -> nat {
    match r.flat {
        Some(h) => h.balance as nat,
        None => 0,
    }
}

/// The prepaid balances of records.
pub open spec fn balances(records: Map<Seq<char>, RecordState>) -> Map<Seq<char>, nat> {
    records.map_values(|r: RecordState| balance_of(r))
}

/// The prepaid balance of a name, 0 where it has no record.
pub open spec fn balance_at(records: Map<Seq<char>, RecordState>, name: Seq<char>) -> nat {
    if records.contains_key(name) {
        balance_of(records[name])
    } else {
        0
    }
}

/// Prepaid balances, credits, escrowed deposits and all tax ever collected.
pub open spec fn assets(s: StoreState) -> nat {
    total_of(balances(s.records)) + total_of(as_nats(s.credits)) + escrow_of(s)
        + s.settings.tax_collected as nat
}

/// What the ledger account has to hold.
pub open spec fn books(s: StoreState) -> int {
    assets(s) - s.settings.tax_withdrawn
}

/// Whether the maps are finite and what they add up to, with `more`, is an
/// amount: no sum in the books meets the end of the number range.
pub open spec fn has_room(s: StoreState, more: int) -> bool {
    &&& s.records.dom().finite()
    &&& s.credits.dom().finite()
    &&& s.auctions.dom().finite()
    &&& assets(s) + more <= u128::MAX
}

// --- one entry at a time --------------------------------------------------------------------

/// Writing a record replaces its balance in the books.
proof fn lemma_write(records: Map<Seq<char>, RecordState>, r: RecordState)
    requires
        records.dom().finite(),
    ensures
        total_of(balances(records.insert(r.name, r))) == total_of(balances(records)) - balance_at(
            records,
            r.name,
        ) + balance_of(r),
        balance_at(records, r.name) <= total_of(balances(records)),
{
    let m = balances(records);
    assert(m.dom() =~= records.dom());
    assert(balances(records.insert(r.name, r)) =~= m.insert(r.name, balance_of(r)));
    lemma_total_insert(m, r.name, balance_of(r));
}

/// Removing a record takes its balance from the books.
proof fn lemma_erase(records: Map<Seq<char>, RecordState>, name: Seq<char>)
    requires
        records.dom().finite(),
    ensures
        total_of(balances(records.remove(name))) == total_of(balances(records)) - balance_at(
            records,
            name,
        ),
        balance_at(records, name) <= total_of(balances(records)),
{
    let m = balances(records);
    assert(m.dom() =~= records.dom());
    assert(balances(records.remove(name)) =~= m.remove(name));
    lemma_total_insert(m, name, 0);
}

/// Nobody is owed more than all are.
proof fn lemma_owed(m: Map<Seq<u8>, u128>, p: Seq<u8>)
    requires
        m.dom().finite(),
    ensures
        owed(m, p) <= total_of(as_nats(m)),
{
    assert(as_nats(m).dom() =~= m.dom());
    lemma_total_insert(as_nats(m), p, 0);
}

/// Setting what is owed to one principal changes the sum by the difference.
proof fn lemma_set_owed(m: Map<Seq<u8>, u128>, p: Seq<u8>, amount: u128)
    requires
        m.dom().finite(),
    ensures
        total_of(as_nats(with_owed(m, p, amount))) == total_of(as_nats(m)) - owed(m, p) + amount,
        owed(m, p) <= total_of(as_nats(m)),
        with_owed(m, p, amount).dom().finite(),
{
    let n = as_nats(m);
    assert(n.dom() =~= m.dom());
    lemma_total_insert(n, p, amount as nat);
    if amount == 0 {
        assert(as_nats(m.remove(p)) =~= n.remove(p));
    } else {
        assert(as_nats(m.insert(p, amount)) =~= n.insert(p, amount as nat));
    }
}

/// A credit adds its amount to the sum.
proof fn lemma_credited(m: Map<Seq<u8>, u128>, p: Seq<u8>, amount: u128)
    requires
        m.dom().finite(),
        total_of(as_nats(m)) + amount <= u128::MAX,
    ensures
        total_of(as_nats(credited(m, p, amount))) == total_of(as_nats(m)) + amount,
        credited(m, p, amount).dom().finite(),
{
    lemma_owed(m, p);
    lemma_set_owed(m, p, capped(owed(m, p) + amount));
}

/// What settling leaves of a balance and what it takes are the balance.
proof fn lemma_tax_taken(p: Params, r: RecordState, now: u64)
    ensures
        balance_of(settled_record(p, r, now)) + record_tax(p, r, now) == balance_of(r),
{
    if r.flat is Some {
        lemma_settled(p, r.flat->0, now);
    }
}

/// A record whose grace period is over has nothing left once settled.
proof fn lemma_free_is_empty(p: Params, r: RecordState, now: u64)
    requires
        r.flat matches Some(h) && lapsed_empty(h),
        record_status(p, r, now) is Free,
    ensures
        balance_of(settled_record(p, r, now)) == 0,
        record_tax(p, r, now) == balance_of(r),
{
    lemma_settled(p, r.flat->0, now);
}

/// A settled record written with its tax counted: the tax moves from the
/// balance to the treasury, and whatever else the balance gains is new.
proof fn lemma_commit(s: RegistryState, p: Params, r: RecordState, now: u64)
    requires
        has_room(s.store, 0),
        s.store.records.contains_key(r.name),
    ensures
        ({
            let was = s.store.records[r.name];
            let tax = record_tax(p, was, now);
            let t = with_record(with_store(s, with_tax(s.store, tax)), r);
            assets(t.store) == assets(s.store) - balance_of(settled_record(p, was, now))
                + balance_of(r)
        }),
{
    let was = s.store.records[r.name];
    lemma_write(s.store.records, r);
    lemma_tax_taken(p, was, now);
}

// --- what holders write ------------------------------------------------------------------------

/// Repointing a name, setting or clearing a text record and reassessing a
/// flat name move tax from balances to the treasury and nothing else.
pub proof fn law_holder_writes_keep_the_books(
    s: RegistryState,
    caller: Seq<u8>,
    name: Seq<char>,
    target: TargetState,
    key: Seq<char>,
    value: Option<Seq<char>>,
    price: u128,
    now: u64,
)
    requires
        sound(s),
        has_room(s.store, 0),
    ensures
        record_fault(s.store, caller, name, target, now) is None ==> books(
            pointed(s, caller, name, target, now).store,
        ) == books(s.store),
        text_fault(s.store, caller, name, key, value, now) is None ==> books(
            retexted(s, name, key, value, now).store,
        ) == books(s.store),
        set_price_fault(s.store, caller, name, price, now) is None ==> books(
            with_flat(s, name, repriced(settled_now(s.store, name, now), price, now), now).store,
        ) == books(s.store),
{
    let p = params_of(s.store.settings.config);
    if s.store.records.contains_key(name) {
        let was = s.store.records[name];
        let r = settled_now(s.store, name, now);
        assert(good_record(s.store.handles, name, was));
        let a = RecordState { target, updated_ns: now, ..r };
        let b = RecordState {
            text: crate::registry::text_after(r.text, key, value),
            updated_ns: now,
            ..r
        };
        let c = repriced(r, price, now);
        lemma_commit(s, p, a, now);
        lemma_commit(s, p, b, now);
        lemma_commit(s, p, c, now);
        assert(balance_of(a) == balance_of(r));
        assert(balance_of(b) == balance_of(r));
        assert(balance_of(c) == balance_of(r));
        let d = RecordState { target, updated_ns: now, ..was };
        lemma_write(s.store.records, d);
        assert(balance_of(d) == balance_of(was));
    } else {
        lemma_write(s.store.records, crate::record::fresh_record(name, caller, target, now));
    }
}

/// Releasing a flat name turns its unspent balance into a credit of its
/// owner.
pub proof fn law_release_keeps_the_books(
    s: RegistryState,
    caller: Seq<u8>,
    name: Seq<char>,
    now: u64,
)
    requires
        sound(s),
        has_room(s.store, 0),
        delete_fault(s.store, caller, name, now) is None,
    ensures
        books(deleted(s, name, now).store) == books(s.store),
{
    let p = params_of(s.store.settings.config);
    let was = s.store.records[name];
    assert(s.store.records.contains_key(name));
    assert(good_record(s.store.handles, name, was));
    lemma_erase(s.store.records, name);
    lemma_tax_taken(p, was, now);
    let r = settled_now(s.store, name, now);
    if !name.contains('/') {
        lemma_credited(s.store.credits, r.owner, r.flat->0.balance);
    }
}

// --- payments ------------------------------------------------------------------------------------

/// What a pull brings in: the amount, where the ledger says it moved it.
pub open spec fn pulled(reply: Result<u128, FailureState>, amount: u128) -> int {
    match reply {
        Ok(_) => amount as int,
        Err(_) => 0,
    }
}

/// A claim adds the deposit it pulled, as a balance or as a credit back.
pub proof fn law_claim_keeps_the_books(
    s: RegistryState,
    c: ClaimState,
    reply: Result<u128, FailureState>,
    now: u64,
)
    requires
        sound(s),
        has_room(s.store, c.deposit as int),
    ensures
        books(claim_done(s, c, reply, now).store) == books(s.store) + pulled(reply, c.deposit),
{
    let p = params_of(c.cfg);
    if reply is Ok {
        if claim_stands(s.store, c, now) {
            let r = claimed_record(s.store, c, now);
            lemma_write(s.store.records, r);
            if s.store.records.contains_key(c.name) {
                let was = s.store.records[c.name];
                assert(good_record(s.store.handles, c.name, was));
                if was.flat is Some {
                    assert(snapshot_of(s.store, p, c.name, now) is Some);
                    lemma_free_is_empty(p, was, now);
                }
            }
        } else {
            lemma_credited(s.store.credits, c.caller, c.deposit);
        }
    }
}

/// A purchase adds what it pulled: the price to the seller's credit, the
/// deposit as the new balance; or all of it as a credit back.
pub proof fn law_buy_keeps_the_books(
    s: RegistryState,
    b: BuyState,
    reply: Result<u128, FailureState>,
    now: u64,
)
    requires
        sound(s),
        has_room(s.store, b.before.price + b.deposit),
    ensures
        books(buy_done(s, b, reply, now).store) == books(s.store) + pulled(reply, buy_total(b)),
{
    let p = params_of(b.cfg);
    if reply is Ok {
        if buy_stands(s.store, b, now) {
            let was = s.store.records[b.name];
            assert(good_record(s.store.handles, b.name, was));
            let r = settled_record(p, was, now);
            lemma_tax_taken(p, was, now);
            lemma_settled(p, was.flat->0, now);
            let share = (b.before.price + r.flat->0.balance) as u128;
            let out = crate::market::handed_over(
                r,
                b.caller,
                b.target,
                crate::market::holding(b.price, b.deposit, now),
                now,
            );
            lemma_write(s.store.records, out);
            lemma_credited(s.store.credits, was.owner, share);
        } else {
            lemma_credited(s.store.credits, b.caller, buy_total(b));
        }
    }
}

/// A top-up adds the amount it pulled, to the balance or as a credit back.
pub proof fn law_deposit_keeps_the_books(
    s: RegistryState,
    t: TopUpState,
    reply: Result<u128, FailureState>,
    now: u64,
)
    requires
        sound(s),
        has_room(s.store, t.amount as int),
    ensures
        books(deposit_done(s, t, reply, now).store) == books(s.store) + pulled(reply, t.amount),
{
    let p = params_of(t.cfg);
    if reply is Ok {
        if deposit_stands(s.store, t, now) {
            let was = s.store.records[t.name];
            assert(good_record(s.store.handles, t.name, was));
            let r = settled_record(p, was, now);
            lemma_tax_taken(p, was, now);
            lemma_write(s.store.records, crate::market::deposited(r, t.amount, now));
        } else {
            lemma_credited(s.store.credits, t.caller, t.amount);
        }
    }
}

/// A withdrawal takes its amount from the books when it is sent.
pub proof fn law_withdrawal_leaves_the_books(s: RegistryState, caller: Seq<u8>, amount: u128)
    requires
        has_room(s.store, 0),
        withdraw_fault(s.store, caller, amount) is None,
    ensures
        books(sent(with_debit(s, caller, amount)).store) == books(s.store) - amount,
{
    lemma_owed(s.store.credits, caller);
    lemma_set_owed(
        s.store.credits,
        caller,
        (owed(s.store.credits, caller) - amount) as u128,
    );
}

/// What comes back of a payout: the amount, where the ledger certainly moved
/// nothing.
pub open spec fn returned(reply: Result<u128, FailureState>, amount: u128) -> int {
    match reply {
        Err(f) if nothing_moved_by(f) => amount as int,
        _ => 0,
    }
}

/// The answer to a withdrawal gives the amount back to the books only where
/// the ledger certainly paid nothing.
pub proof fn law_failed_withdrawal_returns(
    s: RegistryState,
    w: WithdrawalState,
    reply: Result<u128, FailureState>,
)
    requires
        has_room(s.store, w.amount as int),
    ensures
        books(withdraw_done(s, w, reply).store) == books(s.store) + returned(reply, w.amount),
{
    lemma_credited(s.store.credits, w.caller, w.amount);
}

/// Turning tax into cycles takes its amount from the books when it is sent.
/// Collected tax covers it: balances, credits and escrow are not touched,
/// and no more is withdrawn than was collected.
pub proof fn law_funding_leaves_the_books(s: StoreState, fee: u128, amount: u128)
    requires
        fundable(s, fee, amount),
    ensures
        ({
            let noted = with_withdrawn(s, capped(s.settings.tax_withdrawn + amount));
            &&& books(noted) == books(s) - amount
            &&& noted.settings.tax_withdrawn <= noted.settings.tax_collected
            &&& noted.records == s.records
            &&& noted.credits == s.credits
            &&& noted.auctions == s.auctions
        }),
{
}

/// The answer to a funding gives the amount back to the books only where the
/// ledger certainly moved nothing.
pub proof fn law_failed_funding_returns(
    s: RegistryState,
    f: FundingState,
    reply: Result<u128, FailureState>,
)
    requires
        s.store.settings.tax_withdrawn >= f.amount,
    ensures
        books(fund_done(s, f, reply).store) == books(s.store) + returned(reply, f.amount),
{
}

// --- settling every name -------------------------------------------------------------------------

/// Settling names moves tax from balances to the treasury and nothing else.
pub proof fn law_settling_keeps_the_books(
    s: RegistryState,
    p: Params,
    names: Seq<Seq<char>>,
    now: u64,
)
    requires
        keyed_by_name(s.store),
        has_room(s.store, 0),
    ensures
        books(settle_each(s, p, names, now).store) == books(s.store),
        has_room(settle_each(s, p, names, now).store, 0),
        keyed_by_name(settle_each(s, p, names, now).store),
    decreases names.len(),
{
    if names.len() > 0 {
        law_settling_keeps_the_books(s, p, names.drop_last(), now);
        let t = settle_each(s, p, names.drop_last(), now);
        let n = names.last();
        lemma_settle_one(t, p, n, now);
    }
}

proof fn lemma_settle_one(s: RegistryState, p: Params, name: Seq<char>, now: u64)
    requires
        keyed_by_name(s.store),
        has_room(s.store, 0),
    ensures
        assets(settle_one(s, p, name, now).store) == assets(s.store),
        settle_one(s, p, name, now).store.settings.tax_withdrawn
            == s.store.settings.tax_withdrawn,
        has_room(settle_one(s, p, name, now).store, 0),
        keyed_by_name(settle_one(s, p, name, now).store),
{
    if s.store.records.contains_key(name) {
        let r = settled_record(p, s.store.records[name], now);
        assert(r.name == name);
        lemma_commit(s, p, r, now);
    }
}

// --- auctions ------------------------------------------------------------------------------------

/// The sum of a list without one element.
proof fn lemma_sum_remove(s: Seq<nat>, i: int)
    requires
        0 <= i < s.len(),
    ensures
        sum_of(s.remove(i)) + s[i] == sum_of(s),
    decreases s.len(),
{
    if i == s.len() - 1 {
        assert(s.remove(i) =~= s.drop_last());
    } else {
        lemma_sum_remove(s.drop_last(), i);
        assert(s.remove(i).drop_last() =~= s.drop_last().remove(i));
        assert(s.remove(i).last() == s.last());
    }
}

/// The sum of a list with one more element.
proof fn lemma_sum_push(s: Seq<nat>, n: nat)
    ensures
        sum_of(s.push(n)) == sum_of(s) + n,
{
    assert(s.push(n).drop_last() =~= s);
}

/// Writing an auction replaces its deposits in the escrow.
proof fn lemma_escrow_write(m: Map<Seq<char>, RunningState>, name: Seq<char>, r: RunningState)
    requires
        m.dom().finite(),
    ensures
        total_of(escrows(m.insert(name, r))) == total_of(escrows(m)) - escrow_at(m, name) + sum_of(
            deposits_of(r.auction.bids),
        ),
        total_of(escrows(m.remove(name))) == total_of(escrows(m)) - escrow_at(m, name),
        escrow_at(m, name) <= total_of(escrows(m)),
{
    let e = escrows(m);
    let v = sum_of(deposits_of(r.auction.bids));
    assert(e.dom() =~= m.dom());
    assert(escrows(m.insert(name, r)) =~= e.insert(name, v));
    assert(escrows(m.remove(name)) =~= e.remove(name));
    lemma_total_insert(e, name, v);
}

/// What the auction of a name holds in escrow, 0 where there is none.
pub open spec fn escrow_at(m: Map<Seq<char>, RunningState>, name: Seq<char>) -> nat {
    if m.contains_key(name) {
        sum_of(deposits_of(m[name].auction.bids))
    } else {
        0
    }
}

/// A commitment adds its deposit to the escrow and takes the bidder's
/// earlier one out.
proof fn lemma_commit_escrow(bids: Seq<BidState>, bid: BidState)
    ensures
        sum_of(deposits_of(bids_with(bids, bid))) == sum_of(deposits_of(bids)) + bid.deposit - if bid_of(
            bids,
            bid.bidder,
        ) < bids.len() {
            bids[bid_of(bids, bid.bidder)].deposit as int
        } else {
            0
        },
{
    let k = bid_of(bids, bid.bidder);
    let d = deposits_of(bids);
    lemma_bid_of(bids, bid.bidder);
    if k < bids.len() {
        lemma_sum_remove(d, k);
        lemma_sum_push(d.remove(k), bid.deposit as nat);
        assert(deposits_of(bids_with(bids, bid)) =~= d.remove(k).push(bid.deposit as nat));
    } else {
        lemma_sum_push(d, bid.deposit as nat);
        assert(deposits_of(bids_with(bids, bid)) =~= d.push(bid.deposit as nat));
    }
}

/// What the settlements of the first `i` bids credit.
spec fn refunds(t: CloseTerms, settlements: Seq<SettlementState>) -> Seq<nat> {
    settlements.map_values(|x: SettlementState| refund_of(t, x) as nat)
}

/// What one bid's deposit becomes is the deposit: a refund, a forfeit, or
/// for the winner an opening balance and the price.
proof fn lemma_settlement(t: CloseTerms, bids: Seq<BidState>, reserve: u128, i: int)
    requires
        fair(bids),
        0 <= i < bids.len(),
        t.ranked_first == crate::vickrey::winner_of(bids, reserve),
        t.second_price == crate::vickrey::price_of(bids, reserve),
        t.winner is None || t.winner == t.ranked_first,
    ensures
        ({
            let x = settlement_of(bids[i], t.ranked_first, t.second_price);
            refund_of(t, x) + x.forfeited + if t.winner == Some(bids[i].bidder) {
                kept_of(t, x) + t.second_price
            } else {
                0
            } == bids[i].deposit
        }),
{
    law_highest_bid_wins(bids, reserve);
    law_winner_pays_second_price(bids, reserve);
    if t.ranked_first == Some(bids[i].bidder) {
        let w = winning(bids, reserve)->0;
        assert(bids[w].bidder == bids[i].bidder);
        if w < i {
            assert(bids[w].bidder != bids[i].bidder);
        } else if i < w {
            assert(bids[i].bidder != bids[w].bidder);
        }
        assert(bids[i].revealed->0 <= bids[i].deposit);
    }
}

/// What the first `n` bids' deposits become is those deposits.
proof fn lemma_settlements(t: CloseTerms, bids: Seq<BidState>, reserve: u128, w: int, n: int)
    requires
        fair(bids),
        0 <= n <= bids.len(),
        t.ranked_first == crate::vickrey::winner_of(bids, reserve),
        t.second_price == crate::vickrey::price_of(bids, reserve),
        t.winner is None || t.winner == t.ranked_first,
        t.winner matches Some(b) ==> 0 <= w < bids.len() && bids[w].bidder == b,
    ensures
        ({
            let all = bids.map_values(
                |b: BidState| settlement_of(b, t.ranked_first, t.second_price),
            );
            let part = all.take(n);
            sum_of(refunds(t, part)) + sum_of(forfeits(part)) + opening_of(t, part)
                + if t.winner is Some && w < n {
                t.second_price as int
            } else {
                0
            } == sum_of(deposits_of(bids).take(n))
        }),
        t.winner is Some && w >= n ==> opening_of(
            t,
            bids.map_values(
                |b: BidState| settlement_of(b, t.ranked_first, t.second_price),
            ).take(n),
        ) == 0,
        t.winner is None ==> opening_of(
            t,
            bids.map_values(
                |b: BidState| settlement_of(b, t.ranked_first, t.second_price),
            ).take(n),
        ) == 0,
    decreases n,
{
    let all = bids.map_values(|b: BidState| settlement_of(b, t.ranked_first, t.second_price));
    let d = deposits_of(bids);
    if n == 0 {
        assert(refunds(t, all.take(0)) =~= Seq::<nat>::empty());
        assert(forfeits(all.take(0)) =~= Seq::<nat>::empty());
        assert(d.take(0) =~= Seq::<nat>::empty());
    } else {
        lemma_settlements(t, bids, reserve, w, n - 1);
        lemma_settlement(t, bids, reserve, n - 1);
        let part = all.take(n);
        let x = all[n - 1];
        assert(part.drop_last() =~= all.take(n - 1));
        assert(part.last() == x);
        assert(refunds(t, part).drop_last() =~= refunds(t, all.take(n - 1)));
        assert(forfeits(part).drop_last() =~= forfeits(all.take(n - 1)));
        lemma_sum_take(d, n - 1);
        if t.winner is Some {
            if w == n - 1 {
                assert(t.winner == Some(x.bidder));
            } else if w < n - 1 {
                assert(bids[w].bidder != bids[n - 1].bidder);
            } else {
                assert(bids[n - 1].bidder != bids[w].bidder);
            }
        }
    }
}

/// Paying settlements out adds their refunds to the credits.
proof fn lemma_paid_out(m: Map<Seq<u8>, u128>, t: CloseTerms, settlements: Seq<SettlementState>)
    requires
        m.dom().finite(),
        total_of(as_nats(m)) + sum_of(refunds(t, settlements)) <= u128::MAX,
    ensures
        total_of(as_nats(paid_out(m, t, settlements))) == total_of(as_nats(m)) + sum_of(
            refunds(t, settlements),
        ),
        paid_out(m, t, settlements).dom().finite(),
    decreases settlements.len(),
{
    if settlements.len() > 0 {
        let rest = settlements.drop_last();
        let all = refunds(t, settlements);
        assert(all.drop_last() =~= refunds(t, rest));
        lemma_paid_out(m, t, rest);
        lemma_credited(
            paid_out(m, t, rest),
            settlements.last().bidder,
            refund_of(t, settlements.last()),
        );
    }
}

/// Closing an auction turns every escrowed deposit into credits, the
/// winner's opening balance and proceeds of the treasury, to the cycle.
pub proof fn law_close_keeps_the_books(s: RegistryState, c: ConfigState, name: Seq<char>, now: u64)
    requires
        sound(s),
        has_room(s.store, 0),
        close_fault(s.store, c, name, now) is None,
    ensures
        books(closed_state(s, c, name, now).store) == books(s.store),
        has_room(closed_state(s, c, name, now).store, 0),
{
    let t = close_terms(s.store, c, name, now);
    let r = s.store.auctions[name];
    let bids = r.auction.bids;
    let reserve = r.auction.params.reserve;
    let o = outcome_of(r.auction);
    let all = o.settlements;
    let n = bids.len() as int;
    assert(good_auction(name, r));
    law_highest_bid_wins(bids, reserve);
    let w = if t.winner is Some {
        winning(bids, reserve)->0
    } else {
        0
    };
    lemma_settlements(t, bids, reserve, w, n);
    assert(all.take(n) =~= all);
    assert(deposits_of(bids).take(n) =~= deposits_of(bids));
    let paid = sum_of(refunds(t, all));
    let lost = sum_of(forfeits(all));
    lemma_escrow_write(s.store.auctions, name, r);
    lemma_paid_out(s.store.credits, t, all);
    if t.winner is Some {
        let won = won_record(s.store, c, name, now);
        let p = params_of(c);
        lemma_write(s.store.records, won);
        if s.store.records.contains_key(name) {
            let was = s.store.records[name];
            assert(good_record(s.store.handles, name, was));
            if was.flat is Some {
                lemma_free_is_empty(p, was, now);
            }
        }
    }
}

/// A commitment adds the deposit pulled for it to the escrow, less the
/// replaced earlier one, which is credited back. A refused bid leaves the
/// books as they were.
pub proof fn law_bid_keeps_the_books(
    s: RegistryState,
    c: ConfigState,
    name: Seq<char>,
    bid: BidState,
    now: u64,
)
    requires
        sound(s),
        has_room(s.store, bid.deposit as int),
    ensures
        ({
            let (r, after) = bid_placed(s, c, name, bid, now);
            books(after.store) == books(s.store) + match r {
                Ok(Some(replaced)) => bid.deposit - replaced,
                Ok(None) => bid.deposit as int,
                Err(_) => 0,
            }
        }),
{
    let ended = closes_first(s.store, name, now);
    if ended && close_fault(s.store, c, name, now) is None {
        law_close_keeps_the_books(s, c, name, now);
    }
    if !(ended && close_fault(s.store, c, name, now) is Some) {
        let t = if ended {
            closed_state(s, c, name, now)
        } else {
            s
        };
        let running = auction_for(t.store, c, name, now);
        let after = RunningState { auction: committed(running.auction, bid), ..running };
        lemma_commit_escrow(running.auction.bids, bid);
        lemma_escrow_write(t.store.auctions, name, after);
        if !t.store.auctions.contains_key(name) {
            assert(deposits_of(running.auction.bids) =~= Seq::<nat>::empty());
        }
    }
}

/// A reveal moves nothing.
pub proof fn law_reveal_keeps_the_books(
    s: RegistryState,
    name: Seq<char>,
    bidder: Seq<u8>,
    amount: u128,
    alias_to: Seq<char>,
)
    requires
        has_room(s.store, 0),
        s.store.auctions.contains_key(name),
        bid_of(s.store.auctions[name].auction.bids, bidder)
            < s.store.auctions[name].auction.bids.len(),
    ensures
        books(
            with_auction(
                s,
                name,
                revealed_auction(s.store.auctions[name], bidder, amount, alias_to),
            ).store,
        ) == books(s.store),
{
    let r = s.store.auctions[name];
    let after = revealed_auction(r, bidder, amount, alias_to);
    lemma_bid_of(r.auction.bids, bidder);
    lemma_escrow_write(s.store.auctions, name, after);
    assert(deposits_of(after.auction.bids) =~= deposits_of(r.auction.bids));
}

// --- an empty account ---------------------------------------------------------------------------

/// A map of zeros adds up to nothing.
proof fn lemma_total_zero(m: Map<Seq<char>, nat>)
    requires
        forall|k: Seq<char>| #[trigger] m.contains_key(k) ==> m[k] == 0,
    ensures
        total_of(m) == 0,
    decreases m.dom().len(),
{
    if m.dom().finite() && m.dom().len() > 0 {
        let k = m.dom().choose();
        assert(m.dom().contains(k));
        assert(m.contains_key(k));
        let rest = m.remove(k);
        assert(rest.dom() =~= m.dom().remove(k));
        lemma_total_zero(rest);
    }
}

/// Where nothing is held, nothing is owed: a ledger change, which is refused
/// otherwise, strands nothing.
pub proof fn law_nothing_held_means_nothing_owed(s: RegistryState)
    requires
        sound(s),
        s.store.records.dom().finite(),
        nothing_held(s),
        s.store.settings.tax_withdrawn <= s.store.settings.tax_collected,
    ensures
        books(s.store) == 0,
{
    let records = s.store.records;
    assert(keyed_by_name(s.store)) by {
        assert forall|n: Seq<char>| #[trigger] records.contains_key(n) implies records[n].name
            == n by {
            assert(good_record(s.store.handles, n, records[n]));
        }
    }
    lemma_texts_listed(records.dom());
    lemma_flat_names(s.store);
    let m = balances(records);
    assert forall|k: Seq<char>| #[trigger] m.contains_key(k) implies m[k] == 0 by {
        assert(records.contains_key(k));
        if records[k].flat is Some {
            assert(flat_names(s.store).contains(k));
        }
    }
    lemma_total_zero(m);
}

} // verus!
