//! Sealed-bid auctions for free flat names.
//!
//! A flat name nobody holds (never taken, released, or lapsed past its
//! grace period) goes to a Vickrey auction rather than to whoever calls
//! first. The first commitment on a free name opens the auction: bidders
//! commit a hash with an escrowed deposit, reveal amount and salt in the
//! reveal phase, and anyone may close the auction once that is over. No
//! timers: an ended auction waits until someone closes it, or until the next
//! bid on the name closes it first.
//!
//! The winner pays the second-highest revealed bid (or the reserve) and
//! holds the name under the Harberger tax, assessed at their own bid. So a
//! reveal must leave room in the deposit for one grace period of tax at the
//! bid, which becomes the name's opening balance; the rest of the winner's
//! deposit is credited back. Losers are credited their deposits. The price
//! and any forfeited deposit (an unrevealed commitment) go to the treasury.

use vstd::prelude::*;
use vstd::slice::slice_to_vec;
use vstd::view::View as _;

use crate::harberger;
use crate::harberger::{params_of, record_status, record_tax, settled_record, with_tax, ConfigState};
use crate::maps::{lookup, owed, views};
use crate::market::{hand_over, handed_over, held, holding, lemma_handed_over_sound};
use crate::names::{is_flat_name, is_scoped_name};
use crate::order::{lemma_texts_listed, text_before, texts_in_order};
use crate::principal::{Principal, MAX_PRINCIPAL};
use crate::record::{fresh_record, Record, RecordState, Target, TargetState};
use crate::registry::{
    commit_flat, good_auction, good_record, has_target, sound, with_record, with_store, Registry, RegistryState,
};
use crate::running::{bidders_fit, target_states, RunningState};
use crate::settings::SettingsState;
use crate::store;
use crate::store::{credited, Store, StoreState};
use crate::sums::{lemma_sum_take, sum_of};
use crate::tax::{
    capped, capped_ns, least, least_deposit, lemma_grace_is_small, lemma_tax_over, params_ok,
    status_at, taken, Harberger, Status, MAX_PRICE,
};
use crate::text::{decimal, decimal_text, join2, join3, join4, same_bytes, seen, texts};
use crate::vickrey;
use crate::vickrey::{
    bid_of, bid_states, bids_with, commit_end, commit_error, commit_ok, commitment_hash, committed,
    fair, law_highest_bid_wins, law_winner_pays_second_price, lemma_bid_of, lemma_commit_fair, outcome_of, phase_at, replaced_deposit,
    reveal_end, reveal_error, revealed_by, AuctionState, BidState, Params, Phase, SealedAuction,
    SettlementState,
};

pub use crate::running::{escrow_of, escrowed, Config, Running};

verus! {

// --- config -------------------------------------------------------------------------------

/// The stored config, or the default when none was ever set.
pub fn config(store: &Store) -> (r: Config)
    ensures
        r == store@.settings.auction,
{
    store.settings.auction_config()
}

/// Why a config is refused.
pub open spec fn auction_config_fault(c: Config) -> Option<Seq<char>> {
    if c.commit_ns == 0 || c.reveal_ns == 0 {
        Some("commit_ns and reveal_ns must be positive"@)
    } else if c.reserve > MAX_PRICE {
        Some("reserve above the maximum price of "@ + decimal(MAX_PRICE as nat))
    } else {
        None
    }
}

/// Applies to auctions opened from here on; a running auction keeps the
/// phases and reserve it opened with.
pub fn set_config(store: &mut Store, c: Config) -> (r: Result<(), String>)
    ensures
        r is Ok <==> auction_config_fault(c) is None,
        r matches Err(e) ==> auction_config_fault(c) == Some(e@),
        r is Ok ==> final(store)@ == (StoreState {
            settings: (SettingsState { auction: c, ..old(store)@.settings }),
            ..old(store)@
        }),
        r is Err ==> final(store)@ == old(store)@,
{
    if c.commit_ns == 0 || c.reveal_ns == 0 {
        return Err("commit_ns and reveal_ns must be positive".to_string());
    }
    if c.reserve > MAX_PRICE {
        return Err(
            join2("reserve above the maximum price of ", decimal_text(MAX_PRICE).as_str()),
        );
    }
    store.settings.set_auction_config(&c);
    Ok(())
}

/// The reserve a new auction opens with.
pub open spec fn opening_reserve(c: ConfigState, a: Config) -> u128 {
    if a.reserve >= c.min_price {
        a.reserve
    } else {
        c.min_price
    }
}

/// The reserve a new auction opens with.
fn reserve(cfg: &harberger::Config, a: &Config) -> (r: u128)
    ensures
        r == opening_reserve(cfg@, *a),
{
    if a.reserve >= cfg.min_price {
        a.reserve
    } else {
        cfg.min_price
    }
}

// --- proceeds -----------------------------------------------------------------------------

/// Auction prices and forfeited deposits so far. Also counted in the
/// treasury's collected total, which fund_self spends against.
pub fn proceeds(store: &Store) -> (r: u128)
    ensures
        r == store@.settings.proceeds,
{
    store.settings.proceeds()
}

/// The registry with proceeds added to both counters.
pub open spec fn with_proceeds(s: StoreState, amount: u128) -> StoreState {
    with_tax(
        StoreState {
            settings: SettingsState {
                proceeds: capped(s.settings.proceeds + amount),
                ..s.settings
            },
            ..s
        },
        amount,
    )
}

/// Count proceeds.
fn note_proceeds(store: &mut Store, amount: u128)
    ensures
        final(store)@ == with_proceeds(old(store)@, amount),
{
    if amount > 0 {
        let n: u128 = proceeds(store);
        store.settings.set_proceeds(n.saturating_add(amount));
        harberger::note_tax_collected(store, amount);
    }
}

// --- bidding ------------------------------------------------------------------------------

/// Who holds `name` at `now`, if anyone. A lapsed record is held by no one.
pub open spec fn holder_of(s: StoreState, c: ConfigState, name: Seq<char>, now: u64) -> Option<
    Seq<u8>,
> {
    if s.records.contains_key(name) && record_status(params_of(c), s.records[name], now) !is Free {
        Some(s.records[name].owner)
    } else {
        None
    }
}

/// Who holds `name` at `now`, if anyone.
fn holder(store: &Store, cfg: &harberger::Config, name: &str, now: u64) -> (r: Option<Principal>)
    ensures
        seen(r) == holder_of(store@, cfg@, name@, now),
{
    let mut r = match store::get_record(store, name) {
        Some(r) => r,
        None => {
            return None;
        },
    };
    let (status, _) = harberger::settle_record(cfg, &mut r, now);
    match status {
        Status::Free => None,
        _ => Some(r.owner),
    }
}

/// The reserve that a bid on a name has to meet at `now`, or why no bid is
/// accepted.
pub open spec fn bid_terms(s: StoreState, c: ConfigState, name: Seq<char>, now: u64) -> Result<
    u128,
    Seq<char>,
> {
    match lookup(s.auctions, name) {
        Some(r) => match phase_at(r.auction, now) {
            Phase::Commit => Ok(r.auction.params.reserve),
            Phase::Reveal => Err(
                "bidding on '"@ + name + "' is over; its reveal phase runs until "@ + decimal(
                    reveal_end(r.auction) as nat,
                ),
            ),
            Phase::Closed => if outcome_of(r.auction).winner is Some {
                Err(
                    "the auction for '"@ + name
                        + "' has a winner; close_auction hands the name over"@,
                )
            } else {
                Ok(opening_reserve(c, s.settings.auction))
            },
        },
        None => match holder_of(s, c, name, now) {
            Some(owner) => Err(held(name, owner)),
            None => Ok(opening_reserve(c, s.settings.auction)),
        },
    }
}

/// Why a bid with a deposit is refused.
pub open spec fn bid_fault(
    s: StoreState,
    c: ConfigState,
    name: Seq<char>,
    deposit: u128,
    now: u64,
) -> Option<Seq<char>> {
    match bid_terms(s, c, name, now) {
        Err(e) => Some(e),
        Ok(reserve) => if deposit < reserve {
            Some(
                "deposit must be at least the reserve of "@ + decimal(reserve as nat)
                    + " cycles"@,
            )
        } else {
            None
        },
    }
}

/// Would a commitment with `deposit` be accepted at `now`? Changes nothing,
/// so a bid endpoint can ask before it pulls the deposit.
pub fn check_bid(store: &Store, cfg: &harberger::Config, name: &str, deposit: u128, now: u64) -> (r:
    Result<(), String>)
    ensures
        r is Ok <==> bid_fault(store@, cfg@, name@, deposit, now) is None,
        r matches Err(e) ==> bid_fault(store@, cfg@, name@, deposit, now) == Some(e@),
{
    let least: u128 = match store.auctions.get(name) {
        Some(r) => match r.auction.phase(now) {
            Phase::Commit => r.auction.params.reserve,
            Phase::Reveal => {
                return Err(
                    join4(
                        "bidding on '",
                        name,
                        "' is over; its reveal phase runs until ",
                        decimal_text(r.auction.reveal_until_ns() as u128).as_str(),
                    ),
                );
            },
            Phase::Closed => {
                let o = match r.auction.outcome(now) {
                    Ok(o) => o,
                    Err(e) => {
                        return Err(e);
                    },
                };
                if o.winner.is_some() {
                    return Err(
                        join3(
                            "the auction for '",
                            name,
                            "' has a winner; close_auction hands the name over",
                        ),
                    );
                }
                reserve(cfg, &config(store))
            },
        },
        None => {
            match holder(store, cfg, name, now) {
                Some(owner) => {
                    return Err(join4("'", name, "' is owned by ", owner.to_text().as_str()));
                },
                None => {},
            }
            reserve(cfg, &config(store))
        },
    };
    if deposit < least {
        return Err(
            join3(
                "deposit must be at least the reserve of ",
                decimal_text(least).as_str(),
                " cycles",
            ),
        );
    }
    Ok(())
}

/// The registry with an auction stored.
pub open spec fn with_auction(s: RegistryState, name: Seq<char>, r: RunningState) -> RegistryState {
    with_store(s, StoreState { auctions: s.store.auctions.insert(name, r), ..s.store })
}

/// The registry without an auction.
pub open spec fn without_auction(s: RegistryState, name: Seq<char>) -> RegistryState {
    with_store(s, StoreState { auctions: s.store.auctions.remove(name), ..s.store })
}

/// A fresh auction for a name.
pub open spec fn opened_auction(s: StoreState, c: ConfigState, now: u64) -> RunningState {
    RunningState {
        auction: AuctionState {
            params: Params {
                commit_ns: s.settings.auction.commit_ns,
                reveal_ns: s.settings.auction.reveal_ns,
                reserve: opening_reserve(c, s.settings.auction),
            },
            opened_ns: now,
            bids: Seq::empty(),
        },
        targets: Seq::empty(),
    }
}

/// The auction that a bid goes to: the running one, or a fresh one.
pub open spec fn auction_for(s: StoreState, c: ConfigState, name: Seq<char>, now: u64) -> RunningState {
    match lookup(s.auctions, name) {
        Some(r) => r,
        None => opened_auction(s, c, now),
    }
}

/// The bid of a commitment.
pub open spec fn fresh_bid(bidder: Seq<u8>, hash: Seq<u8>, deposit: u128, now: u64) -> BidState {
    BidState { bidder, commitment: hash, deposit, committed_ns: now, revealed: None }
}

/// Whether a bid closes an ended auction first.
pub open spec fn closes_first(s: StoreState, name: Seq<char>, now: u64) -> bool {
    s.auctions.contains_key(name) && phase_at(s.auctions[name].auction, now) is Closed
}

/// What placing a bid gives: the deposit of the bidder's replaced earlier
/// commitment, or why the bid is refused, and the registry after it.
pub open spec fn bid_placed(
    s: RegistryState,
    c: ConfigState,
    name: Seq<char>,
    bid: BidState,
    now: u64,
) -> (Result<Option<u128>, Seq<char>>, RegistryState) {
    let ended = closes_first(s.store, name, now);
    if ended && close_fault(s.store, c, name, now) is Some {
        (Err(close_fault(s.store, c, name, now)->0), s)
    } else {
        let t = if ended {
            closed_state(s, c, name, now)
        } else {
            s
        };
        let running = auction_for(t.store, c, name, now);
        if bid_fault(t.store, c, name, bid.deposit, now) is Some {
            (Err(bid_fault(t.store, c, name, bid.deposit, now)->0), t)
        } else if !commit_ok(running.auction, bid.deposit, now) {
            (Err(commit_error(running.auction, now)), t)
        } else {
            (
                Ok(replaced_deposit(running.auction, bid.bidder)),
                with_auction(
                    t,
                    name,
                    RunningState { auction: committed(running.auction, bid), ..running },
                ),
            )
        }
    }
}

/// A replaced deposit or a refusal, by its contents.
pub open spec fn placed_result(r: Result<Option<u128>, String>) -> Result<Option<u128>, Seq<char>> {
    match r {
        Ok(d) => Ok(d),
        Err(e) => Err(e@),
    }
}

/// Bids with one more are of principals if they were and it is.
proof fn lemma_committed_fit(a: AuctionState, bid: BidState, targets: Seq<(Seq<u8>, Seq<char>)>)
    requires
        bidders_fit(RunningState { auction: a, targets }),
        bid.bidder.len() <= MAX_PRINCIPAL,
    ensures
        bidders_fit(RunningState { auction: committed(a, bid), targets }),
{
    let before = RunningState { auction: a, targets };
    let after = committed(a, bid);
    lemma_bid_of(a.bids, bid.bidder);
    assert forall|i: int| 0 <= i < after.bids.len() implies (#[trigger] after.bids[i]).bidder.len()
        <= MAX_PRINCIPAL by {
        let k = bid_of(a.bids, bid.bidder);
        if i < after.bids.len() - 1 {
            if k < a.bids.len() && i >= k {
                assert(after.bids[i] == a.bids[i + 1]);
                assert(before.auction.bids[i + 1].bidder.len() <= MAX_PRINCIPAL);
            } else {
                assert(after.bids[i] == a.bids[i]);
                assert(before.auction.bids[i].bidder.len() <= MAX_PRINCIPAL);
            }
        }
    }
}

/// A commitment keeps an auction good.
proof fn lemma_commit_good(name: Seq<char>, r: RunningState, bid: BidState, runs: bool)
    requires
        is_flat_name(name),
        runs ==> good_auction(name, r),
        !runs ==> r.auction.bids.len() == 0 && r.targets.len() == 0,
        bid.revealed is None,
    ensures
        good_auction(name, RunningState { auction: committed(r.auction, bid), ..r }),
{
    let bids = r.auction.bids;
    let after = RunningState { auction: committed(r.auction, bid), ..r };
    lemma_commit_fair(bids, bid);
    assert forall|i: int|
        0 <= i < after.auction.bids.len() && (#[trigger] after.auction.bids[i]).revealed
            is Some implies has_target(after.targets, after.auction.bids[i].bidder) by {
        assert(bids.contains(after.auction.bids[i]));
        let k = choose|k: int| 0 <= k < bids.len() && bids[k] == after.auction.bids[i];
        assert(has_target(r.targets, bids[k].bidder));
    }
}

/// A reveal keeps an auction good.
proof fn lemma_reveal_good(
    name: Seq<char>,
    r: RunningState,
    bidder: Seq<u8>,
    amount: u128,
    alias_to: Seq<char>,
)
    requires
        good_auction(name, r),
        bid_of(r.auction.bids, bidder) < r.auction.bids.len(),
        amount <= r.auction.bids[bid_of(r.auction.bids, bidder)].deposit,
        is_scoped_name(alias_to),
    ensures
        good_auction(name, revealed_auction(r, bidder, amount, alias_to)),
{
    let after = revealed_auction(r, bidder, amount, alias_to);
    let bids = r.auction.bids;
    let at = bid_of(bids, bidder);
    let keep = of_others(bidder);
    let kept = r.targets.filter(keep);
    lemma_bid_of(bids, bidder);
    assert forall|i: int| 0 <= i < after.targets.len() implies is_scoped_name(
        (#[trigger] after.targets[i]).1,
    ) by {
        if i < kept.len() {
            assert(after.targets[i] == kept[i]);
            assert(kept.contains(kept[i]));
            r.targets.lemma_filter_contains_rev(keep, kept[i]);
            let k = choose|k: int| 0 <= k < r.targets.len() && r.targets[k] == kept[i];
            assert(is_scoped_name(r.targets[k].1));
        }
    }
    assert forall|i: int|
        0 <= i < after.auction.bids.len() && (#[trigger] after.auction.bids[i]).revealed
            is Some implies has_target(after.targets, after.auction.bids[i].bidder) by {
        if i == at {
            assert(after.targets[kept.len() as int].0 == bidder);
        } else {
            assert(after.auction.bids[i] == bids[i]);
            assert(bids[i].bidder != bidder) by {
                if i < at {
                    assert(bids[i].bidder != bids[at].bidder);
                } else {
                    assert(bids[at].bidder != bids[i].bidder);
                }
            }
            assert(has_target(r.targets, bids[i].bidder));
            let k = choose|k: int|
                0 <= k < r.targets.len() && (#[trigger] r.targets[k]).0 == bids[i].bidder;
            r.targets.lemma_filter_contains(keep, k);
            let e = choose|e: int| 0 <= e < kept.len() && kept[e] == r.targets[k];
            assert(after.targets[e] == kept[e]);
        }
    }
    assert(fair(after.auction.bids)) by {
        assert forall|i: int, j: int|
            0 <= i < j < after.auction.bids.len() implies (#[trigger] after.auction.bids[i]).bidder
            != (#[trigger] after.auction.bids[j]).bidder by {
            assert(bids[i].bidder != bids[j].bidder);
        }
        assert forall|i: int| 0 <= i < after.auction.bids.len() implies ((
        #[trigger] after.auction.bids[i]).revealed matches Some(a) ==> a
            <= after.auction.bids[i].deposit) by {
            if i != at {
                assert(after.auction.bids[i] == bids[i]);
            }
        }
    }
}

/// Record a commitment whose deposit has been pulled. Opens an auction when
/// none is running, closing an ended one first. Returns the deposit of the
/// bidder's replaced earlier commitment, for the caller to credit back. On
/// Err nothing about this bid was stored and the caller credits the deposit
/// back.
pub fn place_bid(
    reg: &mut Registry,
    cfg: &harberger::Config,
    name: &str,
    bidder: &Principal,
    commitment: [u8; 32],
    deposit: u128,
    now: u64,
) -> (r: Result<Option<u128>, String>)
    ensures
        ({
            let want = bid_placed(
                old(reg)@,
                cfg@,
                name@,
                fresh_bid(bidder@, commitment@, deposit, now),
                now,
            );
            placed_result(r) == want.0 && final(reg)@ == want.1
        }),
        sound(old(reg)@) && is_flat_name(name@) ==> sound(final(reg)@),
        sound(old(reg)@) && is_flat_name(name@) ==> (r matches Ok(d) ==> stands(
            old(reg)@,
            final(reg)@,
            cfg@,
            name@,
            (BidState {
                bidder: bidder@,
                commitment: commitment@,
                deposit,
                committed_ns: now,
                revealed: None,
            }),
            d,
            now,
        )),
{
    let ghost s = reg@;
    proof {
        if sound(s) && is_flat_name(name@) {
            lemma_stands(s, cfg@, name@, bidder@, commitment@, deposit, now);
        }
    }
    let ended = match reg.store.auctions.get(name) {
        Some(r) => match r.auction.phase(now) {
            Phase::Closed => true,
            _ => false,
        },
        None => false,
    };
    if ended {
        match close(reg, cfg, name, now) {
            Err(e) => {
                return Err(e);
            },
            Ok(_) => {},
        }
    }
    let ghost t = reg@;
    match check_bid(&reg.store, cfg, name, deposit, now) {
        Err(e) => {
            return Err(e);
        },
        Ok(_) => {},
    }
    let mut r = match reg.store.auctions.get(name) {
        Some(r) => r,
        None => {
            let a = config(&reg.store);
            let params = Params {
                commit_ns: a.commit_ns,
                reveal_ns: a.reveal_ns,
                reserve: reserve(cfg, &a),
            };
            let fresh = Running { auction: SealedAuction::open(params, now), targets: Vec::new() };
            assert(fresh@.targets =~= Seq::<(Seq<u8>, Seq<char>)>::empty());
            fresh
        },
    };
    let ghost running = auction_for(t.store, cfg@, name@, now);
    assert(r@ =~= running);
    bidder.bounded();
    let replaced = match r.auction.commit(now, bidder.to_vec(), commitment, deposit) {
        Err(e) => {
            return Err(e);
        },
        Ok(d) => d,
    };
    proof {
        lemma_committed_fit(
            running.auction,
            fresh_bid(bidder@, commitment@, deposit, now),
            running.targets,
        );
    }
    reg.store.auctions.insert(name, &r);
    proof {
        let after = RunningState {
            auction: committed(
                running.auction,
                fresh_bid(bidder@, commitment@, deposit, now),
            ),
            ..running
        };
        assert(r@ == after);
        assert(reg@ == with_auction(t, name@, after));
        if sound(s) && is_flat_name(name@) {
            assert(sound(t));
            lemma_commit_good(
                name@,
                running,
                fresh_bid(bidder@, commitment@, deposit, now),
                t.store.auctions.contains_key(name@),
            );
            assert(sound(reg@));
        }
    }
    Ok(replaced)
}

// --- revealing ----------------------------------------------------------------------------

/// What a deposit must cover for a bid: the bid and one grace period of tax
/// at it.
pub open spec fn cover(c: ConfigState, amount: u128) -> u128 {
    capped(amount + least_deposit(params_of(c), amount))
}

/// Why a reveal is refused.
pub open spec fn reveal_fault(
    s: StoreState,
    c: ConfigState,
    name: Seq<char>,
    bidder: Seq<u8>,
    amount: u128,
    salt: Seq<u8>,
    now: u64,
) -> Option<Seq<char>> {
    if !s.auctions.contains_key(name) {
        Some("no auction for '"@ + name + "'"@)
    } else {
        let a = s.auctions[name].auction;
        let deposit = a.bids[bid_of(a.bids, bidder)].deposit;
        if reveal_error(a, now, bidder, amount, salt) is Some {
            reveal_error(a, now, bidder, amount, salt)
        } else if amount > MAX_PRICE {
            Some("bid above the maximum price of "@ + decimal(MAX_PRICE as nat) + " cycles"@)
        } else if deposit < cover(c, amount) {
            Some(
                "the deposit of "@ + decimal(deposit as nat)
                    + " cycles must cover the bid plus one grace period of tax at it: "@ + decimal(
                    cover(c, amount) as nat,
                ),
            )
        } else {
            None
        }
    }
}

/// Picks the targets of other bidders.
pub open spec fn of_others(bidder: Seq<u8>) -> spec_fn((Seq<u8>, Seq<char>)) -> bool {
    |e: (Seq<u8>, Seq<char>)| e.0 != bidder
}

/// The targets with that of one bidder set.
pub open spec fn retargeted(
    targets: Seq<(Seq<u8>, Seq<char>)>,
    bidder: Seq<u8>,
    alias_to: Seq<char>,
) -> Seq<(Seq<u8>, Seq<char>)> {
    targets.filter(of_others(bidder)).push((bidder, alias_to))
}

/// An auction after a reveal.
pub open spec fn revealed_auction(
    r: RunningState,
    bidder: Seq<u8>,
    amount: u128,
    alias_to: Seq<char>,
) -> RunningState {
    RunningState {
        auction: revealed_by(r.auction, bidder, amount),
        targets: retargeted(r.targets, bidder, alias_to),
    }
}

/// Set the target of one bidder.
fn set_target(targets: &Vec<(Vec<u8>, String)>, bidder: &[u8], alias_to: String) -> (r: Vec<
    (Vec<u8>, String),
>)
    ensures
        target_states(r@) == retargeted(target_states(targets@), bidder@, alias_to@),
{
    let ghost all = target_states(targets@);
    let ghost keep = of_others(bidder@);
    let mut out: Vec<(Vec<u8>, String)> = Vec::new();
    let mut i: usize = 0;
    proof {
        reveal(Seq::filter);
        assert(all.take(0) =~= Seq::<(Seq<u8>, Seq<char>)>::empty());
        assert(target_states(out@) =~= all.take(0).filter(keep));
    }
    while i < targets.len()
        invariant
            i <= targets@.len(),
            all == target_states(targets@),
            keep == of_others(bidder@),
            target_states(out@) == all.take(i as int).filter(keep),
        decreases targets.len() - i,
    {
        let ghost next = all.take(i + 1);
        let ghost before = out@;
        proof {
            assert(next.drop_last() =~= all.take(i as int));
            assert(next.last() == (targets@[i as int].0@, targets@[i as int].1@));
            reveal(Seq::filter);
        }
        if !same_bytes(targets[i].0.as_slice(), bidder) {
            out.push((slice_to_vec(targets[i].0.as_slice()), targets[i].1.clone()));
            assert(target_states(out@) =~= target_states(before).push(all[i as int]));
        }
        i += 1;
    }
    assert(all.take(i as int) =~= all);
    let ghost before = out@;
    out.push((slice_to_vec(bidder), alias_to));
    assert(target_states(out@) =~= target_states(before).push((bidder@, alias_to@)));
    out
}

/// Open the caller's commitment. `alias_to` is where the name points if this
/// bid wins; the caller has checked it is a scoped name. The bid becomes the
/// assessed price, so it must fit the tax's range and leave one grace period
/// of tax in the deposit.
pub fn reveal_bid(
    reg: &mut Registry,
    cfg: &harberger::Config,
    name: &str,
    bidder: &Principal,
    amount: u128,
    salt: &[u8],
    alias_to: String,
    now: u64,
) -> (r: Result<(), String>)
    ensures
        r is Ok <==> reveal_fault(old(reg)@.store, cfg@, name@, bidder@, amount, salt@, now) is None,
        r matches Err(e) ==> reveal_fault(
            old(reg)@.store,
            cfg@,
            name@,
            bidder@,
            amount,
            salt@,
            now,
        ) == Some(e@),
        r is Ok ==> final(reg)@ == with_auction(
            old(reg)@,
            name@,
            revealed_auction(old(reg)@.store.auctions[name@], bidder@, amount, alias_to@),
        ),
        r is Err ==> final(reg)@ == old(reg)@,
        sound(old(reg)@) && is_scoped_name(alias_to@) ==> sound(final(reg)@),
        sound(old(reg)@) && r is Ok ==> is_revealed(
            old(reg)@,
            final(reg)@,
            name@,
            bidder@,
            amount,
            alias_to@,
        ),
{
    let ghost s = reg@;
    proof {
        if sound(s) {
            law_reveals_count(s, cfg@, name@, bidder@, amount, salt@, alias_to@, now);
        }
    }
    let mut r = match reg.store.auctions.get(name) {
        Some(r) => r,
        None => {
            return Err(join3("no auction for '", name, "'"));
        },
    };
    let ghost was = r@;
    let at = r.auction.position(bidder.as_slice());
    let deposit: u128 = match at {
        Some(i) => r.auction.bids[i].deposit,
        None => 0,
    };
    match r.auction.reveal_bid(now, bidder.as_slice(), amount, salt) {
        Err(e) => {
            return Err(e);
        },
        Ok(_) => {},
    }
    proof {
        lemma_bid_of(was.auction.bids, bidder@);
        assert(deposit == was.auction.bids[bid_of(was.auction.bids, bidder@)].deposit);
        lemma_tax_over(params_of(cfg@), amount, cfg@.grace_ns as int);
    }
    if amount > MAX_PRICE {
        return Err(
            join3(
                "bid above the maximum price of ",
                decimal_text(MAX_PRICE).as_str(),
                " cycles",
            ),
        );
    }
    let need: u128 = amount.saturating_add(harberger::min_deposit(cfg, amount));
    if deposit < need {
        return Err(
            join4(
                "the deposit of ",
                decimal_text(deposit).as_str(),
                " cycles must cover the bid plus one grace period of tax at it: ",
                decimal_text(need).as_str(),
            ),
        );
    }
    r.targets = set_target(&r.targets, bidder.as_slice(), alias_to);
    proof {
        let after = revealed_auction(was, bidder@, amount, alias_to@);
        assert(r@ == after);
        assert(bidders_fit(after)) by {
            assert forall|i: int| 0 <= i < after.auction.bids.len() implies (
            #[trigger] after.auction.bids[i]).bidder.len() <= MAX_PRINCIPAL by {
                assert(was.auction.bids[i].bidder.len() <= MAX_PRINCIPAL);
            }
        }
    }
    reg.store.auctions.insert(name, &r);
    proof {
        let after = revealed_auction(was, bidder@, amount, alias_to@);
        if sound(s) && is_scoped_name(alias_to@) {
            assert(good_auction(name@, was));
            lemma_reveal_good(name@, was, bidder@, amount, alias_to@);
            assert(r@ == after);
            assert(reg@ == with_auction(s, name@, after));
            assert(sound(reg@));
        }
    }
    Ok(())
}

// --- closing ------------------------------------------------------------------------------

/// What closing an auction did.
#[derive(Debug, PartialEq, Eq)]
pub struct Closed {
    /// The new holder, or None when no revealed bid met the reserve.
    pub winner: Option<Principal>,
    /// What the winner paid, cycles; 0 when nobody won.
    pub price: u128,
    /// The winner's assessed price from here on: their own bid.
    pub assessed: u128,
    /// Kept from unrevealed commitments.
    pub forfeited: u128,
}

/// The first target of a bidder.
pub open spec fn target_of(targets: Seq<(Seq<u8>, Seq<char>)>, bidder: Seq<u8>) -> Option<Seq<char>>
    decreases targets.len(),
{
    if targets.len() == 0 {
        None
    } else if targets[0].0 == bidder {
        Some(targets[0].1)
    } else {
        target_of(targets.drop_first(), bidder)
    }
}

/// Whether a name has no holder at `now`.
pub open spec fn is_free(s: StoreState, c: ConfigState, name: Seq<char>, now: u64) -> bool {
    holder_of(s, c, name, now) is None
}

/// Who wins an auction: nobody where something gave the name a holder while
/// it ran.
pub open spec fn close_winner(s: StoreState, c: ConfigState, name: Seq<char>, now: u64) -> Option<
    Seq<u8>,
> {
    if is_free(s, c, name, now) {
        outcome_of(s.auctions[name].auction).winner
    } else {
        None
    }
}

/// Why an auction cannot be closed.
pub open spec fn close_fault(s: StoreState, c: ConfigState, name: Seq<char>, now: u64) -> Option<
    Seq<char>,
> {
    if !s.auctions.contains_key(name) {
        Some("no auction for '"@ + name + "'"@)
    } else if phase_at(s.auctions[name].auction, now) !is Closed {
        Some("the auction is still open"@)
    } else {
        match close_winner(s, c, name, now) {
            None => None,
            Some(w) => {
                let bids = s.auctions[name].auction.bids;
                if bids[bid_of(bids, w)].revealed is None {
                    Some("winner has no revealed bid"@)
                } else if target_of(s.auctions[name].targets, w) is None {
                    Some("winner revealed no target"@)
                } else {
                    None
                }
            },
        }
    }
}

/// The winner's assessed price: their own bid, within the tax's range.
pub open spec fn assessed_price(c: ConfigState, bid: u128) -> u128 {
    if bid < c.min_price {
        c.min_price
    } else if bid > MAX_PRICE {
        MAX_PRICE
    } else {
        bid
    }
}

/// The terms on which an auction is closed.
#[verifier::ext_equal]
pub struct CloseTerms {
    /// Who gets the name.
    pub winner: Option<Seq<u8>>,
    /// Who would have won, whether or not the name was free.
    pub ranked_first: Option<Seq<u8>>,
    /// What the one ranked first was charged.
    pub second_price: u128,
    pub assessed: u128,
    /// One grace period of tax at the assessed price.
    pub keep: u128,
}

/// The terms on which an auction is closed.
pub open spec fn close_terms(s: StoreState, c: ConfigState, name: Seq<char>, now: u64) -> CloseTerms {
    let r = s.auctions[name];
    let o = outcome_of(r.auction);
    let winner = close_winner(s, c, name, now);
    let assessed = match winner {
        Some(w) => assessed_price(
            c,
            r.auction.bids[bid_of(r.auction.bids, w)].revealed->0,
        ),
        None => 0,
    };
    CloseTerms {
        winner,
        ranked_first: o.winner,
        second_price: o.price,
        assessed,
        keep: least_deposit(params_of(c), assessed) as u128,
    }
}

/// What stays of a settlement's refund as the winner's opening balance.
pub open spec fn kept_of(t: CloseTerms, x: SettlementState) -> u128 {
    if x.refund <= t.keep {
        x.refund
    } else {
        t.keep
    }
}

/// What a bidder is credited: the winner keeps an opening balance, and a
/// voided win was never charged its price.
pub open spec fn refund_of(t: CloseTerms, x: SettlementState) -> u128 {
    if t.winner == Some(x.bidder) {
        (x.refund - kept_of(t, x)) as u128
    } else if t.ranked_first == Some(x.bidder) {
        capped(x.refund + t.second_price)
    } else {
        x.refund
    }
}

/// The credits after settlements were paid.
pub open spec fn paid_out(
    m: Map<Seq<u8>, u128>,
    t: CloseTerms,
    settlements: Seq<SettlementState>,
) -> Map<Seq<u8>, u128>
    decreases settlements.len(),
{
    if settlements.len() == 0 {
        m
    } else {
        let x = settlements.last();
        credited(paid_out(m, t, settlements.drop_last()), x.bidder, refund_of(t, x))
    }
}

/// The opening balance of the winner's holding.
pub open spec fn opening_of(t: CloseTerms, settlements: Seq<SettlementState>) -> u128
    decreases settlements.len(),
{
    if settlements.len() == 0 {
        0
    } else if t.winner == Some(settlements.last().bidder) {
        kept_of(t, settlements.last())
    } else {
        opening_of(t, settlements.drop_last())
    }
}

/// The forfeited deposits of settlements.
pub open spec fn forfeits(settlements: Seq<SettlementState>) -> Seq<nat> {
    settlements.map_values(|x: SettlementState| x.forfeited as nat)
}

/// The record of the winner's new holding.
pub open spec fn won_record(
    s: StoreState,
    c: ConfigState,
    name: Seq<char>,
    now: u64,
) -> RecordState {
    let t = close_terms(s, c, name, now);
    let r = s.auctions[name];
    let h = holding(t.assessed, opening_of(t, outcome_of(r.auction).settlements), now);
    let target = TargetState::Alias(target_of(r.targets, t.winner->0)->0);
    if s.records.contains_key(name) {
        handed_over(
            settled_record(params_of(c), s.records[name], now),
            t.winner->0,
            target,
            h,
            now,
        )
    } else {
        RecordState { flat: Some(h), ..fresh_record(name, t.winner->0, target, now) }
    }
}

/// What the winner pays, 0 when nobody won.
pub open spec fn close_price(t: CloseTerms) -> u128 {
    if t.winner is Some {
        t.second_price
    } else {
        0
    }
}

/// The registry after an auction was closed: every refund credited, the name
/// with the winner, the price and forfeits with the treasury.
pub open spec fn closed_state(s: RegistryState, c: ConfigState, name: Seq<char>, now: u64) -> RegistryState {
    let t = close_terms(s.store, c, name, now);
    let settlements = outcome_of(s.store.auctions[name].auction).settlements;
    let forfeited = capped(sum_of(forfeits(settlements)) as int);
    let paid = with_store(
        s,
        StoreState { credits: paid_out(s.store.credits, t, settlements), ..s.store },
    );
    let tax = if s.store.records.contains_key(name) {
        record_tax(params_of(c), s.store.records[name], now)
    } else {
        0
    };
    let won = if t.winner is Some {
        with_record(
            with_store(paid, with_tax(paid.store, tax)),
            won_record(s.store, c, name, now),
        )
    } else {
        paid
    };
    without_auction(
        with_store(won, with_proceeds(won.store, capped(close_price(t) + forfeited))),
        name,
    )
}

/// Whether `r` tells what closing did.
pub open spec fn tells_close(r: Closed, s: StoreState, c: ConfigState, name: Seq<char>, now: u64) -> bool {
    let t = close_terms(s, c, name, now);
    let settlements = outcome_of(s.auctions[name].auction).settlements;
    &&& seen(r.winner) == t.winner
    &&& r.price == close_price(t)
    &&& r.assessed == t.assessed
    &&& r.forfeited == capped(sum_of(forfeits(settlements)) as int)
}

/// The first target of a bidder.
fn find_target(targets: &Vec<(Vec<u8>, String)>, bidder: &[u8]) -> (r: Option<String>)
    ensures
        seen(r) == target_of(target_states(targets@), bidder@),
{
    let ghost all = target_states(targets@);
    let mut i: usize = 0;
    assert(all.skip(0) =~= all);
    while i < targets.len()
        invariant
            i <= targets@.len(),
            all == target_states(targets@),
            target_of(all, bidder@) == target_of(all.skip(i as int), bidder@),
        decreases targets.len() - i,
    {
        let ghost rest = all.skip(i as int);
        assert(rest[0] == (targets@[i as int].0@, targets@[i as int].1@));
        if same_bytes(targets[i].0.as_slice(), bidder) {
            return Some(targets[i].1.clone());
        }
        assert(rest.drop_first() =~= all.skip(i + 1));
        i += 1;
    }
    None
}

/// Whether an optional bidder is this one.
fn is_bidder(who: &Option<Vec<u8>>, bidder: &[u8]) -> (r: bool)
    ensures
        r == (seen(*who) == Some(bidder@)),
{
    match who {
        Some(w) => same_bytes(w.as_slice(), bidder),
        None => false,
    }
}

/// A found target is one of the targets.
proof fn lemma_target_of(targets: Seq<(Seq<u8>, Seq<char>)>, bidder: Seq<u8>)
    ensures
        target_of(targets, bidder) matches Some(n) ==> exists|i: int|
            0 <= i < targets.len() && (#[trigger] targets[i]).1 == n,
    decreases targets.len(),
{
    if targets.len() > 0 {
        if targets[0].0 == bidder {
            assert(targets[0].1 == target_of(targets, bidder)->0);
        } else {
            lemma_target_of(targets.drop_first(), bidder);
            if target_of(targets, bidder) is Some {
                let n = target_of(targets, bidder)->0;
                let rest = targets.drop_first();
                let i = choose|i: int| 0 <= i < rest.len() && (#[trigger] rest[i]).1 == n;
                assert(targets[i + 1] == rest[i]);
            }
        }
    }
}

/// Close an ended auction: credit every refund, hand the name to the winner,
/// and send the price and forfeits to the treasury. Nothing else gives a
/// free name a holder while its auction runs, but if something did, nobody
/// wins and the would-be winner is refunded in full.
#[verifier::rlimit(60)]
pub fn close(reg: &mut Registry, cfg: &harberger::Config, name: &str, now: u64) -> (r: Result<
    Closed,
    String,
>)
    ensures
        r is Ok <==> close_fault(old(reg)@.store, cfg@, name@, now) is None,
        r matches Err(e) ==> close_fault(old(reg)@.store, cfg@, name@, now) == Some(e@),
        r is Ok ==> final(reg)@ == closed_state(old(reg)@, cfg@, name@, now),
        r matches Ok(c) ==> tells_close(c, old(reg)@.store, cfg@, name@, now),
        r is Err ==> final(reg)@ == old(reg)@,
        sound(old(reg)@) ==> sound(final(reg)@),
        sound(old(reg)@) ==> (r matches Ok(c) ==> closes(
            c,
            old(reg)@,
            final(reg)@,
            cfg@,
            name@,
            now,
        )),
{
    let ghost s = reg@;
    let ghost c = cfg@;
    let r = match reg.store.auctions.get(name) {
        Some(r) => r,
        None => {
            return Err(join3("no auction for '", name, "'"));
        },
    };
    let outcome = match r.auction.outcome(now) {
        Ok(o) => o,
        Err(e) => {
            return Err(e);
        },
    };
    let ghost o = outcome_of(r@.auction);
    let ghost terms = close_terms(s.store, c, name@, now);
    let mut lapsed: Option<(Record, u128)> = None;
    let mut free = true;
    match store::get_record(&reg.store, name) {
        Some(mut rec) => {
            let (status, tax) = harberger::settle_record(cfg, &mut rec, now);
            match status {
                Status::Free => {
                    lapsed = Some((rec, tax));
                },
                _ => {
                    free = false;
                },
            }
        },
        None => {},
    }
    assert(free == is_free(s.store, c, name@, now));
    let winner: Option<Vec<u8>> = if free {
        match &outcome.winner {
            Some(w) => Some(slice_to_vec(w.as_slice())),
            None => None,
        }
    } else {
        None
    };
    assert(seen(winner) == terms.winner);
    let price: u128 = if winner.is_some() {
        outcome.price
    } else {
        0
    };
    // Work out the winner's holding before anything is written.
    let held_by: Option<(Principal, String, u128)> = match &winner {
        None => None,
        Some(w) => {
            let at = r.auction.position(w.as_slice());
            proof {
                law_highest_bid_wins(r@.auction.bids, r@.auction.params.reserve);
                lemma_bid_of(r@.auction.bids, w@);
                let k = vickrey::winning(r@.auction.bids, r@.auction.params.reserve)->0;
                assert(r@.auction.bids[k].bidder == w@);
            }
            let bid = match at {
                Some(i) => {
                    assert(r@.auction.bids[i as int] == r.auction.bids@[i as int]@);
                    r.auction.bids[i].revealed
                },
                None => None,
            };
            let bid: u128 = match bid {
                Some(b) => b,
                None => {
                    return Err("winner has no revealed bid".to_string());
                },
            };
            let alias = match find_target(&r.targets, w.as_slice()) {
                Some(t) => t,
                None => {
                    return Err("winner revealed no target".to_string());
                },
            };
            let assessed: u128 = if bid < cfg.min_price {
                cfg.min_price
            } else if bid > MAX_PRICE {
                MAX_PRICE
            } else {
                bid
            };
            assert(r@.auction.bids[bid_of(r@.auction.bids, w@)].bidder.len() <= MAX_PRINCIPAL);
            Some((Principal::from_slice(w.as_slice()), alias, assessed))
        },
    };
    let assessed: u128 = match &held_by {
        Some(h) => h.2,
        None => 0,
    };
    assert(assessed == terms.assessed);
    let keep: u128 = harberger::min_deposit(cfg, assessed);
    let mut forfeited: u128 = 0;
    let mut opening: u128 = 0;
    let mut i: usize = 0;
    let ghost all = o.settlements;
    let ghost lost = forfeits(all);
    proof {
        assert(lost.take(0) =~= Seq::<nat>::empty());
        assert(all.take(0) =~= Seq::<SettlementState>::empty());
        assert(views(outcome.settlements@) =~= all);
    }
    while i < outcome.settlements.len()
        invariant
            i <= outcome.settlements@.len(),
            views(outcome.settlements@) == all,
            all == outcome_of(r@.auction).settlements,
            bidders_fit(r@),
            lost == forfeits(all),
            terms.keep == keep,
            seen(winner) == terms.winner,
            outcome@.winner == terms.ranked_first,
            outcome.price == terms.second_price,
            forfeited == capped(sum_of(lost.take(i as int)) as int),
            opening == opening_of(terms, all.take(i as int)),
            reg@ == with_store(
                s,
                (StoreState {
                    credits: paid_out(s.store.credits, terms, all.take(i as int)),
                    ..s.store
                }),
            ),
        decreases outcome.settlements.len() - i,
    {
        let x = &outcome.settlements[i];
        proof {
            assert(views(outcome.settlements@)[i as int] == x@);
            assert(all.take(i + 1).drop_last() =~= all.take(i as int));
            assert(all.take(i + 1).last() == x@);
            assert(lost[i as int] == x.forfeited as nat);
            lemma_sum_take(lost, i as int);
            assert(x@.bidder == r@.auction.bids[i as int].bidder);
            assert(r@.auction.bids[i as int].bidder.len() <= MAX_PRINCIPAL);
        }
        let who = Principal::from_slice(x.bidder.as_slice());
        forfeited = forfeited.saturating_add(x.forfeited);
        let refund: u128 = if is_bidder(&winner, x.bidder.as_slice()) {
            opening = if x.refund <= keep {
                x.refund
            } else {
                keep
            };
            x.refund - opening
        } else if is_bidder(&outcome.winner, x.bidder.as_slice()) {
            x.refund.saturating_add(outcome.price)
        } else {
            x.refund
        };
        store::add_credit(&mut reg.store, &who, refund);
        i += 1;
    }
    proof {
        assert(all.take(i as int) =~= all);
        assert(lost.take(i as int) =~= lost);
    }
    let ghost paid = reg@;
    let owner_bytes = match &held_by {
        Some(h) => Some(h.0.clone()),
        None => None,
    };
    match held_by {
        Some((owner, alias, a)) => {
            let target = Target::Alias(alias);
            let h = Harberger::new(a, opening, now);
            let (rec, tax) = match lapsed {
                Some((old_record, tax)) => (hand_over(old_record, owner, target, h, now), tax),
                None => {
                    let mut rec = Record::new(name.to_string(), owner, target, now);
                    rec.flat = Some(h);
                    (rec, 0)
                },
            };
            proof {
                assert(rec@ == won_record(s.store, c, name@, now));
                if sound(s) {
                    assert(sound(paid));
                    assert(good_auction(name@, r@));
                    lemma_target_of(r@.targets, terms.winner->0);
                    lemma_handed_over_sound(paid, rec@, tax);
                }
            }
            commit_flat(reg, &rec, tax);
        },
        None => {},
    }
    let ghost won = reg@;
    note_proceeds(&mut reg.store, price.saturating_add(forfeited));
    reg.store.auctions.remove(name);
    assert(reg@ =~= closed_state(s, c, name@, now));
    proof {
        if sound(s) {
            assert(sound(won));
            assert(sound(reg@));
        }
    }
    let closed = Closed { winner: owner_bytes, price, assessed, forfeited };
    proof {
        if sound(s) {
            lemma_closes(s, c, name@, now, closed);
        }
    }
    Ok(closed)
}

// --- what bidders see ---------------------------------------------------------------------

/// An auction as bidders and tooling see it. Amounts stay sealed until the
/// auction has ended.
#[derive(Debug)]
pub struct View {
    pub name: String,
    pub phase: Phase,
    pub opened_ns: u64,
    pub commit_until_ns: u64,
    pub reveal_until_ns: u64,
    pub reserve: u128,
    /// Every committed bidder, in commitment order.
    pub bidders: Vec<Principal>,
    pub revealed: u32,
    /// Once ended: who close_auction will make the holder, and the price.
    pub winner: Option<Principal>,
    pub price: Option<u128>,
}

/// An auction as bidders see it, by its contents.
#[verifier::ext_equal]
pub struct ViewState {
    pub name: Seq<char>,
    pub phase: Phase,
    pub opened_ns: u64,
    pub commit_until_ns: u64,
    pub reveal_until_ns: u64,
    pub reserve: u128,
    pub bidders: Seq<Seq<u8>>,
    pub revealed: u32,
    pub winner: Option<Seq<u8>>,
    pub price: Option<u128>,
}

impl vstd::view::View for View {
    type V = ViewState;

    open spec fn view(&self) -> ViewState {
        ViewState {
            name: self.name@,
            phase: self.phase,
            opened_ns: self.opened_ns,
            commit_until_ns: self.commit_until_ns,
            reveal_until_ns: self.reveal_until_ns,
            reserve: self.reserve,
            bidders: views(self.bidders@),
            revealed: self.revealed,
            winner: seen(self.winner),
            price: self.price,
        }
    }
}

/// How many bids are revealed, the largest number where they are more.
pub open spec fn revealed_count(bids: Seq<BidState>) -> u32
    decreases bids.len(),
{
    if bids.len() == 0 {
        0
    } else {
        let n = revealed_count(bids.drop_last());
        if bids.last().revealed is Some && n < u32::MAX {
            (n + 1) as u32
        } else {
            n
        }
    }
}

/// An auction as bidders see it at `now`.
pub open spec fn view_of(name: Seq<char>, r: RunningState, now: u64) -> ViewState {
    let a = r.auction;
    let ended = phase_at(a, now) is Closed;
    let winner = if ended {
        outcome_of(a).winner
    } else {
        None
    };
    ViewState {
        name,
        phase: phase_at(a, now),
        opened_ns: a.opened_ns,
        commit_until_ns: commit_end(a),
        reveal_until_ns: reveal_end(a),
        reserve: a.params.reserve,
        bidders: a.bids.map_values(|b: BidState| b.bidder),
        revealed: revealed_count(a.bids),
        winner,
        price: if winner is Some {
            Some(outcome_of(a).price)
        } else {
            None
        },
    }
}

/// An auction as bidders see it at `now`.
fn view(name: &str, r: &Running, now: u64) -> (v: View)
    requires
        bidders_fit(r@),
    ensures
        v@ == view_of(name@, r@, now),
{
    let a = &r.auction;
    let ghost bids = r@.auction.bids;
    let mut bidders: Vec<Principal> = Vec::new();
    let mut revealed: u32 = 0;
    let mut i: usize = 0;
    let ghost whose = bids.map_values(|b: BidState| b.bidder);
    proof {
        assert(views(bidders@) =~= whose.take(0));
        assert(bids.take(0) =~= Seq::<BidState>::empty());
    }
    while i < a.bids.len()
        invariant
            i <= a.bids@.len(),
            *a == r.auction,
            bids == r@.auction.bids,
            bids == bid_states(a.bids@),
            bidders_fit(r@),
            whose == bids.map_values(|b: BidState| b.bidder),
            views(bidders@) == whose.take(i as int),
            revealed == revealed_count(bids.take(i as int)),
        decreases a.bids.len() - i,
    {
        let ghost before = bidders@;
        proof {
            assert(bids[i as int] == a.bids@[i as int]@);
            assert(r@.auction.bids[i as int].bidder.len() <= MAX_PRINCIPAL);
            assert(bids.take(i + 1).drop_last() =~= bids.take(i as int));
            assert(bids.take(i + 1).last() == bids[i as int]);
        }
        bidders.push(Principal::from_slice(a.bids[i].bidder.as_slice()));
        assert(views(bidders@) =~= views(before).push(whose[i as int]));
        assert(whose.take(i + 1) =~= whose.take(i as int).push(whose[i as int]));
        if a.bids[i].revealed.is_some() {
            revealed = revealed.saturating_add(1);
        }
        i += 1;
    }
    proof {
        assert(whose.take(i as int) =~= whose);
        assert(bids.take(i as int) =~= bids);
        law_highest_bid_wins(bids, r@.auction.params.reserve);
    }
    let (winner, price) = match a.outcome(now) {
        Ok(o) => match &o.winner {
            Some(w) => {
                proof {
                    let k = vickrey::winning(bids, r@.auction.params.reserve)->0;
                    assert(bids[k].bidder == w@);
                    assert(r@.auction.bids[k].bidder.len() <= MAX_PRINCIPAL);
                }
                (Some(Principal::from_slice(w.as_slice())), Some(o.price))
            },
            None => (None, None),
        },
        Err(_) => (None, None),
    };
    View {
        name: name.to_string(),
        phase: a.phase(now),
        opened_ns: a.opened_ns,
        commit_until_ns: a.commit_until_ns(),
        reveal_until_ns: a.reveal_until_ns(),
        reserve: a.params.reserve,
        bidders,
        revealed,
        winner,
        price,
    }
}

/// The auction of a name, None where none runs.
pub fn status(store: &Store, name: &str, now: u64) -> (r: Option<View>)
    ensures
        r is Some <==> store@.auctions.contains_key(name@),
        r matches Some(v) ==> v@ == view_of(name@, store@.auctions[name@], now),
{
    match store.auctions.get(name) {
        Some(r) => Some(view(name, &r, now)),
        None => None,
    }
}

/// The views of auctions in name order.
pub open spec fn auction_list(s: StoreState, now: u64) -> Seq<ViewState> {
    texts_in_order(s.auctions.dom()).map_values(
        |n: Seq<char>| view_of(n, s.auctions[n], now),
    )
}

/// Every auction not yet closed, in name order.
pub fn list(store: &Store, now: u64) -> (r: Vec<View>)
    ensures
        views(r@) == auction_list(store@, now),
{
    let names = store.auctions.keys();
    let ghost all = texts_in_order(store@.auctions.dom());
    let mut out: Vec<View> = Vec::new();
    let mut i: usize = 0;
    while i < names.len()
        invariant
            i <= names@.len(),
            texts(names@) == all,
            all == texts_in_order(store@.auctions.dom()),
            crate::order::lists_texts(all, store@.auctions.dom()),
            out@.len() == i,
            forall|j: int|
                0 <= j < i ==> (#[trigger] out@[j])@ == view_of(
                    all[j],
                    store@.auctions[all[j]],
                    now,
                ),
        decreases names.len() - i,
    {
        assert(all[i as int] == names@[i as int]@);
        assert(store@.auctions.dom().contains(all[i as int]));
        match status(store, names[i].as_str(), now) {
            Some(v) => {
                out.push(v);
            },
            None => {},
        }
        i += 1;
    }
    assert(views(out@) =~= auction_list(store@, now));
    out
}

/// The commitment for a bid, as the canister checks it.
pub fn commitment(bidder: &Principal, amount: u128, salt: &[u8]) -> (r: [u8; 32])
    ensures
        r@ == commitment_hash(bidder@, amount, salt@),
{
    vickrey::commitment(bidder.as_slice(), amount, salt)
}

// --- what auctions promise -----------------------------------------------------------------

/// A bidder who gave a target has one.
proof fn lemma_has_target(targets: Seq<(Seq<u8>, Seq<char>)>, bidder: Seq<u8>)
    requires
        has_target(targets, bidder),
    ensures
        target_of(targets, bidder) is Some,
    decreases targets.len(),
{
    let i = choose|i: int| 0 <= i < targets.len() && (#[trigger] targets[i]).0 == bidder;
    if targets[0].0 != bidder {
        let rest = targets.drop_first();
        assert(rest[i - 1].0 == bidder);
        lemma_has_target(rest, bidder);
    }
}

/// An auction that has ended can always be closed: nothing waits forever.
pub proof fn law_ended_auction_closes(s: RegistryState, c: ConfigState, name: Seq<char>, now: u64)
    requires
        sound(s),
        closes_first(s.store, name, now),
    ensures
        close_fault(s.store, c, name, now) is None,
{
    let r = s.store.auctions[name];
    let bids = r.auction.bids;
    let reserve = r.auction.params.reserve;
    assert(good_auction(name, r));
    law_highest_bid_wins(bids, reserve);
    if close_winner(s.store, c, name, now) is Some {
        let w = vickrey::winning(bids, reserve)->0;
        let who = bids[w].bidder;
        lemma_bid_of(bids, who);
        let k = bid_of(bids, who);
        if k < w {
            assert(bids[k].bidder != bids[w].bidder);
        }
        assert(k == w);
        lemma_has_target(r.targets, who);
    }
}

/// A closed auction is gone, and the name has a holder exactly where it had
/// one or somebody won: the winner, at their own bid, within the range of the
/// tax, as the assessed price.
pub proof fn law_closing_settles_the_name(
    s: RegistryState,
    c: ConfigState,
    name: Seq<char>,
    now: u64,
)
    requires
        sound(s),
        close_fault(s.store, c, name, now) is None,
    ensures
        ({
            let t = closed_state(s, c, name, now);
            let won = s.store.auctions[name].auction;
            &&& !t.store.auctions.contains_key(name)
            &&& match close_winner(s.store, c, name, now) {
                Some(w) => {
                    let r = t.store.records[name];
                    &&& t.store.records.contains_key(name)
                    &&& r.owner == w
                    &&& r.text.len() == 0
                    &&& r.changed_hands_ns == now
                    &&& r.flat matches Some(h) && h.lapsed_ns is None && h.price
                        == assessed_price(
                        c,
                        won.bids[bid_of(won.bids, w)].revealed->0,
                    )
                },
                None => lookup(t.store.records, name) == lookup(s.store.records, name),
            }
        }),
{
    if s.store.records.contains_key(name) {
        assert(good_record(s.store.handles, name, s.store.records[name]));
    }
}

/// Whether nobody holds a name at `now`: it has no record, or one whose
/// grace period is over.
pub open spec fn unheld(s: StoreState, c: ConfigState, name: Seq<char>, now: u64) -> bool {
    s.records.contains_key(name) ==> (s.records[name].flat matches Some(h) && status_at(
        params_of(c),
        h,
        now,
    ) is Free)
}

/// Which bid gets the name when its auction is closed: the one that ranks
/// first, unless somebody holds the name.
pub open spec fn winning_bid(s: StoreState, c: ConfigState, name: Seq<char>, now: u64) -> Option<
    int,
> {
    let a = s.auctions[name].auction;
    if unheld(s, c, name, now) {
        vickrey::winning(a.bids, a.params.reserve)
    } else {
        None
    }
}

/// Whether a bidder gave exactly one target, this one.
pub open spec fn says(
    targets: Seq<(Seq<u8>, Seq<char>)>,
    bidder: Seq<u8>,
    to: Seq<char>,
) -> bool {
    &&& has_target(targets, bidder)
    &&& forall|i: int|
        0 <= i < targets.len() && (#[trigger] targets[i]).0 == bidder ==> targets[i].1 == to
}

/// Whether a price is a bid brought into the range of the tax.
pub open spec fn in_range(c: ConfigState, bid: u128, price: u128) -> bool {
    &&& bid < c.min_price ==> price == c.min_price
    &&& c.min_price <= bid <= 1_000_000_000_000_000_000 ==> price == bid
    &&& bid >= c.min_price && bid > 1_000_000_000_000_000_000 ==> price
        == 1_000_000_000_000_000_000
}

/// Whether bid `k` got the name at a price. The record is the bidder's and
/// aliases what the bidder said at the reveal, be it new or handed over; a
/// lapsed one's old target is remembered. It is assessed at the bid, and its
/// balance is one grace period of tax out of what the deposit left.
pub open spec fn name_won(
    s: StoreState,
    t: StoreState,
    c: ConfigState,
    name: Seq<char>,
    k: int,
    price: u128,
    now: u64,
) -> bool {
    let b = s.auctions[name].auction.bids[k];
    let r = t.records[name];
    &&& t.records.contains_key(name)
    &&& r.name == name
    &&& r.owner == b.bidder
    &&& r.target matches TargetState::Alias(to) && s.auctions[name].targets.contains(
        (b.bidder, to),
    )
    &&& r.text.len() == 0
    &&& r.updated_ns == now
    &&& r.changed_hands_ns == now
    &&& match lookup(s.records, name) {
        Some(was) => r.previous_target == Some(was.target) && r.created_ns == was.created_ns,
        None => r.previous_target is None && r.created_ns == now,
    }
    &&& r.flat matches Some(h) && {
        &&& in_range(c, b.revealed->0, h.price)
        &&& h.balance == least(least_deposit(params_of(c), h.price), b.deposit - price)
        &&& h.settled_ns == now
        &&& h.lapsed_ns is None
    }
}

/// What a bidder is credited when an auction is closed: nothing for a bid
/// that was not revealed, what the price and the opening balance leave for
/// the one that got the name, and the whole deposit for any other.
pub open spec fn comes_back(
    bids: Seq<BidState>,
    won: Option<int>,
    price: u128,
    opening: u128,
    i: int,
) -> int {
    if bids[i].revealed is None {
        0
    } else if won == Some(i) {
        bids[i].deposit - price - opening
    } else {
        bids[i].deposit as int
    }
}

/// The deposits of bids that were not revealed.
pub open spec fn unrevealed(bids: Seq<BidState>) -> Seq<nat> {
    bids.map_values(
        |b: BidState|
            if b.revealed is None {
                b.deposit as nat
            } else {
                0
            },
    )
}

/// Whether `t` is `s` after an auction was closed.
pub open spec fn is_closed(
    s: RegistryState,
    t: RegistryState,
    c: ConfigState,
    name: Seq<char>,
    now: u64,
) -> bool {
    let a = s.store.auctions[name].auction;
    let won = winning_bid(s.store, c, name, now);
    let price = if won is Some {
        vickrey::price_of(a.bids, a.params.reserve)
    } else {
        0
    };
    let opening = t.store.records[name].flat->0.balance;
    let proceeds = capped(price + capped(sum_of(unrevealed(a.bids)) as int));
    let before = s.store.settings;
    let settled_tax = match lookup(s.store.records, name) {
        Some(r) if won is Some => taken(params_of(c), r.flat->0, now),
        _ => 0,
    };
    &&& t.store.auctions == s.store.auctions.remove(name)
    &&& match won {
        Some(k) => name_won(s.store, t.store, c, name, k, price, now),
        None => lookup(t.store.records, name) == lookup(s.store.records, name),
    }
    &&& forall|n: Seq<char>|
        n != name ==> #[trigger] lookup(t.store.records, n) == lookup(s.store.records, n)
    &&& forall|i: int|
        0 <= i < a.bids.len() ==> owed(t.store.credits, (#[trigger] a.bids[i]).bidder) == capped(
            owed(s.store.credits, a.bids[i].bidder) + comes_back(a.bids, won, price, opening, i),
        )
    &&& forall|q: Seq<u8>|
        (forall|i: int| 0 <= i < a.bids.len() ==> (#[trigger] a.bids[i]).bidder != q)
            ==> #[trigger] owed(t.store.credits, q) == owed(s.store.credits, q)
    &&& t.store.settings == (SettingsState {
        proceeds: capped(before.proceeds + proceeds),
        tax_collected: capped(capped(before.tax_collected + settled_tax) + proceeds),
        ..before
    })
    &&& t.store.handles == s.store.handles
    &&& t.store.deployers == s.store.deployers
    &&& t.in_flight == s.in_flight
}

/// Whether `r` says who got the name, for what, and what was forfeited.
pub open spec fn reports(r: Closed, s: StoreState, c: ConfigState, name: Seq<char>, now: u64) -> bool {
    let a = s.auctions[name].auction;
    let won = winning_bid(s, c, name, now);
    &&& seen(r.winner) == match won {
        Some(k) => Some(a.bids[k].bidder),
        None => None,
    }
    &&& match won {
        Some(k) => r.price == vickrey::price_of(a.bids, a.params.reserve) && in_range(
            c,
            a.bids[k].revealed->0,
            r.assessed,
        ),
        None => r.price == 0 && r.assessed == 0,
    }
    &&& r.forfeited == capped(sum_of(unrevealed(a.bids)) as int)
}

/// A found target is one that the bidder gave.
proof fn lemma_target_given(targets: Seq<(Seq<u8>, Seq<char>)>, bidder: Seq<u8>)
    ensures
        target_of(targets, bidder) matches Some(to) ==> targets.contains((bidder, to)),
    decreases targets.len(),
{
    if targets.len() > 0 {
        if targets[0].0 == bidder {
            assert(targets[0] == (bidder, targets[0].1));
        } else {
            let rest = targets.drop_first();
            lemma_target_given(rest, bidder);
            if target_of(targets, bidder) is Some {
                let to = target_of(targets, bidder)->0;
                let i = choose|i: int| 0 <= i < rest.len() && rest[i] == (bidder, to);
                assert(targets[i + 1] == rest[i]);
            }
        }
    }
}

/// What settlements of different bidders add to each one's credit.
proof fn lemma_paid_out(m: Map<Seq<u8>, u128>, t: CloseTerms, xs: Seq<SettlementState>)
    requires
        forall|i: int, j: int|
            0 <= i < j < xs.len() ==> (#[trigger] xs[i]).bidder != (#[trigger] xs[j]).bidder,
    ensures
        forall|i: int|
            0 <= i < xs.len() ==> owed(paid_out(m, t, xs), (#[trigger] xs[i]).bidder) == capped(
                owed(m, xs[i].bidder) + refund_of(t, xs[i]),
            ),
        forall|q: Seq<u8>|
            (forall|i: int| 0 <= i < xs.len() ==> (#[trigger] xs[i]).bidder != q)
                ==> #[trigger] owed(paid_out(m, t, xs), q) == owed(m, q),
    decreases xs.len(),
{
    if xs.len() > 0 {
        let rest = xs.drop_last();
        let x = xs.last();
        assert forall|i: int, j: int| 0 <= i < j < rest.len() implies (#[trigger] rest[i]).bidder
            != (#[trigger] rest[j]).bidder by {
            assert(rest[i] == xs[i] && rest[j] == xs[j]);
        }
        lemma_paid_out(m, t, rest);
        let before = paid_out(m, t, rest);
        let after = paid_out(m, t, xs);
        assert forall|i: int| 0 <= i < rest.len() implies (#[trigger] rest[i]).bidder
            != x.bidder by {
            assert(rest[i] == xs[i]);
            assert(xs[i].bidder != xs[xs.len() - 1].bidder);
        }
        assert(owed(before, x.bidder) == owed(m, x.bidder));
        assert forall|i: int| 0 <= i < xs.len() implies owed(after, (#[trigger] xs[i]).bidder)
            == capped(owed(m, xs[i].bidder) + refund_of(t, xs[i])) by {
            if i < rest.len() {
                assert(rest[i] == xs[i]);
                assert(rest[i].bidder != x.bidder);
            }
        }
        assert forall|q: Seq<u8>|
            (forall|i: int| 0 <= i < xs.len() ==> (#[trigger] xs[i]).bidder
                != q) implies #[trigger] owed(after, q) == owed(m, q) by {
            assert(xs[xs.len() - 1].bidder != q);
            assert forall|i: int| 0 <= i < rest.len() implies (#[trigger] rest[i]).bidder != q by {
                assert(rest[i] == xs[i]);
            }
            assert(owed(before, q) == owed(m, q));
            assert(after == credited(before, x.bidder, refund_of(t, x)));
        }
    }
}

/// The opening balance is what is kept of the winner's settlement.
proof fn lemma_opening(t: CloseTerms, xs: Seq<SettlementState>, k: int)
    requires
        0 <= k < xs.len(),
        t.winner == Some(xs[k].bidder),
        forall|i: int, j: int|
            0 <= i < j < xs.len() ==> (#[trigger] xs[i]).bidder != (#[trigger] xs[j]).bidder,
    ensures
        opening_of(t, xs) == kept_of(t, xs[k]),
    decreases xs.len(),
{
    let last = xs.len() - 1;
    if k < last {
        assert(xs[k].bidder != xs[last].bidder);
        let rest = xs.drop_last();
        assert(rest[k] == xs[k]);
        assert forall|i: int, j: int| 0 <= i < j < rest.len() implies (#[trigger] rest[i]).bidder
            != (#[trigger] rest[j]).bidder by {
            assert(rest[i] == xs[i] && rest[j] == xs[j]);
        }
        lemma_opening(t, rest, k);
    }
}

/// The terms of a close are those of the bid that gets the name.
proof fn lemma_close_terms(s: RegistryState, c: ConfigState, name: Seq<char>, now: u64)
    requires
        sound(s),
        close_fault(s.store, c, name, now) is None,
    ensures
        ({
            let a = s.store.auctions[name].auction;
            let won = winning_bid(s.store, c, name, now);
            let t = close_terms(s.store, c, name, now);
            &&& t.winner == match won {
                Some(k) => Some(a.bids[k].bidder),
                None => None,
            }
            &&& won matches Some(k) ==> {
                &&& 0 <= k < a.bids.len()
                &&& bid_of(a.bids, a.bids[k].bidder) == k
                &&& a.bids[k].revealed is Some
                &&& in_range(c, a.bids[k].revealed->0, t.assessed)
            }
            &&& won is None ==> t.assessed == 0
            &&& t.second_price == vickrey::price_of(a.bids, a.params.reserve)
            &&& t.keep == least_deposit(params_of(c), t.assessed)
        }),
{
    let r = s.store.auctions[name];
    let a = r.auction;
    assert(good_auction(name, r));
    if s.store.records.contains_key(name) {
        assert(good_record(s.store.handles, name, s.store.records[name]));
        crate::names::lemma_segment_no_slash(name);
    }
    assert(is_free(s.store, c, name, now) == unheld(s.store, c, name, now));
    law_highest_bid_wins(a.bids, a.params.reserve);
    let t = close_terms(s.store, c, name, now);
    lemma_tax_over(params_of(c), t.assessed, c.grace_ns as int);
    if winning_bid(s.store, c, name, now) is Some {
        let k = winning_bid(s.store, c, name, now)->0;
        lemma_bid_of(a.bids, a.bids[k].bidder);
        let at = bid_of(a.bids, a.bids[k].bidder);
        if at < k {
            assert(a.bids[at].bidder != a.bids[k].bidder);
        }
    }
}

/// A closed auction gives the name to the bid that ranks first, pointing
/// where that bidder said, assessed at the bid, whether a lapsed record
/// stood under the name or none; it gives every revealed deposit back, less
/// what the winner pays and opens with, and the price and the forfeits to
/// the treasury. Where somebody holds the name, nobody wins it.
pub proof fn law_closing_hands_the_name_over(
    s: RegistryState,
    c: ConfigState,
    name: Seq<char>,
    now: u64,
)
    requires
        sound(s),
        close_fault(s.store, c, name, now) is None,
    ensures
        is_closed(s, closed_state(s, c, name, now), c, name, now),
        forall|r: Closed| #[trigger]
            tells_close(r, s.store, c, name, now) ==> reports(r, s.store, c, name, now),
{
    let running = s.store.auctions[name];
    let a = running.auction;
    let bids = a.bids;
    let reserve = a.params.reserve;
    let won = winning_bid(s.store, c, name, now);
    let terms = close_terms(s.store, c, name, now);
    let xs = outcome_of(a).settlements;
    let t = closed_state(s, c, name, now);
    let price = if won is Some {
        vickrey::price_of(bids, reserve)
    } else {
        0
    };
    assert(good_auction(name, running));
    lemma_close_terms(s, c, name, now);
    law_highest_bid_wins(bids, reserve);
    law_winner_pays_second_price(bids, reserve);
    assert forall|i: int, j: int| 0 <= i < j < xs.len() implies (#[trigger] xs[i]).bidder != (
    #[trigger] xs[j]).bidder by {
        assert(bids[i].bidder != bids[j].bidder);
    }
    lemma_paid_out(s.store.credits, terms, xs);
    assert(forfeits(xs) =~= unrevealed(bids));
    if s.store.records.contains_key(name) {
        assert(good_record(s.store.handles, name, s.store.records[name]));
        crate::names::lemma_segment_no_slash(name);
    }
    if won is Some {
        let k = won->0;
        lemma_opening(terms, xs, k);
        lemma_target_given(running.targets, bids[k].bidder);
        let rec = won_record(s.store, c, name, now);
        assert(rec.name == name);
        assert(t.store.records[name] == rec);
        assert(xs[k].refund == bids[k].deposit - price);
        if !s.store.records.contains_key(name) {
            assert(with_tax(s.store, 0) =~= s.store);
        }
    }
    let opening = t.store.records[name].flat->0.balance;
    assert forall|i: int| 0 <= i < bids.len() implies owed(
        t.store.credits,
        (#[trigger] bids[i]).bidder,
    ) == capped(
        owed(s.store.credits, bids[i].bidder) + comes_back(bids, won, price, opening, i),
    ) by {
        assert(xs[i].bidder == bids[i].bidder);
        if vickrey::winning(bids, reserve) is Some {
            let w = vickrey::winning(bids, reserve)->0;
            if i < w {
                assert(bids[i].bidder != bids[w].bidder);
            }
            if w < i {
                assert(bids[w].bidder != bids[i].bidder);
            }
        }
        assert(refund_of(terms, xs[i]) == comes_back(bids, won, price, opening, i));
    }
    assert forall|q: Seq<u8>|
        (forall|i: int| 0 <= i < bids.len() ==> (#[trigger] bids[i]).bidder
            != q) implies #[trigger] owed(t.store.credits, q) == owed(s.store.credits, q) by {
        assert forall|i: int| 0 <= i < xs.len() implies (#[trigger] xs[i]).bidder != q by {
            assert(bids[i].bidder != q);
        }
    }
}

/// Whether closing an auction did what it reports.
#[verifier::opaque]
pub open spec fn closes(
    r: Closed,
    s: RegistryState,
    t: RegistryState,
    c: ConfigState,
    name: Seq<char>,
    now: u64,
) -> bool {
    is_closed(s, t, c, name, now) && reports(r, s.store, c, name, now)
}

proof fn lemma_closes(s: RegistryState, c: ConfigState, name: Seq<char>, now: u64, r: Closed)
    requires
        sound(s),
        close_fault(s.store, c, name, now) is None,
        tells_close(r, s.store, c, name, now),
    ensures
        closes(r, s, closed_state(s, c, name, now), c, name, now),
{
    reveal(closes);
    law_closing_hands_the_name_over(s, c, name, now);
}

/// Whether a reveal is in order: in the reveal phase, by somebody whose bid
/// is sealed with that amount and salt, within the tax's range, and with a
/// deposit that pays the bid and one grace period of tax at it.
pub open spec fn may_reveal(
    s: StoreState,
    c: ConfigState,
    name: Seq<char>,
    bidder: Seq<u8>,
    amount: u128,
    salt: Seq<u8>,
    now: u64,
) -> bool {
    let a = s.auctions[name].auction;
    &&& s.auctions.contains_key(name)
    &&& commit_end(a) <= now < reveal_end(a)
    &&& exists|k: int|
        {
            &&& 0 <= k < a.bids.len()
            &&& (#[trigger] a.bids[k]).bidder == bidder
            &&& a.bids[k].revealed is None
            &&& a.bids[k].commitment == commitment_hash(bidder, amount, salt)
            &&& amount <= a.bids[k].deposit
            &&& a.bids[k].deposit >= capped(amount + least_deposit(params_of(c), amount))
        }
    &&& amount <= 1_000_000_000_000_000_000
}

/// Whether `t` is `s` after a bid was revealed: it has the amount, its
/// bidder says where the name is to point, whatever they said before, and
/// nothing changes for any other bidder.
pub open spec fn is_revealed(
    s: RegistryState,
    t: RegistryState,
    name: Seq<char>,
    bidder: Seq<u8>,
    amount: u128,
    alias_to: Seq<char>,
) -> bool {
    let before = s.store.auctions[name];
    let after = t.store.auctions[name];
    &&& t.store == (StoreState {
        auctions: s.store.auctions.insert(name, after),
        ..s.store
    })
    &&& t.leaves == s.leaves
    &&& t.in_flight == s.in_flight
    &&& after.auction.params == before.auction.params
    &&& after.auction.opened_ns == before.auction.opened_ns
    &&& after.auction.bids.len() == before.auction.bids.len()
    &&& forall|i: int|
        0 <= i < before.auction.bids.len() ==> #[trigger] after.auction.bids[i] == if before
            .auction.bids[i].bidder == bidder {
            BidState { revealed: Some(amount), ..before.auction.bids[i] }
        } else {
            before.auction.bids[i]
        }
    &&& says(after.targets, bidder, alias_to)
    &&& forall|e: (Seq<u8>, Seq<char>)|
        e.0 != bidder ==> (#[trigger] after.targets.contains(e) <==> before.targets.contains(e))
}

/// A reveal is accepted where it is in order, and then counts: the amount
/// and the target are the bidder's, and closing will point the name there
/// if the bid wins.
pub proof fn law_reveals_count(
    s: RegistryState,
    c: ConfigState,
    name: Seq<char>,
    bidder: Seq<u8>,
    amount: u128,
    salt: Seq<u8>,
    alias_to: Seq<char>,
    now: u64,
)
    requires
        sound(s),
    ensures
        reveal_fault(s.store, c, name, bidder, amount, salt, now) is None <==> may_reveal(
            s.store,
            c,
            name,
            bidder,
            amount,
            salt,
            now,
        ),
        reveal_fault(s.store, c, name, bidder, amount, salt, now) is None ==> is_revealed(
            s,
            with_auction(
                s,
                name,
                revealed_auction(s.store.auctions[name], bidder, amount, alias_to),
            ),
            name,
            bidder,
            amount,
            alias_to,
        ),
{
    if s.store.auctions.contains_key(name) {
        let r = s.store.auctions[name];
        let bids = r.auction.bids;
        assert(good_auction(name, r));
        lemma_bid_of(bids, bidder);
        let at = bid_of(bids, bidder);
        assert forall|k: int| 0 <= k < bids.len() && (#[trigger] bids[k]).bidder
            == bidder implies k == at by {
            if at < k {
                assert(bids[at].bidder != bids[k].bidder);
            }
        }
        if reveal_fault(s.store, c, name, bidder, amount, salt, now) is None {
            assert(bids[at].bidder == bidder);
            let after = revealed_auction(r, bidder, amount, alias_to);
            lemma_retargeted(r.targets, bidder, alias_to);
            assert forall|i: int| 0 <= i < bids.len() implies #[trigger] after.auction.bids[i]
                == if bids[i].bidder == bidder {
                BidState { revealed: Some(amount), ..bids[i] }
            } else {
                bids[i]
            } by {}
        }
    }
}

/// Setting a bidder's target leaves that one alone for them, and the others'
/// as they were.
proof fn lemma_retargeted(
    targets: Seq<(Seq<u8>, Seq<char>)>,
    bidder: Seq<u8>,
    alias_to: Seq<char>,
)
    ensures
        says(retargeted(targets, bidder, alias_to), bidder, alias_to),
        forall|e: (Seq<u8>, Seq<char>)|
            e.0 != bidder ==> (#[trigger] retargeted(targets, bidder, alias_to).contains(e)
                <==> targets.contains(e)),
{
    let keep = of_others(bidder);
    let kept = targets.filter(keep);
    let after = retargeted(targets, bidder, alias_to);
    assert(after[kept.len() as int] == (bidder, alias_to));
    assert forall|i: int|
        0 <= i < after.len() && (#[trigger] after[i]).0 == bidder implies after[i].1
        == alias_to by {
        if i < kept.len() {
            assert(after[i] == kept[i]);
            assert(kept.contains(kept[i]));
            targets.lemma_filter_contains_rev(keep, kept[i]);
            targets.lemma_filter_pred(keep, i);
        }
    }
    assert forall|e: (Seq<u8>, Seq<char>)| e.0 != bidder implies (#[trigger] after.contains(e)
        <==> targets.contains(e)) by {
        if after.contains(e) {
            let i = choose|i: int| 0 <= i < after.len() && after[i] == e;
            assert(kept[i] == e);
            assert(kept.contains(e));
            targets.lemma_filter_contains_rev(keep, e);
        }
        if targets.contains(e) {
            let i = choose|i: int| 0 <= i < targets.len() && targets[i] == e;
            targets.lemma_filter_contains(keep, i);
            let j = choose|j: int| 0 <= j < kept.len() && kept[j] == e;
            assert(after[j] == e);
        }
    }
}

/// Where a winner said one thing at the reveal, the name points there once
/// the auction is closed, whether or not a lapsed record stood under it.
pub proof fn law_won_names_point_where_revealed(
    s: RegistryState,
    c: ConfigState,
    name: Seq<char>,
    k: int,
    to: Seq<char>,
    now: u64,
)
    requires
        sound(s),
        close_fault(s.store, c, name, now) is None,
        winning_bid(s.store, c, name, now) == Some(k),
        says(s.store.auctions[name].targets, s.store.auctions[name].auction.bids[k].bidder, to),
    ensures
        ({
            let r = closed_state(s, c, name, now).store.records[name];
            &&& r.owner == s.store.auctions[name].auction.bids[k].bidder
            &&& r.target == TargetState::Alias(to)
            &&& s.store.records.contains_key(name) ==> r.previous_target == Some(
                s.store.records[name].target,
            )
        }),
{
    law_closing_hands_the_name_over(s, c, name, now);
    let targets = s.store.auctions[name].targets;
    let who = s.store.auctions[name].auction.bids[k].bidder;
    let r = closed_state(s, c, name, now).store.records[name];
    let there = r.target->Alias_0;
    assert(targets.contains((who, there)));
    let i = choose|i: int| 0 <= i < targets.len() && targets[i] == (who, there);
    assert(targets[i].0 == who);
}

/// The least deposit that a new auction takes.
pub open spec fn least_bid(s: StoreState, c: ConfigState) -> int {
    if s.settings.auction.reserve >= c.min_price {
        s.settings.auction.reserve as int
    } else {
        c.min_price as int
    }
}

/// A bid would be taken up where its deposit meets the reserve of an auction
/// in its commit phase, or that of a new one, where the name is free for
/// one: nobody holds it, or its auction ended without a winner.
pub proof fn law_free_names_take_bids(
    s: RegistryState,
    c: ConfigState,
    name: Seq<char>,
    deposit: u128,
    now: u64,
)
    requires
        sound(s),
        is_flat_name(name),
    ensures
        bid_fault(s.store, c, name, deposit, now) is None <==> match lookup(
            s.store.auctions,
            name,
        ) {
            Some(r) => {
                ||| now < commit_end(r.auction) && deposit >= r.auction.params.reserve
                ||| commit_end(r.auction) <= now && reveal_end(r.auction) <= now
                    && vickrey::winning(r.auction.bids, r.auction.params.reserve) is None
                    && deposit >= least_bid(s.store, c)
            },
            None => unheld(s.store, c, name, now) && deposit >= least_bid(s.store, c),
        },
{
    if s.store.records.contains_key(name) {
        assert(good_record(s.store.handles, name, s.store.records[name]));
        crate::names::lemma_segment_no_slash(name);
    }
}

/// Whether `t` is `u` after a bid was placed: it stands last in the name's
/// auction, in place of the bidder's earlier one, and every other bid is as
/// it was. A name without an auction has one from `now` on, at the phases
/// and the reserve configured.
pub open spec fn is_bid(
    u: RegistryState,
    t: RegistryState,
    c: ConfigState,
    name: Seq<char>,
    bid: BidState,
    now: u64,
) -> bool {
    let after = t.store.auctions[name];
    let bids = after.auction.bids;
    &&& t.store == (StoreState {
        auctions: u.store.auctions.insert(name, after),
        ..u.store
    })
    &&& t.leaves == u.leaves
    &&& t.in_flight == u.in_flight
    &&& bids.len() > 0
    &&& bids.last() == bid
    &&& forall|i: int| 0 <= i < bids.len() - 1 ==> (#[trigger] bids[i]).bidder != bid.bidder
    &&& match lookup(u.store.auctions, name) {
        Some(before) => {
            &&& after.auction.params == before.auction.params
            &&& after.auction.opened_ns == before.auction.opened_ns
            &&& after.targets == before.targets
            &&& forall|b: BidState|
                b.bidder != bid.bidder ==> (#[trigger] bids.contains(b)
                    <==> before.auction.bids.contains(b))
        },
        None => {
            &&& after.auction.opened_ns == now
            &&& after.auction.params.commit_ns == u.store.settings.auction.commit_ns
            &&& after.auction.params.reveal_ns == u.store.settings.auction.reveal_ns
            &&& after.auction.params.reserve == least_bid(u.store, c)
            &&& after.targets.len() == 0
            &&& bids.len() == 1
        },
    }
}

/// Whether a name takes a bid with a deposit at `now`.
pub open spec fn takes_bid(
    u: StoreState,
    c: ConfigState,
    name: Seq<char>,
    deposit: u128,
    now: u64,
) -> bool {
    match lookup(u.auctions, name) {
        Some(r) => now < commit_end(r.auction) && deposit >= r.auction.params.reserve,
        None => {
            &&& unheld(u, c, name, now)
            &&& deposit >= least_bid(u, c)
            &&& now < capped_ns(now + u.settings.auction.commit_ns)
        },
    }
}

/// Whether an answer is the deposit of a bidder's earlier bid, if there was
/// one.
pub open spec fn gives_back(u: StoreState, name: Seq<char>, bidder: Seq<u8>, d: Option<u128>) -> bool {
    let bids = u.auctions[name].auction.bids;
    match d {
        Some(n) => u.auctions.contains_key(name) && exists|i: int|
            0 <= i < bids.len() && (#[trigger] bids[i]).bidder == bidder && bids[i].deposit == n,
        None => u.auctions.contains_key(name) ==> forall|i: int|
            0 <= i < bids.len() ==> (#[trigger] bids[i]).bidder != bidder,
    }
}

/// A bid is placed where the name takes it, once an ended auction of the
/// name has been closed, and then stands; otherwise nothing of it does. The
/// answer is what the bidder's earlier bid had in deposit.
pub proof fn law_bids_stand(
    s: RegistryState,
    c: ConfigState,
    name: Seq<char>,
    bid: BidState,
    now: u64,
)
    requires
        sound(s),
        is_flat_name(name),
        bid.revealed is None,
    ensures
        ({
            let out = bid_placed(s, c, name, bid, now);
            let ended = s.store.auctions.contains_key(name) && commit_end(
                s.store.auctions[name].auction,
            ) <= now && reveal_end(s.store.auctions[name].auction) <= now;
            let u = if ended {
                closed_state(s, c, name, now)
            } else {
                s
            };
            &&& out.0 is Ok <==> takes_bid(u.store, c, name, bid.deposit, now)
            &&& out.0 matches Ok(d) ==> is_bid(u, out.1, c, name, bid, now) && gives_back(
                u.store,
                name,
                bid.bidder,
                d,
            )
            &&& out.0 is Err ==> out.1 == u
        }),
{
    let ended = closes_first(s.store, name, now);
    let u = if ended {
        closed_state(s, c, name, now)
    } else {
        s
    };
    if ended {
        law_ended_auction_closes(s, c, name, now);
        law_closing_hands_the_name_over(s, c, name, now);
        assert(!u.store.auctions.contains_key(name));
    }
    if s.store.records.contains_key(name) {
        assert(good_record(s.store.handles, name, s.store.records[name]));
        crate::names::lemma_segment_no_slash(name);
    }
    if u.store.records.contains_key(name) {
        assert(u.store.records[name].flat is Some);
    }
    assert(is_free(u.store, c, name, now) == unheld(u.store, c, name, now));
    let running = auction_for(u.store, c, name, now);
    let bids = running.auction.bids;
    lemma_bid_of(bids, bid.bidder);
    let out = bid_placed(s, c, name, bid, now);
    if s.store.auctions.contains_key(name) {
        assert(good_auction(name, s.store.auctions[name]));
    }
    lemma_commit_fair(bids, bid);
    lemma_bids_with(bids, bid);
    if out.0 is Ok {
        assert(out.1.store.auctions[name].auction.bids == bids_with(bids, bid));
        let d = out.0->Ok_0;
        let k = bid_of(bids, bid.bidder);
        if k < bids.len() {
            assert(bids[k].bidder == bid.bidder && bids[k].deposit == d->0);
            assert(u.store.auctions.contains_key(name));
        }
    }
}

/// Whether a bid stands in `t` after it was placed in `s`, an ended auction
/// of the name closed first, and `d` is what the bidder gets back.
#[verifier::opaque]
pub open spec fn stands(
    s: RegistryState,
    t: RegistryState,
    c: ConfigState,
    name: Seq<char>,
    bid: BidState,
    d: Option<u128>,
    now: u64,
) -> bool {
    exists|u: RegistryState|
        {
            &&& if s.store.auctions.contains_key(name) && reveal_end(
                s.store.auctions[name].auction,
            ) <= now {
                is_closed(s, u, c, name, now)
            } else {
                u == s
            }
            &&& #[trigger] is_bid(u, t, c, name, bid, now)
            &&& gives_back(u.store, name, bid.bidder, d)
        }
}

/// A bid that is placed stands.
proof fn lemma_stands(
    s: RegistryState,
    c: ConfigState,
    name: Seq<char>,
    bidder: Seq<u8>,
    hash: Seq<u8>,
    deposit: u128,
    now: u64,
)
    requires
        sound(s),
        is_flat_name(name),
    ensures
        ({
            let bid = BidState {
                bidder,
                commitment: hash,
                deposit,
                committed_ns: now,
                revealed: None,
            };
            let out = bid_placed(s, c, name, fresh_bid(bidder, hash, deposit, now), now);
            out.0 matches Ok(d) ==> stands(s, out.1, c, name, bid, d, now)
        }),
{
    reveal(stands);
    let bid = fresh_bid(bidder, hash, deposit, now);
    law_bids_stand(s, c, name, bid, now);
    let a = s.store.auctions[name].auction;
    let ended = s.store.auctions.contains_key(name) && reveal_end(a) <= now;
    if ended {
        assert(closes_first(s.store, name, now));
        law_ended_auction_closes(s, c, name, now);
        law_closing_hands_the_name_over(s, c, name, now);
    }
}

/// Which bids stand after one was placed.
proof fn lemma_bids_with(bids: Seq<BidState>, bid: BidState)
    requires
        fair(bids),
    ensures
        ({
            let after = bids_with(bids, bid);
            &&& after.len() > 0
            &&& after.last() == bid
            &&& forall|i: int| 0 <= i < after.len() - 1 ==> (#[trigger] after[i]).bidder
                != bid.bidder
            &&& forall|b: BidState|
                b.bidder != bid.bidder ==> (#[trigger] after.contains(b) <==> bids.contains(b))
        }),
{
    let k = bid_of(bids, bid.bidder);
    let after = bids_with(bids, bid);
    lemma_bid_of(bids, bid.bidder);
    assert forall|i: int| 0 <= i < after.len() - 1 implies (#[trigger] after[i]).bidder
        != bid.bidder by {
        if k < bids.len() && i >= k {
            assert(after[i] == bids[i + 1]);
            assert(bids[k].bidder != bids[i + 1].bidder);
        } else {
            assert(after[i] == bids[i]);
        }
    }
    assert forall|b: BidState| b.bidder != bid.bidder implies (#[trigger] after.contains(b)
        <==> bids.contains(b)) by {
        if after.contains(b) {
            let i = choose|i: int| 0 <= i < after.len() && after[i] == b;
            if k < bids.len() && i >= k {
                assert(after[i] == bids[i + 1]);
            } else {
                assert(after[i] == bids[i]);
            }
        }
        if bids.contains(b) {
            let i = choose|i: int| 0 <= i < bids.len() && bids[i] == b;
            if k < bids.len() && i > k {
                assert(after[i - 1] == b);
            } else {
                assert(after[i] == b);
            }
        }
    }
}

/// What everybody sees of an ended auction is what closing it will do: the
/// winner and the price, where the name is free.
pub proof fn law_view_tells_the_close(
    s: RegistryState,
    c: ConfigState,
    name: Seq<char>,
    now: u64,
    closed: Closed,
)
    requires
        sound(s),
        closes_first(s.store, name, now),
        unheld(s.store, c, name, now),
        tells_close(closed, s.store, c, name, now),
    ensures
        view_of(name, s.store.auctions[name], now).winner == seen(closed.winner),
        view_of(name, s.store.auctions[name], now).price == if closed.winner is Some {
            Some(closed.price)
        } else {
            None
        },
{
    law_ended_auction_closes(s, c, name, now);
    law_closing_hands_the_name_over(s, c, name, now);
    assert(reports(closed, s.store, c, name, now));
}

/// Whether two auctions differ at most in the amounts that were revealed.
pub open spec fn alike(a: AuctionState, b: AuctionState) -> bool {
    &&& a.params == b.params
    &&& a.opened_ns == b.opened_ns
    &&& a.bids.len() == b.bids.len()
    &&& forall|i: int|
        0 <= i < a.bids.len() ==> (#[trigger] a.bids[i]).bidder == b.bids[i].bidder && (
        a.bids[i].revealed is Some <==> b.bids[i].revealed is Some)
}

proof fn lemma_count_alike(a: Seq<BidState>, b: Seq<BidState>)
    requires
        a.len() == b.len(),
        forall|i: int|
            0 <= i < a.len() ==> ((#[trigger] a[i]).revealed is Some <==> b[i].revealed is Some),
    ensures
        revealed_count(a) == revealed_count(b),
    decreases a.len(),
{
    if a.len() > 0 {
        assert(a.last() == a[a.len() - 1]);
        let (x, y) = (a.drop_last(), b.drop_last());
        assert forall|i: int| 0 <= i < x.len() implies ((#[trigger] x[i]).revealed is Some
            <==> y[i].revealed is Some) by {
            assert(x[i] == a[i]);
        }
        lemma_count_alike(x, y);
    }
}

/// Amounts stay sealed until the auction has ended: before that, what
/// everybody sees of an auction does not depend on them.
pub proof fn law_amounts_stay_sealed(
    name: Seq<char>,
    a: RunningState,
    b: RunningState,
    now: u64,
)
    requires
        alike(a.auction, b.auction),
        phase_at(a.auction, now) !is Closed,
    ensures
        view_of(name, a, now) == view_of(name, b, now),
        view_of(name, a, now).winner is None,
        view_of(name, a, now).price is None,
{
    lemma_count_alike(a.auction.bids, b.auction.bids);
    assert(a.auction.bids.map_values(|x: BidState| x.bidder) =~= b.auction.bids.map_values(
        |x: BidState| x.bidder,
    )) by {
        assert forall|i: int| 0 <= i < a.auction.bids.len() implies a.auction.bids[i].bidder
            == b.auction.bids[i].bidder by {}
    }
}

/// The deposit of an accepted reveal leaves one grace period of tax at the
/// bid whatever the second price is, since nobody pays more than they bid.
pub proof fn law_reveal_leaves_grace(
    s: StoreState,
    c: ConfigState,
    name: Seq<char>,
    bidder: Seq<u8>,
    amount: u128,
    salt: Seq<u8>,
    now: u64,
    price: u128,
)
    requires
        params_ok(params_of(c)),
        reveal_fault(s, c, name, bidder, amount, salt, now) is None,
        price <= amount,
    ensures
        ({
            let bids = s.auctions[name].auction.bids;
            let deposit = bids[bid_of(bids, bidder)].deposit;
            &&& amount <= MAX_PRICE
            &&& deposit - price >= least_deposit(params_of(c), amount)
        }),
{
    lemma_grace_is_small(params_of(c), amount);
}

/// What everybody sees of an auction: its name and phase, its times and
/// reserve, and who bid, in the order of their bids. Each revealed bid
/// counts once.
pub proof fn law_view_shows_the_auction(name: Seq<char>, r: RunningState, now: u64, more: BidState)
    ensures
        ({
            let v = view_of(name, r, now);
            let a = r.auction;
            &&& v.name == name
            &&& v.opened_ns == a.opened_ns
            &&& v.commit_until_ns == capped_ns(a.opened_ns + a.params.commit_ns)
            &&& v.reveal_until_ns == capped_ns(v.commit_until_ns + a.params.reveal_ns)
            &&& v.phase is Commit <==> now < v.commit_until_ns
            &&& v.phase is Reveal <==> v.commit_until_ns <= now < v.reveal_until_ns
            &&& v.reserve == a.params.reserve
            &&& v.bidders.len() == a.bids.len()
            &&& forall|i: int| 0 <= i < a.bids.len() ==> #[trigger] v.bidders[i] == a.bids[i].bidder
            &&& v.revealed == revealed_count(a.bids)
        }),
        revealed_count(Seq::empty()) == 0,
        revealed_count(r.auction.bids) < u32::MAX ==> revealed_count(r.auction.bids.push(more))
            == revealed_count(r.auction.bids) + if more.revealed is Some {
            1int
        } else {
            0int
        },
{
    assert(r.auction.bids.push(more).drop_last() =~= r.auction.bids);
}

/// Every auction that was not closed is listed, once, in name order.
pub proof fn law_every_auction_is_listed(s: StoreState, now: u64)
    requires
        s.auctions.dom().finite(),
    ensures
        ({
            let list = auction_list(s, now);
            &&& forall|v: ViewState| #[trigger]
                list.contains(v) <==> s.auctions.contains_key(v.name) && v == view_of(
                    v.name,
                    s.auctions[v.name],
                    now,
                )
            &&& forall|i: int, j: int|
                0 <= i < j < list.len() ==> text_before(
                    (#[trigger] list[i]).name,
                    (#[trigger] list[j]).name,
                )
        }),
{
    let names = texts_in_order(s.auctions.dom());
    let list = auction_list(s, now);
    lemma_texts_listed(s.auctions.dom());
    assert forall|v: ViewState| #[trigger] list.contains(v) <==> s.auctions.contains_key(v.name) && v
        == view_of(v.name, s.auctions[v.name], now) by {
        if list.contains(v) {
            let i = choose|i: int| 0 <= i < list.len() && list[i] == v;
            assert(s.auctions.dom().contains(names[i]));
        }
        if s.auctions.contains_key(v.name) && v == view_of(v.name, s.auctions[v.name], now) {
            assert(s.auctions.dom().contains(v.name));
            let i = choose|i: int| 0 <= i < names.len() && names[i] == v.name;
            assert(list[i] == v);
        }
    }
    assert forall|i: int, j: int| 0 <= i < j < list.len() implies text_before(
        (#[trigger] list[i]).name,
        (#[trigger] list[j]).name,
    ) by {
        assert(text_before(names[i], names[j]));
    }
}

/// Auction settings are accepted exactly with two phases that take time and
/// a reserve within the tax's range.
pub proof fn law_auction_settings_in_range(c: Config)
    ensures
        auction_config_fault(c) is None <==> c.commit_ns > 0 && c.reveal_ns > 0 && c.reserve
            <= 1_000_000_000_000_000_000,
{
}

} // verus!
