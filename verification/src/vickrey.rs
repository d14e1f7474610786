//! One sealed-bid second-price auction.
//!
//! The rules of committing, revealing and ranking are those of the
//! ic-auction crate. An auction is plain values here; the crate's own type
//! is made for the time of a call.

use ic_auction::vickrey as rules;
use vstd::prelude::*;
use vstd::utf8::*;

use crate::hashtree::sha256;
use crate::tax::capped_ns;
use crate::text::{decimal, same_bytes};

verus! {

/// Phase lengths and reserve, fixed when an auction opens.
#[derive(Clone, Copy, Debug, PartialEq, Eq, Structural)]
pub struct Params {
    pub commit_ns: u64,
    pub reveal_ns: u64,
    pub reserve: u128,
}

/// Where an auction stands at a given time.
#[derive(Clone, Copy, Debug, PartialEq, Eq, Structural)]
pub enum Phase {
    Commit,
    Reveal,
    Closed,
}

/// One bidder's commitment and, once opened, their amount.
#[derive(Debug, PartialEq, Eq)]
pub struct Bid {
    pub bidder: Vec<u8>,
    pub commitment: [u8; 32],
    pub deposit: u128,
    pub committed_ns: u64,
    pub revealed: Option<u128>,
}

/// A bid by its contents.
#[verifier::ext_equal]
pub struct BidState {
    pub bidder: Seq<u8>,
    pub commitment: Seq<u8>,
    pub deposit: u128,
    pub committed_ns: u64,
    pub revealed: Option<u128>,
}

impl View for Bid {
    type V = BidState;

    open spec fn view(&self) -> BidState {
        BidState {
            bidder: self.bidder@,
            commitment: self.commitment@,
            deposit: self.deposit,
            committed_ns: self.committed_ns,
            revealed: self.revealed,
        }
    }
}

/// A sealed-bid second-price auction: the whole state.
#[derive(Debug, PartialEq, Eq)]
pub struct SealedAuction {
    pub params: Params,
    pub opened_ns: u64,
    /// One per bidder, in commitment order.
    pub bids: Vec<Bid>,
}

/// An auction by its contents.
#[verifier::ext_equal]
pub struct AuctionState {
    pub params: Params,
    pub opened_ns: u64,
    pub bids: Seq<BidState>,
}

/// Bids by their contents.
pub open spec fn bid_states(bids: Seq<Bid>) -> Seq<BidState> {
    bids.map_values(|b: Bid| b@)
}

impl View for SealedAuction {
    type V = AuctionState;

    open spec fn view(&self) -> AuctionState {
        AuctionState {
            params: self.params,
            opened_ns: self.opened_ns,
            bids: bid_states(self.bids@),
        }
    }
}

/// What one bidder is owed when the auction closes.
#[derive(Debug, PartialEq, Eq)]
pub struct Settlement {
    pub bidder: Vec<u8>,
    pub refund: u128,
    pub forfeited: u128,
}

/// A settlement by its contents.
#[verifier::ext_equal]
pub struct SettlementState {
    pub bidder: Seq<u8>,
    pub refund: u128,
    pub forfeited: u128,
}

impl View for Settlement {
    type V = SettlementState;

    open spec fn view(&self) -> SettlementState {
        SettlementState {
            bidder: self.bidder@,
            refund: self.refund,
            forfeited: self.forfeited,
        }
    }
}

/// The result of a closed auction.
#[derive(Debug, PartialEq, Eq)]
pub struct Outcome {
    pub winner: Option<Vec<u8>>,
    pub price: u128,
    /// One per commitment, in commitment order.
    pub settlements: Vec<Settlement>,
}

/// An outcome by its contents.
#[verifier::ext_equal]
pub struct OutcomeState {
    pub winner: Option<Seq<u8>>,
    pub price: u128,
    pub settlements: Seq<SettlementState>,
}

impl View for Outcome {
    type V = OutcomeState;

    open spec fn view(&self) -> OutcomeState {
        OutcomeState {
            winner: match self.winner {
                Some(w) => Some(w@),
                None => None,
            },
            price: self.price,
            settlements: self.settlements@.map_values(|s: Settlement| s@),
        }
    }
}

// --- the rules --------------------------------------------------------------------

/// When the commit phase ends.
pub open spec fn commit_end(a: AuctionState) -> u64 {
    capped_ns(a.opened_ns + a.params.commit_ns)
}

/// When the reveal phase ends.
pub open spec fn reveal_end(a: AuctionState) -> u64 {
    capped_ns(commit_end(a) + a.params.reveal_ns)
}

/// The phase at `now`.
pub open spec fn phase_at(a: AuctionState, now: u64) -> Phase {
    if now < commit_end(a) {
        Phase::Commit
    } else if now < reveal_end(a) {
        Phase::Reveal
    } else {
        Phase::Closed
    }
}

/// The position of a bidder's bid, or the number of bids.
pub open spec fn bid_of(bids: Seq<BidState>, bidder: Seq<u8>) -> int
    decreases bids.len(),
{
    if bids.len() == 0 || bids[0].bidder == bidder {
        0
    } else {
        1 + bid_of(bids.drop_first(), bidder)
    }
}

/// The bids after a commitment: the bidder's earlier one is gone, the new
/// one stands last.
pub open spec fn bids_with(bids: Seq<BidState>, bid: BidState) -> Seq<BidState> {
    let i = bid_of(bids, bid.bidder);
    if i < bids.len() {
        bids.remove(i).push(bid)
    } else {
        bids.push(bid)
    }
}

/// Whether a commitment is accepted.
pub open spec fn commit_ok(a: AuctionState, deposit: u128, now: u64) -> bool {
    phase_at(a, now) is Commit && deposit >= a.params.reserve
}

/// Why a commitment is refused.
pub open spec fn commit_error(a: AuctionState, now: u64) -> Seq<char> {
    if phase_at(a, now) !is Commit {
        "the commit phase is over"@
    } else {
        "deposit must be at least the reserve of "@ + decimal(a.params.reserve as nat)
    }
}

/// The auction after a commitment.
pub open spec fn committed(a: AuctionState, bid: BidState) -> AuctionState {
    AuctionState { bids: bids_with(a.bids, bid), ..a }
}

/// The deposit of the bidder's earlier commitment, if there is one.
pub open spec fn replaced_deposit(a: AuctionState, bidder: Seq<u8>) -> Option<u128> {
    let i = bid_of(a.bids, bidder);
    if i < a.bids.len() {
        Some(a.bids[i].deposit)
    } else {
        None
    }
}

/// The last `len` bytes of a number, the highest one first.
pub open spec fn be_bytes(n: nat, len: nat) -> Seq<u8>
    decreases len,
{
    if len == 0 {
        Seq::empty()
    } else {
        be_bytes(n / 256, (len - 1) as nat).push((n % 256) as u8)
    }
}

/// The hash that commits a bidder to an amount: SHA-256 of the domain, the
/// bidder, the amount and the salt, where bidder and salt come with their
/// lengths.
pub open spec fn commitment_hash(bidder: Seq<u8>, amount: u128, salt: Seq<u8>) -> Seq<u8> {
    sha256(
        encode_utf8("ic-auction/vickrey/v1"@) + be_bytes(bidder.len(), 8) + bidder + be_bytes(
            amount as nat,
            16,
        ) + be_bytes(salt.len(), 8) + salt,
    )
}

/// Why a reveal is refused, or None where it is accepted.
pub open spec fn reveal_error(
    a: AuctionState,
    now: u64,
    bidder: Seq<u8>,
    amount: u128,
    salt: Seq<u8>,
) -> Option<Seq<char>> {
    let i = bid_of(a.bids, bidder);
    if phase_at(a, now) is Commit {
        Some("the reveal phase has not started"@)
    } else if phase_at(a, now) is Closed {
        Some("the reveal phase is over"@)
    } else if i >= a.bids.len() {
        Some("no commitment from this bidder"@)
    } else if a.bids[i].revealed is Some {
        Some("already revealed"@)
    } else if commitment_hash(bidder, amount, salt) != a.bids[i].commitment {
        Some("amount and salt do not match the commitment"@)
    } else if amount > a.bids[i].deposit {
        Some(
            "revealed amount "@ + decimal(amount as nat) + " exceeds the deposit of "@ + decimal(
                a.bids[i].deposit as nat,
            ),
        )
    } else {
        None
    }
}

/// The auction after a reveal.
pub open spec fn revealed_by(a: AuctionState, bidder: Seq<u8>, amount: u128) -> AuctionState {
    let i = bid_of(a.bids, bidder);
    AuctionState {
        bids: a.bids.update(i, BidState { revealed: Some(amount), ..a.bids[i] }),
        ..a
    }
}

/// A bid that takes part in the ranking: revealed, and at least the
/// reserve.
pub open spec fn ranks(b: BidState, reserve: u128) -> bool {
    b.revealed matches Some(amount) && amount >= reserve
}

/// Whether bid `i` ranks before bid `j`: it is higher, or the same and
/// committed earlier, or stands earlier in the list.
pub open spec fn outranks(bids: Seq<BidState>, i: int, j: int) -> bool {
    let (a, b) = (bids[i], bids[j]);
    a.revealed->0 > b.revealed->0 || (a.revealed->0 == b.revealed->0 && (a.committed_ns
        < b.committed_ns || (a.committed_ns == b.committed_ns && i <= j)))
}

/// Whether bid `i` ranks first.
pub open spec fn wins(bids: Seq<BidState>, reserve: u128, i: int) -> bool {
    &&& 0 <= i < bids.len()
    &&& ranks(bids[i], reserve)
    &&& forall|j: int|
        0 <= j < bids.len() && ranks(#[trigger] bids[j], reserve) ==> outranks(bids, i, j)
}

/// The position of the winning bid, None where no bid ranks.
pub open spec fn winning(bids: Seq<BidState>, reserve: u128) -> Option<int> {
    if exists|i: int| wins(bids, reserve, i) {
        Some(choose|i: int| wins(bids, reserve, i))
    } else {
        None
    }
}

/// Whether `price` is what the winning bid `i` pays: the highest of the
/// other ranking bids, or the reserve where there is none.
pub open spec fn second_price(bids: Seq<BidState>, reserve: u128, i: int, price: u128) -> bool {
    if exists|j: int| 0 <= j < bids.len() && j != i && ranks(#[trigger] bids[j], reserve) {
        &&& exists|j: int|
            0 <= j < bids.len() && j != i && ranks(#[trigger] bids[j], reserve)
                && bids[j].revealed == Some(price)
        &&& forall|j: int|
            0 <= j < bids.len() && j != i && ranks(#[trigger] bids[j], reserve)
                ==> bids[j].revealed->0 <= price
    } else {
        price == reserve
    }
}

/// What the winner pays, 0 where nobody wins.
pub open spec fn price_of(bids: Seq<BidState>, reserve: u128) -> u128 {
    match winning(bids, reserve) {
        Some(i) => choose|price: u128| second_price(bids, reserve, i, price),
        None => 0,
    }
}

/// What one bid's deposit becomes: forfeited where the bid was not
/// revealed, returned less the price for the winner, returned otherwise.
pub open spec fn settlement_of(b: BidState, winner: Option<Seq<u8>>, price: u128) -> SettlementState {
    if b.revealed is None {
        SettlementState { bidder: b.bidder, refund: 0, forfeited: b.deposit }
    } else if winner == Some(b.bidder) {
        SettlementState {
            bidder: b.bidder,
            refund: if b.deposit >= price {
                (b.deposit - price) as u128
            } else {
                0
            },
            forfeited: 0,
        }
    } else {
        SettlementState { bidder: b.bidder, refund: b.deposit, forfeited: 0 }
    }
}

/// The winning bidder, if there is one.
pub open spec fn winner_of(bids: Seq<BidState>, reserve: u128) -> Option<Seq<u8>> {
    match winning(bids, reserve) {
        Some(i) => Some(bids[i].bidder),
        None => None,
    }
}

/// The result of an auction that is over.
pub open spec fn outcome_of(a: AuctionState) -> OutcomeState {
    let winner = winner_of(a.bids, a.params.reserve);
    let price = price_of(a.bids, a.params.reserve);
    OutcomeState {
        winner,
        price,
        settlements: a.bids.map_values(|b: BidState| settlement_of(b, winner, price)),
    }
}

// --- calls into the ic-auction crate ------------------------------------------------

/// `ic_auction::vickrey::Auction`, a running sealed-bid auction.
#[verifier::external_type_specification]
#[verifier::external_body]
pub struct ExAuction(rules::Auction);

/// What an auction of the ic-auction crate holds.
pub uninterp spec fn auction_state(a: rules::Auction) -> AuctionState;

/// The same auction as a value of `ic_auction::vickrey::Auction`, field by
/// field.
#[verifier::external_body]
fn lend(a: &SealedAuction) -> (r: rules::Auction)
    ensures
        auction_state(r) == a@,
{
    let Params { commit_ns, reveal_ns, reserve } = a.params;
    let bids = a.bids.iter().map(|b| rules::Bid {
        bidder: b.bidder.clone(),
        commitment: b.commitment,
        deposit: b.deposit,
        committed_ns: b.committed_ns,
        revealed: b.revealed,
    }).collect();
    let params = rules::Params { commit_ns, reveal_ns, reserve };
    rules::Auction { params, opened_ns: a.opened_ns, bids }
}

/// An `ic_auction::vickrey::Auction` as the same auction here, field by
/// field.
#[verifier::external_body]
fn take_back(r: rules::Auction) -> (a: SealedAuction)
    ensures
        a@ == auction_state(r),
{
    let rules::Params { commit_ns, reveal_ns, reserve } = r.params;
    let bids = r.bids.into_iter().map(|b| Bid {
        bidder: b.bidder,
        commitment: b.commitment,
        deposit: b.deposit,
        committed_ns: b.committed_ns,
        revealed: b.revealed,
    }).collect();
    SealedAuction { params: Params { commit_ns, reveal_ns, reserve }, opened_ns: r.opened_ns, bids }
}

/// `ic_auction::vickrey::Auction::commit`: accepted in the commit phase
/// with a deposit of at least the reserve. The bidder's earlier commitment
/// is replaced and its deposit handed back.
pub assume_specification[ rules::Auction::commit ](
    a: &mut rules::Auction,
    now: u64,
    bidder: Vec<u8>,
    hash: [u8; 32],
    deposit: u128,
) -> (r: Result<Option<u128>, String>)
    ensures
        r is Ok <==> commit_ok(auction_state(*old(a)), deposit, now),
        r matches Ok(d) ==> d == replaced_deposit(auction_state(*old(a)), bidder@),
        r is Ok ==> auction_state(*final(a)) == committed(
            auction_state(*old(a)),
            (BidState {
                bidder: bidder@,
                commitment: hash@,
                deposit,
                committed_ns: now,
                revealed: None,
            }),
        ),
        r matches Err(e) ==> e@ == commit_error(auction_state(*old(a)), now),
        r is Err ==> *final(a) == *old(a),
;

/// `ic_auction::vickrey::Auction::reveal`: accepted in the reveal phase
/// where the hash of bidder, amount and salt is the commitment and the
/// deposit covers the amount.
pub assume_specification[ rules::Auction::reveal ](
    a: &mut rules::Auction,
    now: u64,
    bidder: &[u8],
    amount: u128,
    salt: &[u8],
) -> (r: Result<(), String>)
    ensures
        r is Ok <==> reveal_error(auction_state(*old(a)), now, bidder@, amount, salt@) is None,
        r is Ok ==> auction_state(*final(a)) == revealed_by(
            auction_state(*old(a)),
            bidder@,
            amount,
        ),
        r matches Err(e) ==> Some(e@) == reveal_error(
            auction_state(*old(a)),
            now,
            bidder@,
            amount,
            salt@,
        ),
        r is Err ==> *final(a) == *old(a),
;

/// `ic_auction::vickrey::Auction::outcome`: once the auction is over, the
/// bid that ranks first wins at the second price, and every deposit is
/// settled.
#[verifier::external_body]
fn outcome_by_rules(a: &rules::Auction, now: u64) -> (r: Result<Outcome, String>)
    ensures
        r is Ok <==> phase_at(auction_state(*a), now) is Closed,
        r matches Ok(o) ==> o@ == outcome_of(auction_state(*a)),
        r matches Err(e) ==> e@ == "the auction is still open"@,
{
    let o = a.outcome(now)?;
    let settlements = o.settlements.into_iter().map(|s| Settlement {
        bidder: s.bidder,
        refund: s.refund,
        forfeited: s.forfeited,
    }).collect();
    Ok(Outcome { winner: o.winner, price: o.price, settlements })
}

/// `ic_auction::vickrey::commitment`: the SHA-256 digest of its domain, the
/// bidder, the amount and the salt, numbers with the highest byte first.
#[verifier::external_body]
pub(crate) fn commitment(bidder: &[u8], amount: u128, salt: &[u8]) -> (r: [u8; 32])
    ensures
        r@ == commitment_hash(bidder@, amount, salt@),
{
    rules::commitment(bidder, amount, salt)
}

impl SealedAuction {
    /// Open an auction whose commit phase starts at `now`.
    pub fn open(params: Params, now: u64) -> (r: SealedAuction)
        ensures
            r@ == (AuctionState { params, opened_ns: now, bids: Seq::<BidState>::empty() }),
    {
        let a = SealedAuction { params, opened_ns: now, bids: Vec::new() };
        assert(a@.bids =~= Seq::<BidState>::empty());
        a
    }

    /// When the commit phase ends and the reveal phase starts.
    pub fn commit_until_ns(&self) -> (r: u64)
        ensures
            r == commit_end(self@),
    {
        self.opened_ns.saturating_add(self.params.commit_ns)
    }

    /// When the reveal phase ends.
    pub fn reveal_until_ns(&self) -> (r: u64)
        ensures
            r == reveal_end(self@),
    {
        self.commit_until_ns().saturating_add(self.params.reveal_ns)
    }

    /// The phase at `now`.
    pub fn phase(&self, now: u64) -> (r: Phase)
        ensures
            r == phase_at(self@, now),
    {
        if now < self.commit_until_ns() {
            Phase::Commit
        } else if now < self.reveal_until_ns() {
            Phase::Reveal
        } else {
            Phase::Closed
        }
    }

    /// Record a commitment with its escrowed deposit. Returns the deposit
    /// of a replaced earlier commitment by the same bidder.
    pub fn commit(
        &mut self,
        now: u64,
        bidder: Vec<u8>,
        commitment: [u8; 32],
        deposit: u128,
    ) -> (r: Result<Option<u128>, String>)
        ensures
            r is Ok <==> commit_ok(old(self)@, deposit, now),
            r matches Ok(d) ==> d == replaced_deposit(old(self)@, bidder@),
            r is Ok ==> final(self)@ == committed(
                old(self)@,
                (BidState {
                    bidder: bidder@,
                    commitment: commitment@,
                    deposit,
                    committed_ns: now,
                    revealed: None,
                }),
            ),
            r matches Err(e) ==> e@ == commit_error(old(self)@, now),
            r is Err ==> final(self)@ == old(self)@,
    {
        let mut a = lend(self);
        let r = a.commit(now, bidder, commitment, deposit);
        *self = take_back(a);
        r
    }

    /// Open a commitment. The amount must be covered by the deposit.
    pub fn reveal_bid(&mut self, now: u64, bidder: &[u8], amount: u128, salt: &[u8]) -> (r: Result<
        (),
        String,
    >)
        ensures
            r is Ok <==> reveal_error(old(self)@, now, bidder@, amount, salt@) is None,
            r is Ok ==> final(self)@ == revealed_by(old(self)@, bidder@, amount),
            r matches Err(e) ==> Some(e@) == reveal_error(old(self)@, now, bidder@, amount, salt@),
            r is Err ==> final(self)@ == old(self)@,
    {
        let mut a = lend(self);
        let r = a.reveal(now, bidder, amount, salt);
        *self = take_back(a);
        r
    }

    /// The result, once the reveal phase is over.
    pub fn outcome(&self, now: u64) -> (r: Result<Outcome, String>)
        ensures
            r is Ok <==> phase_at(self@, now) is Closed,
            r matches Ok(o) ==> o@ == outcome_of(self@),
            r matches Err(e) ==> e@ == "the auction is still open"@,
    {
        let a = lend(self);
        outcome_by_rules(&a, now)
    }

    /// The position of a bidder's bid, None where there is none.
    pub fn position(&self, bidder: &[u8]) -> (r: Option<usize>)
        ensures
            match r {
                Some(i) => i == bid_of(self@.bids, bidder@) && i < self@.bids.len(),
                None => bid_of(self@.bids, bidder@) >= self@.bids.len(),
            },
    {
        let mut i: usize = 0;
        assert(self@.bids.skip(0) =~= self@.bids);
        while i < self.bids.len()
            invariant
                i <= self.bids@.len(),
                self@.bids.len() == self.bids@.len(),
                bid_of(self@.bids, bidder@) == i + bid_of(self@.bids.skip(i as int), bidder@),
            decreases self.bids.len() - i,
        {
            assert(self@.bids.skip(i as int)[0] == self@.bids[i as int]);
            assert(self@.bids[i as int] == self.bids@[i as int]@);
            if same_bytes(self.bids[i].bidder.as_slice(), bidder) {
                return Some(i);
            }
            assert(self@.bids.skip(i as int).drop_first() =~= self@.bids.skip(i + 1));
            i += 1;
        }
        None
    }
}

/// `bid_of` is the first bid of the bidder.
pub proof fn lemma_bid_of(bids: Seq<BidState>, bidder: Seq<u8>)
    ensures
        0 <= bid_of(bids, bidder) <= bids.len(),
        forall|j: int| 0 <= j < bid_of(bids, bidder) ==> (#[trigger] bids[j]).bidder != bidder,
        bid_of(bids, bidder) < bids.len() ==> bids[bid_of(bids, bidder)].bidder == bidder,
    decreases bids.len(),
{
    if bids.len() > 0 && bids[0].bidder != bidder {
        let t = bids.drop_first();
        lemma_bid_of(t, bidder);
        assert forall|j: int| 0 <= j < bid_of(bids, bidder) implies (#[trigger] bids[j]).bidder
            != bidder by {
            if j > 0 {
                assert(bids[j] == t[j - 1]);
            }
        }
        if bid_of(bids, bidder) < bids.len() {
            assert(bids[bid_of(bids, bidder)] == t[bid_of(t, bidder)]);
        }
    }
}

/// Whether bids are what the rules leave: one of each bidder, and none
/// revealed above its deposit.
pub open spec fn fair(bids: Seq<BidState>) -> bool {
    &&& forall|i: int, j: int|
        0 <= i < j < bids.len() ==> (#[trigger] bids[i]).bidder != (#[trigger] bids[j]).bidder
    &&& forall|i: int|
        0 <= i < bids.len() ==> ((#[trigger] bids[i]).revealed matches Some(a) ==> a
            <= bids[i].deposit)
}

/// A commitment leaves fair bids.
pub proof fn lemma_commit_fair(bids: Seq<BidState>, bid: BidState)
    requires
        fair(bids),
        bid.revealed is None,
    ensures
        fair(bids_with(bids, bid)),
        forall|i: int|
            0 <= i < bids_with(bids, bid).len() - 1 ==> bids.contains(
                #[trigger] bids_with(bids, bid)[i],
            ),
{
    let k = bid_of(bids, bid.bidder);
    let after = bids_with(bids, bid);
    lemma_bid_of(bids, bid.bidder);
    let n = after.len() - 1;
    assert forall|i: int| 0 <= i < n implies bids.contains(#[trigger] after[i])
        && after[i].bidder != bid.bidder by {
        let j = if k < bids.len() && i >= k {
            i + 1
        } else {
            i
        };
        assert(after[i] == bids[j]);
        if k < bids.len() && j > k {
            assert(bids[k].bidder != bids[j].bidder);
        }
    }
    assert forall|i: int, j: int| 0 <= i < j < after.len() implies (#[trigger] after[i]).bidder != (
    #[trigger] after[j]).bidder by {
        if j < n {
            let a = if k < bids.len() && i >= k {
                i + 1
            } else {
                i
            };
            let b = if k < bids.len() && j >= k {
                j + 1
            } else {
                j
            };
            assert(after[i] == bids[a] && after[j] == bids[b]);
        }
    }
    assert forall|i: int| 0 <= i < after.len() implies ((#[trigger] after[i]).revealed matches Some(
        a,
    ) ==> a <= after[i].deposit) by {
        if i < n {
            let a = if k < bids.len() && i >= k {
                i + 1
            } else {
                i
            };
            assert(after[i] == bids[a]);
        }
    }
}

/// Among the first `n` bids, if `j` ranks, some bid ranks first.
proof fn lemma_some_wins(bids: Seq<BidState>, reserve: u128, n: int, j: int) -> (w: int)
    requires
        0 <= j < n <= bids.len(),
        ranks(bids[j], reserve),
    ensures
        0 <= w < n,
        ranks(bids[w], reserve),
        forall|k: int| 0 <= k < n && ranks(#[trigger] bids[k], reserve) ==> outranks(bids, w, k),
    decreases n,
{
    let last = n - 1;
    if exists|k: int| 0 <= k < last && ranks(#[trigger] bids[k], reserve) {
        let k = choose|k: int| 0 <= k < last && ranks(#[trigger] bids[k], reserve);
        let i = lemma_some_wins(bids, reserve, last, k);
        if ranks(bids[last], reserve) && !outranks(bids, i, last) {
            last
        } else {
            i
        }
    } else {
        j
    }
}

/// The highest revealed bid that meets the reserve wins, the earlier of two
/// equal ones. Exactly one bid ranks so, and nobody wins only where no
/// revealed bid meets the reserve.
pub proof fn law_highest_bid_wins(bids: Seq<BidState>, reserve: u128)
    ensures
        winning(bids, reserve) is Some <==> exists|j: int|
            0 <= j < bids.len() && ranks(#[trigger] bids[j], reserve),
        winning(bids, reserve) matches Some(i) ==> wins(bids, reserve, i),
        forall|i: int| #[trigger]
            wins(bids, reserve, i) ==> winning(bids, reserve) == Some(i),
{
    assert forall|i: int, k: int| #[trigger]
        wins(bids, reserve, i) && #[trigger] wins(bids, reserve, k) implies i == k by {
        assert(ranks(bids[i], reserve));
        assert(ranks(bids[k], reserve));
        assert(outranks(bids, i, k));
        assert(outranks(bids, k, i));
    }
    if exists|j: int| 0 <= j < bids.len() && ranks(#[trigger] bids[j], reserve) {
        let j = choose|j: int| 0 <= j < bids.len() && ranks(#[trigger] bids[j], reserve);
        let i = lemma_some_wins(bids, reserve, bids.len() as int, j);
        assert(wins(bids, reserve, i));
    }
    if exists|i: int| wins(bids, reserve, i) {
        let i = choose|i: int| wins(bids, reserve, i);
        assert(ranks(bids[i], reserve));
    }
}

/// Among the first `n` bids other than `i`, if `j` ranks, one is highest.
proof fn lemma_highest_other(bids: Seq<BidState>, reserve: u128, i: int, n: int, j: int) -> (w: int)
    requires
        0 <= j < n <= bids.len(),
        j != i,
        ranks(bids[j], reserve),
    ensures
        0 <= w < n,
        w != i,
        ranks(bids[w], reserve),
        forall|k: int|
            0 <= k < n && k != i && ranks(#[trigger] bids[k], reserve) ==> bids[k].revealed->0
                <= bids[w].revealed->0,
    decreases n,
{
    let last = n - 1;
    if exists|k: int| 0 <= k < last && k != i && ranks(#[trigger] bids[k], reserve) {
        let k = choose|k: int| 0 <= k < last && k != i && ranks(#[trigger] bids[k], reserve);
        let w = lemma_highest_other(bids, reserve, i, last, k);
        if last != i && ranks(bids[last], reserve) && bids[last].revealed->0
            > bids[w].revealed->0 {
            last
        } else {
            w
        }
    } else {
        j
    }
}

/// The winner pays the second price: never more than the winning bid, and
/// never less than the reserve.
pub proof fn law_winner_pays_second_price(bids: Seq<BidState>, reserve: u128)
    ensures
        winning(bids, reserve) matches Some(i) ==> {
            &&& second_price(bids, reserve, i, price_of(bids, reserve))
            &&& reserve <= price_of(bids, reserve) <= bids[i].revealed->0
        },
{
    law_highest_bid_wins(bids, reserve);
    if winning(bids, reserve) is Some {
        let i = winning(bids, reserve)->0;
        if exists|j: int| 0 <= j < bids.len() && j != i && ranks(#[trigger] bids[j], reserve) {
            let j = choose|j: int|
                0 <= j < bids.len() && j != i && ranks(#[trigger] bids[j], reserve);
            let k = lemma_highest_other(bids, reserve, i, bids.len() as int, j);
            let price = bids[k].revealed->0;
            assert(ranks(bids[k], reserve) && bids[k].revealed == Some(price));
            assert(second_price(bids, reserve, i, price));
        } else {
            assert(second_price(bids, reserve, i, reserve));
        }
        let paid = price_of(bids, reserve);
        assert(second_price(bids, reserve, i, paid));
        if exists|j: int| 0 <= j < bids.len() && j != i && ranks(#[trigger] bids[j], reserve) {
            let j = choose|j: int|
                0 <= j < bids.len() && j != i && ranks(#[trigger] bids[j], reserve)
                    && bids[j].revealed == Some(paid);
            assert(outranks(bids, i, j));
        }
    }
}

} // verus!
