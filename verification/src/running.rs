//! Running auctions as they are stored, their settings and their escrow.

use candid::types::value::IDLValue;
use vstd::prelude::*;
use vstd::utf8::*;

use crate::forms::{
    auction_kind, bid_kind, list, pair, running_kind, running_type, terms_kind, terms_type, AUCTION,
    BIDDER, BIDS, COMMITMENT, COMMITTED_NS, COMMIT_NS, DEPOSIT, OPENED_NS, PARAMS, RESERVE,
    REVEALED, REVEAL_NS, TARGETS,
};
use crate::idl::{
    all_read, blob_from, blob_value, candid_bytes, candid_in, datum_of, decode, encode, fields_from,
    fields_of, fits, items_of, list_read, list_value, nat64_from, nat64_value, nat_from, nat_value,
    opt_read, opt_value, optional, read_blob, read_fields, read_list, read_nat, read_nat64,
    read_opt, read_text, record_value, text_from, text_value, Datum, Kind,
};
use crate::maps::{values_in_order, views, Stored};
use crate::order::{lemma_before_irreflexive, lists_texts, text_before, texts_in_order};
use crate::principal::MAX_PRINCIPAL;
use crate::store::{Store, StoreState};
use crate::sums::{lemma_sum_take, lemma_total_listed, sum_of, total_of};
use crate::tax::capped;
use crate::text::seen;
use crate::vickrey::{bid_states, AuctionState, Bid, BidState, Params, SealedAuction};

verus! {

/// The settings of auctions.
#[derive(Clone, Copy, Debug, PartialEq, Eq, Structural)]
pub struct Config {
    /// Length of the commit phase, from the first commitment.
    pub commit_ns: u64,
    /// Length of the reveal phase after it.
    pub reveal_ns: u64,
    /// The least a winner pays, cycles. The least price of the tax applies
    /// too: an auction opens with the larger of the two.
    pub reserve: u128,
}

/// Three days, nanoseconds.
pub const THREE_DAYS_NS: u64 = 3 * 24 * 60 * 60 * 1_000_000_000;

/// Two days, nanoseconds.
pub const TWO_DAYS_NS: u64 = 2 * 24 * 60 * 60 * 1_000_000_000;

/// The config when none was ever set.
pub open spec fn default_config() -> Config {
    Config { commit_ns: THREE_DAYS_NS, reveal_ns: TWO_DAYS_NS, reserve: 0 }
}

impl Default for Config {
    fn default() -> (r: Self)
        ensures
            r == default_config(),
    {
        Config { commit_ns: THREE_DAYS_NS, reveal_ns: TWO_DAYS_NS, reserve: 0 }
    }
}

/// The terms of auctions in candid.
pub open spec fn terms_datum(commit_ns: u64, reveal_ns: u64, reserve: u128) -> Datum {
    Datum::Record(
        seq![
            (REVEAL_NS, Datum::Nat64(reveal_ns)),
            (RESERVE, Datum::Nat(reserve as nat)),
            (COMMIT_NS, Datum::Nat64(commit_ns)),
        ],
    )
}

/// The ids of the fields of terms.
pub open spec fn terms_ids() -> Seq<u32> {
    seq![REVEAL_NS, RESERVE, COMMIT_NS]
}

/// The terms that a value is, as a config, if it is such.
pub open spec fn terms_from(d: Datum) -> Option<Config> {
    match fields_from(d, terms_ids()) {
        Some(f) => match (nat64_from(f[0]), nat_from(f[1]), nat64_from(f[2])) {
            (Some(reveal_ns), Some(reserve), Some(commit_ns)) => Some(
                Config { commit_ns, reveal_ns, reserve },
            ),
            _ => None,
        },
        None => None,
    }
}

/// Terms in candid have their type and read as the terms.
proof fn lemma_terms(commit_ns: u64, reveal_ns: u64, reserve: u128)
    ensures
        fits(terms_datum(commit_ns, reveal_ns, reserve), terms_kind()),
        terms_from(terms_datum(commit_ns, reveal_ns, reserve)) == Some(
            Config { commit_ns, reveal_ns, reserve },
        ),
{
    reveal_with_fuel(fits, 2);
    let fs = terms_datum(commit_ns, reveal_ns, reserve)->Record_0;
    assert(fs.map_values(|f: (u32, Datum)| f.0) =~= terms_ids());
}

/// Put terms in candid.
fn terms_value(commit_ns: u64, reveal_ns: u64, reserve: u128) -> (r: IDLValue)
    ensures
        datum_of(r) == terms_datum(commit_ns, reveal_ns, reserve),
{
    let fs: Vec<(u32, IDLValue)> = vec![
        (REVEAL_NS, nat64_value(reveal_ns)),
        (RESERVE, nat_value(reserve)),
        (COMMIT_NS, nat64_value(commit_ns)),
    ];
    assert(fields_of(fs@) =~= terms_datum(commit_ns, reveal_ns, reserve)->Record_0);
    record_value(fs)
}

/// Read terms.
fn read_terms(v: &IDLValue) -> (r: Option<Config>)
    ensures
        r == terms_from(datum_of(*v)),
{
    let ids: Vec<u32> = vec![REVEAL_NS, RESERVE, COMMIT_NS];
    assert(ids@ =~= terms_ids());
    match read_fields(v, &ids) {
        Some(f) => match (read_nat64(&f[0]), read_nat(&f[1]), read_nat64(&f[2])) {
            (Some(reveal_ns), Some(reserve), Some(commit_ns)) => Some(
                Config { commit_ns, reveal_ns, reserve },
            ),
            _ => None,
        },
        None => None,
    }
}

/// The config stored in `bytes`, if they store one.
pub open spec fn config_in(bytes: Seq<u8>) -> Option<Config> {
    match candid_in(bytes, terms_kind()) {
        Some(d) => terms_from(d),
        None => None,
    }
}

impl Config {
    /// The stored form: the config in candid.
    pub fn to_bytes(&self) -> (r: Vec<u8>)
        ensures
            r@ == candid_bytes(
                terms_datum(self.commit_ns, self.reveal_ns, self.reserve),
                terms_kind(),
            ),
            config_in(r@) == Some(*self),
    {
        proof {
            lemma_terms(self.commit_ns, self.reveal_ns, self.reserve);
        }
        encode(terms_value(self.commit_ns, self.reveal_ns, self.reserve), terms_type())
    }

    /// Read the stored form, None where the bytes hold no config.
    pub fn from_bytes(bytes: &Vec<u8>) -> (r: Option<Config>)
        ensures
            r == config_in(bytes@),
    {
        match decode(bytes, terms_type()) {
            Some(v) => read_terms(&v),
            None => None,
        }
    }
}

// --- running auctions ---------------------------------------------------------------

/// One auction, as stored.
#[derive(Debug, PartialEq, Eq)]
pub struct Running {
    pub auction: SealedAuction,
    /// The scoped name each revealed bidder wants the flat name to alias,
    /// keyed by the bidder's principal bytes.
    pub targets: Vec<(Vec<u8>, String)>,
}

/// A running auction by its contents.
#[verifier::ext_equal]
pub struct RunningState {
    pub auction: AuctionState,
    pub targets: Seq<(Seq<u8>, Seq<char>)>,
}

/// Bidders and their targets by their contents.
pub open spec fn target_states(s: Seq<(Vec<u8>, String)>) -> Seq<(Seq<u8>, Seq<char>)> {
    s.map_values(|e: (Vec<u8>, String)| (e.0@, e.1@))
}

impl View for Running {
    type V = RunningState;

    open spec fn view(&self) -> RunningState {
        RunningState { auction: self.auction@, targets: target_states(self.targets@) }
    }
}

/// Whether every bidder is a principal.
pub open spec fn bidders_fit(r: RunningState) -> bool {
    forall|i: int|
        0 <= i < r.auction.bids.len() ==> (#[trigger] r.auction.bids[i]).bidder.len()
            <= MAX_PRINCIPAL
}

/// A bid in candid.
pub open spec fn bid_datum(b: BidState) -> Datum {
    Datum::Record(
        seq![
            (COMMITTED_NS, Datum::Nat64(b.committed_ns)),
            (DEPOSIT, Datum::Nat(b.deposit as nat)),
            (
                REVEALED,
                optional(
                    match b.revealed {
                        Some(n) => Some(Datum::Nat(n as nat)),
                        None => None,
                    },
                ),
            ),
            (BIDDER, Datum::Blob(b.bidder)),
            (COMMITMENT, Datum::Blob(b.commitment)),
        ],
    )
}

/// The ids of a bid's fields.
pub open spec fn bid_ids() -> Seq<u32> {
    seq![COMMITTED_NS, DEPOSIT, REVEALED, BIDDER, COMMITMENT]
}

/// The bid that a value is, if it is one: a commitment has 32 bytes.
pub open spec fn bid_from(d: Datum) -> Option<BidState> {
    match fields_from(d, bid_ids()) {
        Some(f) => {
            let committed = nat64_from(f[0]);
            let deposit = nat_from(f[1]);
            let revealed = opt_read(f[2], |x: Datum| nat_from(x));
            let bidder = blob_from(f[3]);
            let commitment = blob_from(f[4]);
            if committed is Some && deposit is Some && revealed is Some && bidder is Some
                && commitment is Some && commitment->0.len() == 32 {
                Some(
                    BidState {
                        bidder: bidder->0,
                        commitment: commitment->0,
                        deposit: deposit->0,
                        committed_ns: committed->0,
                        revealed: revealed->0,
                    },
                )
            } else {
                None
            }
        },
        None => None,
    }
}

/// A bidder and their target in candid.
pub open spec fn wanted_datum(e: (Seq<u8>, Seq<char>)) -> Datum {
    Datum::Record(seq![(0u32, Datum::Blob(e.0)), (1u32, Datum::Text(e.1))])
}

/// The bidder and the target that a value is, if it is such a pair.
pub open spec fn wanted_from(d: Datum) -> Option<(Seq<u8>, Seq<char>)> {
    match fields_from(d, seq![0u32, 1u32]) {
        Some(f) => match (blob_from(f[0]), text_from(f[1])) {
            (Some(b), Some(t)) => Some((b, t)),
            _ => None,
        },
        None => None,
    }
}

/// Bids in candid.
pub open spec fn bids_datum(bids: Seq<BidState>) -> Datum {
    Datum::List(bids.map_values(|b: BidState| bid_datum(b)))
}

/// An auction in candid.
pub open spec fn auction_datum(a: AuctionState) -> Datum {
    Datum::Record(
        seq![
            (BIDS, bids_datum(a.bids)),
            (OPENED_NS, Datum::Nat64(a.opened_ns)),
            (PARAMS, terms_datum(a.params.commit_ns, a.params.reveal_ns, a.params.reserve)),
        ],
    )
}

/// The auction that a value is, if it is one.
pub open spec fn auction_from(d: Datum) -> Option<AuctionState> {
    match fields_from(d, seq![BIDS, OPENED_NS, PARAMS]) {
        Some(f) => match (
            list_read(f[0], |x: Datum| bid_from(x)),
            nat64_from(f[1]),
            terms_from(f[2]),
        ) {
            (Some(bids), Some(opened_ns), Some(t)) => Some(
                AuctionState {
                    params: Params {
                        commit_ns: t.commit_ns,
                        reveal_ns: t.reveal_ns,
                        reserve: t.reserve,
                    },
                    opened_ns,
                    bids,
                },
            ),
            _ => None,
        },
        None => None,
    }
}

/// Bidders and their targets in candid.
pub open spec fn targets_datum(targets: Seq<(Seq<u8>, Seq<char>)>) -> Datum {
    Datum::List(targets.map_values(|e: (Seq<u8>, Seq<char>)| wanted_datum(e)))
}

/// A running auction in candid.
pub open spec fn running_datum(r: RunningState) -> Datum {
    Datum::Record(
        seq![(TARGETS, targets_datum(r.targets)), (AUCTION, auction_datum(r.auction))],
    )
}

/// The running auction that a value is, if it is one.
pub open spec fn running_from(d: Datum) -> Option<RunningState> {
    match fields_from(d, seq![TARGETS, AUCTION]) {
        Some(f) => match (list_read(f[0], |x: Datum| wanted_from(x)), auction_from(f[1])) {
            (Some(targets), Some(auction)) => Some(RunningState { auction, targets }),
            _ => None,
        },
        None => None,
    }
}

/// The running auction stored in `bytes`, if they store one.
pub open spec fn running_in(bytes: Seq<u8>) -> Option<RunningState> {
    match candid_in(bytes, running_kind()) {
        Some(d) => running_from(d),
        None => None,
    }
}

/// A bid in candid has the type of bids and reads as the bid.
proof fn lemma_bid(b: BidState)
    requires
        b.commitment.len() == 32,
    ensures
        fits(bid_datum(b), bid_kind()),
        bid_from(bid_datum(b)) == Some(b),
{
    reveal_with_fuel(fits, 3);
    let fs = bid_datum(b)->Record_0;
    assert(fs.map_values(|f: (u32, Datum)| f.0) =~= bid_ids());
}

/// Bids in candid have their type and read as the bids.
proof fn lemma_bids(bids: Seq<BidState>)
    requires
        forall|i: int| 0 <= i < bids.len() ==> (#[trigger] bids[i]).commitment.len() == 32,
    ensures
        fits(bids_datum(bids), list(bid_kind())),
        list_read(bids_datum(bids), |x: Datum| bid_from(x)) == Some(bids),
{
    let xs = bids_datum(bids)->List_0;
    let read = |x: Datum| bid_from(x);
    assert forall|i: int| 0 <= i < xs.len() implies read(#[trigger] xs[i]) == Some(bids[i]) && fits(
        xs[i],
        bid_kind(),
    ) by {
        lemma_bid(bids[i]);
    }
    assert(all_read(xs, read)->0 =~= bids);
}

/// Bidders and targets in candid have their type and read as themselves.
proof fn lemma_targets(targets: Seq<(Seq<u8>, Seq<char>)>)
    ensures
        fits(targets_datum(targets), list(pair(Kind::Blob, Kind::Text))),
        list_read(targets_datum(targets), |x: Datum| wanted_from(x)) == Some(targets),
{
    reveal_with_fuel(fits, 3);
    let xs = targets_datum(targets)->List_0;
    let read = |x: Datum| wanted_from(x);
    assert forall|i: int| 0 <= i < xs.len() implies read(#[trigger] xs[i]) == Some(targets[i]) by {
        let fs = wanted_datum(targets[i])->Record_0;
        assert(xs[i] == wanted_datum(targets[i]));
        assert(fs.map_values(|f: (u32, Datum)| f.0) =~= seq![0u32, 1u32]);
    }
    assert(all_read(xs, read)->0 =~= targets);
}

/// A running auction in candid has the type of running auctions and reads
/// as the auction.
proof fn lemma_running(r: RunningState)
    requires
        forall|i: int|
            0 <= i < r.auction.bids.len() ==> (#[trigger] r.auction.bids[i]).commitment.len() == 32,
    ensures
        fits(running_datum(r), running_kind()),
        running_from(running_datum(r)) == Some(r),
{
    let a = r.auction;
    lemma_terms(a.params.commit_ns, a.params.reveal_ns, a.params.reserve);
    lemma_bids(a.bids);
    lemma_targets(r.targets);
    let fs = auction_datum(a)->Record_0;
    assert(fs.map_values(|f: (u32, Datum)| f.0) =~= seq![BIDS, OPENED_NS, PARAMS]);
    assert(fits(Datum::Nat64(a.opened_ns), Kind::Nat64));
    assert(fits(auction_datum(a), auction_kind()));
    let gs = running_datum(r)->Record_0;
    assert(gs.map_values(|f: (u32, Datum)| f.0) =~= seq![TARGETS, AUCTION]);
}

/// The 32 bytes of a hash.
fn hash_from(v: &Vec<u8>) -> (r: [u8; 32])
    requires
        v@.len() == 32,
    ensures
        r@ == v@,
{
    let mut a = [0u8;32];
    let mut i: usize = 0;
    while i < 32
        invariant
            i <= 32,
            v@.len() == 32,
            a@.len() == 32,
            forall|j: int| 0 <= j < i ==> a@[j] == v@[j],
        decreases 32 - i,
    {
        a[i] = v[i];
        i += 1;
    }
    assert(a@ =~= v@);
    a
}

/// The bytes of a hash.
fn hash_bytes(a: &[u8; 32]) -> (r: Vec<u8>)
    ensures
        r@ == a@,
{
    let mut v: Vec<u8> = Vec::new();
    let mut i: usize = 0;
    while i < 32
        invariant
            i <= 32,
            v@ == a@.take(i as int),
        decreases 32 - i,
    {
        v.push(a[i]);
        assert(a@.take(i + 1) =~= a@.take(i as int).push(a@[i as int]));
        i += 1;
    }
    assert(a@.take(32) =~= a@);
    v
}

/// Put a bid in candid.
fn bid_value(b: &Bid) -> (r: IDLValue)
    ensures
        datum_of(r) == bid_datum(b@),
{
    let revealed = opt_value(
        match b.revealed {
            Some(n) => Some(nat_value(n)),
            None => None,
        },
    );
    let commitment = hash_bytes(&b.commitment);
    let fs: Vec<(u32, IDLValue)> = vec![
        (COMMITTED_NS, nat64_value(b.committed_ns)),
        (DEPOSIT, nat_value(b.deposit)),
        (REVEALED, revealed),
        (BIDDER, blob_value(b.bidder.as_slice())),
        (COMMITMENT, blob_value(commitment.as_slice())),
    ];
    assert(fields_of(fs@) =~= bid_datum(b@)->Record_0);
    record_value(fs)
}

/// Read a bid.
fn read_bid(v: &IDLValue) -> (r: Option<Bid>)
    ensures
        seen(r) == bid_from(datum_of(*v)),
{
    let ids: Vec<u32> = vec![COMMITTED_NS, DEPOSIT, REVEALED, BIDDER, COMMITMENT];
    assert(ids@ =~= bid_ids());
    let f = match read_fields(v, &ids) {
        Some(f) => f,
        None => {
            return None;
        },
    };
    let revealed: Option<u128> = match read_opt(&f[2]) {
        Some(Some(x)) => match read_nat(&x) {
            Some(n) => Some(n),
            None => {
                return None;
            },
        },
        Some(None) => None,
        None => {
            return None;
        },
    };
    match (read_nat64(&f[0]), read_nat(&f[1]), read_blob(&f[3]), read_blob(&f[4])) {
        (Some(committed_ns), Some(deposit), Some(bidder), Some(hash)) => if hash.len() == 32 {
            Some(Bid { bidder, commitment: hash_from(&hash), deposit, committed_ns, revealed })
        } else {
            None
        },
        _ => None,
    }
}

/// Put bids in candid.
fn bids_value(bids: &Vec<Bid>) -> (r: IDLValue)
    ensures
        datum_of(r) == bids_datum(bid_states(bids@)),
{
    let mut vs: Vec<IDLValue> = Vec::new();
    let ghost want = bids_datum(bid_states(bids@))->List_0;
    let mut i: usize = 0;
    assert(items_of(vs@) =~= want.take(0));
    while i < bids.len()
        invariant
            i <= bids@.len(),
            want == bids_datum(bid_states(bids@))->List_0,
            items_of(vs@) == want.take(i as int),
        decreases bids.len() - i,
    {
        let ghost before = vs@;
        vs.push(bid_value(&bids[i]));
        proof {
            assert(items_of(vs@) =~= items_of(before).push(want[i as int]));
            assert(want.take(i + 1) =~= want.take(i as int).push(want[i as int]));
        }
        i += 1;
    }
    assert(want.take(i as int) =~= want);
    list_value(vs)
}

/// Read bids.
fn read_bids(v: &IDLValue) -> (r: Option<Vec<Bid>>)
    ensures
        r is Some <==> list_read(datum_of(*v), |x: Datum| bid_from(x)) is Some,
        r matches Some(bids) ==> list_read(datum_of(*v), |x: Datum| bid_from(x)) == Some(
            bid_states(bids@),
        ),
{
    let vs = match read_list(v) {
        Some(vs) => vs,
        None => {
            return None;
        },
    };
    let ghost xs = items_of(vs@);
    let ghost read = |x: Datum| bid_from(x);
    let mut bids: Vec<Bid> = Vec::new();
    let mut i: usize = 0;
    while i < vs.len()
        invariant
            i <= vs@.len(),
            xs == items_of(vs@),
            read == (|x: Datum| bid_from(x)),
            list_read(datum_of(*v), read) == all_read(xs, read),
            bids@.len() == i,
            forall|j: int| 0 <= j < i ==> read(#[trigger] xs[j]) == Some(bid_states(bids@)[j]),
        decreases vs.len() - i,
    {
        let ghost before = bids@;
        assert(xs[i as int] == datum_of(vs@[i as int]));
        match read_bid(&vs[i]) {
            Some(b) => {
                bids.push(b);
                assert(bid_states(bids@) =~= bid_states(before).push(b@));
            },
            None => {
                assert(read(xs[i as int]) is None);
                return None;
            },
        }
        i += 1;
    }
    assert(all_read(xs, read)->0 =~= bid_states(bids@));
    Some(bids)
}

/// Put bidders and their targets in candid.
fn targets_value(targets: &Vec<(Vec<u8>, String)>) -> (r: IDLValue)
    ensures
        datum_of(r) == targets_datum(target_states(targets@)),
{
    let mut vs: Vec<IDLValue> = Vec::new();
    let ghost want = targets_datum(target_states(targets@))->List_0;
    let mut i: usize = 0;
    assert(items_of(vs@) =~= want.take(0));
    while i < targets.len()
        invariant
            i <= targets@.len(),
            want == targets_datum(target_states(targets@))->List_0,
            items_of(vs@) == want.take(i as int),
        decreases targets.len() - i,
    {
        let ghost before = vs@;
        let fs: Vec<(u32, IDLValue)> = vec![
            (0, blob_value(targets[i].0.as_slice())),
            (1, text_value(targets[i].1.as_str())),
        ];
        assert(fields_of(fs@) =~= wanted_datum(target_states(targets@)[i as int])->Record_0);
        vs.push(record_value(fs));
        proof {
            assert(items_of(vs@) =~= items_of(before).push(want[i as int]));
            assert(want.take(i + 1) =~= want.take(i as int).push(want[i as int]));
        }
        i += 1;
    }
    assert(want.take(i as int) =~= want);
    list_value(vs)
}

/// Read bidders and their targets.
fn read_targets(v: &IDLValue) -> (r: Option<Vec<(Vec<u8>, String)>>)
    ensures
        r is Some <==> list_read(datum_of(*v), |x: Datum| wanted_from(x)) is Some,
        r matches Some(targets) ==> list_read(datum_of(*v), |x: Datum| wanted_from(x)) == Some(
            target_states(targets@),
        ),
{
    let vs = match read_list(v) {
        Some(vs) => vs,
        None => {
            return None;
        },
    };
    let ghost xs = items_of(vs@);
    let ghost read = |x: Datum| wanted_from(x);
    let ids: Vec<u32> = vec![0, 1];
    let mut targets: Vec<(Vec<u8>, String)> = Vec::new();
    let mut i: usize = 0;
    while i < vs.len()
        invariant
            i <= vs@.len(),
            ids@ == seq![0u32, 1u32],
            xs == items_of(vs@),
            read == (|x: Datum| wanted_from(x)),
            list_read(datum_of(*v), read) == all_read(xs, read),
            targets@.len() == i,
            forall|j: int|
                0 <= j < i ==> read(#[trigger] xs[j]) == Some(target_states(targets@)[j]),
        decreases vs.len() - i,
    {
        let ghost before = targets@;
        assert(xs[i as int] == datum_of(vs@[i as int]));
        let (b, t) = match read_fields(&vs[i], &ids) {
            Some(f) => match (read_blob(&f[0]), read_text(&f[1])) {
                (Some(b), Some(t)) => (b, t),
                _ => {
                    assert(read(xs[i as int]) is None);
                    return None;
                },
            },
            None => {
                assert(read(xs[i as int]) is None);
                return None;
            },
        };
        targets.push((b, t));
        assert(target_states(targets@) =~= target_states(before).push((b@, t@)));
        i += 1;
    }
    assert(all_read(xs, read)->0 =~= target_states(targets@));
    Some(targets)
}

/// Read an auction.
fn read_auction(v: &IDLValue) -> (r: Option<SealedAuction>)
    ensures
        seen(r) == auction_from(datum_of(*v)),
{
    let ids: Vec<u32> = vec![BIDS, OPENED_NS, PARAMS];
    assert(ids@ =~= seq![BIDS, OPENED_NS, PARAMS]);
    match read_fields(v, &ids) {
        Some(f) => match (read_bids(&f[0]), read_nat64(&f[1]), read_terms(&f[2])) {
            (Some(bids), Some(opened_ns), Some(t)) => Some(
                SealedAuction {
                    params: Params {
                        commit_ns: t.commit_ns,
                        reveal_ns: t.reveal_ns,
                        reserve: t.reserve,
                    },
                    opened_ns,
                    bids,
                },
            ),
            _ => None,
        },
        None => None,
    }
}

impl Running {
    /// The stored form: the auction in candid.
    pub fn to_bytes(&self) -> (r: Vec<u8>)
        ensures
            r@ == candid_bytes(running_datum(self@), running_kind()),
            running_in(r@) == Some(self@),
    {
        let a = &self.auction;
        let inner: Vec<(u32, IDLValue)> = vec![
            (BIDS, bids_value(&a.bids)),
            (OPENED_NS, nat64_value(a.opened_ns)),
            (PARAMS, terms_value(a.params.commit_ns, a.params.reveal_ns, a.params.reserve)),
        ];
        assert(fields_of(inner@) =~= auction_datum(self@.auction)->Record_0);
        let fs: Vec<(u32, IDLValue)> = vec![
            (TARGETS, targets_value(&self.targets)),
            (AUCTION, record_value(inner)),
        ];
        proof {
            assert(fields_of(fs@) =~= running_datum(self@)->Record_0);
            assert forall|i: int| 0 <= i < self@.auction.bids.len() implies (
            #[trigger] self@.auction.bids[i]).commitment.len() == 32 by {
                assert(self@.auction.bids[i] == a.bids@[i]@);
            }
            lemma_running(self@);
        }
        encode(record_value(fs), running_type())
    }

    /// Read the stored form, None where the bytes hold no running auction.
    pub fn from_bytes(bytes: &Vec<u8>) -> (r: Option<Running>)
        ensures
            seen(r) == running_in(bytes@),
    {
        let v = match decode(bytes, running_type()) {
            Some(v) => v,
            None => {
                return None;
            },
        };
        let ids: Vec<u32> = vec![TARGETS, AUCTION];
        assert(ids@ =~= seq![TARGETS, AUCTION]);
        match read_fields(&v, &ids) {
            Some(f) => match (read_targets(&f[0]), read_auction(&f[1])) {
                (Some(targets), Some(auction)) => Some(Running { auction, targets }),
                _ => None,
            },
            None => None,
        }
    }
}

impl Stored for Running {
    open spec fn stored(bytes: Seq<u8>) -> Option<RunningState> {
        running_in(bytes)
    }

    open spec fn belongs(v: RunningState, key: Seq<char>) -> bool {
        bidders_fit(v)
    }

    fn store(&self) -> (r: Vec<u8>) {
        self.to_bytes()
    }

    fn load(bytes: &Vec<u8>) -> (r: Option<Running>) {
        Running::from_bytes(bytes)
    }

    fn fits_key(&self, key: &str) -> (r: bool) {
        let mut i: usize = 0;
        while i < self.auction.bids.len()
            invariant
                i <= self.auction.bids@.len(),
                self@.auction.bids == bid_states(self.auction.bids@),
                forall|j: int|
                    0 <= j < i ==> (#[trigger] self@.auction.bids[j]).bidder.len() <= MAX_PRINCIPAL,
            decreases self.auction.bids.len() - i,
        {
            assert(self@.auction.bids[i as int] == self.auction.bids@[i as int]@);
            if self.auction.bids[i].bidder.len() > MAX_PRINCIPAL {
                return false;
            }
            i += 1;
        }
        true
    }
}

// --- escrow -------------------------------------------------------------------------------

/// The deposits of an auction's bids.
pub open spec fn deposits_of(bids: Seq<BidState>) -> Seq<nat> {
    bids.map_values(|b: BidState| b.deposit as nat)
}

/// What each auction holds in escrow.
pub open spec fn escrows(m: Map<Seq<char>, RunningState>) -> Map<Seq<char>, nat> {
    m.map_values(|r: RunningState| sum_of(deposits_of(r.auction.bids)))
}

/// Deposits escrowed in auctions not yet closed.
pub open spec fn escrow_of(s: StoreState) -> nat {
    total_of(escrows(s.auctions))
}

/// The deposits of an auction, added to an amount that stops at the largest.
fn add_deposits(acc: u128, r: &Running, before: Ghost<nat>) -> (sum: u128)
    requires
        acc == capped(before@ as int),
    ensures
        sum == capped((before@ + sum_of(deposits_of(r@.auction.bids))) as int),
{
    let bids = &r.auction.bids;
    let ghost all = deposits_of(r@.auction.bids);
    let mut sum: u128 = acc;
    let mut i: usize = 0;
    assert(all.take(0) =~= Seq::<nat>::empty());
    while i < bids.len()
        invariant
            i <= bids@.len(),
            *bids == r.auction.bids,
            all == deposits_of(r@.auction.bids),
            sum == capped((before@ + sum_of(all.take(i as int))) as int),
        decreases bids.len() - i,
    {
        proof {
            assert(r@.auction.bids[i as int] == bids@[i as int]@);
            assert(all[i as int] == bids@[i as int].deposit as nat);
            lemma_sum_take(all, i as int);
        }
        sum = sum.saturating_add(bids[i].deposit);
        i += 1;
    }
    assert(all.take(i as int) =~= all);
    sum
}

/// Deposits escrowed in auctions not yet closed, cycles. A ledger change
/// would strand them.
pub fn escrowed(store: &Store) -> (r: u128)
    ensures
        r == capped(escrow_of(store@) as int),
        store@.auctions.dom().finite(),
{
    let keys = store.auctions.keys();
    let running = store.auctions.values();
    let ghost m = escrows(store@.auctions);
    let ghost names = texts_in_order(store@.auctions.dom());
    let ghost all = names.map_values(|n: Seq<char>| m[n]);
    proof {
        assert(m.dom() =~= store@.auctions.dom());
        assert forall|i: int, j: int| 0 <= i < names.len() && 0 <= j < names.len() && i
            != j implies names[i] != names[j] by {
            if i < j {
                assert(text_before(names[i], names[j]));
            } else {
                assert(text_before(names[j], names[i]));
            }
            lemma_before_irreflexive(encode_utf8(names[i]));
        }
        assert forall|n: Seq<char>| #[trigger] m.contains_key(n) implies names.contains(n) by {
            assert(store@.auctions.dom().contains(n));
        }
        assert forall|i: int| 0 <= i < names.len() implies m.contains_key(#[trigger] names[i]) by {
            assert(store@.auctions.dom().contains(names[i]));
        }
        lemma_total_listed(names, m);
    }
    let mut acc: u128 = 0;
    let mut i: usize = 0;
    assert(all.take(0) =~= Seq::<nat>::empty());
    while i < running.len()
        invariant
            i <= running@.len(),
            m == escrows(store@.auctions),
            names == texts_in_order(store@.auctions.dom()),
            lists_texts(names, store@.auctions.dom()),
            all == names.map_values(|n: Seq<char>| m[n]),
            views(running@) == values_in_order(store@.auctions),
            running@.len() == names.len(),
            acc == capped(sum_of(all.take(i as int)) as int),
        decreases running.len() - i,
    {
        proof {
            assert(views(running@)[i as int] == running@[i as int]@);
            assert(values_in_order(store@.auctions)[i as int] == store@.auctions[names[i as int]]);
            assert(store@.auctions.dom().contains(names[i as int]));
            assert(all[i as int] == sum_of(deposits_of(running@[i as int]@.auction.bids)));
            lemma_sum_take(all, i as int);
        }
        acc = add_deposits(acc, &running[i], Ghost(sum_of(all.take(i as int))));
        i += 1;
    }
    assert(all.take(i as int) =~= all);
    acc
}

} // verus!
