//! Flat names under the Harberger tax.
//!
//! Every payment is a pull from the caller's cycles ledger account, and the
//! registry can change while a pull is in flight. So each payment has two
//! halves. The first validates, takes a snapshot of the record and says what
//! to pull; it writes nothing. The second gets the ledger's answer, takes
//! the snapshot again at the new time, and if the two differ credits the
//! payer back and fails.

use vstd::prelude::*;
use vstd::utf8::*;

use crate::harberger;
use crate::harberger::{
    params_of, record_status, record_tax, settled_record, with_tax, with_unreconciled, Config,
    ConfigState,
};
use crate::ledger;
use crate::ledger::{
    answer, failure_text, nothing_moved_by, pulls, Failure, FailureState, TransferFromArgs,
};
use crate::maps::{lookup, owed};
use crate::names;
use crate::names::{flat_error, is_flat_name, is_scoped_name};
use crate::principal::{anonymous, principal_text, Principal};
use crate::record::{fresh_record, Record, RecordState, Target, TargetState};
use crate::registry::{
    authorize_flat, caller_fault, check_caller, check_flat_target, commit_flat, counts_tax,
    flat_fault, good_record, holds_flat, lemma_flat_sound, lemma_record_sound, missing, settled_now,
    sound, target_fault, touches_only, with_flat, with_record, with_store, Registry, RegistryState,
};
use crate::resolve::{in_hands, keyed_by_name};
use crate::settings::SettingsState;
use crate::store;
use crate::store::{credited, Store, StoreState};
use crate::tax::{
    capped, lapsed_empty, least_deposit, lemma_settled, lemma_tax_over, settled, status_at, taken,
    Harberger, Params, Status, MAX_PRICE,
};
use crate::text::{decimal, decimal_text, join3, join4, join5, seen};

verus! {

// --- snapshots --------------------------------------------------------------------------

/// What a payment compares across its pull.
pub struct Snapshot {
    pub owner: Principal,
    pub price: u128,
    pub changed_hands_ns: u64,
    pub status: Status,
}

/// A snapshot by its contents.
#[verifier::ext_equal]
pub struct SnapshotState {
    pub owner: Seq<u8>,
    pub price: u128,
    pub changed_hands_ns: u64,
    pub status: Status,
}

impl View for Snapshot {
    type V = SnapshotState;

    open spec fn view(&self) -> SnapshotState {
        SnapshotState {
            owner: self.owner@,
            price: self.price,
            changed_hands_ns: self.changed_hands_ns,
            status: self.status,
        }
    }
}

/// Whether two snapshots are the same.
fn same_snapshot(a: &Snapshot, b: &Snapshot) -> (r: bool)
    ensures
        r == (a@ == b@),
{
    a.owner.same(&b.owner) && a.price == b.price && a.changed_hands_ns == b.changed_hands_ns
        && a.status == b.status
}

/// The snapshot of a stored flat record at `now`, None where there is none.
pub open spec fn snapshot_of(s: StoreState, p: Params, name: Seq<char>, now: u64) -> Option<
    SnapshotState,
> {
    if s.records.contains_key(name) && s.records[name].flat is Some {
        let r = s.records[name];
        Some(
            SnapshotState {
                owner: r.owner,
                price: r.flat->0.price,
                changed_hands_ns: r.changed_hands_ns,
                status: record_status(p, r, now),
            },
        )
    } else {
        None
    }
}

/// The stored flat record settled to `now`, the tax a commit would owe the
/// treasury, and its snapshot; None where there is none. The settled copy is
/// not stored.
fn snapshot(store: &Store, cfg: &Config, name: &str, now: u64) -> (r: Option<
    (Record, u128, Snapshot),
>)
    ensures
        r is Some <==> snapshot_of(store@, params_of(cfg@), name@, now) is Some,
        r matches Some(x) ==> {
            &&& x.0@ == settled_record(params_of(cfg@), store@.records[name@], now)
            &&& x.0@.name == name@
            &&& x.1 == record_tax(params_of(cfg@), store@.records[name@], now)
            &&& Some(x.2@) == snapshot_of(store@, params_of(cfg@), name@, now)
        },
{
    let mut r = match store::get_record(store, name) {
        Some(r) => r,
        None => {
            return None;
        },
    };
    let (status, tax) = harberger::settle_record(cfg, &mut r, now);
    let price: u128 = match &r.flat {
        Some(h) => h.price,
        None => {
            return None;
        },
    };
    proof {
        lemma_settled(params_of(cfg@), store@.records[name@].flat->0, now);
    }
    let snap = Snapshot {
        owner: r.owner.clone(),
        price,
        changed_hands_ns: r.changed_hands_ns,
        status,
    };
    Some((r, tax, snap))
}

// --- checks -----------------------------------------------------------------------------

/// Claiming is refused while the market is closed. Buying a held name is
/// never gated: the forced sale is what keeps a holder's price honest.
pub fn market_open(cfg: &Config) -> (r: Result<(), String>)
    ensures
        r is Ok <==> cfg@.flat_names_open,
        r matches Err(e) ==> e@ == "flat names are not open for claiming yet"@,
{
    if cfg.flat_names_open {
        Ok(())
    } else {
        Err("flat names are not open for claiming yet".to_string())
    }
}

/// Why a price is refused.
pub open spec fn price_fault(c: ConfigState, price: u128) -> Option<Seq<char>> {
    if price < c.min_price {
        Some("price below the minimum of "@ + decimal(c.min_price as nat) + " cycles"@)
    } else if price > MAX_PRICE {
        Some("price above the maximum of "@ + decimal(MAX_PRICE as nat) + " cycles"@)
    } else {
        None
    }
}

/// A price must lie between the configured minimum and the maximum.
pub fn check_price(cfg: &Config, price: u128) -> (r: Result<(), String>)
    ensures
        r is Ok <==> price_fault(cfg@, price) is None,
        r matches Err(e) ==> price_fault(cfg@, price) == Some(e@),
{
    if price < cfg.min_price {
        return Err(
            join3("price below the minimum of ", decimal_text(cfg.min_price).as_str(), " cycles"),
        );
    }
    if price > MAX_PRICE {
        return Err(
            join3("price above the maximum of ", decimal_text(MAX_PRICE).as_str(), " cycles"),
        );
    }
    Ok(())
}

/// Why a deposit is refused.
pub open spec fn deposit_fault(c: ConfigState, price: u128, deposit: u128) -> Option<Seq<char>> {
    let min = least_deposit(params_of(c), price);
    if deposit < min {
        Some(
            "deposit must cover one grace period of tax: at least "@ + decimal(min as nat)
                + " cycles at this price"@,
        )
    } else {
        None
    }
}

/// A deposit must cover one grace period of tax.
pub fn check_deposit(cfg: &Config, price: u128, deposit: u128) -> (r: Result<(), String>)
    ensures
        r is Ok <==> deposit_fault(cfg@, price, deposit) is None,
        r matches Err(e) ==> deposit_fault(cfg@, price, deposit) == Some(e@),
{
    let min: u128 = harberger::min_deposit(cfg, price);
    if deposit < min {
        return Err(
            join3(
                "deposit must cover one grace period of tax: at least ",
                decimal_text(min).as_str(),
                " cycles at this price",
            ),
        );
    }
    Ok(())
}

/// Why the terms of a claim or a buy are refused, whatever is stored.
pub open spec fn terms_fault(
    c: ConfigState,
    caller: Seq<u8>,
    name: Seq<char>,
    target: TargetState,
    price: u128,
    deposit: u128,
) -> Option<Seq<char>> {
    if caller_fault(caller) is Some {
        caller_fault(caller)
    } else if !is_flat_name(name) {
        Some(flat_error(name))
    } else if target_fault(target) is Some {
        target_fault(target)
    } else if price_fault(c, price) is Some {
        price_fault(c, price)
    } else {
        deposit_fault(c, price, deposit)
    }
}

/// Check the terms of a claim or a buy.
fn check_terms(
    cfg: &Config,
    caller: &Principal,
    name: &str,
    target: &Target,
    price: u128,
    deposit: u128,
) -> (r: Result<(), String>)
    ensures
        r is Ok <==> terms_fault(cfg@, caller@, name@, target@, price, deposit) is None,
        r matches Err(e) ==> terms_fault(cfg@, caller@, name@, target@, price, deposit) == Some(e@),
{
    match check_caller(caller) {
        Err(e) => {
            return Err(e);
        },
        Ok(_) => {},
    }
    match names::check_flat(name) {
        Err(e) => {
            return Err(e);
        },
        Ok(_) => {},
    }
    match check_flat_target(target) {
        Err(e) => {
            return Err(e);
        },
        Ok(_) => {},
    }
    match check_price(cfg, price) {
        Err(e) => {
            return Err(e);
        },
        Ok(_) => {},
    }
    check_deposit(cfg, price, deposit)
}

// --- calls in flight ----------------------------------------------------------------------

/// The registry with one more ledger call awaiting a reply.
pub open spec fn sent(s: RegistryState) -> RegistryState {
    RegistryState {
        in_flight: if s.in_flight < u32::MAX {
            (s.in_flight + 1) as u32
        } else {
            u32::MAX
        },
        ..s
    }
}

/// The registry with one ledger call less awaiting a reply.
pub open spec fn landed(s: RegistryState) -> RegistryState {
    RegistryState {
        in_flight: if s.in_flight > 0 {
            (s.in_flight - 1) as u32
        } else {
            0
        },
        ..s
    }
}

/// What is noted of a pull whose reply could not be decoded.
pub open spec fn pull_note(payer: Seq<u8>, amount: u128, f: FailureState) -> Seq<char> {
    "pull "@ + decimal(amount as nat) + " from "@ + principal_text(payer) + ": "@ + failure_text(f)
}

/// The registry after a pull that failed: a reply that could not be decoded
/// may have moved the cycles, so the amount is recorded as unreconciled.
pub open spec fn pull_failed(s: RegistryState, payer: Seq<u8>, amount: u128, f: FailureState) -> RegistryState {
    if nothing_moved_by(f) {
        s
    } else {
        with_store(s, with_unreconciled(s.store, amount, pull_note(payer, amount, f)))
    }
}

/// Book a failed pull.
fn book_failed_pull(reg: &mut Registry, payer: &Principal, amount: u128, f: &Failure)
    ensures
        final(reg)@ == pull_failed(old(reg)@, payer@, amount, f@),
{
    if !f.nothing_moved() {
        let mut note = join4(
            "pull ",
            decimal_text(amount).as_str(),
            " from ",
            payer.to_text().as_str(),
        );
        note.append(": ");
        note.append(f.message().as_str());
        harberger::note_unreconciled(&mut reg.store, amount, note.as_str());
    }
}

/// The registry with an amount credited to a principal.
pub open spec fn with_credit(s: RegistryState, p: Seq<u8>, amount: u128) -> RegistryState {
    with_store(s, StoreState { credits: credited(s.store.credits, p, amount), ..s.store })
}

/// A fresh holding.
pub open spec fn holding(price: u128, deposit: u128, now: u64) -> Harberger {
    Harberger { price, balance: deposit, settled_ns: now, lapsed_ns: None }
}

/// A settled record handed over: new owner and target, the old target
/// remembered, text records cleared, a fresh holding.
pub open spec fn handed_over(
    r: RecordState,
    owner: Seq<u8>,
    target: TargetState,
    h: Harberger,
    now: u64,
) -> RecordState {
    RecordState {
        owner,
        previous_target: Some(r.target),
        target,
        text: Seq::empty(),
        updated_ns: now,
        changed_hands_ns: now,
        flat: Some(h),
        ..r
    }
}

/// Hand a settled record over.
pub(crate) fn hand_over(r: Record, owner: Principal, target: Target, h: Harberger, now: u64) -> (out:
    Record)
    ensures
        out@ == handed_over(r@, owner@, target@, h, now),
{
    let Record {
        name,
        owner: _,
        target: before,
        previous_target: _,
        text: _,
        created_ns,
        updated_ns: _,
        changed_hands_ns: _,
        flat: _,
    } = r;
    let out = Record {
        name,
        owner,
        target,
        previous_target: Some(before),
        text: Vec::new(),
        created_ns,
        updated_ns: now,
        changed_hands_ns: now,
        flat: Some(h),
    };
    assert(out@.text =~= Seq::<(Seq<char>, Seq<char>)>::empty());
    out
}

/// A record handed over to a scoped alias, or a fresh one, keeps the
/// registry sound once its tax is counted.
pub(crate) proof fn lemma_handed_over_sound(s: RegistryState, r: RecordState, tax: u128)
    requires
        sound(s),
        is_flat_name(r.name),
        r.flat matches Some(h) && lapsed_empty(h),
        r.text.len() == 0,
        r.target matches TargetState::Alias(to) && is_scoped_name(to),
        r.previous_target matches Some(t) ==> crate::registry::aliases_scoped(t),
    ensures
        sound(with_record(with_store(s, with_tax(s.store, tax)), r)),
{
    let taxed = with_store(s, with_tax(s.store, tax));
    assert(sound(taxed));
    names::lemma_segment_no_slash(r.name);
    lemma_record_sound(taxed, r);
}

// --- claim ------------------------------------------------------------------------------

/// A claim whose deposit is being pulled.
pub struct Claim {
    caller: Principal,
    name: String,
    target: Target,
    price: u128,
    deposit: u128,
    cfg: Config,
    before: Option<Snapshot>,
}

/// A claim by its contents.
#[verifier::ext_equal]
pub struct ClaimState {
    pub caller: Seq<u8>,
    pub name: Seq<char>,
    pub target: TargetState,
    pub price: u128,
    pub deposit: u128,
    pub cfg: ConfigState,
    pub before: Option<SnapshotState>,
}

impl View for Claim {
    type V = ClaimState;

    closed spec fn view(&self) -> ClaimState {
        ClaimState {
            caller: self.caller@,
            name: self.name@,
            target: self.target@,
            price: self.price,
            deposit: self.deposit,
            cfg: self.cfg@,
            before: seen(self.before),
        }
    }
}

/// What is said of a name that somebody holds.
pub open spec fn held(name: Seq<char>, owner: Seq<u8>) -> Seq<char> {
    "'"@ + name + "' is owned by "@ + principal_text(owner)
}

/// Why a name cannot be claimed: somebody holds it. One without a record,
/// or whose grace period is over, can.
pub open spec fn claimable_fault(s: StoreState, p: Params, name: Seq<char>, now: u64) -> Option<
    Seq<char>,
> {
    match snapshot_of(s, p, name, now) {
        Some(snap) if snap.status !is Free => Some(held(name, snap.owner)),
        _ => None,
    }
}

/// Why a claim is refused before anything is pulled.
pub open spec fn claim_fault(
    s: StoreState,
    caller: Seq<u8>,
    name: Seq<char>,
    target: TargetState,
    price: u128,
    deposit: u128,
    now: u64,
) -> Option<Seq<char>> {
    let c = s.settings.config;
    if !c.flat_names_open {
        Some("flat names are not open for claiming yet"@)
    } else if terms_fault(c, caller, name, target, price, deposit) is Some {
        terms_fault(c, caller, name, target, price, deposit)
    } else {
        claimable_fault(s, params_of(c), name, now)
    }
}

/// The claim that a caller starts: what was asked for, and the name as it
/// stands.
pub open spec fn started_claim(
    s: StoreState,
    caller: Seq<u8>,
    name: Seq<char>,
    target: TargetState,
    price: u128,
    deposit: u128,
    now: u64,
) -> ClaimState {
    let cfg = s.settings.config;
    let before = snapshot_of(s, params_of(cfg), name, now);
    ClaimState { caller, name, target, price, deposit, cfg, before }
}

/// What is said of a claim whose name changed meanwhile.
pub open spec fn claim_changed(name: Seq<char>) -> Seq<char> {
    "'"@ + name + "' changed hands while paying; deposit credited back"@
}

/// Whether a claim can still be completed.
pub open spec fn claim_stands(s: StoreState, c: ClaimState, now: u64) -> bool {
    let p = params_of(c.cfg);
    claimable_fault(s, p, c.name, now) is None && snapshot_of(s, p, c.name, now) == c.before
}

/// The record that a completed claim writes.
pub open spec fn claimed_record(s: StoreState, c: ClaimState, now: u64) -> RecordState {
    let h = holding(c.price, c.deposit, now);
    if snapshot_of(s, params_of(c.cfg), c.name, now) is Some {
        handed_over(
            settled_record(params_of(c.cfg), s.records[c.name], now),
            c.caller,
            c.target,
            h,
            now,
        )
    } else {
        RecordState { flat: Some(h), ..fresh_record(c.name, c.caller, c.target, now) }
    }
}

/// The tax that completing a claim collects from the lapsed holding.
pub open spec fn claim_tax(s: StoreState, c: ClaimState, now: u64) -> u128 {
    if snapshot_of(s, params_of(c.cfg), c.name, now) is Some {
        record_tax(params_of(c.cfg), s.records[c.name], now)
    } else {
        0
    }
}

/// The registry after the answer to a claim's pull.
pub open spec fn claim_done(
    s: RegistryState,
    c: ClaimState,
    reply: Result<u128, FailureState>,
    now: u64,
) -> RegistryState {
    let back = landed(s);
    match reply {
        Err(f) => pull_failed(back, c.caller, c.deposit, f),
        Ok(_) => if claim_stands(s.store, c, now) {
            with_record(
                with_store(back, with_tax(back.store, claim_tax(s.store, c, now))),
                claimed_record(s.store, c, now),
            )
        } else {
            with_credit(back, c.caller, c.deposit)
        },
    }
}

impl Claim {
    #[verifier::type_invariant]
    spec fn inv(self) -> bool {
        terms_hold(self.name@, self.target@)
    }

    /// What to pull for the claim, and from which ledger.
    pub fn payment(&self, this: &Principal) -> (r: (Principal, TransferFromArgs))
        ensures
            r.0@ == self@.cfg.ledger,
            pulls(r.1, this@, self@.caller, self@.deposit as int, self@.cfg.fee),
    {
        (
            self.cfg.ledger.clone(),
            ledger::pull(this, &self.caller, self.deposit, self.cfg.fee),
        )
    }
}

/// What the terms of a claim or a buy guarantee of its name and target.
pub open spec fn terms_hold(name: Seq<char>, target: TargetState) -> bool {
    is_flat_name(name) && target_fault(target) is None
}

impl Registry {
    /// First half of taking a free flat name: unclaimed, or lapsed past its
    /// grace period. The name will alias `alias_to`.
    pub fn claim_start(
        &mut self,
        caller: &Principal,
        name: &str,
        alias_to: &str,
        price: u128,
        deposit: u128,
        now: u64,
    ) -> (r: Result<Claim, String>)
        ensures
            ({
                let s = old(self)@;
                let target = TargetState::Alias(alias_to@);
                match claim_fault(s.store, caller@, name@, target, price, deposit, now) {
                    Some(e) => r is Err && r->Err_0@ == e && final(self)@ == s,
                    None => {
                        &&& r is Ok
                        &&& final(self)@ == sent(s)
                        &&& r->Ok_0@ == started_claim(
                            s.store,
                            caller@,
                            name@,
                            target,
                            price,
                            deposit,
                            now,
                        )
                    },
                }
            }),
            sound(old(self)@) ==> sound(final(self)@),
    {
        let cfg = harberger::config(&self.store);
        match market_open(&cfg) {
            Err(e) => {
                return Err(e);
            },
            Ok(_) => {},
        }
        let target = Target::Alias(alias_to.to_string());
        match check_terms(&cfg, caller, name, &target, price, deposit) {
            Err(e) => {
                return Err(e);
            },
            Ok(_) => {},
        }
        let before = match snapshot(&self.store, &cfg, name, now) {
            None => None,
            Some((_, _, snap)) => {
                match snap.status {
                    Status::Free => {},
                    _ => {
                        return Err(
                            join4("'", name, "' is owned by ", snap.owner.to_text().as_str()),
                        );
                    },
                }
                Some(snap)
            },
        };
        self.in_flight = self.in_flight.saturating_add(1);
        Ok(
            Claim {
                caller: caller.clone(),
                name: name.to_string(),
                target,
                price,
                deposit,
                cfg,
                before,
            },
        )
    }

    /// Second half of a claim, with the ledger's answer: the name is the
    /// caller's, or the deposit is credited back because the name changed
    /// meanwhile.
    pub fn claim_finish(&mut self, claim: Claim, reply: Result<u128, Failure>, now: u64) -> (r:
        Result<(), String>)
        ensures
            final(self)@ == claim_done(old(self)@, claim@, answer(reply), now),
            match answer(reply) {
                Err(f) => r is Err && r->Err_0@ == failure_text(f),
                Ok(_) => {
                    &&& r is Ok <==> claim_stands(old(self)@.store, claim@, now)
                    &&& r matches Err(e) ==> e@ == claim_changed(claim@.name)
                },
            },
            sound(old(self)@) ==> sound(final(self)@),
            sound(old(self)@) && r is Ok ==> is_claimed(old(self)@, final(self)@, claim@, now),
    {
        proof {
            use_type_invariant(&claim);
        }
        let ghost c = claim@;
        let ghost s = self@;
        proof {
            if sound(s) {
                law_paid_claims_take_the_name(s, c, answer(reply), now);
            }
        }
        let Claim { caller, name, target, price, deposit, cfg, before } = claim;
        self.in_flight = self.in_flight.saturating_sub(1);
        match reply {
            Err(f) => {
                book_failed_pull(self, &caller, deposit, &f);
                return Err(f.message());
            },
            Ok(_) => {},
        }
        let after = snapshot(&self.store, &cfg, name.as_str(), now);
        let stands = match (&after, &before) {
            (None, None) => true,
            (Some((_, _, snap)), Some(was)) => {
                let free = match snap.status {
                    Status::Free => true,
                    _ => false,
                };
                free && same_snapshot(snap, was)
            },
            _ => false,
        };
        assert(stands == claim_stands(s.store, c, now));
        if !stands {
            store::add_credit(&mut self.store, &caller, deposit);
            return Err(
                join3("'", name.as_str(), "' changed hands while paying; deposit credited back"),
            );
        }
        let h = Harberger::new(price, deposit, now);
        let (r, tax) = match after {
            Some((old_record, tax, _)) => (hand_over(old_record, caller, target, h, now), tax),
            None => {
                let mut r = Record::new(name, caller, target, now);
                r.flat = Some(h);
                (r, 0)
            },
        };
        assert(r@ == claimed_record(s.store, c, now));
        proof {
            if sound(s) {
                assert(sound(landed(s)));
                lemma_handed_over_sound(landed(s), r@, tax);
            }
        }
        commit_flat(self, &r, tax);
        Ok(())
    }
}

// --- buy --------------------------------------------------------------------------------

/// A purchase whose payment is being pulled.
pub struct Buy {
    caller: Principal,
    name: String,
    target: Target,
    price: u128,
    deposit: u128,
    max_price: u128,
    cfg: Config,
    before: Snapshot,
}

/// A purchase by its contents.
#[verifier::ext_equal]
pub struct BuyState {
    pub caller: Seq<u8>,
    pub name: Seq<char>,
    pub target: TargetState,
    pub price: u128,
    pub deposit: u128,
    pub max_price: u128,
    pub cfg: ConfigState,
    pub before: SnapshotState,
}

impl View for Buy {
    type V = BuyState;

    closed spec fn view(&self) -> BuyState {
        BuyState {
            caller: self.caller@,
            name: self.name@,
            target: self.target@,
            price: self.price,
            deposit: self.deposit,
            max_price: self.max_price,
            cfg: self.cfg@,
            before: self.before@,
        }
    }
}

/// What is said of a name that has to be claimed.
pub open spec fn claim_instead(name: Seq<char>) -> Seq<char> {
    "'"@ + name + "' has lapsed; claim it instead"@
}

/// Why a name cannot be bought: it must be held by someone else, not lapsed,
/// at a price within the buyer's limit.
pub open spec fn buyable_fault(
    s: StoreState,
    p: Params,
    caller: Seq<u8>,
    name: Seq<char>,
    max_price: u128,
    now: u64,
) -> Option<Seq<char>> {
    match snapshot_of(s, p, name, now) {
        None => Some(missing(name)),
        Some(snap) => if snap.status is Free {
            Some(claim_instead(name))
        } else if snap.owner == caller {
            Some("you hold this name; use set_price"@)
        } else if snap.price > max_price {
            Some(
                "price is now "@ + decimal(snap.price as nat) + " cycles, above your limit of "@
                    + decimal(max_price as nat),
            )
        } else {
            None
        },
    }
}

/// The record of a name that can be bought, settled, with the tax and the
/// snapshot.
fn buyable(
    store: &Store,
    cfg: &Config,
    caller: &Principal,
    name: &str,
    max_price: u128,
    now: u64,
) -> (r: Result<(Record, u128, Snapshot), String>)
    ensures
        r is Ok <==> buyable_fault(store@, params_of(cfg@), caller@, name@, max_price, now) is None,
        r matches Err(e) ==> buyable_fault(
            store@,
            params_of(cfg@),
            caller@,
            name@,
            max_price,
            now,
        ) == Some(e@),
        r matches Ok(x) ==> {
            &&& x.0@ == settled_record(params_of(cfg@), store@.records[name@], now)
            &&& x.0@.name == name@
            &&& x.1 == record_tax(params_of(cfg@), store@.records[name@], now)
            &&& Some(x.2@) == snapshot_of(store@, params_of(cfg@), name@, now)
        },
{
    let (r, tax, snap) = match snapshot(store, cfg, name, now) {
        Some(x) => x,
        None => {
            return Err(join3("no record for '", name, "'"));
        },
    };
    match snap.status {
        Status::Free => {
            return Err(join3("'", name, "' has lapsed; claim it instead"));
        },
        _ => {},
    }
    if snap.owner.same(caller) {
        return Err("you hold this name; use set_price".to_string());
    }
    if snap.price > max_price {
        return Err(
            join4(
                "price is now ",
                decimal_text(snap.price).as_str(),
                " cycles, above your limit of ",
                decimal_text(max_price).as_str(),
            ),
        );
    }
    Ok((r, tax, snap))
}

/// Why a purchase is refused before anything is pulled.
pub open spec fn buy_fault(
    s: StoreState,
    caller: Seq<u8>,
    name: Seq<char>,
    target: TargetState,
    price: u128,
    deposit: u128,
    max_price: u128,
    now: u64,
) -> Option<Seq<char>> {
    let c = s.settings.config;
    if terms_fault(c, caller, name, target, price, deposit) is Some {
        terms_fault(c, caller, name, target, price, deposit)
    } else {
        buyable_fault(s, params_of(c), caller, name, max_price, now)
    }
}

/// The purchase that a caller starts: what was asked for, and the name as it
/// stands.
pub open spec fn started_buy(
    s: StoreState,
    caller: Seq<u8>,
    name: Seq<char>,
    target: TargetState,
    price: u128,
    deposit: u128,
    max_price: u128,
    now: u64,
) -> BuyState {
    let cfg = s.settings.config;
    let before = snapshot_of(s, params_of(cfg), name, now)->0;
    BuyState { caller, name, target, price, deposit, max_price, cfg, before }
}

/// What a purchase pulls: the seller's price and the buyer's deposit.
pub open spec fn buy_total(b: BuyState) -> u128 {
    capped(b.before.price + b.deposit)
}

/// Whether a purchase can still be completed.
pub open spec fn buy_stands(s: StoreState, b: BuyState, now: u64) -> bool {
    let p = params_of(b.cfg);
    buyable_fault(s, p, b.caller, b.name, b.max_price, now) is None && snapshot_of(
        s,
        p,
        b.name,
        now,
    ) == Some(b.before)
}

/// What the seller is credited: the price and the unspent balance.
pub open spec fn seller_share(s: StoreState, b: BuyState, now: u64) -> u128 {
    let r = settled_record(params_of(b.cfg), s.records[b.name], now);
    capped(b.before.price + r.flat->0.balance)
}

/// The registry after the answer to a purchase's pull.
pub open spec fn buy_done(
    s: RegistryState,
    b: BuyState,
    reply: Result<u128, FailureState>,
    now: u64,
) -> RegistryState {
    let back = landed(s);
    let p = params_of(b.cfg);
    match reply {
        Err(f) => pull_failed(back, b.caller, buy_total(b), f),
        Ok(_) => if buy_stands(s.store, b, now) {
            let r = s.store.records[b.name];
            let paid = with_credit(back, r.owner, seller_share(s.store, b, now));
            with_record(
                with_store(paid, with_tax(paid.store, record_tax(p, r, now))),
                handed_over(
                    settled_record(p, r, now),
                    b.caller,
                    b.target,
                    holding(b.price, b.deposit, now),
                    now,
                ),
            )
        } else {
            with_credit(back, b.caller, buy_total(b))
        },
    }
}

/// What is said of a purchase whose name changed meanwhile.
pub open spec fn buy_changed(name: Seq<char>) -> Seq<char> {
    "'"@ + name + "' changed while paying; payment credited back"@
}

impl Buy {
    #[verifier::type_invariant]
    spec fn inv(self) -> bool {
        terms_hold(self.name@, self.target@)
    }

    /// What to pull for the purchase, and from which ledger.
    pub fn payment(&self, this: &Principal) -> (r: (Principal, TransferFromArgs))
        ensures
            r.0@ == self@.cfg.ledger,
            pulls(r.1, this@, self@.caller, buy_total(self@) as int, self@.cfg.fee),
            buy_total(self@) == capped(self@.before.price + self@.deposit),
    {
        let total: u128 = self.before.price.saturating_add(self.deposit);
        (self.cfg.ledger.clone(), ledger::pull(this, &self.caller, total, self.cfg.fee))
    }
}

impl Registry {
    /// First half of buying a held flat name at its assessed price, if that
    /// price is at most `max_price` (what the buyer saw; the seller may have
    /// moved it since). The buyer assesses `price` for the name from then
    /// on.
    pub fn buy_start(
        &mut self,
        caller: &Principal,
        name: &str,
        alias_to: &str,
        price: u128,
        deposit: u128,
        max_price: u128,
        now: u64,
    ) -> (r: Result<Buy, String>)
        ensures
            ({
                let s = old(self)@;
                let target = TargetState::Alias(alias_to@);
                match buy_fault(s.store, caller@, name@, target, price, deposit, max_price, now) {
                    Some(e) => r is Err && r->Err_0@ == e && final(self)@ == s,
                    None => {
                        &&& r is Ok
                        &&& final(self)@ == sent(s)
                        &&& r->Ok_0@ == started_buy(
                            s.store,
                            caller@,
                            name@,
                            target,
                            price,
                            deposit,
                            max_price,
                            now,
                        )
                    },
                }
            }),
            sound(old(self)@) ==> sound(final(self)@),
    {
        let cfg = harberger::config(&self.store);
        let target = Target::Alias(alias_to.to_string());
        match check_terms(&cfg, caller, name, &target, price, deposit) {
            Err(e) => {
                return Err(e);
            },
            Ok(_) => {},
        }
        let before = match buyable(&self.store, &cfg, caller, name, max_price, now) {
            Err(e) => {
                return Err(e);
            },
            Ok((_, _, snap)) => snap,
        };
        self.in_flight = self.in_flight.saturating_add(1);
        Ok(
            Buy {
                caller: caller.clone(),
                name: name.to_string(),
                target,
                price,
                deposit,
                max_price,
                cfg,
                before,
            },
        )
    }

    /// Second half of a purchase, with the ledger's answer: the seller is
    /// credited the price and the unspent balance and the name is the
    /// caller's, or the payment is credited back because the name changed
    /// meanwhile.
    pub fn buy_finish(&mut self, buy: Buy, reply: Result<u128, Failure>, now: u64) -> (r: Result<
        (),
        String,
    >)
        ensures
            final(self)@ == buy_done(old(self)@, buy@, answer(reply), now),
            match answer(reply) {
                Err(f) => r is Err && r->Err_0@ == failure_text(f),
                Ok(_) => {
                    &&& r is Ok <==> buy_stands(old(self)@.store, buy@, now)
                    &&& r matches Err(e) ==> e@ == buy_changed(buy@.name)
                },
            },
            sound(old(self)@) ==> sound(final(self)@),
            sound(old(self)@) && r is Ok ==> is_bought(old(self)@, final(self)@, buy@, now),
    {
        proof {
            use_type_invariant(&buy);
        }
        let ghost b = buy@;
        let ghost s = self@;
        proof {
            if sound(s) {
                law_paid_purchases_take_the_name(s, b, answer(reply), now);
            }
        }
        let Buy { caller, name, target, price, deposit, max_price, cfg, before } = buy;
        let total: u128 = before.price.saturating_add(deposit);
        self.in_flight = self.in_flight.saturating_sub(1);
        match reply {
            Err(f) => {
                book_failed_pull(self, &caller, total, &f);
                return Err(f.message());
            },
            Ok(_) => {},
        }
        let still = match buyable(&self.store, &cfg, &caller, name.as_str(), max_price, now) {
            Ok((r, tax, snap)) => if same_snapshot(&snap, &before) {
                Some((r, tax))
            } else {
                None
            },
            Err(_) => None,
        };
        assert(still is Some == buy_stands(s.store, b, now));
        let (r, tax) = match still {
            Some(x) => x,
            None => {
                store::add_credit(&mut self.store, &caller, total);
                return Err(
                    join3("'", name.as_str(), "' changed while paying; payment credited back"),
                );
            },
        };
        let unspent: u128 = match &r.flat {
            Some(h) => h.balance,
            None => 0,
        };
        let share: u128 = before.price.saturating_add(unspent);
        store::add_credit(&mut self.store, &r.owner, share);
        let ghost paid = self@;
        let h = Harberger::new(price, deposit, now);
        let r = hand_over(r, caller, target, h, now);
        proof {
            if sound(s) {
                assert(sound(paid));
                lemma_handed_over_sound(paid, r@, tax);
            }
        }
        commit_flat(self, &r, tax);
        Ok(())
    }
}

// --- deposit ----------------------------------------------------------------------------

/// A top-up whose amount is being pulled.
pub struct TopUp {
    caller: Principal,
    name: String,
    amount: u128,
    cfg: Config,
    before: Snapshot,
}

/// A top-up by its contents.
#[verifier::ext_equal]
pub struct TopUpState {
    pub caller: Seq<u8>,
    pub name: Seq<char>,
    pub amount: u128,
    pub cfg: ConfigState,
    pub before: SnapshotState,
}

impl View for TopUp {
    type V = TopUpState;

    closed spec fn view(&self) -> TopUpState {
        TopUpState {
            caller: self.caller@,
            name: self.name@,
            amount: self.amount,
            cfg: self.cfg@,
            before: self.before@,
        }
    }
}

/// Why a name cannot be topped up with an amount: it must be held and not
/// lapsed, and the balance after it must cover one grace period of tax.
pub open spec fn payable_fault(
    s: StoreState,
    p: Params,
    name: Seq<char>,
    amount: u128,
    now: u64,
) -> Option<Seq<char>> {
    match snapshot_of(s, p, name, now) {
        None => Some(missing(name)),
        Some(snap) => {
            let balance = settled_record(p, s.records[name], now).flat->0.balance;
            let min = least_deposit(p, snap.price);
            if snap.status is Free {
                Some(claim_instead(name))
            } else if capped(balance + amount) < min {
                Some(
                    "balance after the deposit must cover one grace period of tax: at least "@
                        + decimal(min as nat) + " cycles at this price, "@ + decimal(
                        balance as nat,
                    ) + " left"@,
                )
            } else {
                None
            }
        },
    }
}

/// The record of a name that can be topped up, settled, with the tax and
/// the snapshot.
fn payable(store: &Store, cfg: &Config, name: &str, amount: u128, now: u64) -> (r: Result<
    (Record, u128, Snapshot),
    String,
>)
    ensures
        r is Ok <==> payable_fault(store@, params_of(cfg@), name@, amount, now) is None,
        r matches Err(e) ==> payable_fault(store@, params_of(cfg@), name@, amount, now) == Some(e@),
        r matches Ok(x) ==> {
            &&& x.0@ == settled_record(params_of(cfg@), store@.records[name@], now)
            &&& x.0@.name == name@
            &&& x.1 == record_tax(params_of(cfg@), store@.records[name@], now)
            &&& Some(x.2@) == snapshot_of(store@, params_of(cfg@), name@, now)
        },
{
    let (r, tax, snap) = match snapshot(store, cfg, name, now) {
        Some(x) => x,
        None => {
            return Err(join3("no record for '", name, "'"));
        },
    };
    match snap.status {
        Status::Free => {
            return Err(join3("'", name, "' has lapsed; claim it instead"));
        },
        _ => {},
    }
    let balance: u128 = match &r.flat {
        Some(h) => h.balance,
        None => 0,
    };
    let min: u128 = harberger::min_deposit(cfg, snap.price);
    if balance.saturating_add(amount) < min {
        return Err(
            join5(
                "balance after the deposit must cover one grace period of tax: at least ",
                decimal_text(min).as_str(),
                " cycles at this price, ",
                decimal_text(balance).as_str(),
                " left",
            ),
        );
    }
    Ok((r, tax, snap))
}

/// Why a top-up is refused before anything is pulled.
pub open spec fn deposit_refused(
    s: StoreState,
    caller: Seq<u8>,
    name: Seq<char>,
    amount: u128,
    now: u64,
) -> Option<Seq<char>> {
    if caller_fault(caller) is Some {
        caller_fault(caller)
    } else if !is_flat_name(name) {
        Some(flat_error(name))
    } else if amount == 0 {
        Some("amount is zero"@)
    } else {
        payable_fault(s, params_of(s.settings.config), name, amount, now)
    }
}

/// The top-up that a caller starts: what was asked for, and the name as it
/// stands.
pub open spec fn started_top_up(
    s: StoreState,
    caller: Seq<u8>,
    name: Seq<char>,
    amount: u128,
    now: u64,
) -> TopUpState {
    let cfg = s.settings.config;
    let before = snapshot_of(s, params_of(cfg), name, now)->0;
    TopUpState { caller, name, amount, cfg, before }
}

/// Whether a top-up can still be completed.
pub open spec fn deposit_stands(s: StoreState, t: TopUpState, now: u64) -> bool {
    let p = params_of(t.cfg);
    payable_fault(s, p, t.name, t.amount, now) is None && snapshot_of(s, p, t.name, now) == Some(
        t.before,
    )
}

/// A settled record with an amount added to its balance, active from `now`.
pub open spec fn deposited(r: RecordState, amount: u128, now: u64) -> RecordState {
    RecordState {
        flat: Some(
            Harberger {
                balance: capped(r.flat->0.balance + amount),
                lapsed_ns: None,
                settled_ns: now,
                ..r.flat->0
            },
        ),
        updated_ns: now,
        ..r
    }
}

/// The registry after the answer to a top-up's pull.
pub open spec fn deposit_done(
    s: RegistryState,
    t: TopUpState,
    reply: Result<u128, FailureState>,
    now: u64,
) -> RegistryState {
    let back = landed(s);
    let p = params_of(t.cfg);
    match reply {
        Err(f) => pull_failed(back, t.caller, t.amount, f),
        Ok(_) => if deposit_stands(s.store, t, now) {
            let r = s.store.records[t.name];
            with_record(
                with_store(back, with_tax(back.store, record_tax(p, r, now))),
                deposited(settled_record(p, r, now), t.amount, now),
            )
        } else {
            with_credit(back, t.caller, t.amount)
        },
    }
}

/// What is said of a top-up whose name changed meanwhile.
pub open spec fn deposit_changed(name: Seq<char>) -> Seq<char> {
    "'"@ + name + "' changed while paying; amount credited back"@
}

impl TopUp {
    #[verifier::type_invariant]
    spec fn inv(self) -> bool {
        is_flat_name(self.name@)
    }

    /// What to pull for the top-up, and from which ledger.
    pub fn payment(&self, this: &Principal) -> (r: (Principal, TransferFromArgs))
        ensures
            r.0@ == self@.cfg.ledger,
            pulls(r.1, this@, self@.caller, self@.amount as int, self@.cfg.fee),
    {
        (
            self.cfg.ledger.clone(),
            ledger::pull(this, &self.caller, self.amount, self.cfg.fee),
        )
    }
}

impl Registry {
    /// First half of adding prepaid tax to a held flat name. Anyone may pay.
    /// A name in grace comes back to active, but only if the balance after
    /// the top-up covers one grace period of tax, as a claim or buy must.
    pub fn deposit_start(&mut self, caller: &Principal, name: &str, amount: u128, now: u64) -> (r:
        Result<TopUp, String>)
        ensures
            ({
                let s = old(self)@;
                match deposit_refused(s.store, caller@, name@, amount, now) {
                    Some(e) => r is Err && r->Err_0@ == e && final(self)@ == s,
                    None => {
                        &&& r is Ok
                        &&& final(self)@ == sent(s)
                        &&& r->Ok_0@ == started_top_up(s.store, caller@, name@, amount, now)
                    },
                }
            }),
            sound(old(self)@) ==> sound(final(self)@),
    {
        let cfg = harberger::config(&self.store);
        match check_caller(caller) {
            Err(e) => {
                return Err(e);
            },
            Ok(_) => {},
        }
        match names::check_flat(name) {
            Err(e) => {
                return Err(e);
            },
            Ok(_) => {},
        }
        if amount == 0 {
            return Err("amount is zero".to_string());
        }
        let before = match payable(&self.store, &cfg, name, amount, now) {
            Err(e) => {
                return Err(e);
            },
            Ok((_, _, snap)) => snap,
        };
        self.in_flight = self.in_flight.saturating_add(1);
        Ok(TopUp { caller: caller.clone(), name: name.to_string(), amount, cfg, before })
    }

    /// Second half of a top-up, with the ledger's answer.
    pub fn deposit_finish(&mut self, top_up: TopUp, reply: Result<u128, Failure>, now: u64) -> (r:
        Result<(), String>)
        ensures
            final(self)@ == deposit_done(old(self)@, top_up@, answer(reply), now),
            match answer(reply) {
                Err(f) => r is Err && r->Err_0@ == failure_text(f),
                Ok(_) => {
                    &&& r is Ok <==> deposit_stands(old(self)@.store, top_up@, now)
                    &&& r matches Err(e) ==> e@ == deposit_changed(top_up@.name)
                },
            },
            sound(old(self)@) ==> sound(final(self)@),
            sound(old(self)@) && r is Ok ==> is_topped_up(old(self)@, final(self)@, top_up@, now),
    {
        proof {
            use_type_invariant(&top_up);
        }
        let ghost t = top_up@;
        let ghost s = self@;
        proof {
            if sound(s) {
                law_paid_top_ups_are_added(s, t, answer(reply), now);
            }
        }
        let TopUp { caller, name, amount, cfg, before } = top_up;
        self.in_flight = self.in_flight.saturating_sub(1);
        match reply {
            Err(f) => {
                book_failed_pull(self, &caller, amount, &f);
                return Err(f.message());
            },
            Ok(_) => {},
        }
        let still = match payable(&self.store, &cfg, name.as_str(), amount, now) {
            Ok((r, tax, snap)) => if same_snapshot(&snap, &before) {
                Some((r, tax))
            } else {
                None
            },
            Err(_) => None,
        };
        assert(still is Some == deposit_stands(s.store, t, now));
        let (mut r, tax) = match still {
            Some(x) => x,
            None => {
                store::add_credit(&mut self.store, &caller, amount);
                return Err(
                    join3("'", name.as_str(), "' changed while paying; amount credited back"),
                );
            },
        };
        match r.flat {
            Some(h) => {
                r.flat = Some(
                    Harberger {
                        balance: h.balance.saturating_add(amount),
                        lapsed_ns: None,
                        settled_ns: now,
                        price: h.price,
                    },
                );
            },
            None => {},
        }
        r.updated_ns = now;
        proof {
            let p = params_of(t.cfg);
            assert(r@ == deposited(settled_record(p, s.store.records[t.name], now), t.amount, now));
            if sound(s) {
                assert(good_record(
                    s.store.handles,
                    t.name,
                    s.store.records[t.name],
                ));
                names::lemma_segment_no_slash(t.name);
                let taxed = with_store(landed(s), with_tax(s.store, tax));
                assert(sound(taxed));
                lemma_record_sound(taxed, r@);
            }
        }
        commit_flat(self, &r, tax);
        Ok(())
    }

    /// Reassess a held flat name. Tax from here on is at the new price.
    pub fn set_price(&mut self, caller: &Principal, name: &str, price: u128, now: u64) -> (r: Result<
        (),
        String,
    >)
        ensures
            r is Ok <==> set_price_fault(old(self)@.store, caller@, name@, price, now) is None,
            r matches Err(e) ==> set_price_fault(old(self)@.store, caller@, name@, price, now)
                == Some(e@),
            r is Ok ==> final(self)@ == with_flat(
                old(self)@,
                name@,
                repriced(settled_now(old(self)@.store, name@, now), price, now),
                now,
            ),
            r is Err ==> final(self)@ == old(self)@,
            sound(old(self)@) ==> sound(final(self)@),
            sound(old(self)@) && r is Ok ==> is_repriced(
                old(self)@,
                final(self)@,
                name@,
                price,
                now,
            ),
    {
        let ghost s = self@;
        proof {
            if sound(s) {
                law_holders_set_their_price(s, caller@, name@, price, now);
            }
        }
        let cfg = harberger::config(&self.store);
        match check_price(&cfg, price) {
            Err(e) => {
                return Err(e);
            },
            Ok(_) => {},
        }
        let (mut r, tax) = match authorize_flat(&self.store, &cfg, caller, name, now) {
            Err(e) => {
                return Err(e);
            },
            Ok(x) => x,
        };
        match r.flat {
            Some(h) => {
                r.flat = Some(
                    Harberger {
                        price,
                        balance: h.balance,
                        settled_ns: h.settled_ns,
                        lapsed_ns: h.lapsed_ns,
                    },
                );
            },
            None => {},
        }
        r.updated_ns = now;
        proof {
            assert(r@ == repriced(settled_now(s.store, name@, now), price, now));
            if sound(s) {
                assert(good_record(
                    s.store.handles,
                    name@,
                    s.store.records[name@],
                ));
                names::lemma_segment_no_slash(name@);
                lemma_settled(
                    params_of(s.store.settings.config),
                    s.store.records[name@].flat->0,
                    now,
                );
                lemma_flat_sound(s, name@, r@, now);
            }
        }
        commit_flat(self, &r, tax);
        Ok(())
    }

    /// What is owed to a principal, cycles.
    pub fn credit(&self, p: &Principal) -> (r: u128)
        ensures
            r == owed(self@.store.credits, p@),
    {
        store::credit_of(&self.store, p)
    }
}

/// Why a flat name cannot be reassessed.
pub open spec fn set_price_fault(
    s: StoreState,
    caller: Seq<u8>,
    name: Seq<char>,
    price: u128,
    now: u64,
) -> Option<Seq<char>> {
    let c = s.settings.config;
    if price_fault(c, price) is Some {
        price_fault(c, price)
    } else {
        flat_fault(s, params_of(c), caller, name, now)
    }
}

/// A settled record at another price.
pub open spec fn repriced(r: RecordState, price: u128, now: u64) -> RecordState {
    RecordState {
        flat: match r.flat {
            Some(h) => Some(Harberger { price, ..h }),
            None => None,
        },
        updated_ns: now,
        ..r
    }
}

// --- what payments promise --------------------------------------------------------------------

/// Whether an amount was added to what one principal is owed, and nobody
/// else is owed more or less.
pub open spec fn credits_one(s: StoreState, t: StoreState, p: Seq<u8>, amount: u128) -> bool {
    forall|q: Seq<u8>|
        #![trigger owed(t.credits, q)]
        owed(t.credits, q) == if q == p {
            capped(owed(s.credits, q) + amount)
        } else {
            owed(s.credits, q)
        }
}

/// Whether nothing is stored differently in two registries but what is owed.
pub open spec fn only_credits_move(s: RegistryState, t: RegistryState) -> bool {
    t.store == (StoreState { credits: t.store.credits, ..s.store }) && t.leaves == s.leaves
}

/// Whether one ledger call less awaits a reply.
pub open spec fn one_landed(s: RegistryState, t: RegistryState) -> bool {
    t.in_flight == if s.in_flight == 0 {
        0
    } else {
        s.in_flight - 1
    }
}

/// Whether a record is a name taken at `now` on the caller's terms: theirs,
/// pointing where they said, assessed at their price with their deposit as
/// its balance, and without texts.
pub open spec fn taken_on(
    r: RecordState,
    name: Seq<char>,
    caller: Seq<u8>,
    target: TargetState,
    price: u128,
    deposit: u128,
    now: u64,
) -> bool {
    &&& r.name == name
    &&& r.owner == caller
    &&& r.target == target
    &&& r.text.len() == 0
    &&& r.updated_ns == now
    &&& r.changed_hands_ns == now
    &&& r.flat == Some(
        Harberger { price, balance: deposit, settled_ns: now, lapsed_ns: None::<u64> },
    )
}

/// Whether terms are in order: a flat name that will alias a scoped one, a
/// price in range, and a deposit that pays a grace period of tax.
pub open spec fn fair_terms(
    c: ConfigState,
    caller: Seq<u8>,
    name: Seq<char>,
    target: TargetState,
    price: u128,
    deposit: u128,
) -> bool {
    &&& caller != anonymous()
    &&& is_flat_name(name)
    &&& target matches TargetState::Alias(to) && is_scoped_name(to)
    &&& c.min_price <= price <= 1_000_000_000_000_000_000
    &&& deposit >= least_deposit(params_of(c), price)
}

/// A claim is taken up exactly where the market is open, the terms are in
/// order and nobody holds the name: it has no record, or its grace period
/// is over.
pub proof fn law_free_names_can_be_claimed(
    s: RegistryState,
    caller: Seq<u8>,
    name: Seq<char>,
    target: TargetState,
    price: u128,
    deposit: u128,
    now: u64,
)
    requires
        sound(s),
    ensures
        claim_fault(s.store, caller, name, target, price, deposit, now) is None <==> {
            &&& s.store.settings.config.flat_names_open
            &&& fair_terms(s.store.settings.config, caller, name, target, price, deposit)
            &&& s.store.records.contains_key(name) ==> !in_hands(
                s.store,
                s.store.records[name],
                now,
            )
        },
{
    if s.store.records.contains_key(name) {
        assert(good_record(s.store.handles, name, s.store.records[name]));
    }
    if is_flat_name(name) {
        names::lemma_segment_no_slash(name);
    }
}

/// A purchase is taken up exactly where the terms are in order and somebody
/// else holds the name, be it in its grace period, at a price within the
/// buyer's limit. Neither the holder's wish nor a closed market stops it.
pub proof fn law_held_names_can_be_bought(
    s: RegistryState,
    caller: Seq<u8>,
    name: Seq<char>,
    target: TargetState,
    price: u128,
    deposit: u128,
    max_price: u128,
    now: u64,
)
    requires
        sound(s),
    ensures
        buy_fault(s.store, caller, name, target, price, deposit, max_price, now) is None <==> {
            let r = s.store.records[name];
            &&& fair_terms(s.store.settings.config, caller, name, target, price, deposit)
            &&& s.store.records.contains_key(name)
            &&& in_hands(s.store, r, now)
            &&& r.owner != caller
            &&& r.flat->0.price <= max_price
        },
{
    if s.store.records.contains_key(name) {
        assert(good_record(s.store.handles, name, s.store.records[name]));
    }
    if is_flat_name(name) {
        names::lemma_segment_no_slash(name);
    }
}

/// A top-up is taken up from anybody exactly where somebody holds the name,
/// be it in its grace period, and what it brings with what is left of the
/// balance pays a grace period of tax.
pub proof fn law_held_names_can_be_topped_up(
    s: RegistryState,
    caller: Seq<u8>,
    name: Seq<char>,
    amount: u128,
    now: u64,
)
    requires
        sound(s),
    ensures
        deposit_refused(s.store, caller, name, amount, now) is None <==> {
            let p = params_of(s.store.settings.config);
            let r = s.store.records[name];
            &&& caller != anonymous()
            &&& is_flat_name(name)
            &&& amount > 0
            &&& s.store.records.contains_key(name)
            &&& in_hands(s.store, r, now)
            &&& settled(p, r.flat->0, now).balance + amount >= least_deposit(p, r.flat->0.price)
        },
{
    let p = params_of(s.store.settings.config);
    if s.store.records.contains_key(name) {
        let r = s.store.records[name];
        assert(good_record(s.store.handles, name, r));
        if is_flat_name(name) {
            names::lemma_segment_no_slash(name);
            lemma_settled(p, r.flat->0, now);
            lemma_tax_over(p, r.flat->0.price, p.grace_ns as int);
        }
    }
}

/// Whether `t` is `s` after a completed claim. The name is the caller's on
/// the caller's terms. A lapsed record under it is handed over, its old
/// target remembered and its last tax counted; otherwise the record is new.
pub open spec fn is_claimed(s: RegistryState, t: RegistryState, c: ClaimState, now: u64) -> bool {
    let r = t.store.records[c.name];
    &&& t.store.records.contains_key(c.name)
    &&& taken_on(r, c.name, c.caller, c.target, c.price, c.deposit, now)
    &&& match lookup(s.store.records, c.name) {
        Some(was) => {
            &&& r.previous_target == Some(was.target)
            &&& r.created_ns == was.created_ns
            &&& was.flat matches Some(h) && t.store.settings.tax_collected == capped(
                s.store.settings.tax_collected + taken(params_of(c.cfg), h, now),
            )
        },
        None => {
            &&& r.previous_target is None
            &&& r.created_ns == now
            &&& t.store.settings == s.store.settings
        },
    }
    &&& touches_only(s, t, c.name)
    &&& t.store.credits == s.store.credits
    &&& one_landed(s, t)
}

/// Whether a name is still as a claim saw it: without a record, or with the
/// same holder, price and date of change and still past its grace period.
pub open spec fn still_free(s: StoreState, c: ClaimState, now: u64) -> bool {
    match c.before {
        None => !s.records.contains_key(c.name),
        Some(b) => {
            let r = s.records[c.name];
            &&& s.records.contains_key(c.name)
            &&& r.owner == b.owner
            &&& r.changed_hands_ns == b.changed_hands_ns
            &&& r.flat matches Some(h) && h.price == b.price && status_at(
                params_of(c.cfg),
                h,
                now,
            ) is Free && b.status is Free
        },
    }
}

/// A paid claim gives the caller the name on the caller's terms if it is
/// still free as it was, and the whole deposit back otherwise. One that the
/// ledger did not pay changes no record and credits nobody.
pub proof fn law_paid_claims_take_the_name(
    s: RegistryState,
    c: ClaimState,
    reply: Result<u128, FailureState>,
    now: u64,
)
    requires
        sound(s),
        is_flat_name(c.name),
    ensures
        ({
            let t = claim_done(s, c, reply, now);
            &&& claim_stands(s.store, c, now) <==> still_free(s.store, c, now)
            &&& reply is Ok && still_free(s.store, c, now) ==> is_claimed(s, t, c, now)
            &&& reply is Ok && !still_free(s.store, c, now) ==> {
                &&& only_credits_move(s, t)
                &&& credits_one(s.store, t.store, c.caller, c.deposit)
                &&& one_landed(s, t)
            }
            &&& reply matches Err(f) ==> is_unpaid(s, t, c.caller, c.deposit, f)
        }),
{
    if s.store.records.contains_key(c.name) {
        assert(good_record(s.store.handles, c.name, s.store.records[c.name]));
    }
    names::lemma_segment_no_slash(c.name);
    if claim_stands(s.store, c, now) && reply is Ok {
        assert(claimed_record(s.store, c, now).name == c.name);
        if !s.store.records.contains_key(c.name) {
            assert(with_tax(s.store, 0) =~= s.store);
        }
    }
}

/// Whether `t` is `s` after the ledger did not pay: nothing changes, but
/// that an amount whose fate is unknown is put down as unreconciled.
pub open spec fn is_unpaid(
    s: RegistryState,
    t: RegistryState,
    payer: Seq<u8>,
    amount: u128,
    f: FailureState,
) -> bool {
    &&& one_landed(s, t)
    &&& t.leaves == s.leaves
    &&& if nothing_moved_by(f) {
        t.store == s.store
    } else {
        t.store == (StoreState {
            settings: SettingsState {
                unreconciled: capped(s.store.settings.unreconciled + amount),
                unreconciled_last: encode_utf8(
                    "pull "@ + decimal(amount as nat) + " from "@ + principal_text(payer) + ": "@
                        + failure_text(f),
                ),
                ..s.store.settings
            },
            ..s.store
        })
    }
}

/// Whether `t` is `s` after a completed purchase. The name is the buyer's on
/// the buyer's terms, its old target remembered; the seller is owed the
/// price and what was left of the balance once its tax was counted.
pub open spec fn is_bought(s: RegistryState, t: RegistryState, b: BuyState, now: u64) -> bool {
    let was = s.store.records[b.name];
    let r = t.store.records[b.name];
    let p = params_of(b.cfg);
    &&& t.store.records.contains_key(b.name)
    &&& taken_on(r, b.name, b.caller, b.target, b.price, b.deposit, now)
    &&& r.previous_target == Some(was.target)
    &&& r.created_ns == was.created_ns
    &&& was.flat matches Some(h) && {
        &&& credits_one(
            s.store,
            t.store,
            was.owner,
            capped(h.price + settled(p, h, now).balance),
        )
        &&& t.store.settings.tax_collected == capped(
            s.store.settings.tax_collected + taken(p, h, now),
        )
    }
    &&& touches_only(s, t, b.name)
    &&& one_landed(s, t)
}

/// Whether a name is still as a purchase saw it, held by somebody else at a
/// price within the limit.
pub open spec fn still_for_sale(s: StoreState, b: BuyState, now: u64) -> bool {
    let r = s.records[b.name];
    &&& s.records.contains_key(b.name)
    &&& r.owner == b.before.owner
    &&& r.owner != b.caller
    &&& r.changed_hands_ns == b.before.changed_hands_ns
    &&& r.flat matches Some(h) && {
        &&& h.price == b.before.price
        &&& h.price <= b.max_price
        &&& status_at(params_of(b.cfg), h, now) == b.before.status
        &&& b.before.status is Active || b.before.status is Grace
    }
}

/// A paid purchase gives the buyer the name on the buyer's terms and the
/// seller the price and the unspent balance if the name is as it was, and
/// the whole payment back otherwise. One that the ledger did not pay
/// changes no record and credits nobody.
pub proof fn law_paid_purchases_take_the_name(
    s: RegistryState,
    b: BuyState,
    reply: Result<u128, FailureState>,
    now: u64,
)
    requires
        sound(s),
    ensures
        ({
            let t = buy_done(s, b, reply, now);
            let total = capped(b.before.price + b.deposit);
            &&& buy_total(b) == total
            &&& buy_stands(s.store, b, now) <==> still_for_sale(s.store, b, now)
            &&& reply is Ok && still_for_sale(s.store, b, now) ==> is_bought(s, t, b, now)
            &&& reply is Ok && !still_for_sale(s.store, b, now) ==> {
                &&& only_credits_move(s, t)
                &&& credits_one(s.store, t.store, b.caller, total)
                &&& one_landed(s, t)
            }
            &&& reply matches Err(f) ==> is_unpaid(s, t, b.caller, total, f)
        }),
{
    if s.store.records.contains_key(b.name) {
        assert(good_record(s.store.handles, b.name, s.store.records[b.name]));
    }
}

/// Whether `t` is `s` after a completed top-up: the balance grew by the
/// amount, the name is active from now on, and nothing else of it changed.
pub open spec fn is_topped_up(s: RegistryState, t: RegistryState, u: TopUpState, now: u64) -> bool {
    let was = s.store.records[u.name];
    let r = t.store.records[u.name];
    let p = params_of(u.cfg);
    &&& t.store.records.contains_key(u.name)
    &&& was.flat matches Some(h) && {
        &&& r.flat == Some(
            Harberger {
                price: h.price,
                balance: capped(settled(p, h, now).balance + u.amount),
                settled_ns: now,
                lapsed_ns: None::<u64>,
            },
        )
        &&& t.store.settings.tax_collected == capped(
            s.store.settings.tax_collected + taken(p, h, now),
        )
    }
    &&& r.name == u.name
    &&& r.owner == was.owner
    &&& r.target == was.target
    &&& r.previous_target == was.previous_target
    &&& r.text == was.text
    &&& r.created_ns == was.created_ns
    &&& r.changed_hands_ns == was.changed_hands_ns
    &&& r.updated_ns == now
    &&& touches_only(s, t, u.name)
    &&& t.store.credits == s.store.credits
    &&& one_landed(s, t)
}

/// Whether a name is still as a top-up saw it, and the amount still enough.
pub open spec fn still_held(s: StoreState, u: TopUpState, now: u64) -> bool {
    let r = s.records[u.name];
    let p = params_of(u.cfg);
    &&& s.records.contains_key(u.name)
    &&& r.owner == u.before.owner
    &&& r.changed_hands_ns == u.before.changed_hands_ns
    &&& r.flat matches Some(h) && {
        &&& h.price == u.before.price
        &&& status_at(p, h, now) == u.before.status
        &&& u.before.status is Active || u.before.status is Grace
        &&& settled(p, h, now).balance + u.amount >= least_deposit(p, h.price)
    }
}

/// A paid top-up adds its amount to the balance if the name is as it was,
/// and comes back whole otherwise. One that the ledger did not pay changes
/// no record and credits nobody.
pub proof fn law_paid_top_ups_are_added(
    s: RegistryState,
    u: TopUpState,
    reply: Result<u128, FailureState>,
    now: u64,
)
    requires
        sound(s),
    ensures
        ({
            let t = deposit_done(s, u, reply, now);
            &&& deposit_stands(s.store, u, now) <==> still_held(s.store, u, now)
            &&& reply is Ok && still_held(s.store, u, now) ==> is_topped_up(s, t, u, now)
            &&& reply is Ok && !still_held(s.store, u, now) ==> {
                &&& only_credits_move(s, t)
                &&& credits_one(s.store, t.store, u.caller, u.amount)
                &&& one_landed(s, t)
            }
            &&& reply matches Err(f) ==> is_unpaid(s, t, u.caller, u.amount, f)
        }),
{
    let p = params_of(u.cfg);
    if s.store.records.contains_key(u.name) {
        let r = s.store.records[u.name];
        assert(good_record(s.store.handles, u.name, r));
        if r.flat is Some {
            lemma_settled(p, r.flat->0, now);
            lemma_tax_over(p, r.flat->0.price, p.grace_ns as int);
        }
    }
}

/// Whether `t` is `s` after a name was reassessed: it has exactly the given
/// price, whatever it had before. Its balance, settled time and lapse are
/// those of the holding settled to now, and nothing else of it changed.
pub open spec fn is_repriced(
    s: RegistryState,
    t: RegistryState,
    name: Seq<char>,
    price: u128,
    now: u64,
) -> bool {
    let was = s.store.records[name];
    let r = t.store.records[name];
    &&& t.store.records.contains_key(name)
    &&& was.flat matches Some(h) && {
        let up_to_now = settled(params_of(s.store.settings.config), h, now);
        &&& r.flat is Some
        &&& r.flat->0.price == price
        &&& r.flat->0.balance == up_to_now.balance
        &&& r.flat->0.settled_ns == up_to_now.settled_ns
        &&& r.flat->0.lapsed_ns == up_to_now.lapsed_ns
    }
    &&& r.name == name
    &&& r.owner == was.owner
    &&& r.target == was.target
    &&& r.previous_target == was.previous_target
    &&& r.text == was.text
    &&& r.created_ns == was.created_ns
    &&& r.changed_hands_ns == was.changed_hands_ns
    &&& r.updated_ns == now
    &&& counts_tax(s.store, t.store, was, now)
    &&& touches_only(s, t, name)
    &&& t.store.credits == s.store.credits
    &&& t.in_flight == s.in_flight
}

/// A holder sets any price in range, higher or lower than before, and the
/// name then has that price; the tax so far is at the old one.
pub proof fn law_holders_set_their_price(
    s: RegistryState,
    caller: Seq<u8>,
    name: Seq<char>,
    price: u128,
    now: u64,
)
    requires
        sound(s),
    ensures
        set_price_fault(s.store, caller, name, price, now) is None <==> holds_flat(
            s.store,
            caller,
            name,
            now,
        ) && s.store.settings.config.min_price <= price <= 1_000_000_000_000_000_000,
        set_price_fault(s.store, caller, name, price, now) is None ==> is_repriced(
            s,
            with_flat(s, name, repriced(settled_now(s.store, name, now), price, now), now),
            name,
            price,
            now,
        ),
{
    if s.store.records.contains_key(name) {
        assert(good_record(s.store.handles, name, s.store.records[name]));
    }
    if is_flat_name(name) {
        names::lemma_segment_no_slash(name);
    }
}

/// Two buyers racing for one name cannot both pay: once the first purchase
/// is done, the payment of the second, which saw the same holder, is
/// credited back in full.
pub proof fn law_second_buyer_is_credited_back(
    s: RegistryState,
    first: BuyState,
    second: BuyState,
    blocks: (u128, u128),
    now: u64,
    later: u64,
)
    requires
        keyed_by_name(s.store),
        buy_stands(s.store, first, now),
        second.name == first.name,
        second.before == first.before,
    ensures
        ({
            let sold = buy_done(s, first, Ok(blocks.0), now);
            buy_done(sold, second, Ok(blocks.1), later) == with_credit(
                landed(sold),
                second.caller,
                buy_total(second),
            )
        }),
{
    let sold = buy_done(s, first, Ok(blocks.0), now);
    let r = s.store.records[first.name];
    assert(r.name == first.name);
    assert(sold.store.records[first.name].owner == first.caller);
    assert(!buy_stands(sold.store, second, later));
}

/// Two claims racing for one free name cannot both have it: once the first
/// is done, the deposit of the second, which saw the same name, is credited
/// back in full.
pub proof fn law_second_claim_is_credited_back(
    s: RegistryState,
    first: ClaimState,
    second: ClaimState,
    blocks: (u128, u128),
    now: u64,
    later: u64,
)
    requires
        keyed_by_name(s.store),
        claim_stands(s.store, first, now),
        second.name == first.name,
        second.before == first.before,
        first.before matches Some(b) ==> b.changed_hands_ns < now,
    ensures
        ({
            let taken = claim_done(s, first, Ok(blocks.0), now);
            claim_done(taken, second, Ok(blocks.1), later) == with_credit(
                landed(taken),
                second.caller,
                second.deposit,
            )
        }),
{
    let taken = claim_done(s, first, Ok(blocks.0), now);
    assert(claimed_record(s.store, first, now).name == first.name);
    let r = taken.store.records[first.name];
    assert(r.changed_hands_ns == now && r.flat is Some);
    assert(!claim_stands(taken.store, second, later));
}

/// The market shut.
pub open spec fn shut(s: StoreState) -> StoreState {
    StoreState {
        settings: SettingsState {
            config: ConfigState { flat_names_open: false, ..s.settings.config },
            ..s.settings
        },
        ..s
    }
}

/// Closing the market stops new claims and nothing else: buying a held name
/// is never gated, and holders can always top up and reassess.
pub proof fn law_closed_market_stops_claims_only(
    s: StoreState,
    caller: Seq<u8>,
    name: Seq<char>,
    target: TargetState,
    price: u128,
    deposit: u128,
    max_price: u128,
    now: u64,
)
    ensures
        claim_fault(shut(s), caller, name, target, price, deposit, now) is Some,
        buy_fault(shut(s), caller, name, target, price, deposit, max_price, now) == buy_fault(
            s,
            caller,
            name,
            target,
            price,
            deposit,
            max_price,
            now,
        ),
        deposit_refused(shut(s), caller, name, deposit, now) == deposit_refused(
            s,
            caller,
            name,
            deposit,
            now,
        ),
        set_price_fault(shut(s), caller, name, price, now) == set_price_fault(
            s,
            caller,
            name,
            price,
            now,
        ),
        crate::registry::delete_fault(shut(s), caller, name, now) == crate::registry::delete_fault(
            s,
            caller,
            name,
            now,
        ),
{
}

/// A name is never taken on credit: the terms of a claim or a purchase that
/// is not refused prepay one grace period of tax at the assessed price,
/// which lies in the allowed range.
pub proof fn law_terms_prepay_grace(
    c: ConfigState,
    caller: Seq<u8>,
    name: Seq<char>,
    target: TargetState,
    price: u128,
    deposit: u128,
)
    requires
        terms_fault(c, caller, name, target, price, deposit) is None,
    ensures
        deposit >= least_deposit(params_of(c), price),
        c.min_price <= price <= MAX_PRICE,
        is_flat_name(name),
        target matches TargetState::Alias(to) && is_scoped_name(to),
{
}

/// A completed purchase hands the name to the buyer at the buyer's own
/// price, remembers what it pointed at before, clears the text records,
/// pinned module hash included, and credits the seller the price and the
/// unspent balance.
pub proof fn law_purchase_hands_over(s: RegistryState, b: BuyState, block: u128, now: u64)
    requires
        keyed_by_name(s.store),
        buy_stands(s.store, b, now),
        owed(s.store.credits, s.store.records[b.name].owner) + seller_share(s.store, b, now)
            <= u128::MAX,
    ensures
        ({
            let was = s.store.records[b.name];
            let t = buy_done(s, b, Ok(block), now);
            let r = t.store.records[b.name];
            &&& r.owner == b.caller
            &&& r.target == b.target
            &&& r.previous_target == Some(was.target)
            &&& r.text.len() == 0
            &&& r.changed_hands_ns == now
            &&& r.flat == Some(holding(b.price, b.deposit, now))
            &&& owed(t.store.credits, was.owner) == owed(s.store.credits, was.owner)
                + seller_share(s.store, b, now)
            &&& b.before.price <= b.max_price
        }),
{
    assert(s.store.records[b.name].name == b.name);
}

/// Whether a snapshot is of a record at `now`: its holder, its price, when it
/// changed hands, and how it stands.
pub open spec fn pictures(snap: SnapshotState, s: StoreState, r: RecordState, now: u64) -> bool {
    &&& snap.owner == r.owner
    &&& snap.changed_hands_ns == r.changed_hands_ns
    &&& r.flat matches Some(h) && snap.price == h.price && snap.status == status_at(
        params_of(s.settings.config),
        h,
        now,
    )
}

/// A payment that is started asks for what its caller asked for, under the
/// config of that moment, and pictures the name as it stands, so that it can
/// be seen whether it changed before the payment came.
pub proof fn law_payments_ask_what_was_asked(
    s: RegistryState,
    caller: Seq<u8>,
    name: Seq<char>,
    target: TargetState,
    price: u128,
    deposit: u128,
    max_price: u128,
    now: u64,
)
    requires
        sound(s),
        is_flat_name(name),
    ensures
        ({
            let claim = started_claim(s.store, caller, name, target, price, deposit, now);
            let buy = started_buy(s.store, caller, name, target, price, deposit, max_price, now);
            let top_up = started_top_up(s.store, caller, name, deposit, now);
            let stored = s.store.records.contains_key(name);
            let r = s.store.records[name];
            &&& claim.caller == caller && claim.name == name && claim.target == target
            &&& claim.price == price && claim.deposit == deposit
            &&& claim.cfg == s.store.settings.config
            &&& claim.before is Some <==> stored
            &&& claim.before matches Some(b) ==> pictures(b, s.store, r, now)
            &&& buy.caller == caller && buy.name == name && buy.target == target
            &&& buy.price == price && buy.deposit == deposit && buy.max_price == max_price
            &&& buy.cfg == s.store.settings.config
            &&& stored ==> pictures(buy.before, s.store, r, now)
            &&& top_up.caller == caller && top_up.name == name && top_up.amount == deposit
            &&& top_up.cfg == s.store.settings.config
            &&& stored ==> pictures(top_up.before, s.store, r, now)
        }),
{
    names::lemma_segment_no_slash(name);
    if s.store.records.contains_key(name) {
        assert(good_record(s.store.handles, name, s.store.records[name]));
    }
}

/// Nothing happens between the halves of a payment unless another call does
/// it: a payment that is started and paid at once goes through.
pub proof fn law_undisturbed_payments_go_through(
    s: RegistryState,
    caller: Seq<u8>,
    name: Seq<char>,
    target: TargetState,
    price: u128,
    deposit: u128,
    max_price: u128,
    now: u64,
)
    ensures
        claim_fault(s.store, caller, name, target, price, deposit, now) is None ==> claim_stands(
            s.store,
            started_claim(s.store, caller, name, target, price, deposit, now),
            now,
        ),
        buy_fault(s.store, caller, name, target, price, deposit, max_price, now) is None
            ==> buy_stands(
            s.store,
            started_buy(s.store, caller, name, target, price, deposit, max_price, now),
            now,
        ),
        deposit_refused(s.store, caller, name, deposit, now) is None ==> deposit_stands(
            s.store,
            started_top_up(s.store, caller, name, deposit, now),
            now,
        ),
{
}

/// Terms that are not in order are refused for the first thing wrong with
/// them, in this order: the caller, the name, the target, the price, the
/// deposit.
pub proof fn law_refused_terms_say_why(
    c: ConfigState,
    caller: Seq<u8>,
    name: Seq<char>,
    target: TargetState,
    price: u128,
    deposit: u128,
)
    ensures
        ({
            let told = terms_fault(c, caller, name, target, price, deposit);
            let least = least_deposit(params_of(c), price);
            let known = caller != anonymous();
            let named = known && is_flat_name(name);
            let aimed = named && (target matches TargetState::Alias(to) && is_scoped_name(to));
            let priced = aimed && c.min_price <= price <= 1_000_000_000_000_000_000;
            &&& !known ==> told == Some("anonymous caller"@)
            &&& known && !named ==> told == Some(flat_error(name))
            &&& named && target is Address ==> told == Some("a flat name must alias a scoped name"@)
            &&& aimed && price < c.min_price ==> told == Some(
                "price below the minimum of "@ + decimal(c.min_price as nat) + " cycles"@,
            )
            &&& priced && deposit < least ==> told == Some(
                "deposit must cover one grace period of tax: at least "@ + decimal(least as nat)
                    + " cycles at this price"@,
            )
            &&& priced && deposit >= least ==> told is None
        }),
{
}

/// A claim, a purchase or a top-up whose terms are in order but whose name
/// does not allow it says how the name stands.
pub proof fn law_refused_payments_say_why(
    s: RegistryState,
    caller: Seq<u8>,
    name: Seq<char>,
    target: TargetState,
    price: u128,
    deposit: u128,
    max_price: u128,
    now: u64,
)
    requires
        sound(s),
        fair_terms(s.store.settings.config, caller, name, target, price, deposit),
    ensures
        ({
            let r = s.store.records[name];
            let stored = s.store.records.contains_key(name);
            let holder = stored && in_hands(s.store, r, now);
            let open = s.store.settings.config.flat_names_open;
            let claim = claim_fault(s.store, caller, name, target, price, deposit, now);
            let buy = buy_fault(s.store, caller, name, target, price, deposit, max_price, now);
            let top_up = deposit_refused(s.store, caller, name, deposit, now);
            let lapsed = "'"@ + name + "' has lapsed; claim it instead"@;
            &&& !open ==> claim == Some("flat names are not open for claiming yet"@)
            &&& open && holder ==> claim == Some(
                "'"@ + name + "' is owned by "@ + principal_text(r.owner),
            )
            &&& !stored ==> buy == Some("no record for '"@ + name + "'"@)
            &&& stored && !holder ==> buy == Some(lapsed)
            &&& holder && r.owner == caller ==> buy == Some("you hold this name; use set_price"@)
            &&& holder && r.owner != caller && r.flat->0.price > max_price ==> buy == Some(
                "price is now "@ + decimal(r.flat->0.price as nat)
                    + " cycles, above your limit of "@ + decimal(max_price as nat),
            )
            &&& deposit == 0 ==> top_up == Some("amount is zero"@)
            &&& deposit > 0 && !stored ==> top_up == Some("no record for '"@ + name + "'"@)
            &&& deposit > 0 && stored && !holder ==> top_up == Some(lapsed)
        }),
{
    names::lemma_segment_no_slash(name);
    if s.store.records.contains_key(name) {
        assert(good_record(s.store.handles, name, s.store.records[name]));
    }
}

} // verus!
