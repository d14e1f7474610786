//! The Harberger tax on flat names.
//!
//! The owner of a flat name self-assesses a price and prepays a balance.
//! Tax accrues on the price and is settled lazily: on every read or write
//! the tax due comes off the balance. When the balance runs out the name is
//! in a grace period, and after that it is free to claim. Anyone may buy
//! the name at its price at any time.
//!
//! Here are the stored config (ledger, fee, market flag, warning window and
//! the parameters of the tax), the tax counters and the amounts whose
//! movement at the ledger could not be confirmed.

use candid::types::value::IDLValue;
use vstd::prelude::*;
use vstd::utf8::*;

use crate::forms::{
    old_tax_kind, old_tax_type, tax_kind, tax_type, FEE, FLAT_NAMES_OPEN, GRACE_NS,
    HANDOVER_WARN_NS, LEDGER, MIN_PRICE, RATE_BPS,
};
use crate::idl::{
    bool_from, candid_bytes, candid_in, decode, encode, fields_from, fields_of, fits, lacks,
    nat32_from, nat64_from, nat64_value, nat_from, nat_value, principal_from, principal_value,
    read_bool, read_fields, read_nat, read_nat32, read_nat64, read_principal, record_value,
    scalar_value, Datum, Kind, Scalar,
};
use crate::maps::lookup;
use crate::principal::{Principal, MAX_PRINCIPAL};
use crate::record::{Record, RecordState};
use crate::settings::{Meta, SettingsState, Slot};
use crate::store::{Store, StoreState};
use crate::tax::{
    capped, least_deposit, lemma_settled, params_error, params_ok, settled, spent_after, status_at,
    taken, top_up_error, top_up_ok, topped_up, yearly, Harberger, Params, Status,
};
use crate::text::{lossy_text, seen, text_from_utf8_lossy};

verus! {

/// The mainnet cycles ledger.
pub const CYCLES_LEDGER: &'static str = "um5iw-rqaaa-aaaaq-qaaba-cai";

/// The settings of the tax.
#[derive(Debug, PartialEq, Eq)]
pub struct Config {
    /// The cycles ledger. Mainnet's by default.
    pub ledger: Principal,
    /// Tax per year on the assessed price, in basis points.
    pub rate_bps: u32,
    /// Lowest price anyone may assess, cycles.
    pub min_price: u128,
    /// How long a name with no balance stays with its owner.
    pub grace_ns: u64,
    /// The ledger's transfer fee, cycles, as it answered when the config
    /// was set. Pinned on every transfer, so a changed fee fails the
    /// transfer instead of quietly over-debiting this account.
    pub fee: u128,
    /// Whether new flat names may be claimed. Closed by default. Buying a
    /// held name is never gated, and holders can always top up, reassess,
    /// withdraw and release.
    pub flat_names_open: bool,
    /// How long after a flat name changes hands the gateway interposes a
    /// warning page instead of redirecting.
    pub handover_warn_ns: u64,
}

/// A config by its contents.
#[verifier::ext_equal]
pub struct ConfigState {
    pub ledger: Seq<u8>,
    pub rate_bps: u32,
    pub min_price: u128,
    pub grace_ns: u64,
    pub fee: u128,
    pub flat_names_open: bool,
    pub handover_warn_ns: u64,
}

impl View for Config {
    type V = ConfigState;

    open spec fn view(&self) -> ConfigState {
        ConfigState {
            ledger: self.ledger@,
            rate_bps: self.rate_bps,
            min_price: self.min_price,
            grace_ns: self.grace_ns,
            fee: self.fee,
            flat_names_open: self.flat_names_open,
            handover_warn_ns: self.handover_warn_ns,
        }
    }
}

impl Clone for Config {
    fn clone(&self) -> (r: Self)
        ensures
            r@ == self@,
    {
        Config {
            ledger: self.ledger.clone(),
            rate_bps: self.rate_bps,
            min_price: self.min_price,
            grace_ns: self.grace_ns,
            fee: self.fee,
            flat_names_open: self.flat_names_open,
            handover_warn_ns: self.handover_warn_ns,
        }
    }
}

/// The bytes of the mainnet cycles ledger's principal.
pub open spec fn cycles_ledger() -> Seq<u8> {
    seq![0u8, 0, 0, 0, 2, 16, 0, 2, 1, 1]
}

/// Thirty days, nanoseconds.
pub const THIRTY_DAYS_NS: u64 = 30 * 24 * 60 * 60 * 1_000_000_000;

/// The config when none was ever set.
pub open spec fn default_config() -> ConfigState {
    ConfigState {
        ledger: cycles_ledger(),
        rate_bps: 700,
        min_price: 100_000_000_000,
        grace_ns: THIRTY_DAYS_NS,
        fee: 100_000_000,
        flat_names_open: false,
        handover_warn_ns: THIRTY_DAYS_NS,
    }
}

impl Default for Config {
    fn default() -> (r: Self)
        ensures
            r@ == default_config(),
    {
        let bytes: Vec<u8> = vec![0u8, 0, 0, 0, 2, 16, 0, 2, 1, 1];
        assert(bytes@ =~= cycles_ledger());
        Config {
            ledger: Principal::from_slice(bytes.as_slice()),
            rate_bps: 700,
            min_price: 100_000_000_000,
            grace_ns: THIRTY_DAYS_NS,
            fee: 100_000_000,
            flat_names_open: false,
            handover_warn_ns: THIRTY_DAYS_NS,
        }
    }
}

/// The three numbers that the tax needs.
pub open spec fn params_of(c: ConfigState) -> Params {
    Params { rate_bps: c.rate_bps, min_price: c.min_price, grace_ns: c.grace_ns }
}

/// A config in candid.
pub open spec fn config_datum(c: ConfigState) -> Datum {
    Datum::Record(
        seq![
            (FEE, Datum::Nat(c.fee as nat)),
            (RATE_BPS, Datum::Nat32(c.rate_bps)),
            (HANDOVER_WARN_NS, Datum::Nat64(c.handover_warn_ns)),
            (GRACE_NS, Datum::Nat64(c.grace_ns)),
            (LEDGER, Datum::Principal(c.ledger)),
            (FLAT_NAMES_OPEN, Datum::Bool(c.flat_names_open)),
            (MIN_PRICE, Datum::Nat(c.min_price as nat)),
        ],
    )
}

/// The ids of a config's fields.
pub open spec fn config_ids() -> Seq<u32> {
    seq![FEE, RATE_BPS, HANDOVER_WARN_NS, GRACE_NS, LEDGER, FLAT_NAMES_OPEN, MIN_PRICE]
}

/// The config that a value is, if it is one.
pub open spec fn config_from(d: Datum) -> Option<ConfigState> {
    match fields_from(d, config_ids()) {
        Some(f) => {
            let fee = nat_from(f[0]);
            let rate = nat32_from(f[1]);
            let warn = nat64_from(f[2]);
            let grace = nat64_from(f[3]);
            let ledger = principal_from(f[4]);
            let open = bool_from(f[5]);
            let least = nat_from(f[6]);
            if fee is Some && rate is Some && warn is Some && grace is Some && ledger is Some
                && open is Some && least is Some {
                Some(
                    ConfigState {
                        ledger: ledger->0,
                        rate_bps: rate->0,
                        min_price: least->0,
                        grace_ns: grace->0,
                        fee: fee->0,
                        flat_names_open: open->0,
                        handover_warn_ns: warn->0,
                    },
                )
            } else {
                None
            }
        },
        None => None,
    }
}

/// A config in candid has the type of configs and reads as the config.
proof fn lemma_config(c: ConfigState)
    requires
        c.ledger.len() <= MAX_PRINCIPAL,
    ensures
        fits(config_datum(c), tax_kind()),
        config_from(config_datum(c)) == Some(c),
{
    reveal_with_fuel(fits, 2);
    let fs = config_datum(c)->Record_0;
    assert(fs.map_values(|f: (u32, Datum)| f.0) =~= config_ids());
}

/// The bytes that a config is stored as.
pub open spec fn config_bytes(c: ConfigState) -> Seq<u8> {
    candid_bytes(config_datum(c), tax_kind())
}

/// The config stored in `bytes`, if they store one.
pub open spec fn config_in(bytes: Seq<u8>) -> Option<ConfigState> {
    match candid_in(bytes, tax_kind()) {
        Some(d) => config_from(d),
        None => None,
    }
}

impl Config {
    /// The three numbers the tax needs.
    pub fn params(&self) -> (r: Params)
        ensures
            r == params_of(self@),
    {
        Params { rate_bps: self.rate_bps, min_price: self.min_price, grace_ns: self.grace_ns }
    }

    /// The stored form: the config in candid.
    pub fn to_bytes(&self) -> (r: Vec<u8>)
        ensures
            r@ == config_bytes(self@),
            config_in(r@) == Some(self@),
    {
        self.ledger.bounded();
        let fs: Vec<(u32, IDLValue)> = vec![
            (FEE, nat_value(self.fee)),
            (RATE_BPS, scalar_value(Scalar::Nat32(self.rate_bps))),
            (HANDOVER_WARN_NS, nat64_value(self.handover_warn_ns)),
            (GRACE_NS, nat64_value(self.grace_ns)),
            (LEDGER, principal_value(&self.ledger)),
            (FLAT_NAMES_OPEN, scalar_value(Scalar::Bool(self.flat_names_open))),
            (MIN_PRICE, nat_value(self.min_price)),
        ];
        proof {
            assert(fields_of(fs@) =~= config_datum(self@)->Record_0);
            lemma_config(self@);
        }
        encode(record_value(fs), tax_type())
    }

    /// Read the stored form, None where the bytes hold no config.
    pub fn from_bytes(bytes: &Vec<u8>) -> (r: Option<Config>)
        ensures
            seen(r) == config_in(bytes@),
    {
        let v = match decode(bytes, tax_type()) {
            Some(v) => v,
            None => {
                return None;
            },
        };
        let ids: Vec<u32> = vec![
            FEE,
            RATE_BPS,
            HANDOVER_WARN_NS,
            GRACE_NS,
            LEDGER,
            FLAT_NAMES_OPEN,
            MIN_PRICE,
        ];
        assert(ids@ =~= config_ids());
        let f = match read_fields(&v, &ids) {
            Some(f) => f,
            None => {
                return None;
            },
        };
        let (fee, min_price): (u128, u128) = match (read_nat(&f[0]), read_nat(&f[6])) {
            (Some(fee), Some(least)) => (fee, least),
            _ => {
                return None;
            },
        };
        let (handover_warn_ns, grace_ns): (u64, u64) = match (read_nat64(&f[2]), read_nat64(&f[3])) {
            (Some(warn), Some(grace)) => (warn, grace),
            _ => {
                return None;
            },
        };
        match (read_principal(&f[4]), read_nat32(&f[1]), read_bool(&f[5])) {
            (Some(ledger), Some(rate_bps), Some(flat_names_open)) => Some(
                Config {
                    ledger,
                    rate_bps,
                    min_price,
                    grace_ns,
                    fee,
                    flat_names_open,
                    handover_warn_ns,
                },
            ),
            _ => None,
        }
    }
}

/// The config as schema 2 wrote it: no market flag, no handover window.
/// Kept only to migrate it.
#[derive(Debug, PartialEq, Eq)]
pub struct ConfigV2 {
    pub ledger: Principal,
    pub rate_bps: u32,
    pub min_price: u128,
    pub grace_ns: u64,
    pub fee: u128,
}

/// What a schema 2 config becomes: its values kept, the market closed and
/// the default warning window.
pub open spec fn migrated(c: ConfigV2) -> ConfigState {
    ConfigState {
        ledger: c.ledger@,
        rate_bps: c.rate_bps,
        min_price: c.min_price,
        grace_ns: c.grace_ns,
        fee: c.fee,
        flat_names_open: false,
        handover_warn_ns: THIRTY_DAYS_NS,
    }
}

/// A schema 2 config in candid.
pub open spec fn v2_datum(c: ConfigV2) -> Datum {
    Datum::Record(
        seq![
            (FEE, Datum::Nat(c.fee as nat)),
            (RATE_BPS, Datum::Nat32(c.rate_bps)),
            (GRACE_NS, Datum::Nat64(c.grace_ns)),
            (LEDGER, Datum::Principal(c.ledger@)),
            (MIN_PRICE, Datum::Nat(c.min_price as nat)),
        ],
    )
}

/// The ids of a schema 2 config's fields.
pub open spec fn v2_ids() -> Seq<u32> {
    seq![FEE, RATE_BPS, GRACE_NS, LEDGER, MIN_PRICE]
}

/// The schema 2 config that a value is, in its current shape, if it is one.
pub open spec fn v2_from(d: Datum) -> Option<ConfigState> {
    match fields_from(d, v2_ids()) {
        Some(f) => {
            let fee = nat_from(f[0]);
            let rate = nat32_from(f[1]);
            let grace = nat64_from(f[2]);
            let ledger = principal_from(f[3]);
            let least = nat_from(f[4]);
            if fee is Some && rate is Some && grace is Some && ledger is Some && least is Some {
                Some(
                    ConfigState {
                        ledger: ledger->0,
                        rate_bps: rate->0,
                        min_price: least->0,
                        grace_ns: grace->0,
                        fee: fee->0,
                        flat_names_open: false,
                        handover_warn_ns: THIRTY_DAYS_NS,
                    },
                )
            } else {
                None
            }
        },
        None => None,
    }
}

/// A schema 2 config in candid has its type, reads as the config in its
/// current shape, and lacks what the current type asks for.
proof fn lemma_v2(c: ConfigV2)
    requires
        c.ledger@.len() <= MAX_PRINCIPAL,
    ensures
        fits(v2_datum(c), old_tax_kind()),
        v2_from(v2_datum(c)) == Some(migrated(c)),
        lacks(old_tax_kind(), tax_kind()),
{
    reveal_with_fuel(fits, 2);
    let fs = v2_datum(c)->Record_0;
    assert(fs.map_values(|f: (u32, Datum)| f.0) =~= v2_ids());
    let wants = tax_kind()->Record_0;
    assert(wants[5] == (FLAT_NAMES_OPEN, Kind::Bool));
}

/// The schema 2 config stored in `bytes`, in its current shape.
pub open spec fn v2_in(bytes: Seq<u8>) -> Option<ConfigState> {
    match candid_in(bytes, old_tax_kind()) {
        Some(d) => v2_from(d),
        None => None,
    }
}

impl ConfigV2 {
    /// The stored form under schema 2: the config in candid. It does not
    /// read as a current config.
    pub fn to_bytes(&self) -> (r: Vec<u8>)
        ensures
            r@ == candid_bytes(v2_datum(*self), old_tax_kind()),
            v2_in(r@) == Some(migrated(*self)),
            config_in(r@) is None,
    {
        self.ledger.bounded();
        let fs: Vec<(u32, IDLValue)> = vec![
            (FEE, nat_value(self.fee)),
            (RATE_BPS, scalar_value(Scalar::Nat32(self.rate_bps))),
            (GRACE_NS, nat64_value(self.grace_ns)),
            (LEDGER, principal_value(&self.ledger)),
            (MIN_PRICE, nat_value(self.min_price)),
        ];
        proof {
            assert(fields_of(fs@) =~= v2_datum(*self)->Record_0);
            lemma_v2(*self);
        }
        encode(record_value(fs), old_tax_type())
    }

    /// Read a schema 2 config, in its current shape.
    fn read(bytes: &Vec<u8>) -> (r: Option<Config>)
        ensures
            seen(r) == v2_in(bytes@),
    {
        let v = match decode(bytes, old_tax_type()) {
            Some(v) => v,
            None => {
                return None;
            },
        };
        let ids: Vec<u32> = vec![FEE, RATE_BPS, GRACE_NS, LEDGER, MIN_PRICE];
        assert(ids@ =~= v2_ids());
        let f = match read_fields(&v, &ids) {
            Some(f) => f,
            None => {
                return None;
            },
        };
        let (fee, min_price): (u128, u128) = match (read_nat(&f[0]), read_nat(&f[4])) {
            (Some(fee), Some(least)) => (fee, least),
            _ => {
                return None;
            },
        };
        match (read_principal(&f[3]), read_nat32(&f[1]), read_nat64(&f[2])) {
            (Some(ledger), Some(rate_bps), Some(grace_ns)) => Some(
                Config {
                    ledger,
                    rate_bps,
                    min_price,
                    grace_ns,
                    fee,
                    flat_names_open: false,
                    handover_warn_ns: THIRTY_DAYS_NS,
                },
            ),
            _ => None,
        }
    }
}

// --- the stored config ----------------------------------------------------------------

/// The stored config, or the default when none was ever set.
pub fn config(store: &Store) -> (r: Config)
    ensures
        r@ == store@.settings.config,
{
    store.settings.config()
}

/// Whether the stored config, if there is one, is a current or a schema 2
/// one.
pub open spec fn migratable(m: Map<Slot, Seq<u8>>) -> bool {
    lookup(m, Slot::Harberger) matches Some(b) ==> config_in(b) is Some || v2_in(b) is Some
}

/// Rewrite a schema 2 config in the current shape: its values kept, the
/// market closed like a fresh deploy, so names held at upgrade time stay
/// buyable and taxed as before. Nothing changes where nothing is stored or
/// it already reads as current.
pub fn migrate_config_from_v2(meta: &mut Meta) -> (r: Result<(), String>)
    ensures
        r is Ok <==> migratable(old(meta)@),
        r matches Err(e) ==> e@ == "decode schema 2 harberger config"@,
        r is Ok ==> match lookup(old(meta)@, Slot::Harberger) {
            None => final(meta)@ == old(meta)@,
            Some(b) => if config_in(b) is Some {
                final(meta)@ == old(meta)@
            } else {
                final(meta)@ == old(meta)@.insert(Slot::Harberger, config_bytes(v2_in(b)->0))
                    && config_in(config_bytes(v2_in(b)->0)) == v2_in(b)
            },
        },
        r is Err ==> final(meta)@ == old(meta)@,
{
    let b = match meta.get(Slot::Harberger) {
        Some(b) => b,
        None => {
            return Ok(());
        },
    };
    if Config::from_bytes(&b).is_some() {
        return Ok(());
    }
    match ConfigV2::read(&b) {
        Some(c) => {
            let bytes = c.to_bytes();
            meta.set(Slot::Harberger, bytes);
            Ok(())
        },
        None => Err("decode schema 2 harberger config".to_string()),
    }
}

/// Store a config whose parameters are acceptable.
pub fn set_config(store: &mut Store, c: &Config) -> (r: Result<(), String>)
    ensures
        r is Ok <==> params_ok(params_of(c@)),
        r is Ok ==> final(store)@ == with_config(old(store)@, c@),
        r matches Err(e) ==> e@ == params_error(params_of(c@)),
        r is Err ==> final(store)@ == old(store)@,
{
    match c.params().check() {
        Err(e) => Err(e),
        Ok(_) => {
            store.settings.set_config(c);
            Ok(())
        },
    }
}

/// The registry with another config.
pub open spec fn with_config(s: StoreState, c: ConfigState) -> StoreState {
    StoreState { settings: SettingsState { config: c, ..s.settings }, ..s }
}

// --- the tax ----------------------------------------------------------------------------

/// Tax per year at a price.
pub fn tax_per_year(cfg: &Config, price: u128) -> (r: u128)
    ensures
        r == yearly(params_of(cfg@), price),
{
    cfg.params().tax_per_year(price)
}

/// How long a balance pays the tax at a price.
pub fn ns_until_spent(cfg: &Config, price: u128, balance: u128) -> (r: Option<u64>)
    ensures
        r == spent_after(params_of(cfg@), price, balance),
{
    cfg.params().ns_until_spent(price, balance)
}

/// The smallest deposit accepted when claiming or buying: the tax for one
/// grace period, so a name is never held on credit.
pub fn min_deposit(cfg: &Config, price: u128) -> (r: u128)
    ensures
        r == least_deposit(params_of(cfg@), price),
{
    cfg.params().min_deposit(price)
}

/// Settle tax up to `now` in place. Returns the status and the tax taken.
pub fn settle(cfg: &Config, h: &mut Harberger, now: u64) -> (r: (Status, u128))
    ensures
        *final(h) == settled(params_of(cfg@), *old(h), now),
        r.0 == status_at(params_of(cfg@), *old(h), now),
        r.1 == taken(params_of(cfg@), *old(h), now),
{
    let (next, status, tax) = h.settle(&cfg.params(), now);
    *h = next;
    (status, tax)
}

/// Add `amount` to the prepaid balance, settling to `now` first. Returns
/// the tax that settling took, for `note_tax_collected` on commit. Refuses
/// a free holding, and one the top-up would leave below a grace period of
/// tax.
pub fn top_up(cfg: &Config, h: &mut Harberger, amount: u128, now: u64) -> (r: Result<u128, String>)
    ensures
        r is Ok <==> top_up_ok(params_of(cfg@), *old(h), amount, now),
        r matches Ok(tax) ==> tax == taken(params_of(cfg@), *old(h), now),
        r is Ok ==> *final(h) == topped_up(params_of(cfg@), *old(h), amount, now),
        r matches Err(e) ==> e@ == top_up_error(params_of(cfg@), *old(h), now),
        r is Err ==> *final(h) == *old(h),
{
    match h.top_up(&cfg.params(), amount, now) {
        Ok((next, tax)) => {
            *h = next;
            Ok(tax)
        },
        Err(e) => Err(e),
    }
}

/// A record with its holding, if it has one, settled up to `now`.
pub open spec fn settled_record(p: Params, r: RecordState, now: u64) -> RecordState {
    match r.flat {
        Some(h) => RecordState { flat: Some(settled(p, h, now)), ..r },
        None => r,
    }
}

/// Where a record stands at `now`. One without a holding is active.
pub open spec fn record_status(p: Params, r: RecordState, now: u64) -> Status {
    match r.flat {
        Some(h) => status_at(p, h, now),
        None => Status::Active,
    }
}

/// The tax that settling a record takes.
pub open spec fn record_tax(p: Params, r: RecordState, now: u64) -> u128 {
    match r.flat {
        Some(h) => taken(p, h, now),
        None => 0,
    }
}

/// Settle a flat record in place. Returns the status and the tax taken,
/// which the caller reports with `note_tax_collected` when, and only when,
/// it commits the settled record. A record that is not flat is active and
/// owes nothing.
pub fn settle_record(cfg: &Config, r: &mut Record, now: u64) -> (out: (Status, u128))
    ensures
        final(r)@ == settled_record(params_of(cfg@), old(r)@, now),
        out.0 == record_status(params_of(cfg@), old(r)@, now),
        out.1 == record_tax(params_of(cfg@), old(r)@, now),
{
    match r.flat {
        None => (Status::Active, 0),
        Some(h) => {
            let mut h = h;
            let out = settle(cfg, &mut h, now);
            r.flat = Some(h);
            out
        },
    }
}

// --- the treasury -------------------------------------------------------------------------

/// The registry with tax added to what was collected.
pub open spec fn with_tax(s: StoreState, amount: u128) -> StoreState {
    StoreState {
        settings: SettingsState {
            tax_collected: capped(s.settings.tax_collected + amount),
            ..s.settings
        },
        ..s
    }
}

/// Add tax that a committed settlement took to the treasury counter.
pub fn note_tax_collected(store: &mut Store, amount: u128)
    ensures
        final(store)@ == with_tax(old(store)@, amount),
{
    if amount > 0 {
        let n: u128 = store.settings.tax_collected();
        store.settings.set_tax_collected(n.saturating_add(amount));
    }
}

/// Tax collected so far.
pub fn tax_collected(store: &Store) -> (r: u128)
    ensures
        r == store@.settings.tax_collected,
{
    store.settings.tax_collected()
}

/// Tax withdrawn so far.
pub fn tax_withdrawn(store: &Store) -> (r: u128)
    ensures
        r == store@.settings.tax_withdrawn,
{
    store.settings.tax_withdrawn()
}

/// The registry with another amount of tax withdrawn.
pub open spec fn with_withdrawn(s: StoreState, n: u128) -> StoreState {
    StoreState { settings: SettingsState { tax_withdrawn: n, ..s.settings }, ..s }
}

/// Note a withdrawal of tax.
pub fn note_tax_withdrawn(store: &mut Store, amount: u128)
    ensures
        final(store)@ == with_withdrawn(
            old(store)@,
            capped(old(store)@.settings.tax_withdrawn + amount),
        ),
{
    let n: u128 = store.settings.tax_withdrawn();
    store.settings.set_tax_withdrawn(n.saturating_add(amount));
}

/// The smaller amount taken from the larger, never below zero.
pub open spec fn reduced(a: u128, b: u128) -> u128 {
    if a >= b {
        (a - b) as u128
    } else {
        0
    }
}

/// A withdrawal that the ledger refused after it was noted.
pub fn undo_tax_withdrawn(store: &mut Store, amount: u128)
    ensures
        final(store)@ == with_withdrawn(
            old(store)@,
            reduced(old(store)@.settings.tax_withdrawn, amount),
        ),
{
    let n: u128 = store.settings.tax_withdrawn();
    store.settings.set_tax_withdrawn(n.saturating_sub(amount));
}

/// Cycles whose movement could not be confirmed, and what the last such
/// movement was, for the operator to reconcile against the ledger's blocks.
/// Never spent against.
pub fn unreconciled(store: &Store) -> (r: (u128, String))
    ensures
        r.0 == store@.settings.unreconciled,
        r.1@ == lossy_text(store@.settings.unreconciled_last),
{
    let last = store.settings.unreconciled_last();
    (store.settings.unreconciled(), text_from_utf8_lossy(last.as_slice()))
}

/// The registry with one more unconfirmed movement.
pub open spec fn with_unreconciled(s: StoreState, amount: u128, what: Seq<char>) -> StoreState {
    StoreState {
        settings: SettingsState {
            unreconciled: capped(s.settings.unreconciled + amount),
            unreconciled_last: encode_utf8(what),
            ..s.settings
        },
        ..s
    }
}

/// Note a movement that could not be confirmed.
pub fn note_unreconciled(store: &mut Store, amount: u128, what: &str)
    ensures
        final(store)@ == with_unreconciled(old(store)@, amount, what@),
{
    let n: u128 = store.settings.unreconciled();
    store.settings.set_unreconciled(n.saturating_add(amount));
    store.settings.set_unreconciled_last(what);
}

/// What is noted of an unconfirmed movement is read back as it was written.
pub proof fn law_unreconciled_note_reads_back(s: StoreState, amount: u128, what: Seq<char>)
    ensures
        valid_utf8(with_unreconciled(s, amount, what).settings.unreconciled_last),
        decode_utf8(with_unreconciled(s, amount, what).settings.unreconciled_last) == what,
{
    encode_utf8_valid_utf8(what);
    encode_utf8_decode_utf8(what);
}

/// The tax works with the config's own rate, least price and grace period.
pub proof fn law_config_sets_the_tax(c: ConfigState)
    ensures
        params_of(c).rate_bps == c.rate_bps,
        params_of(c).min_price == c.min_price,
        params_of(c).grace_ns == c.grace_ns,
{
}

/// A record is settled by settling its holding, stands where its holding
/// stands, and owes what its holding owes; one without a holding is active
/// and owes nothing.
pub proof fn law_records_are_taxed_by_their_holding(p: Params, r: RecordState, now: u64)
    ensures
        settled_record(p, r, now) == (RecordState {
            flat: settled_record(p, r, now).flat,
            ..r
        }),
        match r.flat {
            Some(h) => {
                &&& settled_record(p, r, now).flat == Some(settled(p, h, now))
                &&& record_status(p, r, now) == status_at(p, h, now)
                &&& record_tax(p, r, now) == taken(p, h, now)
                &&& record_tax(p, r, now) + settled(p, h, now).balance == h.balance
            },
            None => {
                &&& settled_record(p, r, now).flat is None
                &&& record_status(p, r, now) is Active
                &&& record_tax(p, r, now) == 0
            },
        },
{
    if r.flat is Some {
        lemma_settled(p, r.flat->0, now);
    }
}

/// Without a stored config the market is closed, the tax is 7% a year with
/// 30 days of grace, the least price is a tenth of a trillion cycles, and
/// the ledger is the cycles ledger with its fee.
pub proof fn law_default_config()
    ensures
        ({
            let c = default_config();
            &&& c.rate_bps == 700
            &&& c.min_price == 100_000_000_000
            &&& c.grace_ns == 2_592_000_000_000_000
            &&& c.handover_warn_ns == 2_592_000_000_000_000
            &&& c.fee == 100_000_000
            &&& !c.flat_names_open
            &&& c.ledger == seq![0u8, 0, 0, 0, 2, 16, 0, 2, 1, 1]
        }),
{
}

/// An old config keeps what it said; the market it did not know of is
/// closed, and handovers are warned of for 30 days.
pub proof fn law_old_configs_keep_their_values(c: ConfigV2)
    ensures
        ({
            let m = migrated(c);
            &&& m.ledger == c.ledger@
            &&& m.rate_bps == c.rate_bps
            &&& m.min_price == c.min_price
            &&& m.grace_ns == c.grace_ns
            &&& m.fee == c.fee
            &&& !m.flat_names_open
            &&& m.handover_warn_ns == 2_592_000_000_000_000
        }),
{
}

} // verus!
