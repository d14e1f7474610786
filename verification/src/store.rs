//! The registry in stable memory: handles, records, deployers, the tag
//! index, settings, credits and running auctions.

use vstd::prelude::*;

use crate::running::{Running, RunningState};
use crate::maps::{
    amounts_of, as_nats, by_text, holds_amounts, keyed_by_principals, lookup, owed, principals,
    readable, values_in_order, views, with_owed, with_prefix, AmountMap, Mark, PrincipalSet,
    TextMap,
};
use crate::order::{in_order, lists, lists_texts, texts_in_order};
use crate::principal::Principal;
use crate::record::{canonical_bytes, Handle, HandleState, Record, RecordState};
use crate::settings::{configs_readable, settings_of, Meta, Settings, SettingsState, Slot};
use crate::stable::{contents, StableMap};
use crate::sums::total_of;
use crate::tax::capped;
use crate::text::{decimal, decimal_text, join2, join3, seen, texts};

verus! {

/// The schema version that this code writes.
pub const SCHEMA: u32 = 3;

// Which virtual memory of the stable memory a map lives in.
pub const MEM_HANDLES: u8 = 0;

pub const MEM_RECORDS: u8 = 1;

pub const MEM_DEPLOYERS: u8 = 2;

pub const MEM_TAGS: u8 = 3;

pub const MEM_META: u8 = 4;

pub const MEM_CREDITS: u8 = 5;

pub const MEM_AUCTIONS: u8 = 6;

/// The maps of the registry as they stand in stable memory; the settings
/// are a map of their own.
pub struct StableMaps {
    pub handles: StableMap,
    pub records: StableMap,
    pub deployers: StableMap,
    pub tags: StableMap,
    pub credits: StableMap,
    pub auctions: StableMap,
}

/// All that the registry keeps.
pub struct Store {
    /// handle -> Handle
    pub handles: TextMap<Handle>,
    /// name -> Record
    pub records: TextMap<Record>,
    /// Principals whose announcements are trusted.
    pub deployers: PrincipalSet,
    /// "<tag>\0<name>". Membership is the value.
    pub tags: TextMap<Mark>,
    pub settings: Settings,
    /// What is owed to whom, cycles.
    pub credits: AmountMap,
    /// flat name -> its auction, from the first commitment until closed.
    pub auctions: TextMap<Running>,
}

/// The registry by its contents.
#[verifier::ext_equal]
pub struct StoreState {
    pub handles: Map<Seq<char>, HandleState>,
    pub records: Map<Seq<char>, RecordState>,
    pub deployers: Set<Seq<u8>>,
    pub tags: Set<Seq<char>>,
    pub settings: SettingsState,
    pub credits: Map<Seq<u8>, u128>,
    pub auctions: Map<Seq<char>, RunningState>,
}

impl View for Store {
    type V = StoreState;

    open spec fn view(&self) -> StoreState {
        StoreState {
            handles: self.handles@,
            records: self.records@,
            deployers: self.deployers@,
            tags: self.tags@.dom(),
            settings: self.settings@,
            credits: self.credits@,
            auctions: self.auctions@,
        }
    }
}

/// Whether every map but the settings can be read.
pub open spec fn maps_readable(m: StableMaps) -> bool {
    &&& readable::<Handle>(contents(m.handles))
    &&& readable::<Record>(contents(m.records))
    &&& keyed_by_principals(contents(m.deployers))
    &&& readable::<Mark>(contents(m.tags))
    &&& holds_amounts(contents(m.credits))
    &&& readable::<Running>(contents(m.auctions))
}

/// What readable maps hold, with the settings of the given slots.
pub open spec fn state_of(
    m: StableMaps,
    meta: Map<Slot, Seq<u8>>,
) -> StoreState {
    StoreState {
        handles: by_text::<Handle>(contents(m.handles)),
        records: by_text::<Record>(contents(m.records)),
        deployers: contents(m.deployers).dom(),
        tags: by_text::<Mark>(contents(m.tags)).dom(),
        settings: settings_of(meta),
        credits: amounts_of(contents(m.credits)),
        auctions: by_text::<Running>(contents(m.auctions)),
    }
}

impl Store {
    /// The registry over its maps and its settings, None where some stored
    /// value cannot be read.
    pub fn open(maps: StableMaps, meta: Meta) -> (r: Option<Store>)
        ensures
            r is Some <==> maps_readable(maps) && configs_readable(meta@),
            r matches Some(s) ==> s@ == state_of(maps, meta@),
    {
        let StableMaps { handles, records, deployers, tags, credits, auctions } = maps;
        let handles = match TextMap::<Handle>::from_stable(handles) {
            Some(m) => m,
            None => {
                return None;
            },
        };
        let records = match TextMap::<Record>::from_stable(records) {
            Some(m) => m,
            None => {
                return None;
            },
        };
        let deployers = match PrincipalSet::from_stable(deployers) {
            Some(m) => m,
            None => {
                return None;
            },
        };
        let tags = match TextMap::<Mark>::from_stable(tags) {
            Some(m) => m,
            None => {
                return None;
            },
        };
        let credits = match AmountMap::from_stable(credits) {
            Some(m) => m,
            None => {
                return None;
            },
        };
        let auctions = match TextMap::<Running>::from_stable(auctions) {
            Some(m) => m,
            None => {
                return None;
            },
        };
        let settings = match Settings::from_meta(meta) {
            Some(m) => m,
            None => {
                return None;
            },
        };
        Some(Store { handles, records, deployers, tags, settings, credits, auctions })
    }
}

// --- handles ----------------------------------------------------------------------

/// A handle's entry.
pub fn get_handle(store: &Store, handle: &str) -> (r: Option<Handle>)
    ensures
        seen(r) == lookup(store@.handles, handle@),
{
    store.handles.get(handle)
}

/// Who owns a handle.
pub fn handle_owner(store: &Store, handle: &str) -> (r: Option<Principal>)
    ensures
        r is Some <==> store@.handles.contains_key(handle@),
        r matches Some(p) ==> p@ == store@.handles[handle@].owner,
{
    match get_handle(store, handle) {
        Some(h) => Some(h.owner),
        None => None,
    }
}

/// A handle nobody else may write under.
pub open spec fn own_handle(owner: Seq<u8>) -> HandleState {
    HandleState { owner, deployer: None }
}

/// Why a taken handle cannot be registered.
pub open spec fn taken_error(handle: Seq<char>) -> Seq<char> {
    "handle '"@ + handle + "' is taken"@
}

/// First come, first served. Returns Err if taken.
pub fn register_handle(store: &mut Store, handle: &str, owner: &Principal) -> (r: Result<(), String>)
    ensures
        r is Ok <==> !old(store)@.handles.contains_key(handle@),
        r is Ok ==> final(store)@ == (StoreState {
            handles: old(store)@.handles.insert(handle@, own_handle(owner@)),
            ..old(store)@
        }),
        r matches Err(e) ==> e@ == taken_error(handle@),
        r is Err ==> final(store)@ == old(store)@,
{
    if store.handles.contains(handle) {
        return Err(join3("handle '", handle, "' is taken"));
    }
    let value = Handle { owner: owner.clone(), deployer: None };
    store.handles.insert(handle, &value);
    Ok(())
}

/// Write a handle's entry.
pub fn put_handle(store: &mut Store, handle: &str, value: &Handle)
    ensures
        final(store)@ == (StoreState {
            handles: old(store)@.handles.insert(handle@, value@),
            ..old(store)@
        }),
{
    store.handles.insert(handle, value);
}

// --- deployers --------------------------------------------------------------------

/// Whether announcements by `p` are trusted.
pub fn is_deployer(store: &Store, p: &Principal) -> (r: bool)
    ensures
        r == store@.deployers.contains(p@),
{
    store.deployers.contains(p)
}

/// List a deployer.
pub fn add_deployer(store: &mut Store, p: &Principal)
    ensures
        final(store)@ == (StoreState {
            deployers: old(store)@.deployers.insert(p@),
            ..old(store)@
        }),
{
    store.deployers.insert(p);
}

/// Take a deployer off the list. Returns whether it was on it.
pub fn remove_deployer(store: &mut Store, p: &Principal) -> (r: bool)
    ensures
        r == old(store)@.deployers.contains(p@),
        final(store)@ == (StoreState {
            deployers: old(store)@.deployers.remove(p@),
            ..old(store)@
        }),
{
    let listed = store.deployers.contains(p);
    store.deployers.remove(p);
    listed
}

/// The listed deployers, in the order of their bytes.
pub fn list_deployers(store: &Store) -> (r: Vec<Principal>)
    ensures
        principals(r@) == in_order(store@.deployers),
        lists(principals(r@), store@.deployers),
{
    store.deployers.list()
}

// --- records ----------------------------------------------------------------------

/// The record of a name.
pub fn get_record(store: &Store, name: &str) -> (r: Option<Record>)
    ensures
        seen(r) == lookup(store@.records, name@),
        r matches Some(rec) ==> rec@.name == name@,
{
    store.records.get(name)
}

/// Write a record under its name.
pub fn put_record(store: &mut Store, record: &Record)
    ensures
        final(store)@ == (StoreState {
            records: old(store)@.records.insert(record@.name, record@),
            ..old(store)@
        }),
{
    store.records.insert(record.name.as_str(), record);
}

/// Remove the record of a name. Returns it.
pub fn delete_record(store: &mut Store, name: &str) -> (r: Option<Record>)
    ensures
        seen(r) == lookup(old(store)@.records, name@),
        r matches Some(rec) ==> rec@.name == name@,
        final(store)@ == (StoreState {
            records: old(store)@.records.remove(name@),
            ..old(store)@
        }),
{
    let old_record = store.records.get(name);
    store.records.remove(name);
    old_record
}

/// The names under a handle.
pub open spec fn under(handle: Seq<char>, records: Map<Seq<char>, RecordState>) -> Set<Seq<char>> {
    with_prefix(records.dom(), handle + "/"@)
}

/// Names under one handle, in key order.
pub fn names_under(store: &Store, handle: &str) -> (r: Vec<String>)
    ensures
        texts(r@) == texts_in_order(under(handle@, store@.records)),
        lists_texts(texts(r@), under(handle@, store@.records)),
{
    let prefix = join2(handle, "/");
    store.records.keys_with(prefix.as_str())
}

/// Names and certified forms of records in order.
pub open spec fn canonical_list(records: Seq<RecordState>) -> Seq<(Seq<char>, Seq<u8>)> {
    records.map_values(|r: RecordState| (r.name, canonical_bytes(r)))
}

/// Names and bytes by their contents.
pub open spec fn named_bytes(s: Seq<(String, Vec<u8>)>) -> Seq<(Seq<char>, Seq<u8>)> {
    s.map_values(|e: (String, Vec<u8>)| (e.0@, e.1@))
}

/// Every (name, canonical bytes) pair, in name order, for rebuilding the
/// certified tree after an upgrade.
pub fn for_each_canonical(store: &Store) -> (r: Vec<(String, Vec<u8>)>)
    ensures
        named_bytes(r@) == canonical_list(values_in_order(store@.records)),
{
    let records = for_each_record(store);
    let ghost all = canonical_list(values_in_order(store@.records));
    let mut out: Vec<(String, Vec<u8>)> = Vec::new();
    let mut i: usize = 0;
    assert(named_bytes(out@) =~= all.take(0));
    while i < records.len()
        invariant
            i <= records@.len(),
            views(records@) == values_in_order(store@.records),
            all == canonical_list(values_in_order(store@.records)),
            named_bytes(out@) == all.take(i as int),
        decreases records.len() - i,
    {
        let ghost before = out@;
        let r = &records[i];
        assert(r@ == views(records@)[i as int]);
        out.push((r.name.clone(), r.canonical()));
        assert(named_bytes(out@) =~= named_bytes(before).push(all[i as int]));
        assert(all.take(i + 1) =~= all.take(i as int).push(all[i as int]));
        i += 1;
    }
    assert(all.take(i as int) =~= all);
    out
}

/// Every record, in name order. Search and index rebuild walk this.
pub fn for_each_record(store: &Store) -> (r: Vec<Record>)
    ensures
        views(r@) == values_in_order(store@.records),
        store@.records.dom().finite(),
{
    store.records.values()
}

// --- credits ----------------------------------------------------------------------

/// What is owed to `p`, cycles.
pub fn credit_of(store: &Store, p: &Principal) -> (r: u128)
    ensures
        r == owed(store@.credits, p@),
{
    store.credits.get(p)
}

/// The credits with an amount added to what `p` is owed.
pub open spec fn credited(m: Map<Seq<u8>, u128>, p: Seq<u8>, amount: u128) -> Map<Seq<u8>, u128> {
    if amount == 0 {
        m
    } else {
        with_owed(m, p, capped(owed(m, p) + amount))
    }
}

/// Credit `p` with an amount.
pub fn add_credit(store: &mut Store, p: &Principal, amount: u128)
    ensures
        final(store)@ == (StoreState {
            credits: credited(old(store)@.credits, p@, amount),
            ..old(store)@
        }),
{
    if amount > 0 {
        let have: u128 = store.credits.get(p);
        store.credits.set(p, have.saturating_add(amount));
    }
}

/// Why an amount cannot be taken from a credit.
pub open spec fn credit_error(have: u128, amount: u128) -> Seq<char> {
    "credit is "@ + decimal(have as nat) + " cycles, less than "@ + decimal(amount as nat)
}

/// Take an amount from what `p` is owed. Returns Err if it is less.
pub fn take_credit(store: &mut Store, p: &Principal, amount: u128) -> (r: Result<(), String>)
    ensures
        r is Ok <==> owed(old(store)@.credits, p@) >= amount,
        r is Ok ==> final(store)@ == (StoreState {
            credits: with_owed(
                old(store)@.credits,
                p@,
                (owed(old(store)@.credits, p@) - amount) as u128,
            ),
            ..old(store)@
        }),
        r matches Err(e) ==> e@ == credit_error(owed(old(store)@.credits, p@), amount),
        r is Err ==> final(store)@ == old(store)@,
{
    let have: u128 = store.credits.get(p);
    if have < amount {
        let mut e = join2("credit is ", decimal_text(have).as_str());
        e.append(" cycles, less than ");
        e.append(decimal_text(amount).as_str());
        return Err(e);
    }
    store.credits.set(p, have - amount);
    Ok(())
}

/// All credits together, or the largest amount where they are more.
pub fn credits_outstanding(store: &Store) -> (r: u128)
    ensures
        r == capped(total_of(as_nats(store@.credits)) as int),
        store@.credits.dom().finite(),
{
    store.credits.total()
}

// --- schema -----------------------------------------------------------------------

/// The schema version of the stored data.
pub fn schema_version(store: &Store) -> (r: u32)
    ensures
        r == store@.settings.schema,
{
    store.settings.schema()
}

/// A credit adds to what one principal is owed, up to the largest amount,
/// and changes nothing for anybody else.
pub proof fn law_credits_add_up(m: Map<Seq<u8>, u128>, p: Seq<u8>, amount: u128, q: Seq<u8>)
    ensures
        q == p && owed(m, p) + amount <= u128::MAX ==> owed(credited(m, p, amount), q) == owed(m, p)
            + amount,
        q == p && owed(m, p) + amount > u128::MAX ==> owed(credited(m, p, amount), q) == u128::MAX,
        q != p ==> owed(credited(m, p, amount), q) == owed(m, q),
{
}

} // verus!
