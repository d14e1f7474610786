//! The registry: handles, deployers, announcements and records.
//!
//! Every endpoint takes its caller and the time as arguments. A write goes
//! everywhere a record lives: the tag index, the certified tree and stable
//! memory.

use vstd::prelude::*;
use vstd::utf8::*;

use crate::certify;
use crate::certify::{leaves_of, lemma_leaves_insert, lemma_leaves_remove, Tree};
use crate::directory;
use crate::directory::{
    in_step, index_of, lemma_tagged, record_tags, tag_key, tag_keys, tagged_names,
};
use crate::harberger;
use crate::harberger::{params_of, record_status, record_tax, settled_record, with_tax, Config};
use crate::maps::{lookup, owed, principals};
use crate::names;
use crate::names::{
    flat_error, handle_of, hex_error, is_flat_name, is_hex, is_scoped_name, is_segment,
    is_tags_value, is_text_key, is_text_value, key_error, lemma_segment_no_slash, scoped_error,
    segment_char, segment_error, tags_error, value_error, MAX_TEXT_RECORDS,
};
use crate::order::{in_order, text_before, texts_in_order};
use crate::principal::{anonymous, principal_text, Principal};
use crate::record::{
    by_key, distinct_keys, fresh_record, has_key, keys_ascend, law_text_cleared,
    law_text_reads_back, lemma_ascend_distinct, lemma_by_key, lemma_text_value,
    lemma_text_value_found, lemma_with_text, lemma_without_key, lemma_without_key_len, remove_key,
    sort_text, text_value, with_text, without_key, Handle, HandleState, Record, RecordState, Target,
    TargetState,
};
use crate::resolve::in_hands;
use crate::running::RunningState;
use crate::settings::SettingsState;
use crate::store;
use crate::store::{credited, own_handle, under, Store, StoreState};
use crate::tax::{capped, lapsed_empty, lemma_settled, settled, taken, Harberger, Params, Status};
use crate::text::{
    begins, decimal, decimal_text, join2, join3, join4, pairs, pieces, same_text, seen, texts,
};
use crate::vickrey::fair;

verus! {

/// The registry: what is stored, the certified tree over its records, and
/// how many ledger calls await a reply.
pub struct Registry {
    pub store: Store,
    pub tree: Tree,
    pub in_flight: u32,
}

/// The registry by its contents.
#[verifier::ext_equal]
pub struct RegistryState {
    pub store: StoreState,
    pub leaves: Map<Seq<u8>, Seq<u8>>,
    pub in_flight: u32,
}

impl View for Registry {
    type V = RegistryState;

    open spec fn view(&self) -> RegistryState {
        RegistryState { store: self.store@, leaves: self.tree@, in_flight: self.in_flight }
    }
}

// --- who may do what ------------------------------------------------------------------

/// Why a caller is refused outright.
pub open spec fn caller_fault(caller: Seq<u8>) -> Option<Seq<char>> {
    if caller == anonymous() {
        Some("anonymous caller"@)
    } else {
        None
    }
}

/// Refuse the anonymous caller.
pub fn check_caller(caller: &Principal) -> (r: Result<(), String>)
    ensures
        r is Ok <==> caller_fault(caller@) is None,
        r matches Err(e) ==> caller_fault(caller@) == Some(e@),
{
    if caller.same(&Principal::anonymous()) {
        return Err("anonymous caller".to_string());
    }
    Ok(())
}

/// Why a caller may not administer the registry.
pub open spec fn admin_fault(caller: Seq<u8>, is_controller: bool) -> Option<Seq<char>> {
    if caller_fault(caller) is Some {
        caller_fault(caller)
    } else if !is_controller {
        Some("caller is not a controller"@)
    } else {
        None
    }
}

/// Controllers administer the registry.
pub fn check_admin(caller: &Principal, is_controller: bool) -> (r: Result<(), String>)
    ensures
        r is Ok <==> admin_fault(caller@, is_controller) is None,
        r matches Err(e) ==> admin_fault(caller@, is_controller) == Some(e@),
{
    match check_caller(caller) {
        Err(e) => {
            return Err(e);
        },
        Ok(_) => {},
    }
    if !is_controller {
        return Err("caller is not a controller".to_string());
    }
    Ok(())
}

/// Why a caller may not write under a handle.
pub open spec fn handle_fault(s: StoreState, caller: Seq<u8>, handle: Seq<char>) -> Option<
    Seq<char>,
> {
    if caller_fault(caller) is Some {
        caller_fault(caller)
    } else if !s.handles.contains_key(handle) {
        Some("handle '"@ + handle + "' is not registered"@)
    } else if s.handles[handle].owner != caller {
        Some("caller does not own handle '"@ + handle + "'"@)
    } else {
        None
    }
}

/// The caller must own `handle`. Returns the handle's entry.
fn authorize_handle(store: &Store, caller: &Principal, handle: &str) -> (r: Result<Handle, String>)
    ensures
        r is Ok <==> handle_fault(store@, caller@, handle@) is None,
        r matches Ok(h) ==> h@ == store@.handles[handle@],
        r matches Err(e) ==> handle_fault(store@, caller@, handle@) == Some(e@),
{
    match check_caller(caller) {
        Err(e) => {
            return Err(e);
        },
        Ok(_) => {},
    }
    match store::get_handle(store, handle) {
        None => Err(join3("handle '", handle, "' is not registered")),
        Some(h) => {
            if !h.owner.same(caller) {
                Err(join3("caller does not own handle '", handle, "'"))
            } else {
                Ok(h)
            }
        },
    }
}

/// Why a caller may not write a scoped name.
pub open spec fn scoped_fault(s: StoreState, caller: Seq<u8>, name: Seq<char>) -> Option<Seq<char>> {
    if !is_scoped_name(name) {
        Some(scoped_error(name))
    } else {
        handle_fault(s, caller, handle_of(name))
    }
}

/// The caller must own the handle a scoped name lives under.
fn authorize(store: &Store, caller: &Principal, name: &str) -> (r: Result<(), String>)
    ensures
        r is Ok <==> scoped_fault(store@, caller@, name@) is None,
        r matches Err(e) ==> scoped_fault(store@, caller@, name@) == Some(e@),
{
    let handle = match names::split(name) {
        Err(e) => {
            return Err(e);
        },
        Ok((handle, _)) => handle,
    };
    match authorize_handle(store, caller, handle.as_str()) {
        Err(e) => Err(e),
        Ok(_) => Ok(()),
    }
}

/// What is said of a name without a record.
pub open spec fn missing(name: Seq<char>) -> Seq<char> {
    "no record for '"@ + name + "'"@
}

/// What is said of a lapsed flat name.
pub open spec fn lapsed(name: Seq<char>) -> Seq<char> {
    "'"@ + name + "' has lapsed and is free to claim"@
}

/// Why a caller may not write a flat name: it must own it, and the name
/// must not have lapsed.
pub open spec fn flat_fault(
    s: StoreState,
    p: Params,
    caller: Seq<u8>,
    name: Seq<char>,
    now: u64,
) -> Option<Seq<char>> {
    if !is_flat_name(name) {
        Some(flat_error(name))
    } else if caller_fault(caller) is Some {
        caller_fault(caller)
    } else if !s.records.contains_key(name) {
        Some(missing(name))
    } else if s.records[name].owner != caller {
        Some("caller does not own '"@ + name + "'"@)
    } else if record_status(p, s.records[name], now) is Free {
        Some(lapsed(name))
    } else {
        None
    }
}

/// The caller must own the flat name and it must not have lapsed. Returns
/// the record settled to `now` (not yet stored) and the tax that settlement
/// took, for `commit_flat`.
pub(crate) fn authorize_flat(
    store: &Store,
    cfg: &Config,
    caller: &Principal,
    name: &str,
    now: u64,
) -> (r: Result<(Record, u128), String>)
    ensures
        r is Ok <==> flat_fault(store@, params_of(cfg@), caller@, name@, now) is None,
        r matches Ok(x) ==> x.0@ == settled_record(params_of(cfg@), store@.records[name@], now) && x.1
            == record_tax(params_of(cfg@), store@.records[name@], now) && x.0@.name == name@,
        r matches Err(e) ==> flat_fault(store@, params_of(cfg@), caller@, name@, now) == Some(e@),
{
    match names::check_flat(name) {
        Err(e) => {
            return Err(e);
        },
        Ok(_) => {},
    }
    match check_caller(caller) {
        Err(e) => {
            return Err(e);
        },
        Ok(_) => {},
    }
    let mut r = match store::get_record(store, name) {
        None => {
            return Err(join3("no record for '", name, "'"));
        },
        Some(r) => r,
    };
    if !r.owner.same(caller) {
        return Err(join3("caller does not own '", name, "'"));
    }
    let (status, tax) = harberger::settle_record(cfg, &mut r, now);
    match status {
        Status::Free => {
            return Err(join3("'", name, "' has lapsed and is free to claim"));
        },
        _ => {},
    }
    Ok((r, tax))
}

/// Why a flat name may not point at a target: it must alias a scoped name,
/// so a sale never changes what a scoped name means.
pub open spec fn target_fault(t: TargetState) -> Option<Seq<char>> {
    match t {
        TargetState::Alias(to) => if is_scoped_name(to) {
            None
        } else {
            Some("a flat name must alias a scoped name: "@ + scoped_error(to))
        },
        TargetState::Address(_) => Some("a flat name must alias a scoped name"@),
    }
}

/// A flat name must alias a scoped name.
pub fn check_flat_target(target: &Target) -> (r: Result<(), String>)
    ensures
        r is Ok <==> target_fault(target@) is None,
        r matches Err(e) ==> target_fault(target@) == Some(e@),
{
    match target {
        Target::Alias(to) => match names::split(to.as_str()) {
            Ok(_) => Ok(()),
            Err(e) => Err(join2("a flat name must alias a scoped name: ", e.as_str())),
        },
        Target::Address(_) => Err("a flat name must alias a scoped name".to_string()),
    }
}

// --- writing a record everywhere -------------------------------------------------------

/// The tag index without the keys of a name's stored record.
pub open spec fn untagged(s: StoreState, name: Seq<char>) -> Set<Seq<char>> {
    if s.records.contains_key(name) {
        s.tags.difference(tag_keys(s.records[name]))
    } else {
        s.tags
    }
}

/// The registry with a record written everywhere it lives.
pub open spec fn with_record(s: RegistryState, r: RecordState) -> RegistryState {
    RegistryState {
        store: StoreState {
            records: s.store.records.insert(r.name, r),
            tags: untagged(s.store, r.name).union(tag_keys(r)),
            ..s.store
        },
        leaves: s.leaves.insert(
            encode_utf8(r.name),
            crate::record::canonical_bytes(r),
        ),
        ..s
    }
}

/// The registry without the record of a name, anywhere it lived.
pub open spec fn without_record(s: RegistryState, name: Seq<char>) -> RegistryState {
    RegistryState {
        store: StoreState {
            records: s.store.records.remove(name),
            tags: untagged(s.store, name),
            ..s.store
        },
        leaves: s.leaves.remove(encode_utf8(name)),
        ..s
    }
}

/// The registry with another store.
pub open spec fn with_store(s: RegistryState, store: StoreState) -> RegistryState {
    RegistryState { store, ..s }
}

/// Write a record everywhere it lives: the tag index, the certified tree
/// and stable memory.
pub(crate) fn commit(reg: &mut Registry, record: &Record)
    ensures
        final(reg)@ == with_record(old(reg)@, record@),
{
    match store::get_record(&reg.store, record.name.as_str()) {
        Some(old_record) => {
            directory::unindex(&mut reg.store, &old_record);
        },
        None => {},
    }
    directory::index(&mut reg.store, record);
    certify::set(&mut reg.tree, record.name.as_str(), record.canonical());
    store::put_record(&mut reg.store, record);
}

/// Commit a settled flat record and count the tax its settlement took: the
/// treasury counter must never run ahead of what the stored balances have
/// given up, since fund_self spends against it.
pub(crate) fn commit_flat(reg: &mut Registry, record: &Record, tax: u128)
    ensures
        final(reg)@ == with_record(with_store(old(reg)@, with_tax(old(reg)@.store, tax)), record@),
{
    harberger::note_tax_collected(&mut reg.store, tax);
    commit(reg, record);
}

/// Remove the record of a name everywhere it lives.
fn erase(reg: &mut Registry, name: &str)
    ensures
        final(reg)@ == without_record(old(reg)@, name@),
{
    match store::delete_record(&mut reg.store, name) {
        Some(old_record) => {
            directory::unindex(&mut reg.store, &old_record);
        },
        None => {},
    }
    certify::remove(&mut reg.tree, name);
}

// --- handles --------------------------------------------------------------------------

/// The registry with a handle's entry.
pub open spec fn with_handle(s: RegistryState, handle: Seq<char>, h: HandleState) -> RegistryState {
    with_store(s, StoreState { handles: s.store.handles.insert(handle, h), ..s.store })
}

/// Why a handle cannot be registered.
pub open spec fn register_fault(s: StoreState, caller: Seq<u8>, handle: Seq<char>) -> Option<
    Seq<char>,
> {
    if !is_segment(handle) {
        Some(segment_error("handle"@, handle))
    } else if caller_fault(caller) is Some {
        caller_fault(caller)
    } else if s.handles.contains_key(handle) {
        Some(store::taken_error(handle))
    } else {
        None
    }
}

/// Why a handle's deployer cannot be set.
pub open spec fn deployer_fault(
    s: StoreState,
    caller: Seq<u8>,
    handle: Seq<char>,
    deployer: Option<Seq<u8>>,
) -> Option<Seq<char>> {
    if !is_segment(handle) {
        Some(segment_error("handle"@, handle))
    } else if handle_fault(s, caller, handle) is Some {
        handle_fault(s, caller, handle)
    } else {
        match deployer {
            Some(d) if !s.deployers.contains(d) => Some(unlisted(d)),
            _ => None,
        }
    }
}

/// The registry with the deployer of a caller's handle set or taken back.
pub open spec fn with_deployer(
    s: RegistryState,
    caller: Seq<u8>,
    handle: Seq<char>,
    deployer: Option<Seq<u8>>,
) -> RegistryState {
    with_handle(s, handle, HandleState { owner: caller, deployer })
}

/// The registry with other listed deployers.
pub open spec fn with_deployers(s: RegistryState, deployers: Set<Seq<u8>>) -> RegistryState {
    with_store(s, StoreState { deployers, ..s.store })
}

/// Why a deployer cannot be listed.
pub open spec fn list_fault(caller: Seq<u8>, is_controller: bool, p: Seq<u8>) -> Option<Seq<char>> {
    if admin_fault(caller, is_controller) is Some {
        admin_fault(caller, is_controller)
    } else if p == anonymous() {
        Some("anonymous cannot be a deployer"@)
    } else {
        None
    }
}

/// Why a deployer cannot be taken off the list.
pub open spec fn delist_fault(s: StoreState, caller: Seq<u8>, is_controller: bool, p: Seq<u8>) -> Option<
    Seq<char>,
> {
    if admin_fault(caller, is_controller) is Some {
        admin_fault(caller, is_controller)
    } else if !s.deployers.contains(p) {
        Some(unlisted(p))
    } else {
        None
    }
}

/// What is said of a principal that is no listed deployer.
pub open spec fn unlisted(p: Seq<u8>) -> Seq<char> {
    principal_text(p) + " is not a listed deployer"@
}

impl Registry {
    /// Claim a handle for the caller. First come, first served; permanent.
    pub fn register_handle(&mut self, caller: &Principal, handle: &str) -> (r: Result<(), String>)
        ensures
            r is Ok <==> register_fault(old(self)@.store, caller@, handle@) is None,
            r matches Err(e) ==> register_fault(old(self)@.store, caller@, handle@) == Some(e@),
            r is Ok ==> final(self)@ == with_handle(old(self)@, handle@, own_handle(caller@)),
            r is Err ==> final(self)@ == old(self)@,
            sound(old(self)@) ==> sound(final(self)@),
    {
        match names::check_segment("handle", handle) {
            Err(e) => {
                return Err(e);
            },
            Ok(_) => {},
        }
        match check_caller(caller) {
            Err(e) => {
                return Err(e);
            },
            Ok(_) => {},
        }
        let r = store::register_handle(&mut self.store, handle, caller);
        proof {
            if r is Ok && sound(old(self)@) {
                lemma_handle_sound(old(self)@, handle@, own_handle(caller@));
            }
        }
        r
    }

    /// Who owns a handle.
    pub fn handle_owner(&self, handle: &str) -> (r: Option<Principal>)
        ensures
            r is Some <==> self@.store.handles.contains_key(handle@),
            r matches Some(p) ==> p@ == self@.store.handles[handle@].owner,
    {
        store::handle_owner(&self.store, handle)
    }

    /// A handle's entry.
    pub fn get_handle(&self, handle: &str) -> (r: Option<Handle>)
        ensures
            seen(r) == lookup(self@.store.handles, handle@),
    {
        store::get_handle(&self.store, handle)
    }

    /// Let one listed deployer announce names under the caller's handle, or
    /// revoke that (None).
    pub fn set_handle_deployer(
        &mut self,
        caller: &Principal,
        handle: &str,
        deployer: Option<Principal>,
    ) -> (r: Result<(), String>)
        ensures
            r is Ok <==> deployer_fault(old(self)@.store, caller@, handle@, seen(deployer)) is None,
            r matches Err(e) ==> deployer_fault(
                old(self)@.store,
                caller@,
                handle@,
                seen(deployer),
            ) == Some(e@),
            r is Ok ==> final(self)@ == with_deployer(
                old(self)@,
                caller@,
                handle@,
                seen(deployer),
            ),
            r is Err ==> final(self)@ == old(self)@,
            sound(old(self)@) ==> sound(final(self)@),
    {
        match names::check_segment("handle", handle) {
            Err(e) => {
                return Err(e);
            },
            Ok(_) => {},
        }
        let mut h = match authorize_handle(&self.store, caller, handle) {
            Err(e) => {
                return Err(e);
            },
            Ok(h) => h,
        };
        match &deployer {
            Some(d) => {
                if !store::is_deployer(&self.store, d) {
                    return Err(join2(d.to_text().as_str(), " is not a listed deployer"));
                }
            },
            None => {},
        }
        h.deployer = deployer;
        store::put_handle(&mut self.store, handle, &h);
        proof {
            if sound(old(self)@) {
                lemma_handle_sound(old(self)@, handle@, h@);
            }
        }
        Ok(())
    }

    // --- deployers --------------------------------------------------------------------

    /// List a deployer. Controllers only.
    pub fn add_deployer(&mut self, caller: &Principal, is_controller: bool, p: &Principal) -> (r:
        Result<(), String>)
        ensures
            r is Ok <==> list_fault(caller@, is_controller, p@) is None,
            r matches Err(e) ==> list_fault(caller@, is_controller, p@) == Some(e@),
            r is Ok ==> final(self)@ == with_deployers(
                old(self)@,
                old(self)@.store.deployers.insert(p@),
            ),
            r is Err ==> final(self)@ == old(self)@,
            sound(old(self)@) ==> sound(final(self)@),
    {
        match check_admin(caller, is_controller) {
            Err(e) => {
                return Err(e);
            },
            Ok(_) => {},
        }
        if p.same(&Principal::anonymous()) {
            return Err("anonymous cannot be a deployer".to_string());
        }
        store::add_deployer(&mut self.store, p);
        Ok(())
    }

    /// Take a deployer off the list. Controllers only.
    pub fn remove_deployer(&mut self, caller: &Principal, is_controller: bool, p: &Principal) -> (r:
        Result<(), String>)
        ensures
            r is Ok <==> delist_fault(old(self)@.store, caller@, is_controller, p@) is None,
            r matches Err(e) ==> delist_fault(old(self)@.store, caller@, is_controller, p@)
                == Some(e@),
            r is Ok ==> final(self)@ == with_deployers(
                old(self)@,
                old(self)@.store.deployers.remove(p@),
            ),
            r is Err ==> final(self)@ == old(self)@,
            sound(old(self)@) ==> sound(final(self)@),
    {
        match check_admin(caller, is_controller) {
            Err(e) => {
                return Err(e);
            },
            Ok(_) => {},
        }
        if store::remove_deployer(&mut self.store, p) {
            Ok(())
        } else {
            assert(old(self)@.store.deployers.remove(p@) =~= old(self)@.store.deployers);
            Err(join2(p.to_text().as_str(), " is not a listed deployer"))
        }
    }

    /// The listed deployers, in the order of their bytes.
    pub fn list_deployers(&self) -> (r: Vec<Principal>)
        ensures
            principals(r@) == in_order(self@.store.deployers),
    {
        store::list_deployers(&self.store)
    }
}

// --- announcements ----------------------------------------------------------------------

/// What a deployer reports after a successful install.
pub struct Announcement {
    /// The scoped name to create or update, `<handle>/<label>`.
    pub name: String,
    /// The canister the code was installed into.
    pub canister: Principal,
    /// Repository the code came from, as the deployer names it.
    pub repo: String,
    /// Git commit that was built, lowercase hex.
    pub commit: String,
    /// sha256 of the installed module, lowercase hex.
    pub module_hash: String,
}

/// Whether a handle lets a deployer announce under it: nobody has it, it is
/// the deployer's, or its owner named the deployer.
pub open spec fn may_announce(s: StoreState, deployer: Seq<u8>, handle: Seq<char>) -> bool {
    s.handles.contains_key(handle) ==> s.handles[handle].owner == deployer
        || s.handles[handle].deployer == Some(deployer)
}

/// Why an announcement is refused before anything is written.
pub open spec fn announce_fault(s: StoreState, caller: Seq<u8>, a: Announcement) -> Option<
    Seq<char>,
> {
    if caller_fault(caller) is Some {
        caller_fault(caller)
    } else if !s.deployers.contains(caller) {
        Some(unlisted(caller))
    } else if !is_scoped_name(a.name@) {
        Some(scoped_error(a.name@))
    } else if !is_hex(a.commit@, seq![20usize, 32usize]) {
        Some(hex_error("commit"@, a.commit@, seq![20usize, 32usize]))
    } else if !is_hex(a.module_hash@, seq![32usize]) {
        Some(hex_error("module_hash"@, a.module_hash@, seq![32usize]))
    } else if !is_text_value(a.repo@) {
        Some(value_error(a.repo@))
    } else if !may_announce(s, caller, handle_of(a.name@)) {
        Some(
            "handle '"@ + handle_of(a.name@) + "' does not allow deployer "@ + principal_text(
                caller,
            ),
        )
    } else {
        None
    }
}

/// The registry with the handle of an announced name registered: to the
/// deployer, where nobody has it.
pub open spec fn handle_ready(s: RegistryState, caller: Seq<u8>, name: Seq<char>) -> RegistryState {
    if s.store.handles.contains_key(handle_of(name)) {
        s
    } else {
        with_handle(s, handle_of(name), own_handle(caller))
    }
}

/// Text records that carry the provenance of an announcement.
pub open spec fn provenance(
    text: Seq<(Seq<char>, Seq<char>)>,
    caller: Seq<u8>,
    a: Announcement,
    now: u64,
) -> Seq<(Seq<char>, Seq<char>)> {
    let t1 = with_text(text, "repo"@, a.repo@);
    let t2 = with_text(t1, "commit"@, a.commit@);
    let t3 = with_text(t2, "module_hash"@, a.module_hash@);
    let t4 = with_text(t3, "deployer"@, principal_text(caller));
    let t5 = with_text(t4, "announced_ns"@, decimal(now as nat));
    by_key(t5)
}

/// The record that an announcement starts from: the stored one, or a fresh
/// one of the handle's owner.
pub open spec fn announce_base(s: RegistryState, a: Announcement, now: u64) -> RecordState {
    match lookup(s.store.records, a.name@) {
        Some(r) => r,
        None => fresh_record(
            a.name@,
            s.store.handles[handle_of(a.name@)].owner,
            TargetState::Address(a.canister@),
            now,
        ),
    }
}

/// The record that an announcement leads to.
pub open spec fn announced(s: RegistryState, caller: Seq<u8>, a: Announcement, now: u64) -> RecordState {
    let r = announce_base(s, a, now);
    RecordState {
        target: TargetState::Address(a.canister@),
        updated_ns: now,
        text: provenance(r.text, caller, a, now),
        ..r
    }
}

/// What is said of too many text records.
pub open spec fn too_many_texts() -> Seq<char> {
    "at most 32 text records per name"@
}

/// Set one text record in place.
fn put_text(text: &Vec<(String, String)>, key: &str, value: &str) -> (r: Vec<(String, String)>)
    ensures
        pairs(r@) == with_text(pairs(text@), key@, value@),
{
    let mut out = remove_key(text, key);
    let ghost before = out@;
    out.push((key.to_string(), value.to_string()));
    assert(pairs(out@) =~= pairs(before).push((key@, value@)));
    out
}

impl Registry {
    /// Trusted by caller: it must be a listed deployer. It may write under
    /// a handle it owns, or one whose owner named it. An unregistered handle
    /// is registered to the deployer. The record's target becomes the
    /// announced canister and its text records carry the provenance.
    pub fn announce(&mut self, caller: &Principal, a: &Announcement, now: u64) -> (r: Result<
        (),
        String,
    >)
        ensures
            ({
                let s = old(self)@;
                let ready = handle_ready(s, caller@, a.name@);
                let record = announced(ready, caller@, *a, now);
                match announce_fault(s.store, caller@, *a) {
                    Some(e) => r is Err && r->Err_0@ == e && final(self)@ == s,
                    None => if record.text.len() > MAX_TEXT_RECORDS {
                        r is Err && r->Err_0@ == too_many_texts() && final(self)@ == ready
                    } else {
                        r is Ok && final(self)@ == with_record(ready, record)
                    },
                }
            }),
            sound(old(self)@) ==> sound(final(self)@),
            sound(old(self)@) && r is Ok ==> is_announced(
                old(self)@,
                final(self)@,
                caller@,
                *a,
                now,
            ),
            sound(old(self)@) ==> (r is Ok <==> may_report(old(self)@.store, caller@, *a)
                && has_room(old(self)@.store, a.name@)),
    {
        proof {
            if sound(self@) {
                law_announcements_repoint(self@, caller@, *a, now);
                law_announcements_fit(self@, caller@, *a, now);
            }
        }
        match check_caller(caller) {
            Err(e) => {
                return Err(e);
            },
            Ok(_) => {},
        }
        let deployer_text = caller.to_text();
        if !store::is_deployer(&self.store, caller) {
            return Err(join2(deployer_text.as_str(), " is not a listed deployer"));
        }
        let handle = match names::split(a.name.as_str()) {
            Err(e) => {
                return Err(e);
            },
            Ok((handle, _)) => handle,
        };
        let commit_lens: Vec<usize> = vec![20usize, 32usize];
        let hash_lens: Vec<usize> = vec![32usize];
        proof {
            assert(commit_lens@ =~= seq![20usize, 32usize]);
            assert(hash_lens@ =~= seq![32usize]);
        }
        match names::check_hex("commit", a.commit.as_str(), commit_lens.as_slice()) {
            Err(e) => {
                return Err(e);
            },
            Ok(_) => {},
        }
        match names::check_hex("module_hash", a.module_hash.as_str(), hash_lens.as_slice()) {
            Err(e) => {
                return Err(e);
            },
            Ok(_) => {},
        }
        match names::check_text_value(a.repo.as_str()) {
            Err(e) => {
                return Err(e);
            },
            Ok(_) => {},
        }
        let ghost s = self@;
        let owner = match store::get_handle(&self.store, handle.as_str()) {
            None => {
                match store::register_handle(&mut self.store, handle.as_str(), caller) {
                    Err(e) => {
                        return Err(e);
                    },
                    Ok(_) => {},
                }
                caller.clone()
            },
            Some(h) => {
                let named = match &h.deployer {
                    Some(d) => d.same(caller),
                    None => false,
                };
                if !h.owner.same(caller) && !named {
                    return Err(
                        join4(
                            "handle '",
                            handle.as_str(),
                            "' does not allow deployer ",
                            deployer_text.as_str(),
                        ),
                    );
                }
                h.owner
            },
        };
        let ghost ready = handle_ready(s, caller@, a.name@);
        assert(self@ == ready);
        let mut record = match store::get_record(&self.store, a.name.as_str()) {
            Some(r) => r,
            None => Record::new(
                a.name.clone(),
                owner,
                Target::Address(a.canister.clone()),
                now,
            ),
        };
        assert(record@ == announce_base(ready, *a, now));
        record.target = Target::Address(a.canister.clone());
        record.updated_ns = now;
        let t1 = put_text(&record.text, "repo", a.repo.as_str());
        let t2 = put_text(&t1, "commit", a.commit.as_str());
        let t3 = put_text(&t2, "module_hash", a.module_hash.as_str());
        let t4 = put_text(&t3, "deployer", deployer_text.as_str());
        let t5 = put_text(&t4, "announced_ns", decimal_text(now as u128).as_str());
        record.text = sort_text(&t5);
        assert(record@ == announced(ready, caller@, *a, now));
        assert(record@.text.len() == record.text@.len());
        proof {
            if sound(s) {
                lemma_ready_sound(s, caller@, a.name@);
            }
        }
        if record.text.len() > MAX_TEXT_RECORDS {
            return Err("at most 32 text records per name".to_string());
        }
        proof {
            if sound(s) {
                lemma_announced_good(ready, caller@, *a, now, deployer_text@);
                lemma_record_sound(ready, record@);
            }
        }
        commit(self, &record);
        Ok(())
    }
}

// --- records ------------------------------------------------------------------------------

/// Why a name cannot be pointed at a target.
pub open spec fn record_fault(
    s: StoreState,
    caller: Seq<u8>,
    name: Seq<char>,
    target: TargetState,
    now: u64,
) -> Option<Seq<char>> {
    if !name.contains('/') {
        let f = flat_fault(s, params_of(s.settings.config), caller, name, now);
        if f is Some {
            f
        } else {
            target_fault(target)
        }
    } else if scoped_fault(s, caller, name) is Some {
        scoped_fault(s, caller, name)
    } else {
        match target {
            TargetState::Alias(to) => if !is_scoped_name(to) {
                Some(scoped_error(to))
            } else if to == name {
                Some("a name may not alias itself"@)
            } else {
                None
            },
            TargetState::Address(_) => None,
        }
    }
}

/// The registry with a flat record settled and rewritten: the tax counted,
/// the record stored as `r`.
pub open spec fn with_flat(s: RegistryState, name: Seq<char>, r: RecordState, now: u64) -> RegistryState {
    let p = params_of(s.store.settings.config);
    with_record(
        with_store(s, with_tax(s.store, record_tax(p, s.store.records[name], now))),
        r,
    )
}

/// The stored record of a name settled up to `now` under the stored config.
pub open spec fn settled_now(s: StoreState, name: Seq<char>, now: u64) -> RecordState {
    settled_record(params_of(s.settings.config), s.records[name], now)
}

/// The registry with a name pointed at a target.
pub open spec fn pointed(
    s: RegistryState,
    caller: Seq<u8>,
    name: Seq<char>,
    target: TargetState,
    now: u64,
) -> RegistryState {
    if !name.contains('/') {
        with_flat(
            s,
            name,
            RecordState { target, updated_ns: now, ..settled_now(s.store, name, now) },
            now,
        )
    } else {
        match lookup(s.store.records, name) {
            Some(r) => with_record(s, RecordState { target, updated_ns: now, ..r }),
            None => with_record(s, fresh_record(name, caller, target, now)),
        }
    }
}

/// Why a text record of a name cannot be set or cleared.
pub open spec fn text_fault(
    s: StoreState,
    caller: Seq<u8>,
    name: Seq<char>,
    key: Seq<char>,
    value: Option<Seq<char>>,
    now: u64,
) -> Option<Seq<char>> {
    let access = if !name.contains('/') {
        flat_fault(s, params_of(s.settings.config), caller, name, now)
    } else if scoped_fault(s, caller, name) is Some {
        scoped_fault(s, caller, name)
    } else if !s.records.contains_key(name) {
        Some(missing(name))
    } else {
        None
    };
    if access is Some {
        access
    } else if !is_text_key(key) {
        Some(key_error(key))
    } else {
        match value {
            None => None,
            Some(v) => if !is_text_value(v) {
                Some(value_error(v))
            } else if key == "tags"@ && !is_tags_value(v) {
                Some(tags_error(pieces(v, ',')))
            } else if without_key(s.records[name].text, key).len() >= MAX_TEXT_RECORDS {
                Some(too_many_texts())
            } else {
                None
            },
        }
    }
}

/// Text records with one set or cleared.
pub open spec fn text_after(
    text: Seq<(Seq<char>, Seq<char>)>,
    key: Seq<char>,
    value: Option<Seq<char>>,
) -> Seq<(Seq<char>, Seq<char>)> {
    match value {
        Some(v) => by_key(with_text(text, key, v)),
        None => without_key(text, key),
    }
}

/// The registry with a text record of a name set or cleared.
pub open spec fn retexted(
    s: RegistryState,
    name: Seq<char>,
    key: Seq<char>,
    value: Option<Seq<char>>,
    now: u64,
) -> RegistryState {
    let r = settled_now(s.store, name, now);
    with_flat(
        s,
        name,
        RecordState { text: text_after(r.text, key, value), updated_ns: now, ..r },
        now,
    )
}

/// Why a name cannot be deleted.
pub open spec fn delete_fault(s: StoreState, caller: Seq<u8>, name: Seq<char>, now: u64) -> Option<
    Seq<char>,
> {
    if !name.contains('/') {
        flat_fault(s, params_of(s.settings.config), caller, name, now)
    } else if scoped_fault(s, caller, name) is Some {
        scoped_fault(s, caller, name)
    } else if !s.records.contains_key(name) {
        Some(missing(name))
    } else {
        None
    }
}

/// The registry with a name deleted: a released flat name's unspent balance
/// is credited to its owner.
pub open spec fn deleted(s: RegistryState, name: Seq<char>, now: u64) -> RegistryState {
    if !name.contains('/') {
        let r = settled_now(s.store, name, now);
        let p = params_of(s.store.settings.config);
        let taxed = with_tax(s.store, record_tax(p, s.store.records[name], now));
        let paid = match r.flat {
            Some(h) => StoreState { credits: credited(taxed.credits, r.owner, h.balance), ..taxed },
            None => taxed,
        };
        without_record(with_store(s, paid), name)
    } else {
        without_record(s, name)
    }
}

impl Registry {
    /// Create or repoint a scoped name, or repoint a flat name the caller
    /// holds. Text records survive a repoint.
    pub fn set_record(&mut self, caller: &Principal, name: &str, target: Target, now: u64) -> (r:
        Result<(), String>)
        ensures
            r is Ok <==> record_fault(old(self)@.store, caller@, name@, target@, now) is None,
            r matches Err(e) ==> record_fault(old(self)@.store, caller@, name@, target@, now)
                == Some(e@),
            r is Ok ==> final(self)@ == pointed(old(self)@, caller@, name@, target@, now),
            r is Err ==> final(self)@ == old(self)@,
            sound(old(self)@) ==> sound(final(self)@),
            sound(old(self)@) && r is Ok ==> is_pointed(
                old(self)@,
                final(self)@,
                caller@,
                name@,
                target@,
                now,
            ),
    {
        let ghost s = self@;
        proof {
            if sound(s) {
                law_names_point_where_told(s, caller@, name@, target@, now);
            }
        }
        if !names::is_scoped(name) {
            let cfg = harberger::config(&self.store);
            let (mut r, tax) = match authorize_flat(&self.store, &cfg, caller, name, now) {
                Err(e) => {
                    return Err(e);
                },
                Ok(x) => x,
            };
            match check_flat_target(&target) {
                Err(e) => {
                    return Err(e);
                },
                Ok(_) => {},
            }
            r.target = target;
            r.updated_ns = now;
            proof {
                if sound(s) {
                    lemma_flat_sound(s, name@, r@, now);
                }
            }
            commit_flat(self, &r, tax);
            return Ok(());
        }
        match authorize(&self.store, caller, name) {
            Err(e) => {
                return Err(e);
            },
            Ok(_) => {},
        }
        match &target {
            Target::Alias(to) => {
                match names::split(to.as_str()) {
                    Err(e) => {
                        return Err(e);
                    },
                    Ok(_) => {},
                }
                if same_text(to.as_str(), name) {
                    return Err("a name may not alias itself".to_string());
                }
            },
            Target::Address(_) => {},
        }
        let record = match store::get_record(&self.store, name) {
            Some(mut r) => {
                r.target = target;
                r.updated_ns = now;
                r
            },
            None => Record::new(name.to_string(), caller.clone(), target, now),
        };
        proof {
            if sound(s) {
                lemma_scoped_good(s, name@, record@);
                lemma_record_sound(s, record@);
            }
        }
        commit(self, &record);
        Ok(())
    }

    /// Set (Some) or clear (None) one text record on an existing name.
    pub fn set_text(
        &mut self,
        caller: &Principal,
        name: &str,
        key: &str,
        value: Option<String>,
        now: u64,
    ) -> (r: Result<(), String>)
        ensures
            r is Ok <==> text_fault(old(self)@.store, caller@, name@, key@, seen(value), now) is None,
            r matches Err(e) ==> text_fault(
                old(self)@.store,
                caller@,
                name@,
                key@,
                seen(value),
                now,
            ) == Some(e@),
            r is Ok && !name@.contains('/') ==> final(self)@ == retexted(
                old(self)@,
                name@,
                key@,
                seen(value),
                now,
            ),
            r is Ok && name@.contains('/') ==> final(self)@ == with_record(
                old(self)@,
                (RecordState {
                    text: text_after(old(self)@.store.records[name@].text, key@, seen(value)),
                    updated_ns: now,
                    ..old(self)@.store.records[name@]
                }),
            ),
            r is Err ==> final(self)@ == old(self)@,
            sound(old(self)@) ==> sound(final(self)@),
            sound(old(self)@) && r is Ok ==> is_retexted(
                old(self)@,
                final(self)@,
                name@,
                key@,
                seen(value),
                now,
            ),
    {
        let ghost s = self@;
        proof {
            if sound(s) {
                law_texts_are_the_owners(s, caller@, name@, key@, seen(value), now);
            }
        }
        let scoped = names::is_scoped(name);
        let (mut record, tax): (Record, u128) = if scoped {
            match authorize(&self.store, caller, name) {
                Err(e) => {
                    return Err(e);
                },
                Ok(_) => {},
            }
            match store::get_record(&self.store, name) {
                Some(r) => (r, 0),
                None => {
                    return Err(join3("no record for '", name, "'"));
                },
            }
        } else {
            let cfg = harberger::config(&self.store);
            match authorize_flat(&self.store, &cfg, caller, name, now) {
                Err(e) => {
                    return Err(e);
                },
                Ok(x) => x,
            }
        };
        let ghost was = record@;
        assert(was.text == s.store.records[name@].text);
        match names::check_text_key(key) {
            Err(e) => {
                return Err(e);
            },
            Ok(_) => {},
        }
        match &value {
            Some(v) => {
                match names::check_text_value(v.as_str()) {
                    Err(e) => {
                        return Err(e);
                    },
                    Ok(_) => {},
                }
                if same_text(key, "tags") {
                    match names::check_tags(v.as_str()) {
                        Err(e) => {
                            return Err(e);
                        },
                        Ok(_) => {},
                    }
                }
                let kept = remove_key(&record.text, key);
                assert(pairs(kept@).len() == kept@.len());
                if kept.len() >= MAX_TEXT_RECORDS {
                    return Err("at most 32 text records per name".to_string());
                }
                let set = put_text(&record.text, key, v.as_str());
                record.text = sort_text(&set);
            },
            None => {
                record.text = remove_key(&record.text, key);
            },
        }
        record.updated_ns = now;
        proof {
            assert(record@ == (RecordState {
                text: text_after(was.text, key@, seen(value)),
                updated_ns: now,
                ..was
            }));
            if sound(s) {
                lemma_text_after_good(was.text, key@, seen(value));
                if scoped {
                    lemma_scoped_good(s, name@, record@);
                    lemma_record_sound(s, record@);
                } else {
                    lemma_flat_sound(s, name@, record@, now);
                }
            }
            if scoped {
                assert(with_tax(s.store, 0) =~= s.store);
            }
        }
        commit_flat(self, &record, tax);
        Ok(())
    }

    /// Remove a scoped name, or release a flat name: its unspent balance
    /// becomes a credit to the owner and the name is free at once.
    pub fn delete_record(&mut self, caller: &Principal, name: &str, now: u64) -> (r: Result<
        (),
        String,
    >)
        ensures
            r is Ok <==> delete_fault(old(self)@.store, caller@, name@, now) is None,
            r matches Err(e) ==> delete_fault(old(self)@.store, caller@, name@, now) == Some(e@),
            r is Ok ==> final(self)@ == deleted(old(self)@, name@, now),
            r is Err ==> final(self)@ == old(self)@,
            sound(old(self)@) ==> sound(final(self)@),
            sound(old(self)@) && r is Ok ==> is_deleted(old(self)@, final(self)@, name@, now),
    {
        let ghost s = self@;
        proof {
            if sound(s) {
                law_deleted_names_are_gone(s, caller@, name@, now);
            }
        }
        if !names::is_scoped(name) {
            let cfg = harberger::config(&self.store);
            let (r, tax) = match authorize_flat(&self.store, &cfg, caller, name, now) {
                Err(e) => {
                    return Err(e);
                },
                Ok(x) => x,
            };
            harberger::note_tax_collected(&mut self.store, tax);
            match &r.flat {
                Some(h) => {
                    store::add_credit(&mut self.store, &r.owner, h.balance);
                },
                None => {},
            }
            let ghost paid = self@;
            erase(self, name);
            proof {
                if sound(s) {
                    assert(sound(paid));
                    lemma_erase_sound(paid, name@);
                }
            }
            return Ok(());
        }
        match authorize(&self.store, caller, name) {
            Err(e) => {
                return Err(e);
            },
            Ok(_) => {},
        }
        if store::get_record(&self.store, name).is_none() {
            return Err(join3("no record for '", name, "'"));
        }
        erase(self, name);
        proof {
            if sound(s) {
                lemma_erase_sound(s, name@);
            }
        }
        Ok(())
    }

    /// The record of a name.
    pub fn get_record(&self, name: &str) -> (r: Option<Record>)
        ensures
            seen(r) == lookup(self@.store.records, name@),
    {
        store::get_record(&self.store, name)
    }

    /// Names under one handle, in key order.
    pub fn list_names(&self, handle: &str) -> (r: Vec<String>)
        ensures
            texts(r@) == texts_in_order(under(handle@, self@.store.records)),
            forall|n: Seq<char>| #[trigger]
                texts(r@).contains(n) <==> self@.store.records.contains_key(n) && begins(
                    n,
                    handle@ + "/"@,
                ),
            forall|i: int, j: int|
                0 <= i < j < r@.len() ==> text_before(
                    #[trigger] texts(r@)[i],
                    #[trigger] texts(r@)[j],
                ),
    {
        let r = store::names_under(&self.store, handle);
        assert(texts(r@).len() == r@.len());
        proof {
            let names = under(handle@, self@.store.records);
            assert forall|n: Seq<char>| #[trigger] texts(r@).contains(n) <==> names.contains(n) by {
                if texts(r@).contains(n) {
                    let i = choose|i: int| 0 <= i < texts(r@).len() && texts(r@)[i] == n;
                    assert(names.contains(texts(r@)[i]));
                }
            }
        }
        r
    }
}

// --- what every write keeps ------------------------------------------------------------------

/// Whether text records are what writes leave: ascending keys in the key
/// grammar, values in theirs, and well formed tags.
pub open spec fn good_text(text: Seq<(Seq<char>, Seq<char>)>) -> bool {
    &&& keys_ascend(text)
    &&& forall|i: int| 0 <= i < text.len() ==> good_entry(#[trigger] text[i])
}

/// Whether one text record is well formed.
pub open spec fn good_entry(e: (Seq<char>, Seq<char>)) -> bool {
    is_text_key(e.0) && is_text_value(e.1) && (e.0 == "tags"@ ==> is_tags_value(e.1))
}

/// Whether a record may stand under a name. A scoped name belongs to the
/// owner of its handle, is never for sale and points at an address or
/// another scoped name. A flat name is held under the tax and aliases a
/// scoped name.
pub open spec fn good_record(
    handles: Map<Seq<char>, HandleState>,
    name: Seq<char>,
    r: RecordState,
) -> bool {
    &&& r.name == name
    &&& good_text(r.text)
    &&& r.text.len() <= MAX_TEXT_RECORDS
    &&& r.target matches TargetState::Alias(to) ==> is_scoped_name(to)
    &&& if name.contains('/') {
        &&& is_scoped_name(name)
        &&& r.flat is None
        &&& r.previous_target is None
        &&& handles.contains_key(handle_of(name))
        &&& r.owner == handles[handle_of(name)].owner
    } else {
        &&& is_flat_name(name)
        &&& r.flat matches Some(h) && lapsed_empty(h)
        &&& r.target is Alias
        &&& r.previous_target matches Some(t) ==> aliases_scoped(t)
    }
}

/// Whether a target is an alias of a scoped name.
pub open spec fn aliases_scoped(t: TargetState) -> bool {
    t matches TargetState::Alias(to) && is_scoped_name(to)
}

/// Whether the registry is what its writes leave: the tag index and the
/// certified tree are in step with the records, and every record is good.
pub open spec fn sound(s: RegistryState) -> bool {
    &&& s.store.tags == index_of(s.store.records)
    &&& s.leaves == leaves_of(s.store.records)
    &&& forall|n: Seq<char>| #[trigger]
        s.store.records.contains_key(n) ==> good_record(s.store.handles, n, s.store.records[n])
    &&& forall|h: Seq<char>| #[trigger] s.store.handles.contains_key(h) ==> is_segment(h)
    &&& forall|n: Seq<char>| #[trigger]
        s.store.auctions.contains_key(n) ==> good_auction(n, s.store.auctions[n])
}

/// Whether an auction may run for a name: a flat name, fair bids, and a
/// scoped name that it is to alias for every revealed bidder.
pub open spec fn good_auction(name: Seq<char>, r: RunningState) -> bool {
    &&& is_flat_name(name)
    &&& fair(r.auction.bids)
    &&& forall|i: int| 0 <= i < r.targets.len() ==> is_scoped_name((#[trigger] r.targets[i]).1)
    &&& forall|i: int|
        0 <= i < r.auction.bids.len() && (#[trigger] r.auction.bids[i]).revealed is Some
            ==> has_target(r.targets, r.auction.bids[i].bidder)
}

/// Whether a bidder gave a target.
pub open spec fn has_target(targets: Seq<(Seq<u8>, Seq<char>)>, bidder: Seq<u8>) -> bool {
    exists|i: int| 0 <= i < targets.len() && (#[trigger] targets[i]).0 == bidder
}

/// A tag of a good record is a segment.
proof fn lemma_good_tags(r: RecordState, i: int)
    requires
        good_text(r.text),
        0 <= i < record_tags(r).len(),
    ensures
        is_segment(record_tags(r)[i]),
{
    lemma_text_value_found(r.text, "tags"@);
    let v = crate::record::text_value(r.text, "tags"@)->0;
    assert(r.text.contains(("tags"@, v)));
    let k = choose|k: int| 0 <= k < r.text.len() && r.text[k] == ("tags"@, v);
    assert(good_entry(r.text[k]));
    assert(names::is_tag_list(pieces(v, ',')));
}

/// A segment holds no NUL.
proof fn lemma_segment_no_nul(s: Seq<char>)
    requires
        is_segment(s),
    ensures
        !s.contains('\0'),
{
    if s.contains('\0') {
        let i = choose|i: int| 0 <= i < s.len() && s[i] == '\0';
        assert(segment_char(s[i]));
    }
}

/// A key of the index names its name.
proof fn lemma_tag_key_name(t: Seq<char>, n: Seq<char>, u: Seq<char>, m: Seq<char>)
    requires
        !t.contains('\0'),
        !u.contains('\0'),
        tag_key(t, n) == tag_key(u, m),
    ensures
        t == u && n == m,
{
    reveal_strlit("\0");
    let k = tag_key(t, n);
    assert(forall|j: int| 0 <= j < t.len() ==> k[j] == t[j]);
    assert(forall|j: int| 0 <= j < u.len() ==> k[j] == u[j]);
    assert(k[t.len() as int] == '\0' && k[u.len() as int] == '\0');
    if t.len() < u.len() {
        assert(u[t.len() as int] == '\0');
    }
    if u.len() < t.len() {
        assert(t[u.len() as int] == '\0');
    }
    assert(t =~= k.take(t.len() as int));
    assert(u =~= k.take(u.len() as int));
    assert(n =~= k.skip((t.len() + 1) as int));
    assert(m =~= k.skip((u.len() + 1) as int));
}

/// Keys of good records under different names differ.
proof fn lemma_keys_apart(a: RecordState, b: RecordState, k: Seq<char>)
    requires
        good_text(a.text),
        good_text(b.text),
        tag_keys(a).contains(k),
        tag_keys(b).contains(k),
    ensures
        a.name == b.name,
{
    let i = choose|i: int|
        0 <= i < record_tags(a).len() && k == tag_key(#[trigger] record_tags(a)[i], a.name);
    let j = choose|j: int|
        0 <= j < record_tags(b).len() && k == tag_key(#[trigger] record_tags(b)[j], b.name);
    lemma_good_tags(a, i);
    lemma_good_tags(b, j);
    lemma_segment_no_nul(record_tags(a)[i]);
    lemma_segment_no_nul(record_tags(b)[j]);
    lemma_tag_key_name(record_tags(a)[i], a.name, record_tags(b)[j], b.name);
}

/// Taking a name's keys out of the index leaves the index of the others.
proof fn lemma_untagged(s: RegistryState, name: Seq<char>)
    requires
        sound(s),
    ensures
        untagged(s.store, name) == index_of(s.store.records.remove(name)),
{
    let records = s.store.records;
    let left = untagged(s.store, name);
    let right = index_of(records.remove(name));
    assert forall|k: Seq<char>| left.contains(k) implies right.contains(k) by {
        assert(s.store.tags.contains(k));
        let n = choose|n: Seq<char>| #[trigger]
            records.contains_key(n) && tag_keys(records[n]).contains(k);
        assert(n != name);
        assert(records.remove(name).contains_key(n));
    }
    assert forall|k: Seq<char>| right.contains(k) implies left.contains(k) by {
        let n = choose|n: Seq<char>| #[trigger]
            records.remove(name).contains_key(n) && tag_keys(records.remove(name)[n]).contains(k);
        assert(records.contains_key(n));
        assert(good_record(s.store.handles, n, records[n]));
        if records.contains_key(name) && tag_keys(records[name]).contains(k) {
            assert(good_record(s.store.handles, name, records[name]));
            lemma_keys_apart(records[n], records[name], k);
        }
    }
    assert(left =~= right);
}

/// Writing a good record keeps the registry sound.
pub(crate) proof fn lemma_record_sound(s: RegistryState, r: RecordState)
    requires
        sound(s),
        good_record(s.store.handles, r.name, r),
    ensures
        sound(with_record(s, r)),
{
    let records = s.store.records;
    let after = with_record(s, r);
    lemma_untagged(s, r.name);
    lemma_leaves_insert(records, r.name, r);
    let left = after.store.tags;
    let right = index_of(after.store.records);
    let rest = records.remove(r.name);
    assert forall|k: Seq<char>| left.contains(k) implies right.contains(k) by {
        if tag_keys(r).contains(k) {
            assert(after.store.records.contains_key(r.name));
        } else {
            assert(index_of(rest).contains(k));
            let n = choose|n: Seq<char>| #[trigger]
                rest.contains_key(n) && tag_keys(rest[n]).contains(k);
            assert(after.store.records.contains_key(n));
        }
    }
    assert forall|k: Seq<char>| right.contains(k) implies left.contains(k) by {
        let n = choose|n: Seq<char>| #[trigger]
            after.store.records.contains_key(n) && tag_keys(after.store.records[n]).contains(k);
        if n != r.name {
            assert(rest.contains_key(n));
            assert(index_of(rest).contains(k));
        }
    }
    assert(left =~= right);
}

/// Erasing a record keeps the registry sound.
pub(crate) proof fn lemma_erase_sound(s: RegistryState, name: Seq<char>)
    requires
        sound(s),
    ensures
        sound(without_record(s, name)),
{
    lemma_untagged(s, name);
    lemma_leaves_remove(s.store.records, name);
}

/// Writing a handle that keeps its owner, or is new, keeps the registry
/// sound.
proof fn lemma_handle_sound(s: RegistryState, handle: Seq<char>, h: HandleState)
    requires
        sound(s),
        is_segment(handle),
        s.store.handles.contains_key(handle) ==> s.store.handles[handle].owner == h.owner,
    ensures
        sound(with_handle(s, handle, h)),
{
    let after = with_handle(s, handle, h);
    assert forall|n: Seq<char>| #[trigger] after.store.records.contains_key(n) implies good_record(
        after.store.handles,
        n,
        after.store.records[n],
    ) by {
        assert(good_record(s.store.handles, n, s.store.records[n]));
    }
}

/// A registry with the handle of an announced name is sound.
proof fn lemma_ready_sound(s: RegistryState, caller: Seq<u8>, name: Seq<char>)
    requires
        sound(s),
        is_scoped_name(name),
    ensures
        sound(handle_ready(s, caller, name)),
{
    if !s.store.handles.contains_key(handle_of(name)) {
        lemma_handle_sound(s, handle_of(name), own_handle(caller));
    }
}

/// A rewritten record of a scoped name whose owner, text and grammar are
/// good is good.
proof fn lemma_scoped_good(s: RegistryState, name: Seq<char>, r: RecordState)
    requires
        sound(s),
        name.contains('/'),
        is_scoped_name(name),
        s.store.handles.contains_key(handle_of(name)),
        r.name == name,
        good_text(r.text),
        r.text.len() <= MAX_TEXT_RECORDS,
        r.target matches TargetState::Alias(to) ==> is_scoped_name(to),
        s.store.records.contains_key(name) ==> r.owner == s.store.records[name].owner && r.flat
            == s.store.records[name].flat && r.previous_target
            == s.store.records[name].previous_target,
        !s.store.records.contains_key(name) ==> r.owner
            == s.store.handles[handle_of(name)].owner && r.flat is None && r.previous_target is None,
    ensures
        good_record(s.store.handles, r.name, r),
{
    if s.store.records.contains_key(name) {
        assert(good_record(s.store.handles, name, s.store.records[name]));
    }
}

/// A flat record that is settled and rewritten with an alias and good text
/// keeps the registry sound.
pub(crate) proof fn lemma_flat_sound(s: RegistryState, name: Seq<char>, r: RecordState, now: u64)
    requires
        sound(s),
        !name.contains('/'),
        is_flat_name(name),
        r.name == name,
        (r.flat matches Some(h) && lapsed_empty(h)) || (s.store.records.contains_key(name) && r.flat
            == settled_now(s.store, name, now).flat),
        good_text(r.text),
        r.text.len() <= MAX_TEXT_RECORDS,
        (r.target matches TargetState::Alias(to) && is_scoped_name(to)) || (
        s.store.records.contains_key(name) && r.target == s.store.records[name].target),
        s.store.records.contains_key(name) && r.previous_target
            == s.store.records[name].previous_target,
    ensures
        sound(with_flat(s, name, r, now)),
{
    let p = params_of(s.store.settings.config);
    if s.store.records.contains_key(name) {
        assert(good_record(s.store.handles, name, s.store.records[name]));
        lemma_settled(p, s.store.records[name].flat->0, now);
    }
    let taxed = with_store(s, with_tax(s.store, record_tax(p, s.store.records[name], now)));
    assert(sound(taxed));
    lemma_record_sound(taxed, r);
}

/// Setting or clearing a text record keeps text records good.
proof fn lemma_text_after_good(
    text: Seq<(Seq<char>, Seq<char>)>,
    key: Seq<char>,
    value: Option<Seq<char>>,
)
    requires
        good_text(text),
        value matches Some(v) ==> good_entry((key, v)),
    ensures
        good_text(text_after(text, key, value)),
        text_after(text, key, value).len() <= if value is Some {
            without_key(text, key).len() + 1
        } else {
            text.len()
        },
{
    let out = text_after(text, key, value);
    lemma_without_key(text, key);
    lemma_ascend_distinct(text);
    match value {
        Some(v) => {
            lemma_with_text(text, key, v);
            lemma_by_key(with_text(text, key, v));
            assert forall|i: int| 0 <= i < out.len() implies good_entry(#[trigger] out[i]) by {
                assert(out.contains(out[i]));
                assert(with_text(text, key, v).contains(out[i]));
                if out[i] != (key, v) {
                    assert(text.contains(out[i]));
                    let k = choose|k: int| 0 <= k < text.len() && text[k] == out[i];
                    assert(good_entry(text[k]));
                }
            }
        },
        None => {
            assert forall|i: int| 0 <= i < out.len() implies good_entry(#[trigger] out[i]) by {
                assert(out.contains(out[i]));
                assert(text.contains(out[i]));
                let k = choose|k: int| 0 <= k < text.len() && text[k] == out[i];
                assert(good_entry(text[k]));
            }
        },
    }
}

/// ASCII text without control characters is a text record's value if it is
/// short enough.
proof fn lemma_ascii_value(s: Seq<char>)
    requires
        s.len() <= names::MAX_TEXT_VALUE,
        forall|i: int| 0 <= i < s.len() ==> ' ' <= #[trigger] s[i] <= '~',
    ensures
        is_text_value(s),
{
    assert(is_ascii_chars(s)) by {
        assert forall|i: int| 0 <= i < s.len() implies '\0' <= #[trigger] s[i] <= '\u{7f}' by {}
    }
    is_ascii_chars_encode_utf8(s);
    assert(names::printable(s)) by {
        assert forall|i: int| 0 <= i < s.len() implies !names::is_control(#[trigger] s[i]) by {}
    }
}

/// The keys of an announcement's text records are good, and none is "tags".
proof fn lemma_provenance_keys()
    ensures
        is_text_key("repo"@) && "repo"@ != "tags"@,
        is_text_key("commit"@) && "commit"@ != "tags"@,
        is_text_key("module_hash"@) && "module_hash"@ != "tags"@,
        is_text_key("deployer"@) && "deployer"@ != "tags"@,
        is_text_key("announced_ns"@) && "announced_ns"@ != "tags"@,
{
    reveal_strlit("tags");
    reveal_strlit("repo");
    reveal_strlit("commit");
    reveal_strlit("module_hash");
    reveal_strlit("deployer");
    reveal_strlit("announced_ns");
    assert("tags"@[0] == 't');
    assert("repo"@[0] == 'r');
}

/// Setting a good text record, without sorting, keeps entries good and keys
/// distinct.
proof fn lemma_with_text_good(text: Seq<(Seq<char>, Seq<char>)>, key: Seq<char>, value: Seq<char>)
    requires
        distinct_keys(text),
        forall|i: int| 0 <= i < text.len() ==> good_entry(#[trigger] text[i]),
        good_entry((key, value)),
    ensures
        distinct_keys(with_text(text, key, value)),
        forall|i: int|
            0 <= i < with_text(text, key, value).len() ==> good_entry(
                #[trigger] with_text(text, key, value)[i],
            ),
{
    let out = with_text(text, key, value);
    lemma_with_text(text, key, value);
    assert forall|i: int| 0 <= i < out.len() implies good_entry(#[trigger] out[i]) by {
        assert(out.contains(out[i]));
        if out[i] != (key, value) {
            assert(text.contains(out[i]));
            let k = choose|k: int| 0 <= k < text.len() && text[k] == out[i];
            assert(good_entry(text[k]));
        }
    }
}

/// The record of an accepted announcement is good.
proof fn lemma_announced_good(
    s: RegistryState,
    caller: Seq<u8>,
    a: Announcement,
    now: u64,
    deployer: Seq<char>,
)
    requires
        sound(s),
        is_scoped_name(a.name@),
        a.name@.contains('/'),
        is_hex(a.commit@, seq![20usize, 32usize]),
        is_hex(a.module_hash@, seq![32usize]),
        is_text_value(a.repo@),
        s.store.handles.contains_key(handle_of(a.name@)),
        deployer == principal_text(caller),
        crate::principal::principal_chars(deployer),
        deployer.len() <= 63,
        announced(s, caller, a, now).text.len() <= MAX_TEXT_RECORDS,
    ensures
        good_record(s.store.handles, a.name@, announced(s, caller, a, now)),
{
    let base = announce_base(s, a, now);
    if s.store.records.contains_key(a.name@) {
        assert(good_record(s.store.handles, a.name@, s.store.records[a.name@]));
    }
    assert(good_text(base.text));
    lemma_provenance_keys();
    lemma_ascend_distinct(base.text);
    assert(good_entry(("repo"@, a.repo@)));
    assert(is_text_value(a.commit@)) by {
        assert forall|i: int| 0 <= i < a.commit@.len() implies ' ' <= #[trigger] a.commit@[i]
            <= '~' by {
            assert(names::hex_char(a.commit@[i]));
        }
        lemma_ascii_value(a.commit@);
    }
    assert(is_text_value(a.module_hash@)) by {
        assert forall|i: int| 0 <= i < a.module_hash@.len() implies ' '
            <= #[trigger] a.module_hash@[i] <= '~' by {
            assert(names::hex_char(a.module_hash@[i]));
        }
        lemma_ascii_value(a.module_hash@);
    }
    lemma_ascii_value(deployer);
    let stamp = decimal(now as nat);
    assert(is_text_value(stamp)) by {
        crate::text::lemma_decimal_digits(now as nat);
        crate::text::lemma_decimal_len_u64(now);
        assert forall|i: int| 0 <= i < stamp.len() implies ' ' <= #[trigger] stamp[i] <= '~' by {
            assert(crate::text::is_digit(stamp[i]));
        }
        lemma_ascii_value(stamp);
    }
    let t1 = with_text(base.text, "repo"@, a.repo@);
    let t2 = with_text(t1, "commit"@, a.commit@);
    let t3 = with_text(t2, "module_hash"@, a.module_hash@);
    let t4 = with_text(t3, "deployer"@, principal_text(caller));
    let t5 = with_text(t4, "announced_ns"@, stamp);
    lemma_with_text_good(base.text, "repo"@, a.repo@);
    lemma_with_text_good(t1, "commit"@, a.commit@);
    lemma_with_text_good(t2, "module_hash"@, a.module_hash@);
    lemma_with_text_good(t3, "deployer"@, principal_text(caller));
    lemma_with_text_good(t4, "announced_ns"@, stamp);
    lemma_by_key(t5);
    let out = by_key(t5);
    assert forall|i: int| 0 <= i < out.len() implies good_entry(#[trigger] out[i]) by {
        assert(out.contains(out[i]));
        assert(t5.contains(out[i]));
        let k = choose|k: int| 0 <= k < t5.len() && t5[k] == out[i];
        assert(good_entry(t5[k]));
    }
}

// --- what each write does ---------------------------------------------------------------------

/// Whether two registries differ at most in the record of a name, in what
/// is indexed and certified of it, in credits and in the tax counted.
pub open spec fn touches_only(s: RegistryState, t: RegistryState, name: Seq<char>) -> bool {
    &&& forall|n: Seq<char>|
        n != name ==> #[trigger] lookup(t.store.records, n) == lookup(s.store.records, n)
    &&& t.store.handles == s.store.handles
    &&& t.store.deployers == s.store.deployers
    &&& t.store.auctions == s.store.auctions
    &&& t.store.settings == (SettingsState {
        tax_collected: t.store.settings.tax_collected,
        ..s.store.settings
    })
}

/// Whether the tax that a record's holding owes up to `now` was counted.
pub open spec fn counts_tax(s: StoreState, t: StoreState, r: RecordState, now: u64) -> bool {
    t.settings.tax_collected == match r.flat {
        Some(h) => capped(
            s.settings.tax_collected + taken(params_of(s.settings.config), h, now),
        ),
        None => s.settings.tax_collected,
    }
}

/// Whether a holding is another one settled up to `now`, where there is one.
pub open spec fn settles(
    s: StoreState,
    before: Option<Harberger>,
    after: Option<Harberger>,
    now: u64,
) -> bool {
    after == match before {
        Some(h) => Some(settled(params_of(s.settings.config), h, now)),
        None => None,
    }
}

/// Whether a caller may write the flat name: it is theirs and has not
/// lapsed past its grace period.
pub open spec fn holds_flat(s: StoreState, caller: Seq<u8>, name: Seq<char>, now: u64) -> bool {
    &&& caller != anonymous()
    &&& is_flat_name(name)
    &&& s.records.contains_key(name)
    &&& s.records[name].owner == caller
    &&& in_hands(s, s.records[name], now)
}

/// Whether a caller may write the scoped name: the handle is theirs.
pub open spec fn owns_scoped(s: StoreState, caller: Seq<u8>, name: Seq<char>) -> bool {
    &&& caller != anonymous()
    &&& is_scoped_name(name)
    &&& s.handles.contains_key(handle_of(name))
    &&& s.handles[handle_of(name)].owner == caller
}

/// A handle goes to whoever asks first, without a deployer, and nothing
/// else changes.
pub proof fn law_handles_go_to_the_first(s: RegistryState, caller: Seq<u8>, handle: Seq<char>)
    ensures
        register_fault(s.store, caller, handle) is None <==> is_segment(handle) && caller
            != anonymous() && !s.store.handles.contains_key(handle),
        with_handle(s, handle, own_handle(caller)) == (RegistryState {
            store: StoreState {
                handles: s.store.handles.insert(
                    handle,
                    HandleState { owner: caller, deployer: None },
                ),
                ..s.store
            },
            ..s
        }),
{
}

/// Only a handle's owner names its deployer, who must be a listed one, or
/// takes the name back; the owner stays.
pub proof fn law_owners_name_deployers(
    s: RegistryState,
    caller: Seq<u8>,
    handle: Seq<char>,
    deployer: Option<Seq<u8>>,
)
    ensures
        deployer_fault(s.store, caller, handle, deployer) is None <==> {
            &&& is_segment(handle)
            &&& caller != anonymous()
            &&& s.store.handles.contains_key(handle)
            &&& s.store.handles[handle].owner == caller
            &&& deployer matches Some(d) ==> s.store.deployers.contains(d)
        },
        deployer_fault(s.store, caller, handle, deployer) is None ==> with_deployer(
            s,
            caller,
            handle,
            deployer,
        ) == (RegistryState {
            store: StoreState {
                handles: s.store.handles.insert(
                    handle,
                    HandleState { owner: s.store.handles[handle].owner, deployer },
                ),
                ..s.store
            },
            ..s
        }),
{
}

/// Only a controller lists deployers, anybody but the anonymous caller, and
/// takes listed ones off; who is listed changes then and nothing else.
pub proof fn law_controllers_list_deployers(
    s: RegistryState,
    caller: Seq<u8>,
    is_controller: bool,
    p: Seq<u8>,
    deployers: Set<Seq<u8>>,
)
    ensures
        list_fault(caller, is_controller, p) is None <==> caller != anonymous() && is_controller && p
            != anonymous(),
        delist_fault(s.store, caller, is_controller, p) is None <==> caller != anonymous()
            && is_controller && s.store.deployers.contains(p),
        with_deployers(s, deployers) == (RegistryState {
            store: StoreState { deployers, ..s.store },
            ..s
        }),
{
}

/// Whether an announcement is accepted, but for the number of text records:
/// a listed deployer reports well formed facts of a scoped name under a
/// handle that nobody has, that is its own or whose owner named it.
pub open spec fn may_report(s: StoreState, caller: Seq<u8>, a: Announcement) -> bool {
    let handle = handle_of(a.name@);
    &&& caller != anonymous()
    &&& s.deployers.contains(caller)
    &&& is_scoped_name(a.name@)
    &&& is_hex(a.commit@, seq![20usize, 32usize])
    &&& is_hex(a.module_hash@, seq![32usize])
    &&& is_text_value(a.repo@)
    &&& !s.handles.contains_key(handle) || s.handles[handle].owner == caller
        || s.handles[handle].deployer == Some(caller)
}

/// The keys that an announcement writes.
pub open spec fn report_keys() -> Seq<Seq<char>> {
    seq!["repo"@, "commit"@, "module_hash"@, "deployer"@, "announced_ns"@]
}

/// Whether `t` is `s` after an accepted announcement. The name points at
/// the announced canister, whatever it pointed at before; the five texts
/// are the announced ones and every other text is as it was. A handle that
/// nobody had is the deployer's.
pub open spec fn is_announced(
    s: RegistryState,
    t: RegistryState,
    caller: Seq<u8>,
    a: Announcement,
    now: u64,
) -> bool {
    let handle = handle_of(a.name@);
    let r = t.store.records[a.name@];
    &&& t.store.records.contains_key(a.name@)
    &&& r.name == a.name@
    &&& r.target == TargetState::Address(a.canister@)
    &&& text_value(r.text, "repo"@) == Some(a.repo@)
    &&& text_value(r.text, "commit"@) == Some(a.commit@)
    &&& text_value(r.text, "module_hash"@) == Some(a.module_hash@)
    &&& text_value(r.text, "deployer"@) == Some(principal_text(caller))
    &&& text_value(r.text, "announced_ns"@) == Some(decimal(now as nat))
    &&& r.updated_ns == now
    &&& r.flat is None
    &&& match lookup(s.store.records, a.name@) {
        Some(was) => {
            &&& forall|k: Seq<char>|
                !report_keys().contains(k) ==> #[trigger] text_value(r.text, k) == text_value(
                    was.text,
                    k,
                )
            &&& r.owner == was.owner
            &&& r.previous_target == was.previous_target
            &&& r.created_ns == was.created_ns
            &&& r.changed_hands_ns == was.changed_hands_ns
        },
        None => {
            &&& forall|k: Seq<char>|
                !report_keys().contains(k) ==> #[trigger] text_value(r.text, k) is None
            &&& r.owner == t.store.handles[handle].owner
            &&& r.previous_target is None
            &&& r.created_ns == now
            &&& r.changed_hands_ns == now
        },
    }
    &&& t.store.handles == if s.store.handles.contains_key(handle) {
        s.store.handles
    } else {
        s.store.handles.insert(handle, HandleState { owner: caller, deployer: None })
    }
    &&& forall|n: Seq<char>|
        n != a.name@ ==> #[trigger] lookup(t.store.records, n) == lookup(s.store.records, n)
    &&& t.store.deployers == s.store.deployers
    &&& t.store.auctions == s.store.auctions
    &&& t.store.credits == s.store.credits
    &&& t.store.settings == s.store.settings
    &&& t.in_flight == s.in_flight
}

/// Setting a text record by a key reads back, leaves the others alone and
/// keeps keys distinct, before anything is put in order.
proof fn lemma_text_set(
    text: Seq<(Seq<char>, Seq<char>)>,
    key: Seq<char>,
    value: Seq<char>,
    other: Seq<char>,
)
    requires
        distinct_keys(text),
    ensures
        distinct_keys(with_text(text, key, value)),
        text_value(with_text(text, key, value), key) == Some(value),
        other != key ==> text_value(with_text(text, key, value), other) == text_value(text, other),
{
    let out = with_text(text, key, value);
    lemma_with_text(text, key, value);
    assert(out.contains((key, value)));
    lemma_text_value(out, key, value);
    lemma_text_value_found(text, other);
    lemma_text_value_found(out, other);
    if other != key {
        if text_value(text, other) is Some {
            assert(out.contains((other, text_value(text, other)->0)));
            lemma_text_value(out, other, text_value(text, other)->0);
        } else if text_value(out, other) is Some {
            assert(text.contains((other, text_value(out, other)->0)));
            lemma_text_value(text, other, text_value(out, other)->0);
        }
    }
}

/// Putting text records in order changes no value.
proof fn lemma_text_sorted(text: Seq<(Seq<char>, Seq<char>)>, key: Seq<char>)
    requires
        distinct_keys(text),
    ensures
        text_value(by_key(text), key) == text_value(text, key),
{
    let out = by_key(text);
    lemma_by_key(text);
    lemma_ascend_distinct(out);
    lemma_text_value_found(text, key);
    lemma_text_value_found(out, key);
    if text_value(text, key) is Some {
        assert(out.contains((key, text_value(text, key)->0)));
        lemma_text_value(out, key, text_value(text, key)->0);
    } else if text_value(out, key) is Some {
        assert(text.contains((key, text_value(out, key)->0)));
        lemma_text_value(text, key, text_value(out, key)->0);
    }
}

/// What the texts of an announcement read back.
proof fn lemma_provenance(
    text: Seq<(Seq<char>, Seq<char>)>,
    caller: Seq<u8>,
    a: Announcement,
    now: u64,
    key: Seq<char>,
)
    requires
        distinct_keys(text),
    ensures
        ({
            let out = provenance(text, caller, a, now);
            &&& text_value(out, "repo"@) == Some(a.repo@)
            &&& text_value(out, "commit"@) == Some(a.commit@)
            &&& text_value(out, "module_hash"@) == Some(a.module_hash@)
            &&& text_value(out, "deployer"@) == Some(principal_text(caller))
            &&& text_value(out, "announced_ns"@) == Some(decimal(now as nat))
            &&& !report_keys().contains(key) ==> text_value(out, key) == text_value(text, key)
        }),
{
    let keys = report_keys();
    assert(keys[0] == "repo"@ && keys[1] == "commit"@ && keys[2] == "module_hash"@ && keys[3]
        == "deployer"@ && keys[4] == "announced_ns"@);
    reveal_strlit("repo");
    reveal_strlit("commit");
    reveal_strlit("module_hash");
    reveal_strlit("deployer");
    reveal_strlit("announced_ns");
    assert("repo"@[0] == 'r' && "commit"@[0] == 'c' && "module_hash"@[0] == 'm' && "deployer"@[0]
        == 'd' && "announced_ns"@[0] == 'a');
    let t1 = with_text(text, "repo"@, a.repo@);
    let t2 = with_text(t1, "commit"@, a.commit@);
    let t3 = with_text(t2, "module_hash"@, a.module_hash@);
    let t4 = with_text(t3, "deployer"@, principal_text(caller));
    let t5 = with_text(t4, "announced_ns"@, decimal(now as nat));
    lemma_text_set(text, "repo"@, a.repo@, key);
    lemma_text_set(t1, "commit"@, a.commit@, key);
    lemma_text_set(t1, "commit"@, a.commit@, "repo"@);
    lemma_text_set(t2, "module_hash"@, a.module_hash@, key);
    lemma_text_set(t2, "module_hash"@, a.module_hash@, "repo"@);
    lemma_text_set(t2, "module_hash"@, a.module_hash@, "commit"@);
    lemma_text_set(t3, "deployer"@, principal_text(caller), key);
    lemma_text_set(t3, "deployer"@, principal_text(caller), "repo"@);
    lemma_text_set(t3, "deployer"@, principal_text(caller), "commit"@);
    lemma_text_set(t3, "deployer"@, principal_text(caller), "module_hash"@);
    lemma_text_set(t4, "announced_ns"@, decimal(now as nat), key);
    lemma_text_set(t4, "announced_ns"@, decimal(now as nat), "repo"@);
    lemma_text_set(t4, "announced_ns"@, decimal(now as nat), "commit"@);
    lemma_text_set(t4, "announced_ns"@, decimal(now as nat), "module_hash"@);
    lemma_text_set(t4, "announced_ns"@, decimal(now as nat), "deployer"@);
    lemma_text_sorted(t5, key);
    lemma_text_sorted(t5, "repo"@);
    lemma_text_sorted(t5, "commit"@);
    lemma_text_sorted(t5, "module_hash"@);
    lemma_text_sorted(t5, "deployer"@);
    lemma_text_sorted(t5, "announced_ns"@);
    assert(keys.contains(keys[0]) && keys.contains(keys[1]) && keys.contains(keys[2])
        && keys.contains(keys[3]) && keys.contains(keys[4]));
}

/// An accepted announcement makes the name mean the announced canister and
/// say where its code came from; it keeps everything else.
pub proof fn law_announcements_repoint(
    s: RegistryState,
    caller: Seq<u8>,
    a: Announcement,
    now: u64,
)
    requires
        sound(s),
    ensures
        announce_fault(s.store, caller, a) is None <==> may_report(s.store, caller, a),
        may_report(s.store, caller, a) ==> ({
            let ready = handle_ready(s, caller, a.name@);
            is_announced(s, with_record(ready, announced(ready, caller, a, now)), caller, a, now)
        }),
{
    let ready = handle_ready(s, caller, a.name@);
    let base = announce_base(ready, a, now);
    if may_report(s.store, caller, a) {
        if s.store.records.contains_key(a.name@) {
            assert(good_record(s.store.handles, a.name@, s.store.records[a.name@]));
        }
        lemma_ascend_distinct(base.text);
        lemma_provenance(base.text, caller, a, now, "repo"@);
        let t = with_record(ready, announced(ready, caller, a, now));
        let r = t.store.records[a.name@];
        assert forall|k: Seq<char>| !report_keys().contains(k) implies #[trigger] text_value(
            r.text,
            k,
        ) == text_value(base.text, k) by {
            lemma_provenance(base.text, caller, a, now, k);
        }
    }
}

/// One where a text record with a key is missing.
pub open spec fn missing_key(text: Seq<(Seq<char>, Seq<char>)>, key: Seq<char>) -> int {
    if has_key(text, key) {
        0
    } else {
        1
    }
}

/// How many text records there are once the five of an announcement stand.
pub open spec fn texts_with_report(text: Seq<(Seq<char>, Seq<char>)>) -> int {
    text.len() + missing_key(text, "repo"@) + missing_key(text, "commit"@) + missing_key(
        text,
        "module_hash"@,
    ) + missing_key(text, "deployer"@) + missing_key(text, "announced_ns"@)
}

/// Whether there is room for the texts of an announcement: 32 text records
/// at most with the five it writes, of which some may stand already.
pub open spec fn has_room(s: StoreState, name: Seq<char>) -> bool {
    s.records.contains_key(name) ==> texts_with_report(s.records[name].text) <= 32
}

/// Setting a text record adds one where the key is not set, and leaves the
/// other keys.
proof fn lemma_text_grows(
    text: Seq<(Seq<char>, Seq<char>)>,
    key: Seq<char>,
    value: Seq<char>,
    other: Seq<char>,
)
    requires
        distinct_keys(text),
    ensures
        distinct_keys(with_text(text, key, value)),
        with_text(text, key, value).len() == text.len() + missing_key(text, key),
        other != key ==> (has_key(with_text(text, key, value), other) <==> has_key(text, other)),
{
    lemma_with_text(text, key, value);
    lemma_without_key_len(text, key);
    let out = with_text(text, key, value);
    if other != key {
        if has_key(text, other) {
            let i = choose|i: int| 0 <= i < text.len() && (#[trigger] text[i]).0 == other;
            assert(text.contains(text[i]));
            assert(out.contains(text[i]));
            let j = choose|j: int| 0 <= j < out.len() && out[j] == text[i];
            assert(out[j].0 == other);
        }
        if has_key(out, other) {
            let i = choose|i: int| 0 <= i < out.len() && (#[trigger] out[i]).0 == other;
            assert(out.contains(out[i]));
            assert(text.contains(out[i]));
            let j = choose|j: int| 0 <= j < text.len() && text[j] == out[i];
            assert(text[j].0 == other);
        }
    }
}

/// An announcement writes its five texts over those that stand and adds the
/// others; it is refused for their number exactly where they would be more
/// than 32.
pub proof fn law_announcements_fit(s: RegistryState, caller: Seq<u8>, a: Announcement, now: u64)
    requires
        sound(s),
    ensures
        announced(handle_ready(s, caller, a.name@), caller, a, now).text.len() <= 32 <==> has_room(
            s.store,
            a.name@,
        ),
{
    let base = announce_base(handle_ready(s, caller, a.name@), a, now);
    if s.store.records.contains_key(a.name@) {
        assert(good_record(s.store.handles, a.name@, s.store.records[a.name@]));
    }
    lemma_ascend_distinct(base.text);
    reveal_strlit("repo");
    reveal_strlit("commit");
    reveal_strlit("module_hash");
    reveal_strlit("deployer");
    reveal_strlit("announced_ns");
    assert("repo"@[0] == 'r' && "commit"@[0] == 'c' && "module_hash"@[0] == 'm' && "deployer"@[0]
        == 'd' && "announced_ns"@[0] == 'a');
    let stamp = decimal(now as nat);
    let t1 = with_text(base.text, "repo"@, a.repo@);
    let t2 = with_text(t1, "commit"@, a.commit@);
    let t3 = with_text(t2, "module_hash"@, a.module_hash@);
    let t4 = with_text(t3, "deployer"@, principal_text(caller));
    let t5 = with_text(t4, "announced_ns"@, stamp);
    lemma_text_grows(base.text, "repo"@, a.repo@, "commit"@);
    lemma_text_grows(base.text, "repo"@, a.repo@, "module_hash"@);
    lemma_text_grows(base.text, "repo"@, a.repo@, "deployer"@);
    lemma_text_grows(base.text, "repo"@, a.repo@, "announced_ns"@);
    lemma_text_grows(t1, "commit"@, a.commit@, "module_hash"@);
    lemma_text_grows(t1, "commit"@, a.commit@, "deployer"@);
    lemma_text_grows(t1, "commit"@, a.commit@, "announced_ns"@);
    lemma_text_grows(t2, "module_hash"@, a.module_hash@, "deployer"@);
    lemma_text_grows(t2, "module_hash"@, a.module_hash@, "announced_ns"@);
    lemma_text_grows(t3, "deployer"@, principal_text(caller), "announced_ns"@);
    lemma_text_grows(t4, "announced_ns"@, stamp, "repo"@);
    lemma_by_key(t5);
    if !s.store.records.contains_key(a.name@) {
        assert(base.text.len() == 0);
        assert(t5.len() <= 5);
    }
}

/// Whether `t` is `s` after a name was pointed at a target. The name points
/// there and nothing else of an existing record changes, but that its
/// holding is settled; a new record is the caller's, without texts.
pub open spec fn is_pointed(
    s: RegistryState,
    t: RegistryState,
    caller: Seq<u8>,
    name: Seq<char>,
    target: TargetState,
    now: u64,
) -> bool {
    let r = t.store.records[name];
    &&& t.store.records.contains_key(name)
    &&& r.name == name
    &&& r.owner == caller
    &&& r.target == target
    &&& r.updated_ns == now
    &&& match lookup(s.store.records, name) {
        Some(was) => {
            &&& r.text == was.text
            &&& r.previous_target == was.previous_target
            &&& r.created_ns == was.created_ns
            &&& r.changed_hands_ns == was.changed_hands_ns
            &&& settles(s.store, was.flat, r.flat, now)
            &&& counts_tax(s.store, t.store, was, now)
        },
        None => {
            &&& r.text.len() == 0
            &&& r.previous_target is None
            &&& r.created_ns == now
            &&& r.changed_hands_ns == now
            &&& r.flat is None
            &&& t.store.settings == s.store.settings
        },
    }
    &&& touches_only(s, t, name)
    &&& t.store.credits == s.store.credits
    &&& t.in_flight == s.in_flight
}

/// A name is pointed only by who owns it, a flat name at a scoped name only,
/// a scoped one anywhere but at a flat name or itself; and then it points
/// there, be it new or not.
pub proof fn law_names_point_where_told(
    s: RegistryState,
    caller: Seq<u8>,
    name: Seq<char>,
    target: TargetState,
    now: u64,
)
    requires
        sound(s),
    ensures
        record_fault(s.store, caller, name, target, now) is None <==> {
            ||| holds_flat(s.store, caller, name, now) && aliases_scoped(target)
            ||| owns_scoped(s.store, caller, name) && (target matches TargetState::Alias(to)
                ==> is_scoped_name(to) && to != name)
        },
        record_fault(s.store, caller, name, target, now) is None ==> is_pointed(
            s,
            pointed(s, caller, name, target, now),
            caller,
            name,
            target,
            now,
        ),
{
    if is_segment(name) {
        lemma_segment_no_slash(name);
    }
    if s.store.records.contains_key(name) {
        assert(good_record(s.store.handles, name, s.store.records[name]));
    }
}

/// Whether `t` is `s` after one text record of a name was set or cleared:
/// it reads back, every other one is as it was, and so is everything else
/// of the record, but that its holding is settled.
pub open spec fn is_retexted(
    s: RegistryState,
    t: RegistryState,
    name: Seq<char>,
    key: Seq<char>,
    value: Option<Seq<char>>,
    now: u64,
) -> bool {
    let was = s.store.records[name];
    let r = t.store.records[name];
    &&& t.store.records.contains_key(name)
    &&& text_value(r.text, key) == value
    &&& forall|k: Seq<char>|
        k != key ==> #[trigger] text_value(r.text, k) == text_value(was.text, k)
    &&& r.name == name
    &&& r.owner == was.owner
    &&& r.target == was.target
    &&& r.previous_target == was.previous_target
    &&& r.created_ns == was.created_ns
    &&& r.updated_ns == now
    &&& r.changed_hands_ns == was.changed_hands_ns
    &&& settles(s.store, was.flat, r.flat, now)
    &&& counts_tax(s.store, t.store, was, now)
    &&& touches_only(s, t, name)
    &&& t.store.credits == s.store.credits
    &&& t.in_flight == s.in_flight
}

/// The registry with a text record of a name set or cleared, be the name
/// flat or scoped.
pub open spec fn text_set(
    s: RegistryState,
    name: Seq<char>,
    key: Seq<char>,
    value: Option<Seq<char>>,
    now: u64,
) -> RegistryState {
    if !name.contains('/') {
        retexted(s, name, key, value, now)
    } else {
        with_record(
            s,
            RecordState {
                text: text_after(s.store.records[name].text, key, value),
                updated_ns: now,
                ..s.store.records[name]
            },
        )
    }
}

/// A text record is set or cleared by who owns the name, within the grammar
/// and 32 to a name, and then reads back.
pub proof fn law_texts_are_the_owners(
    s: RegistryState,
    caller: Seq<u8>,
    name: Seq<char>,
    key: Seq<char>,
    value: Option<Seq<char>>,
    now: u64,
)
    requires
        sound(s),
    ensures
        text_fault(s.store, caller, name, key, value, now) is None <==> {
            &&& s.store.records.contains_key(name)
            &&& holds_flat(s.store, caller, name, now) || owns_scoped(s.store, caller, name)
            &&& is_text_key(key)
            &&& value matches Some(v) ==> {
                &&& is_text_value(v)
                &&& key == "tags"@ ==> is_tags_value(v)
                &&& has_key(s.store.records[name].text, key) || s.store.records[name].text.len()
                    < 32
            }
        },
        text_fault(s.store, caller, name, key, value, now) is None ==> is_retexted(
            s,
            text_set(s, name, key, value, now),
            name,
            key,
            value,
            now,
        ),
{
    if is_segment(name) {
        lemma_segment_no_slash(name);
    }
    let text = s.store.records[name].text;
    if s.store.records.contains_key(name) {
        assert(good_record(s.store.handles, name, s.store.records[name]));
        lemma_ascend_distinct(text);
        lemma_without_key_len(text, key);
    }
    if text_fault(s.store, caller, name, key, value, now) is None {
        let t = text_set(s, name, key, value, now);
        let r = t.store.records[name];
        match value {
            Some(v) => law_text_reads_back(text, key, v, key),
            None => law_text_cleared(text, key, key),
        }
        assert forall|k: Seq<char>| k != key implies #[trigger] text_value(r.text, k)
            == text_value(text, k) by {
            match value {
                Some(v) => law_text_reads_back(text, key, v, k),
                None => law_text_cleared(text, key, k),
            }
        }
    }
}

/// Whether `t` is `s` after a name was deleted: the record is gone, and a
/// flat name's owner is credited what is left of its balance.
pub open spec fn is_deleted(s: RegistryState, t: RegistryState, name: Seq<char>, now: u64) -> bool {
    let was = s.store.records[name];
    &&& !t.store.records.contains_key(name)
    &&& touches_only(s, t, name)
    &&& counts_tax(s.store, t.store, was, now)
    &&& forall|p: Seq<u8>|
        #![trigger owed(t.store.credits, p)]
        owed(t.store.credits, p) == if p == was.owner && was.flat is Some {
            capped(
                owed(s.store.credits, p) + settled(
                    params_of(s.store.settings.config),
                    was.flat->0,
                    now,
                ).balance,
            )
        } else {
            owed(s.store.credits, p)
        }
    &&& t.in_flight == s.in_flight
}

/// A name is deleted by who owns it, and then it is gone; the unspent
/// balance of a flat name is its owner's.
pub proof fn law_deleted_names_are_gone(
    s: RegistryState,
    caller: Seq<u8>,
    name: Seq<char>,
    now: u64,
)
    requires
        sound(s),
    ensures
        delete_fault(s.store, caller, name, now) is None <==> s.store.records.contains_key(name)
            && (holds_flat(s.store, caller, name, now) || owns_scoped(s.store, caller, name)),
        delete_fault(s.store, caller, name, now) is None ==> is_deleted(
            s,
            deleted(s, name, now),
            name,
            now,
        ),
{
    if is_segment(name) {
        lemma_segment_no_slash(name);
    }
    if s.store.records.contains_key(name) {
        assert(good_record(s.store.handles, name, s.store.records[name]));
    }
}

/// A flat name always aliases a scoped name, and a scoped name is never held
/// under the tax: a sale can never change what a scoped name means.
pub proof fn law_flat_names_alias_scoped_names(s: RegistryState, name: Seq<char>)
    requires
        sound(s),
        s.store.records.contains_key(name),
    ensures
        s.store.records[name].flat is Some <==> is_flat_name(name),
        s.store.records[name].flat is None <==> is_scoped_name(name),
        s.store.records[name].flat is Some ==> aliases_scoped(s.store.records[name].target),
{
    assert(good_record(s.store.handles, name, s.store.records[name]));
    if is_flat_name(name) {
        lemma_segment_no_slash(name);
    }
}

/// The directory is in step with the records: in a sound registry the names
/// that the index lists for a tag are exactly those whose record carries it.
pub proof fn law_directory_is_in_step(s: RegistryState, tag: Seq<char>, name: Seq<char>)
    requires
        sound(s),
    ensures
        tagged_names(s.store.tags, tag).contains(name) <==> s.store.records.contains_key(name)
            && record_tags(s.store.records[name]).contains(tag),
{
    lemma_sound_in_step(s);
    lemma_tagged(s.store, tag, name);
}

/// In a sound registry the index is in step with the records.
pub proof fn lemma_sound_in_step(s: RegistryState)
    requires
        sound(s),
    ensures
        in_step(s.store),
{
    let records = s.store.records;
    assert forall|n: Seq<char>, i: int|
        records.contains_key(n) && 0 <= i < record_tags(records[n]).len() implies !(
    #[trigger] record_tags(records[n])[i]).contains('\0') by {
        assert(good_record(s.store.handles, n, records[n]));
        lemma_good_tags(records[n], i);
        lemma_segment_no_nul(record_tags(records[n])[i]);
    }
    assert forall|n: Seq<char>| #[trigger] records.contains_key(n) implies records[n].name == n
        && !n.contains('\0') by {
        assert(good_record(s.store.handles, n, records[n]));
        if n.contains('/') {
            lemma_segment_no_nul(handle_of(n));
            lemma_segment_no_nul(names::label_of(n));
            crate::text::lemma_find(n, '/');
            if n.contains('\0') {
                let i = choose|i: int| 0 <= i < n.len() && n[i] == '\0';
                let at = crate::text::find(n, '/');
                if i < at {
                    assert(handle_of(n)[i] == '\0');
                } else {
                    assert(i > at);
                    assert(names::label_of(n)[i - at - 1] == '\0');
                }
            }
        } else {
            lemma_segment_no_nul(n);
        }
    }
}

/// A write that is refused says why: the anonymous caller, a handle that is
/// not registered or not the caller's, a flat name without a record, of
/// somebody else, or lapsed.
pub proof fn law_refused_writes_say_why(
    s: RegistryState,
    caller: Seq<u8>,
    name: Seq<char>,
    handle: Seq<char>,
    now: u64,
)
    requires
        sound(s),
    ensures
        ({
            let scoped = scoped_fault(s.store, caller, name);
            let flat = flat_fault(s.store, params_of(s.store.settings.config), caller, name, now);
            let taken_handle = register_fault(s.store, caller, handle);
            let h = handle_of(name);
            let known = caller != anonymous();
            let r = s.store.records[name];
            &&& !is_scoped_name(name) ==> scoped == Some(scoped_error(name))
            &&& is_scoped_name(name) && !known ==> scoped == Some("anonymous caller"@)
            &&& is_scoped_name(name) && known && !s.store.handles.contains_key(h) ==> scoped == Some(
                "handle '"@ + h + "' is not registered"@,
            )
            &&& is_scoped_name(name) && known && s.store.handles.contains_key(h)
                && s.store.handles[h].owner != caller ==> scoped == Some(
                "caller does not own handle '"@ + h + "'"@,
            )
            &&& !is_flat_name(name) ==> flat == Some(flat_error(name))
            &&& is_flat_name(name) && !known ==> flat == Some("anonymous caller"@)
            &&& is_flat_name(name) && known && !s.store.records.contains_key(name) ==> flat == Some(
                "no record for '"@ + name + "'"@,
            )
            &&& is_flat_name(name) && known && s.store.records.contains_key(name) && r.owner
                != caller ==> flat == Some("caller does not own '"@ + name + "'"@)
            &&& is_flat_name(name) && known && s.store.records.contains_key(name) && r.owner
                == caller && !in_hands(s.store, r, now) ==> flat == Some(
                "'"@ + name + "' has lapsed and is free to claim"@,
            )
            &&& is_segment(handle) && known && s.store.handles.contains_key(handle) ==> taken_handle
                == Some("handle '"@ + handle + "' is taken"@)
        }),
{
    if s.store.records.contains_key(name) {
        assert(good_record(s.store.handles, name, s.store.records[name]));
    }
}

/// An announcement that is refused says why, the caller first and the handle
/// last.
pub proof fn law_refused_announcements_say_why(s: StoreState, caller: Seq<u8>, a: Announcement)
    ensures
        ({
            let told = announce_fault(s, caller, a);
            let handle = handle_of(a.name@);
            let known = caller != anonymous();
            let listed = known && s.deployers.contains(caller);
            let formed = listed && is_scoped_name(a.name@) && is_hex(
                a.commit@,
                seq![20usize, 32usize],
            ) && is_hex(a.module_hash@, seq![32usize]) && is_text_value(a.repo@);
            &&& !known ==> told == Some("anonymous caller"@)
            &&& known && !listed ==> told == Some(
                principal_text(caller) + " is not a listed deployer"@,
            )
            &&& listed && !is_scoped_name(a.name@) ==> told == Some(scoped_error(a.name@))
            &&& formed && s.handles.contains_key(handle) && s.handles[handle].owner != caller
                && s.handles[handle].deployer != Some(caller) ==> told == Some(
                "handle '"@ + handle + "' does not allow deployer "@ + principal_text(caller),
            )
        }),
{
}

} // verus!
