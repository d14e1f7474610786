//! What the registry keeps beside its maps: the two configs, the treasury
//! counters and the schema version.

use vstd::prelude::*;
use vstd::utf8::*;

use crate::harberger;
use crate::harberger::{config_in, default_config, ConfigState};
use crate::maps::{amount_bytes, amount_in, load_amount, lookup, store_amount};
use crate::running;
use crate::stable::{contents, memory_of, StableMap};
use crate::tax::least;
use crate::text::{lemma_utf8_injective, seen};

verus! {

/// What is kept, each under a key of its own.
#[derive(Clone, Copy, Debug, PartialEq, Eq, Structural)]
pub enum Slot {
    Harberger,
    Auction,
    TaxCollected,
    TaxWithdrawn,
    Unreconciled,
    UnreconciledLast,
    Proceeds,
    Schema,
}

/// The key of a slot, as text.
pub open spec fn slot_name(s: Slot) -> Seq<char> {
    match s {
        Slot::Harberger => "harberger"@,
        Slot::Auction => "auction"@,
        Slot::TaxCollected => "tax_collected"@,
        Slot::TaxWithdrawn => "tax_withdrawn"@,
        Slot::Unreconciled => "unreconciled"@,
        Slot::UnreconciledLast => "unreconciled_last"@,
        Slot::Proceeds => "auction_proceeds"@,
        Slot::Schema => "schema"@,
    }
}

/// The key of a slot.
pub open spec fn slot_key(s: Slot) -> Seq<u8> {
    encode_utf8(slot_name(s))
}

/// No two slots share a key.
proof fn lemma_slot_keys(a: Slot, b: Slot)
    requires
        slot_key(a) == slot_key(b),
    ensures
        a == b,
{
    lemma_utf8_injective(slot_name(a), slot_name(b));
    reveal_strlit("harberger");
    reveal_strlit("auction");
    reveal_strlit("tax_collected");
    reveal_strlit("tax_withdrawn");
    reveal_strlit("unreconciled");
    reveal_strlit("unreconciled_last");
    reveal_strlit("auction_proceeds");
    reveal_strlit("schema");
    assert("tax_collected"@[4] == 'c');
    assert("tax_withdrawn"@[4] == 'w');
}

/// The key of a slot.
fn key_of(s: Slot) -> (r: Vec<u8>)
    ensures
        r@ == slot_key(s),
{
    match s {
        Slot::Harberger => "harberger".as_bytes_vec(),
        Slot::Auction => "auction".as_bytes_vec(),
        Slot::TaxCollected => "tax_collected".as_bytes_vec(),
        Slot::TaxWithdrawn => "tax_withdrawn".as_bytes_vec(),
        Slot::Unreconciled => "unreconciled".as_bytes_vec(),
        Slot::UnreconciledLast => "unreconciled_last".as_bytes_vec(),
        Slot::Proceeds => "auction_proceeds".as_bytes_vec(),
        Slot::Schema => "schema".as_bytes_vec(),
    }
}

/// The slots of a map.
pub open spec fn slots_of(m: Map<Seq<u8>, Seq<u8>>) -> Map<Slot, Seq<u8>> {
    Map::new(|s: Slot| m.contains_key(slot_key(s)), |s: Slot| m[slot_key(s)])
}

/// Writing the key of a slot writes the slot.
proof fn lemma_slot_insert(m: Map<Seq<u8>, Seq<u8>>, s: Slot, b: Seq<u8>)
    ensures
        slots_of(m.insert(slot_key(s), b)) == slots_of(m).insert(s, b),
{
    let left = slots_of(m.insert(slot_key(s), b));
    let right = slots_of(m).insert(s, b);
    assert forall|t: Slot| #[trigger] slot_key(t) == slot_key(s) implies t == s by {
        lemma_slot_keys(t, s);
    }
    assert(left.dom() =~= right.dom());
    assert(left =~= right);
}

// --- raw slots --------------------------------------------------------------------

/// The slots as they stand in stable memory, whatever they hold.
pub struct Meta {
    map: StableMap,
}

impl View for Meta {
    type V = Map<Slot, Seq<u8>>;

    closed spec fn view(&self) -> Map<Slot, Seq<u8>> {
        slots_of(contents(self.map))
    }
}

impl Meta {
    /// The id of the virtual memory that the slots live in.
    pub closed spec fn memory(self) -> u8 {
        memory_of(self.map)
    }

    /// The slots of a map.
    pub fn from_stable(map: StableMap) -> (r: Meta)
        ensures
            r@ == slots_of(contents(map)),
            r.memory() == memory_of(map),
    {
        Meta { map }
    }

    /// What a slot holds.
    pub fn get(&self, s: Slot) -> (r: Option<Vec<u8>>)
        ensures
            seen(r) == lookup(self@, s),
    {
        let key = key_of(s);
        self.map.get(&key)
    }

    /// Store bytes in a slot.
    pub fn set(&mut self, s: Slot, bytes: Vec<u8>)
        ensures
            final(self)@ == old(self)@.insert(s, bytes@),
    {
        proof {
            lemma_slot_insert(contents(self.map), s, bytes@);
        }
        let key = key_of(s);
        self.map.insert(key, bytes);
    }

    /// The number in a slot, zero where there is none.
    pub fn amount(&self, s: Slot) -> (r: u128)
        ensures
            r == amount_at(self@, s),
    {
        match self.get(s) {
            Some(b) => match load_amount(&b) {
                Some(n) => n,
                None => 0,
            },
            None => 0,
        }
    }

    /// The schema version, 0 where none was ever stored.
    pub fn schema_version(&self) -> (r: u32)
        ensures
            r == schema_at(self@),
    {
        let n: u128 = self.amount(Slot::Schema);
        if n < 0xffff_ffff {
            n as u32
        } else {
            0xffff_ffff
        }
    }
}

impl Meta {
    /// Note the schema version.
    pub fn set_schema_version(&mut self, version: u32)
        ensures
            final(self)@ == old(self)@.insert(Slot::Schema, amount_bytes(version as u128)),
            schema_at(final(self)@) == version,
    {
        let bytes = store_amount(version as u128);
        self.set(Slot::Schema, bytes);
    }
}

/// The number in a slot, zero where there is none.
pub open spec fn amount_at(m: Map<Slot, Seq<u8>>, s: Slot) -> u128 {
    match lookup(m, s) {
        Some(b) => match amount_in(b) {
            Some(n) => n,
            None => 0,
        },
        None => 0,
    }
}

/// The schema version in the slots.
pub open spec fn schema_at(m: Map<Slot, Seq<u8>>) -> u32 {
    least(amount_at(m, Slot::Schema) as int, u32::MAX as int) as u32
}

// --- typed settings -----------------------------------------------------------------

/// The settings by their contents.
#[verifier::ext_equal]
pub struct SettingsState {
    pub config: ConfigState,
    pub auction: running::Config,
    pub tax_collected: u128,
    pub tax_withdrawn: u128,
    pub unreconciled: u128,
    pub unreconciled_last: Seq<u8>,
    pub proceeds: u128,
    pub schema: u32,
}

/// Whether the configs in the slots, where there are any, can be read.
pub open spec fn configs_readable(m: Map<Slot, Seq<u8>>) -> bool {
    &&& lookup(m, Slot::Harberger) matches Some(b) ==> config_in(b) is Some
    &&& lookup(m, Slot::Auction) matches Some(b) ==> running::config_in(b) is Some
}

/// The settings that the slots hold. A config that was never stored is the
/// default one.
pub open spec fn settings_of(m: Map<Slot, Seq<u8>>) -> SettingsState {
    SettingsState {
        config: match lookup(m, Slot::Harberger) {
            Some(b) => config_in(b)->0,
            None => default_config(),
        },
        auction: match lookup(m, Slot::Auction) {
            Some(b) => running::config_in(b)->0,
            None => running::default_config(),
        },
        tax_collected: amount_at(m, Slot::TaxCollected),
        tax_withdrawn: amount_at(m, Slot::TaxWithdrawn),
        unreconciled: amount_at(m, Slot::Unreconciled),
        unreconciled_last: match lookup(m, Slot::UnreconciledLast) {
            Some(b) => b,
            None => Seq::empty(),
        },
        proceeds: amount_at(m, Slot::Proceeds),
        schema: schema_at(m),
    }
}

/// The slots of readable configs and counters.
pub struct Settings {
    map: StableMap,
}

impl View for Settings {
    type V = SettingsState;

    closed spec fn view(&self) -> SettingsState {
        settings_of(slots_of(contents(self.map)))
    }
}

impl Settings {
    #[verifier::type_invariant]
    spec fn inv(self) -> bool {
        configs_readable(slots_of(contents(self.map)))
    }

    /// The settings in the slots, None where a stored config cannot be
    /// read. A config that does not decode is a bug, not a reason to run on
    /// defaults: the ledger, rate and pinned fee would change silently.
    pub fn from_meta(meta: Meta) -> (r: Option<Settings>)
        ensures
            r is Some <==> configs_readable(meta@),
            r matches Some(s) ==> s@ == settings_of(meta@),
    {
        match meta.get(Slot::Harberger) {
            Some(b) => {
                if harberger::Config::from_bytes(&b).is_none() {
                    return None;
                }
            },
            None => {},
        }
        match meta.get(Slot::Auction) {
            Some(b) => {
                if running::Config::from_bytes(&b).is_none() {
                    return None;
                }
            },
            None => {},
        }
        let Meta { map } = meta;
        Some(Settings { map })
    }

    /// What a slot holds.
    fn slot(&self, s: Slot) -> (r: Option<Vec<u8>>)
        ensures
            seen(r) == lookup(slots_of(contents(self.map)), s),
    {
        let key = key_of(s);
        self.map.get(&key)
    }

    /// The number in a slot, zero where there is none.
    fn number(&self, s: Slot) -> (r: u128)
        ensures
            r == amount_at(slots_of(contents(self.map)), s),
    {
        match self.slot(s) {
            Some(b) => match load_amount(&b) {
                Some(n) => n,
                None => 0,
            },
            None => 0,
        }
    }

    /// The stored config of the tax, or the default when none was ever set.
    pub fn config(&self) -> (r: harberger::Config)
        ensures
            r@ == self@.config,
    {
        proof {
            use_type_invariant(&*self);
        }
        match self.slot(Slot::Harberger) {
            Some(b) => match harberger::Config::from_bytes(&b) {
                Some(c) => c,
                None => harberger::Config::default(),
            },
            None => harberger::Config::default(),
        }
    }

    /// Store the config of the tax.
    pub fn set_config(&mut self, c: &harberger::Config)
        ensures
            final(self)@ == (SettingsState { config: c@, ..old(self)@ }),
    {
        proof {
            use_type_invariant(&*self);
        }
        let key = key_of(Slot::Harberger);
        let bytes = c.to_bytes();
        proof {
            lemma_slot_insert(contents(self.map), Slot::Harberger, bytes@);
        }
        self.map.insert(key, bytes);
    }

    /// The stored config of auctions, or the default when none was ever
    /// set.
    pub fn auction_config(&self) -> (r: running::Config)
        ensures
            r == self@.auction,
    {
        proof {
            use_type_invariant(&*self);
        }
        match self.slot(Slot::Auction) {
            Some(b) => match running::Config::from_bytes(&b) {
                Some(c) => c,
                None => running::Config::default(),
            },
            None => running::Config::default(),
        }
    }

    /// Store the config of auctions.
    pub fn set_auction_config(&mut self, c: &running::Config)
        ensures
            final(self)@ == (SettingsState { auction: *c, ..old(self)@ }),
    {
        proof {
            use_type_invariant(&*self);
        }
        let key = key_of(Slot::Auction);
        let bytes = c.to_bytes();
        proof {
            lemma_slot_insert(contents(self.map), Slot::Auction, bytes@);
        }
        self.map.insert(key, bytes);
    }

    /// Tax collected so far.
    pub fn tax_collected(&self) -> (r: u128)
        ensures
            r == self@.tax_collected,
    {
        self.number(Slot::TaxCollected)
    }

    /// Tax withdrawn so far.
    pub fn tax_withdrawn(&self) -> (r: u128)
        ensures
            r == self@.tax_withdrawn,
    {
        self.number(Slot::TaxWithdrawn)
    }

    /// The amount whose movement could not be confirmed.
    pub fn unreconciled(&self) -> (r: u128)
        ensures
            r == self@.unreconciled,
    {
        self.number(Slot::Unreconciled)
    }

    /// What the last unconfirmed movement was.
    pub fn unreconciled_last(&self) -> (r: Vec<u8>)
        ensures
            r@ == self@.unreconciled_last,
    {
        match self.slot(Slot::UnreconciledLast) {
            Some(b) => b,
            None => {
                let none: Vec<u8> = Vec::new();
                assert(none@ =~= Seq::<u8>::empty());
                none
            },
        }
    }

    /// Auction prices and forfeited deposits so far.
    pub fn proceeds(&self) -> (r: u128)
        ensures
            r == self@.proceeds,
    {
        self.number(Slot::Proceeds)
    }

    /// The schema version.
    pub fn schema(&self) -> (r: u32)
        ensures
            r == self@.schema,
    {
        let n: u128 = self.number(Slot::Schema);
        if n < 0xffff_ffff {
            n as u32
        } else {
            0xffff_ffff
        }
    }

    /// Set the tax collected.
    pub(crate) fn set_tax_collected(&mut self, n: u128)
        ensures
            final(self)@ == (SettingsState { tax_collected: n, ..old(self)@ }),
    {
        proof {
            use_type_invariant(&*self);
        }
        let key = key_of(Slot::TaxCollected);
        let bytes = store_amount(n);
        proof {
            lemma_slot_insert(contents(self.map), Slot::TaxCollected, bytes@);
        }
        self.map.insert(key, bytes);
    }

    /// Set the tax withdrawn.
    pub(crate) fn set_tax_withdrawn(&mut self, n: u128)
        ensures
            final(self)@ == (SettingsState { tax_withdrawn: n, ..old(self)@ }),
    {
        proof {
            use_type_invariant(&*self);
        }
        let key = key_of(Slot::TaxWithdrawn);
        let bytes = store_amount(n);
        proof {
            lemma_slot_insert(contents(self.map), Slot::TaxWithdrawn, bytes@);
        }
        self.map.insert(key, bytes);
    }

    /// Set the unconfirmed amount.
    pub(crate) fn set_unreconciled(&mut self, n: u128)
        ensures
            final(self)@ == (SettingsState { unreconciled: n, ..old(self)@ }),
    {
        proof {
            use_type_invariant(&*self);
        }
        let key = key_of(Slot::Unreconciled);
        let bytes = store_amount(n);
        proof {
            lemma_slot_insert(contents(self.map), Slot::Unreconciled, bytes@);
        }
        self.map.insert(key, bytes);
    }

    /// Set what the last unconfirmed movement was.
    pub(crate) fn set_unreconciled_last(&mut self, what: &str)
        ensures
            final(self)@ == (SettingsState {
                unreconciled_last: encode_utf8(what@),
                ..old(self)@
            }),
    {
        proof {
            use_type_invariant(&*self);
        }
        let key = key_of(Slot::UnreconciledLast);
        let bytes = what.as_bytes_vec();
        proof {
            lemma_slot_insert(contents(self.map), Slot::UnreconciledLast, bytes@);
        }
        self.map.insert(key, bytes);
    }

    /// Set the auction proceeds.
    pub(crate) fn set_proceeds(&mut self, n: u128)
        ensures
            final(self)@ == (SettingsState { proceeds: n, ..old(self)@ }),
    {
        proof {
            use_type_invariant(&*self);
        }
        let key = key_of(Slot::Proceeds);
        let bytes = store_amount(n);
        proof {
            lemma_slot_insert(contents(self.map), Slot::Proceeds, bytes@);
        }
        self.map.insert(key, bytes);
    }
}

} // verus!
