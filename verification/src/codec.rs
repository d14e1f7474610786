//! The stored forms of handles and records.

use candid::types::value::IDLValue;
use vstd::prelude::*;

use crate::forms::{
    flat_kind, handle_kind, handle_type, list, pair, record_kind, record_type, target_kind, ADDRESS, ALIAS, BALANCE, CHANGED_HANDS_NS,
    CREATED_NS, DEPLOYER, FLAT, LAPSED_NS, NAME, OWNER, PREVIOUS_TARGET, PRICE, SETTLED_NS, TARGET,
    TEXT, UPDATED_NS,
};
use crate::idl::{
    all_read, candid_bytes, candid_in, compound_value, datum_of, decode, encode, fields_from,
    fields_of, fits, items_of, list_read, list_value, nat64_from, nat64_value, nat_from,
    nat_value, opt_read, opt_value, optional, principal_from, principal_value, read_fields,
    read_list, read_nat, read_nat64, read_opt, read_principal, read_text, read_variant,
    record_value, text_from, text_value, Compound, Datum, Kind,
};
use crate::maps::Stored;
use crate::principal::{Principal, MAX_PRINCIPAL};
use crate::record::{Handle, HandleState, Record, RecordState, Target, TargetState};
use crate::tax::Harberger;
use crate::text::{pairs, same_text, seen};

verus! {

// --- targets ----------------------------------------------------------------------

/// A target in candid.
pub open spec fn target_datum(t: TargetState) -> Datum {
    match t {
        TargetState::Address(p) => Datum::Variant(ADDRESS, Box::new(Datum::Principal(p))),
        TargetState::Alias(n) => Datum::Variant(ALIAS, Box::new(Datum::Text(n))),
    }
}

/// An optional target in candid.
pub open spec fn previous_datum(t: Option<TargetState>) -> Datum {
    optional(
        match t {
            Some(t) => Some(target_datum(t)),
            None => None,
        },
    )
}

/// The target that a value is, if it is one.
pub open spec fn target_from(d: Datum) -> Option<TargetState> {
    match d {
        Datum::Variant(id, x) => if id == ADDRESS {
            match principal_from(*x) {
                Some(p) => Some(TargetState::Address(p)),
                None => None,
            }
        } else if id == ALIAS {
            match text_from(*x) {
                Some(n) => Some(TargetState::Alias(n)),
                None => None,
            }
        } else {
            None
        },
        _ => None,
    }
}

/// Whether the principals in a target fit.
pub open spec fn target_fits(t: TargetState) -> bool {
    t matches TargetState::Address(p) ==> p.len() <= MAX_PRINCIPAL
}

/// A target in candid has the type of targets and reads as the target.
proof fn lemma_target(t: TargetState)
    requires
        target_fits(t),
    ensures
        fits(target_datum(t), target_kind()),
        target_from(target_datum(t)) == Some(t),
{
    reveal_with_fuel(fits, 2);
    let ts = target_kind()->Variant_0;
    assert(ts[0].0 == ALIAS && ts[1].0 == ADDRESS);
}

/// Put a target in candid.
fn target_value(t: &Target) -> (r: IDLValue)
    ensures
        datum_of(r) == target_datum(t@),
        target_fits(t@),
{
    match t {
        Target::Address(p) => {
            p.bounded();
            compound_value(Compound::Variant(ADDRESS, principal_value(p)))
        },
        Target::Alias(n) => compound_value(Compound::Variant(ALIAS, text_value(n.as_str()))),
    }
}

/// Read a target.
fn read_target(v: &IDLValue) -> (r: Option<Target>)
    ensures
        seen(r) == target_from(datum_of(*v)),
{
    match read_variant(v) {
        Some((id, x)) => if id == ADDRESS {
            match read_principal(&x) {
                Some(p) => Some(Target::Address(p)),
                None => None,
            }
        } else if id == ALIAS {
            match read_text(&x) {
                Some(n) => Some(Target::Alias(n)),
                None => None,
            }
        } else {
            None
        },
        None => None,
    }
}

// --- holdings ---------------------------------------------------------------------

/// A holding in candid.
pub open spec fn flat_datum(h: Harberger) -> Datum {
    Datum::Record(
        seq![
            (BALANCE, Datum::Nat(h.balance as nat)),
            (
                LAPSED_NS,
                optional(
                    match h.lapsed_ns {
                        Some(t) => Some(Datum::Nat64(t)),
                        None => None,
                    },
                ),
            ),
            (PRICE, Datum::Nat(h.price as nat)),
            (SETTLED_NS, Datum::Nat64(h.settled_ns)),
        ],
    )
}

/// The ids of a holding's fields.
pub open spec fn flat_ids() -> Seq<u32> {
    seq![BALANCE, LAPSED_NS, PRICE, SETTLED_NS]
}

/// The holding that a value is, if it is one.
pub open spec fn flat_from(d: Datum) -> Option<Harberger> {
    match fields_from(d, flat_ids()) {
        Some(f) => {
            let balance = nat_from(f[0]);
            let lapsed = opt_read(f[1], |x: Datum| nat64_from(x));
            let price = nat_from(f[2]);
            let settled = nat64_from(f[3]);
            if balance is Some && lapsed is Some && price is Some && settled is Some {
                Some(
                    Harberger {
                        price: price->0,
                        balance: balance->0,
                        settled_ns: settled->0,
                        lapsed_ns: lapsed->0,
                    },
                )
            } else {
                None
            }
        },
        None => None,
    }
}

/// A holding in candid has the type of holdings and reads as the holding.
proof fn lemma_flat(h: Harberger)
    ensures
        fits(flat_datum(h), flat_kind()),
        flat_from(flat_datum(h)) == Some(h),
{
    reveal_with_fuel(fits, 3);
    let fs = flat_datum(h)->Record_0;
    assert(fs.map_values(|f: (u32, Datum)| f.0) =~= flat_ids());
}

/// Put a holding in candid.
fn flat_value(h: &Harberger) -> (r: IDLValue)
    ensures
        datum_of(r) == flat_datum(*h),
{
    let lapsed = opt_value(
        match h.lapsed_ns {
            Some(t) => Some(nat64_value(t)),
            None => None,
        },
    );
    let fs: Vec<(u32, IDLValue)> = vec![
        (BALANCE, nat_value(h.balance)),
        (LAPSED_NS, lapsed),
        (PRICE, nat_value(h.price)),
        (SETTLED_NS, nat64_value(h.settled_ns)),
    ];
    assert(fields_of(fs@) =~= flat_datum(*h)->Record_0);
    record_value(fs)
}

/// Read a holding.
fn read_flat(v: &IDLValue) -> (r: Option<Harberger>)
    ensures
        r == flat_from(datum_of(*v)),
{
    let ids: Vec<u32> = vec![BALANCE, LAPSED_NS, PRICE, SETTLED_NS];
    assert(ids@ =~= flat_ids());
    let f = match read_fields(v, &ids) {
        Some(f) => f,
        None => {
            return None;
        },
    };
    let lapsed_ns: Option<u64> = match read_opt(&f[1]) {
        Some(Some(x)) => match read_nat64(&x) {
            Some(t) => Some(t),
            None => {
                return None;
            },
        },
        Some(None) => None,
        None => {
            return None;
        },
    };
    match (read_nat(&f[0]), read_nat(&f[2]), read_nat64(&f[3])) {
        (Some(balance), Some(price), Some(settled_ns)) => Some(
            Harberger { price, balance, settled_ns, lapsed_ns },
        ),
        _ => None,
    }
}

// --- text records -----------------------------------------------------------------

/// A key and its text in candid.
pub open spec fn pair_datum(e: (Seq<char>, Seq<char>)) -> Datum {
    Datum::Record(seq![(0u32, Datum::Text(e.0)), (1u32, Datum::Text(e.1))])
}

/// The key and the text that a value is, if it is such a pair.
pub open spec fn pair_from(d: Datum) -> Option<(Seq<char>, Seq<char>)> {
    match fields_from(d, seq![0u32, 1u32]) {
        Some(f) => match (text_from(f[0]), text_from(f[1])) {
            (Some(k), Some(t)) => Some((k, t)),
            _ => None,
        },
        None => None,
    }
}

/// Text records in candid.
pub open spec fn text_datum(text: Seq<(Seq<char>, Seq<char>)>) -> Datum {
    Datum::List(text.map_values(|e: (Seq<char>, Seq<char>)| pair_datum(e)))
}

/// Text records in candid have their type and read as the text records.
proof fn lemma_text(text: Seq<(Seq<char>, Seq<char>)>)
    ensures
        fits(text_datum(text), list(pair(Kind::Text, Kind::Text))),
        list_read(text_datum(text), |x: Datum| pair_from(x)) == Some(text),
{
    reveal_with_fuel(fits, 3);
    let xs = text_datum(text)->List_0;
    let read = |x: Datum| pair_from(x);
    assert forall|i: int| 0 <= i < xs.len() implies read(#[trigger] xs[i]) == Some(text[i]) by {
        let fs = pair_datum(text[i])->Record_0;
        assert(xs[i] == pair_datum(text[i]));
        assert(fs.map_values(|f: (u32, Datum)| f.0) =~= seq![0u32, 1u32]);
    }
    assert(all_read(xs, read)->0 =~= text);
}

/// Put text records in candid.
fn text_values(text: &Vec<(String, String)>) -> (r: IDLValue)
    ensures
        datum_of(r) == text_datum(pairs(text@)),
{
    let mut vs: Vec<IDLValue> = Vec::new();
    let ghost want = text_datum(pairs(text@))->List_0;
    let mut i: usize = 0;
    assert(items_of(vs@) =~= want.take(0));
    while i < text.len()
        invariant
            i <= text@.len(),
            want == text_datum(pairs(text@))->List_0,
            items_of(vs@) == want.take(i as int),
        decreases text.len() - i,
    {
        let ghost before = vs@;
        let fs: Vec<(u32, IDLValue)> = vec![
            (0, text_value(text[i].0.as_str())),
            (1, text_value(text[i].1.as_str())),
        ];
        assert(fields_of(fs@) =~= pair_datum(pairs(text@)[i as int])->Record_0);
        vs.push(record_value(fs));
        proof {
            assert(items_of(vs@) =~= items_of(before).push(want[i as int]));
            assert(want.take(i + 1) =~= want.take(i as int).push(want[i as int]));
        }
        i += 1;
    }
    assert(want.take(i as int) =~= want);
    list_value(vs)
}

/// Read text records.
fn read_pairs(v: &IDLValue) -> (r: Option<Vec<(String, String)>>)
    ensures
        r is Some <==> list_read(datum_of(*v), |x: Datum| pair_from(x)) is Some,
        r matches Some(text) ==> list_read(datum_of(*v), |x: Datum| pair_from(x)) == Some(
            pairs(text@),
        ),
{
    let vs = match read_list(v) {
        Some(vs) => vs,
        None => {
            return None;
        },
    };
    let ghost xs = items_of(vs@);
    let ghost read = |x: Datum| pair_from(x);
    let ids: Vec<u32> = vec![0, 1];
    let mut text: Vec<(String, String)> = Vec::new();
    let mut i: usize = 0;
    while i < vs.len()
        invariant
            i <= vs@.len(),
            ids@ == seq![0u32, 1u32],
            xs == items_of(vs@),
            read == (|x: Datum| pair_from(x)),
            list_read(datum_of(*v), read) == all_read(xs, read),
            text@.len() == i,
            forall|j: int| 0 <= j < i ==> read(#[trigger] xs[j]) == Some(pairs(text@)[j]),
        decreases vs.len() - i,
    {
        let ghost before = text@;
        assert(xs[i as int] == datum_of(vs@[i as int]));
        let (k, t) = match read_fields(&vs[i], &ids) {
            Some(f) => match (read_text(&f[0]), read_text(&f[1])) {
                (Some(k), Some(t)) => (k, t),
                _ => {
                    assert(read(xs[i as int]) is None);
                    return None;
                },
            },
            None => {
                assert(read(xs[i as int]) is None);
                return None;
            },
        };
        text.push((k, t));
        assert(pairs(text@) =~= pairs(before).push((k@, t@)));
        i += 1;
    }
    assert(all_read(xs, read)->0 =~= pairs(text@));
    Some(text)
}

// --- records ----------------------------------------------------------------------

/// Whether every principal in a record fits.
pub open spec fn record_fits(r: RecordState) -> bool {
    &&& r.owner.len() <= MAX_PRINCIPAL
    &&& target_fits(r.target)
    &&& r.previous_target matches Some(t) ==> target_fits(t)
}

/// A record in candid.
pub open spec fn record_datum(r: RecordState) -> Datum {
    Datum::Record(
        seq![
            (UPDATED_NS, Datum::Nat64(r.updated_ns)),
            (OWNER, Datum::Principal(r.owner)),
            (
                FLAT,
                optional(
                    match r.flat {
                        Some(h) => Some(flat_datum(h)),
                        None => None,
                    },
                ),
            ),
            (NAME, Datum::Text(r.name)),
            (TEXT, text_datum(r.text)),
            (CREATED_NS, Datum::Nat64(r.created_ns)),
            (TARGET, target_datum(r.target)),
            (CHANGED_HANDS_NS, Datum::Nat64(r.changed_hands_ns)),
            (PREVIOUS_TARGET, previous_datum(r.previous_target)),
        ],
    )
}

/// The ids of a record's fields.
pub open spec fn record_ids() -> Seq<u32> {
    seq![
        UPDATED_NS,
        OWNER,
        FLAT,
        NAME,
        TEXT,
        CREATED_NS,
        TARGET,
        CHANGED_HANDS_NS,
        PREVIOUS_TARGET,
    ]
}

/// The record that a value is, if it is one.
pub open spec fn record_from(d: Datum) -> Option<RecordState> {
    match fields_from(d, record_ids()) {
        Some(f) => {
            let updated = nat64_from(f[0]);
            let owner = principal_from(f[1]);
            let flat = opt_read(f[2], |x: Datum| flat_from(x));
            let name = text_from(f[3]);
            let text = list_read(f[4], |x: Datum| pair_from(x));
            let created = nat64_from(f[5]);
            let target = target_from(f[6]);
            let changed = nat64_from(f[7]);
            let previous = opt_read(f[8], |x: Datum| target_from(x));
            if updated is Some && owner is Some && flat is Some && name is Some && text is Some
                && created is Some && target is Some && changed is Some && previous is Some {
                Some(
                    RecordState {
                        name: name->0,
                        owner: owner->0,
                        target: target->0,
                        previous_target: previous->0,
                        text: text->0,
                        created_ns: created->0,
                        updated_ns: updated->0,
                        changed_hands_ns: changed->0,
                        flat: flat->0,
                    },
                )
            } else {
                None
            }
        },
        None => None,
    }
}

/// A record in candid has the type of records and reads as the record.
proof fn lemma_record(r: RecordState)
    requires
        record_fits(r),
    ensures
        fits(record_datum(r), record_kind()),
        record_from(record_datum(r)) == Some(r),
{
    reveal_with_fuel(fits, 2);
    let fs = record_datum(r)->Record_0;
    assert(fs.map_values(|f: (u32, Datum)| f.0) =~= record_ids());
    if let Some(h) = r.flat {
        lemma_flat(h);
    }
    lemma_text(r.text);
    lemma_target(r.target);
    if let Some(t) = r.previous_target {
        lemma_target(t);
    }
}

/// The record stored in `bytes`, if they store one.
pub open spec fn record_in(bytes: Seq<u8>) -> Option<RecordState> {
    match candid_in(bytes, record_kind()) {
        Some(d) => record_from(d),
        None => None,
    }
}

impl Record {
    /// Put a record in candid.
    fn to_value(&self) -> (r: IDLValue)
        ensures
            datum_of(r) == record_datum(self@),
            record_fits(self@),
    {
        self.owner.bounded();
        let flat = opt_value(
            match &self.flat {
                Some(h) => Some(flat_value(h)),
                None => None,
            },
        );
        let previous = opt_value(
            match &self.previous_target {
                Some(t) => Some(target_value(t)),
                None => None,
            },
        );
        let fs: Vec<(u32, IDLValue)> = vec![
            (UPDATED_NS, nat64_value(self.updated_ns)),
            (OWNER, principal_value(&self.owner)),
            (FLAT, flat),
            (NAME, text_value(self.name.as_str())),
            (TEXT, text_values(&self.text)),
            (CREATED_NS, nat64_value(self.created_ns)),
            (TARGET, target_value(&self.target)),
            (CHANGED_HANDS_NS, nat64_value(self.changed_hands_ns)),
            (PREVIOUS_TARGET, previous),
        ];
        assert(fields_of(fs@) =~= record_datum(self@)->Record_0);
        record_value(fs)
    }

    /// Read a record.
    fn from_value(v: &IDLValue) -> (r: Option<Record>)
        ensures
            seen(r) == record_from(datum_of(*v)),
    {
        let ids: Vec<u32> = vec![
            UPDATED_NS,
            OWNER,
            FLAT,
            NAME,
            TEXT,
            CREATED_NS,
            TARGET,
            CHANGED_HANDS_NS,
            PREVIOUS_TARGET,
        ];
        assert(ids@ =~= record_ids());
        let f = match read_fields(v, &ids) {
            Some(f) => f,
            None => {
                return None;
            },
        };
        let flat: Option<Harberger> = match read_opt(&f[2]) {
            Some(Some(x)) => match read_flat(&x) {
                Some(h) => Some(h),
                None => {
                    return None;
                },
            },
            Some(None) => None,
            None => {
                return None;
            },
        };
        let previous_target: Option<Target> = match read_opt(&f[8]) {
            Some(Some(x)) => match read_target(&x) {
                Some(t) => Some(t),
                None => {
                    return None;
                },
            },
            Some(None) => None,
            None => {
                return None;
            },
        };
        let (updated_ns, created_ns, changed_hands_ns): (u64, u64, u64) = match (
            read_nat64(&f[0]),
            read_nat64(&f[5]),
            read_nat64(&f[7]),
        ) {
            (Some(u), Some(c), Some(h)) => (u, c, h),
            _ => {
                return None;
            },
        };
        match (read_text(&f[3]), read_principal(&f[1]), read_target(&f[6]), read_pairs(&f[4])) {
            (Some(name), Some(owner), Some(target), Some(text)) => Some(
                Record {
                    name,
                    owner,
                    target,
                    previous_target,
                    text,
                    created_ns,
                    updated_ns,
                    changed_hands_ns,
                    flat,
                },
            ),
            _ => None,
        }
    }

    /// The stored form: the record in candid.
    pub fn to_bytes(&self) -> (r: Vec<u8>)
        ensures
            r@ == candid_bytes(record_datum(self@), record_kind()),
            record_in(r@) == Some(self@),
    {
        let v = self.to_value();
        proof {
            lemma_record(self@);
        }
        encode(v, record_type())
    }

    /// Read the stored form, None where the bytes hold no record.
    pub fn from_bytes(bytes: &Vec<u8>) -> (r: Option<Record>)
        ensures
            seen(r) == record_in(bytes@),
    {
        match decode(bytes, record_type()) {
            Some(v) => Record::from_value(&v),
            None => None,
        }
    }
}

// --- handles ----------------------------------------------------------------------

/// An optional principal in candid.
pub open spec fn deployer_datum(o: Option<Seq<u8>>) -> Datum {
    optional(
        match o {
            Some(p) => Some(Datum::Principal(p)),
            None => None,
        },
    )
}

/// A handle in candid.
pub open spec fn handle_datum(h: HandleState) -> Datum {
    Datum::Record(
        seq![(DEPLOYER, deployer_datum(h.deployer)), (OWNER, Datum::Principal(h.owner))],
    )
}

/// The handle that a value is, if it is one.
pub open spec fn handle_from(d: Datum) -> Option<HandleState> {
    match fields_from(d, seq![DEPLOYER, OWNER]) {
        Some(f) => match (opt_read(f[0], |x: Datum| principal_from(x)), principal_from(f[1])) {
            (Some(deployer), Some(owner)) => Some(HandleState { owner, deployer }),
            _ => None,
        },
        None => None,
    }
}

/// The handle stored in `bytes`, if they store one.
pub open spec fn handle_in(bytes: Seq<u8>) -> Option<HandleState> {
    match candid_in(bytes, handle_kind()) {
        Some(d) => handle_from(d),
        None => None,
    }
}

/// A handle in candid has the type of handles and reads as the handle.
proof fn lemma_handle(h: HandleState)
    requires
        h.owner.len() <= MAX_PRINCIPAL,
        h.deployer matches Some(d) ==> d.len() <= MAX_PRINCIPAL,
    ensures
        fits(handle_datum(h), handle_kind()),
        handle_from(handle_datum(h)) == Some(h),
{
    reveal_with_fuel(fits, 3);
    let fs = handle_datum(h)->Record_0;
    assert(fs.map_values(|f: (u32, Datum)| f.0) =~= seq![DEPLOYER, OWNER]);
}

impl Handle {
    /// The stored form: the handle in candid.
    pub fn to_bytes(&self) -> (r: Vec<u8>)
        ensures
            r@ == candid_bytes(handle_datum(self@), handle_kind()),
            handle_in(r@) == Some(self@),
    {
        self.owner.bounded();
        let deployer = opt_value(
            match &self.deployer {
                Some(d) => {
                    d.bounded();
                    Some(principal_value(d))
                },
                None => None,
            },
        );
        let fs: Vec<(u32, IDLValue)> = vec![
            (DEPLOYER, deployer),
            (OWNER, principal_value(&self.owner)),
        ];
        proof {
            assert(fields_of(fs@) =~= handle_datum(self@)->Record_0);
            lemma_handle(self@);
        }
        encode(record_value(fs), handle_type())
    }

    /// Read the stored form, None where the bytes hold no handle.
    pub fn from_bytes(bytes: &Vec<u8>) -> (r: Option<Handle>)
        ensures
            seen(r) == handle_in(bytes@),
    {
        let v = match decode(bytes, handle_type()) {
            Some(v) => v,
            None => {
                return None;
            },
        };
        let ids: Vec<u32> = vec![DEPLOYER, OWNER];
        assert(ids@ =~= seq![DEPLOYER, OWNER]);
        let f = match read_fields(&v, &ids) {
            Some(f) => f,
            None => {
                return None;
            },
        };
        let deployer: Option<Principal> = match read_opt(&f[0]) {
            Some(Some(x)) => match read_principal(&x) {
                Some(d) => Some(d),
                None => {
                    return None;
                },
            },
            Some(None) => None,
            None => {
                return None;
            },
        };
        match read_principal(&f[1]) {
            Some(owner) => Some(Handle { owner, deployer }),
            None => None,
        }
    }
}

// --- under text keys --------------------------------------------------------------

impl Stored for Record {
    open spec fn stored(bytes: Seq<u8>) -> Option<RecordState> {
        record_in(bytes)
    }

    open spec fn belongs(v: RecordState, key: Seq<char>) -> bool {
        v.name == key
    }

    fn store(&self) -> (r: Vec<u8>) {
        self.to_bytes()
    }

    fn load(bytes: &Vec<u8>) -> (r: Option<Record>) {
        Record::from_bytes(bytes)
    }

    fn fits_key(&self, key: &str) -> (r: bool) {
        same_text(self.name.as_str(), key)
    }
}

impl Stored for Handle {
    open spec fn stored(bytes: Seq<u8>) -> Option<HandleState> {
        handle_in(bytes)
    }

    open spec fn belongs(v: HandleState, key: Seq<char>) -> bool {
        true
    }

    fn store(&self) -> (r: Vec<u8>) {
        self.to_bytes()
    }

    fn load(bytes: &Vec<u8>) -> (r: Option<Handle>) {
        Handle::from_bytes(bytes)
    }

    fn fits_key(&self, key: &str) -> (r: bool) {
        true
    }
}

} // verus!
