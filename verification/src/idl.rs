//! Values in candid: what they hold, the types they have, and their bytes.

use candid::types::value::{IDLArgs, IDLField, IDLValue, VariantValue};
use candid::types::{Field, Label, Type, TypeEnv, TypeInner};
use vstd::prelude::*;
use vstd::slice::slice_to_vec;

use crate::forms::stored_form;
use crate::principal::{Principal, MAX_PRINCIPAL};
use crate::text::seen;

verus! {

// --- what values and types are ----------------------------------------------------

/// What a candid value holds. Fields and variants go by their ids.
#[verifier::ext_equal]
pub enum Datum {
    Bool(bool),
    Text(Seq<char>),
    Principal(Seq<u8>),
    Nat(nat),
    Nat32(u32),
    Nat64(u64),
    Blob(Seq<u8>),
    Nothing,
    Just(Box<Datum>),
    List(Seq<Datum>),
    Record(Seq<(u32, Datum)>),
    Variant(u32, Box<Datum>),
    /// What none of these is.
    Other,
}

/// A candid type. Fields and variants go by their ids.
#[verifier::ext_equal]
pub enum Kind {
    Bool,
    Text,
    Principal,
    Nat,
    Nat32,
    Nat64,
    Blob,
    Opt(Box<Kind>),
    List(Box<Kind>),
    Record(Seq<(u32, Kind)>),
    Variant(Seq<(u32, Kind)>),
}

/// Whether a value has a type: for a record, all the fields of the type in
/// its order.
pub open spec fn fits(d: Datum, k: Kind) -> bool
    decreases d,
{
    match (d, k) {
        (Datum::Bool(_), Kind::Bool) => true,
        (Datum::Text(_), Kind::Text) => true,
        (Datum::Principal(b), Kind::Principal) => b.len() <= MAX_PRINCIPAL,
        (Datum::Nat(_), Kind::Nat) => true,
        (Datum::Nat32(_), Kind::Nat32) => true,
        (Datum::Nat64(_), Kind::Nat64) => true,
        (Datum::Blob(_), Kind::Blob) => true,
        (Datum::Nothing, Kind::Opt(_)) => true,
        (Datum::Just(x), Kind::Opt(t)) => fits(*x, *t),
        (Datum::List(xs), Kind::List(t)) => forall|i: int|
            0 <= i < xs.len() ==> fits(#[trigger] xs[i], *t),
        (Datum::Record(fs), Kind::Record(ts)) => fs.len() == ts.len() && forall|i: int|
            0 <= i < fs.len() ==> (#[trigger] fs[i]).0 == ts[i].0 && fits(fs[i].1, ts[i].1),
        (Datum::Variant(id, x), Kind::Variant(ts)) => exists|i: int|
            0 <= i < ts.len() && (#[trigger] ts[i]).0 == id && fits(*x, ts[i].1),
        _ => false,
    }
}

/// Whether a record type lacks a field that another one cannot do without.
pub open spec fn lacks(written: Kind, wanted: Kind) -> bool {
    &&& written matches Kind::Record(has)
    &&& wanted matches Kind::Record(wants)
    &&& exists|i: int|
        0 <= i < wants.len() && !((#[trigger] wants[i]).1 is Opt) && forall|j: int|
            0 <= j < has.len() ==> (#[trigger] has[j]).0 != wants[i].0
}

/// Ids in ascending order.
pub open spec fn ascending(ids: Seq<u32>) -> bool {
    forall|i: int, j: int| 0 <= i < j < ids.len() ==> ids[i] < ids[j]
}

// --- candid's own values and types ------------------------------------------------

/// `candid::types::value::IDLValue`, a value of any type.
#[verifier::external_type_specification]
#[verifier::external_body]
pub struct ExValue(IDLValue);

/// `candid::types::Type`, a type.
#[verifier::external_type_specification]
#[verifier::external_body]
pub struct ExType(Type);

/// What a value holds.
pub uninterp spec fn datum_of(v: IDLValue) -> Datum;

/// Which type a type is.
pub uninterp spec fn kind_of(t: Type) -> Kind;

/// What several values hold.
pub open spec fn items_of(s: Seq<IDLValue>) -> Seq<Datum> {
    s.map_values(|v: IDLValue| datum_of(v))
}

/// What the fields of a record hold.
pub open spec fn fields_of(s: Seq<(u32, IDLValue)>) -> Seq<(u32, Datum)> {
    s.map_values(|f: (u32, IDLValue)| (f.0, datum_of(f.1)))
}

/// The types of fields.
pub open spec fn kinds_of(s: Seq<(u32, Type)>) -> Seq<(u32, Kind)> {
    s.map_values(|f: (u32, Type)| (f.0, kind_of(f.1)))
}

/// The ids of fields.
pub open spec fn ids_of(s: Seq<(u32, Type)>) -> Seq<u32> {
    s.map_values(|f: (u32, Type)| f.0)
}

/// A value without values inside.
pub enum Scalar {
    Bool(bool),
    Text(String),
    Principal(Vec<u8>),
    Nat(u128),
    Nat32(u32),
    Nat64(u64),
    Blob(Vec<u8>),
}

impl Scalar {
    /// What it holds.
    pub open spec fn datum(self) -> Datum {
        match self {
            Scalar::Bool(b) => Datum::Bool(b),
            Scalar::Text(t) => Datum::Text(t@),
            Scalar::Principal(b) => Datum::Principal(b@),
            Scalar::Nat(n) => Datum::Nat(n as nat),
            Scalar::Nat32(n) => Datum::Nat32(n),
            Scalar::Nat64(n) => Datum::Nat64(n),
            Scalar::Blob(b) => Datum::Blob(b@),
        }
    }
}

/// A value with values inside.
pub enum Compound {
    Nothing,
    Just(IDLValue),
    List(Vec<IDLValue>),
    Record(Vec<(u32, IDLValue)>),
    Variant(u32, IDLValue),
}

impl Compound {
    /// What it holds.
    pub open spec fn datum(self) -> Datum {
        match self {
            Compound::Nothing => Datum::Nothing,
            Compound::Just(v) => Datum::Just(Box::new(datum_of(v))),
            Compound::List(vs) => Datum::List(items_of(vs@)),
            Compound::Record(fs) => Datum::Record(fields_of(fs@)),
            Compound::Variant(id, v) => Datum::Variant(id, Box::new(datum_of(v))),
        }
    }
}

/// A type without types inside.
#[derive(Clone, Copy)]
pub enum ScalarType {
    Bool,
    Text,
    Principal,
    Nat,
    Nat32,
    Nat64,
    Blob,
}

impl ScalarType {
    /// Which type it is.
    pub open spec fn kind(self) -> Kind {
        match self {
            ScalarType::Bool => Kind::Bool,
            ScalarType::Text => Kind::Text,
            ScalarType::Principal => Kind::Principal,
            ScalarType::Nat => Kind::Nat,
            ScalarType::Nat32 => Kind::Nat32,
            ScalarType::Nat64 => Kind::Nat64,
            ScalarType::Blob => Kind::Blob,
        }
    }
}

/// A type with types inside.
pub enum CompoundType {
    Opt(Type),
    List(Type),
    Record(Vec<(u32, Type)>),
    Variant(Vec<(u32, Type)>),
}

impl CompoundType {
    /// Which type it is.
    pub open spec fn kind(self) -> Kind {
        match self {
            CompoundType::Opt(t) => Kind::Opt(Box::new(kind_of(t))),
            CompoundType::List(t) => Kind::List(Box::new(kind_of(t))),
            CompoundType::Record(fs) => Kind::Record(kinds_of(fs@)),
            CompoundType::Variant(fs) => Kind::Variant(kinds_of(fs@)),
        }
    }

    /// Whether the fields stand in the order that candid keeps them in.
    pub open spec fn ordered(self) -> bool {
        match self {
            CompoundType::Record(fs) => ascending(ids_of(fs@)),
            CompoundType::Variant(fs) => ascending(ids_of(fs@)),
            _ => true,
        }
    }
}

/// The `IDLValue` of candid for a value without values inside, variant for
/// variant.
#[verifier::external_body]
pub(crate) fn scalar_value(s: Scalar) -> (r: IDLValue)
    requires
        s matches Scalar::Principal(b) ==> b@.len() <= MAX_PRINCIPAL,
    ensures
        datum_of(r) == s.datum(),
{
    match s {
        Scalar::Bool(b) => IDLValue::Bool(b),
        Scalar::Text(t) => IDLValue::Text(t),
        Scalar::Principal(b) => IDLValue::Principal(candid::Principal::from_slice(&b)),
        Scalar::Nat(n) => IDLValue::Nat(n.into()),
        Scalar::Nat32(n) => IDLValue::Nat32(n),
        Scalar::Nat64(n) => IDLValue::Nat64(n),
        Scalar::Blob(b) => IDLValue::Blob(b),
    }
}

/// Whether a value has no values inside and, if it is a number, is not too
/// large for this library.
pub open spec fn plain(d: Datum) -> bool {
    match d {
        Datum::Bool(_) => true,
        Datum::Text(_) => true,
        Datum::Principal(_) => true,
        Datum::Nat(n) => n <= u128::MAX,
        Datum::Nat32(_) => true,
        Datum::Nat64(_) => true,
        Datum::Blob(_) => true,
        _ => false,
    }
}

/// The variants of candid's `IDLValue` without values inside, variant for
/// variant; None for the others and for a number that `u128` has no room
/// for.
#[verifier::external_body]
fn scalar_of(v: &IDLValue) -> (r: Option<Scalar>)
    ensures
        r is Some <==> plain(datum_of(*v)),
        r matches Some(s) ==> s.datum() == datum_of(*v),
{
    Some(match v {
        IDLValue::Bool(b) => Scalar::Bool(*b),
        IDLValue::Text(t) => Scalar::Text(t.clone()),
        IDLValue::Principal(p) => Scalar::Principal(p.as_slice().to_vec()),
        IDLValue::Nat(n) => Scalar::Nat(u128::try_from(&n.0).ok()?),
        IDLValue::Nat32(n) => Scalar::Nat32(*n),
        IDLValue::Nat64(n) => Scalar::Nat64(*n),
        IDLValue::Blob(b) => Scalar::Blob(b.clone()),
        _ => return None,
    })
}

/// The `IDLValue` of candid for a value with values inside, variant for
/// variant, each field under its id.
#[verifier::external_body]
pub(crate) fn compound_value(c: Compound) -> (r: IDLValue)
    ensures
        datum_of(r) == c.datum(),
{
    match c {
        Compound::Nothing => IDLValue::None,
        Compound::Just(v) => IDLValue::Opt(Box::new(v)),
        Compound::List(vs) => IDLValue::Vec(vs),
        Compound::Record(fs) => IDLValue::Record(
            fs.into_iter().map(|(id, val)| IDLField { id: Label::Id(id), val }).collect(),
        ),
        Compound::Variant(id, val) => IDLValue::Variant(
            VariantValue(Box::new(IDLField { id: Label::Id(id), val }), 0),
        ),
    }
}

/// Whether a value has values inside.
pub open spec fn composed(d: Datum) -> bool {
    match d {
        Datum::Nothing => true,
        Datum::Just(_) => true,
        Datum::List(_) => true,
        Datum::Record(_) => true,
        Datum::Variant(_, _) => true,
        _ => false,
    }
}

/// The variants of candid's `IDLValue` with values inside, variant for
/// variant, each field with its id; None for the others.
#[verifier::external_body]
fn compound_of(v: &IDLValue) -> (r: Option<Compound>)
    ensures
        r is Some <==> composed(datum_of(*v)),
        r matches Some(c) ==> c.datum() == datum_of(*v),
{
    Some(match v {
        IDLValue::None => Compound::Nothing,
        IDLValue::Opt(v) => Compound::Just((**v).clone()),
        IDLValue::Vec(vs) => Compound::List(vs.clone()),
        IDLValue::Record(fs) => Compound::Record(
            fs.iter().map(|f| (f.id.get_id(), f.val.clone())).collect(),
        ),
        IDLValue::Variant(x) => Compound::Variant(x.0.id.get_id(), x.0.val.clone()),
        _ => return None,
    })
}

/// The `Type` of candid without types inside, variant for variant; bytes
/// are a `vec nat8`.
#[verifier::external_body]
pub(crate) fn scalar_type(s: ScalarType) -> (r: Type)
    ensures
        kind_of(r) == s.kind(),
{
    match s {
        ScalarType::Bool => TypeInner::Bool.into(),
        ScalarType::Text => TypeInner::Text.into(),
        ScalarType::Principal => TypeInner::Principal.into(),
        ScalarType::Nat => TypeInner::Nat.into(),
        ScalarType::Nat32 => TypeInner::Nat32.into(),
        ScalarType::Nat64 => TypeInner::Nat64.into(),
        ScalarType::Blob => TypeInner::Vec(TypeInner::Nat8.into()).into(),
    }
}

/// The `Type` of candid with types inside, variant for variant, each field
/// under its id.
#[verifier::external_body]
pub(crate) fn compound_type(c: CompoundType) -> (r: Type)
    requires
        c.ordered(),
    ensures
        kind_of(r) == c.kind(),
{
    let field = |(id, ty): (u32, Type)| Field { id: Label::Id(id).into(), ty };
    match c {
        CompoundType::Opt(t) => TypeInner::Opt(t).into(),
        CompoundType::List(t) => TypeInner::Vec(t).into(),
        CompoundType::Record(fs) => TypeInner::Record(fs.into_iter().map(field).collect()).into(),
        CompoundType::Variant(fs) => TypeInner::Variant(fs.into_iter().map(field).collect()).into(),
    }
}

// --- bytes ------------------------------------------------------------------------

/// The bytes that candid writes for a value of a type.
pub uninterp spec fn candid_bytes(d: Datum, k: Kind) -> Seq<u8>;

/// The value of a type that candid reads from bytes, if it reads one.
pub uninterp spec fn candid_in(bytes: Seq<u8>, k: Kind) -> Option<Datum>;

/// `IDLArgs::to_bytes_with_types` on one value. Reading the bytes at the
/// type gives the value back; reading them at a record type with a field
/// that is neither written nor optional fails.
#[verifier::external_body]
pub(crate) fn encode(v: IDLValue, t: Type) -> (r: Vec<u8>)
    requires
        stored_form(kind_of(t)),
        fits(datum_of(v), kind_of(t)),
    ensures
        r@ == candid_bytes(datum_of(v), kind_of(t)),
        candid_in(r@, kind_of(t)) == Some(datum_of(v)),
        forall|k: Kind| lacks(kind_of(t), k) ==> #[trigger] candid_in(r@, k) is None,
{
    IDLArgs::new(&[v]).to_bytes_with_types(&TypeEnv::new(), &[t]).expect("a value of the type")
}

/// `IDLArgs::from_bytes_with_types` for one value, None where it fails. On a
/// native machine the reader also gives up when the stack is nearly used up,
/// as with any memory that runs out; that case is left aside.
#[verifier::external_body]
pub(crate) fn decode(bytes: &Vec<u8>, t: Type) -> (r: Option<IDLValue>)
    requires
        stored_form(kind_of(t)),
    ensures
        r is Some <==> candid_in(bytes@, kind_of(t)) is Some,
        r matches Some(v) ==> candid_in(bytes@, kind_of(t)) == Some(datum_of(v)),
{
    IDLArgs::from_bytes_with_types(bytes, &TypeEnv::new(), &[t]).ok()?.args.pop()
}

// --- values made ------------------------------------------------------------------

/// A text.
pub(crate) fn text_value(s: &str) -> (r: IDLValue)
    ensures
        datum_of(r) == Datum::Text(s@),
{
    scalar_value(Scalar::Text(s.to_string()))
}

/// A principal.
pub(crate) fn principal_value(p: &Principal) -> (r: IDLValue)
    ensures
        datum_of(r) == Datum::Principal(p@),
{
    p.bounded();
    scalar_value(Scalar::Principal(p.to_vec()))
}

/// Bytes.
pub(crate) fn blob_value(b: &[u8]) -> (r: IDLValue)
    ensures
        datum_of(r) == Datum::Blob(b@),
{
    scalar_value(Scalar::Blob(slice_to_vec(b)))
}

/// A number of any size.
pub(crate) fn nat_value(n: u128) -> (r: IDLValue)
    ensures
        datum_of(r) == Datum::Nat(n as nat),
{
    scalar_value(Scalar::Nat(n))
}

/// A number of 64 bits.
pub(crate) fn nat64_value(n: u64) -> (r: IDLValue)
    ensures
        datum_of(r) == Datum::Nat64(n),
{
    scalar_value(Scalar::Nat64(n))
}

/// What an optional value is.
pub open spec fn optional(d: Option<Datum>) -> Datum {
    match d {
        Some(d) => Datum::Just(Box::new(d)),
        None => Datum::Nothing,
    }
}

/// What a value may hold.
pub open spec fn held(v: Option<IDLValue>) -> Option<Datum> {
    match v {
        Some(v) => Some(datum_of(v)),
        None => None,
    }
}

/// An optional value.
pub(crate) fn opt_value(v: Option<IDLValue>) -> (r: IDLValue)
    ensures
        datum_of(r) == optional(held(v)),
{
    match v {
        Some(v) => compound_value(Compound::Just(v)),
        None => compound_value(Compound::Nothing),
    }
}

/// A list.
pub(crate) fn list_value(vs: Vec<IDLValue>) -> (r: IDLValue)
    ensures
        datum_of(r) == Datum::List(items_of(vs@)),
{
    compound_value(Compound::List(vs))
}

/// A record.
pub(crate) fn record_value(fs: Vec<(u32, IDLValue)>) -> (r: IDLValue)
    ensures
        datum_of(r) == Datum::Record(fields_of(fs@)),
{
    compound_value(Compound::Record(fs))
}

// --- values read ------------------------------------------------------------------

/// The text that a value is.
pub open spec fn text_from(d: Datum) -> Option<Seq<char>> {
    match d {
        Datum::Text(s) => Some(s),
        _ => None,
    }
}

/// The principal that a value is.
pub open spec fn principal_from(d: Datum) -> Option<Seq<u8>> {
    match d {
        Datum::Principal(b) => if b.len() <= MAX_PRINCIPAL {
            Some(b)
        } else {
            None
        },
        _ => None,
    }
}

/// The bytes that a value is.
pub open spec fn blob_from(d: Datum) -> Option<Seq<u8>> {
    match d {
        Datum::Blob(b) => Some(b),
        _ => None,
    }
}

/// The number that a value is, where `u128` has room for it.
pub open spec fn nat_from(d: Datum) -> Option<u128> {
    match d {
        Datum::Nat(n) => if n <= u128::MAX {
            Some(n as u128)
        } else {
            None
        },
        _ => None,
    }
}

/// The number of 64 bits that a value is.
pub open spec fn nat64_from(d: Datum) -> Option<u64> {
    match d {
        Datum::Nat64(n) => Some(n),
        _ => None,
    }
}

/// The number of 32 bits that a value is.
pub open spec fn nat32_from(d: Datum) -> Option<u32> {
    match d {
        Datum::Nat32(n) => Some(n),
        _ => None,
    }
}

/// The truth value that a value is.
pub open spec fn bool_from(d: Datum) -> Option<bool> {
    match d {
        Datum::Bool(b) => Some(b),
        _ => None,
    }
}

/// The optional value that a value is.
pub open spec fn opt_from(d: Datum) -> Option<Option<Datum>> {
    match d {
        Datum::Just(x) => Some(Some(*x)),
        Datum::Nothing => Some(None),
        _ => None,
    }
}

/// The optional value that a value is, read as something else.
pub open spec fn opt_read<T>(d: Datum, read: spec_fn(Datum) -> Option<T>) -> Option<Option<T>> {
    match opt_from(d) {
        Some(Some(x)) => match read(x) {
            Some(t) => Some(Some(t)),
            None => None,
        },
        Some(None) => Some(None),
        None => None,
    }
}

/// Values read as something else, if every one of them is.
pub open spec fn all_read<T>(xs: Seq<Datum>, read: spec_fn(Datum) -> Option<T>) -> Option<Seq<T>> {
    if forall|i: int| 0 <= i < xs.len() ==> read(#[trigger] xs[i]) is Some {
        Some(Seq::new(xs.len(), |i: int| read(xs[i])->0))
    } else {
        None
    }
}

/// The list that a value is, its values read as something else.
pub open spec fn list_read<T>(d: Datum, read: spec_fn(Datum) -> Option<T>) -> Option<Seq<T>> {
    match list_from(d) {
        Some(xs) => all_read(xs, read),
        None => None,
    }
}

/// The list that a value is.
pub open spec fn list_from(d: Datum) -> Option<Seq<Datum>> {
    match d {
        Datum::List(xs) => Some(xs),
        _ => None,
    }
}

/// The values in the fields of a record with these ids.
pub open spec fn fields_from(d: Datum, ids: Seq<u32>) -> Option<Seq<Datum>> {
    match d {
        Datum::Record(fs) => if fs.map_values(|f: (u32, Datum)| f.0) == ids {
            Some(fs.map_values(|f: (u32, Datum)| f.1))
        } else {
            None
        },
        _ => None,
    }
}

/// Read a text.
pub(crate) fn read_text(v: &IDLValue) -> (r: Option<String>)
    ensures
        seen(r) == text_from(datum_of(*v)),
{
    match scalar_of(v) {
        Some(Scalar::Text(s)) => Some(s),
        _ => None,
    }
}

/// Read a principal.
pub(crate) fn read_principal(v: &IDLValue) -> (r: Option<Principal>)
    ensures
        seen(r) == principal_from(datum_of(*v)),
{
    match scalar_of(v) {
        Some(Scalar::Principal(b)) => Principal::try_from_slice(b.as_slice()),
        _ => None,
    }
}

/// Read bytes.
pub(crate) fn read_blob(v: &IDLValue) -> (r: Option<Vec<u8>>)
    ensures
        seen(r) == blob_from(datum_of(*v)),
{
    match scalar_of(v) {
        Some(Scalar::Blob(b)) => Some(b),
        _ => None,
    }
}

/// Read a number.
pub(crate) fn read_nat(v: &IDLValue) -> (r: Option<u128>)
    ensures
        r == nat_from(datum_of(*v)),
{
    match scalar_of(v) {
        Some(Scalar::Nat(n)) => Some(n),
        _ => None,
    }
}

/// Read a number of 64 bits.
pub(crate) fn read_nat64(v: &IDLValue) -> (r: Option<u64>)
    ensures
        r == nat64_from(datum_of(*v)),
{
    match scalar_of(v) {
        Some(Scalar::Nat64(n)) => Some(n),
        _ => None,
    }
}

/// Read a number of 32 bits.
pub(crate) fn read_nat32(v: &IDLValue) -> (r: Option<u32>)
    ensures
        r == nat32_from(datum_of(*v)),
{
    match scalar_of(v) {
        Some(Scalar::Nat32(n)) => Some(n),
        _ => None,
    }
}

/// Read a truth value.
pub(crate) fn read_bool(v: &IDLValue) -> (r: Option<bool>)
    ensures
        r == bool_from(datum_of(*v)),
{
    match scalar_of(v) {
        Some(Scalar::Bool(b)) => Some(b),
        _ => None,
    }
}

/// Read an optional value.
pub(crate) fn read_opt(v: &IDLValue) -> (r: Option<Option<IDLValue>>)
    ensures
        r is Some <==> opt_from(datum_of(*v)) is Some,
        r matches Some(o) ==> opt_from(datum_of(*v)) == Some(held(o)),
{
    match compound_of(v) {
        Some(Compound::Just(x)) => Some(Some(x)),
        Some(Compound::Nothing) => Some(None),
        _ => None,
    }
}

/// Read a list.
pub(crate) fn read_list(v: &IDLValue) -> (r: Option<Vec<IDLValue>>)
    ensures
        r is Some <==> list_from(datum_of(*v)) is Some,
        r matches Some(xs) ==> list_from(datum_of(*v)) == Some(items_of(xs@)),
{
    match compound_of(v) {
        Some(Compound::List(xs)) => Some(xs),
        _ => None,
    }
}

/// Read a variant: its id and its value.
pub(crate) fn read_variant(v: &IDLValue) -> (r: Option<(u32, IDLValue)>)
    ensures
        r is Some <==> datum_of(*v) is Variant,
        r matches Some((id, x)) ==> datum_of(*v) == Datum::Variant(id, Box::new(datum_of(x))),
{
    match compound_of(v) {
        Some(Compound::Variant(id, x)) => Some((id, x)),
        _ => None,
    }
}

/// Read the values in the fields of a record with these ids.
pub(crate) fn read_fields(v: &IDLValue, ids: &Vec<u32>) -> (r: Option<Vec<IDLValue>>)
    ensures
        r is Some <==> fields_from(datum_of(*v), ids@) is Some,
        r matches Some(xs) ==> fields_from(datum_of(*v), ids@) == Some(items_of(xs@)) && xs@.len()
            == ids@.len() && forall|i: int|
            0 <= i < xs@.len() ==> items_of(xs@)[i] == datum_of(#[trigger] xs@[i]),
{
    let fs = match compound_of(v) {
        Some(Compound::Record(fs)) => fs,
        _ => {
            return None;
        },
    };
    let ghost want = fields_of(fs@);
    let ghost keys = want.map_values(|f: (u32, Datum)| f.0);
    let ghost values = want.map_values(|f: (u32, Datum)| f.1);
    if fs.len() != ids.len() {
        assert(keys.len() != ids@.len());
        return None;
    }
    let mut left = fs;
    let mut xs: Vec<IDLValue> = Vec::new();
    let mut i: usize = 0;
    while i < ids.len()
        invariant
            i <= ids@.len(),
            datum_of(*v) == Datum::Record(want),
            want == fields_of(fs@),
            fs@.len() == ids@.len(),
            keys == want.map_values(|f: (u32, Datum)| f.0),
            values == want.map_values(|f: (u32, Datum)| f.1),
            left@ == fs@.skip(i as int),
            items_of(xs@) == values.take(i as int),
            keys.take(i as int) == ids@.take(i as int),
        decreases ids.len() - i,
    {
        let (id, x) = left.remove(0);
        if id != ids[i] {
            assert(keys[i as int] != ids@[i as int]);
            return None;
        }
        let ghost before = xs@;
        xs.push(x);
        proof {
            assert(items_of(xs@) =~= items_of(before).push(values[i as int]));
            assert(values.take(i + 1) =~= values.take(i as int).push(values[i as int]));
            assert(keys.take(i + 1) =~= keys.take(i as int).push(keys[i as int]));
            assert(ids@.take(i + 1) =~= ids@.take(i as int).push(ids@[i as int]));
        }
        i += 1;
    }
    proof {
        assert(values.take(i as int) =~= values);
        assert(keys.take(i as int) =~= keys);
        assert(ids@.take(i as int) =~= ids@);
    }
    Some(xs)
}

} // verus!
