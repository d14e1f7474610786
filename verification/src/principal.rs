//! Principals: who calls, owns and is pointed at.

use vstd::prelude::*;
use vstd::slice::slice_to_vec;

use crate::text::{decimal, same_bytes, told};

verus! {

/// The most bytes a principal has.
pub const MAX_PRINCIPAL: usize = 29;

/// A principal by its raw bytes, at most 29 of them.
#[derive(Debug, PartialEq, Eq)]
pub struct Principal {
    bytes: Vec<u8>,
}

impl View for Principal {
    type V = Seq<u8>;

    closed spec fn view(&self) -> Seq<u8> {
        self.bytes@
    }
}

/// The anonymous principal.
pub open spec fn anonymous() -> Seq<u8> {
    seq![4u8]
}

/// The textual form of a principal.
pub uninterp spec fn principal_text(bytes: Seq<u8>) -> Seq<char>;

/// What reading the textual form of a principal gives: its bytes, or why
/// the text is not one.
pub uninterp spec fn principal_read(text: Seq<char>) -> Result<Seq<u8>, Seq<char>>;

/// Whether a text is read as the principal with these bytes.
pub open spec fn reads_as(text: Seq<char>, bytes: Seq<u8>) -> bool {
    principal_read(text) == Ok::<Seq<u8>, Seq<char>>(bytes)
}

/// Whether a text is made of the characters of principals' texts.
pub open spec fn principal_chars(s: Seq<char>) -> bool {
    forall|i: int|
        0 <= i < s.len() ==> ('a' <= #[trigger] s[i] <= 'z' || '2' <= s[i] <= '7' || s[i] == '-')
}

/// `candid::Principal::to_text`: lowercase base32 of a four byte checksum
/// and at most 29 bytes, in groups of five, so at most 63 characters.
/// Reading turns it back into the same bytes.
#[verifier::external_body]
fn text_from_bytes(bytes: &Vec<u8>) -> (r: String)
    requires
        bytes@.len() <= MAX_PRINCIPAL,
    ensures
        r@ == principal_text(bytes@),
        principal_chars(r@),
        r@.len() <= 63,
        reads_as(r@, bytes@),
{
    candid::Principal::from_slice(bytes).to_text()
}

/// `candid::Principal::from_text`: the bytes of a principal, at most 29,
/// or the reason the text is refused.
#[verifier::external_body]
fn bytes_from_text(text: &str) -> (r: Result<Vec<u8>, String>)
    ensures
        told(r) == principal_read(text@),
        r matches Ok(b) ==> b@.len() <= MAX_PRINCIPAL,
{
    candid::Principal::from_text(text).map(|p| p.as_slice().to_vec()).map_err(|e| e.to_string())
}

/// Numbers with a comma and a space between them.
pub open spec fn listed(b: Seq<u8>) -> Seq<char>
    decreases b.len(),
{
    if b.len() == 0 {
        Seq::empty()
    } else if b.len() == 1 {
        decimal(b[0] as nat)
    } else {
        listed(b.drop_last()) + ", "@ + decimal(b.last() as nat)
    }
}

/// How a principal prints for debugging: its length and its buffer of 29
/// bytes, filled up with zeros.
pub open spec fn principal_debug(bytes: Seq<u8>) -> Seq<char> {
    "Principal { len: "@ + decimal(bytes.len()) + ", bytes: ["@ + listed(
        bytes + Seq::new((MAX_PRINCIPAL - bytes.len()) as nat, |i: int| 0u8),
    ) + "] }"@
}

/// `Debug` of `candid::Principal`: the derived form of its two fields, the
/// length and the buffer that the bytes stand at the start of.
#[verifier::external_body]
fn debug_from_bytes(bytes: &Vec<u8>) -> (r: String)
    requires
        bytes@.len() <= MAX_PRINCIPAL,
    ensures
        r@ == principal_debug(bytes@),
{
    format!("{:?}", candid::Principal::from_slice(bytes))
}

impl Principal {
    #[verifier::type_invariant]
    spec fn fits(self) -> bool {
        self.bytes@.len() <= MAX_PRINCIPAL
    }

    /// A principal has at most 29 bytes.
    pub(crate) fn bounded(&self)
        ensures
            self@.len() <= MAX_PRINCIPAL,
    {
        proof {
            use_type_invariant(&*self);
        }
    }

    /// The principal with these bytes.
    pub fn from_slice(slice: &[u8]) -> (r: Principal)
        requires
            slice@.len() <= MAX_PRINCIPAL,
        ensures
            r@ == slice@,
    {
        Principal { bytes: slice_to_vec(slice) }
    }

    /// The principal with these bytes, None where they are too many.
    pub fn try_from_slice(slice: &[u8]) -> (r: Option<Principal>)
        ensures
            r is Some <==> slice@.len() <= MAX_PRINCIPAL,
            r matches Some(p) ==> p@ == slice@,
    {
        if slice.len() > MAX_PRINCIPAL {
            None
        } else {
            Some(Principal::from_slice(slice))
        }
    }

    /// The anonymous principal.
    pub fn anonymous() -> (r: Principal)
        ensures
            r@ == anonymous(),
    {
        let bytes: Vec<u8> = vec![4u8];
        assert(bytes@ =~= anonymous());
        Principal { bytes }
    }

    /// The raw bytes.
    pub fn as_slice(&self) -> (r: &[u8])
        ensures
            r@ == self@,
    {
        self.bytes.as_slice()
    }

    /// The raw bytes, as a value of its own.
    pub fn to_vec(&self) -> (r: Vec<u8>)
        ensures
            r@ == self@,
    {
        slice_to_vec(self.bytes.as_slice())
    }

    /// The textual form.
    pub fn to_text(&self) -> (r: String)
        ensures
            r@ == principal_text(self@),
            principal_chars(r@),
            r@.len() <= 63,
            reads_as(r@, self@),
    {
        proof {
            use_type_invariant(&*self);
        }
        text_from_bytes(&self.bytes)
    }

    /// The form that is printed for debugging.
    pub fn to_debug(&self) -> (r: String)
        ensures
            r@ == principal_debug(self@),
    {
        proof {
            use_type_invariant(&*self);
        }
        debug_from_bytes(&self.bytes)
    }

    /// Read the textual form.
    pub fn from_text(text: &str) -> (r: Result<Principal, String>)
        ensures
            told(r) == principal_read(text@),
    {
        match bytes_from_text(text) {
            Ok(bytes) => Ok(Principal { bytes }),
            Err(e) => Err(e),
        }
    }

    /// Whether two principals are the same.
    pub fn same(&self, other: &Principal) -> (r: bool)
        ensures
            r == (self@ == other@),
    {
        same_bytes(self.bytes.as_slice(), other.bytes.as_slice())
    }
}

impl Clone for Principal {
    fn clone(&self) -> (r: Self)
        ensures
            r@ == self@,
    {
        proof {
            use_type_invariant(&*self);
        }
        Principal { bytes: slice_to_vec(self.bytes.as_slice()) }
    }
}

} // verus!
