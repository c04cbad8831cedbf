//! What the tiered store asks of its key and value types: keys compare and
//! copy, values round-trip through a deterministic byte encoding.  String
//! values use the JSON string encoding.

use vstd::prelude::*;

verus! {

/// A key the tiered store can index by: comparison and copying are both
/// reflected on the key's mathematical view.
pub trait StoreKey: DeepView + Sized {
    fn key_eq(&self, other: &Self) -> (r: bool)
        ensures
            r == (self.deep_view() == other.deep_view()),
    ;

    fn key_dup(&self) -> (r: Self)
        ensures
            r.deep_view() == self.deep_view(),
    ;
}

impl StoreKey for String {
    fn key_eq(&self, other: &Self) -> (r: bool)
        ensures
            r == (self.deep_view() == other.deep_view()),
    {
        self.eq(other)
    }

    fn key_dup(&self) -> (r: Self)
        ensures
            r.deep_view() == self.deep_view(),
    {
        self.clone()
    }
}

impl StoreKey for usize {
    fn key_eq(&self, other: &Self) -> (r: bool)
        ensures
            r == (self.deep_view() == other.deep_view()),
    {
        *self == *other
    }

    fn key_dup(&self) -> (r: Self)
        ensures
            r.deep_view() == self.deep_view(),
    {
        *self
    }
}

/// A value the tiered store can hold: it round-trips through a
/// deterministic byte encoding, stated over the value's mathematical view.
pub trait StoreValue: DeepView + Sized {
    /// The encoded bytes, as a function of the value's view.
    spec fn spec_encoded(m: Self::V) -> Seq<u8>;

    fn encode(&self) -> (r: Vec<u8>)
        ensures
            r@ == Self::spec_encoded(self.deep_view()),
    ;

    /// On the canonical encoding of a view `m`, decoding yields the value
    /// with that view; other inputs may yield anything or nothing.
    fn decode(bytes: &[u8]) -> (r: Option<Self>)
        ensures
            forall|m: Self::V|
                bytes@ == Self::spec_encoded(m) ==> (r matches Some(v) && v.deep_view() == m),
    ;

    fn val_dup(&self) -> (r: Self)
        ensures
            r.deep_view() == self.deep_view(),
    ;
}

/// The bytes serde_json::to_string gives a string value.
pub uninterp spec fn json_string_bytes(s: Seq<char>) -> Seq<u8>;

/// Relies on serde_json::to_string for String: the result is a function of
/// the characters alone, and serializing a string value cannot fail.
#[verifier::external_body]
fn encode_json_string(s: &String) -> (r: Vec<u8>)
    ensures
        r@ == json_string_bytes(s@),
{
    serde_json::to_string(s).unwrap().into_bytes()
}

/// Relies on serde_json::from_slice for String: it inverts to_string, so
/// the canonical encoding of any string decodes back to that string.
#[verifier::external_body]
fn decode_json_string(bytes: &[u8]) -> (r: Option<String>)
    ensures
        r is Some <== exists|s: Seq<char>| bytes@ == json_string_bytes(s),
        r matches Some(v) ==> forall|s: Seq<char>| bytes@ == json_string_bytes(s) ==> v@ == s,
{
    serde_json::from_slice::<String>(bytes).ok()
}

impl StoreValue for String {
    open spec fn spec_encoded(m: Seq<char>) -> Seq<u8> {
        json_string_bytes(m)
    }

    fn encode(&self) -> (r: Vec<u8>)
        ensures
            r@ == Self::spec_encoded(self.deep_view()),
    {
        encode_json_string(self)
    }

    fn decode(bytes: &[u8]) -> (r: Option<Self>)
        ensures
            forall|m: Seq<char>|
                bytes@ == Self::spec_encoded(m) ==> (r matches Some(v) && v.deep_view() == m),
    {
        decode_json_string(bytes)
    }

    fn val_dup(&self) -> (r: Self)
        ensures
            r.deep_view() == self.deep_view(),
    {
        self.clone()
    }
}

} // verus!
