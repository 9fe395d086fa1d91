//! Stable identities: digests over the structural inputs of a row.

use vstd::prelude::*;
use vstd::string::*;
use vstd::utf8::*;

use crate::bytes::{push_framed, push_le};
use crate::digest::sha256;
use crate::order::{bytes_at_most, OrderKey, SpecKey};
use crate::text::{hex_text, same_bytes};
use crate::{bytes, digest, order, text};

verus! {

/// A deterministic 256-bit identity, kept distinct from row indexes and names.
#[derive(Clone, Copy, PartialEq, Eq, Hash, Debug)]
pub struct StableId(pub [u8; 32]);

impl StableId {
    /// Lowercase hexadecimal representation for logs and JSON views.
    pub fn to_hex(self) -> (hex: String)
        ensures
            hex@ == text::hex_of(self.0@),
    {
        hex_text(self.0.as_slice())
    }
}

/// Whether two identities are the same.
pub fn same_id(a: &StableId, b: &StableId) -> (r: bool)
    ensures
        r == (a.0@ == b.0@),
        r == (*a == *b),
{
    let r = same_bytes(a.0.as_slice(), b.0.as_slice());
    assert(a.0@ == b.0@ ==> a.0 =~= b.0);
    r
}

impl SpecKey for StableId {
    open spec fn le_spec(&self, other: &Self) -> bool {
        order::bytes_le(self.0@, other.0@)
    }

    proof fn le_reflexive(a: &Self) {
        order::lemma_bytes_le_antisymmetric(a.0@, a.0@);
    }

    proof fn le_transitive(a: &Self, b: &Self, c: &Self) {
        order::lemma_bytes_le_transitive(a.0@, b.0@, c.0@);
    }

    proof fn le_total(a: &Self, b: &Self) {
        order::lemma_bytes_le_total(a.0@, b.0@);
    }
}

impl OrderKey for StableId {
    fn le(&self, other: &Self) -> (r: bool) {
        bytes_at_most(self.0.as_slice(), other.0.as_slice())
    }
}

/// The identity of parts within a domain.
pub open spec fn stable_id_of(domain: Seq<u8>, parts: Seq<Seq<u8>>) -> Seq<u8> {
    digest::sha256_of(bytes::framed(domain) + bytes::framed_all(parts))
}

/// Collects the parts of an identity.
pub struct IdParts {
    buffer: Vec<u8>,
    domain: Ghost<Seq<u8>>,
    parts: Ghost<Seq<Seq<u8>>>,
}

impl IdParts {
    #[verifier::type_invariant]
    spec fn is_wf(self) -> bool {
        self.buffer@ == bytes::framed(self.domain@) + bytes::framed_all(self.parts@)
    }

    /// The domain of the identity.
    pub closed spec fn domain(&self) -> Seq<u8> {
        self.domain@
    }

    /// The parts so far.
    pub closed spec fn parts(&self) -> Seq<Seq<u8>> {
        self.parts@
    }

    pub fn new(domain: &str) -> (parts: IdParts)
        ensures
            parts.domain() == encode_utf8(domain@),
            parts.parts() == Seq::<Seq<u8>>::empty(),
    {
        let mut buffer: Vec<u8> = Vec::new();
        push_framed(&mut buffer, domain.as_bytes());
        assert(buffer@ =~= bytes::framed(encode_utf8(domain@)) + bytes::framed_all(Seq::empty()));
        IdParts { buffer, domain: Ghost(encode_utf8(domain@)), parts: Ghost(Seq::empty()) }
    }

    pub fn push(self, part: &[u8]) -> (parts: IdParts)
        ensures
            parts.domain() == self.domain(),
            parts.parts() == self.parts().push(part@),
    {
        proof {
            use_type_invariant(&self);
            lemma_framed_push(self.domain@, self.parts@, part@);
        }
        let mut buffer = self.buffer;
        push_framed(&mut buffer, part);
        IdParts { buffer, domain: self.domain, parts: Ghost(self.parts@.push(part@)) }
    }

    pub fn push_u8(self, value: u8) -> (parts: IdParts)
        ensures
            parts.domain() == self.domain(),
            parts.parts() == self.parts().push(seq![value]),
    {
        let mut part: Vec<u8> = Vec::new();
        part.push(value);
        assert(part@ =~= seq![value]);
        self.push(part.as_slice())
    }

    pub fn push_u32(self, value: u32) -> (parts: IdParts)
        ensures
            parts.domain() == self.domain(),
            parts.parts() == self.parts().push(bytes::le_bytes(value as int, 4)),
    {
        let mut part: Vec<u8> = Vec::new();
        push_le(&mut part, value as u64, 4);
        assert(part@ =~= bytes::le_bytes(value as int, 4));
        self.push(part.as_slice())
    }

    pub fn push_u64(self, value: u64) -> (parts: IdParts)
        ensures
            parts.domain() == self.domain(),
            parts.parts() == self.parts().push(bytes::le_bytes(value as int, 8)),
    {
        let mut part: Vec<u8> = Vec::new();
        push_le(&mut part, value, 8);
        assert(part@ =~= bytes::le_bytes(value as int, 8));
        self.push(part.as_slice())
    }

    pub fn finish(self) -> (id: StableId)
        ensures
            id.0@ == stable_id_of(self.domain(), self.parts()),
    {
        proof {
            use_type_invariant(&self);
        }
        StableId(sha256(self.buffer.as_slice()))
    }
}

/// Adding a part to the framed parts.
proof fn lemma_framed_push(domain: Seq<u8>, parts: Seq<Seq<u8>>, part: Seq<u8>)
    ensures
        bytes::framed(domain) + bytes::framed_all(parts.push(part)) == (bytes::framed(domain)
            + bytes::framed_all(parts)) + bytes::framed(part),
{
    assert(parts.push(part).drop_last() =~= parts);
    assert(bytes::framed(domain) + bytes::framed_all(parts.push(part)) =~= (bytes::framed(domain)
        + bytes::framed_all(parts)) + bytes::framed(part));
}

} // verus!
