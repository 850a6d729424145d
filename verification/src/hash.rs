//! Hashes of objects and files.
//!
//! SHA-1 itself comes from `gix_hash`; what is stated here is which bytes go
//! into it.
use vstd::prelude::*;

use crate::object::{Kind, ObjectId};

verus! {

/// A `gix_hash::Hasher`, which takes in bytes piece by piece.
#[verifier::external_type_specification]
#[verifier::external_body]
pub struct ExHasher(gix_hash::Hasher);

/// The bytes that a hasher has taken in so far.
pub uninterp spec fn hashed_bytes(hasher: gix_hash::Hasher) -> Seq<u8>;

/// What `gix_hash::Hasher::try_finalize` gives for a SHA-1 hasher that took in
/// `bytes`: their hash, or nothing if they look like an attempt to forge one.
pub uninterp spec fn digest_of(bytes: Seq<u8>) -> Option<ObjectId>;

/// `gix_hash::hasher` for SHA-1: a hasher that has taken in nothing yet.
#[verifier::external_body]
fn new_hasher() -> (hasher: gix_hash::Hasher)
    ensures
        hashed_bytes(hasher) == Seq::<u8>::empty(),
{
    gix_hash::hasher(gix_hash::Kind::Sha1)
}

/// `gix_hash::Hasher::update`: takes in `bytes` behind all others.
#[verifier::external_body]
fn feed(hasher: &mut gix_hash::Hasher, bytes: &[u8])
    ensures
        hashed_bytes(*final(hasher)) == hashed_bytes(*old(hasher)) + bytes@,
{
    hasher.update(bytes);
}

/// `gix_hash::Hasher::try_finalize`: the hash of all bytes taken in, which
/// depends on nothing else.
#[verifier::external_body]
fn finalize(hasher: gix_hash::Hasher) -> (id: Option<ObjectId>)
    ensures
        id == digest_of(hashed_bytes(hasher)),
{
    match hasher.try_finalize() {
        Ok(id) => Some(ObjectId { bytes: id.as_slice().try_into().ok()? }),
        Err(_) => None,
    }
}

/// `gix_object::compute_hash` for SHA-1: the hash of an object's header,
/// [`loose_header`], followed by its data.
#[verifier::external_body]
fn object_hash(kind: Kind, data: &[u8]) -> (id: Option<ObjectId>)
    ensures
        id == digest_of(loose_header(kind, data@.len()) + data@),
{
    let kind = match kind {
        Kind::Tree => gix_object::Kind::Tree,
        Kind::Blob => gix_object::Kind::Blob,
        Kind::Commit => gix_object::Kind::Commit,
        Kind::Tag => gix_object::Kind::Tag,
    };
    match gix_object::compute_hash(gix_hash::Kind::Sha1, kind, data) {
        Ok(id) => Some(ObjectId { bytes: id.as_slice().try_into().ok()? }),
        Err(_) => None,
    }
}

/// The word that stands for a kind in an object header.
pub open spec fn kind_name(kind: Kind) -> Seq<u8> {
    match kind {
        Kind::Tree => seq![0x74, 0x72, 0x65, 0x65],
        Kind::Blob => seq![0x62, 0x6c, 0x6f, 0x62],
        Kind::Commit => seq![0x63, 0x6f, 0x6d, 0x6d, 0x69, 0x74],
        Kind::Tag => seq![0x74, 0x61, 0x67],
    }
}

/// The decimal digits of `n` as bytes.
pub open spec fn decimal_bytes(n: nat) -> Seq<u8>
    decreases n,
{
    if n < 10 {
        seq![(0x30 + n) as u8]
    } else {
        decimal_bytes(n / 10).push((0x30 + n % 10) as u8)
    }
}

/// The header of an object: its kind, a space, its size in decimal, and a zero byte.
pub open spec fn loose_header(kind: Kind, size: nat) -> Seq<u8> {
    kind_name(kind).push(0x20) + decimal_bytes(size).push(0)
}

/// The name of the object of that kind with that data.
pub fn compute_hash(kind: Kind, data: &[u8]) -> (id: Option<ObjectId>)
    ensures
        id == digest_of(loose_header(kind, data@.len()) + data@),
{
    object_hash(kind, data)
}

/// Counts and hashes what passes by on its way to a file.
pub struct HashedOutput {
    bytes: u64,
    hasher: gix_hash::Hasher,
}

impl HashedOutput {
    /// The count is that of the bytes hashed.
    pub closed spec fn wf(self) -> bool {
        self.bytes == hashed_bytes(self.hasher).len()
    }

    /// Everything that passed by so far.
    pub closed spec fn emitted(self) -> Seq<u8> {
        hashed_bytes(self.hasher)
    }

    pub fn new() -> (out: Self)
        ensures
            out.wf(),
            out.emitted() == Seq::<u8>::empty(),
    {
        HashedOutput { bytes: 0, hasher: new_hasher() }
    }

    /// Take note of bytes that are written to the file.
    pub fn write(&mut self, buf: &[u8])
        requires
            old(self).wf(),
            old(self).emitted().len() + buf@.len() <= u64::MAX,
        ensures
            final(self).wf(),
            final(self).emitted() == old(self).emitted() + buf@,
    {
        feed(&mut self.hasher, buf);
        self.bytes = self.bytes + buf.len() as u64;
    }

    /// How many bytes passed by so far.
    pub fn bytes(&self) -> (n: u64)
        requires
            self.wf(),
        ensures
            n == self.emitted().len(),
    {
        self.bytes
    }

    /// The hash of everything that passed by.
    pub fn finalize(self) -> (id: Option<ObjectId>)
        ensures
            id == digest_of(self.emitted()),
    {
        finalize(self.hasher)
    }
}

/// The hash of `bytes`.
pub fn digest(bytes: &[u8]) -> (id: Option<ObjectId>)
    ensures
        id == digest_of(bytes@),
{
    let mut hasher = new_hasher();
    feed(&mut hasher, bytes);
    assert(Seq::<u8>::empty() + bytes@ =~= bytes@);
    finalize(hasher)
}

/// An object is named by the word for its kind, its size in decimal digits and its
/// data: the header is the word, a space, the digits and a zero byte.
pub proof fn law_object_header_tells_kind_and_size(kind: Kind, size: nat)
    ensures
        loose_header(kind, size).map_values(|b: u8| b as char) == match kind {
            Kind::Tree => "tree "@,
            Kind::Blob => "blob "@,
            Kind::Commit => "commit "@,
            Kind::Tag => "tag "@,
        } + crate::budget::decimal(size) + seq!['\0'],
{
    reveal_strlit("tree ");
    reveal_strlit("blob ");
    reveal_strlit("commit ");
    reveal_strlit("tag ");
    lemma_digits_are_bytes(size);
    let word = kind_name(kind).push(0x20).map_values(|b: u8| b as char);
    assert(word =~= match kind {
        Kind::Tree => "tree "@,
        Kind::Blob => "blob "@,
        Kind::Commit => "commit "@,
        Kind::Tag => "tag "@,
    });
    let digits = decimal_bytes(size);
    assert(digits.map_values(|b: u8| b as char) == crate::budget::decimal(size));
    assert forall|i: int| 0 <= i < digits.len() implies #[trigger] digits[i] as char
        == crate::budget::decimal(size)[i] by {
        assert(digits.map_values(|b: u8| b as char)[i] == digits[i] as char);
    }
    assert(loose_header(kind, size).map_values(|b: u8| b as char) =~= word
        + crate::budget::decimal(size) + seq!['\0']);
}

proof fn lemma_digits_are_bytes(n: nat)
    ensures
        decimal_bytes(n).map_values(|b: u8| b as char) == crate::budget::decimal(n),
    decreases n,
{
    if n >= 10 {
        lemma_digits_are_bytes(n / 10);
        let front = decimal_bytes(n / 10);
        assert(decimal_bytes(n).map_values(|b: u8| b as char) =~= front.map_values(
            |b: u8| b as char,
        ).push(crate::budget::digit(n % 10)));
    } else {
        assert(decimal_bytes(n).map_values(|b: u8| b as char) =~= crate::budget::decimal(n));
    }
}

} // verus!
