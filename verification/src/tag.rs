//! Authentication tags and their comparison.

use crate::wipe::wipe_bytes;
use vstd::prelude::*;
use vstd::std_specs::cmp::PartialEqSpecImpl;
use vstd::std_specs::convert::FromSpecImpl;

verus! {

/// Length of an authentication tag in bytes.
pub const AUTH_TAG_BYTES: usize = 16;

/// The failure of a tag verification.
#[derive(Debug)]
pub struct TagMismatch;

impl TagMismatch {
    /// The text that describes the failure.
    pub fn message(&self) -> (text: String)
        ensures
            text@ == "tag verification failed."@,
    {
        "tag verification failed.".to_string()
    }
}

/// A sixteen-byte authentication tag. Two tags are compared without
/// stopping at the first difference, and a tag is erased when dropped.
#[derive(Debug, Eq)]
pub struct Tag([u8; 16]);

impl View for Tag {
    type V = Seq<u8>;

    closed spec fn view(&self) -> Seq<u8> {
        self.0@
    }
}

/// OR-ing differences into an accumulator keeps it zero exactly as long as
/// no difference was seen.
proof fn lemma_accumulate(acc: u8, a: u8, b: u8)
    ensures
        (acc | (a ^ b)) == 0 <==> (acc == 0 && a == b),
{
    assert((acc | (a ^ b)) == 0 <==> (acc == 0 && a == b)) by (bit_vector);
}

impl Tag {
    /// The tag that holds `bytes`.
    pub closed spec fn of(bytes: [u8; 16]) -> Tag {
        Tag(bytes)
    }

    /// The bytes that the tag holds.
    pub closed spec fn bytes(self) -> [u8; 16] {
        self.0
    }

    /// A tag is its sixteen bytes.
    pub proof fn lemma_view(self)
        ensures
            self@.len() == 16,
            self@ == self.bytes()@,
            Tag::of(self.bytes()) == self,
    {
    }

    /// The tag made of some bytes holds those bytes.
    pub proof fn lemma_of(bytes: [u8; 16])
        ensures
            Tag::of(bytes)@ == bytes@,
            Tag::of(bytes).bytes() == bytes,
    {
    }

    /// Overwrites the tag with zeros.
    pub fn zeroize(&mut self)
        ensures
            final(self)@ == Seq::new(16, |i: int| 0u8),
        opens_invariants none
        no_unwind
    {
        wipe_bytes(&mut self.0);
        assert(self@ =~= Seq::new(16, |i: int| 0u8));
    }

    /// Accepts `bin` exactly when it equals the tag, byte for byte.
    pub fn verify(&self, bin: [u8; 16]) -> (r: Result<(), TagMismatch>)
        ensures
            r is Ok <==> bin@ == self@,
    {
        let candidate = Tag::from(bin);
        if &candidate == self {
            Ok(())
        } else {
            Err(TagMismatch)
        }
    }
}

impl Default for Tag {
    /// The all-zero tag.
    fn default() -> (r: Self)
        ensures
            r@ == Seq::new(16, |i: int| 0u8),
    {
        let r = Tag([0u8; 16]);
        assert(r@ =~= Seq::new(16, |i: int| 0u8));
        r
    }
}

impl Clone for Tag {
    fn clone(&self) -> (r: Self)
        ensures
            r@ == self@,
    {
        Tag(self.0)
    }
}

impl Drop for Tag {
    /// A tag that goes out of scope is erased first.
    fn drop(&mut self)
        ensures
            final(self)@ == Seq::new(16, |i: int| 0u8),
        opens_invariants none
        no_unwind
    {
        self.zeroize();
    }
}

impl PartialEq for Tag {
    /// Compares all sixteen byte pairs, whatever they hold.
    fn eq(&self, other: &Tag) -> (r: bool) {
        let mut acc: u8 = 0;
        let mut i: usize = 0;
        while i < 16
            invariant
                i <= 16,
                acc == 0 <==> (forall|j: int| 0 <= j < i ==> other.0[j] == self.0[j]),
            decreases 16 - i,
        {
            proof {
                lemma_accumulate(acc, other.0[i as int], self.0[i as int]);
            }
            acc = acc | (other.0[i] ^ self.0[i]);
            i += 1;
        }
        assert(acc == 0 <==> self.0@ =~= other.0@);
        acc == 0
    }
}

impl PartialEqSpecImpl for Tag {
    open spec fn obeys_eq_spec() -> bool {
        true
    }

    open spec fn eq_spec(&self, other: &Tag) -> bool {
        self@ == other@
    }
}

impl AsRef<[u8]> for Tag {
    fn as_ref(&self) -> (r: &[u8])
        ensures
            r@ == self@,
    {
        self.0.as_slice()
    }
}

impl AsMut<[u8]> for Tag {
    fn as_mut(&mut self) -> (r: &mut [u8])
        ensures
            r@ == old(self)@,
            final(self)@ == final(r)@,
    {
        &mut self.0
    }
}

impl From<Tag> for [u8; 16] {
    fn from(tag: Tag) -> (r: Self) {
        tag.0
    }
}

impl FromSpecImpl<Tag> for [u8; 16] {
    open spec fn obeys_from_spec() -> bool {
        true
    }

    open spec fn from_spec(tag: Tag) -> [u8; 16] {
        tag.bytes()
    }
}

impl From<[u8; 16]> for Tag {
    fn from(bin: [u8; 16]) -> (r: Self) {
        Tag(bin)
    }
}

impl FromSpecImpl<[u8; 16]> for Tag {
    open spec fn obeys_from_spec() -> bool {
        true
    }

    open spec fn from_spec(bin: [u8; 16]) -> Tag {
        Tag::of(bin)
    }
}

/// Flipping one bit of one byte of a tag gives bytes that the tag does not
/// equal, so `verify` rejects them.
pub proof fn lemma_bit_flip_differs(tag: Seq<u8>, i: int, bit: u8)
    requires
        0 <= i < tag.len(),
        bit < 8,
    ensures
        tag.update(i, tag[i] ^ (1u8 << bit)) != tag,
{
    let b = tag[i];
    assert(b ^ (1u8 << bit) != b) by (bit_vector)
        requires
            bit < 8,
    ;
    assert(tag.update(i, b ^ (1u8 << bit))[i] != tag[i]);
}

} // verus!
