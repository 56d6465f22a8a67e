use vstd::prelude::*;

verus! {

/// A 160-bit object id of the content-addressed store.
#[derive(Clone, Copy, Debug, PartialEq, Eq, Hash)]
pub struct Oid {
    pub bytes: [u8; 20],
}

impl View for Oid {
    type V = Seq<u8>;

    open spec fn view(&self) -> Seq<u8> {
        self.bytes@
    }
}

impl Oid {
    /// The all-zero id, which addresses no object.
    pub fn zero() -> (r: Oid)
        ensures
            r@ == Seq::new(20, |i: int| 0u8),
    {
        let r = Oid { bytes: [0u8; 20] };
        assert(r@ =~= Seq::new(20, |i: int| 0u8));
        r
    }

    /// The id of the empty blob.
    pub fn empty_blob() -> (r: Oid)
        ensures
            r@ == seq![
                0xe6u8, 0x9du8, 0xe2u8, 0x9bu8, 0xb2u8, 0xd1u8, 0xd6u8, 0x43u8, 0x4bu8, 0x8bu8,
                0x29u8, 0xaeu8, 0x77u8, 0x5au8, 0xd8u8, 0xc2u8, 0xe4u8, 0x8cu8, 0x53u8, 0x91u8,
            ],
    {
        let r = Oid {
            bytes: [
                0xe6u8, 0x9du8, 0xe2u8, 0x9bu8, 0xb2u8, 0xd1u8, 0xd6u8, 0x43u8, 0x4bu8, 0x8bu8,
                0x29u8, 0xaeu8, 0x77u8, 0x5au8, 0xd8u8, 0xc2u8, 0xe4u8, 0x8cu8, 0x53u8, 0x91u8,
            ],
        };
        assert(r@ =~= seq![
            0xe6u8, 0x9du8, 0xe2u8, 0x9bu8, 0xb2u8, 0xd1u8, 0xd6u8, 0x43u8, 0x4bu8, 0x8bu8, 0x29u8,
            0xaeu8, 0x77u8, 0x5au8, 0xd8u8, 0xc2u8, 0xe4u8, 0x8cu8, 0x53u8, 0x91u8,
        ]);
        r
    }

    /// Byte-wise equality of two ids.
    pub fn same(&self, other: &Oid) -> (r: bool)
        ensures
            r == (self@ == other@),
            r == (*self == *other),
    {
        let mut i: usize = 0;
        while i < 20
            invariant
                0 <= i <= 20,
                forall|j: int| 0 <= j < i ==> self.bytes[j] == other.bytes[j],
            decreases 20 - i,
        {
            if self.bytes[i] != other.bytes[i] {
                return false;
            }
            i += 1;
        }
        assert(self.bytes@ =~= other.bytes@);
        assert(self.bytes == other.bytes);
        true
    }
}

/// The id that the object store gives to a blob with the given content, or nothing where
/// it refuses the content.
pub uninterp spec fn blob_hash(content: Seq<u8>) -> Option<Seq<u8>>;

/// Calls `git2::Oid::hash_object` for a blob. Whether the call succeeds, and the id that
/// it gives, depend on the content alone: the id is the SHA-1 of the blob's header and
/// content, and libgit2's collision-detecting SHA-1 refuses content in which it finds
/// the mark of a collision attack.
#[verifier::external_body]
pub(crate) fn hash_blob(content: &Vec<u8>) -> (r: Option<Oid>)
    ensures
        match blob_hash(content@) {
            Some(h) => r is Some && r->Some_0@ == h,
            None => r is None,
        },
{
    match git2::Oid::hash_object(git2::ObjectType::Blob, content.as_slice()) {
        Ok(o) => {
            let mut bytes = [0u8; 20];
            bytes.copy_from_slice(o.as_bytes());
            Some(Oid { bytes })
        },
        Err(_) => None,
    }
}

} // verus!
