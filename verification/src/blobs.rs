use vstd::prelude::*;
use vstd::utf8::{decode_utf8, valid_utf8};
use crate::oid::Oid;

verus! {

/// A blob of the object store: its id and its content.
pub struct Blob {
    pub id: Oid,
    pub content: Vec<u8>,
}

/// The blobs that are known by content. Trees name blobs by id; only the blobs whose
/// content a filter reads need to be here.
pub struct Blobs {
    pub items: Vec<Blob>,
}

/// The contents by id that a list of blobs stands for; of two blobs with one id the
/// later counts.
pub open spec fn blobs_map(items: Seq<Blob>) -> Map<Oid, Seq<u8>>
    decreases items.len(),
{
    if items.len() == 0 {
        Map::empty()
    } else {
        blobs_map(items.drop_last()).insert(items.last().id, items.last().content@)
    }
}

impl View for Blobs {
    type V = Map<Oid, Seq<u8>>;

    open spec fn view(&self) -> Map<Oid, Seq<u8>> {
        blobs_map(self.items@)
    }
}

/// Calls `std::str::from_utf8`, which accepts exactly the valid UTF-8 encodings and
/// gives the text that the bytes encode.
#[verifier::external_body]
pub(crate) fn decode(bytes: &Vec<u8>) -> (r: Option<&str>)
    ensures
        r is Some <==> valid_utf8(bytes@),
        r matches Some(text) ==> text@ == decode_utf8(bytes@),
{
    match std::str::from_utf8(bytes.as_slice()) {
        Ok(s) => Some(s),
        Err(_) => None,
    }
}

impl Blobs {
    /// No blobs.
    pub fn new() -> (r: Blobs)
        ensures
            r@ == Map::<Oid, Seq<u8>>::empty(),
    {
        Blobs { items: Vec::new() }
    }

    /// Makes the content of a blob known.
    pub fn insert(&mut self, id: Oid, content: Vec<u8>)
        ensures
            final(self)@ == old(self)@.insert(id, content@),
    {
        self.items.push(Blob { id, content });
        assert(self.items@.drop_last() =~= old(self).items@);
    }

    /// The content of the blob with the given id, if it is known.
    pub fn get(&self, id: &Oid) -> (r: Option<&Vec<u8>>)
        ensures
            match r {
                Some(c) => self@.dom().contains(*id) && self@[*id] == c@,
                None => !self@.dom().contains(*id),
            },
    {
        let mut i: usize = self.items.len();
        assert(self.items@.take(i as int) =~= self.items@);
        while i > 0
            invariant
                0 <= i <= self.items.len(),
                self@.dom().contains(*id)
                    == blobs_map(self.items@.take(i as int)).dom().contains(*id),
                self@.dom().contains(*id) ==> self@[*id]
                    == blobs_map(self.items@.take(i as int))[*id],
            decreases i,
        {
            i -= 1;
            assert(self.items@.take(i + 1).drop_last() =~= self.items@.take(i as int));
            if self.items[i].id.same(id) {
                return Some(&self.items[i].content);
            }
        }
        None
    }
}

} // verus!
