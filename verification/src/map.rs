use vstd::prelude::*;
use crate::backing::{StoreBack, back_contents, back_new, back_get, back_insert, back_len};
use crate::codec::{encoding, decoding, bounded, encode, decode, lemma_round_trip};
use crate::topic::{Topic, TopicModel};
use crate::MAX_RECORD_SIZE;

verus! {

/// One stored byte sequence is exactly the bounded encoding of one
/// well-formed record.
pub open spec fn is_record(b: Seq<u8>) -> bool {
    &&& b.len() <= MAX_RECORD_SIZE
    &&& decoding(b) is Some
    &&& decoding(b).unwrap().wf()
    &&& encoding(decoding(b).unwrap()) == b
}

/// The ordered durable map from identifiers to topic records. Every record
/// lives in the backing region as its bounded encoding; the codec runs on
/// every access, and callers receive decoded copies, never references into
/// the backing storage.
pub struct TopicMap {
    back: StoreBack,
}

impl View for TopicMap {
    type V = Map<u64, TopicModel>;

    /// The stored records, decoded.
    closed spec fn view(&self) -> Map<u64, TopicModel> {
        Map::new(
            |k: u64| back_contents(self.back).dom().contains(k),
            |k: u64| decoding(back_contents(self.back)[k]).unwrap(),
        )
    }
}

impl TopicMap {
    /// The raw bytes the backing region stores per identifier.
    pub closed spec fn raw(self) -> Map<u64, Seq<u8>> {
        back_contents(self.back)
    }

    /// Every stored byte sequence is the bounded encoding of a well-formed
    /// record, and there are finitely many of them.
    pub open spec fn wf(self) -> bool {
        &&& self.raw().dom().finite()
        &&& forall|k: u64| self.raw().dom().contains(k) ==> is_record(#[trigger] self.raw()[k])
    }

    /// A stored record is bounded: its bytes are its own encoding, and they
    /// fit the fixed slot size.
    pub proof fn lemma_stored_record_bounded(m: TopicMap, id: u64)
        requires
            m.wf(),
            m@.dom().contains(id),
        ensures
            bounded(m@[id]),
            encoding(m@[id]) == m.raw()[id],
            m@[id].wf(),
    {
        assert(is_record(m.raw()[id]));
    }

    /// A fresh map holds nothing.
    pub fn new() -> (m: TopicMap)
        ensures
            m.wf(),
            m@ == Map::<u64, TopicModel>::empty(),
            m.raw() == Map::<u64, Seq<u8>>::empty(),
    {
        let back = back_new();
        let m = TopicMap { back };
        proof {
            assert(m.raw() =~= Map::<u64, Seq<u8>>::empty());
            assert(m@ =~= Map::<u64, TopicModel>::empty());
        }
        m
    }

    /// Point lookup: decodes and returns a copy of the record stored under
    /// the identifier, or reports absence; no error on a missing key.
    pub fn get(&self, id: u64) -> (r: Option<Topic>)
        requires
            self.wf(),
        ensures
            match r {
                Some(t) => self@.dom().contains(id) && t@ == self@[id] && t.wf(),
                None => !self@.dom().contains(id),
            },
    {
        match back_get(&self.back, id) {
            None => None,
            Some(v) => {
                proof {
                    assert(is_record(self.raw()[id]));
                }
                match decode(v.as_slice()) {
                    Some(t) => {
                        proof {
                            assert(self@[id] == decoding(self.raw()[id]).unwrap());
                        }
                        Some(t)
                    },
                    None => {
                        proof {
                            assert(false);
                        }
                        None
                    },
                }
            },
        }
    }

    /// Insert or overwrite: encodes the record and writes it under the
    /// identifier; at most one record exists per identifier.
    pub fn insert(&mut self, id: u64, t: &Topic)
        requires
            old(self).wf(),
            t.wf(),
            bounded(t@),
        ensures
            final(self).wf(),
            final(self)@ == old(self)@.insert(id, t@),
            final(self).raw() == old(self).raw().insert(id, encoding(t@)),
    {
        let bytes = encode(t);
        let _ = back_insert(&mut self.back, id, bytes);
        proof {
            lemma_round_trip(t@);
            assert forall|k: u64| final(self).raw().dom().contains(k) implies is_record(
                final(self).raw()[k],
            ) by {
                if k != id {
                    assert(final(self).raw()[k] == old(self).raw()[k]);
                    assert(is_record(old(self).raw()[k]));
                }
            }
            assert(final(self)@ =~= old(self)@.insert(id, t@));
        }
    }

    /// The number of stored records.
    pub fn len(&self) -> (n: u64)
        requires
            self.wf(),
        ensures
            n as nat == self@.dom().len(),
    {
        proof {
            assert(self@.dom() =~= self.raw().dom());
        }
        back_len(&self.back)
    }
}

} // verus!
