use vstd::prelude::*;
use crate::map::TopicMap;
use crate::codec::{
    bounded, encoding, lemma_bump_enc_len, lemma_encoding_len_parts, lemma_remove_enc_len,
};
use crate::topic::{
    Topic, TopicError, TopicModel, add_opt, bump, has_name, name_index, new_topic_model,
    remove_opt, strs_view, tally_of,
};

verus! {

/// The topic store service: the public operations over the ordered durable
/// map, together with the monotonically increasing identifier counter. Every
/// mutation is one whole read-modify-write cycle ending in a single map
/// insert; the counter advances only after the record is in place.
pub struct TopicStore {
    map: TopicMap,
    next_id: u64,
}

impl TopicStore {
    /// The stored topics, by identifier.
    pub closed spec fn topics(self) -> Map<u64, TopicModel> {
        self.map@
    }

    /// The identifier the next created topic will receive.
    pub closed spec fn next_id(self) -> u64 {
        self.next_id
    }

    /// Well-formedness: the map holds well-formed bounded records, and the
    /// identifiers in use are exactly those below the counter — assigned
    /// from 0 upward with no gaps, no repeats, none reused.
    pub closed spec fn wf(self) -> bool {
        &&& self.map.wf()
        &&& forall|i: u64| #[trigger] self.topics().dom().contains(i) <==> i < self.next_id
    }

    /// A fresh store: no topics, counter at 0.
    pub fn new() -> (s: TopicStore)
        ensures
            s.wf(),
            s.topics() == Map::<u64, TopicModel>::empty(),
            s.next_id() == 0,
    {
        TopicStore { map: TopicMap::new(), next_id: 0 }
    }

    /// Pure lookup: a decoded copy of the topic stored under the identifier,
    /// or absence; never fails, never mutates.
    pub fn get_topic(&self, id: u64) -> (r: Option<Topic>)
        requires
            self.wf(),
        ensures
            match r {
                Some(t) => self.topics().dom().contains(id) && t@ == self.topics()[id] && t.wf(),
                None => !self.topics().dom().contains(id),
            },
    {
        self.map.get(id)
    }

    /// Pure lookup: how many topics are stored.
    pub fn get_topic_count(&self) -> (n: u64)
        requires
            self.wf(),
        ensures
            n as nat == self.topics().dom().len(),
    {
        self.map.len()
    }

    /// Creates a topic with the given title and owner and one zero tally per
    /// distinct option name, under the next identifier; the counter advances
    /// only after the record is inserted. Returns the assigned identifier.
    pub fn create_topic(&mut self, title: String, option_names: Vec<String>, owner: Vec<u8>) -> (id:
        u64)
        requires
            old(self).wf(),
            old(self).next_id() < u64::MAX,
            bounded(new_topic_model(title@, strs_view(option_names@), owner@)),
        ensures
            final(self).wf(),
            id == old(self).next_id(),
            final(self).next_id() == old(self).next_id() + 1,
            final(self).topics() == old(self).topics().insert(
                id,
                new_topic_model(title@, strs_view(option_names@), owner@),
            ),
    {
        let t = Topic::new(title, owner, option_names);
        let id = self.next_id;
        self.map.insert(id, &t);
        self.next_id = self.next_id + 1;
        proof {
            assert forall|i: u64|
                #[trigger] self.topics().dom().contains(i) <==> i < self.next_id by {
                if i != id {
                    assert(self.topics().dom().contains(i) <==> old(
                        self,
                    ).topics().dom().contains(i));
                }
            }
        }
        id
    }

    /// Casts one vote: reads the record under the identifier, raises the
    /// tally of the named option by exactly one, and writes the whole record
    /// back. A missing identifier is reported as not found, an unknown
    /// option name as unknown; in both cases nothing is changed.
    pub fn vote(&mut self, id: u64, option: String) -> (r: Result<(), TopicError>)
        requires
            old(self).wf(),
            old(self).topics().dom().contains(id) && has_name(
                old(self).topics()[id].options,
                option@,
            ) ==> tally_of(old(self).topics()[id].options, option@) < u32::MAX,
        ensures
            final(self).wf(),
            final(self).next_id() == old(self).next_id(),
            match r {
                Ok(()) => old(self).topics().dom().contains(id) && has_name(
                    old(self).topics()[id].options,
                    option@,
                ) && final(self).topics() == old(self).topics().insert(
                    id,
                    (TopicModel {
                        title: old(self).topics()[id].title,
                        owner: old(self).topics()[id].owner,
                        options: bump(old(self).topics()[id].options, option@),
                    }),
                ) && tally_of(final(self).topics()[id].options, option@) == tally_of(
                    old(self).topics()[id].options,
                    option@,
                ) + 1 && (forall|n: Seq<char>|
                    n != option@ && has_name(old(self).topics()[id].options, n) ==> tally_of(
                        final(self).topics()[id].options,
                        n,
                    ) == tally_of(old(self).topics()[id].options, n)) && (forall|n: Seq<char>|
                    has_name(final(self).topics()[id].options, n) <==> has_name(
                        old(self).topics()[id].options,
                        n,
                    )),
                Err(e) => *final(self) == *old(self) && (match e {
                    TopicError::NotFound => !old(self).topics().dom().contains(id),
                    TopicError::UnknownOption => old(self).topics().dom().contains(id)
                        && !has_name(old(self).topics()[id].options, option@),
                }),
            },
    {
        match self.map.get(id) {
            None => Err(TopicError::NotFound),
            Some(mut t) => {
                let ghost m0 = old(self).topics()[id];
                match t.vote(option) {
                    Err(e) => Err(e),
                    Ok(()) => {
                        proof {
                            TopicMap::lemma_stored_record_bounded(old(self).map, id);
                            crate::topic::lemma_bump(m0.options, option@);
                            lemma_bump_enc_len(m0.options, option@);
                            lemma_encoding_len_parts(m0);
                            lemma_encoding_len_parts(t@);
                            assert(bump(m0.options, option@).len() == m0.options.len());
                            assert(encoding(t@).len() == encoding(m0).len());
                        }
                        self.map.insert(id, &t);
                        proof {
                            assert forall|i: u64|
                                #[trigger] self.topics().dom().contains(i) <==> i
                                < self.next_id by {
                                if i != id {
                                    assert(self.topics().dom().contains(i) <==> old(
                                        self,
                                    ).topics().dom().contains(i));
                                }
                            }
                        }
                        Ok(())
                    },
                }
            },
        }
    }

    /// Adds the named option with a zero tally to the topic under the
    /// identifier; when the name is already there the record is left exactly
    /// as it was. A missing identifier is reported as not found.
    pub fn add_option(&mut self, id: u64, option: String) -> (r: Result<(), TopicError>)
        requires
            old(self).wf(),
            old(self).topics().dom().contains(id) && !has_name(
                old(self).topics()[id].options,
                option@,
            ) ==> bounded(
                (TopicModel {
                    title: old(self).topics()[id].title,
                    owner: old(self).topics()[id].owner,
                    options: add_opt(old(self).topics()[id].options, option@),
                }),
            ),
        ensures
            final(self).wf(),
            final(self).next_id() == old(self).next_id(),
            match r {
                Ok(()) => old(self).topics().dom().contains(id) && final(self).topics() == old(
                    self,
                ).topics().insert(
                    id,
                    (TopicModel {
                        title: old(self).topics()[id].title,
                        owner: old(self).topics()[id].owner,
                        options: add_opt(old(self).topics()[id].options, option@),
                    }),
                ),
                Err(e) => e == TopicError::NotFound && !old(self).topics().dom().contains(id)
                    && *final(self) == *old(self),
            },
    {
        match self.map.get(id) {
            None => Err(TopicError::NotFound),
            Some(mut t) => {
                let ghost m0 = old(self).topics()[id];
                proof {
                    TopicMap::lemma_stored_record_bounded(old(self).map, id);
                }
                t.add_new_option(option);
                proof {
                    lemma_encoding_len_parts(m0);
                    lemma_encoding_len_parts(t@);
                    if has_name(m0.options, option@) {
                        assert(t@.options == m0.options);
                        assert(t@ == m0);
                    }
                }
                self.map.insert(id, &t);
                proof {
                    assert forall|i: u64|
                        #[trigger] self.topics().dom().contains(i) <==> i < self.next_id by {
                        if i != id {
                            assert(self.topics().dom().contains(i) <==> old(
                                self,
                            ).topics().dom().contains(i));
                        }
                    }
                }
                Ok(())
            },
        }
    }

    /// Removes the named option and its tally entirely from the topic under
    /// the identifier; a no-op when the name is absent. A missing identifier
    /// is reported as not found.
    pub fn remove_option(&mut self, id: u64, option: String) -> (r: Result<(), TopicError>)
        requires
            old(self).wf(),
        ensures
            final(self).wf(),
            final(self).next_id() == old(self).next_id(),
            match r {
                Ok(()) => old(self).topics().dom().contains(id) && final(self).topics() == old(
                    self,
                ).topics().insert(
                    id,
                    (TopicModel {
                        title: old(self).topics()[id].title,
                        owner: old(self).topics()[id].owner,
                        options: remove_opt(old(self).topics()[id].options, option@),
                    }),
                ),
                Err(e) => e == TopicError::NotFound && !old(self).topics().dom().contains(id)
                    && *final(self) == *old(self),
            },
    {
        match self.map.get(id) {
            None => Err(TopicError::NotFound),
            Some(mut t) => {
                let ghost m0 = old(self).topics()[id];
                proof {
                    TopicMap::lemma_stored_record_bounded(old(self).map, id);
                    lemma_encoding_len_parts(m0);
                    if has_name(m0.options, option@) {
                        let j = name_index(m0.options, option@);
                        assert(m0.options[j].0 == option@);
                        lemma_remove_enc_len(m0.options, j);
                    }
                }
                t.delete_option(option);
                proof {
                    lemma_encoding_len_parts(t@);
                    assert(encoding(t@).len() <= encoding(m0).len());
                }
                self.map.insert(id, &t);
                proof {
                    assert forall|i: u64|
                        #[trigger] self.topics().dom().contains(i) <==> i < self.next_id by {
                        if i != id {
                            assert(self.topics().dom().contains(i) <==> old(
                                self,
                            ).topics().dom().contains(i));
                        }
                    }
                }
                Ok(())
            },
        }
    }
}

/// Identifiers are assigned from 0 upward, strictly increasing, with no gaps
/// and no repeats: a well-formed store holds exactly the identifiers below
/// its counter, and creation inserts at the counter and then advances it.
pub proof fn lemma_identifiers_dense(s: TopicStore)
    requires
        s.wf(),
    ensures
        forall|i: u64| #[trigger] s.topics().dom().contains(i) <==> i < s.next_id(),
{
}

/// The set of identifiers below `n` holds exactly `n` elements.
proof fn lemma_u64_range_len(n: u64)
    ensures
        Set::new(|i: u64| i < n).finite(),
        Set::new(|i: u64| i < n).len() == n,
    decreases n,
{
    if n == 0 {
        assert(Set::new(|i: u64| i < n) =~= Set::<u64>::empty());
    } else {
        let prev = (n - 1) as u64;
        lemma_u64_range_len(prev);
        assert(Set::new(|i: u64| i < n) =~= Set::new(|i: u64| i < prev).insert(prev));
    }
}

/// The stored count is exactly the number of topics created so far: every
/// creation adds one record and advances the counter by one.
pub proof fn lemma_count_matches_counter(s: TopicStore)
    requires
        s.wf(),
    ensures
        s.topics().dom().len() == s.next_id(),
{
    lemma_u64_range_len(s.next_id());
    assert(s.topics().dom() =~= Set::new(|i: u64| i < s.next_id()));
}

} // verus!
