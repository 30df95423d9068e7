use vstd::prelude::*;

verus! {

/// Why the store refuses an operation.
#[derive(Clone, Copy, Debug, PartialEq, Eq)]
pub enum TopicError {
    /// No topic is stored under the given identifier.
    NotFound,
    /// The topic exists but has no option with the given name.
    UnknownOption,
}

/// One poll record: a title, a list of named options with vote tallies, and
/// the identity of the creator. Option names are unique within one record.
#[derive(Clone, Debug, PartialEq)]
pub struct Topic {
    title: String,
    options: Vec<(String, u32)>,
    owner: Vec<u8>,
}

/// Mathematical model of one topic record. The options keep the order in
/// which they were first added; that order carries no meaning, but it makes
/// the encoded form of a record deterministic.
pub ghost struct TopicModel {
    pub title: Seq<char>,
    pub owner: Seq<u8>,
    pub options: Seq<(Seq<char>, u32)>,
}

/// The option list of a vector of (name, tally) pairs, as sequences.
pub open spec fn opts_view(v: Seq<(String, u32)>) -> Seq<(Seq<char>, u32)> {
    v.map_values(|p: (String, u32)| (p.0@, p.1))
}

/// The character sequences of a vector of strings.
pub open spec fn strs_view(v: Seq<String>) -> Seq<Seq<char>> {
    v.map_values(|s: String| s@)
}

/// Whether some option in the list carries the given name.
pub open spec fn has_name(opts: Seq<(Seq<char>, u32)>, name: Seq<char>) -> bool {
    exists|j: int| 0 <= j < opts.len() && opts[j].0 == name
}

/// An index of an option with the given name, when one exists.
pub open spec fn name_index(opts: Seq<(Seq<char>, u32)>, name: Seq<char>) -> int {
    choose|j: int| 0 <= j < opts.len() && opts[j].0 == name
}

/// The tally recorded for the given option name; 0 when the name is absent.
pub open spec fn tally_of(opts: Seq<(Seq<char>, u32)>, name: Seq<char>) -> u32 {
    if has_name(opts, name) {
        opts[name_index(opts, name)].1
    } else {
        0
    }
}

/// Option names are pairwise distinct.
pub open spec fn unique_names(opts: Seq<(Seq<char>, u32)>) -> bool {
    forall|j: int, k: int| 0 <= j < k < opts.len() ==> opts[j].0 != opts[k].0
}

/// The option list after one vote for the given name: every entry carrying
/// that name has its tally raised by one, every other entry is unchanged.
pub open spec fn bump(opts: Seq<(Seq<char>, u32)>, name: Seq<char>) -> Seq<(Seq<char>, u32)> {
    Seq::new(
        opts.len(),
        |i: int|
            if opts[i].0 == name {
                (opts[i].0, (opts[i].1 + 1) as u32)
            } else {
                opts[i]
            },
    )
}

/// The option list after adding the given name with a zero tally; unchanged
/// when the name is already present.
pub open spec fn add_opt(opts: Seq<(Seq<char>, u32)>, name: Seq<char>) -> Seq<(Seq<char>, u32)> {
    if has_name(opts, name) {
        opts
    } else {
        opts.push((name, 0u32))
    }
}

/// The option list after removing the entry with the given name; unchanged
/// when the name is absent.
pub open spec fn remove_opt(opts: Seq<(Seq<char>, u32)>, name: Seq<char>) -> Seq<
    (Seq<char>, u32),
> {
    if has_name(opts, name) {
        opts.remove(name_index(opts, name))
    } else {
        opts
    }
}

/// The option list built from a list of requested names, processed left to
/// right: a name not yet in `acc` is appended with a zero tally, a repeated
/// name is dropped.
pub open spec fn dedup_zero_from(
    acc: Seq<(Seq<char>, u32)>,
    names: Seq<Seq<char>>,
) -> Seq<(Seq<char>, u32)>
    decreases names.len(),
{
    if names.len() == 0 {
        acc
    } else {
        dedup_zero_from(
            if has_name(acc, names[0]) {
                acc
            } else {
                acc.push((names[0], 0u32))
            },
            names.drop_first(),
        )
    }
}

/// The option list of a fresh topic: one zero-tally entry per distinct
/// requested name, in order of first occurrence.
pub open spec fn dedup_zero(names: Seq<Seq<char>>) -> Seq<(Seq<char>, u32)> {
    dedup_zero_from(Seq::empty(), names)
}

/// The model of a topic as creation builds it.
pub open spec fn new_topic_model(
    title: Seq<char>,
    names: Seq<Seq<char>>,
    owner: Seq<u8>,
) -> TopicModel {
    TopicModel { title, owner, options: dedup_zero(names) }
}

impl TopicModel {
    /// Well-formedness: option names are unique within the record.
    pub open spec fn wf(self) -> bool {
        unique_names(self.options)
    }
}

impl View for Topic {
    type V = TopicModel;

    closed spec fn view(&self) -> TopicModel {
        TopicModel { title: self.title@, owner: self.owner@, options: opts_view(self.options@) }
    }
}

/// Finds the first entry carrying the given name.
fn find_option(v: &Vec<(String, u32)>, name: &String) -> (r: Option<usize>)
    ensures
        match r {
            Some(j) => 0 <= j < v@.len() && opts_view(v@)[j as int].0 == name@ && (forall|k: int|
                0 <= k < j ==> opts_view(v@)[k].0 != name@),
            None => !has_name(opts_view(v@), name@),
        },
{
    let n = v.len();
    for i in 0..n
        invariant
            n == v@.len(),
            forall|k: int| 0 <= k < i ==> opts_view(v@)[k].0 != name@,
    {
        if v[i].0 == *name {
            assert(opts_view(v@)[i as int].0 == name@);
            return Some(i);
        }
        assert(opts_view(v@)[i as int].0 != name@);
    }
    return None;
}

impl Topic {
    /// Well-formedness of the record.
    pub open spec fn wf(self) -> bool {
        self@.wf()
    }

    /// Builds a fresh topic: the given title and owner, and one zero-tally
    /// option per distinct requested name.
    pub fn new(title: String, owner: Vec<u8>, list_of_options: Vec<String>) -> (t: Topic)
        ensures
            t@ == new_topic_model(title@, strs_view(list_of_options@), owner@),
            t.wf(),
    {
        let ghost names = strs_view(list_of_options@);
        let mut options: Vec<(String, u32)> = Vec::new();
        let n = list_of_options.len();
        assert(names.take(0) =~= Seq::<Seq<char>>::empty());
        assert(opts_view(options@) =~= Seq::<(Seq<char>, u32)>::empty());
        for i in 0..n
            invariant
                n == list_of_options@.len(),
                names == strs_view(list_of_options@),
                opts_view(options@) == dedup_zero_from(Seq::empty(), names.take(i as int)),
                unique_names(opts_view(options@)),
        {
            let name = &list_of_options[i];
            let ghost before = opts_view(options@);
            match find_option(&options, name) {
                Some(_) => {
                },
                None => {
                    options.push((name.clone(), 0u32));
                    assert(opts_view(options@) =~= before.push((name@, 0u32)));
                },
            }
            proof {
                lemma_dedup_from_snoc(Seq::empty(), names.take(i as int), names[i as int]);
                assert(names.take(i + 1) =~= names.take(i as int).push(names[i as int]));
            }
        }
        proof {
            assert(names.take(n as int) =~= names);
        }
        Topic { title, options, owner }
    }

    /// Records one vote for the given option: its tally rises by exactly one,
    /// every other option, the title and the owner stay as they were. When the
    /// name is unknown the record is left untouched and the condition is
    /// reported.
    pub fn vote(&mut self, option: String) -> (r: Result<(), TopicError>)
        requires
            old(self).wf(),
            has_name(old(self)@.options, option@) ==> tally_of(old(self)@.options, option@)
                < u32::MAX,
        ensures
            final(self).wf(),
            match r {
                Ok(()) => has_name(old(self)@.options, option@) && final(self)@.options == bump(
                    old(self)@.options,
                    option@,
                ) && final(self)@.title == old(self)@.title && final(self)@.owner == old(
                    self,
                )@.owner,
                Err(e) => e == TopicError::UnknownOption && !has_name(
                    old(self)@.options,
                    option@,
                ) && *final(self) == *old(self),
            },
    {
        match find_option(&self.options, &option) {
            None => Err(TopicError::UnknownOption),
            Some(j) => {
                let ghost opts = opts_view(self.options@);
                proof {
                    assert(has_name(opts, option@));
                    let idx = name_index(opts, option@);
                    assert(opts[idx].0 == option@);
                    assert(idx == j as int);
                    assert(tally_of(opts, option@) == opts[j as int].1);
                }
                let pair = self.options.remove(j);
                let bumped = pair.1 + 1;
                self.options.insert(j, (pair.0, bumped));
                proof {
                    assert(self.options@ =~= old(self).options@.update(
                        j as int,
                        (old(self).options@[j as int].0, bumped),
                    ));
                    assert(opts_view(self.options@) =~= bump(opts, option@));
                }
                Ok(())
            },
        }
    }

    /// Adds the given option with a zero tally; when the name is already
    /// present this is a no-op.
    pub fn add_new_option(&mut self, new_option: String)
        requires
            old(self).wf(),
        ensures
            final(self).wf(),
            final(self)@.options == add_opt(old(self)@.options, new_option@),
            final(self)@.title == old(self)@.title,
            final(self)@.owner == old(self)@.owner,
    {
        match find_option(&self.options, &new_option) {
            Some(_) => {
            },
            None => {
                let ghost before = opts_view(self.options@);
                self.options.push((new_option, 0u32));
                assert(opts_view(self.options@) =~= before.push((new_option@, 0u32)));
            },
        }
    }

    /// Removes the given option and its tally entirely; a no-op when absent.
    pub fn delete_option(&mut self, option: String)
        requires
            old(self).wf(),
        ensures
            final(self).wf(),
            final(self)@.options == remove_opt(old(self)@.options, option@),
            final(self)@.title == old(self)@.title,
            final(self)@.owner == old(self)@.owner,
    {
        match find_option(&self.options, &option) {
            None => {
            },
            Some(j) => {
                let ghost opts = opts_view(self.options@);
                proof {
                    let idx = name_index(opts, option@);
                    assert(opts[idx].0 == option@);
                    assert(idx == j as int);
                }
                self.options.remove(j);
                assert(opts_view(self.options@) =~= opts.remove(j as int));
                proof {
                    let r = opts.remove(j as int);
                    assert forall|a: int, b: int| 0 <= a < b < r.len() implies r[a].0 != r[b].0 by {
                        assert(r[a] == if a < j as int {
                            opts[a]
                        } else {
                            opts[a + 1]
                        });
                        assert(r[b] == if b < j as int {
                            opts[b]
                        } else {
                            opts[b + 1]
                        });
                    }
                }
            },
        }
    }

    /// Assembles a record from its three parts, as decoding rebuilds it.
    pub fn from_parts(title: String, options: Vec<(String, u32)>, owner: Vec<u8>) -> (t: Topic)
        ensures
            t@ == (TopicModel { title: title@, owner: owner@, options: opts_view(options@) }),
    {
        Topic { title, options, owner }
    }

    /// The title, unchanged since creation.
    pub fn title(&self) -> (r: &String)
        ensures
            r@ == self@.title,
    {
        &self.title
    }

    /// The identity recorded as the creator.
    pub fn owner(&self) -> (r: &Vec<u8>)
        ensures
            r@ == self@.owner,
    {
        &self.owner
    }

    /// The option list as (name, tally) pairs.
    pub fn options(&self) -> (r: &Vec<(String, u32)>)
        ensures
            opts_view(r@) == self@.options,
    {
        &self.options
    }

    /// The tally stored for the given option name, when present.
    pub fn get_tally(&self, name: &String) -> (r: Option<u32>)
        requires
            self.wf(),
        ensures
            match r {
                Some(t) => has_name(self@.options, name@) && t == tally_of(self@.options, name@),
                None => !has_name(self@.options, name@),
            },
    {
        match find_option(&self.options, name) {
            None => None,
            Some(j) => {
                proof {
                    let opts = opts_view(self.options@);
                    let idx = name_index(opts, name@);
                    assert(opts[idx].0 == name@);
                    assert(idx == j as int);
                }
                Some(self.options[j].1)
            },
        }
    }
}

/// Processing one more requested name extends the built option list by the
/// step that `dedup_zero_from` makes for that name.
pub proof fn lemma_dedup_from_snoc(acc: Seq<(Seq<char>, u32)>, names: Seq<Seq<char>>, x: Seq<char>)
    ensures
        dedup_zero_from(acc, names.push(x)) == ({
            let d = dedup_zero_from(acc, names);
            if has_name(d, x) {
                d
            } else {
                d.push((x, 0u32))
            }
        }),
    decreases names.len(),
{
    if names.len() == 0 {
        let stepx = if has_name(acc, x) {
            acc
        } else {
            acc.push((x, 0u32))
        };
        assert(names.push(x)[0] == x);
        assert(names.push(x).drop_first() =~= Seq::<Seq<char>>::empty());
        assert(dedup_zero_from(acc, names.push(x)) == dedup_zero_from(
            stepx,
            names.push(x).drop_first(),
        ));
        assert(dedup_zero_from(stepx, names.push(x).drop_first()) == stepx);
        assert(dedup_zero_from(acc, names) == acc);
    } else {
        let step = if has_name(acc, names[0]) {
            acc
        } else {
            acc.push((names[0], 0u32))
        };
        assert(names.push(x)[0] == names[0]);
        assert(names.push(x).drop_first() =~= names.drop_first().push(x));
        assert(dedup_zero_from(acc, names.push(x)) == dedup_zero_from(
            step,
            names.drop_first().push(x),
        ));
        assert(dedup_zero_from(acc, names) == dedup_zero_from(step, names.drop_first()));
        lemma_dedup_from_snoc(step, names.drop_first(), x);
    }
}

/// What the option list built from requested names holds: the entries of
/// `acc` as a prefix, then one zero-tally entry per requested name that was
/// new, and nothing else; uniqueness is preserved.
pub proof fn lemma_dedup_from_props(acc: Seq<(Seq<char>, u32)>, names: Seq<Seq<char>>)
    requires
        unique_names(acc),
    ensures
        ({
            let d = dedup_zero_from(acc, names);
            &&& unique_names(d)
            &&& d.len() >= acc.len()
            &&& forall|i: int| 0 <= i < acc.len() ==> d[i] == acc[i]
            &&& forall|i: int| acc.len() <= i < d.len() ==> d[i].1 == 0 && names.contains(d[i].0)
            &&& forall|n: Seq<char>| has_name(d, n) <==> has_name(acc, n) || names.contains(n)
        }),
    decreases names.len(),
{
    let d = dedup_zero_from(acc, names);
    if names.len() == 0 {
        assert(forall|n: Seq<char>| names.contains(n) ==> exists|i: int|
            0 <= i < names.len() && names[i] == n);
    } else {
        let x = names[0];
        let step = if has_name(acc, x) {
            acc
        } else {
            acc.push((x, 0u32))
        };
        if !has_name(acc, x) {
            assert forall|a: int, b: int| 0 <= a < b < step.len() implies step[a].0 != step[b].0 by {
                if b == acc.len() as int {
                    assert(step[b].0 == x);
                    assert(!has_name(acc, x));
                    assert(step[a] == acc[a]);
                }
            }
        }
        lemma_dedup_from_props(step, names.drop_first());
        assert forall|n: Seq<char>| #[trigger] names.contains(n) implies has_name(acc, n)
            || names.drop_first().contains(n) || n == x by {
            let i = choose|i: int| 0 <= i < names.len() && names[i] == n;
            if i > 0 {
                assert(names.drop_first()[i - 1] == n);
            }
        }
        assert forall|n: Seq<char>| has_name(d, n) implies has_name(acc, n) || names.contains(n) by {
            if !has_name(acc, n) {
                if has_name(step, n) && !has_name(acc, n) {
                    let j = name_index(step, n);
                    assert(step[j].0 == n);
                    assert(j == acc.len() as int);
                    assert(n == x);
                    assert(names[0] == n);
                } else {
                    assert(names.drop_first().contains(n));
                    let i = choose|i: int|
                        0 <= i < names.drop_first().len() && names.drop_first()[i] == n;
                    assert(names[i + 1] == n);
                }
            }
        }
        assert forall|n: Seq<char>| has_name(acc, n) || names.contains(n) implies has_name(d, n) by {
            if has_name(acc, n) {
                let j = name_index(acc, n);
                assert(step[j] == acc[j]);
                assert(has_name(step, n));
            } else if n == x {
                assert(step[acc.len() as int].0 == x || has_name(acc, x));
                assert(has_name(step, n));
            } else {
                assert(names.drop_first().contains(n) || has_name(step, n));
            }
        }
        assert forall|i: int| acc.len() <= i < d.len() implies d[i].1 == 0 && names.contains(
            d[i].0,
        ) by {
            if i < step.len() {
                assert(step[i].1 == 0 && step[i].0 == x);
                assert(names[0] == x);
            } else {
                assert(names.drop_first().contains(d[i].0));
                let k = choose|k: int|
                    0 <= k < names.drop_first().len() && names.drop_first()[k] == d[i].0;
                assert(names[k + 1] == d[i].0);
            }
        }
    }
}

/// The record a fresh topic carries: the given title and owner, one option
/// per distinct requested name, every tally zero, names unique.
pub proof fn lemma_new_topic_model(title: Seq<char>, names: Seq<Seq<char>>, owner: Seq<u8>)
    ensures
        ({
            let m = new_topic_model(title, names, owner);
            &&& m.wf()
            &&& m.title == title
            &&& m.owner == owner
            &&& forall|n: Seq<char>| has_name(m.options, n) <==> names.contains(n)
            &&& forall|n: Seq<char>| has_name(m.options, n) ==> tally_of(m.options, n) == 0
        }),
{
    lemma_dedup_from_props(Seq::empty(), names);
    let m = new_topic_model(title, names, owner);
    assert forall|n: Seq<char>| has_name(m.options, n) implies tally_of(m.options, n) == 0 by {
        let j = name_index(m.options, n);
        assert(m.options[j].1 == 0);
    }
}

/// One vote for a known option raises exactly that option's tally by one:
/// the option-name set, every other tally, and the record's shape are kept.
pub proof fn lemma_bump(opts: Seq<(Seq<char>, u32)>, name: Seq<char>)
    requires
        unique_names(opts),
        has_name(opts, name) ==> tally_of(opts, name) < u32::MAX,
    ensures
        ({
            let r = bump(opts, name);
            &&& r.len() == opts.len()
            &&& unique_names(r)
            &&& forall|i: int| 0 <= i < r.len() ==> r[i].0 == opts[i].0
            &&& forall|n: Seq<char>| has_name(r, n) <==> has_name(opts, n)
            &&& (has_name(opts, name) ==> tally_of(r, name) == tally_of(opts, name) + 1)
            &&& forall|n: Seq<char>|
                n != name && has_name(opts, n) ==> tally_of(r, n) == tally_of(opts, n)
        }),
{
    let r = bump(opts, name);
    assert forall|n: Seq<char>| has_name(r, n) implies has_name(opts, n) by {
        let j = name_index(r, n);
        assert(opts[j].0 == n);
    }
    assert forall|n: Seq<char>| has_name(opts, n) implies has_name(r, n) by {
        let j = name_index(opts, n);
        assert(r[j].0 == n);
    }
    if has_name(opts, name) {
        let j = name_index(opts, name);
        let k = name_index(r, name);
        assert(r[k].0 == name && opts[j].0 == name);
        assert(r[k].0 == opts[k].0);
        assert(j == k);
        assert(tally_of(r, name) == r[k].1);
    }
    assert forall|n: Seq<char>| n != name && has_name(opts, n) implies tally_of(r, n) == tally_of(
        opts,
        n,
    ) by {
        let j = name_index(opts, n);
        let k = name_index(r, n);
        assert(r[k].0 == opts[k].0);
        assert(j == k);
        assert(r[k] == opts[k]);
    }
}

/// Removing an option deletes that name and its tally entirely and leaves
/// every other option's name and tally as they were.
pub proof fn lemma_remove_opt(opts: Seq<(Seq<char>, u32)>, name: Seq<char>)
    requires
        unique_names(opts),
    ensures
        ({
            let r = remove_opt(opts, name);
            &&& unique_names(r)
            &&& !has_name(r, name)
            &&& forall|n: Seq<char>| n != name ==> (has_name(r, n) <==> has_name(opts, n))
            &&& forall|n: Seq<char>|
                n != name && has_name(opts, n) ==> tally_of(r, n) == tally_of(opts, n)
        }),
{
    let r = remove_opt(opts, name);
    if has_name(opts, name) {
        let j = name_index(opts, name);
        assert(opts[j].0 == name);
        assert(r == opts.remove(j));
        assert forall|a: int, b: int| 0 <= a < b < r.len() implies r[a].0 != r[b].0 by {
            assert(r[a] == if a < j {
                opts[a]
            } else {
                opts[a + 1]
            });
            assert(r[b] == if b < j {
                opts[b]
            } else {
                opts[b + 1]
            });
        }
        assert forall|i: int| 0 <= i < r.len() implies r[i].0 != name by {
            assert(r[i] == if i < j {
                opts[i]
            } else {
                opts[i + 1]
            });
        }
        assert forall|n: Seq<char>| n != name && has_name(opts, n) implies has_name(r, n)
            && tally_of(r, n) == tally_of(opts, n) by {
            let a = name_index(opts, n);
            assert(opts[a].0 == n);
            assert(a != j);
            if a < j {
                assert(r[a] == opts[a]);
            } else {
                assert(r[a - 1] == opts[a]);
            }
            assert(has_name(r, n));
            let b = name_index(r, n);
            assert(r[b].0 == n);
            let orig = if b < j {
                b
            } else {
                b + 1
            };
            assert(opts[orig].0 == n);
            assert(orig == a);
        }
        assert forall|n: Seq<char>| n != name && has_name(r, n) implies has_name(opts, n) by {
            let b = name_index(r, n);
            assert(r[b] == if b < j {
                opts[b]
            } else {
                opts[b + 1]
            });
        }
    }
}

/// Adding an option puts the name in with a zero tally when it was absent,
/// changes nothing when it was present, and touches no other option.
pub proof fn lemma_add_opt(opts: Seq<(Seq<char>, u32)>, name: Seq<char>)
    requires
        unique_names(opts),
    ensures
        ({
            let r = add_opt(opts, name);
            &&& unique_names(r)
            &&& has_name(r, name)
            &&& tally_of(r, name) == if has_name(opts, name) {
                tally_of(opts, name)
            } else {
                0u32
            }
            &&& forall|n: Seq<char>| n != name ==> (has_name(r, n) <==> has_name(opts, n))
            &&& forall|n: Seq<char>|
                n != name && has_name(opts, n) ==> tally_of(r, n) == tally_of(opts, n)
        }),
{
    let r = add_opt(opts, name);
    if !has_name(opts, name) {
        assert(r == opts.push((name, 0u32)));
        assert(r[opts.len() as int].0 == name);
        assert forall|a: int, b: int| 0 <= a < b < r.len() implies r[a].0 != r[b].0 by {
            if b == opts.len() as int {
                assert(r[a] == opts[a]);
                assert(r[b].0 == name);
            } else {
                assert(r[a] == opts[a] && r[b] == opts[b]);
            }
        }
        assert(has_name(r, name));
        let k = name_index(r, name);
        assert(r[k].0 == name);
        assert forall|i: int| 0 <= i < opts.len() implies r[i].0 != name by {
            assert(r[i] == opts[i]);
        }
        assert(k == opts.len() as int);
        assert(tally_of(r, name) == 0);
        assert forall|n: Seq<char>| n != name && has_name(opts, n) implies has_name(r, n)
            && tally_of(r, n) == tally_of(opts, n) by {
            let a = name_index(opts, n);
            assert(r[a] == opts[a]);
            assert(has_name(r, n));
            let b = name_index(r, n);
            assert(r[b].0 == n);
            assert(b != opts.len() as int);
            assert(opts[b].0 == n);
            assert(b == a);
        }
        assert forall|n: Seq<char>| n != name && has_name(r, n) implies has_name(opts, n) by {
            let b = name_index(r, n);
            assert(b != opts.len() as int);
            assert(opts[b].0 == n);
        }
    }
}

} // verus!
