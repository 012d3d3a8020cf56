//! The metadata store attached to a route: a bag of typed attributes, one per
//! string key. Its spec-level content is a `Map` from key characters to
//! `MetaValue`; every operation's contract is stated over that map.
use crate::kvlist::find_key;
use crate::kvlist::keys_unique;
use crate::kvlist::lemma_pairs_map_contains;
use crate::kvlist::lemma_pairs_map_dom;
use crate::kvlist::lemma_pairs_map_index;
use crate::kvlist::lemma_pairs_map_push;
use crate::kvlist::lemma_pairs_map_remove;
use crate::kvlist::lemma_pairs_map_update;
use crate::kvlist::pairs_map;
use vstd::prelude::*;

verus! {

/// A typed metadata value: string, integer or boolean.
#[derive(Debug)]
pub enum MetaType {
    Str(String),
    Num(usize),
    Bol(bool),
}

/// The spec-level shape of a `MetaType`.
#[verifier::ext_equal]
pub ghost enum MetaValue {
    Str(Seq<char>),
    Num(int),
    Bol(bool),
}

impl View for MetaType {
    type V = MetaValue;

    open spec fn view(&self) -> MetaValue {
        match self {
            MetaType::Str(s) => MetaValue::Str(s@),
            MetaType::Num(n) => MetaValue::Num(*n as int),
            MetaType::Bol(b) => MetaValue::Bol(*b),
        }
    }
}

impl MetaType {
    /// A copy holding the same value.
    pub fn dup(&self) -> (r: MetaType)
        ensures
            r == *self,
    {
        match self {
            MetaType::Str(s) => MetaType::Str(s.clone()),
            MetaType::Num(n) => MetaType::Num(*n),
            MetaType::Bol(b) => MetaType::Bol(*b),
        }
    }
}

impl From<&str> for MetaType {
    fn from(value: &str) -> (r: Self) {
        MetaType::Str(value.to_owned())
    }
}

impl vstd::std_specs::convert::FromSpecImpl<&str> for MetaType {
    open spec fn obeys_from_spec() -> bool {
        false
    }

    open spec fn from_spec(v: &str) -> MetaType {
        vstd::pervasive::arbitrary()
    }
}

impl From<usize> for MetaType {
    fn from(value: usize) -> (r: Self) {
        MetaType::Num(value)
    }
}

impl vstd::std_specs::convert::FromSpecImpl<usize> for MetaType {
    open spec fn obeys_from_spec() -> bool {
        true
    }

    open spec fn from_spec(v: usize) -> MetaType {
        MetaType::Num(v)
    }
}

impl From<bool> for MetaType {
    fn from(value: bool) -> (r: Self) {
        MetaType::Bol(value)
    }
}

impl vstd::std_specs::convert::FromSpecImpl<bool> for MetaType {
    open spec fn obeys_from_spec() -> bool {
        true
    }

    open spec fn from_spec(v: bool) -> MetaType {
        MetaType::Bol(v)
    }
}

/// The spec-level entries of a metadata entry list.
pub open spec fn meta_entry_views(s: Seq<(String, MetaType)>) -> Seq<(Seq<char>, MetaValue)> {
    Seq::new(s.len(), |i: int| (s[i].0@, s[i].1@))
}

/// A metadata store: one typed value per string key.
#[derive(Debug)]
pub struct Meta {
    pub entries: Vec<(String, MetaType)>,
}

impl View for Meta {
    type V = Map<Seq<char>, MetaValue>;

    open spec fn view(&self) -> Map<Seq<char>, MetaValue> {
        pairs_map(meta_entry_views(self.entries@))
    }
}

impl Default for Meta {
    fn default() -> (r: Self)
        ensures
            r@ == Map::<Seq<char>, MetaValue>::empty(),
            r.wf(),
    {
        Meta { entries: Vec::new() }
    }
}

impl Meta {
    /// Well-formed: no two entries share a key.
    pub open spec fn wf(&self) -> bool {
        keys_unique(meta_entry_views(self.entries@))
    }

    /// The number of keys held.
    pub fn len(&self) -> (r: usize)
        requires
            self.wf(),
        ensures
            r == self@.dom().len(),
    {
        proof {
            lemma_pairs_map_dom(meta_entry_views(self.entries@));
        }
        self.entries.len()
    }

    /// Whether no key is held.
    pub fn is_empty(&self) -> (r: bool)
        requires
            self.wf(),
        ensures
            r == (self@.dom().len() == 0),
    {
        proof {
            lemma_pairs_map_dom(meta_entry_views(self.entries@));
        }
        self.entries.len() == 0
    }

    /// The value held under `key`, if any.
    pub fn get(&self, key: &str) -> (r: Option<&MetaType>)
        requires
            self.wf(),
        ensures
            match r {
                Some(v) => self@.contains_key(key@) && v@ == self@[key@],
                None => !self@.contains_key(key@),
            },
    {
        let views = Ghost(meta_entry_views(self.entries@));
        match find_key(&self.entries, key) {
            Some(i) => {
                proof {
                    lemma_pairs_map_index(views@, i as int);
                }
                Some(&self.entries[i].1)
            },
            None => {
                proof {
                    lemma_pairs_map_contains(views@, key@);
                }
                None
            },
        }
    }

    /// Stores `value` under `key`, returning the value previously there.
    /// Afterwards the store maps `key` to `value` and all other keys as before.
    pub fn insert(&mut self, key: &str, value: MetaType) -> (r: Option<MetaType>)
        requires
            old(self).wf(),
        ensures
            final(self).wf(),
            final(self)@ == old(self)@.insert(key@, value@),
            match r {
                Some(v) => old(self)@.contains_key(key@) && v@ == old(self)@[key@],
                None => !old(self)@.contains_key(key@),
            },
    {
        let views = Ghost(meta_entry_views(self.entries@));
        match find_key(&self.entries, key) {
            Some(i) => {
                proof {
                    lemma_pairs_map_index(views@, i as int);
                    lemma_pairs_map_update(views@, i as int, key@, value@);
                }
                let (k_old, v_old) = self.entries.remove(i);
                self.entries.insert(i, (k_old, value));
                proof {
                    assert(self.entries@ =~= old(self).entries@.update(
                        i as int,
                        (old(self).entries@[i as int].0, value),
                    ));
                    assert(meta_entry_views(self.entries@) =~= views@.update(
                        i as int,
                        (key@, value@),
                    ));
                }
                Some(v_old)
            },
            None => {
                proof {
                    lemma_pairs_map_contains(views@, key@);
                    lemma_pairs_map_push(views@, key@, value@);
                }
                self.entries.push((key.to_owned(), value));
                proof {
                    assert(meta_entry_views(self.entries@) =~= views@.push((key@, value@)));
                }
                None
            },
        }
    }

    /// Removes the value under `key`, returning it if it was there.
    pub fn remove(&mut self, key: &str) -> (r: Option<MetaType>)
        requires
            old(self).wf(),
        ensures
            final(self).wf(),
            final(self)@ == old(self)@.remove(key@),
            match r {
                Some(v) => old(self)@.contains_key(key@) && v@ == old(self)@[key@],
                None => !old(self)@.contains_key(key@),
            },
    {
        let views = Ghost(meta_entry_views(self.entries@));
        match find_key(&self.entries, key) {
            Some(i) => {
                proof {
                    lemma_pairs_map_index(views@, i as int);
                    lemma_pairs_map_remove(views@, i as int);
                }
                let (_k_old, v_old) = self.entries.remove(i);
                proof {
                    assert(meta_entry_views(self.entries@) =~= views@.remove(i as int));
                }
                Some(v_old)
            },
            None => {
                proof {
                    lemma_pairs_map_contains(views@, key@);
                    assert(old(self)@.remove(key@) =~= old(self)@);
                }
                None
            },
        }
    }

    /// Adds every entry of `meta`; on a key held by both, `meta`'s value wins.
    pub fn merge_rhs(&mut self, meta: &Meta)
        requires
            old(self).wf(),
        ensures
            final(self).wf(),
            final(self)@ == old(self)@.union_prefer_right(meta@),
    {
        let mut j: usize = 0;
        proof {
            assert(meta_entry_views(meta.entries@).take(0) =~= Seq::<(
                Seq<char>,
                MetaValue,
            )>::empty());
            assert(old(self)@.union_prefer_right(pairs_map(Seq::<(Seq<char>, MetaValue)>::empty()))
                =~= old(self)@);
        }
        while j < meta.entries.len()
            invariant
                j <= meta.entries@.len(),
                self.wf(),
                self@ == old(self)@.union_prefer_right(
                    pairs_map(meta_entry_views(meta.entries@).take(j as int)),
                ),
            decreases meta.entries@.len() - j,
        {
            let value = meta.entries[j].1.dup();
            proof {
                let mviews = meta_entry_views(meta.entries@);
                lemma_pairs_map_push(mviews.take(j as int), mviews[j as int].0, mviews[j as int].1);
                assert(mviews.take(j as int).push(mviews[j as int]) =~= mviews.take(j + 1));
                assert(old(self)@.union_prefer_right(pairs_map(mviews.take(j as int))).insert(
                    mviews[j as int].0,
                    mviews[j as int].1,
                ) =~= old(self)@.union_prefer_right(pairs_map(mviews.take(j + 1))));
            }
            self.insert(meta.entries[j].0.as_str(), value);
            j += 1;
        }
        proof {
            assert(meta_entry_views(meta.entries@).take(meta.entries@.len() as int)
                =~= meta_entry_views(meta.entries@));
        }
    }

    /// A copy holding the same entries.
    pub fn dup(&self) -> (r: Meta)
        ensures
            r@ == self@,
            r.wf() == self.wf(),
    {
        let mut entries: Vec<(String, MetaType)> = Vec::new();
        let mut j: usize = 0;
        while j < self.entries.len()
            invariant
                j <= self.entries@.len(),
                entries@ =~= self.entries@.take(j as int),
            decreases self.entries@.len() - j,
        {
            entries.push((self.entries[j].0.clone(), self.entries[j].1.dup()));
            proof {
                assert(entries@ =~= self.entries@.take(j + 1));
            }
            j += 1;
        }
        proof {
            assert(entries@ =~= self.entries@);
        }
        Meta { entries }
    }
}

} // verus!
