//! A map keyed by text, kept in the order of its keys.

use crate::{order, text};
use vstd::prelude::*;

verus! {

/// A map from texts to values that can be walked in the order of its keys.
#[derive(Debug)]
pub struct Table<V> {
    keys: Vec<String>,
    values: Vec<V>,
}

impl<V> View for Table<V> {
    type V = Map<Seq<char>, V>;

    closed spec fn view(&self) -> Map<Seq<char>, V> {
        Map::new(
            |key: Seq<char>| text::views(self.keys@).contains(key),
            |key: Seq<char>| self.values@[place(text::views(self.keys@), key)],
        )
    }
}

/// Where `key` stands in `keys`.
spec fn place(keys: Seq<Seq<char>>, key: Seq<char>) -> int {
    choose|i: int| 0 <= i < keys.len() && keys[i] == key
}

proof fn lemma_place(keys: Seq<Seq<char>>, i: int)
    requires
        order::ascending(keys),
        0 <= i < keys.len(),
    ensures
        place(keys, keys[i]) == i,
        keys.contains(keys[i]),
{
    let k = place(keys, keys[i]);
    assert(0 <= k < keys.len() && keys[k] == keys[i]);
    order::lemma_precedes_total(keys[i], keys[i]);
}

impl<V> Table<V> {
    #[verifier::type_invariant]
    spec fn well_formed(self) -> bool {
        &&& self.keys@.len() == self.values@.len()
        &&& order::ascending(text::views(self.keys@))
    }

    /// The keys, in order.
    pub closed spec fn keys(self) -> Seq<Seq<char>> {
        text::views(self.keys@)
    }

    /// An empty table.
    pub fn new() -> (r: Self)
        ensures
            r@ == Map::<Seq<char>, V>::empty(),
            r.keys() == Seq::<Seq<char>>::empty(),
    {
        let r = Table { keys: Vec::new(), values: Vec::new() };
        assert(text::views(r.keys@) =~= seq![]);
        assert(r@ =~= Map::empty());
        r
    }

    /// How many keys stand before `key`.
    fn find(&self, key: &str) -> (r: usize)
        ensures
            r <= self.keys@.len(),
            forall|i: int|
                0 <= i < r ==> order::precedes(#[trigger] text::views(self.keys@)[i], key@),
            forall|i: int|
                r <= i < self.keys@.len() ==> !order::precedes(
                    #[trigger] text::views(self.keys@)[i],
                    key@,
                ),
    {
        proof {
            use_type_invariant(self);
        }
        let ghost names = text::views(self.keys@);
        let mut low: usize = 0;
        let mut high: usize = self.keys.len();
        while low < high
            invariant
                low <= high <= self.keys@.len(),
                names == text::views(self.keys@),
                order::ascending(names),
                forall|i: int| 0 <= i < low ==> order::precedes(#[trigger] names[i], key@),
                forall|i: int|
                    high <= i < names.len() ==> !order::precedes(#[trigger] names[i], key@),
            decreases high - low,
        {
            let middle: usize = low + (high - low) / 2;
            if order::text_precedes(self.keys[middle].as_str(), key) {
                proof {
                    assert forall|i: int| 0 <= i < middle + 1 implies order::precedes(
                        #[trigger] names[i],
                        key@,
                    ) by {
                        if i < middle {
                            order::lemma_precedes_transitive(
                                names[i],
                                names[middle as int],
                                key@,
                            );
                        }
                    }
                }
                low = middle + 1;
            } else {
                proof {
                    assert forall|i: int| middle <= i < names.len() implies !order::precedes(
                        #[trigger] names[i],
                        key@,
                    ) by {
                        if i > middle && order::precedes(names[i], key@) {
                            order::lemma_precedes_transitive(
                                names[middle as int],
                                names[i],
                                key@,
                            );
                        }
                    }
                }
                high = middle;
            }
        }
        low
    }

    /// The value of a key.
    pub fn get(&self, key: &str) -> (r: Option<&V>)
        ensures
            match r {
                Some(value) => self@.contains_key(key@) && *value == self@[key@],
                None => !self@.contains_key(key@),
            },
    {
        proof {
            use_type_invariant(self);
        }
        let at: usize = self.find(key);
        let ghost names = text::views(self.keys@);
        if at < self.keys.len() && text::str_eq(self.keys[at].as_str(), key) {
            proof {
                assert(names[at as int] == key@);
                lemma_place(names, at as int);
            }
            return Some(&self.values[at]);
        }
        proof {
            if names.contains(key@) {
                let k = choose|k: int| 0 <= k < names.len() && names[k] == key@;
                order::lemma_precedes_total(key@, key@);
                if k > at {
                    assert(order::precedes(names[at as int], names[k]));
                }
            }
        }
        None
    }

    /// Set the value of a key.
    pub fn insert(&mut self, key: String, value: V)
        ensures
            final(self)@ == old(self)@.insert(key@, value),
    {
        proof {
            use_type_invariant(&*self);
        }
        let at: usize = self.find(key.as_str());
        let ghost before = *self;
        let ghost names = text::views(self.keys@);
        let mut taken = Table { keys: Vec::new(), values: Vec::new() };
        std::mem::swap(self, &mut taken);
        let Table { mut keys, mut values } = taken;
        if at < keys.len() && text::str_eq(keys[at].as_str(), key.as_str()) {
            values.set(at, value);
            *self = Table { keys, values };
            proof {
                assert(names[at as int] == key@);
                let after = self@;
                assert forall|k: Seq<char>| names.contains(k) implies #[trigger] after[k] == before@.insert(
                    key@,
                    value,
                )[k] by {
                    let i = choose|i: int| 0 <= i < names.len() && names[i] == k;
                    lemma_place(names, i);
                    lemma_place(names, at as int);
                }
                lemma_place(names, at as int);
                assert(after =~= before@.insert(key@, value));
            }
        } else {
            let ghost word = key@;
            proof {
                assert forall|i: int| at <= i < names.len() implies order::precedes(
                    word,
                    #[trigger] names[i],
                ) by {
                    order::lemma_precedes_total(word, names[i]);
                    if i > at && names[i] == word {
                        assert(order::precedes(names[at as int], names[i]));
                    }
                }
            }
            keys.insert(at, key);
            values.insert(at, value);
            proof {
                let after = text::views(keys@);
                assert(after =~= names.insert(at as int, word));
                assert forall|i: int, j: int| 0 <= i < j < after.len() implies order::precedes(
                    #[trigger] after[i],
                    #[trigger] after[j],
                ) by {
                    if i < at {
                        assert(after[i] == names[i]);
                    } else if i > at {
                        assert(after[i] == names[i - 1]);
                    }
                    if j < at {
                        assert(after[j] == names[j]);
                    } else if j > at {
                        assert(after[j] == names[j - 1]);
                    }
                }
            }
            *self = Table { keys, values };
            proof {
                let after = text::views(self.keys@);
                let expected = before@.insert(word, value);
                lemma_place(after, at as int);
                assert forall|k: Seq<char>| #[trigger] self@.contains_key(k)
                    == expected.contains_key(k) by {
                    if after.contains(k) {
                        let i = choose|i: int| 0 <= i < after.len() && after[i] == k;
                        if i < at {
                            assert(names[i] == k);
                        } else if i > at {
                            assert(names[i - 1] == k);
                        }
                    }
                    if names.contains(k) {
                        let i = choose|i: int| 0 <= i < names.len() && names[i] == k;
                        if i < at {
                            assert(after[i] == k);
                        } else {
                            assert(after[i + 1] == k);
                        }
                    }
                }
                assert forall|k: Seq<char>| self@.contains_key(k) implies #[trigger] self@[k]
                    == expected[k] by {
                    let i = choose|i: int| 0 <= i < after.len() && after[i] == k;
                    lemma_place(after, i);
                    if i < at {
                        lemma_place(names, i);
                        assert(names[i] == k);
                        assert(k != word) by {
                            order::lemma_precedes_total(k, word);
                        }
                    } else if i > at {
                        lemma_place(names, i - 1);
                        assert(names[i - 1] == k);
                        assert(k != word) by {
                            order::lemma_precedes_total(k, word);
                        }
                    }
                }
                assert(self@ =~= expected);
            }
        }
    }

    /// How many keys the table has. Its keys are those of the map, in ascending
    /// order.
    pub fn len(&self) -> (r: usize)
        ensures
            r == self.keys().len(),
            order::ascending(self.keys()),
            forall|k: Seq<char>| #[trigger] self.keys().contains(k) <==> self@.contains_key(k),
    {
        proof {
            use_type_invariant(self);
        }
        self.keys.len()
    }

    /// The key and the value at a place in the order of the keys.
    pub fn entry(&self, at: usize) -> (r: (&String, &V))
        requires
            at < self.keys().len(),
        ensures
            r.0@ == self.keys()[at as int],
            self@.contains_key(r.0@),
            self@[r.0@] == *r.1,
    {
        proof {
            use_type_invariant(self);
            lemma_place(text::views(self.keys@), at as int);
        }
        (&self.keys[at], &self.values[at])
    }
}

} // verus!
