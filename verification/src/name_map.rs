//! A small map from names to values that keeps names in first-insertion order.
use vstd::prelude::*;

verus! {

/// The value stored under `k` in a list of entries (the first entry wins).
pub open spec fn lookup<T>(entries: Seq<(Seq<char>, T)>, k: Seq<char>) -> Option<T>
    decreases entries.len(),
{
    if entries.len() == 0 {
        None
    } else if entries[0].0 == k {
        Some(entries[0].1)
    } else {
        lookup(entries.drop_first(), k)
    }
}

/// No name occurs twice.
pub open spec fn names_distinct<T>(entries: Seq<(Seq<char>, T)>) -> bool {
    forall|i: int, j: int|
        0 <= i < entries.len() && 0 <= j < entries.len() && i != j ==> #[trigger] entries[i].0
            != #[trigger] entries[j].0
}

/// Index of the entry named `k`.
pub open spec fn position<T>(entries: Seq<(Seq<char>, T)>, k: Seq<char>) -> Option<int>
    decreases entries.len(),
{
    if entries.len() == 0 {
        None
    } else if entries[0].0 == k {
        Some(0)
    } else {
        match position(entries.drop_first(), k) {
            Some(p) => Some(p + 1),
            None => None,
        }
    }
}

/// The entries after storing `v` under `k`: an existing entry keeps its
/// place and takes the new value, a new name goes last.
pub open spec fn stored<T>(entries: Seq<(Seq<char>, T)>, k: Seq<char>, v: T) -> Seq<(Seq<char>, T)> {
    match position(entries, k) {
        Some(p) => entries.update(p, (k, v)),
        None => entries.push((k, v)),
    }
}

pub proof fn lemma_position<T>(entries: Seq<(Seq<char>, T)>, k: Seq<char>)
    ensures
        match position(entries, k) {
            Some(p) => 0 <= p < entries.len() && entries[p].0 == k && lookup(entries, k) == Some(
                entries[p].1,
            ) && forall|j: int| 0 <= j < p ==> (#[trigger] entries[j]).0 != k,
            None => lookup(entries, k) is None && forall|j: int|
                0 <= j < entries.len() ==> (#[trigger] entries[j]).0 != k,
        },
    decreases entries.len(),
{
    if entries.len() > 0 && entries[0].0 != k {
        lemma_position(entries.drop_first(), k);
        assert forall|j: int| 0 < j < entries.len() implies entries[j] == entries.drop_first()[j - 1] by {}
    }
}

/// Names mapped to values, in first-insertion order. (vstd specifies a
/// `HashMap`'s contents only for key types whose hashing it models, the
/// integers among them; names are `String`s, so they are kept here.)
pub struct NameMap<T> {
    entries: Vec<(String, T)>,
}

impl<T> View for NameMap<T> {
    type V = Seq<(Seq<char>, T)>;

    closed spec fn view(&self) -> Seq<(Seq<char>, T)> {
        Seq::new(self.entries@.len(), |i: int| (self.entries@[i].0@, self.entries@[i].1))
    }
}

impl<T: Copy> NameMap<T> {
    pub fn new() -> (m: Self)
        ensures
            m@ == Seq::<(Seq<char>, T)>::empty(),
            names_distinct(m@),
    {
        let m = NameMap { entries: Vec::new() };
        assert(m@ =~= Seq::<(Seq<char>, T)>::empty());
        m
    }

    /// The number of names.
    pub fn len(&self) -> (n: usize)
        ensures
            n == self@.len(),
    {
        self.entries.len()
    }

    fn find(&self, key: &String) -> (r: Option<usize>)
        ensures
            match r {
                Some(p) => position(self@, key@) == Some(p as int),
                None => position(self@, key@) is None,
            },
    {
        proof { lemma_position(self@, key@); }
        let mut i: usize = 0;
        while i < self.entries.len()
            invariant
                i <= self@.len(),
                self@.len() == self.entries@.len(),
                forall|j: int| 0 <= j < i ==> (#[trigger] self@[j]).0 != key@,
                match position(self@, key@) {
                    Some(p) => 0 <= p < self@.len() && self@[p].0 == key@ && forall|j: int|
                        0 <= j < p ==> (#[trigger] self@[j]).0 != key@,
                    None => forall|j: int| 0 <= j < self@.len() ==> (#[trigger] self@[j]).0 != key@,
                },
            decreases self.entries.len() - i,
        {
            assert(self@[i as int].0 == self.entries@[i as int].0@);
            if self.entries[i].0 == *key {
                return Some(i);
            }
            i = i + 1;
        }
        None
    }

    /// Store `value` under `key`, returning the value it replaces.
    pub fn insert(&mut self, key: String, value: T) -> (r: Option<T>)
        ensures
            final(self)@ == stored(old(self)@, key@, value),
            r == lookup(old(self)@, key@),
            names_distinct(old(self)@) ==> names_distinct(final(self)@),
    {
        proof {
            lemma_position(self@, key@);
            if names_distinct(self@) {
                law_insert_keeps_names_distinct(self@, key@, value);
            }
        }
        match self.find(&key) {
            Some(p) => {
                let previous = self.entries[p].1;
                let ghost k = key@;
                self.entries.set(p, (key, value));
                assert(self@ =~= old(self)@.update(p as int, (k, value)));
                Some(previous)
            },
            None => {
                let ghost k = key@;
                self.entries.push((key, value));
                assert(self@ =~= old(self)@.push((k, value)));
                None
            },
        }
    }

    /// The value stored under `key`.
    pub fn get(&self, key: &String) -> (r: Option<T>)
        ensures
            r == lookup(self@, key@),
    {
        proof { lemma_position(self@, key@); }
        match self.find(key) {
            Some(p) => Some(self.entries[p].1),
            None => None,
        }
    }

    /// The name and value of entry `i`.
    pub fn entry(&self, i: usize) -> (r: (&String, T))
        requires
            i < self@.len(),
        ensures
            r.0@ == self@[i as int].0,
            r.1 == self@[i as int].1,
    {
        (&self.entries[i].0, self.entries[i].1)
    }
}

/// Storing under a name and then reading it gives the stored value back;
/// reading any other name is unaffected.
pub proof fn law_get_after_insert<T>(entries: Seq<(Seq<char>, T)>, k: Seq<char>, v: T, other: Seq<char>)
    ensures
        lookup(stored(entries, k, v), k) == Some(v),
        other != k ==> lookup(stored(entries, k, v), other) == lookup(entries, other),
{
    lemma_position(entries, k);
    lemma_position(entries, other);
    let s = stored(entries, k, v);
    lemma_position(s, k);
    lemma_position(s, other);
    match position(entries, k) {
        Some(p) => {
            assert(s[p].0 == k);
            if position(s, k) != Some(p) {
                let q = position(s, k)->0;
                assert(q < p ==> s[q] == entries[q]);
            }
            if other != k {
                match position(entries, other) {
                    Some(q) => {
                        assert(s[q] == entries[q]);
                        if position(s, other) != Some(q) {
                            let q2 = position(s, other)->0;
                            assert(q2 < q ==> s[q2] == entries[q2] || q2 == p);
                        }
                    },
                    None => {
                        assert forall|j: int| 0 <= j < s.len() implies (#[trigger] s[j]).0 != other by {
                            if j != p {
                                assert(s[j] == entries[j]);
                            }
                        }
                    },
                }
            }
        },
        None => {
            assert(s[entries.len() as int].0 == k);
            if other != k {
                match position(entries, other) {
                    Some(q) => {
                        assert(s[q] == entries[q]);
                        if position(s, other) != Some(q) {
                            let q2 = position(s, other)->0;
                            assert(q2 < q ==> s[q2] == entries[q2]);
                        }
                    },
                    None => {
                        assert forall|j: int| 0 <= j < s.len() implies (#[trigger] s[j]).0 != other by {
                            if j < entries.len() {
                                assert(s[j] == entries[j]);
                            }
                        }
                    },
                }
            }
        },
    }
}

/// Storing keeps names distinct.
pub proof fn law_insert_keeps_names_distinct<T>(entries: Seq<(Seq<char>, T)>, k: Seq<char>, v: T)
    requires
        names_distinct(entries),
    ensures
        names_distinct(stored(entries, k, v)),
{
    lemma_position(entries, k);
    let s = stored(entries, k, v);
    assert forall|i: int, j: int| 0 <= i < s.len() && 0 <= j < s.len() && i != j implies #[trigger] s[i].0
        != #[trigger] s[j].0 by {
        match position(entries, k) {
            Some(p) => {
                if i != p && j != p {
                    assert(s[i] == entries[i] && s[j] == entries[j]);
                } else if i == p {
                    assert(s[j] == entries[j]);
                    assert(entries[p].0 == k);
                } else {
                    assert(s[i] == entries[i]);
                    assert(entries[p].0 == k);
                }
            },
            None => {
                if i < entries.len() && j < entries.len() {
                    assert(s[i] == entries[i] && s[j] == entries[j]);
                } else if i < entries.len() {
                    assert(s[i] == entries[i]);
                } else {
                    assert(s[j] == entries[j]);
                }
            },
        }
    }
}

} // verus!
