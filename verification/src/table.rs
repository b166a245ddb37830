//! The application table: an ordered mapping from entry keys to colors,
//! keys unique, insertion order preserved.

use vstd::prelude::*;

use crate::color::RGB;
use crate::key::{EntryKey, KeyModel, key_eq, key_valid};

verus! {

/// A table of player color overrides.  The vector holds the pairs in
/// insertion order; [`PlayerColorParam::wf`] states that keys are unique
/// and every key satisfies the key invariant.
pub struct PlayerColorParam {
    pub entries: Vec<(EntryKey, RGB)>,
}

/// The index of the first pair whose key matches, or -1 when none does.
pub open spec fn pair_index<K, V>(s: Seq<(K, V)>, k: K) -> int
    decreases s.len(),
{
    if s.len() == 0 {
        -1
    } else if s[0].0 == k {
        0
    } else {
        let r = pair_index(s.drop_first(), k);
        if r < 0 {
            -1
        } else {
            r + 1
        }
    }
}

/// Insertion with last-write-wins semantics: a new key is appended, an
/// existing key keeps its position and takes the new value.
pub open spec fn pair_insert<K, V>(s: Seq<(K, V)>, k: K, v: V) -> Seq<(K, V)> {
    if pair_index(s, k) >= 0 {
        s.update(pair_index(s, k), (k, v))
    } else {
        s.push((k, v))
    }
}

/// Whether the table holds a pair with the given key.
pub open spec fn table_contains(s: Seq<(KeyModel, RGB)>, k: KeyModel) -> bool {
    pair_index(s, k) >= 0
}

/// The color bound to a key, if any.
pub open spec fn table_get(s: Seq<(KeyModel, RGB)>, k: KeyModel) -> Option<RGB> {
    if pair_index(s, k) >= 0 {
        Some(s[pair_index(s, k)].1)
    } else {
        None
    }
}

/// Insertion of a key-to-color binding, last write wins.
pub open spec fn table_insert(s: Seq<(KeyModel, RGB)>, k: KeyModel, c: RGB) -> Seq<
    (KeyModel, RGB),
> {
    pair_insert(s, k, c)
}

/// No two pairs share a key.
pub open spec fn keys_unique(s: Seq<(KeyModel, RGB)>) -> bool {
    forall|i: int, j: int| 0 <= i < j < s.len() ==> s[i].0 != s[j].0
}

/// Every key satisfies the key invariant.
pub open spec fn keys_valid(s: Seq<(KeyModel, RGB)>) -> bool {
    forall|i: int| 0 <= i < s.len() ==> key_valid(#[trigger] s[i].0)
}

/// `pair_index` finds exactly the first match: if the key differs from
/// every key before position `i` and matches at `i`, the index is `i`; if
/// it matches nowhere, the index is -1.
pub proof fn lemma_pair_index_first_match<K, V>(s: Seq<(K, V)>, k: K, i: int)
    requires
        0 <= i <= s.len(),
        forall|j: int| 0 <= j < i ==> s[j].0 != k,
        i < s.len() ==> s[i].0 == k,
    ensures
        i < s.len() ==> pair_index(s, k) == i,
        i == s.len() ==> pair_index(s, k) == -1,
    decreases s.len(),
{
    if s.len() > 0 {
        if s[0].0 == k {
        } else {
            assert(forall|j: int| 0 <= j < i - 1 ==> s.drop_first()[j].0 != k);
            lemma_pair_index_first_match(s.drop_first(), k, i - 1);
        }
    }
}

/// The found index is in range and holds the key.
pub proof fn lemma_pair_index_found<K, V>(s: Seq<(K, V)>, k: K)
    requires
        pair_index(s, k) >= 0,
    ensures
        pair_index(s, k) < s.len(),
        s[pair_index(s, k)].0 == k,
    decreases s.len(),
{
    if s.len() > 0 && s[0].0 != k {
        lemma_pair_index_found(s.drop_first(), k);
    }
}

/// A negative index means no pair holds the key.
pub proof fn lemma_pair_index_none<K, V>(s: Seq<(K, V)>, k: K)
    requires
        pair_index(s, k) < 0,
    ensures
        forall|i: int| 0 <= i < s.len() ==> s[i].0 != k,
    decreases s.len(),
{
    if s.len() > 0 {
        lemma_pair_index_none(s.drop_first(), k);
        assert(forall|i: int| 1 <= i < s.len() ==> s[i] == s.drop_first()[i - 1]);
    }
}

/// Appending a pair with a different key keeps a key absent.
pub proof fn lemma_pair_index_push_absent<K, V>(s: Seq<(K, V)>, p: (K, V), k: K)
    requires
        pair_index(s, k) < 0,
        p.0 != k,
    ensures
        pair_index(s.push(p), k) < 0,
{
    lemma_pair_index_none(s, k);
    lemma_pair_index_first_match(s.push(p), k, s.len() as int + 1);
}

/// Insertion preserves uniqueness and validity of keys.
pub proof fn lemma_table_insert_wf(s: Seq<(KeyModel, RGB)>, k: KeyModel, c: RGB)
    requires
        keys_unique(s),
        keys_valid(s),
        key_valid(k),
    ensures
        keys_unique(table_insert(s, k, c)),
        keys_valid(table_insert(s, k, c)),
{
    if pair_index(s, k) >= 0 {
        lemma_pair_index_found(s, k);
    } else {
        lemma_pair_index_none(s, k);
    }
}

impl PlayerColorParam {
    /// The mathematical value of the table: its key-to-color pairs, in
    /// order.
    pub open spec fn view(&self) -> Seq<(KeyModel, RGB)> {
        Seq::new(self.entries@.len(), |i: int| (self.entries@[i].0@, self.entries@[i].1))
    }

    /// The table invariant: keys unique and every key valid.
    pub open spec fn wf(&self) -> bool {
        keys_unique(self.view()) && keys_valid(self.view())
    }

    /// An empty table.
    pub fn new() -> (r: PlayerColorParam)
        ensures
            r@ == Seq::<(KeyModel, RGB)>::empty(),
            r.wf(),
    {
        let r = PlayerColorParam { entries: Vec::new() };
        proof {
            assert(r@ =~= Seq::<(KeyModel, RGB)>::empty());
        }
        r
    }

    /// The number of pairs in the table.
    pub fn len(&self) -> (r: usize)
        ensures
            r == self@.len(),
    {
        self.entries.len()
    }

    /// Binds a color to a key.  A key already present keeps its position
    /// and takes the new color; a new key is appended.
    pub fn insert(&mut self, key: EntryKey, color: RGB)
        requires
            old(self).wf(),
            key.valid(),
        ensures
            final(self)@ == table_insert(old(self)@, key@, color),
            final(self).wf(),
    {
        let n = self.entries.len();
        let mut i: usize = 0;
        while i < n
            invariant
                *self == *old(self),
                old(self).wf(),
                key.valid(),
                n == self@.len(),
                i <= n,
                forall|j: int| 0 <= j < i ==> self@[j].0 != key@,
            decreases n - i,
        {
            if key_eq(&self.entries[i].0, &key) {
                proof {
                    lemma_pair_index_first_match(self@, key@, i as int);
                    lemma_table_insert_wf(self@, key@, color);
                }
                self.entries[i] = (key, color);
                proof {
                    assert(self@ =~= table_insert(old(self)@, key@, color));
                }
                return ;
            }
            i = i + 1;
        }
        proof {
            lemma_pair_index_first_match(self@, key@, n as int);
            lemma_table_insert_wf(self@, key@, color);
        }
        self.entries.push((key, color));
        proof {
            assert(self@ =~= table_insert(old(self)@, key@, color));
        }
    }

    /// Whether the table holds the key.
    pub fn contains_key(&self, key: &EntryKey) -> (r: bool)
        ensures
            r == table_contains(self@, key@),
    {
        let n = self.entries.len();
        let mut i: usize = 0;
        while i < n
            invariant
                n == self@.len(),
                i <= n,
                forall|j: int| 0 <= j < i ==> self@[j].0 != key@,
            decreases n - i,
        {
            if key_eq(&self.entries[i].0, key) {
                proof {
                    lemma_pair_index_first_match(self@, key@, i as int);
                }
                return true;
            }
            i = i + 1;
        }
        proof {
            lemma_pair_index_first_match(self@, key@, n as int);
        }
        false
    }

    /// The color bound to the key, if any.
    pub fn get(&self, key: &EntryKey) -> (r: Option<RGB>)
        ensures
            r == table_get(self@, key@),
    {
        let n = self.entries.len();
        let mut i: usize = 0;
        while i < n
            invariant
                n == self@.len(),
                i <= n,
                forall|j: int| 0 <= j < i ==> self@[j].0 != key@,
            decreases n - i,
        {
            if key_eq(&self.entries[i].0, key) {
                proof {
                    lemma_pair_index_first_match(self@, key@, i as int);
                }
                return Some(self.entries[i].1);
            }
            i = i + 1;
        }
        proof {
            lemma_pair_index_first_match(self@, key@, n as int);
        }
        None
    }
}

} // verus!
