//! The result-set data model: one measurement record per input file.
//!
//! A result set maps file-path keys (held as byte strings, the way paths are
//! handed in from outside) to measurement records. Keys are unique and the
//! order of first insertion is kept, so that reports and the persisted
//! artifact iterate rows deterministically.

use vstd::prelude::*;
use crate::counters::Measure;

verus! {

/// The entries a result set holds, as a sequence of key/record pairs.
pub type Entries = Seq<(Seq<u8>, Measure)>;

/// The record stored under key `k`, scanning entries front to back:
/// `Some` of the first match, `None` when no entry has that key.
pub open spec fn spec_get(s: Entries, k: Seq<u8>) -> Option<Measure>
    decreases s.len(),
{
    if s.len() == 0 {
        None::<Measure>
    } else if s[0].0 == k {
        Some(s[0].1)
    } else {
        spec_get(s.drop_first(), k)
    }
}

/// Whether some entry holds key `k`.
pub open spec fn contains_key(s: Entries, k: Seq<u8>) -> bool {
    spec_get(s, k) is Some
}

/// The position of the first entry with key `k` (meaningful only when one
/// exists).
pub open spec fn key_index(s: Entries, k: Seq<u8>) -> int
    decreases s.len(),
{
    if s.len() == 0 {
        0
    } else if s[0].0 == k {
        0
    } else {
        1 + key_index(s.drop_first(), k)
    }
}

/// A mapping from file-path keys to measurement records, with unique keys,
/// iterated in order of first insertion.
pub struct ResultSet {
    entries: Vec<(Vec<u8>, Measure)>,
}

impl View for ResultSet {
    type V = Entries;

    closed spec fn view(&self) -> Entries {
        Seq::new(self.entries@.len(), |i: int| (self.entries@[i].0@, self.entries@[i].1))
    }
}

/// Key uniqueness: no two entries share a key.
pub open spec fn unique_keys(s: Entries) -> bool {
    forall|i: int, j: int| 0 <= i < j < s.len() ==> s[i].0 != s[j].0
}

/// When an entry holds `k`, `spec_get` finds it and `key_index` points at it.
pub proof fn lemma_get_at_index(s: Entries, k: Seq<u8>, i: int)
    requires
        0 <= i < s.len(),
        s[i].0 == k,
        unique_keys(s),
    ensures
        contains_key(s, k),
        key_index(s, k) == i,
        spec_get(s, k) == Some(s[i].1),
    decreases s.len(),
{
    if s[0].0 == k {
        assert(i == 0);
    } else {
        assert(i >= 1);
        assert(s.drop_first()[i - 1] == s[i]);
        assert(unique_keys(s.drop_first())) by {
            assert(forall|p: int, q: int|
                0 <= p < q < s.drop_first().len() ==> s.drop_first()[p] == s[p + 1]
                    && s.drop_first()[q] == s[q + 1]);
        }
        lemma_get_at_index(s.drop_first(), k, i - 1);
    }
}

/// When `spec_get` finds a record, some entry holds it under that key.
pub proof fn lemma_get_witness(s: Entries, k: Seq<u8>)
    requires
        contains_key(s, k),
    ensures
        0 <= key_index(s, k) < s.len(),
        s[key_index(s, k)].0 == k,
        spec_get(s, k) == Some(s[key_index(s, k)].1),
    decreases s.len(),
{
    if s.len() > 0 && s[0].0 != k {
        lemma_get_witness(s.drop_first(), k);
        assert(s.drop_first()[key_index(s, k) - 1] == s[key_index(s, k)]);
    }
}

impl ResultSet {
    /// Well-formedness: the keys are unique.
    pub open spec fn wf(&self) -> bool {
        unique_keys(self@)
    }

    /// An empty result set.
    pub fn new() -> (r: ResultSet)
        ensures
            r@ == Seq::<(Seq<u8>, Measure)>::empty(),
            r.wf(),
    {
        let r = ResultSet { entries: Vec::new() };
        proof {
            assert(r@ =~= Seq::<(Seq<u8>, Measure)>::empty());
        }
        r
    }

    /// The number of entries.
    pub fn len(&self) -> (n: usize)
        ensures
            n == self@.len(),
    {
        self.entries.len()
    }

    /// The key of the entry at position `i`.
    pub fn key_at(&self, i: usize) -> (k: &Vec<u8>)
        requires
            i < self@.len(),
        ensures
            k@ == self@[i as int].0,
    {
        &self.entries[i].0
    }

    /// The record of the entry at position `i`.
    pub fn measure_at(&self, i: usize) -> (m: Measure)
        requires
            i < self@.len(),
        ensures
            m == self@[i as int].1,
    {
        self.entries[i].1
    }

    /// Looks a key up, scanning entries in order.
    pub fn get(&self, key: &Vec<u8>) -> (r: Option<Measure>)
        ensures
            r == spec_get(self@, key@),
    {
        let n = self.entries.len();
        let mut i: usize = 0;
        proof {
            assert(self@.skip(0) =~= self@);
        }
        while i < n
            invariant
                n == self@.len(),
                i <= n,
                spec_get(self@, key@) == spec_get(self@.skip(i as int), key@),
            decreases n - i,
        {
            proof {
                assert(self@.skip(i as int)[0] == self@[i as int]);
                assert(self@.skip(i as int).drop_first() =~= self@.skip(i as int + 1));
            }
            if bytes_eq(self.key_at(i), key) {
                return Some(self.measure_at(i));
            }
            i += 1;
        }
        proof {
            assert(self@.skip(n as int) =~= Seq::<(Seq<u8>, Measure)>::empty());
        }
        None
    }

    /// Inserts a record under a key: an existing entry with that key is
    /// replaced in place, otherwise the entry is appended at the end.
    pub fn insert(&mut self, key: Vec<u8>, m: Measure)
        requires
            old(self).wf(),
        ensures
            final(self).wf(),
            contains_key(old(self)@, key@) ==> final(self)@ == old(self)@.update(
                key_index(old(self)@, key@),
                (key@, m),
            ),
            !contains_key(old(self)@, key@) ==> final(self)@ == old(self)@.push((key@, m)),
            spec_get(final(self)@, key@) == Some(m),
    {
        let ghost s0 = self@;
        let ghost kv = key@;
        let n = self.entries.len();
        let mut i: usize = 0;
        while i < n
            invariant
                self@ == s0,
                old(self)@ == s0,
                key@ == kv,
                n == s0.len(),
                i <= n,
                unique_keys(s0),
                forall|j: int| 0 <= j < i ==> s0[j].0 != kv,
            decreases n - i,
        {
            if bytes_eq(self.key_at(i), &key) {
                proof {
                    lemma_get_at_index(s0, kv, i as int);
                }
                self.entries.set(i, (key, m));
                proof {
                    assert(self@ =~~= s0.update(i as int, (kv, m)));
                    assert(unique_keys(self@));
                    lemma_get_at_index(self@, kv, i as int);
                    assert(contains_key(s0, kv));
                    assert(key_index(s0, kv) == i as int);
                    assert(self@ == s0.update(key_index(s0, kv), (kv, m)));
                }
                return;
            }
            i += 1;
        }
        proof {
            if contains_key(s0, kv) {
                lemma_get_witness(s0, kv);
                assert(false);
            }
        }
        self.entries.push((key, m));
        proof {
            assert(self@ =~~= s0.push((kv, m)));
            assert(unique_keys(self@));
            lemma_get_at_index(self@, kv, s0.len() as int);
        }
    }
}

/// Byte-string equality.
pub fn bytes_eq(a: &Vec<u8>, b: &Vec<u8>) -> (r: bool)
    ensures
        r == (a@ == b@),
{
    if a.len() != b.len() {
        proof {
            assert(a@ != b@);
        }
        return false;
    }
    let n = a.len();
    let mut i: usize = 0;
    while i < n
        invariant
            n == a@.len() == b@.len(),
            i <= n,
            forall|j: int| 0 <= j < i ==> a@[j] == b@[j],
        decreases n - i,
    {
        if a[i] != b[i] {
            proof {
                assert(a@ != b@);
            }
            return false;
        }
        i += 1;
    }
    proof {
        assert(a@ =~= b@);
    }
    true
}

} // verus!
