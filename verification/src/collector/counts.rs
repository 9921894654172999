//! Per-engine counters: a small map from engine name to a `u64`.
use vstd::prelude::*;

use crate::text::same_chars;

verus! {

/// No two entries share a key.
pub open spec fn distinct_keys(s: Seq<(Vec<char>, u64)>) -> bool {
    forall|i: int, j: int|
        0 <= i < s.len() && 0 <= j < s.len() && i != j ==> (#[trigger] s[i]).0@ != (#[trigger] s[j]).0@
}

/// The map an association list with distinct keys stands for.
pub open spec fn entries_map(s: Seq<(Vec<char>, u64)>) -> Map<Seq<char>, u64> {
    Map::new(
        |k: Seq<char>| exists|i: int| 0 <= i < s.len() && (#[trigger] s[i]).0@ == k,
        |k: Seq<char>| s[choose|i: int| 0 <= i < s.len() && (#[trigger] s[i]).0@ == k].1,
    )
}

/// Every entry is found in the map under its key.
pub proof fn lemma_entries_map(s: Seq<(Vec<char>, u64)>)
    requires
        distinct_keys(s),
    ensures
        forall|i: int|
            0 <= i < s.len() ==> #[trigger] entries_map(s).contains_key(s[i].0@) && entries_map(
                s,
            )[s[i].0@] == s[i].1,
        forall|k: Seq<char>|
            #[trigger] entries_map(s).contains_key(k) ==> exists|i: int|
                0 <= i < s.len() && (#[trigger] s[i]).0@ == k,
{
    assert forall|i: int| 0 <= i < s.len() implies #[trigger] entries_map(s).contains_key(
        s[i].0@,
    ) && entries_map(s)[s[i].0@] == s[i].1 by {
        let k = s[i].0@;
        assert(exists|j: int| 0 <= j < s.len() && (#[trigger] s[j]).0@ == k);
        let j = choose|j: int| 0 <= j < s.len() && (#[trigger] s[j]).0@ == k;
        if j != i {
            assert(s[i].0@ != s[j].0@);
        }
    }
}

/// Counters keyed by engine name ("rcs", "vcs", ...).
pub struct EngineCounts {
    entries: Vec<(Vec<char>, u64)>,
}

impl View for EngineCounts {
    type V = Map<Seq<char>, u64>;

    closed spec fn view(&self) -> Map<Seq<char>, u64> {
        entries_map(self.entries@)
    }
}

/// The larger of two counters.
pub open spec fn max_u64(a: u64, b: u64) -> u64 {
    if a >= b {
        a
    } else {
        b
    }
}

/// `m` after `entry(k).and_modify(|e| *e = max(*e, v)).or_insert(v)`.
pub open spec fn insert_max(m: Map<Seq<char>, u64>, k: Seq<char>, v: u64) -> Map<Seq<char>, u64> {
    if m.contains_key(k) {
        m.insert(k, max_u64(m[k], v))
    } else {
        m.insert(k, v)
    }
}

impl EngineCounts {
    #[verifier::type_invariant]
    spec fn keys_distinct(self) -> bool {
        distinct_keys(self.entries@)
    }

    /// No counters.
    pub fn new() -> (r: EngineCounts)
        ensures
            r@ == Map::<Seq<char>, u64>::empty(),
    {
        let r = EngineCounts { entries: Vec::new() };
        assert(r@ =~= Map::<Seq<char>, u64>::empty());
        r
    }

    /// The entries, each key once.
    pub fn pairs(&self) -> (r: &Vec<(Vec<char>, u64)>)
        ensures
            distinct_keys(r@),
            entries_map(r@) == self@,
            r@.len() == self@.len(),
            forall|i: int|
                0 <= i < r@.len() ==> #[trigger] self@.contains_key(r@[i].0@) && self@[r@[i].0@]
                    == r@[i].1,
            forall|k: Seq<char>|
                #[trigger] self@.contains_key(k) ==> exists|i: int|
                    0 <= i < r@.len() && (#[trigger] r@[i]).0@ == k,
    {
        proof {
            use_type_invariant(self);
            lemma_entries_map(self.entries@);
            lemma_map_len(self.entries@);
        }
        &self.entries
    }

    fn position(&self, k: &[char]) -> (r: Option<usize>)
        ensures
            match r {
                Some(i) => i < self.entries@.len() && self.entries@[i as int].0@ == k@,
                None => forall|i: int|
                    0 <= i < self.entries@.len() ==> (#[trigger] self.entries@[i]).0@ != k@,
            },
    {
        let mut i: usize = 0;
        while i < self.entries.len()
            invariant
                i <= self.entries@.len(),
                forall|j: int| 0 <= j < i ==> (#[trigger] self.entries@[j]).0@ != k@,
            decreases self.entries@.len() - i,
        {
            if same_chars(self.entries[i].0.as_slice(), k) {
                return Some(i);
            }
            i = i + 1;
        }
        None
    }

    /// The counter under `k`.
    pub fn get(&self, k: &[char]) -> (r: Option<u64>)
        ensures
            r == (if self@.contains_key(k@) {
                Some(self@[k@])
            } else {
                None::<u64>
            }),
    {
        proof {
            use_type_invariant(self);
            lemma_entries_map(self.entries@);
        }
        match self.position(k) {
            Some(i) => Some(self.entries[i].1),
            None => None,
        }
    }

    /// `HashMap::insert`: sets the counter under `k` to `v`.
    pub fn insert(&mut self, k: Vec<char>, v: u64)
        ensures
            final(self)@ == old(self)@.insert(k@, v),
    {
        proof {
            use_type_invariant(&*self);
            lemma_entries_map(self.entries@);
        }
        let ghost old_entries = self.entries@;
        match self.position(k.as_slice()) {
            Some(i) => {
                let mut entries: Vec<(Vec<char>, u64)> = Vec::new();
                std::mem::swap(&mut entries, &mut self.entries);
                entries.set(i, (k, v));
                self.entries = entries;
                proof {
                    let s = self.entries@;
                    assert(s =~= old_entries.update(i as int, s[i as int]));
                    assert(distinct_keys(s)) by {
                        assert forall|a: int, b: int|
                            0 <= a < s.len() && 0 <= b < s.len() && a != b implies (
                            #[trigger] s[a]).0@ != (#[trigger] s[b]).0@ by {
                            if a != i && b != i {
                                assert(old_entries[a] == s[a] && old_entries[b] == s[b]);
                            } else if a == i {
                                assert(old_entries[b] == s[b]);
                                assert(old_entries[i as int].0@ != old_entries[b].0@);
                            } else {
                                assert(old_entries[a] == s[a]);
                                assert(old_entries[i as int].0@ != old_entries[a].0@);
                            }
                        }
                    }
                    lemma_entries_map(s);
                    lemma_update_map(old_entries, s, i as int);
                }
            },
            None => {
                let mut entries: Vec<(Vec<char>, u64)> = Vec::new();
                std::mem::swap(&mut entries, &mut self.entries);
                entries.push((k, v));
                self.entries = entries;
                proof {
                    let s = self.entries@;
                    assert(s =~= old_entries.push((k, v)));
                    assert(distinct_keys(s)) by {
                        assert forall|a: int, b: int|
                            0 <= a < s.len() && 0 <= b < s.len() && a != b implies (
                            #[trigger] s[a]).0@ != (#[trigger] s[b]).0@ by {
                            if a < old_entries.len() && b < old_entries.len() {
                                assert(old_entries[a] == s[a] && old_entries[b] == s[b]);
                            } else if a < old_entries.len() {
                                assert(old_entries[a] == s[a]);
                            } else {
                                assert(old_entries[b] == s[b]);
                            }
                        }
                    }
                    lemma_entries_map(s);
                    lemma_push_map(old_entries, s);
                }
            },
        }
    }

    /// Keeps the larger of the counter under `k` and `v`, inserting `v`
    /// when `k` is new.
    pub fn insert_max(&mut self, k: Vec<char>, v: u64)
        ensures
            final(self)@ == insert_max(old(self)@, k@, v),
    {
        let cur = self.get(k.as_slice());
        let nv = match cur {
            Some(c) => if c >= v {
                c
            } else {
                v
            },
            None => v,
        };
        self.insert(k, nv);
    }
}

/// The number of keys equals the number of entries.
proof fn lemma_map_len(s: Seq<(Vec<char>, u64)>)
    requires
        distinct_keys(s),
    ensures
        entries_map(s).dom().finite(),
        entries_map(s).len() == s.len(),
    decreases s.len(),
{
    lemma_entries_map(s);
    let keys = s.map_values(|e: (Vec<char>, u64)| e.0@);
    assert(entries_map(s).dom() =~= keys.to_set()) by {
        assert forall|k: Seq<char>| entries_map(s).dom().contains(k) implies keys.to_set().contains(
            k,
        ) by {
            let i = choose|i: int| 0 <= i < s.len() && (#[trigger] s[i]).0@ == k;
            assert(keys[i] == k);
        }
        assert forall|k: Seq<char>| keys.to_set().contains(k) implies entries_map(
            s,
        ).dom().contains(k) by {
            let i = choose|i: int| 0 <= i < keys.len() && keys[i] == k;
            assert(s[i].0@ == k);
        }
    }
    assert(keys.no_duplicates()) by {
        assert forall|a: int, b: int|
            0 <= a < keys.len() && 0 <= b < keys.len() && a != b implies keys[a] != keys[b] by {
            assert(s[a].0@ != s[b].0@);
        }
    }
    keys.unique_seq_to_set();
}

proof fn lemma_update_map(old_s: Seq<(Vec<char>, u64)>, s: Seq<(Vec<char>, u64)>, i: int)
    requires
        distinct_keys(old_s),
        distinct_keys(s),
        0 <= i < s.len(),
        s.len() == old_s.len(),
        s[i].0@ == old_s[i].0@,
        forall|j: int| 0 <= j < s.len() && j != i ==> s[j] == old_s[j],
    ensures
        entries_map(s) == entries_map(old_s).insert(s[i].0@, s[i].1),
{
    lemma_entries_map(old_s);
    lemma_entries_map(s);
    let m = entries_map(old_s).insert(s[i].0@, s[i].1);
    assert forall|k: Seq<char>| #[trigger] entries_map(s).contains_key(k) <==> m.contains_key(k) by {
        if entries_map(s).contains_key(k) {
            let j = choose|j: int| 0 <= j < s.len() && (#[trigger] s[j]).0@ == k;
            if j != i {
                assert(old_s[j] == s[j]);
            }
        }
        if m.contains_key(k) && k != s[i].0@ {
            let j = choose|j: int| 0 <= j < old_s.len() && (#[trigger] old_s[j]).0@ == k;
            assert(j != i);
            assert(old_s[j] == s[j]);
        }
    }
    assert forall|k: Seq<char>| #[trigger] entries_map(s).contains_key(k) implies entries_map(s)[k]
        == m[k] by {
        let j = choose|j: int| 0 <= j < s.len() && (#[trigger] s[j]).0@ == k;
        if j != i {
            assert(old_s[j] == s[j]);
        }
    }
    assert(entries_map(s) =~= m);
}

proof fn lemma_push_map(old_s: Seq<(Vec<char>, u64)>, s: Seq<(Vec<char>, u64)>)
    requires
        distinct_keys(old_s),
        distinct_keys(s),
        s.len() == old_s.len() + 1,
        forall|j: int| 0 <= j < old_s.len() ==> s[j] == old_s[j],
    ensures
        entries_map(s) == entries_map(old_s).insert(s.last().0@, s.last().1),
{
    lemma_entries_map(old_s);
    lemma_entries_map(s);
    let n = old_s.len() as int;
    let m = entries_map(old_s).insert(s[n].0@, s[n].1);
    assert forall|k: Seq<char>| #[trigger] entries_map(s).contains_key(k) <==> m.contains_key(k) by {
        if entries_map(s).contains_key(k) {
            let j = choose|j: int| 0 <= j < s.len() && (#[trigger] s[j]).0@ == k;
            if j != n {
                assert(old_s[j] == s[j]);
            }
        }
        if m.contains_key(k) && k != s[n].0@ {
            let j = choose|j: int| 0 <= j < old_s.len() && (#[trigger] old_s[j]).0@ == k;
            assert(old_s[j] == s[j]);
        }
    }
    assert forall|k: Seq<char>| #[trigger] entries_map(s).contains_key(k) implies entries_map(s)[k]
        == m[k] by {
        let j = choose|j: int| 0 <= j < s.len() && (#[trigger] s[j]).0@ == k;
        if j != n {
            assert(old_s[j] == s[j]);
        }
    }
    assert(entries_map(s) =~= m);
}

} // verus!
