use vstd::prelude::*;

verus! {

/// A finite map from 16-bit LC-3 addresses to values, kept as a vector of
/// entries whose keys are strictly increasing. Walking the entries therefore
/// visits the keys in ascending order, which fixes the order in which every
/// pass of the decompiler looks at blocks and instructions.
#[derive(Debug, Clone)]
pub struct AddrMap<V> {
    pub entries: Vec<(u16, V)>,
}

/// Keys strictly increase along the entry sequence.
pub open spec fn sorted_keys<V>(s: Seq<(u16, V)>) -> bool {
    forall|i: int, j: int| 0 <= i < j < s.len() ==> #[trigger] s[i].0 < #[trigger] s[j].0
}

/// The sequence of keys of an entry sequence.
pub open spec fn keys_of<V>(s: Seq<(u16, V)>) -> Seq<u16> {
    s.map_values(|e: (u16, V)| e.0)
}

/// Whether some entry of `s` has key `k`.
pub open spec fn seq_has<V>(s: Seq<(u16, V)>, k: u16) -> bool {
    exists|i: int| 0 <= i < s.len() && #[trigger] s[i].0 == k
}

/// The position of key `k` in `s` (meaningful when `seq_has(s, k)`).
pub open spec fn seq_pos<V>(s: Seq<(u16, V)>, k: u16) -> int {
    choose|i: int| 0 <= i < s.len() && #[trigger] s[i].0 == k
}

/// The map that an entry sequence denotes.
pub open spec fn seq_map<V>(s: Seq<(u16, V)>) -> Map<u16, V> {
    Map::new(|k: u16| seq_has(s, k), |k: u16| s[seq_pos(s, k)].1)
}

/// With sorted keys, the entry at position `i` is what the map holds at its key.
pub proof fn lemma_seq_map_at<V>(s: Seq<(u16, V)>, i: int)
    requires
        sorted_keys(s),
        0 <= i < s.len(),
    ensures
        seq_map(s).dom().contains(s[i].0),
        seq_map(s)[s[i].0] == s[i].1,
        seq_pos(s, s[i].0) == i,
{
    assert(seq_has(s, s[i].0));
    let p = seq_pos(s, s[i].0);
    if p < i {
        assert(s[p].0 < s[i].0);
    } else if p > i {
        assert(s[i].0 < s[p].0);
    }
}

/// The insertion position of `k` from `i` on lies between `i` and the end;
/// every key before it from `i` on is below `k`, and the key at it (if any)
/// is at least `k`.
pub proof fn lemma_ins_pos<V>(s: Seq<(u16, V)>, k: u16, i: int)
    requires
        0 <= i <= s.len(),
    ensures
        i <= ins_pos(s, k, i) <= s.len(),
        forall|j: int| i <= j < ins_pos(s, k, i) ==> (#[trigger] s[j]).0 < k,
        ins_pos(s, k, i) < s.len() ==> s[ins_pos(s, k, i)].0 >= k,
    decreases s.len() - i,
{
    if i < s.len() && s[i].0 < k {
        lemma_ins_pos(s, k, i + 1);
    }
}

/// Inserting into sorted entries keeps them sorted and inserts into the map
/// they denote.
pub proof fn lemma_ins_seq<V>(s0: Seq<(u16, V)>, k: u16, v: V)
    requires
        sorted_keys(s0),
    ensures
        sorted_keys(ins_seq(s0, k, v)),
        seq_map(ins_seq(s0, k, v)) == seq_map(s0).insert(k, v),
{
    lemma_ins_pos(s0, k, 0);
    let i = ins_pos(s0, k, 0);
    let s1 = ins_seq(s0, k, v);
    if i < s0.len() && s0[i].0 == k {
        assert(s1 == s0.update(i, (k, v)));
        assert(sorted_keys(s1)) by {
            assert forall|a: int, b: int| 0 <= a < b < s1.len() implies #[trigger] s1[a].0 < #[trigger] s1[b].0 by {
                assert(s0[a].0 < s0[b].0);
            }
        }
        assert(seq_has(s0, k)) by {
            assert(s0[i].0 == k);
        }
        assert forall|kk: u16| #[trigger] seq_map(s1).dom().contains(kk) <==> seq_map(s0).insert(k, v).dom().contains(kk) by {
            if seq_has(s0, kk) {
                let p = choose|p: int| 0 <= p < s0.len() && #[trigger] s0[p].0 == kk;
                assert(s1[p].0 == kk);
            }
            if seq_has(s1, kk) {
                let p = choose|p: int| 0 <= p < s1.len() && #[trigger] s1[p].0 == kk;
                assert(s0[p].0 == kk);
            }
        }
        assert forall|kk: u16| #[trigger] seq_map(s1).dom().contains(kk) implies seq_map(s1)[kk] == seq_map(s0).insert(k, v)[kk] by {
            let p = seq_pos(s1, kk);
            lemma_seq_map_at(s1, p);
            if p != i {
                assert(s0[p] == s1[p]);
                lemma_seq_map_at(s0, p);
            }
        }
        assert(seq_map(s1) =~= seq_map(s0).insert(k, v));
    } else {
        assert(s1 == s0.insert(i, (k, v)));
        s0.insert_ensures(i, (k, v));
        assert(forall|j: int| i <= j < s0.len() ==> k < s0[j].0) by {
            assert forall|j: int| i <= j < s0.len() implies k < s0[j].0 by {
                if j > i {
                    assert(s0[i].0 < s0[j].0);
                }
            }
        }
        assert(sorted_keys(s1)) by {
            assert forall|a: int, b: int| 0 <= a < b < s1.len() implies #[trigger] s1[a].0 < #[trigger] s1[b].0 by {
                if b < i {
                    assert(s0[a].0 < s0[b].0);
                } else if b == i {
                } else if a < i {
                    assert(s1[b] == s0[b - 1]);
                } else if a == i {
                    assert(s1[b] == s0[b - 1]);
                } else {
                    assert(s1[a] == s0[a - 1]);
                    assert(s1[b] == s0[b - 1]);
                    assert(s0[a - 1].0 < s0[b - 1].0);
                }
            }
        }
        assert(!seq_has(s0, k)) by {
            if seq_has(s0, k) {
                let p = choose|p: int| 0 <= p < s0.len() && #[trigger] s0[p].0 == k;
            }
        }
        assert forall|kk: u16| #[trigger] seq_map(s1).dom().contains(kk) <==> seq_map(s0).insert(k, v).dom().contains(kk) by {
            if seq_has(s0, kk) {
                let p = choose|p: int| 0 <= p < s0.len() && #[trigger] s0[p].0 == kk;
                if p < i {
                    assert(s1[p].0 == kk);
                } else {
                    assert(s1[p + 1].0 == kk);
                }
            }
            if kk == k {
                assert(s1[i].0 == k);
            }
            if seq_has(s1, kk) {
                let p = choose|p: int| 0 <= p < s1.len() && #[trigger] s1[p].0 == kk;
                if p < i {
                    assert(s0[p].0 == kk);
                } else if p > i {
                    assert(s1[p] == s0[p - 1]);
                    assert(s0[p - 1].0 == kk);
                }
            }
        }
        assert forall|kk: u16| #[trigger] seq_map(s1).dom().contains(kk) implies seq_map(s1)[kk] == seq_map(s0).insert(k, v)[kk] by {
            let p = seq_pos(s1, kk);
            lemma_seq_map_at(s1, p);
            if p < i {
                lemma_seq_map_at(s0, p);
            } else if p > i {
                assert(s1[p] == s0[p - 1]);
                lemma_seq_map_at(s0, p - 1);
            }
        }
        assert(seq_map(s1) =~= seq_map(s0).insert(k, v));
    }
}

/// The index of the first entry from `i` on whose key is at least `k`.
pub open spec fn ins_pos<V>(s: Seq<(u16, V)>, k: u16, i: int) -> int
    decreases s.len() - i,
{
    if i < 0 || i >= s.len() || s[i].0 >= k {
        i
    } else {
        ins_pos(s, k, i + 1)
    }
}

/// The entries after inserting or replacing key `k` in sorted entries.
pub open spec fn ins_seq<V>(s: Seq<(u16, V)>, k: u16, v: V) -> Seq<(u16, V)> {
    let i = ins_pos(s, k, 0);
    if i < s.len() && s[i].0 == k {
        s.update(i, (k, v))
    } else {
        s.insert(i, (k, v))
    }
}

impl<V> AddrMap<V> {
    /// The map is well formed: its keys strictly increase.
    pub open spec fn wf(&self) -> bool {
        sorted_keys(self.entries@)
    }

    /// The map denoted by the entries.
    pub open spec fn map(&self) -> Map<u16, V> {
        seq_map(self.entries@)
    }

    /// The keys in ascending order.
    pub open spec fn key_seq(&self) -> Seq<u16> {
        keys_of(self.entries@)
    }

    pub open spec fn has(&self, k: u16) -> bool {
        seq_has(self.entries@, k)
    }

    /// An empty map.
    pub fn new() -> (m: Self)
        ensures
            m.wf(),
            m.entries@.len() == 0,
            m.map() == Map::<u16, V>::empty(),
    {
        let m = AddrMap { entries: Vec::new() };
        assert(m.map() =~= Map::<u16, V>::empty());
        m
    }

    /// The number of entries.
    pub fn len(&self) -> (n: usize)
        ensures
            n == self.entries@.len(),
    {
        self.entries.len()
    }

    /// The position of key `k`, if present.
    pub fn find(&self, k: u16) -> (r: Option<usize>)
        requires
            self.wf(),
        ensures
            r matches Some(i) ==> i < self.entries@.len() && self.entries@[i as int].0 == k,
            r is Some <==> self.has(k),
            r is Some <==> self.map().dom().contains(k),
    {
        let mut i: usize = 0;
        while i < self.entries.len()
            invariant
                i <= self.entries@.len(),
                forall|j: int| 0 <= j < i ==> self.entries@[j].0 != k,
            decreases self.entries@.len() - i,
        {
            if self.entries[i].0 == k {
                return Some(i);
            }
            i = i + 1;
        }
        None
    }

    /// Whether the map has key `k`.
    pub fn contains_key(&self, k: u16) -> (b: bool)
        requires
            self.wf(),
        ensures
            b == self.map().dom().contains(k),
            b == self.has(k),
    {
        self.find(k).is_some()
    }

    /// The value at key `k`, if present.
    pub fn get(&self, k: u16) -> (r: Option<&V>)
        requires
            self.wf(),
        ensures
            r is Some <==> self.map().dom().contains(k),
            r matches Some(v) ==> *v == self.map()[k],
    {
        match self.find(k) {
            Some(i) => {
                proof {
                    lemma_seq_map_at(self.entries@, i as int);
                }
                Some(&self.entries[i].1)
            },
            None => None,
        }
    }

    /// Insert or replace the value at key `k`, keeping the keys sorted.
    pub fn insert(&mut self, k: u16, v: V)
        requires
            old(self).wf(),
        ensures
            final(self).wf(),
            final(self).map() == old(self).map().insert(k, v),
            final(self).entries@ == ins_seq(old(self).entries@, k, v),
            old(self).has(k) ==> final(self).entries@.len() == old(self).entries@.len(),
            !old(self).has(k) ==> final(self).entries@.len() == old(self).entries@.len() + 1,
    {
        let ghost s0 = self.entries@;
        proof {
            lemma_ins_seq(s0, k, v);
        }
        let mut i: usize = 0;
        while i < self.entries.len() && self.entries[i].0 < k
            invariant
                self.entries@ == s0,
                sorted_keys(s0),
                i <= s0.len(),
                forall|j: int| 0 <= j < i ==> s0[j].0 < k,
                ins_pos(s0, k, 0) == ins_pos(s0, k, i as int),
            decreases s0.len() - i,
        {
            i = i + 1;
        }
        if i < self.entries.len() && self.entries[i].0 == k {
            self.entries.set(i, (k, v));
            proof {
                assert(seq_has(s0, k)) by {
                    assert(s0[i as int].0 == k);
                }
            }
        } else {
            self.entries.insert(i, (k, v));
            proof {
                assert(!seq_has(s0, k)) by {
                    if seq_has(s0, k) {
                        let p = choose|p: int| 0 <= p < s0.len() && #[trigger] s0[p].0 == k;
                        lemma_ins_pos(s0, k, 0);
                        if p >= i {
                            if p > i {
                                assert(s0[i as int].0 < s0[p].0);
                            }
                        }
                    }
                }
            }
        }
    }

    /// Remove key `k`, returning its value if it was present.
    pub fn remove(&mut self, k: u16) -> (r: Option<V>)
        requires
            old(self).wf(),
        ensures
            final(self).wf(),
            final(self).map() == old(self).map().remove(k),
            r is Some <==> old(self).map().dom().contains(k),
            r matches Some(v) ==> v == old(self).map()[k],
            r is Some ==> final(self).entries@.len() + 1 == old(self).entries@.len(),
            r is None ==> final(self).entries@ == old(self).entries@,
    {
        let ghost s0 = self.entries@;
        match self.find(k) {
            None => {
                proof {
                    assert(seq_map(s0).remove(k) =~= seq_map(s0));
                }
                None
            },
            Some(i) => {
                let e = self.entries.remove(i);
                proof {
                    let s1 = self.entries@;
                    lemma_seq_map_at(s0, i as int);
                    assert(s1 == s0.remove(i as int));
                    assert(sorted_keys(s1)) by {
                        assert forall|a: int, b: int| 0 <= a < b < s1.len() implies #[trigger] s1[a].0
                            < #[trigger] s1[b].0 by {
                            if b < i {
                                assert(s0[a].0 < s0[b].0);
                            } else if a < i {
                                assert(s0[a].0 < s0[b + 1].0);
                            } else {
                                assert(s0[a + 1].0 < s0[b + 1].0);
                            }
                        }
                    }
                    assert forall|kk: u16| #[trigger] seq_map(s1).dom().contains(kk) <==> seq_map(
                        s0,
                    ).remove(k).dom().contains(kk) by {
                        if seq_has(s0, kk) && kk != k {
                            let p = choose|p: int| 0 <= p < s0.len() && #[trigger] s0[p].0 == kk;
                            if p < i {
                                assert(s1[p].0 == kk);
                            } else {
                                assert(s1[p - 1].0 == kk);
                            }
                        }
                        if seq_has(s1, kk) {
                            let p = choose|p: int| 0 <= p < s1.len() && #[trigger] s1[p].0 == kk;
                            if p < i {
                                assert(s0[p].0 == kk);
                                assert(s0[p].0 < s0[i as int].0);
                            } else {
                                assert(s0[p + 1].0 == kk);
                                assert(s0[i as int].0 < s0[p + 1].0);
                            }
                        }
                    }
                    assert forall|kk: u16| #[trigger] seq_map(s1).dom().contains(kk) implies seq_map(
                        s1,
                    )[kk] == seq_map(s0).remove(k)[kk] by {
                        let p = seq_pos(s1, kk);
                        lemma_seq_map_at(s1, p);
                        if p < i {
                            lemma_seq_map_at(s0, p);
                        } else {
                            lemma_seq_map_at(s0, p + 1);
                        }
                    }
                    assert(seq_map(s1) =~= seq_map(s0).remove(k));
                }
                Some(e.1)
            },
        }
    }

    /// The keys in ascending order.
    pub fn keys(&self) -> (ks: Vec<u16>)
        ensures
            ks@ == self.key_seq(),
    {
        let mut ks: Vec<u16> = Vec::new();
        let mut i: usize = 0;
        while i < self.entries.len()
            invariant
                i <= self.entries@.len(),
                ks@ == keys_of(self.entries@.subrange(0, i as int)),
            decreases self.entries@.len() - i,
        {
            ks.push(self.entries[i].0);
            i = i + 1;
            assert(keys_of(self.entries@.subrange(0, i as int)) =~= keys_of(
                self.entries@.subrange(0, i - 1),
            ).push(self.entries@[i - 1].0));
        }
        assert(self.entries@.subrange(0, i as int) =~= self.entries@);
        ks
    }

    /// Replaces the value of the `i`th entry, keeping its key.
    pub fn set_value(&mut self, i: usize, v: V)
        requires
            old(self).wf(),
            i < old(self).entries@.len(),
        ensures
            final(self).wf(),
            final(self).entries@ == old(self).entries@.update(i as int, (old(self).entries@[i as int].0, v)),
            final(self).map() == old(self).map().insert(old(self).entries@[i as int].0, v),
            final(self).key_seq() == old(self).key_seq(),
    {
        let k = self.entries[i].0;
        let ghost s0 = self.entries@;
        self.entries.set(i, (k, v));
        proof {
            let s1 = self.entries@;
            assert(sorted_keys(s1)) by {
                assert forall|a: int, b: int| 0 <= a < b < s1.len() implies #[trigger] s1[a].0
                    < #[trigger] s1[b].0 by {
                    assert(s0[a].0 < s0[b].0);
                }
            }
            lemma_seq_map_at(s0, i as int);
            assert forall|kk: u16| #[trigger] seq_map(s1).dom().contains(kk) <==> seq_map(s0).insert(
                k,
                v,
            ).dom().contains(kk) by {
                if seq_has(s0, kk) {
                    let p = choose|p: int| 0 <= p < s0.len() && #[trigger] s0[p].0 == kk;
                    assert(s1[p].0 == kk);
                }
                if seq_has(s1, kk) {
                    let p = choose|p: int| 0 <= p < s1.len() && #[trigger] s1[p].0 == kk;
                    assert(s0[p].0 == kk);
                }
            }
            assert forall|kk: u16| #[trigger] seq_map(s1).dom().contains(kk) implies seq_map(s1)[kk]
                == seq_map(s0).insert(k, v)[kk] by {
                let p = seq_pos(s1, kk);
                lemma_seq_map_at(s1, p);
                if p != i {
                    lemma_seq_map_at(s0, p);
                }
            }
            assert(seq_map(s1) =~= seq_map(s0).insert(k, v));
            assert(keys_of(s1) =~= keys_of(s0));
        }
    }

    /// The value of the `i`th entry is what the map holds at its key.
    pub proof fn lemma_entry(&self, i: int)
        requires
            self.wf(),
            0 <= i < self.entries@.len(),
        ensures
            self.map().dom().contains(self.entries@[i].0),
            self.map()[self.entries@[i].0] == self.entries@[i].1,
    {
        lemma_seq_map_at(self.entries@, i);
    }

    /// Every key of the map is the key of some entry.
    pub proof fn lemma_key(&self, k: u16) -> (i: int)
        requires
            self.wf(),
            self.map().dom().contains(k),
        ensures
            0 <= i < self.entries@.len(),
            self.entries@[i].0 == k,
            self.map()[k] == self.entries@[i].1,
    {
        let i = seq_pos(self.entries@, k);
        lemma_seq_map_at(self.entries@, i);
        i
    }
}

} // verus!
