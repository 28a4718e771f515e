use vstd::prelude::*;

verus! {

/// The number of `true` entries in a sequence of flags.
pub open spec fn count_true(s: Seq<bool>) -> nat
    decreases s.len(),
{
    if s.len() == 0 {
        0
    } else {
        count_true(s.drop_last()) + if s.last() {
            1nat
        } else {
            0nat
        }
    }
}

/// At most every entry is `true`.
pub proof fn lemma_count_true_le(s: Seq<bool>)
    ensures
        count_true(s) <= s.len(),
    decreases s.len(),
{
    if s.len() > 0 {
        lemma_count_true_le(s.drop_last());
    }
}

/// Raising one `false` flag adds one to the count.
pub proof fn lemma_count_true_set(s: Seq<bool>, i: int)
    requires
        0 <= i < s.len(),
        !s[i],
    ensures
        count_true(s.update(i, true)) == count_true(s) + 1,
    decreases s.len(),
{
    let t = s.update(i, true);
    if i == s.len() - 1 {
        assert(t.drop_last() =~= s.drop_last());
    } else {
        assert(t.drop_last() =~= s.drop_last().update(i, true));
        lemma_count_true_set(s.drop_last(), i);
    }
}

/// A set of 16-bit addresses kept as one flag per address, with a count of
/// its members that bounds how often it can grow.
pub struct AddrSet {
    pub bits: Vec<bool>,
    pub count: usize,
}

impl AddrSet {
    pub open spec fn wf(&self) -> bool {
        &&& self.bits@.len() == 0x10000
        &&& self.count == count_true(self.bits@)
    }

    /// The addresses in the set.
    pub open spec fn set(&self) -> Set<u16> {
        Set::new(|a: u16| self.bits@[a as int])
    }

    /// An empty set.
    pub fn new() -> (s: Self)
        ensures
            s.wf(),
            s.set() == Set::<u16>::empty(),
            s.count == 0,
    {
        let mut bits: Vec<bool> = Vec::new();
        let mut i: usize = 0;
        while i < 0x10000
            invariant
                i <= 0x10000,
                bits@.len() == i,
                forall|j: int| 0 <= j < i ==> !bits@[j],
                count_true(bits@) == 0,
            decreases 0x10000 - i,
        {
            let ghost before = bits@;
            bits.push(false);
            proof {
                assert(bits@.drop_last() =~= before);
            }
            i = i + 1;
        }
        let s = AddrSet { bits, count: 0 };
        assert(s.set() =~= Set::<u16>::empty());
        s
    }

    /// Whether `a` is in the set.
    pub fn contains(&self, a: u16) -> (b: bool)
        requires
            self.wf(),
        ensures
            b == self.set().contains(a),
    {
        self.bits[a as usize]
    }

    /// Adds `a` to the set; returns whether it was new.
    pub fn insert(&mut self, a: u16) -> (added: bool)
        requires
            old(self).wf(),
        ensures
            final(self).wf(),
            final(self).set() == old(self).set().insert(a),
            added == !old(self).set().contains(a),
            added ==> final(self).count == old(self).count + 1,
            !added ==> final(self).count == old(self).count,
    {
        if self.bits[a as usize] {
            assert(self.set().insert(a) =~= self.set());
            return false;
        }
        proof {
            lemma_count_true_set(self.bits@, a as int);
            lemma_count_true_le(self.bits@.update(a as int, true));
        }
        self.bits.set(a as usize, true);
        self.count = self.count + 1;
        proof {
            let s = self.set();
            assert(s =~= old(self).set().insert(a));
        }
        true
    }

    /// The set never holds more than every address.
    pub proof fn lemma_count_bound(&self)
        requires
            self.wf(),
        ensures
            self.count <= 0x10000,
    {
        lemma_count_true_le(self.bits@);
    }
}

} // verus!
