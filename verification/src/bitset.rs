use vstd::prelude::*;

verus! {

/// Bit `k` (0 ≤ k < 8) of a byte.
pub open spec fn byte_bit(b: u8, k: int) -> bool {
    ((b >> (k as u8)) & 1u8) == 1u8
}

proof fn lemma_byte_or(b: u8, k: u8, j: u8)
    by (bit_vector)
    requires
        k < 8,
        j < 8,
    ensures
        (((b | (1u8 << k)) >> j) & 1u8 == 1u8) == ((((b >> j) & 1u8) == 1u8) || j == k),
{
}

proof fn lemma_byte_clear(b: u8, k: u8, j: u8)
    by (bit_vector)
    requires
        k < 8,
        j < 8,
    ensures
        (((b & !(1u8 << k)) >> j) & 1u8 == 1u8) == ((((b >> j) & 1u8) == 1u8) && j != k),
{
}

proof fn lemma_byte_test(b: u8, k: u8)
    by (bit_vector)
    requires
        k < 8,
    ensures
        ((b & (1u8 << k)) != 0u8) == (((b >> k) & 1u8) == 1u8),
{
}

proof fn lemma_byte_and(a: u8, b: u8, j: u8)
    by (bit_vector)
    requires
        j < 8,
    ensures
        (((a & b) >> j) & 1u8 == 1u8) == ((((a >> j) & 1u8) == 1u8) && (((b >> j) & 1u8) == 1u8)),
{
}

proof fn lemma_byte_zero(j: u8)
    by (bit_vector)
    requires
        j < 8,
    ensures
        ((0u8 >> j) & 1u8) != 1u8,
{
}

/// Two bytes that agree on all eight bits are equal.
proof fn lemma_byte_ext(a: u8, b: u8)
    by (bit_vector)
    requires
        ((a >> 0u8) & 1u8 == 1u8) == ((b >> 0u8) & 1u8 == 1u8),
        ((a >> 1u8) & 1u8 == 1u8) == ((b >> 1u8) & 1u8 == 1u8),
        ((a >> 2u8) & 1u8 == 1u8) == ((b >> 2u8) & 1u8 == 1u8),
        ((a >> 3u8) & 1u8 == 1u8) == ((b >> 3u8) & 1u8 == 1u8),
        ((a >> 4u8) & 1u8 == 1u8) == ((b >> 4u8) & 1u8 == 1u8),
        ((a >> 5u8) & 1u8 == 1u8) == ((b >> 5u8) & 1u8 == 1u8),
        ((a >> 6u8) & 1u8 == 1u8) == ((b >> 6u8) & 1u8 == 1u8),
        ((a >> 7u8) & 1u8 == 1u8) == ((b >> 7u8) & 1u8 == 1u8),
    ensures
        a == b,
{
}

/// A fixed-size set of small indices, stored as `SIZE` bytes (8 indices per byte).
#[derive(Clone, Copy, Debug)]
pub struct Bitset<const SIZE: usize>(pub(crate) [u8; SIZE]);

impl<const SIZE: usize> Bitset<SIZE> {
    /// The number of indices this set can hold.
    pub open spec fn capacity() -> int {
        8 * SIZE
    }

    /// Whether index `i` is a member of the set.
    pub closed spec fn contains(self, i: int) -> bool {
        0 <= i < 8 * SIZE && byte_bit(self.0@[i / 8], i % 8)
    }

    /// Only indices below the capacity can be members.
    pub proof fn lemma_contains_bound(self, i: int)
        ensures
            self.contains(i) ==> 0 <= i < 8 * SIZE,
    {
    }

    /// The set of members.
    pub open spec fn members(self) -> Set<int> {
        Set::new(|i: int| self.contains(i))
    }

    /// Number of members below `n`.
    pub open spec fn count_below(self, n: int) -> nat
        decreases n,
    {
        if n <= 0 {
            0
        } else if self.contains(n - 1) {
            self.count_below(n - 1) + 1
        } else {
            self.count_below(n - 1)
        }
    }

    /// Number of members.
    pub open spec fn size(self) -> nat {
        self.count_below(8 * SIZE)
    }

    /// At most `n` members lie below `n`.
    pub proof fn lemma_count_below_bound(self, n: int)
        ensures
            self.count_below(n) <= if n < 0 {
                0
            } else {
                n
            },
        decreases n,
    {
        if n > 0 {
            self.lemma_count_below_bound(n - 1);
        }
    }

    /// The set has at most its capacity of members.
    pub proof fn lemma_size_bound(self)
        ensures
            self.size() <= 8 * SIZE,
    {
        self.lemma_count_below_bound(8 * SIZE);
    }

    /// Two sets with the same members are the same value.
    pub proof fn lemma_ext(a: Self, b: Self)
        requires
            forall|i: int| 0 <= i < 8 * SIZE ==> a.contains(i) == b.contains(i),
        ensures
            a == b,
    {
        assert forall|k: int| 0 <= k < SIZE implies a.0@[k] == b.0@[k] by {
            let x = a.0@[k];
            let y = b.0@[k];
            assert forall|j: int| 0 <= j < 8 implies byte_bit(x, j) == byte_bit(y, j) by {
                assert(a.contains(8 * k + j) == b.contains(8 * k + j));
                assert((8 * k + j) / 8 == k);
                assert((8 * k + j) % 8 == j);
            }
            assert(byte_bit(x, 0) == byte_bit(y, 0));
            assert(byte_bit(x, 1) == byte_bit(y, 1));
            assert(byte_bit(x, 2) == byte_bit(y, 2));
            assert(byte_bit(x, 3) == byte_bit(y, 3));
            assert(byte_bit(x, 4) == byte_bit(y, 4));
            assert(byte_bit(x, 5) == byte_bit(y, 5));
            assert(byte_bit(x, 6) == byte_bit(y, 6));
            assert(byte_bit(x, 7) == byte_bit(y, 7));
            lemma_byte_ext(x, y);
        }
        assert(a.0@ =~= b.0@);
        assert(a.0 =~= b.0);
    }

    /// The empty set.
    pub fn empty() -> (s: Self)
        ensures
            forall|i: int| !s.contains(i),
    {
        let s = Self([0u8; SIZE]);
        proof {
            assert forall|i: int| !s.contains(i) by {
                if 0 <= i < 8 * SIZE {
                    lemma_byte_zero((i % 8) as u8);
                }
            }
        }
        s
    }

    /// The set `{0, ..., n - 1}`.
    pub fn ones(n: usize) -> (s: Self)
        requires
            n <= 8 * SIZE,
        ensures
            forall|i: int| s.contains(i) <==> 0 <= i < n,
    {
        let mut s = Self::empty();
        let mut i: usize = 0;
        while i < n
            invariant
                i <= n,
                n <= 8 * SIZE,
                forall|j: int| s.contains(j) <==> 0 <= j < i,
            decreases n - i,
        {
            s.set(i);
            i = i + 1;
        }
        s
    }

    /// Adds `index` to the set.
    pub fn set(&mut self, index: usize)
        requires
            index < 8 * SIZE,
        ensures
            forall|i: int| final(self).contains(i) <==> (old(self).contains(i) || i == index),
    {
        let k = index / 8;
        let bit = (index % 8) as u8;
        let b = self.0[k];
        self.0[k] = b | (1u8 << bit);
        proof {
            assert forall|i: int| self.contains(i) <==> (old(self).contains(i) || i == index) by {
                if 0 <= i < 8 * SIZE {
                    if i / 8 == k as int {
                        lemma_byte_or(b, bit, (i % 8) as u8);
                    } else {
                        assert(self.0@[i / 8] == old(self).0@[i / 8]);
                    }
                }
            }
        }
    }

    /// The set with `index` added.
    pub fn with(self, index: usize) -> (s: Self)
        requires
            index < 8 * SIZE,
        ensures
            forall|i: int| s.contains(i) <==> (self.contains(i) || i == index),
    {
        let mut s = self;
        s.set(index);
        s
    }

    /// Removes `index` from the set.
    pub fn remove(&mut self, index: usize)
        requires
            index < 8 * SIZE,
        ensures
            forall|i: int| final(self).contains(i) <==> (old(self).contains(i) && i != index),
    {
        let k = index / 8;
        let bit = (index % 8) as u8;
        let b = self.0[k];
        self.0[k] = b & !(1u8 << bit);
        proof {
            assert forall|i: int| self.contains(i) <==> (old(self).contains(i) && i != index) by {
                if 0 <= i < 8 * SIZE {
                    if i / 8 == k as int {
                        lemma_byte_clear(b, bit, (i % 8) as u8);
                    } else {
                        assert(self.0@[i / 8] == old(self).0@[i / 8]);
                    }
                }
            }
        }
    }

    /// Whether `index` is a member; indices beyond the capacity are never members.
    pub fn has(&self, index: usize) -> (r: bool)
        ensures
            r == self.contains(index as int),
            index >= 8 * SIZE ==> !r,
    {
        let i = index / 8;
        if i >= SIZE {
            false
        } else {
            let bit = (index % 8) as u8;
            let b = self.0[i];
            proof {
                lemma_byte_test(b, bit);
            }
            (b & (1u8 << bit)) != 0
        }
    }

    /// The members below `max_exclusive`, in increasing order.
    pub fn iter(&self, max_exclusive: usize) -> (v: Vec<usize>)
        ensures
            forall|k: int, l: int| 0 <= k < l < v@.len() ==> v@[k] < v@[l],
            forall|k: int| 0 <= k < v@.len() ==> v@[k] < max_exclusive && self.contains(v@[k] as int),
            forall|i: usize| #![trigger self.contains(i as int)]
                i < max_exclusive && self.contains(i as int) ==> v@.contains(i),
    {
        let mut v: Vec<usize> = Vec::new();
        let mut i: usize = 0;
        while i < max_exclusive
            invariant
                i <= max_exclusive,
                forall|k: int, l: int| 0 <= k < l < v@.len() ==> v@[k] < v@[l],
                forall|k: int| 0 <= k < v@.len() ==> v@[k] < i && self.contains(v@[k] as int),
                forall|j: usize| #![trigger self.contains(j as int)]
                    j < i && self.contains(j as int) ==> v@.contains(j),
            decreases max_exclusive - i,
        {
            let ghost old_v = v@;
            if self.has(i) {
                v.push(i);
                proof {
                    assert(v@[v@.len() - 1] == i);
                    assert forall|j: usize| #![trigger self.contains(j as int)]
                        j < i && self.contains(j as int) implies v@.contains(j) by {
                        let k = choose|k: int| 0 <= k < old_v.len() && old_v[k] == j;
                        assert(v@[k] == j);
                    }
                }
            }
            i = i + 1;
        }
        v
    }

    /// The number of members.
    pub fn count(&self) -> (n: u32)
        requires
            8 * SIZE <= u32::MAX,
        ensures
            n == self.size(),
    {
        let mut n: u32 = 0;
        let mut i: usize = 0;
        while i < 8 * SIZE
            invariant
                i <= 8 * SIZE,
                8 * SIZE <= u32::MAX,
                n == self.count_below(i as int),
                n <= i,
            decreases 8 * SIZE - i,
        {
            if self.has(i) {
                n = n + 1;
            }
            i = i + 1;
        }
        n
    }

    /// The intersection of two sets.
    pub fn bitand(self, rhs: Self) -> (s: Self)
        ensures
            forall|i: int| s.contains(i) <==> (self.contains(i) && rhs.contains(i)),
    {
        let mut out = self;
        let mut k: usize = 0;
        while k < SIZE
            invariant
                k <= SIZE,
                forall|j: int| 0 <= j < SIZE ==> out.0@[j] == if j < k {
                    self.0@[j] & rhs.0@[j]
                } else {
                    self.0@[j]
                },
            decreases SIZE - k,
        {
            let b = out.0[k] & rhs.0[k];
            out.0[k] = b;
            k = k + 1;
        }
        proof {
            assert forall|i: int| out.contains(i) <==> (self.contains(i) && rhs.contains(i)) by {
                if 0 <= i < 8 * SIZE {
                    lemma_byte_and(self.0@[i / 8], rhs.0@[i / 8], (i % 8) as u8);
                }
            }
        }
        out
    }

    /// Whether both sets have the same members.
    pub fn same_as(&self, other: &Self) -> (r: bool)
        ensures
            r == (*self == *other),
    {
        let mut k: usize = 0;
        while k < SIZE
            invariant
                k <= SIZE,
                forall|j: int| 0 <= j < k ==> self.0@[j] == other.0@[j],
            decreases SIZE - k,
        {
            if self.0[k] != other.0[k] {
                return false;
            }
            k = k + 1;
        }
        proof {
            assert(self.0@ =~= other.0@);
            assert(self.0 =~= other.0);
        }
        true
    }
}

} // verus!
