use vstd::prelude::*;
use vstd::std_specs::bits::{u64_trailing_zeros, axiom_u64_trailing_zeros};
use vstd::set_lib::{set_int_range, lemma_int_range, lemma_len_subset};

verus! {

/// Whether bit `i` (counted from the least significant one) of `w` is set.
pub open spec fn word_bit(w: u64, i: u64) -> bool {
    (w >> i) & 1u64 == 1u64
}

pub proof fn lemma_bit_or(a: u64, b: u64, i: u64)
    requires
        i < 64,
    ensures
        word_bit(a | b, i) == (word_bit(a, i) || word_bit(b, i)),
{
    assert(((a | b) >> i) & 1u64 == 1u64 <==> ((a >> i) & 1u64 == 1u64 || (b >> i) & 1u64 == 1u64))
        by (bit_vector)
        requires
            i < 64,
    ;
}

pub proof fn lemma_bit_set(a: u64, k: u64, i: u64)
    requires
        i < 64,
        k < 64,
    ensures
        word_bit(a | (1u64 << k), i) == (word_bit(a, i) || i == k),
{
    assert(((a | (1u64 << k)) >> i) & 1u64 == 1u64 <==> ((a >> i) & 1u64 == 1u64 || i == k))
        by (bit_vector)
        requires
            i < 64,
            k < 64,
    ;
}

pub proof fn lemma_bit_clear(a: u64, k: u64, i: u64)
    requires
        i < 64,
        k < 64,
    ensures
        word_bit(a & !(1u64 << k), i) == (word_bit(a, i) && i != k),
{
    assert(((a & !(1u64 << k)) >> i) & 1u64 == 1u64 <==> ((a >> i) & 1u64 == 1u64 && i != k))
        by (bit_vector)
        requires
            i < 64,
            k < 64,
    ;
}

pub proof fn lemma_bit_zero(i: u64)
    requires
        i < 64,
    ensures
        !word_bit(0u64, i),
{
    assert((0u64 >> i) & 1u64 != 1u64) by (bit_vector);
}

/// A word that grows under `|` has a bit that `b` sets and `a` lacks.
pub proof fn lemma_or_changed(a: u64, b: u64) -> (i: u64)
    requires
        (a | b) != a,
    ensures
        i < 64,
        word_bit(b, i),
        !word_bit(a, i),
{
    let d = b & !a;
    assert((a | b) != a ==> (b & !a) != 0u64) by (bit_vector);
    axiom_u64_trailing_zeros(d);
    let t = u64_trailing_zeros(d) as u64;
    assert(t < 64);
    assert((d >> t) & 1u64 == 1u64);
    assert(d == b & !a);
    assert(((b & !a) >> t) & 1u64 == 1u64 ==> (b >> t) & 1u64 == 1u64 && (a >> t) & 1u64 != 1u64)
        by (bit_vector)
        requires
            t < 64,
    ;
    t
}

/// A set of small integers stored as a packed array of 64-bit words.
pub struct BitSet {
    inner: Vec<u64>,
}

impl BitSet {
    /// The number of integers that the set can hold: `[0, capacity())`.
    pub open spec fn capacity(&self) -> nat {
        64 * self.words().len()
    }

    pub closed spec fn words(&self) -> Seq<u64> {
        self.inner@
    }

    /// Whether `n` is in the set.
    pub open spec fn has(&self, n: int) -> bool {
        0 <= n < self.capacity() && word_bit(self.words()[n / 64], (n % 64) as u64)
    }

    pub open spec fn view(&self) -> Set<int> {
        Set::new(|n: int| self.has(n))
    }

    pub proof fn lemma_has_len(&self)
        ensures
            self.capacity() == 64 * self.words().len(),
    {
    }

    /// The set is finite and holds at most `capacity()` elements.
    pub proof fn lemma_view_bounded(&self)
        ensures
            self@.finite(),
            self@ <= set_int_range(0, self.capacity() as int),
            self@.len() <= self.capacity(),
    {
        lemma_int_range(0, self.capacity() as int);
        assert(self@ <= set_int_range(0, self.capacity() as int));
        lemma_len_subset(self@, set_int_range(0, self.capacity() as int));
    }

    /// An empty set that can hold the integers `[0, n)`.
    pub fn new(n: u32) -> (s: BitSet)
        ensures
            s.capacity() >= n,
            s.capacity() < n + 64,
            s@ == Set::<int>::empty(),
    {
        assert((n >> 6) == n / 64 && (n & 63) == n % 64 && (n >> 6) < 0x4000000) by (bit_vector);
        let words = (n >> 6) + (((n & 63) != 0) as u32);
        let mut inner: Vec<u64> = Vec::new();
        let mut i: u32 = 0;
        while i < words
            invariant
                i <= words,
                words == n / 64 + (if n % 64 != 0 { 1int } else { 0int }),
                inner@.len() == i,
                forall|j: int| 0 <= j < i ==> inner@[j] == 0u64,
            decreases words - i,
        {
            inner.push(0u64);
            i = i + 1;
        }
        let s = BitSet { inner };
        assert forall|k: int| !s.has(k) by {
            if 0 <= k < s.capacity() {
                lemma_bit_zero((k % 64) as u64);
            }
        }
        assert(s@ =~= Set::<int>::empty());
        s
    }

    /// A set with the same elements and capacity.
    pub fn copied(&self) -> (r: BitSet)
        ensures
            r.capacity() == self.capacity(),
            r@ == self@,
    {
        let mut inner: Vec<u64> = Vec::new();
        let mut i: usize = 0;
        while i < self.inner.len()
            invariant
                i <= self.inner@.len(),
                inner@ == self.inner@.take(i as int),
            decreases self.inner@.len() - i,
        {
            inner.push(self.inner[i]);
            i = i + 1;
            assert(inner@ =~= self.inner@.take(i as int));
        }
        assert(self.inner@.take(i as int) =~= self.inner@);
        let r = BitSet { inner };
        assert(r.words() == self.words());
        assert(r@ =~= self@);
        r
    }

    /// Adds every element of `other` below `self.capacity()` to `self`; tells whether `self` grew.
    pub fn or(&mut self, other: &BitSet) -> (changed: bool)
        ensures
            final(self).capacity() == old(self).capacity(),
            final(self)@ == old(self)@.union(other@.filter(|n: int| n < old(self).capacity())),
            changed == (final(self)@ != old(self)@),
    {
        let ghost old_self = *old(self);
        let mut changed = false;
        let n = if self.inner.len() < other.inner.len() { self.inner.len() } else { other.inner.len() };
        let mut i: usize = 0;
        while i < n
            invariant
                n <= self.inner@.len(),
                n <= other.inner@.len(),
                i <= n,
                self.inner@.len() == old_self.inner@.len(),
                forall|j: int| 0 <= j < i ==> self.inner@[j] == (old_self.inner@[j] | other.inner@[j]),
                forall|j: int| i <= j < self.inner@.len() ==> self.inner@[j] == old_self.inner@[j],
                changed ==> exists|k: int| 0 <= k < 64 * i && other.has(k) && !old_self.has(k),
                !changed ==> forall|j: int| 0 <= j < i ==> self.inner@[j] == old_self.inner@[j],
            decreases n - i,
        {
            let x = self.inner[i];
            let y = other.inner[i];
            let nx = x | y;
            if nx != x {
                let ghost b = lemma_or_changed(x, y);
                let ghost k = 64 * i + b;
                assert(k / 64 == i && k % 64 == b) by (nonlinear_arith)
                    requires
                        k == 64 * i + b,
                        b < 64,
                ;
                assert(other.has(k));
                assert(!old_self.has(k));
                changed = true;
            }
            self.inner.set(i, nx);
            i = i + 1;
        }
        proof {
            let s = *self;
            assert forall|k: int|
                s.has(k) == (old_self.has(k) || (other.has(k) && k < old_self.capacity())) by {
                if 0 <= k < s.capacity() {
                    let w = k / 64;
                    let b = (k % 64) as u64;
                    if w < n {
                        lemma_bit_or(old_self.inner@[w], other.inner@[w], b);
                    } else {
                        assert(64 * n <= k) by (nonlinear_arith)
                            requires
                                w >= n,
                                w == k / 64,
                                k >= 0,
                        ;
                        if other.has(k) {
                            assert(k / 64 < other.inner@.len());
                        }
                    }
                }
            }
            assert(s@ =~= old_self@.union(other@.filter(|n: int| n < old_self.capacity())));
            if changed {
                let k = choose|k: int| 0 <= k < 64 * i && other.has(k) && !old_self.has(k);
                assert(k < old_self.capacity()) by (nonlinear_arith)
                    requires
                        k < 64 * i,
                        i <= n,
                        n <= old_self.inner@.len(),
                ;
                assert(s@.contains(k));
                assert(!old_self@.contains(k));
                assert(s@ != old_self@);
            } else {
                assert(self.inner@ =~= old_self.inner@);
                assert(s@ =~= old_self@);
            }
        }
        changed
    }

    /// Whether `n` is in the set; `n` must lie below the capacity.
    pub fn test(&self, n: u32) -> (b: bool)
        requires
            n < self.capacity(),
        ensures
            b == self@.contains(n as int),
    {
        assert((n >> 6) == n / 64 && (n & 63) == n % 64) by (bit_vector);
        let w = self.inner[(n >> 6) as usize];
        let sh = (n & 63) as u64;
        assert(((w >> sh) & 1u64 != 0) <==> ((w >> sh) & 1u64 == 1u64)) by (bit_vector);
        ((w >> sh) & 1u64) != 0
    }

    /// Inserts `n`, which must lie below the capacity.
    pub fn set(&mut self, n: u32)
        requires
            n < old(self).capacity(),
        ensures
            final(self).capacity() == old(self).capacity(),
            final(self)@ == old(self)@.insert(n as int),
    {
        let ghost old_self = *old(self);
        assert((n >> 6) == n / 64 && (n & 63) == n % 64) by (bit_vector);
        let idx = (n >> 6) as usize;
        let sh = (n & 63) as u64;
        let w = self.inner[idx];
        self.inner.set(idx, w | (1u64 << sh));
        proof {
            let s = *self;
            assert forall|k: int| s.has(k) == (old_self.has(k) || k == n) by {
                if 0 <= k < s.capacity() {
                    if k / 64 == idx {
                        lemma_bit_set(w, sh, (k % 64) as u64);
                    }
                }
            }
            assert(s@ =~= old_self@.insert(n as int));
        }
    }

    /// Removes `n`, which must lie below the capacity.
    pub fn clear(&mut self, n: u32)
        requires
            n < old(self).capacity(),
        ensures
            final(self).capacity() == old(self).capacity(),
            final(self)@ == old(self)@.remove(n as int),
    {
        let ghost old_self = *old(self);
        assert((n >> 6) == n / 64 && (n & 63) == n % 64) by (bit_vector);
        let idx = (n >> 6) as usize;
        let sh = (n & 63) as u64;
        let w = self.inner[idx];
        self.inner.set(idx, w & !(1u64 << sh));
        proof {
            let s = *self;
            assert forall|k: int| s.has(k) == (old_self.has(k) && k != n) by {
                if 0 <= k < s.capacity() {
                    if k / 64 == idx {
                        lemma_bit_clear(w, sh, (k % 64) as u64);
                    }
                }
            }
            assert(s@ =~= old_self@.remove(n as int));
        }
    }
}

} // verus!
