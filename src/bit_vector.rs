use vstd::prelude::*;

verus! {

/// Bits held by one storage block.
pub const BLOCK_BITS: usize = 16;

/// Stride of the absolute popcount table.
pub const LEVEL_L: usize = 512;

/// Stride of the relative popcount table; equal to `BLOCK_BITS`.
pub const LEVEL_S: usize = 16;

/// Bit `k` of the storage word `w`.
pub open spec fn word_bit(w: u16, k: int) -> bool {
    (w >> (k as u16)) & 1u16 == 1u16
}

/// Number of set bits among the lowest `k` bits of `w`.
pub open spec fn word_ones(w: u16, k: int) -> nat
    decreases k,
{
    if k <= 0 {
        0
    } else {
        word_ones(w, k - 1) + if word_bit(w, k - 1) { 1nat } else { 0nat }
    }
}

/// Number of `true` entries of `s`.
pub open spec fn ones(s: Seq<bool>) -> nat
    decreases s.len(),
{
    if s.len() == 0 {
        0
    } else {
        ones(s.drop_last()) + if s.last() { 1nat } else { 0nat }
    }
}

/// Number of entries of `s` equal to `b`.
pub open spec fn occurrences(s: Seq<bool>, b: bool) -> nat {
    if b {
        ones(s)
    } else {
        (s.len() - ones(s)) as nat
    }
}

/// A fixed-length bitmap with constant-time rank once its tables are built.
pub struct BitVector {
    size: usize,
    large: Vec<u64>,
    small: Vec<u16>,
    bits: Vec<u16>,
}

pub(crate) proof fn lemma_ones_bounds(s: Seq<bool>)
    ensures
        ones(s) <= s.len(),
    decreases s.len(),
{
    if s.len() > 0 {
        lemma_ones_bounds(s.drop_last());
    }
}

/// `ones` of a prefix grows by the next entry.
pub(crate) proof fn lemma_ones_step(s: Seq<bool>, p: int)
    requires
        0 <= p < s.len(),
    ensures
        ones(s.subrange(0, p + 1)) == ones(s.subrange(0, p)) + if s[p] { 1nat } else { 0nat },
{
    assert(s.subrange(0, p + 1).drop_last() =~= s.subrange(0, p));
}

/// Between two prefixes, `ones` grows by at most the difference of lengths.
proof fn lemma_ones_prefix_mono(s: Seq<bool>, a: int, b: int)
    requires
        0 <= a <= b <= s.len(),
    ensures
        ones(s.subrange(0, a)) <= ones(s.subrange(0, b)),
        ones(s.subrange(0, b)) - ones(s.subrange(0, a)) <= b - a,
    decreases b - a,
{
    if a < b {
        lemma_ones_prefix_mono(s, a, b - 1);
        lemma_ones_step(s, b - 1);
    }
}

proof fn lemma_word_ones_bound(w: u16, k: int)
    requires
        0 <= k,
    ensures
        word_ones(w, k) <= k,
    decreases k,
{
    if k > 0 {
        lemma_word_ones_bound(w, k - 1);
    }
}

impl BitVector {
    /// The bits, position by position.
    pub closed spec fn view(&self) -> Seq<bool> {
        Seq::new(
            self.size as nat,
            |p: int| word_bit(self.bits@[p / BLOCK_BITS as int], p % BLOCK_BITS as int),
        )
    }

    /// Number of ones strictly before position `p`.
    pub open spec fn rank1(&self, p: int) -> nat {
        ones(self@.subrange(0, p))
    }

    /// The storage and table shapes fit `size`.
    pub closed spec fn wf(&self) -> bool {
        &&& self.large@.len() == self.size / LEVEL_L + 1
        &&& self.small@.len() == self.size / LEVEL_S + 1
        &&& self.bits@.len() == self.size / BLOCK_BITS + 1
    }

    /// The rank tables agree with the bits.
    pub closed spec fn indexed(&self) -> bool {
        &&& self.wf()
        &&& forall|k: int|
            0 <= k && k * LEVEL_L <= self.size ==> #[trigger] self.large@[k] == self.rank1(
                k * LEVEL_L,
            )
        &&& forall|k: int|
            0 <= k && k * LEVEL_S <= self.size ==> #[trigger] self.small@[k] + self.rank1(
                ((k * LEVEL_S) / LEVEL_L as int) * LEVEL_L,
            ) == self.rank1(k * LEVEL_S)
    }

    /// Indexed bitmaps are well formed.
    pub proof fn lemma_indexed_wf(&self)
        requires
            self.indexed(),
        ensures
            self.wf(),
    {
    }

    /// A zeroed bitmap of `size` bits.
    pub fn new(size: usize) -> (r: Self)
        ensures
            r.wf(),
            r.indexed(),
            r@ == Seq::new(size as nat, |p: int| false),
    {
        let large = zeroed_u64(size / LEVEL_L + 1);
        let small = zeroed_u16(size / LEVEL_S + 1);
        let bits = zeroed_u16(size / BLOCK_BITS + 1);
        let r = BitVector { size, large, small, bits };
        assert forall|p: int| 0 <= p < size implies !#[trigger] r@[p] by {
            let w = r.bits@[p / BLOCK_BITS as int];
            let k = (p % BLOCK_BITS as int) as u16;
            assert(w == 0);
            assert((0u16 >> k) & 1u16 == 0u16) by (bit_vector);
        }
        assert(r@ =~= Seq::new(size as nat, |p: int| false));
        assert forall|q: int| 0 <= q <= size implies r.rank1(q) == 0 by {
            lemma_ones_false(r@.subrange(0, q));
        }
        r
    }

    /// The cumulative popcount at every `LEVEL_L` bits.
    pub fn large_table(&self) -> (r: &Vec<u64>)
        ensures
            self.wf() ==> r@.len() == (self@.len() as int) / (LEVEL_L as int) + 1,
            self.indexed() ==> forall|k: int|
                0 <= k && k * LEVEL_L <= self@.len() ==> #[trigger] r@[k] == self.rank1(k * LEVEL_L),
    {
        &self.large
    }

    /// The popcount at every `LEVEL_S` bits, relative to the enclosing
    /// `LEVEL_L` block.
    pub fn small_table(&self) -> (r: &Vec<u16>)
        ensures
            self.wf() ==> r@.len() == (self@.len() as int) / (LEVEL_S as int) + 1,
            self.indexed() ==> forall|k: int|
                0 <= k && k * LEVEL_S <= self@.len() ==> #[trigger] r@[k] + self.rank1(
                    ((k * LEVEL_S) / LEVEL_L as int) * LEVEL_L,
                ) == self.rank1(k * LEVEL_S),
    {
        &self.small
    }

    /// The storage blocks, `BLOCK_BITS` bits each, lowest bit first.
    pub fn blocks(&self) -> (r: &Vec<u16>)
        ensures
            self.wf() ==> r@.len() == (self@.len() as int) / (BLOCK_BITS as int) + 1,
            self.wf() ==> forall|p: int|
                0 <= p < self@.len() ==> #[trigger] self@[p] == word_bit(
                    r@[p / BLOCK_BITS as int],
                    p % BLOCK_BITS as int,
                ),
    {
        &self.bits
    }

    /// Number of bits.
    pub fn len(&self) -> (r: usize)
        ensures
            r == self@.len(),
    {
        self.size
    }

    /// Number of zero bits.
    pub fn zeros(&self) -> (r: usize)
        requires
            self.indexed(),
        ensures
            r == occurrences(self@, false),
    {
        proof {
            assert(self@.subrange(0, self.size as int) =~= self@);
        }
        self.rank(self.size, false)
    }

    /// Sets bit `pos` to `bit`; the rank tables need a rebuild afterwards.
    pub fn set(&mut self, pos: usize, bit: bool)
        requires
            old(self).wf(),
            pos < old(self)@.len(),
        ensures
            final(self).wf(),
            final(self)@ == old(self)@.update(pos as int, bit),
    {
        let block_pos = pos / BLOCK_BITS;
        let offset = pos % BLOCK_BITS;
        let w = self.bits[block_pos];
        let o = offset as u16;
        let nw = if bit {
            w | (1u16 << o)
        } else {
            w & !(1u16 << o)
        };
        self.bits.set(block_pos, nw);
        proof {
            assert(nw >> o & 1u16 == 1u16 <==> bit) by (bit_vector)
                requires
                    o < 16,
                    bit ==> nw == w | (1u16 << o),
                    !bit ==> nw == w & !(1u16 << o),
            ;
            assert forall|j: u16| j < 16 && j != o implies (nw >> j) & 1u16 == (w >> j) & 1u16 by {
                assert((nw >> j) & 1u16 == (w >> j) & 1u16) by (bit_vector)
                    requires
                        o < 16,
                        j < 16,
                        j != o,
                        bit ==> nw == w | (1u16 << o),
                        !bit ==> nw == w & !(1u16 << o),
                ;
            }
            assert forall|p: int| 0 <= p < self.size implies #[trigger] self@[p] == old(
                self,
            )@.update(pos as int, bit)[p] by {
                if p / 16 == block_pos as int && p != pos as int {
                    assert((p % 16) as u16 != o);
                    assert(((p % 16) as u16) < 16);
                }
            }
            assert(self@ =~= old(self)@.update(pos as int, bit));
        }
    }

    /// The bit at `pos`.
    pub fn access(&self, pos: usize) -> (r: bool)
        requires
            self.wf(),
            pos < self@.len(),
        ensures
            r == self@[pos as int],
    {
        let block_pos = pos / BLOCK_BITS;
        let offset = pos % BLOCK_BITS;
        ((self.bits[block_pos] >> (offset as u16)) & 1) == 1
    }

    /// Number of entries equal to `bit` in positions `[0, pos)`.
    pub fn rank(&self, pos: usize, bit: bool) -> (r: usize)
        requires
            self.indexed(),
            pos <= self@.len(),
        ensures
            r == occurrences(self@.subrange(0, pos as int), bit),
    {
        let q = pos / BLOCK_BITS;
        let l = self.large[pos / LEVEL_L] as usize;
        let s = self.small[pos / LEVEL_S] as usize;
        let b = count_low(self.bits[q], pos % BLOCK_BITS);
        proof {
            let k = (pos / LEVEL_S) as int;
            assert(((k * LEVEL_S) / LEVEL_L as int) == pos / LEVEL_L) by (nonlinear_arith)
                requires
                    k == pos / 16,
            ;
            assert(k * LEVEL_S <= pos) by (nonlinear_arith)
                requires
                    k == pos / 16,
            ;
            assert((pos / LEVEL_L) as int * LEVEL_L <= pos) by (nonlinear_arith);
            self.lemma_rank_in_block(q as int, (pos % BLOCK_BITS) as int);
            lemma_ones_prefix_mono(self@, 0, pos as int);
            lemma_ones_bounds(self@.subrange(0, pos as int));
        }
        let ones = l + s + b;
        if bit {
            ones
        } else {
            pos - ones
        }
    }

    proof fn lemma_rank_in_block(&self, q: int, k: int)
        requires
            self.wf(),
            0 <= k < 16,
            0 <= q,
            q * 16 + k <= self.size,
        ensures
            self.rank1(q * 16 + k) == self.rank1(q * 16) + word_ones(self.bits@[q], k),
        decreases k,
    {
        if k > 0 {
            self.lemma_rank_in_block(q, k - 1);
            let p = q * 16 + k - 1;
            lemma_ones_step(self@, p);
            assert(p / 16 == q && p % 16 == k - 1) by (nonlinear_arith)
                requires
                    p == q * 16 + k - 1,
                    0 < k < 16,
            ;
        }
    }

    /// Fills the rank tables from the current bits.
    pub fn build(&mut self)
        requires
            old(self).wf(),
        ensures
            final(self).indexed(),
            final(self)@ == old(self)@,
    {
        let size = self.size;
        let mut ones: usize = 0;
        let mut i: usize = 0;
        loop
            invariant
                self.wf(),
                self.size == size,
                self@ == old(self)@,
                i % 16 == 0,
                i <= size,
                ones == self.rank1(i as int),
                forall|k: int|
                    0 <= k && k * LEVEL_L < i ==> #[trigger] self.large@[k] == self.rank1(
                        k * LEVEL_L,
                    ),
                forall|k: int|
                    0 <= k && k * LEVEL_S < i ==> #[trigger] self.small@[k] + self.rank1(
                        ((k * LEVEL_S) / LEVEL_L as int) * LEVEL_L,
                    ) == self.rank1(k * LEVEL_S),
            ensures
                self.indexed(),
                self@ == old(self)@,
            decreases size - i,
        {
            let lb = i / LEVEL_L;
            proof {
                assert(lb * LEVEL_L <= i) by (nonlinear_arith)
                    requires
                        lb == i / 512,
                ;
                assert(i / LEVEL_L <= size / LEVEL_L) by (nonlinear_arith)
                    requires
                        i <= size,
                ;
                assert(i / LEVEL_S <= size / LEVEL_S) by (nonlinear_arith)
                    requires
                        i <= size,
                ;
                lemma_ones_prefix_mono(self@, lb * LEVEL_L, i as int);
                lemma_ones_bounds(self@.subrange(0, i as int));
                assert(i - lb * LEVEL_L < 512) by (nonlinear_arith)
                    requires
                        lb == i / 512,
                ;
            }
            if i % LEVEL_L == 0 {
                self.large.set(lb, ones as u64);
            }
            let base = self.large[lb];
            proof {
                assert(self@ == old(self)@);
                if i % LEVEL_L != 0 {
                    assert(lb * LEVEL_L < i) by (nonlinear_arith)
                        requires
                            lb == i / 512,
                            i % 512 != 0,
                    ;
                } else {
                    assert(lb * LEVEL_L == i) by (nonlinear_arith)
                        requires
                            lb == i / 512,
                            i % 512 == 0,
                    ;
                }
                assert(base == self.rank1(lb * LEVEL_L));
            }
            self.small.set(i / LEVEL_S, (ones as u64 - base) as u16);
            proof {
                assert(self@ =~= old(self)@);
                let ki = (i / LEVEL_S) as int;
                assert(ki * LEVEL_S == i) by (nonlinear_arith)
                    requires
                        ki == i / 16,
                        i % 16 == 0,
                ;
                assert(ki * LEVEL_S / LEVEL_L as int == lb);
                assert forall|k: int|
                    0 <= k && k * LEVEL_L <= i implies #[trigger] self.large@[k] == self.rank1(
                        k * LEVEL_L,
                    ) by {
                    if k * LEVEL_L == i {
                        assert(k == lb) by (nonlinear_arith)
                            requires
                                k * 512 == i,
                                lb == i / 512,
                        ;
                    }
                }
                assert forall|k: int|
                    0 <= k && k * LEVEL_S <= i implies #[trigger] self.small@[k] + self.rank1(
                        ((k * LEVEL_S) / LEVEL_L as int) * LEVEL_L,
                    ) == self.rank1(k * LEVEL_S) by {
                    if k * LEVEL_S == i {
                        assert(k == ki);
                    }
                }
            }
            if size - i < BLOCK_BITS {
                proof {
                    assert forall|k: int|
                        0 <= k && k * LEVEL_L <= self.size implies #[trigger] self.large@[k]
                        == self.rank1(k * LEVEL_L) by {
                        assert(k * LEVEL_L <= i) by (nonlinear_arith)
                            requires
                                k * 512 <= size,
                                size - i < 16,
                                i % 16 == 0,
                                k >= 0,
                        ;
                    }
                    assert forall|k: int|
                        0 <= k && k * LEVEL_S <= self.size implies #[trigger] self.small@[k]
                        + self.rank1(((k * LEVEL_S) / LEVEL_L as int) * LEVEL_L) == self.rank1(
                        k * LEVEL_S,
                    ) by {
                        assert(k * LEVEL_S <= i) by (nonlinear_arith)
                            requires
                                k * 16 <= size,
                                size - i < 16,
                                i % 16 == 0,
                                k >= 0,
                        ;
                    }
                }
                break;
            }
            let c = count_low(self.bits[i / BLOCK_BITS], BLOCK_BITS);
            proof {
                let q = (i / 16) as int;
                assert(q * 16 == i) by (nonlinear_arith)
                    requires
                        q == i / 16,
                        i % 16 == 0,
                ;
                self.lemma_rank_in_block(q, 15);
                lemma_ones_step(self@, i + 15);
                assert((i + 15) / 16 == q && (i + 15) % 16 == 15) by (nonlinear_arith)
                    requires
                        q * 16 == i,
                ;
                assert(word_ones(self.bits@[q], 16) == word_ones(self.bits@[q], 15) + if word_bit(
                    self.bits@[q],
                    15,
                ) {
                    1nat
                } else {
                    0nat
                });
                lemma_ones_bounds(self@.subrange(0, i + 16));
            }
            ones = ones + c;
            i = i + BLOCK_BITS;
        }
    }
}

proof fn lemma_ones_false(s: Seq<bool>)
    requires
        forall|p: int| 0 <= p < s.len() ==> !s[p],
    ensures
        ones(s) == 0,
    decreases s.len(),
{
    if s.len() > 0 {
        lemma_ones_false(s.drop_last());
    }
}

/// Number of set bits among the lowest `k` bits of `w`.
fn count_low(w: u16, k: usize) -> (r: usize)
    requires
        k <= BLOCK_BITS,
    ensures
        r == word_ones(w, k as int),
{
    let mut r: usize = 0;
    let mut j: usize = 0;
    while j < k
        invariant
            j <= k <= 16,
            r == word_ones(w, j as int),
        decreases k - j,
    {
        proof {
            lemma_word_ones_bound(w, j as int);
        }
        if (w >> (j as u16)) & 1 == 1 {
            r = r + 1;
        }
        j = j + 1;
    }
    r
}

fn zeroed_u16(n: usize) -> (r: Vec<u16>)
    ensures
        r@.len() == n,
        forall|i: int| 0 <= i < n ==> r@[i] == 0,
{
    let mut r: Vec<u16> = Vec::new();
    while r.len() < n
        invariant
            r@.len() <= n,
            forall|i: int| 0 <= i < r@.len() ==> r@[i] == 0,
        decreases n - r@.len(),
    {
        r.push(0);
    }
    r
}

fn zeroed_u64(n: usize) -> (r: Vec<u64>)
    ensures
        r@.len() == n,
        forall|i: int| 0 <= i < n ==> r@[i] == 0,
{
    let mut r: Vec<u64> = Vec::new();
    while r.len() < n
        invariant
            r@.len() <= n,
            forall|i: int| 0 <= i < r@.len() ==> r@[i] == 0,
        decreases n - r@.len(),
    {
        r.push(0);
    }
    r
}

/// Ones and zeros before any position add up to the position.
pub proof fn law_rank_complement(b: &BitVector, p: int)
    requires
        0 <= p <= b@.len(),
    ensures
        occurrences(b@.subrange(0, p), true) + occurrences(b@.subrange(0, p), false) == p,
{
    lemma_ones_bounds(b@.subrange(0, p));
}

/// The rank of ones over the whole bitmap is its popcount.
pub proof fn law_rank_total(b: &BitVector)
    ensures
        occurrences(b@.subrange(0, b@.len() as int), true) == ones(b@),
{
    assert(b@.subrange(0, b@.len() as int) =~= b@);
}

/// The rank at position zero is zero.
pub proof fn law_rank_zero(b: &BitVector, bit: bool)
    ensures
        occurrences(b@.subrange(0, 0), bit) == 0,
{
}

/// After setting bit `q` to `v`, reading bit `q` gives `v`.
pub proof fn law_set_then_access(before: &BitVector, after: &BitVector, q: int, v: bool)
    requires
        0 <= q < before@.len(),
        after@ == before@.update(q, v),
    ensures
        after@[q] == v,
{
}

} // verus!
