use vstd::prelude::*;
use crate::bit_vector::{BitVector, occurrences, lemma_ones_bounds};
use crate::seq_filter::{
    bit_of, high, one_at, zero_at, both, either, lemma_ones_of_map, lemma_filter_range,
    lemma_filter_twice, lemma_filter_agree, lemma_filter_all, lemma_filter_none,
    lemma_filter_either_len, lemma_filter_weaker, lemma_filter_step,
};

verus! {

/// Entries equal to `c`.
pub open spec fn equal_to(c: u64) -> spec_fn(u64) -> bool {
    |x: u64| x == c
}

/// Entries strictly below `c`.
pub open spec fn less_than(c: u64) -> spec_fn(u64) -> bool {
    |x: u64| x < c
}

/// Number of entries of `s` equal to `c`.
pub open spec fn count_equal(s: Seq<u64>, c: u64) -> nat {
    s.filter(equal_to(c)).len()
}

/// Number of entries of `s` strictly below `c`.
pub open spec fn count_less(s: Seq<u64>, c: u64) -> nat {
    s.filter(less_than(c)).len()
}

/// Entries that agree with `c` on every bit from `k` upwards.
pub open spec fn same_high(c: u64, k: int) -> spec_fn(u64) -> bool {
    |x: u64| high(x, k) == high(c, k)
}

/// Entries whose bits from `k` upwards are below those of `c`.
pub open spec fn lower_high(c: u64, k: int) -> spec_fn(u64) -> bool {
    |x: u64| high(x, k) < high(c, k)
}

/// Stable partition of `s` by bit `k`: clear bits first, then set bits.
pub open spec fn partition_at(s: Seq<u64>, k: int) -> Seq<u64> {
    s.filter(zero_at(k)) + s.filter(one_at(k))
}

/// The order of the entries at depth `d` of a matrix of `dd` layers.
pub open spec fn level(vals: Seq<u64>, dd: int, d: nat) -> Seq<u64>
    decreases d,
{
    if d == 0 {
        vals
    } else {
        partition_at(level(vals, dd, (d - 1) as nat), dd - d)
    }
}

/// The bits that layer `d` of a matrix of `dd` layers holds.
pub open spec fn layer_bits(vals: Seq<u64>, dd: int, d: nat) -> Seq<bool> {
    level(vals, dd, d).map_values(one_at(dd - d - 1))
}

proof fn lemma_high_split(x: u64, c: u64, k: int)
    requires
        0 <= k < 64,
    ensures
        (high(x, k) == high(c, k)) <==> (high(x, k + 1) == high(c, k + 1) && bit_of(x, k)
            == bit_of(c, k)),
        (high(x, k) < high(c, k)) <==> (high(x, k + 1) < high(c, k + 1) || (high(x, k + 1)
            == high(c, k + 1) && !bit_of(x, k) && bit_of(c, k))),
        high(x, k) == (high(x, k + 1) << 1u64) | (if bit_of(x, k) { 1u64 } else { 0u64 }),
{
    let kk = k as u64;
    if k < 63 {
        assert(((x >> kk == c >> kk) <==> (x >> (kk + 1) == c >> (kk + 1) && ((x >> kk) & 1
            == 1) == ((c >> kk) & 1 == 1))) && ((x >> kk < c >> kk) <==> (x >> (kk + 1) < c >> (
        kk + 1) || (x >> (kk + 1) == c >> (kk + 1) && !((x >> kk) & 1 == 1) && ((c >> kk) & 1
            == 1)))) && (x >> kk == ((x >> (kk + 1)) << 1) | (if (x >> kk) & 1 == 1 {
            1u64
        } else {
            0u64
        }))) by (bit_vector)
            requires
                kk < 63,
        ;
    } else {
        assert(((x >> kk == c >> kk) <==> (((x >> kk) & 1 == 1) == ((c >> kk) & 1 == 1))) && ((x
            >> kk < c >> kk) <==> (!((x >> kk) & 1 == 1) && ((c >> kk) & 1 == 1))) && (x >> kk
            == (0u64 << 1) | (if (x >> kk) & 1 == 1 {
            1u64
        } else {
            0u64
        }))) by (bit_vector)
            requires
                kk == 63,
        ;
    }
}


/// The ranks of a layer count the entries of its level by bit.
proof fn lemma_layer_rank(s: Seq<u64>, k: int, p: int)
    requires
        0 <= p <= s.len(),
    ensures
        occurrences(s.map_values(one_at(k)).subrange(0, p), true) == s.subrange(0, p).filter(
            one_at(k),
        ).len(),
        occurrences(s.map_values(one_at(k)).subrange(0, p), false) == s.subrange(0, p).filter(
            zero_at(k),
        ).len(),
        p == s.len() ==> occurrences(s.map_values(one_at(k)), false) == s.filter(
            zero_at(k),
        ).len(),
{
    assert forall|x: u64| #[trigger] zero_at(k)(x) == !one_at(k)(x) by {}
    lemma_ones_of_map(s, one_at(k), zero_at(k), p);
    if p == s.len() {
        assert(s.map_values(one_at(k)).subrange(0, p) =~= s.map_values(one_at(k)));
        assert(s.subrange(0, p) =~= s);
    }
}

proof fn lemma_level_len(vals: Seq<u64>, dd: int, d: nat)
    ensures
        level(vals, dd, d).len() == vals.len(),
    decreases d,
{
    if d > 0 {
        let s = level(vals, dd, (d - 1) as nat);
        lemma_level_len(vals, dd, (d - 1) as nat);
        let k = dd - d;
        assert forall|x: u64| #[trigger] zero_at(k)(x) == !one_at(k)(x) by {}
        lemma_ones_of_map(s, one_at(k), zero_at(k), s.len() as int);
        assert(s.subrange(0, s.len() as int) =~= s);
    }
}

/// Following a run of a level through one layer: the entries of the run
/// whose bit `k` is `bit` land in one run of the next level.
proof fn lemma_run_step(s: Seq<u64>, k: int, bit: bool, b: int, e: int)
    requires
        0 <= b <= e <= s.len(),
    ensures
        ({
            let f = if bit { one_at(k) } else { zero_at(k) };
            let off = if bit { s.filter(zero_at(k)).len() as int } else { 0 };
            let cb = s.subrange(0, b).filter(f).len() as int;
            let ce = s.subrange(0, e).filter(f).len() as int;
            &&& cb <= ce
            &&& off + ce <= s.len()
            &&& partition_at(s, k).subrange(off + cb, off + ce) == s.subrange(b, e).filter(f)
        }),
{
    let f = if bit { one_at(k) } else { zero_at(k) };
    lemma_filter_range(s, f, b, e);
    lemma_layer_rank(s, k, s.len() as int);
    lemma_ones_bounds(s.map_values(one_at(k)));
    assert(s.subrange(0, s.len() as int) =~= s);
    lemma_layer_rank(s, k, s.len() as int);
    let z = s.filter(zero_at(k));
    let o = s.filter(one_at(k));
    let cb = s.subrange(0, b).filter(f).len() as int;
    let ce = s.subrange(0, e).filter(f).len() as int;
    if bit {
        assert((z + o).subrange(z.len() + cb, z.len() + ce) =~= o.subrange(cb, ce));
    } else {
        assert((z + o).subrange(cb, ce) =~= z.subrange(cb, ce));
    }
}

/// The operation of a prefix rank.
pub enum Operator {
    Equal,
    LessThan,
}

/// A sequence of unsigned integers held as one bitmap per bit plane, with
/// access, rank and rank-less-than in time linear in the bit width.
pub struct WaveletMatrix {
    layers: Vec<BitVector>,
    size: usize,
    vals: Ghost<Seq<u64>>,
}

impl WaveletMatrix {
    /// The sequence held.
    pub closed spec fn view(&self) -> Seq<u64> {
        self.vals@
    }

    /// Layer count.
    pub closed spec fn depth(&self) -> int {
        self.layers@.len() as int
    }

    /// Every layer is indexed and holds its bit plane of the partitioned sequence.
    pub closed spec fn wf(&self) -> bool {
        let dd = self.layers@.len() as int;
        &&& dd <= 64
        &&& self.size == self.vals@.len()
        &&& forall|i: int| 0 <= i < self.vals@.len() ==> high(#[trigger] self.vals@[i], dd) == 0
        &&& forall|d: int|
            0 <= d < dd ==> (#[trigger] self.layers@[d]).indexed() && self.layers@[d]@
                == layer_bits(self.vals@, dd, d as nat)
    }

    /// Builds the matrix of `vals`, one layer per bit of its largest value.
    pub fn new(vals: &Vec<u64>) -> (r: Self)
        ensures
            r.wf(),
            r@ == vals@,
            forall|i: int| 0 <= i < vals@.len() ==> high(#[trigger] vals@[i], r.depth()) == 0,
            r.depth() == 0 || exists|i: int|
                0 <= i < vals@.len() && high(#[trigger] vals@[i], r.depth() - 1) != 0,
    {
        let n = vals.len();
        let (max, at) = max_value(vals);
        let bit_len = get_bit_len(max);
        let ghost dd = bit_len as int;
        proof {
            assert forall|i: int| 0 <= i < n implies high(#[trigger] vals@[i], dd) == 0 by {
                let v = vals@[i];
                if dd < 64 {
                    let kk = bit_len as u64;
                    assert(v <= max && max >> kk == 0 ==> v >> kk == 0) by (bit_vector);
                }
            }
        }
        let mut cur: Vec<u64> = Vec::new();
        let mut i: usize = 0;
        while i < n
            invariant
                i <= n == vals@.len(),
                cur@ == vals@.subrange(0, i as int),
            decreases n - i,
        {
            cur.push(vals[i]);
            i = i + 1;
            proof {
                assert(cur@ =~= vals@.subrange(0, i as int));
            }
        }
        proof {
            assert(cur@ =~= vals@);
        }
        let mut layers: Vec<BitVector> = Vec::new();
        let mut depth: usize = 0;
        while depth < bit_len
            invariant
                depth <= bit_len <= 64,
                dd == bit_len,
                n == vals@.len(),
                cur@ == level(vals@, dd, depth as nat),
                cur@.len() == n,
                layers@.len() == depth,
                forall|d: int|
                    0 <= d < depth ==> (#[trigger] layers@[d]).indexed() && layers@[d]@
                        == layer_bits(vals@, dd, d as nat),
            decreases bit_len - depth,
        {
            let k = bit_len - depth - 1;
            let ghost kk = k as int;
            let mut next_zeros: Vec<u64> = Vec::new();
            let mut next_ones: Vec<u64> = Vec::new();
            let mut bits = BitVector::new(n);
            let mut i: usize = 0;
            while i < n
                invariant
                    i <= n,
                    cur@.len() == n,
                    kk == k,
                    k < 64,
                    bits.wf(),
                    bits@.len() == n,
                    forall|j: int| 0 <= j < i ==> bits@[j] == bit_of(#[trigger] cur@[j], kk),
                    next_zeros@ == cur@.subrange(0, i as int).filter(zero_at(kk)),
                    next_ones@ == cur@.subrange(0, i as int).filter(one_at(kk)),
                decreases n - i,
            {
                let v = cur[i];
                let bit = get_bit_lsb(v, k as u8);
                bits.set(i, bit);
                if bit {
                    next_ones.push(v);
                } else {
                    next_zeros.push(v);
                }
                proof {
                    lemma_filter_step(cur@, zero_at(kk), i as int);
                    lemma_filter_step(cur@, one_at(kk), i as int);
                }
                i = i + 1;
            }
            bits.build();
            proof {
                assert(cur@.subrange(0, n as int) =~= cur@);
                assert(bits@ =~= layer_bits(vals@, dd, depth as nat));
                lemma_level_len(vals@, dd, (depth + 1) as nat);
            }
            next_zeros.append(&mut next_ones);
            cur = next_zeros;
            layers.push(bits);
            depth = depth + 1;
            proof {
                assert(cur@ =~= level(vals@, dd, depth as nat));
                assert forall|d: int| 0 <= d < depth implies (#[trigger] layers@[d]).indexed()
                    && layers@[d]@ == layer_bits(vals@, dd, d as nat) by {}
            }
        }
        let r = WaveletMatrix { layers, size: n, vals: Ghost(vals@) };
        proof {
            if dd > 0 {
                if n == 0 {
                    let kk = (dd - 1) as u64;
                    assert(0u64 >> kk == 0) by (bit_vector);
                }
                assert(high(vals@[at as int], dd - 1) != 0);
            }
        }
        r
    }

    /// The bit planes, most significant first.
    pub fn layers(&self) -> (r: &Vec<BitVector>)
        requires
            self.wf(),
        ensures
            r@.len() == self.depth(),
            forall|d: int|
                0 <= d < r@.len() ==> (#[trigger] r@[d]).indexed() && r@[d]@ == layer_bits(
                    self@,
                    self.depth(),
                    d as nat,
                ) && r@[d]@.len() == self@.len(),
    {
        proof {
            assert forall|d: int| 0 <= d < self.layers@.len() implies (#[trigger] self.layers@[d])@.len()
                == self@.len() by {
                lemma_level_len(self.vals@, self.layers@.len() as int, d as nat);
            }
        }
        &self.layers
    }

    /// Number of entries.
    pub fn len(&self) -> (r: usize)
        requires
            self.wf(),
        ensures
            r == self@.len(),
    {
        self.size
    }

    /// Number of entries equal to `c` among the first `pos`.
    pub fn rank(&self, pos: usize, c: u64) -> (r: usize)
        requires
            self.wf(),
            pos <= self@.len(),
        ensures
            r == count_equal(self@.subrange(0, pos as int), c),
    {
        self.prefix_rank_op(pos, c, Operator::Equal)
    }

    /// Number of entries strictly below `c` among the first `pos`.
    pub fn rank_less_than(&self, pos: usize, c: u64) -> (r: usize)
        requires
            self.wf(),
            pos <= self@.len(),
        ensures
            r == count_less(self@.subrange(0, pos as int), c),
    {
        self.prefix_rank_op(pos, c, Operator::LessThan)
    }

    /// The entry at `pos`.
    pub fn access(&self, pos: usize) -> (r: u64)
        requires
            self.wf(),
            pos < self@.len(),
        ensures
            r == self@[pos as int],
    {
        let ghost vals = self.vals@;
        let ghost v = vals[pos as int];
        let dd = self.layers.len();
        let mut c: u64 = 0;
        let mut p: usize = pos;
        let mut d: usize = 0;
        proof {
            lemma_level_len(vals, dd as int, 0);
        }
        while d < dd
            invariant
                self.wf(),
                dd == self.layers@.len(),
                d <= dd,
                p < vals.len(),
                vals == self.vals@,
                v == vals[pos as int],
                level(vals, dd as int, d as nat)[p as int] == v,
                c == high(v, dd - d),
            decreases dd - d,
        {
            let ghost s = level(vals, dd as int, d as nat);
            let ghost k = dd - d - 1;
            let layer = &self.layers[d];
            proof {
                lemma_level_len(vals, dd as int, d as nat);
                lemma_level_len(vals, dd as int, (d + 1) as nat);
                layer.lemma_indexed_wf();
            }
            let bit = layer.access(p);
            let mut np = layer.rank(p, bit);
            proof {
                lemma_high_split(v, v, k);
                lemma_layer_rank(s, k, p as int);
                lemma_layer_rank(s, k, s.len() as int);
                lemma_run_step(s, k, bit, p as int, p as int + 1);
                let f = if bit { one_at(k) } else { zero_at(k) };
                assert(s.subrange(p as int, p as int + 1) =~= seq![v]);
                lemma_filter_all(seq![v], f);
            }
            c = c << 1u64;
            if bit {
                np = np + layer.zeros();
                c = c | 1u64;
            }
            proof {
                assert(c == high(v, k)) by {
                    let h = high(v, k + 1);
                    assert((h << 1u64) | 0u64 == h << 1u64) by (bit_vector);
                }
                let nxt = level(vals, dd as int, (d + 1) as nat);
                assert(nxt == partition_at(s, k));
                let sub = nxt.subrange(np as int, np as int + 1);
                assert(sub[0] == nxt[np as int]);
            }
            p = np;
            d = d + 1;
        }
        proof {
            assert(v >> 0u64 == v) by (bit_vector);
        }
        c
    }

    /// Counts, among the first `pos` entries, those equal to `val` or those
    /// below it, as `operator` says.
    fn prefix_rank_op(&self, pos: usize, val: u64, operator: Operator) -> (r: usize)
        requires
            self.wf(),
            pos <= self@.len(),
        ensures
            r == match operator {
                Operator::Equal => count_equal(self@.subrange(0, pos as int), val),
                Operator::LessThan => count_less(self@.subrange(0, pos as int), val),
            },
    {
        let ghost vals = self.vals@;
        let ghost pre = vals.subrange(0, pos as int);
        let dd = self.layers.len();
        if dd < 64 && (val >> (dd as u64)) != 0 {
            proof {
                let kk = dd as u64;
                assert forall|i: int| 0 <= i < pre.len() implies !equal_to(val)(pre[i])
                    && less_than(val)(pre[i]) by {
                    let x = pre[i];
                    assert(high(vals[i], dd as int) == 0);
                    assert(x >> kk == 0 && val >> kk != 0 ==> x != val && x < val)
                        by (bit_vector);
                }
                lemma_filter_none(pre, equal_to(val));
                lemma_filter_all(pre, less_than(val));
            }
            return match operator {
                Operator::Equal => 0,
                Operator::LessThan => pos,
            };
        }
        let is_less = match operator {
            Operator::Equal => false,
            Operator::LessThan => true,
        };
        let mut bpos: usize = 0;
        let mut epos: usize = pos;
        let mut rank: usize = 0;
        let mut d: usize = 0;
        proof {
            assert forall|i: int| 0 <= i < pre.len() implies same_high(val, dd as int)(pre[i])
                && !lower_high(val, dd as int)(pre[i]) by {
                assert(high(vals[i], dd as int) == 0);
            }
            lemma_filter_all(pre, same_high(val, dd as int));
            lemma_filter_none(pre, lower_high(val, dd as int));
            assert(vals.subrange(0, pos as int) == pre);
        }
        while d < dd
            invariant
                self.wf(),
                dd == self.layers@.len(),
                d <= dd,
                vals == self.vals@,
                pos <= vals.len(),
                pre == vals.subrange(0, pos as int),
                high(val, dd as int) == 0,
                is_less == (operator is LessThan),
                bpos <= epos <= vals.len(),
                level(vals, dd as int, d as nat).subrange(bpos as int, epos as int) == pre.filter(
                    same_high(val, dd - d),
                ),
                is_less ==> rank == pre.filter(lower_high(val, dd - d)).len(),
            decreases dd - d,
        {
            let ghost s = level(vals, dd as int, d as nat);
            let ghost k = dd - d - 1;
            let ghost m = same_high(val, k + 1);
            let layer = &self.layers[d];
            let bit = get_bit_msb(val, d as u8, dd as u8);
            proof {
                lemma_level_len(vals, dd as int, d as nat);
                lemma_level_len(vals, dd as int, (d + 1) as nat);
                assert(level(vals, dd as int, (d + 1) as nat) == partition_at(s, k));
                lemma_layer_rank(s, k, bpos as int);
                lemma_layer_rank(s, k, epos as int);
                lemma_layer_rank(s, k, s.len() as int);
                lemma_run_step(s, k, bit, bpos as int, epos as int);
                lemma_run_step(s, k, false, bpos as int, epos as int);
                let f = if bit { one_at(k) } else { zero_at(k) };
                lemma_filter_twice(pre, m, f);
                lemma_filter_twice(pre, m, zero_at(k));
                assert forall|i: int| 0 <= i < pre.len() implies both(m, f)(pre[i])
                    == same_high(val, k)(pre[i]) by {
                    lemma_high_split(pre[i], val, k);
                }
                lemma_filter_agree(pre, both(m, f), same_high(val, k));
                pre.lemma_filter_len(lower_high(val, k));
            }
            if bit {
                if is_less {
                    let add = layer.rank(epos, false) - layer.rank(bpos, false);
                    proof {
                        let z0 = s.filter(zero_at(k));
                        let cb = s.subrange(0, bpos as int).filter(zero_at(k)).len() as int;
                        let ce = s.subrange(0, epos as int).filter(zero_at(k)).len() as int;
                        assert(add == ce - cb);
                        assert(partition_at(s, k).subrange(cb, ce) == s.subrange(bpos as int, epos as int).filter(zero_at(k)));
                        assert(s.subrange(bpos as int, epos as int) == pre.filter(m));
                        assert(add == pre.filter(both(m, zero_at(k))).len());
                        let lo = lower_high(val, k + 1);
                        let g = both(m, zero_at(k));
                        assert forall|i: int| 0 <= i < pre.len() implies either(lo, g)(pre[i])
                            == lower_high(val, k)(pre[i]) && !(lo(pre[i]) && g(pre[i])) by {
                            lemma_high_split(pre[i], val, k);
                        }
                        lemma_filter_either_len(pre, lo, g);
                        lemma_filter_agree(pre, either(lo, g), lower_high(val, k));
                    }
                    rank = rank + add;
                }
                let z = layer.zeros();
                bpos = layer.rank(bpos, true) + z;
                epos = layer.rank(epos, true) + z;
            } else {
                proof {
                    assert forall|i: int| 0 <= i < pre.len() implies lower_high(val, k + 1)(
                        pre[i],
                    ) == lower_high(val, k)(pre[i]) by {
                        lemma_high_split(pre[i], val, k);
                    }
                    lemma_filter_agree(pre, lower_high(val, k + 1), lower_high(val, k));
                }
                bpos = layer.rank(bpos, false);
                epos = layer.rank(epos, false);
            }
            proof {
                lemma_level_len(vals, dd as int, (d + 1) as nat);
                assert(level(vals, dd as int, (d + 1) as nat) == partition_at(s, k));
            }
            d = d + 1;
        }
        proof {
            assert forall|i: int| 0 <= i < pre.len() implies same_high(val, 0)(pre[i])
                == equal_to(val)(pre[i]) && lower_high(val, 0)(pre[i]) == less_than(val)(
                pre[i],
            ) by {
                let x = pre[i];
                assert(x >> 0u64 == x && val >> 0u64 == val) by (bit_vector);
            }
            lemma_filter_agree(pre, same_high(val, 0), equal_to(val));
            lemma_filter_agree(pre, lower_high(val, 0), less_than(val));
            assert(level(vals, dd as int, d as nat).subrange(bpos as int, epos as int) == pre.filter(equal_to(val)));
            assert(self@.subrange(0, pos as int) == pre);
        }
        let ghost fin = level(vals, dd as int, d as nat).subrange(bpos as int, epos as int);
        proof {
            lemma_level_len(vals, dd as int, d as nat);
            assert(fin.len() == epos - bpos);
        }
        match operator {
            Operator::Equal => epos - bpos,
            Operator::LessThan => rank,
        }
    }
}

/// The largest entry of `vals` (zero when empty), with a position holding it.
fn max_value(vals: &Vec<u64>) -> (r: (u64, usize))
    ensures
        forall|i: int| 0 <= i < vals@.len() ==> vals@[i] <= r.0,
        vals@.len() > 0 ==> r.1 < vals@.len() && vals@[r.1 as int] == r.0,
        vals@.len() == 0 ==> r.0 == 0,
{
    let mut m: u64 = 0;
    let mut at: usize = 0;
    let mut i: usize = 0;
    while i < vals.len()
        invariant
            i <= vals@.len(),
            forall|j: int| 0 <= j < i ==> vals@[j] <= m,
            i > 0 ==> at < i && vals@[at as int] == m,
            i == 0 ==> m == 0,
        decreases vals@.len() - i,
    {
        if i == 0 || vals[i] > m {
            m = vals[i];
            at = i;
        }
        i = i + 1;
    }
    (m, at)
}

/// Number of bits needed to write `val`.
fn get_bit_len(val: u64) -> (r: usize)
    ensures
        r <= 64,
        high(val, r as int) == 0,
        r == 0 || high(val, r - 1) != 0,
{
    let mut blen: usize = 0;
    let mut v = val;
    proof {
        assert(val >> 0u64 == val) by (bit_vector);
    }
    while v > 0
        invariant
            blen <= 64,
            v == high(val, blen as int),
            blen == 0 || high(val, blen - 1) != 0,
        decreases 64 - blen,
    {
        proof {
            let kk = blen as u64;
            assert(kk < 63 ==> (val >> kk) >> 1u64 == val >> (kk + 1)) by (bit_vector);
            assert(kk == 63 ==> (val >> kk) >> 1u64 == 0) by (bit_vector);
        }
        v = v >> 1u64;
        blen = blen + 1;
    }
    blen
}

/// Bit `pos` of `x`, counted from the most significant of `blen` bits.
fn get_bit_msb(x: u64, pos: u8, blen: u8) -> (r: bool)
    requires
        pos < blen <= 64,
    ensures
        r == bit_of(x, blen - pos - 1),
{
    ((x >> ((blen - pos - 1) as u64)) & 1) == 1
}

/// Bit `pos` of `x`, counted from the least significant.
fn get_bit_lsb(x: u64, pos: u8) -> (r: bool)
    requires
        pos < 64,
    ensures
        r == bit_of(x, pos as int),
{
    ((x >> (pos as u64)) & 1) == 1
}

/// A matrix built from `vals` holds `vals`: access at every position gives
/// the entry there.
pub proof fn law_access_round_trip(wm: &WaveletMatrix, vals: Seq<u64>)
    requires
        wm@ == vals,
    ensures
        forall|i: int| 0 <= i < vals.len() ==> #[trigger] wm@[i] == vals[i],
{
}

/// The rank over the whole sequence counts every entry equal to `c`, and the
/// rank-less-than over it every entry below `c`.
pub proof fn law_rank_whole(wm: &WaveletMatrix, c: u64)
    ensures
        count_equal(wm@.subrange(0, wm@.len() as int), c) == count_equal(wm@, c),
        count_less(wm@.subrange(0, wm@.len() as int), c) == count_less(wm@, c),
{
    assert(wm@.subrange(0, wm@.len() as int) =~= wm@);
}

/// Rank and rank-less-than never decrease as the prefix grows, and
/// rank-less-than never decreases as the bound grows.
pub proof fn law_rank_monotone(wm: &WaveletMatrix, p: int, q: int, c: u64, d: u64)
    requires
        0 <= p <= q <= wm@.len(),
        c <= d,
    ensures
        count_equal(wm@.subrange(0, p), c) <= count_equal(wm@.subrange(0, q), c),
        count_less(wm@.subrange(0, p), c) <= count_less(wm@.subrange(0, q), c),
        count_less(wm@.subrange(0, p), c) <= count_less(wm@.subrange(0, p), d),
{
    let s = wm@.subrange(0, q);
    assert(s.subrange(0, p) =~= wm@.subrange(0, p));
    lemma_filter_range(s, equal_to(c), p, p);
    lemma_filter_range(s, less_than(c), p, p);
    let pre = wm@.subrange(0, p);
    assert forall|i: int| 0 <= i < pre.len() && less_than(c)(pre[i]) implies less_than(d)(pre[i]) by {}
    lemma_filter_weaker(pre, less_than(c), less_than(d));
}

} // verus!
