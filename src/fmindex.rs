use vstd::prelude::*;
use vstd::string::*;
use vstd::utf8::{valid_utf8, decode_utf8};
use crate::wavelet_matrix::{WaveletMatrix, count_equal, count_less, equal_to, less_than};
use crate::seq_filter::{either, lemma_filter_range, lemma_filter_either_len, lemma_filter_step};

verus! {

/// `a` comes strictly before `b` in lexicographic byte order.
pub open spec fn lex_less(a: Seq<u8>, b: Seq<u8>) -> bool
    decreases a.len(),
{
    if a.len() == 0 {
        b.len() > 0
    } else if b.len() == 0 {
        false
    } else if a[0] != b[0] {
        a[0] < b[0]
    } else {
        lex_less(a.drop_first(), b.drop_first())
    }
}

/// The suffix of `t` at `x` comes strictly before the one at `y`.
pub open spec fn suffix_less(t: Seq<u8>, x: u32, y: u32) -> bool {
    lex_less(t.subrange(x as int, t.len() as int), t.subrange(y as int, t.len() as int))
}

/// `sa` lists the start of every suffix of `t` in strictly increasing order.
pub open spec fn is_suffix_array(t: Seq<u8>, sa: Seq<u32>) -> bool {
    &&& sa.len() == t.len()
    &&& forall|k: int| 0 <= k < sa.len() ==> (#[trigger] sa[k]) < t.len()
    &&& forall|a: int, b: int| 0 <= a < b < sa.len() ==> suffix_less(t, #[trigger] sa[a], #[trigger] sa[b])
}

/// The Burrows-Wheeler transform of `t` from its suffix array: row zero is
/// the end-of-text row, and the symbol zero marks the start of the text.
pub open spec fn bwt_of(t: Seq<u8>, sa: Seq<u32>) -> Seq<u64> {
    Seq::new(
        sa.len() + 1,
        |k: int|
            if k == 0 {
                t[t.len() - 1] as u64
            } else if sa[k - 1] == 0 {
                0u64
            } else {
                t[sa[k - 1] - 1] as u64
            },
    )
}

/// Where the rows before `lo` that end in `c` go by the last-to-first map.
pub open spec fn lf_step(bwt: Seq<u64>, lo: int, c: u64) -> int {
    (count_equal(bwt.subrange(0, lo), c) + count_less(bwt, c)) as int
}

/// The last-to-first map on one row.
pub open spec fn lf_row(bwt: Seq<u64>, j: int) -> int {
    lf_step(bwt, j, bwt[j])
}

/// The row reached from `i` after `t` steps of the last-to-first map.
pub open spec fn row_after(bwt: Seq<u64>, i: int, t: nat) -> int
    decreases t,
{
    if t == 0 {
        i
    } else {
        lf_row(bwt, row_after(bwt, i, (t - 1) as nat))
    }
}

/// The `m` bytes read backwards from row `i`, in text order.
pub open spec fn back_bytes(bwt: Seq<u64>, i: int, m: int) -> Seq<u8> {
    Seq::new(m as nat, |x: int| bwt[row_after(bwt, i, (m - 1 - x) as nat)] as u8)
}

/// The rows whose suffixes start with `p`, by backward search; `(0, 0)` when
/// there are none.
pub open spec fn backward_search(bwt: Seq<u64>, p: Seq<u8>) -> (int, int)
    decreases p.len(),
{
    if p.len() == 0 {
        (0, bwt.len() as int)
    } else {
        let (s, e) = backward_search(bwt, p.drop_first());
        let c = p[0] as u64;
        if s >= e || lf_step(bwt, s, c) >= lf_step(bwt, e, c) {
            (0, 0)
        } else {
            (lf_step(bwt, s, c), lf_step(bwt, e, c))
        }
    }
}

/// `p` holds the byte zero, which no text of an index holds.
pub open spec fn has_zero(p: Seq<u8>) -> bool {
    exists|k: int| 0 <= k < p.len() && p[k] == 0
}

/// The rows that `search` reports for `p`: none when `p` holds the byte
/// zero, else those of backward search.
pub open spec fn search_range(bwt: Seq<u64>, p: Seq<u8>) -> (int, int) {
    if has_zero(p) {
        (0, 0)
    } else {
        backward_search(bwt, p)
    }
}

/// The text position at which the suffix of row `j` starts: the end of the
/// text for row zero, else the suffix array entry before it.
pub open spec fn row_start(t: Seq<u8>, sa: Seq<u32>, j: int) -> int {
    if j == 0 {
        t.len() as int
    } else {
        sa[j - 1] as int
    }
}

/// The number of BWT rows for which a tail of `text_len` bytes is sampled
/// at `numer / denom`.
pub open spec fn sample_count(text_len: int, numer: int, denom: int) -> int {
    (text_len + 1) * numer / denom
}

/// Why an index could not be built.
#[derive(Debug, Clone, Copy, PartialEq, Eq, Structural)]
pub enum BuildError {
    /// The text is empty.
    EmptyText,
    /// The text holds `u32::MAX` bytes or more.
    TooLong,
    /// The sampling rate is not in `(0, 1]`.
    InvalidRate,
    /// The text holds the byte zero, which marks the end of the text.
    SentinelByte,
    /// The sampling rate keeps no row of so short a text.
    ZeroStride,
}

/// A half-open interval of BWT rows.
#[derive(Debug, Clone, Copy, PartialEq, Eq, Structural)]
pub struct Range {
    pub start: usize,
    pub end: usize,
}

/// Relies on `suffix::SuffixTable::new` and `SuffixTable::table`: the byte
/// offsets of all suffixes of the text, sorted by the suffixes' bytes. The
/// crate panics on more than `u32::MAX` bytes.
#[verifier::external_body]
fn suffix_table(text: &str) -> (r: Vec<u32>)
    requires
        text.spec_bytes().len() <= u32::MAX,
    ensures
        is_suffix_array(text.spec_bytes(), r@),
{
    suffix::SuffixTable::new(text).table().to_vec()
}

/// Relies on `std::str::from_utf8`: it succeeds exactly on valid UTF-8 and
/// then holds the decoded characters.
#[verifier::external_body]
fn utf8_string(bytes: &[u8]) -> (r: Option<String>)
    ensures
        r.is_some() == valid_utf8(bytes@),
        r matches Some(s) ==> s@ == decode_utf8(bytes@),
{
    match std::str::from_utf8(bytes) {
        Ok(s) => Some(s.to_string()),
        Err(_) => None,
    }
}

proof fn lemma_lf_bound(bwt: Seq<u64>, lo: int, c: u64)
    requires
        0 <= lo <= bwt.len(),
    ensures
        count_equal(bwt.subrange(0, lo), c) <= count_equal(bwt, c),
        0 <= lf_step(bwt, lo, c) <= bwt.len(),
        lo < bwt.len() && bwt[lo] == c ==> lf_step(bwt, lo, c) < bwt.len(),
{
    lemma_filter_range(bwt, equal_to(c), lo, lo);
    assert forall|i: int| 0 <= i < bwt.len() implies !(equal_to(c)(bwt[i]) && less_than(c)(
        bwt[i],
    )) by {}
    lemma_filter_either_len(bwt, equal_to(c), less_than(c));
    bwt.lemma_filter_len(either(equal_to(c), less_than(c)));
    if lo < bwt.len() && bwt[lo] == c {
        lemma_filter_range(bwt, equal_to(c), lo + 1, lo + 1);
        lemma_filter_step(bwt, equal_to(c), lo);
    }
}

proof fn lemma_row_after_bound(bwt: Seq<u64>, i: int, t: nat)
    requires
        0 <= i < bwt.len(),
    ensures
        0 <= row_after(bwt, i, t) < bwt.len(),
    decreases t,
{
    if t > 0 {
        lemma_row_after_bound(bwt, i, (t - 1) as nat);
        let j = row_after(bwt, i, (t - 1) as nat);
        lemma_lf_bound(bwt, j, bwt[j]);
    }
}

proof fn lemma_search_stays_empty(bwt: Seq<u64>, p: Seq<u8>, j: int)
    requires
        0 <= j <= p.len(),
        backward_search(bwt, p.subrange(j, p.len() as int)) == (0int, 0int),
        bwt.len() > 0 || j < p.len(),
    ensures
        backward_search(bwt, p) == (0int, 0int),
    decreases j,
{
    if j > 0 {
        let q = p.subrange(j - 1, p.len() as int);
        assert(q.drop_first() =~= p.subrange(j, p.len() as int));
        lemma_search_stays_empty(bwt, p, j - 1);
    } else {
        assert(p.subrange(0, p.len() as int) =~= p);
    }
}

proof fn lemma_div_step(i: int, d: int)
    requires
        1 <= i,
        1 <= d,
    ensures
        i % d == 0 ==> i / d == (i - 1) / d + 1 && ((i - 1) / d + 1) * d == i,
        i % d != 0 ==> i / d == (i - 1) / d,
{
    vstd::arithmetic::div_mod::lemma_fundamental_div_mod(i, d);
    vstd::arithmetic::div_mod::lemma_fundamental_div_mod(i - 1, d);
    vstd::arithmetic::div_mod::lemma_mod_bound(i, d);
    vstd::arithmetic::div_mod::lemma_mod_bound(i - 1, d);
    let q = i / d;
    let r = i % d;
    let q1 = (i - 1) / d;
    let r1 = (i - 1) % d;
    if r == 0 {
        assert(i - 1 == (q - 1) * d + (d - 1)) by (nonlinear_arith)
            requires
                i == d * q,
        ;
        vstd::arithmetic::div_mod::lemma_fundamental_div_mod_converse(i - 1, d, q - 1, d - 1);
        assert((q1 + 1) * d == d * q1 + d) by (nonlinear_arith);
    } else {
        assert(0 < r < d);
        assert(i - 1 == q * d + (r - 1)) by (nonlinear_arith)
            requires
                i == d * q + r,
        ;
        vstd::arithmetic::div_mod::lemma_fundamental_div_mod_converse(i - 1, d, q, r - 1);
    }
}

/// A compressed full-text index over the bytes of one text.
pub struct FMIndex {
    wm: WaveletMatrix,
    sampled_sa: Vec<usize>,
    div: usize,
    rate_numer: usize,
    rate_denom: usize,
    text: Ghost<Seq<u8>>,
    sa: Ghost<Seq<u32>>,
}

impl FMIndex {
    /// The indexed text.
    pub closed spec fn text(&self) -> Seq<u8> {
        self.text@
    }

    /// The suffix array of the text.
    pub closed spec fn suffixes(&self) -> Seq<u32> {
        self.sa@
    }

    /// The BWT sequence held by the wavelet matrix.
    pub closed spec fn bwt(&self) -> Seq<u64> {
        self.wm@
    }

    /// The sampling rate the index was built with, as numerator and denominator.
    pub closed spec fn rate(&self) -> (usize, usize) {
        (self.rate_numer, self.rate_denom)
    }

    /// The stride between sampled rows.
    pub closed spec fn stride(&self) -> int {
        self.div as int
    }

    /// The sampled suffix array.
    pub closed spec fn samples(&self) -> Seq<usize> {
        self.sampled_sa@
    }

    pub closed spec fn wf(&self) -> bool {
        let n = self.text@.len();
        &&& self.wm.wf()
        &&& 1 <= n < u32::MAX
        &&& is_suffix_array(self.text@, self.sa@)
        &&& forall|k: int| 0 <= k < n ==> #[trigger] self.text@[k] != 0
        &&& self.wm@ == bwt_of(self.text@, self.sa@)
        &&& 1 <= self.div <= n + 1
        &&& self.sampled_sa@.len() == (n as int) / (self.div as int) + 1
        &&& self.sampled_sa@[0] == 0
        &&& forall|k: int|
            1 <= k < self.sampled_sa@.len() ==> #[trigger] self.sampled_sa@[k] == self.sa@[k
                * self.div - 1]
    }

    /// Builds the index of `text`, sampling one suffix-array row in four.
    pub fn new(text: &str) -> (r: Result<FMIndex, BuildError>)
        ensures
            Self::build_result(text.spec_bytes(), 1, 4, r),
    {
        Self::with_rate(text, 1, 4)
    }

    /// Builds the index of `text`, sampling `numer` suffix-array rows in
    /// every `denom`.
    pub fn with_rate(text: &str, numer: usize, denom: usize) -> (r: Result<FMIndex, BuildError>)
        ensures
            Self::build_result(text.spec_bytes(), numer as int, denom as int, r),
    {
        let bytes = text.as_bytes();
        let ghost t = text.spec_bytes();
        let n = bytes.len();
        if n == 0 {
            return Err(BuildError::EmptyText);
        }
        if n >= 0xFFFF_FFFFusize {
            return Err(BuildError::TooLong);
        }
        if numer == 0 || denom == 0 || numer > denom {
            return Err(BuildError::InvalidRate);
        }
        let mut k: usize = 0;
        while k < n
            invariant
                k <= n == t.len(),
                0 < n < 0xFFFF_FFFF,
                0 < numer <= denom,
                t == text.spec_bytes(),
                bytes@ == t,
                forall|x: int| 0 <= x < k ==> t[x] != 0,
            decreases n - k,
        {
            if bytes[k] == 0 {
                proof {
                    assert(t[k as int] == 0);
                    assert(Self::build_error(t, numer as int, denom as int) == Some(BuildError::SentinelByte));
                }
                return Err(BuildError::SentinelByte);
            }
            k = k + 1;
        }
        let nb = n + 1;
        proof {
            assert(numer <= u64::MAX);
            assert((nb as int) * (numer as int) <= 0x1_0000_0000 * 0xFFFF_FFFF_FFFF_FFFF) by (nonlinear_arith)
                requires
                    nb <= 0x1_0000_0000,
                    numer <= 0xFFFF_FFFF_FFFF_FFFF,
            ;
        }
        let samples = ((nb as u128) * (numer as u128) / (denom as u128)) as usize;
        proof {
            assert((nb as int) * (numer as int) / (denom as int) <= nb) by (nonlinear_arith)
                requires
                    0 < numer <= denom,
                    nb > 0,
            ;
            assert((nb as int) * (numer as int) / (denom as int) >= 0) by (nonlinear_arith)
                requires
                    0 < numer <= denom,
                    nb > 0,
            ;
            assert((nb as u128) * (numer as u128) == (nb as int) * (numer as int)) by (nonlinear_arith)
                requires
                    nb < 0x1_0000_0000,
                    numer < 0x1_0000_0000_0000_0000,
            ;
        }
        if samples == 0 {
            return Err(BuildError::ZeroStride);
        }
        let div = nb / samples;
        proof {
            assert(1 <= div <= nb) by (nonlinear_arith)
                requires
                    div == nb / samples,
                    1 <= samples <= nb,
            ;
        }
        let sa = suffix_table(text);
        let mut sampled_sa: Vec<usize> = Vec::new();
        sampled_sa.push(0);
        let mut i: usize = 1;
        while i < nb
            invariant
                1 <= i <= nb == n + 1,
                1 <= div,
                sa@.len() == n,
                sampled_sa@.len() == (i - 1) / (div as int) + 1,
                sampled_sa@[0] == 0,
                forall|k: int|
                    1 <= k < sampled_sa@.len() ==> #[trigger] sampled_sa@[k] == sa@[k * div - 1],
            decreases nb - i,
        {
            proof {
                lemma_div_step(i as int, div as int);
            }
            if i % div == 0 {
                sampled_sa.push(sa[i - 1] as usize);
                proof {
                    let last = sampled_sa@.len() - 1;
                    assert(sampled_sa@[last] == sa@[last * div - 1]);
                }
            }
            i = i + 1;
        }
        let mut bwt: Vec<u64> = Vec::new();
        bwt.push(bytes[n - 1] as u64);
        let mut k: usize = 0;
        while k < n
            invariant
                k <= n == t.len() == sa@.len(),
                bytes@ == t,
                is_suffix_array(t, sa@),
                bwt@ == bwt_of(t, sa@).subrange(0, k as int + 1),
            decreases n - k,
        {
            let s = sa[k] as usize;
            bwt.push(if s == 0 { 0 } else { bytes[s - 1] as u64 });
            k = k + 1;
            proof {
                assert(bwt@ =~= bwt_of(t, sa@).subrange(0, k as int + 1));
            }
        }
        proof {
            assert(bwt@ =~= bwt_of(t, sa@));
        }
        let wm = WaveletMatrix::new(&bwt);
        let r = FMIndex {
            wm,
            sampled_sa,
            div,
            rate_numer: numer,
            rate_denom: denom,
            text: Ghost(t),
            sa: Ghost(sa@),
        };
        proof {
            assert(!(exists|x: int| 0 <= x < t.len() && t[x] == 0));
        }
        Ok(r)
    }

    /// Errors of a build, in the order they are checked.
    pub open spec fn build_error(t: Seq<u8>, numer: int, denom: int) -> Option<BuildError> {
        if t.len() == 0 {
            Some(BuildError::EmptyText)
        } else if t.len() >= u32::MAX {
            Some(BuildError::TooLong)
        } else if numer <= 0 || denom <= 0 || numer > denom {
            Some(BuildError::InvalidRate)
        } else if exists|k: int| 0 <= k < t.len() && t[k] == 0 {
            Some(BuildError::SentinelByte)
        } else if sample_count(t.len() as int, numer, denom) == 0 {
            Some(BuildError::ZeroStride)
        } else {
            None
        }
    }

    /// What a build from `t` at rate `numer / denom` gives: the error of
    /// `build_error` if any, else an index of `t`.
    pub open spec fn build_result(
        t: Seq<u8>,
        numer: int,
        denom: int,
        r: Result<FMIndex, BuildError>,
    ) -> bool {
        match Self::build_error(t, numer, denom) {
            Some(e) => r == Err::<FMIndex, BuildError>(e),
            None => r matches Ok(ix) && {
                &&& ix.wf()
                &&& ix.text() == t
                &&& is_suffix_array(t, ix.suffixes())
                &&& ix.bwt() == bwt_of(t, ix.suffixes())
                &&& ix.stride() == (t.len() as int + 1) / sample_count(t.len() as int, numer, denom)
                &&& ix.rate() == (numer as usize, denom as usize)
                &&& ix.samples().len() == t.len() as int / ix.stride() + 1
                &&& ix.samples()[0] == 0
                &&& forall|k: int|
                    1 <= k < ix.samples().len() ==> #[trigger] ix.samples()[k]
                        == ix.suffixes()[k * ix.stride() - 1]
            },
        }
    }
}

impl FMIndex {
    /// The wavelet matrix over the BWT.
    pub fn wavelet_matrix(&self) -> (r: &WaveletMatrix)
        ensures
            r@ == self.bwt(),
    {
        &self.wm
    }

    /// The sampled suffix array.
    pub fn sampled_sa(&self) -> (r: &Vec<usize>)
        ensures
            r@ == self.samples(),
    {
        &self.sampled_sa
    }

    /// The sampling rate, as numerator and denominator.
    pub fn sampling_rate(&self) -> (r: (usize, usize))
        ensures
            r == self.rate(),
    {
        (self.rate_numer, self.rate_denom)
    }

    /// The rows whose suffixes start with the bytes of `query`, found by
    /// backward search; the empty range `[0, 0)` when there are none, and
    /// for a query holding the byte zero.
    pub fn search(&self, query: &str) -> (r: Range)
        requires
            self.wf(),
        ensures
            (r.start as int, r.end as int) == search_range(self.bwt(), query.spec_bytes()),
            has_zero(query.spec_bytes()) ==> r.start == 0 && r.end == 0,
    {
        let ghost bwt = self.wm@;
        let ghost p = query.spec_bytes();
        let bytes = query.as_bytes();
        let mut z: usize = 0;
        while z < bytes.len()
            invariant
                p == query.spec_bytes(),
                bytes@ == p,
                z <= p.len(),
                forall|x: int| 0 <= x < z ==> p[x] != 0,
            decreases p.len() - z,
        {
            if bytes[z] == 0 {
                proof {
                    assert(p[z as int] == 0);
                }
                return Range { start: 0, end: 0 };
            }
            z = z + 1;
        }
        let len = self.wm.len();
        let mut start: usize = 0;
        let mut end: usize = len;
        let mut j: usize = bytes.len();
        proof {
            assert(p.subrange(j as int, j as int) =~= Seq::<u8>::empty());
        }
        while j > 0
            invariant
                self.wf(),
                bwt == self.wm@,
                len == bwt.len(),
                p == query.spec_bytes(),
                bytes@ == p,
                !has_zero(p),
                j <= p.len(),
                start <= end <= len,
                (start as int, end as int) == backward_search(bwt, p.subrange(j as int, p.len() as int)),
                start < end,
            decreases j,
        {
            j = j - 1;
            let b = bytes[j] as u64;
            let less = self.wm.rank_less_than(len, b);
            proof {
                assert(bwt.subrange(0, len as int) =~= bwt);
                lemma_lf_bound(bwt, start as int, b);
                lemma_lf_bound(bwt, end as int, b);
                let q = p.subrange(j as int, p.len() as int);
                assert(q.drop_first() =~= p.subrange(j + 1, p.len() as int));
                assert(q[0] == p[j as int]);
            }
            start = self.wm.rank(start, b) + less;
            end = self.wm.rank(end, b) + less;
            if start >= end {
                proof {
                    let q = p.subrange(j as int, p.len() as int);
                    assert(start == lf_step(bwt, backward_search(bwt, q.drop_first()).0, q[0] as u64));
                    assert(backward_search(bwt, q) == (0int, 0int));
                    lemma_search_stays_empty(bwt, p, j as int);
                }
                return Range { start: 0, end: 0 };
            }
        }
        proof {
            assert(p.subrange(0, p.len() as int) =~= p);
        }
        Range { start, end }
    }

    /// Whether `query` occurs in the text.
    pub fn contains(&self, query: &str) -> (r: bool)
        requires
            self.wf(),
        ensures
            r == (search_range(self.bwt(), query.spec_bytes()).0 < search_range(
                self.bwt(),
                query.spec_bytes(),
            ).1),
    {
        let range = self.search(query);
        range.start < range.end
    }

    /// Number of occurrences of `query` in the text.
    pub fn counts(&self, query: &str) -> (r: usize)
        requires
            self.wf(),
        ensures
            r == search_range(self.bwt(), query.spec_bytes()).1 - search_range(
                self.bwt(),
                query.spec_bytes(),
            ).0,
    {
        let range = self.search(query);
        proof {
            lemma_search_ordered(self.wm@, query.spec_bytes());
        }
        range.end - range.start
    }

    /// The text position at which the suffix of row `i` starts: walks the
    /// last-to-first map from `i` to the first sampled row, at most one
    /// round of the rows, and adds the steps taken to the position of the
    /// row reached (the end of the text for row zero), modulo the row count.
    pub fn locate(&self, i: usize) -> (r: usize)
        requires
            self.wf(),
            i < self.bwt().len(),
        ensures
            forall|t: nat|
                t <= self.bwt().len() && row_after(self.bwt(), i as int, t) % self.stride() == 0
                    && (forall|u: nat| u < t ==> #[trigger] row_after(self.bwt(), i as int, u)
                    % self.stride() != 0) ==> r == (row_start(
                    self.text(),
                    self.suffixes(),
                    row_after(self.bwt(), i as int, t),
                ) + t) % (self.bwt().len() as int),
            i == 0 ==> r == self.text().len(),
    {
        let ghost bwt = self.wm@;
        let len = self.wm.len();
        let div = self.div;
        let mut j: usize = i;
        let mut t: usize = 0;
        proof {
            lemma_row_after_bound(bwt, i as int, 0);
        }
        while j % div != 0 && t < len
            invariant
                self.wf(),
                bwt == self.wm@,
                len == bwt.len(),
                div == self.div,
                t <= len,
                i == 0 ==> t == 0 && j == 0,
                j == row_after(bwt, i as int, t as nat),
                j < len,
                forall|u: nat| u < t ==> #[trigger] row_after(bwt, i as int, u) % (div as int) != 0,
            decreases len - t,
        {
            proof {
                if i == 0 {
                    assert(0int % (div as int) == 0) by (nonlinear_arith)
                        requires
                            div >= 1,
                    ;
                }
            }
            let c = self.wm.access(j);
            let less = self.wm.rank_less_than(len, c);
            proof {
                assert(bwt.subrange(0, len as int) =~= bwt);
                lemma_lf_bound(bwt, j as int, c);
            }
            j = self.wm.rank(j, c) + less;
            t = t + 1;
        }
        if j % div != 0 {
            proof {
                assert forall|tt: nat|
                    tt <= len && #[trigger] row_after(bwt, i as int, tt) % (div as int) == 0 implies exists|u: nat| u < tt && #[trigger] row_after(bwt, i as int, u) % (div as int) == 0 by {
                    assert(tt != t);
                    assert(row_after(bwt, i as int, t as nat) % (div as int) != 0);
                }
            }
            return 0;
        }
        proof {
            assert(j / div <= (len - 1) / (div as int)) by (nonlinear_arith)
                requires
                    j < len,
                    div >= 1,
            ;
        }
        let s = if j == 0 {
            len - 1
        } else {
            self.sampled_sa[j / div]
        };
        proof {
            let k = (j / div) as int;
            if j != 0 {
                assert(k >= 1 && k * div == j) by (nonlinear_arith)
                    requires
                        k == j / div,
                        j % div == 0,
                        j > 0,
                        div >= 1,
                ;
            }
            assert(s == row_start(self.text@, self.sa@, j as int));
            if k >= 1 {
                assert(0 <= k * div - 1 < len - 1) by (nonlinear_arith)
                    requires
                        k == j / div,
                        k >= 1,
                        j < len,
                        div >= 1,
                ;
                assert(self.sa@[k * div - 1] < len - 1);
            }
            assert forall|tt: nat|
                tt <= len && row_after(bwt, i as int, tt) % (div as int) == 0 && (forall|u: nat| u < tt ==> #[trigger] row_after(bwt, i as int, u) % (div as int) != 0) implies tt == t by {
                if tt < t {
                    assert(row_after(bwt, i as int, tt) % (div as int) != 0);
                } else if tt > t {
                    assert(row_after(bwt, i as int, t as nat) % (div as int) != 0);
                }
            }
        }
        proof {
            assert(s < len);
            assert(len == self.text@.len() + 1);
            if t >= len - s {
                vstd::arithmetic::div_mod::lemma_fundamental_div_mod_converse(
                    s + t,
                    len as int,
                    1,
                    s + t - len,
                );
            } else {
                vstd::arithmetic::div_mod::lemma_fundamental_div_mod_converse(
                    s + t,
                    len as int,
                    0,
                    s + t,
                );
            }
        }
        if t >= len - s {
            t - (len - s)
        } else {
            s + t
        }
    }
}

/// `bytes` decodes as UTF-8 to at least `k` characters.
pub open spec fn enough_chars(bytes: Seq<u8>, k: int) -> bool {
    valid_utf8(bytes) && decode_utf8(bytes).len() >= k
}

/// Reading back from row `i` for `k` characters took `m` bytes and gave `r`:
/// the walk did not pass the start of the text, no shorter run had `k`
/// characters, the walk stopped for a reason, and `r` decodes the run.
pub open spec fn read_back(bwt: Seq<u64>, i: int, k: int, m: int, r: Seq<char>) -> bool {
    &&& 0 <= m <= 4 * k
    &&& forall|t: nat| t < m ==> #[trigger] row_after(bwt, i, t + 1) != 0
    &&& forall|t: int| 1 <= t < m ==> !enough_chars(#[trigger] back_bytes(bwt, i, t), k)
    &&& (m == 4 * k || row_after(bwt, i, (m + 1) as nat) == 0 || enough_chars(
        back_bytes(bwt, i, m),
        k,
    ))
    &&& if valid_utf8(back_bytes(bwt, i, m)) {
        r == decode_utf8(back_bytes(bwt, i, m))
    } else {
        r.len() == 0
    }
}

impl FMIndex {
    /// The text read backwards from row `i`: the shortest run of bytes that
    /// ends with the byte of row `i`'s last column and decodes to `len`
    /// characters, stopping early at the start of the text or after
    /// `4 * len` bytes; the decoded run, or the empty string where the run
    /// is not valid UTF-8.
    pub fn previous_string(&self, i: usize, len: usize) -> (r: String)
        requires
            self.wf(),
            i < self.bwt().len(),
            len <= usize::MAX / 4,
        ensures
            len == 0 ==> r@.len() == 0,
            len > 0 ==> exists|m: int| #[trigger] read_back(self.bwt(), i as int, len as int, m, r@),
            r@.len() <= len,
    {
        if len == 0 {
            return String::new();
        }
        let ghost bwt = self.wm@;
        let cap = len * 4;
        let n = self.wm.len();
        let mut rev: Vec<u8> = Vec::new();
        let mut row: usize = i;
        loop
            invariant
                self.wf(),
                bwt == self.wm@,
                n == bwt.len(),
                i < n,
                len > 0,
                cap == 4 * len,
                rev@.len() <= cap,
                row == row_after(bwt, i as int, rev@.len()),
                row < n,
                forall|t: int| 0 <= t < rev@.len() ==> rev@[t] == bwt[row_after(bwt, i as int, t as nat)] as u8,
                forall|t: nat| t < rev@.len() ==> #[trigger] row_after(bwt, i as int, t + 1) != 0,
                forall|t: int| 1 <= t <= rev@.len() ==> !enough_chars(#[trigger] back_bytes(bwt, i as int, t), len as int),
            ensures
                rev@.len() <= cap,
                forall|t: int| 0 <= t < rev@.len() ==> rev@[t] == bwt[row_after(bwt, i as int, t as nat)] as u8,
                forall|t: nat| t < rev@.len() ==> #[trigger] row_after(bwt, i as int, t + 1) != 0,
                forall|t: int| 1 <= t <= rev@.len() ==> !enough_chars(#[trigger] back_bytes(bwt, i as int, t), len as int),
                rev@.len() == cap || row_after(bwt, i as int, (rev@.len() + 1) as nat) == 0,
            decreases cap - rev@.len(),
        {
            if rev.len() >= cap {
                break;
            }
            let c = self.wm.access(row);
            let less = self.wm.rank_less_than(n, c);
            proof {
                assert(bwt.subrange(0, n as int) =~= bwt);
                lemma_lf_bound(bwt, row as int, c);
            }
            let next = self.wm.rank(row, c) + less;
            if next == 0 {
                break;
            }
            rev.push(c as u8);
            row = next;
            let tail = reversed(&rev);
            proof {
                assert(tail@ =~= back_bytes(bwt, i as int, rev@.len() as int));
            }
            match utf8_string(tail.as_slice()) {
                Some(s) => {
                    if s.as_str().unicode_len() >= len {
                        proof {
                            let m = rev@.len() as int;
                            assert(enough_chars(back_bytes(bwt, i as int, m), len as int));
                            assert forall|t: nat| t < m implies #[trigger] row_after(bwt, i as int, t + 1) != 0 by {}
                            assert(read_back(bwt, i as int, len as int, m, s@));
                            assert(self.bwt() == bwt);
                            assert(read_back(self.bwt(), i as int, len as int, m, s@));
                            law_read_back_at_most(bwt, i as int, len as int, m, s@);
                        }
                        return s;
                    }
                },
                None => {},
            }
        }
        let tail = reversed(&rev);
        proof {
            assert(tail@ =~= back_bytes(bwt, i as int, rev@.len() as int));
        }
        let r = match utf8_string(tail.as_slice()) {
            Some(s) => s,
            None => String::new(),
        };
        proof {
            assert(read_back(bwt, i as int, len as int, rev@.len() as int, r@));
            law_read_back_at_most(bwt, i as int, len as int, rev@.len() as int, r@);
        }
        r
    }
}

/// The bytes of `v` in reverse order.
fn reversed(v: &Vec<u8>) -> (r: Vec<u8>)
    ensures
        r@ == Seq::new(v@.len(), |x: int| v@[v@.len() - 1 - x]),
{
    let mut r: Vec<u8> = Vec::new();
    let mut k: usize = v.len();
    while k > 0
        invariant
            k <= v@.len(),
            r@ == Seq::new((v@.len() - k) as nat, |x: int| v@[v@.len() - 1 - x]),
        decreases k,
    {
        k = k - 1;
        r.push(v[k]);
        proof {
            assert(r@ =~= Seq::new((v@.len() - k) as nat, |x: int| v@[v@.len() - 1 - x]));
        }
    }
    r
}

proof fn lemma_search_ordered(bwt: Seq<u64>, p: Seq<u8>)
    ensures
        backward_search(bwt, p).0 <= backward_search(bwt, p).1,
        search_range(bwt, p).0 <= search_range(bwt, p).1,
    decreases p.len(),
{
    if p.len() > 0 {
        lemma_search_ordered(bwt, p.drop_first());
    }
}

/// A pattern is contained exactly when its count is positive.
pub proof fn law_contains_iff_counted(ix: &FMIndex, query: Seq<u8>)
    ensures
        ({
            let (s, e) = search_range(ix.bwt(), query);
            (s < e) == (e - s > 0)
        }),
{
}

/// A run read back from row `i` ends with the byte in row `i`'s last column.
pub proof fn law_read_back_ends_at_row(bwt: Seq<u64>, i: int, m: int)
    requires
        m >= 1,
    ensures
        back_bytes(bwt, i, m).last() == bwt[i] as u8,
{
}

/// What `previous_string` gives for `k >= 1` holds at most `k` characters.
pub proof fn law_read_back_at_most(bwt: Seq<u64>, i: int, k: int, m: int, r: Seq<char>)
    requires
        k >= 1,
        read_back(bwt, i, k, m, r),
    ensures
        r.len() <= k,
{
    let b = back_bytes(bwt, i, m);
    if valid_utf8(b) && m > 0 {
        let w = vstd::utf8::length_of_first_scalar(b);
        assert(1 <= w <= m);
        let pop = vstd::utf8::pop_first_scalar(b);
        assert(pop =~= back_bytes(bwt, i, m - w));
        assert(decode_utf8(b) == seq![vstd::utf8::decode_first_scalar(b) as char] + decode_utf8(pop));
        if m - w >= 1 {
            assert(!enough_chars(back_bytes(bwt, i, m - w), k));
        } else {
            assert(pop.len() == 0);
        }
    } else if valid_utf8(b) {
        assert(b.len() == 0);
    }
}

} // verus!
