use vstd::prelude::*;
use crate::bit_vector::{ones, lemma_ones_step};

verus! {

/// Entries whose bit `k` is set.
pub open spec fn one_at(k: int) -> spec_fn(u64) -> bool {
    |x: u64| bit_of(x, k)
}

/// Entries whose bit `k` is clear.
pub open spec fn zero_at(k: int) -> spec_fn(u64) -> bool {
    |x: u64| !bit_of(x, k)
}

/// Bit `k` of `x`, for `k < 64`.
pub open spec fn bit_of(x: u64, k: int) -> bool {
    (x >> (k as u64)) & 1u64 == 1u64
}

/// The bits of `x` from position `k` upwards, as a number.
pub open spec fn high(x: u64, k: int) -> u64 {
    if k >= 64 {
        0
    } else {
        x >> (k as u64)
    }
}

/// Entries that pass both filters.
pub open spec fn both(f: spec_fn(u64) -> bool, g: spec_fn(u64) -> bool) -> spec_fn(u64) -> bool {
    |x: u64| f(x) && g(x)
}

/// Entries that pass either filter.
pub open spec fn either(f: spec_fn(u64) -> bool, g: spec_fn(u64) -> bool) -> spec_fn(u64) -> bool {
    |x: u64| f(x) || g(x)
}

/// Filtering a sequence extended by one entry.
pub proof fn lemma_filter_step(s: Seq<u64>, f: spec_fn(u64) -> bool, p: int)
    requires
        0 <= p < s.len(),
    ensures
        s.subrange(0, p + 1).filter(f) == if f(s[p]) {
            s.subrange(0, p).filter(f).push(s[p])
        } else {
            s.subrange(0, p).filter(f)
        },
{
    reveal(Seq::filter);
    assert(s.subrange(0, p + 1).drop_last() =~= s.subrange(0, p));
}

/// The ones of a mapped prefix count the entries that pass the filter.
pub proof fn lemma_ones_of_map(s: Seq<u64>, f: spec_fn(u64) -> bool, g: spec_fn(u64) -> bool, p: int)
    requires
        0 <= p <= s.len(),
        forall|x: u64| #[trigger] g(x) == !f(x),
    ensures
        ones(s.map_values(f).subrange(0, p)) == s.subrange(0, p).filter(f).len(),
        s.subrange(0, p).filter(f).len() + s.subrange(0, p).filter(g).len() == p,
    decreases p,
{
    reveal(Seq::filter);
    if p == 0 {
        assert(s.map_values(f).subrange(0, 0) =~= Seq::<bool>::empty());
        assert(s.subrange(0, 0) =~= Seq::<u64>::empty());
    } else {
        lemma_ones_of_map(s, f, g, p - 1);
        lemma_ones_step(s.map_values(f), p - 1);
        lemma_filter_step(s, f, p - 1);
        lemma_filter_step(s, g, p - 1);
        assert(g(s[p - 1]) == !f(s[p - 1]));
    }
}

/// A run of entries filtered out of a sequence sits in the filtered sequence
/// between the counts of its two ends.
pub proof fn lemma_filter_range(s: Seq<u64>, f: spec_fn(u64) -> bool, b: int, e: int)
    requires
        0 <= b <= e <= s.len(),
    ensures
        s.subrange(0, b).filter(f).len() <= s.subrange(0, e).filter(f).len() <= s.filter(f).len(),
        s.filter(f).subrange(
            s.subrange(0, b).filter(f).len() as int,
            s.subrange(0, e).filter(f).len() as int,
        ) == s.subrange(b, e).filter(f),
{
    let pb = s.subrange(0, b);
    let pe = s.subrange(0, e);
    let mid = s.subrange(b, e);
    let rest = s.subrange(e, s.len() as int);
    assert(pe =~= pb + mid);
    assert(s =~= pe + rest);
    Seq::filter_distributes_over_add(pb, mid, f);
    Seq::filter_distributes_over_add(pe, rest, f);
    assert(s.filter(f).subrange(pb.filter(f).len() as int, pe.filter(f).len() as int)
        =~= mid.filter(f));
}

/// Filtering twice keeps the entries that pass both filters.
pub proof fn lemma_filter_twice(s: Seq<u64>, f: spec_fn(u64) -> bool, g: spec_fn(u64) -> bool)
    ensures
        s.filter(f).filter(g) == s.filter(both(f, g)),
    decreases s.len(),
{
    reveal(Seq::filter);
    if s.len() > 0 {
        lemma_filter_twice(s.drop_last(), f, g);
        let t = s.drop_last().filter(f);
        if f(s.last()) {
            assert(t.push(s.last()).drop_last() =~= t);
        }
    }
}

/// Filters that agree on every entry give the same result.
pub proof fn lemma_filter_agree(s: Seq<u64>, f: spec_fn(u64) -> bool, g: spec_fn(u64) -> bool)
    requires
        forall|i: int| 0 <= i < s.len() ==> f(s[i]) == g(s[i]),
    ensures
        s.filter(f) == s.filter(g),
    decreases s.len(),
{
    reveal(Seq::filter);
    if s.len() > 0 {
        lemma_filter_agree(s.drop_last(), f, g);
        assert(f(s[s.len() - 1]) == g(s[s.len() - 1]));
    }
}

/// A filter that every entry passes keeps the sequence.
pub proof fn lemma_filter_all(s: Seq<u64>, f: spec_fn(u64) -> bool)
    requires
        forall|i: int| 0 <= i < s.len() ==> f(s[i]),
    ensures
        s.filter(f) == s,
    decreases s.len(),
{
    reveal(Seq::filter);
    if s.len() > 0 {
        lemma_filter_all(s.drop_last(), f);
        assert(f(s[s.len() - 1]));
        assert(s.drop_last().push(s.last()) =~= s);
    }
}

/// A filter that no entry passes leaves nothing.
pub proof fn lemma_filter_none(s: Seq<u64>, f: spec_fn(u64) -> bool)
    requires
        forall|i: int| 0 <= i < s.len() ==> !f(s[i]),
    ensures
        s.filter(f).len() == 0,
    decreases s.len(),
{
    reveal(Seq::filter);
    if s.len() > 0 {
        lemma_filter_none(s.drop_last(), f);
        assert(!f(s[s.len() - 1]));
    }
}

/// Two filters that no entry passes together count apart.
pub proof fn lemma_filter_either_len(s: Seq<u64>, f: spec_fn(u64) -> bool, g: spec_fn(u64) -> bool)
    requires
        forall|i: int| 0 <= i < s.len() ==> !(f(s[i]) && g(s[i])),
    ensures
        s.filter(either(f, g)).len() == s.filter(f).len() + s.filter(g).len(),
    decreases s.len(),
{
    reveal(Seq::filter);
    if s.len() > 0 {
        lemma_filter_either_len(s.drop_last(), f, g);
        assert(!(f(s[s.len() - 1]) && g(s[s.len() - 1])));
    }
}

/// A filter implied by another keeps at least as many entries.
pub proof fn lemma_filter_weaker(s: Seq<u64>, f: spec_fn(u64) -> bool, g: spec_fn(u64) -> bool)
    requires
        forall|i: int| 0 <= i < s.len() ==> f(s[i]) ==> g(s[i]),
    ensures
        s.filter(f).len() <= s.filter(g).len(),
    decreases s.len(),
{
    reveal(Seq::filter);
    if s.len() > 0 {
        lemma_filter_weaker(s.drop_last(), f, g);
        assert(f(s[s.len() - 1]) ==> g(s[s.len() - 1]));
    }
}

} // verus!
