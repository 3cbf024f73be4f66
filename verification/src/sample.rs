//! The weighted sampler: turning a frequency table into one weighted-random
//! choice, and the random source the generator draws from. The source is
//! injectable: it either defers to the process-wide generator or replays a
//! fixed list of values, so a caller can pin every draw.

use vstd::prelude::*;
use rand::Rng;

verus! {

/// Sum of the counts in a frequency table.
pub open spec fn total_of(f: Seq<usize>) -> int
    decreases f.len(),
{
    if f.len() == 0 {
        0
    } else {
        total_of(f.drop_last()) + f.last()
    }
}

pub proof fn lemma_total_nonneg(f: Seq<usize>)
    ensures
        total_of(f) >= 0,
    decreases f.len(),
{
    if f.len() > 0 {
        lemma_total_nonneg(f.drop_last());
    }
}

/// Extending a prefix by one slot adds that slot's count.
pub proof fn lemma_total_take_succ(f: Seq<usize>, k: int)
    requires
        0 <= k < f.len(),
    ensures
        total_of(f.take(k + 1)) == total_of(f.take(k)) + f[k],
{
    assert(f.take(k + 1).drop_last() =~= f.take(k));
    assert(f.take(k + 1).last() == f[k]);
}

/// A prefix never holds more than the whole table.
pub proof fn lemma_total_take_le(f: Seq<usize>, k: int)
    requires
        0 <= k <= f.len(),
    ensures
        total_of(f.take(k)) <= total_of(f),
    decreases f.len() - k,
{
    if k == f.len() {
        assert(f.take(k) =~= f);
    } else {
        lemma_total_take_succ(f, k);
        lemma_total_take_le(f, k + 1);
    }
}

/// The total is the first count plus the total of the rest.
pub proof fn lemma_total_head(f: Seq<usize>)
    requires
        f.len() > 0,
    ensures
        total_of(f) == f[0] + total_of(f.drop_first()),
    decreases f.len(),
{
    assert(total_of(f) == total_of(f.drop_last()) + f.last());
    if f.len() == 1 {
        assert(f.drop_first() =~= Seq::<usize>::empty());
        assert(total_of(f.drop_first()) == 0);
        assert(f.last() == f[0]);
    } else {
        assert(f.drop_last().len() > 0);
        assert(f.drop_last()[0] == f[0]);
        lemma_total_head(f.drop_last());
        assert(f.drop_last().drop_first() =~= f.drop_first().drop_last());
        assert(f.drop_first().last() == f.last());
        assert(total_of(f.drop_first()) == total_of(f.drop_first().drop_last())
            + f.drop_first().last());
    }
}

/// Changing one count changes the total by the difference.
pub proof fn lemma_total_update(f: Seq<usize>, j: int, v: usize)
    requires
        0 <= j < f.len(),
    ensures
        total_of(f.update(j, v)) == total_of(f) - f[j] + v,
    decreases f.len(),
{
    let g = f.update(j, v);
    if j == f.len() - 1 {
        assert(g.drop_last() =~= f.drop_last());
        assert(g.last() == v);
    } else {
        assert(g.drop_last() =~= f.drop_last().update(j, v));
        lemma_total_update(f.drop_last(), j, v);
        assert(g.last() == f.last());
    }
}

/// The walk never yields a negative slot.
pub proof fn lemma_cat_choice_nonneg(f: Seq<usize>, n: int)
    ensures
        cat_choice(f, n) >= 0,
    decreases f.len(),
{
    if f.len() > 0 && n > f[0] {
        lemma_cat_choice_nonneg(f.drop_first(), n - f[0]);
    }
}

/// The slot a draw lands on: walk the slots in ascending order subtracting
/// each count from `n`; the first slot where the running value reaches zero
/// wins.
pub open spec fn cat_choice(f: Seq<usize>, n: int) -> int
    decreases f.len(),
{
    if f.len() == 0 {
        0
    } else if n <= f[0] {
        0
    } else {
        1 + cat_choice(f.drop_first(), n - f[0])
    }
}

/// A draw within the total lands on a slot with a positive count.
pub proof fn lemma_cat_choice_in_range(f: Seq<usize>, n: int)
    requires
        1 <= n <= total_of(f),
    ensures
        0 <= cat_choice(f, n) < f.len(),
        f[cat_choice(f, n)] > 0,
    decreases f.len(),
{
    assert(f.len() > 0);
    lemma_total_head(f);
    if n <= f[0] {
        assert(f[0] >= n >= 1);
    } else {
        lemma_cat_choice_in_range(f.drop_first(), n - f[0]);
        assert(f[1 + cat_choice(f.drop_first(), n - f[0])] == f.drop_first()[cat_choice(
            f.drop_first(),
            n - f[0],
        )]);
    }
}

/// The weighted draw is unbiased: slot `k` is chosen exactly for the draws
/// `n` that fall in the window after the slots below `k`, a window `f[k]`
/// draws wide. Over a uniform draw on `1..=total`, each slot is therefore
/// picked with probability proportional to its count.
pub proof fn lemma_cat_choice_interval(f: Seq<usize>, n: int, k: int)
    requires
        1 <= n <= total_of(f),
        0 <= k < f.len(),
    ensures
        cat_choice(f, n) == k <==> (total_of(f.take(k)) < n <= total_of(f.take(k)) + f[k]),
    decreases f.len(),
{
    lemma_total_head(f);
    assert(cat_choice(f, n) == (if n <= f[0] {
        0int
    } else {
        1 + cat_choice(f.drop_first(), n - f[0])
    }));
    lemma_cat_choice_nonneg(f.drop_first(), n - f[0]);
    if k == 0 {
        assert(f.take(0) =~= Seq::<usize>::empty());
        assert(total_of(f.take(0)) == 0);
    } else {
        lemma_total_take_succ(f, k);
        assert(f.take(k).len() > 0);
        lemma_total_head(f.take(k));
        assert(f.take(k)[0] == f[0]);
        assert(f.take(k).drop_first() =~= f.drop_first().take(k - 1));
        if n <= f[0] {
            lemma_total_nonneg(f.drop_first().take(k - 1));
            assert(total_of(f.take(k)) >= f[0] >= n);
        } else {
            lemma_cat_choice_interval(f.drop_first(), n - f[0], k - 1);
            assert(f.drop_first()[k - 1] == f[k]);
        }
    }
}

/// Relies on rand's thread_rng and Rng::gen_range over `0..n`: a draw from a
/// non-empty range lies in that range.
#[verifier::external_body]
fn random_below(n: usize) -> (r: usize)
    requires
        n >= 1,
    ensures
        r < n,
{
    rand::thread_rng().gen_range(0..n)
}

/// A random source for the generator: either the process-wide generator, or
/// a fixed list of values replayed in order, which makes every draw, and so
/// the whole generation, deterministic.
pub struct Rand {
    fixed: Option<Vec<usize>>,
    pos: usize,
}

impl Rand {
    pub closed spec fn is_fixed(self) -> bool {
        self.fixed is Some
    }

    pub closed spec fn fixed_vals(self) -> Seq<usize> {
        match self.fixed {
            Some(v) => v@,
            None => seq![],
        }
    }

    pub closed spec fn cursor(self) -> int {
        self.pos as int
    }

    pub open spec fn wf(self) -> bool {
        (self.is_fixed() && self.fixed_vals().len() > 0) ==> 0 <= self.cursor()
            < self.fixed_vals().len()
    }

    /// Draws from the process-wide generator.
    pub fn ambient() -> (r: Rand)
        ensures
            r.wf(),
            !r.is_fixed(),
    {
        Rand { fixed: None, pos: 0 }
    }

    /// Replays the given values, each reduced into the asked-for range, and
    /// starts over at the end of the list.
    pub fn fixed(vals: Vec<usize>) -> (r: Rand)
        ensures
            r.wf(),
            r.is_fixed(),
            r.fixed_vals() == vals@,
            r.cursor() == 0,
    {
        Rand { fixed: Some(vals), pos: 0 }
    }

    /// One draw below `n`.
    pub fn next_below(&mut self, n: usize) -> (r: usize)
        requires
            old(self).wf(),
            n >= 1,
        ensures
            final(self).wf(),
            r < n,
            final(self).is_fixed() == old(self).is_fixed(),
            final(self).fixed_vals() == old(self).fixed_vals(),
            (old(self).is_fixed() && old(self).fixed_vals().len() > 0) ==> (r as int == old(
                self,
            ).fixed_vals()[old(self).cursor()] as int % (n as int) && final(self).cursor() == (old(
                self,
            ).cursor() + 1) % (old(self).fixed_vals().len() as int)),
    {
        match &self.fixed {
            None => random_below(n),
            Some(v) => {
                if v.len() == 0 {
                    0
                } else {
                    let x = v[self.pos];
                    self.pos = (self.pos + 1) % v.len();
                    x % n
                }
            },
        }
    }
}

/// One weighted-random choice from a frequency table: `None` when every
/// count is zero, else a slot with a positive count, drawn with probability
/// proportional to its count.
pub fn sample_weighted(freq: &Vec<usize>, rand: &mut Rand) -> (r: Option<usize>)
    requires
        old(rand).wf(),
        total_of(freq@) <= usize::MAX,
    ensures
        final(rand).wf(),
        final(rand).is_fixed() == old(rand).is_fixed(),
        final(rand).fixed_vals() == old(rand).fixed_vals(),
        (r is None) <==> total_of(freq@) == 0,
        r matches Some(idx) ==> idx < freq@.len() && freq@[idx as int] > 0,
        r matches Some(idx) ==> exists|n: int|
            1 <= n <= total_of(freq@) && idx == cat_choice(freq@, n),
        (old(rand).is_fixed() && old(rand).fixed_vals().len() > 0 && total_of(freq@) > 0) ==> r
            == Some(
            cat_choice(
                freq@,
                1 + old(rand).fixed_vals()[old(rand).cursor()] as int % total_of(freq@),
            ) as usize,
        ),
    {
    let mut sum: usize = 0;
    let mut i: usize = 0;
    proof {
        assert(freq@.take(0) =~= Seq::<usize>::empty());
    }
    while i < freq.len()
        invariant
            i <= freq@.len(),
            sum == total_of(freq@.take(i as int)),
            total_of(freq@) <= usize::MAX,
        decreases freq@.len() - i,
    {
        proof {
            lemma_total_take_succ(freq@, i as int);
            lemma_total_take_le(freq@, i as int + 1);
            lemma_total_nonneg(freq@.take(i as int));
        }
        sum += freq[i];
        i += 1;
    }
    proof {
        assert(freq@.take(freq@.len() as int) =~= freq@);
    }
    if sum == 0 {
        return None;
    }
    let draw = rand.next_below(sum);
    let n0: usize = 1 + draw;
    let mut n: usize = n0;
    let mut idx: usize = 0;
    proof {
        assert(freq@.take(0) =~= Seq::<usize>::empty());
        assert(freq@.skip(0) =~= freq@);
    }
    while idx < freq.len()
        invariant
            rand.wf(),
            rand.is_fixed() == old(rand).is_fixed(),
            rand.fixed_vals() == old(rand).fixed_vals(),
            sum == total_of(freq@),
            (old(rand).is_fixed() && old(rand).fixed_vals().len() > 0) ==> n0 == 1 + old(
                rand,
            ).fixed_vals()[old(rand).cursor()] as int % total_of(freq@),
            0 <= idx <= freq@.len(),
            1 <= n,
            n == n0 - total_of(freq@.take(idx as int)),
            1 <= n0 <= total_of(freq@),
            cat_choice(freq@, n0 as int) == idx + cat_choice(freq@.skip(idx as int), n as int),
        decreases freq@.len() - idx,
    {
        if n <= freq[idx] {
            proof {
                assert(freq@.skip(idx as int)[0] == freq@[idx as int]);
                assert(cat_choice(freq@.skip(idx as int), n as int) == 0);
                assert(cat_choice(freq@, n0 as int) == idx);
                lemma_cat_choice_in_range(freq@, n0 as int);
            }
            return Some(idx);
        }
        proof {
            lemma_total_take_succ(freq@, idx as int);
            assert(freq@.skip(idx as int)[0] == freq@[idx as int]);
            assert(freq@.skip(idx as int).drop_first() =~= freq@.skip(idx as int + 1));
        }
        n -= freq[idx];
        idx += 1;
    }
    proof {
        assert(freq@.take(freq@.len() as int) =~= freq@);
        assert(false);
    }
    None
}

} // verus!
