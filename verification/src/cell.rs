use vstd::prelude::*;

use crate::bitset::{BitSet, count_true, positions, lemma_count_true_update, lemma_count_true_bounds, lemma_positions, word_bit};
use crate::pattern::PatternId;

verus! {

/// Sum of the weights `w[i]` of the indices `i` where `s[i]` holds.
pub open spec fn weight_total(s: Seq<bool>, w: Seq<u32>) -> nat
    decreases s.len(),
{
    if s.len() == 0 {
        0
    } else {
        weight_total(s.drop_last(), w) + (if s.last() { w[s.len() - 1] as nat } else { 0nat })
    }
}

pub proof fn lemma_weight_total_update(s: Seq<bool>, w: Seq<u32>, j: int, v: bool)
    requires
        0 <= j < s.len(),
    ensures
        weight_total(s.update(j, v), w) + (if s[j] { w[j] as int } else { 0int }) == weight_total(s, w)
            + (if v { w[j] as int } else { 0int }),
    decreases s.len(),
{
    if j < s.len() - 1 {
        lemma_weight_total_update(s.drop_last(), w, j, v);
        assert(s.update(j, v).drop_last() =~= s.drop_last().update(j, v));
    } else {
        assert(s.update(j, v).drop_last() =~= s.drop_last());
    }
}

pub proof fn lemma_weight_total_bound(s: Seq<bool>, w: Seq<u32>, j: int)
    requires
        0 <= j < s.len(),
        s[j],
    ensures
        w[j] <= weight_total(s, w),
    decreases s.len(),
{
    if j < s.len() - 1 {
        lemma_weight_total_bound(s.drop_last(), w, j);
    }
}

pub proof fn lemma_weight_total_all_false(s: Seq<bool>, w: Seq<u32>)
    requires
        forall|i: int| 0 <= i < s.len() ==> !s[i],
    ensures
        weight_total(s, w) == 0,
    decreases s.len(),
{
    if s.len() > 0 {
        lemma_weight_total_all_false(s.drop_last(), w);
    }
}

pub proof fn lemma_weight_total_le(s: Seq<bool>, t: Seq<bool>, w: Seq<u32>)
    requires
        s.len() == t.len(),
        forall|i: int| 0 <= i < s.len() && s[i] ==> t[i],
    ensures
        weight_total(s, w) <= weight_total(t, w),
    decreases s.len(),
{
    if s.len() > 0 {
        lemma_weight_total_le(s.drop_last(), t.drop_last(), w);
    }
}

pub proof fn lemma_weight_total_prefix(s: Seq<bool>, w: Seq<u32>, k: int)
    requires
        0 <= k <= s.len(),
    ensures
        weight_total(s.take(k), w) <= weight_total(s, w),
    decreases s.len() - k,
{
    if k < s.len() {
        lemma_weight_total_prefix(s, w, k + 1);
        assert(s.take(k + 1).drop_last() =~= s.take(k));
    } else {
        assert(s.take(k) =~= s);
    }
}

/// The patterns still possible at one place of the output, with their number and total weight.
pub struct Cell {
    possible_patterns: BitSet,
    possible_count: usize,
    weight_sum: u64,
}

impl Cell {
    /// For each pattern, whether it is still possible here.
    pub closed spec fn possible(&self) -> Seq<bool> {
        self.possible_patterns@
    }

    /// The words of the set of possible patterns.
    pub closed spec fn possible_words(&self) -> Seq<u64> {
        self.possible_patterns.word_seq()
    }

    /// The stored total weight of the possible patterns.
    pub closed spec fn weight(&self) -> u64 {
        self.weight_sum
    }

    /// The stored number of possible patterns.
    pub closed spec fn count(&self) -> nat {
        self.possible_count as nat
    }

    /// The set is well formed, its words are laid out as the set says, and the count matches it.
    pub open spec fn wf(&self) -> bool {
        &&& self.count() == count_true(self.possible())
        &&& self.possible().len() <= usize::MAX
        &&& self.possible_words().len() == (self.possible().len() + 63) / 64
        &&& forall|i: int|
            0 <= i < self.possible().len() ==> #[trigger] self.possible()[i] == word_bit(
                self.possible_words()[i / 64],
                i % 64,
            )
        &&& self.inner_wf()
    }

    /// The bit set under the cell is well formed.
    pub closed spec fn inner_wf(&self) -> bool {
        self.possible_patterns.wf()
    }

    /// The stored total weight is the sum of the weights of the possible patterns.
    pub open spec fn weight_matches(&self, weights: Seq<u32>) -> bool {
        self.weight() == weight_total(self.possible(), weights)
    }

    /// The words of a cell are exactly enough for its patterns.
    pub proof fn lemma_words_len(&self)
        requires
            self.wf(),
        ensures
            self.possible_words().len() == (self.possible().len() + 63) / 64,
    {
    }

    proof fn lemma_wf(&self)
        requires
            self.possible_patterns.wf(),
        ensures
            self.possible().len() <= usize::MAX,
            self.possible_words().len() == (self.possible().len() + 63) / 64,
            forall|i: int|
                0 <= i < self.possible().len() ==> #[trigger] self.possible()[i] == word_bit(
                    self.possible_words()[i / 64],
                    i % 64,
                ),
    {
    }

    /// A cell where all `pattern_count` patterns are possible, with the given total weight.
    pub fn new(pattern_count: usize, total_weight: u64) -> (r: Self)
        ensures
            r.wf(),
            r.possible() == Seq::new(pattern_count as nat, |i: int| true),
            r.count() == pattern_count,
            r.weight() == total_weight,
    {
        let possible_patterns = BitSet::full(pattern_count);
        let r = Self { possible_patterns, possible_count: pattern_count, weight_sum: total_weight };
        proof {
            lemma_count_true_bounds(r.possible());
            r.lemma_wf();
        }
        r
    }

    /// The words of the set of possible patterns.
    pub fn possible_pattern_words(&self) -> (r: &[u64])
        ensures
            r@ == self.possible_words(),
    {
        self.possible_patterns.words()
    }

    /// Number of patterns the cell ranges over.
    pub fn pattern_count(&self) -> (r: usize)
        ensures
            r == self.possible().len(),
    {
        self.possible_patterns.len()
    }

    pub fn is_pattern_possible(&self, pattern_id: PatternId) -> (r: bool)
        requires
            self.wf(),
            pattern_id < self.possible().len(),
        ensures
            r == self.possible()[pattern_id as int],
    {
        self.possible_patterns.contains(pattern_id)
    }

    /// Exactly one pattern is possible.
    pub fn is_collapsed(&self) -> (r: bool)
        ensures
            r == (self.count() == 1),
    {
        self.possible_count == 1
    }

    /// No pattern is possible.
    pub fn is_contradiction(&self) -> (r: bool)
        ensures
            r == (self.count() == 0),
    {
        self.possible_count == 0
    }

    /// Takes a pattern out of the possible ones, lowering the total weight by `weight` (to 0 when
    /// none is left); says whether it was possible.
    pub fn remove_pattern(&mut self, pattern_id: PatternId, weight: u32) -> (r: bool)
        requires
            old(self).wf(),
            pattern_id < old(self).possible().len(),
            old(self).possible()[pattern_id as int] ==> weight <= old(self).weight(),
        ensures
            final(self).wf(),
            r == old(self).possible()[pattern_id as int],
            final(self).possible() == old(self).possible().update(pattern_id as int, false),
            r ==> final(self).count() == old(self).count() - 1,
            r ==> final(self).weight() == (if final(self).count() == 0 {
                0
            } else {
                old(self).weight() - weight
            }),
            !r ==> *final(self) == *old(self),
    {
        let ghost before = self.possible();
        if !self.possible_patterns.remove(pattern_id) {
            proof {
                assert(self.possible() =~= before);
            }
            return false;
        }
        proof {
            lemma_count_true_update(before, pattern_id as int, false);
            self.lemma_wf();
        }
        self.possible_count = self.possible_count - 1;
        self.weight_sum = self.weight_sum - weight as u64;
        if self.possible_count == 0 {
            self.weight_sum = 0;
        }
        true
    }

    /// Makes a pattern possible again, raising the total weight by `weight`; says whether it was
    /// impossible before.
    pub fn restore_pattern(&mut self, pattern_id: PatternId, weight: u32) -> (r: bool)
        requires
            old(self).wf(),
            pattern_id < old(self).possible().len(),
            !old(self).possible()[pattern_id as int] ==> old(self).weight() + weight <= u64::MAX,
        ensures
            final(self).wf(),
            r == !old(self).possible()[pattern_id as int],
            final(self).possible() == old(self).possible().update(pattern_id as int, true),
            r ==> final(self).count() == old(self).count() + 1,
            r ==> final(self).weight() == old(self).weight() + weight,
            !r ==> *final(self) == *old(self),
    {
        let ghost before = self.possible();
        if !self.possible_patterns.insert(pattern_id) {
            proof {
                assert(self.possible() =~= before);
            }
            return false;
        }
        proof {
            lemma_count_true_update(before, pattern_id as int, true);
            lemma_count_true_bounds(self.possible());
            self.lemma_wf();
        }
        self.possible_count = self.possible_count + 1;
        self.weight_sum = self.weight_sum + weight as u64;
        true
    }

    /// Leaves `pattern_id` as the only possible pattern, with total weight `weight`, if it was
    /// possible; says whether it was.
    pub fn collapse_to(&mut self, pattern_id: PatternId, weight: u32) -> (r: bool)
        requires
            old(self).wf(),
            pattern_id < old(self).possible().len(),
        ensures
            final(self).wf(),
            r == old(self).possible()[pattern_id as int],
            r ==> final(self).possible() == Seq::new(
                old(self).possible().len(),
                |i: int| i == pattern_id,
            ),
            r ==> final(self).count() == 1,
            r ==> final(self).weight() == weight,
            !r ==> *final(self) == *old(self),
    {
        if !self.possible_patterns.contains(pattern_id) {
            return false;
        }
        self.possible_patterns.keep_only(pattern_id);
        proof {
            let s = self.possible();
            let n = s.len() as int;
            assert(s =~= Seq::new(n as nat, |i: int| false).update(pattern_id as int, true));
            lemma_count_true_bounds(Seq::new(n as nat, |i: int| false));
            lemma_count_true_update(Seq::new(n as nat, |i: int| false), pattern_id as int, true);
            self.lemma_wf();
        }
        self.possible_count = 1;
        self.weight_sum = weight as u64;
        true
    }

    /// Keeps only the possible patterns whose bit is set in `mask`, and sets the count and the
    /// total weight (by `pattern_weights`) to those of what is left; says whether the set changed.
    pub fn intersect_with_mask(&mut self, mask: &[u64], pattern_weights: &[u32]) -> (r: bool)
        requires
            old(self).wf(),
            mask@.len() == old(self).possible_words().len(),
            pattern_weights@.len() == old(self).possible().len(),
            weight_total(Seq::new(old(self).possible().len(), |i: int| true), pattern_weights@)
                <= u64::MAX,
        ensures
            final(self).wf(),
            final(self).possible() == Seq::new(
                old(self).possible().len(),
                |i: int| old(self).possible()[i] && word_bit(mask@[i / 64], i % 64),
            ),
            r == (final(self).possible() != old(self).possible()),
            r ==> final(self).weight_matches(pattern_weights@),
            !r ==> *final(self) == *old(self),
    {
        let changed = self.possible_patterns.intersect_with(mask);
        if !changed {
            return false;
        }
        self.possible_count = self.possible_patterns.count_ones();
        let n = self.possible_patterns.len();
        let ghost s = self.possible();
        let ghost all = Seq::new(s.len(), |i: int| true);
        let mut total: u64 = 0;
        let mut i: usize = 0;
        while i < n
            invariant
                i <= n,
                n == s.len(),
                s == self.possible(),
                self.inner_wf(),
                all == Seq::new(s.len(), |i: int| true),
                pattern_weights@.len() == s.len(),
                weight_total(all, pattern_weights@) <= u64::MAX,
                total == weight_total(s.take(i as int), pattern_weights@),
            decreases n - i,
        {
            proof {
                assert(s.take(i + 1).drop_last() =~= s.take(i as int));
                lemma_weight_total_le(s.take(i + 1), all.take(i + 1), pattern_weights@);
                lemma_weight_total_prefix(all, pattern_weights@, i + 1);
            }
            if self.possible_patterns.contains(i) {
                total = total + pattern_weights[i] as u64;
            }
            i = i + 1;
        }
        proof {
            assert(s.take(n as int) =~= s);
        }
        self.weight_sum = total;
        proof {
            self.lemma_wf();
        }
        true
    }

    /// The stored total weight of the possible patterns.
    pub fn weight_sum(&self) -> (r: u64)
        ensures
            r == self.weight(),
    {
        self.weight_sum
    }

    /// The possible patterns, in increasing order.
    pub fn possible_pattern_ids(&self) -> (r: Vec<PatternId>)
        requires
            self.wf(),
        ensures
            r@ == positions(self.possible()),
    {
        self.possible_patterns.iter_ones()
    }

    /// The stored number of possible patterns.
    pub fn possible_count(&self) -> (r: usize)
        ensures
            r == self.count(),
    {
        self.possible_count
    }

    /// The only possible pattern, when there is exactly one.
    pub fn collapsed_pattern_id(&self) -> (r: Option<PatternId>)
        requires
            self.wf(),
        ensures
            r == (if self.count() == 1 {
                Some(positions(self.possible())[0])
            } else {
                None::<PatternId>
            }),
    {
        if !self.is_collapsed() {
            return None;
        }
        let ids = self.possible_patterns.iter_ones();
        proof {
            lemma_positions(self.possible());
        }
        Some(ids[0])
    }
}

} // verus!
