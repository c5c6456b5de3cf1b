use vstd::prelude::*;

use crate::cell::weight_total;
use crate::direction::{Direction, direction_index, direction_of_index, opposite_spec, lemma_direction_facts};
use crate::pattern::{Pattern, PatternId, lemma_overlap_symmetric};
use crate::pattern_extractor::{PatternExtractor, all_windows, distinct_in_order, occurrences, occurrence_sum, lemma_distinct_in_order_len, lemma_occurrences_add_up, lemma_occurrence_sum_mono};
use crate::pixel_grid::{Pixel, PixelGrid};
use crate::rules::{AdjacencyRules, neighbor_ids, lemma_rule_additions_by_position, lemma_neighbor_ids_contains, supporter_ids, lemma_supporter_additions_by_position};

verus! {

/// Sum of the first `k` weights.
pub open spec fn weight_sum_upto(w: Seq<u32>, k: int) -> int
    decreases k,
{
    if k <= 0 {
        0
    } else {
        weight_sum_upto(w, k - 1) + w[k - 1]
    }
}

pub proof fn lemma_weight_sum_all(w: Seq<u32>, k: int)
    requires
        0 <= k <= w.len(),
    ensures
        weight_sum_upto(w, k) == weight_total(Seq::new(k as nat, |i: int| true), w),
        weight_sum_upto(w, k) >= 0,
    decreases k,
{
    if k > 0 {
        lemma_weight_sum_all(w, k - 1);
        assert(Seq::new(k as nat, |i: int| true).drop_last() =~= Seq::new((k - 1) as nat, |i: int| true));
    }
}

/// What is learnt from a picture: its distinct square patterns with their frequencies, which may
/// stand next to which, and the weights used to choose among them.
pub struct WfcModel {
    pattern_size: u32,
    patterns: Vec<Pattern>,
    rules: AdjacencyRules,
    pattern_weights: Vec<u32>,
    total_weight: u64,
}

impl WfcModel {
    pub closed spec fn size(&self) -> u32 {
        self.pattern_size
    }

    pub closed spec fn patterns_view(&self) -> Seq<Pattern> {
        self.patterns@
    }

    pub closed spec fn rules_view(&self) -> AdjacencyRules {
        self.rules
    }

    pub closed spec fn weights(&self) -> Seq<u32> {
        self.pattern_weights@
    }

    pub closed spec fn total(&self) -> u64 {
        self.total_weight
    }

    /// The patterns are numbered by position, the rules speak of exactly these patterns and allow
    /// exactly the overlapping pairs, each weight is the pattern's frequency, and the total weight
    /// is their sum.
    pub open spec fn wf(&self) -> bool {
        let n = self.patterns_view().len();
        &&& forall|i: int| 0 <= i < n ==> (#[trigger] self.patterns_view()[i]).id == i && self.patterns_view()[i].wf()
        &&& self.rules_view().wf()
        &&& self.rules_view().pattern_count() == n
        &&& forall|p: int, d: int|
            0 <= p < n && 0 <= d < 4 ==> #[trigger] self.rules_view().allowed_list(p, d) == neighbor_ids(
                self.patterns_view(),
                p,
                direction_of_index(d),
                n as int,
            )
        &&& forall|q: int, d: int|
            0 <= q < n && 0 <= d < 4 ==> #[trigger] self.rules_view().supporter_list(q, d) == supporter_ids(
                self.patterns_view(),
                q,
                direction_of_index(d),
                n as int,
            )
        &&& self.weights().len() == n
        &&& forall|i: int| 0 <= i < n ==> #[trigger] self.weights()[i] == self.patterns_view()[i].frequency
        &&& self.total() == weight_total(Seq::new(n, |i: int| true), self.weights())
    }

    /// Learns the model of `image` with square patterns of side `pattern_size`.
    pub fn from_image(image: &PixelGrid, pattern_size: u32) -> (r: Self)
        requires
            PatternExtractor::new_spec(pattern_size).can_extract(*image),
        ensures
            r.wf(),
            r.size() == pattern_size,
            r.patterns_view().len() == distinct_in_order(all_windows(*image, pattern_size as int)).len(),
            forall|k: int|
                0 <= k < r.patterns_view().len() ==> {
                    &&& (#[trigger] r.patterns_view()[k]).pixels@ == distinct_in_order(
                        all_windows(*image, pattern_size as int),
                    )[k]
                    &&& r.patterns_view()[k].size == pattern_size
                    &&& r.patterns_view()[k].frequency == occurrences(
                        all_windows(*image, pattern_size as int),
                        r.patterns_view()[k].pixels@,
                    )
                },
            r.total() == all_windows(*image, pattern_size as int).len(),
    {
        let extractor = PatternExtractor::new(pattern_size);
        let patterns = extractor.extract_unique_patterns(image);
        let n = patterns.len();
        proof {
            lemma_distinct_in_order_len(all_windows(*image, pattern_size as int));
        }
        let mut rules = AdjacencyRules::new(n);
        let mut pattern_weights: Vec<u32> = Vec::new();
        let mut total_weight: u64 = 0;
        let ghost ws = all_windows(*image, pattern_size as int);
        let ghost dist = distinct_in_order(ws);
        proof {
            lemma_occurrences_add_up(ws);
        }
        let mut k: usize = 0;
        while k < n
            invariant
                k <= n,
                n == patterns@.len(),
                n == dist.len(),
                forall|i: int| 0 <= i < n ==> (#[trigger] patterns@[i]).frequency == occurrences(ws, dist[i]),
                pattern_weights@.len() == k,
                forall|i: int| 0 <= i < k ==> #[trigger] pattern_weights@[i] == patterns@[i].frequency,
                total_weight == weight_sum_upto(pattern_weights@, k as int),
                occurrence_sum(ws, dist, n as int) == ws.len(),
                ws.len() <= usize::MAX,
            decreases n - k,
        {
            let weight = patterns[k].get_frequency();
            let ghost prev = pattern_weights@;
            pattern_weights.push(weight);
            proof {
                lemma_weight_sum_prefix(pattern_weights@, prev, k as int);
                assert forall|i: int| 0 <= i < k + 1 implies #[trigger] pattern_weights@[i] == occurrences(ws, dist[i]) by {
                    assert(pattern_weights@[i] == patterns@[i].frequency);
                }
                lemma_weight_sum_occurrences(pattern_weights@, ws, dist, k + 1);
                lemma_occurrence_sum_mono(ws, dist, k + 1, n as int);
                assert(weight_sum_upto(pattern_weights@, k + 1) == total_weight + weight);
            }
            total_weight = total_weight + weight as u64;
            k = k + 1;
        }
        proof {
            lemma_weight_sum_all(pattern_weights@, n as int);
            let ws = all_windows(*image, pattern_size as int);
            lemma_weight_sum_occurrences(pattern_weights@, ws, distinct_in_order(ws), n as int);
            lemma_occurrences_add_up(ws);
        }
        rules.compute_rules(patterns.as_slice());
        let r = Self { pattern_size, patterns, rules, pattern_weights, total_weight };
        proof {
            assert forall|p: int, d: int|
                0 <= p < n && 0 <= d < 4 implies #[trigger] r.rules_view().allowed_list(p, d) == neighbor_ids(
                r.patterns_view(),
                p,
                direction_of_index(d),
                n as int,
            ) by {
                lemma_rule_additions_by_position(r.patterns_view(), p, d);
                assert(Seq::<PatternId>::empty() + neighbor_ids(r.patterns_view(), p, direction_of_index(d), n as int)
                    =~= neighbor_ids(r.patterns_view(), p, direction_of_index(d), n as int));
            }
            assert forall|q: int, d: int|
                0 <= q < n && 0 <= d < 4 implies #[trigger] r.rules_view().supporter_list(q, d) == supporter_ids(
                r.patterns_view(),
                q,
                direction_of_index(d),
                n as int,
            ) by {
                lemma_supporter_additions_by_position(r.patterns_view(), q, d, n as int);
                assert(Seq::<PatternId>::empty() + supporter_ids(r.patterns_view(), q, direction_of_index(d), n as int)
                    =~= supporter_ids(r.patterns_view(), q, direction_of_index(d), n as int));
            }
        }
        r
    }

    /// The weight (frequency) of each pattern.
    pub fn pattern_weights(&self) -> (r: &[u32])
        ensures
            r@ == self.weights(),
    {
        self.pattern_weights.as_slice()
    }

    pub fn pattern_weight(&self, pattern_id: PatternId) -> (r: u32)
        requires
            pattern_id < self.weights().len(),
        ensures
            r == self.weights()[pattern_id as int],
    {
        self.pattern_weights[pattern_id]
    }

    /// Sum of the weights of all patterns.
    pub fn total_weight(&self) -> (r: u64)
        ensures
            r == self.total(),
    {
        self.total_weight
    }

    pub fn get_pattern_size(&self) -> (r: u32)
        ensures
            r == self.size(),
    {
        self.pattern_size
    }

    pub fn get_patterns(&self) -> (r: &[Pattern])
        ensures
            r@ == self.patterns_view(),
    {
        self.patterns.as_slice()
    }

    pub fn get_rules(&self) -> (r: &AdjacencyRules)
        ensures
            *r == self.rules_view(),
    {
        &self.rules
    }

    pub fn pattern_count(&self) -> (r: usize)
        ensures
            r == self.patterns_view().len(),
    {
        self.patterns.len()
    }

    /// Sum of the frequencies of all patterns, which the caller knows to fit in `u32`.
    pub fn total_frequency(&self) -> (r: u32)
        requires
            self.wf(),
            self.total() <= u32::MAX,
        ensures
            r == self.total(),
    {
        let n = self.patterns.len();
        let mut total: u32 = 0;
        let mut k: usize = 0;
        proof {
            lemma_weight_sum_all(self.weights(), n as int);
        }
        while k < n
            invariant
                k <= n,
                n == self.patterns_view().len(),
                self.wf(),
                self.total() <= u32::MAX,
                self.total() == weight_sum_upto(self.weights(), n as int),
                total == weight_sum_upto(self.weights(), k as int),
            decreases n - k,
        {
            proof {
                lemma_weight_sum_monotonic(self.weights(), k + 1, n as int);
            }
            total = total + self.patterns[k].get_frequency();
            k = k + 1;
        }
        total
    }
}

proof fn lemma_weight_sum_prefix(a: Seq<u32>, b: Seq<u32>, k: int)
    requires
        0 <= k <= a.len(),
        k <= b.len(),
        forall|i: int| 0 <= i < k ==> a[i] == b[i],
    ensures
        weight_sum_upto(a, k) == weight_sum_upto(b, k),
    decreases k,
{
    if k > 0 {
        lemma_weight_sum_prefix(a, b, k - 1);
    }
}

proof fn lemma_weight_sum_monotonic(w: Seq<u32>, a: int, b: int)
    requires
        0 <= a <= b,
    ensures
        weight_sum_upto(w, a) <= weight_sum_upto(w, b),
    decreases b - a,
{
    if a < b {
        lemma_weight_sum_monotonic(w, a, b - 1);
    }
}

/// Weights that are the occurrences of the distinct windows add up as the occurrences do.
proof fn lemma_weight_sum_occurrences(w: Seq<u32>, ws: Seq<Seq<Pixel>>, d: Seq<Seq<Pixel>>, k: int)
    requires
        0 <= k <= w.len(),
        k <= d.len(),
        forall|i: int| 0 <= i < k ==> #[trigger] w[i] == occurrences(ws, d[i]),
    ensures
        weight_sum_upto(w, k) == occurrence_sum(ws, d, k),
    decreases k,
{
    if k > 0 {
        lemma_weight_sum_occurrences(w, ws, d, k - 1);
        assert(w[k - 1] == occurrences(ws, d[k - 1]));
    }
}

/// The rules of a model are symmetric: pattern `q` may stand on the `d` side of pattern `p`
/// exactly when `p` may stand on the opposite side of `q`.
pub proof fn lemma_rules_symmetric(model: WfcModel, p: int, q: int, d: int)
    requires
        model.wf(),
        0 <= p < model.patterns_view().len(),
        0 <= q < model.patterns_view().len(),
        0 <= d < 4,
    ensures
        model.rules_view().allowed_list(p, d).contains(q as usize) == model.rules_view().allowed_list(
            q,
            direction_index(opposite_spec(direction_of_index(d))),
        ).contains(p as usize),
{
    let ps = model.patterns_view();
    let n = ps.len() as int;
    let dir = direction_of_index(d);
    let back = direction_index(opposite_spec(dir));
    lemma_direction_facts(opposite_spec(dir));
    lemma_direction_facts(dir);
    assert(0 <= back < 4);
    assert(direction_of_index(back) == opposite_spec(dir));
    assert(n <= usize::MAX) by {
        assert(model.patterns.len() == model.patterns@.len());
    }
    lemma_neighbor_ids_contains(ps, p, dir, n, q);
    lemma_neighbor_ids_contains(ps, q, opposite_spec(dir), n, p);
    lemma_overlap_symmetric(ps[p].pixels@, ps[q].pixels@, ps[p].size as int, dir);
}


/// A pattern is allowed beside another at most once per pattern below `k`.
proof fn lemma_neighbor_ids_len(patterns: Seq<Pattern>, a: int, direction: Direction, k: int)
    ensures
        neighbor_ids(patterns, a, direction, k).len() <= if k < 0 { 0 } else { k },
    decreases k,
{
    if k > 0 {
        lemma_neighbor_ids_len(patterns, a, direction, k - 1);
    }
}

proof fn lemma_rule_count_upto(model: WfcModel, k: int)
    requires
        model.wf(),
        0 <= k <= model.patterns_view().len(),
    ensures
        model.rules_view().rule_count_below(k) <= 4 * k * model.patterns_view().len(),
    decreases k,
{
    let n = model.patterns_view().len() as int;
    if k > 0 {
        lemma_rule_count_upto(model, k - 1);
        let r = model.rules_view();
        assert forall|d: int| 0 <= d < 4 implies #[trigger] r.allowed_list(k - 1, d).len() <= n by {
            lemma_neighbor_ids_len(model.patterns_view(), k - 1, direction_of_index(d), n);
        }
        assert(r.allowed_list(k - 1, 0).len() <= n);
        assert(r.allowed_list(k - 1, 1).len() <= n);
        assert(r.allowed_list(k - 1, 2).len() <= n);
        assert(r.allowed_list(k - 1, 3).len() <= n);
        assert(4 * (k - 1) * n + 4 * n == 4 * k * n) by (nonlinear_arith);
    }
}

/// A model's rules hold at most four entries per pair of patterns, so counting them fits a `usize`
/// whenever `4 * n * n` does.
pub proof fn lemma_rule_count_bound(model: WfcModel)
    requires
        model.wf(),
    ensures
        model.rules_view().rule_count_below(model.rules_view().pattern_count()) <= 4 * model.patterns_view().len()
            * model.patterns_view().len(),
{
    lemma_rule_count_upto(model, model.patterns_view().len() as int);
}

} // verus!
