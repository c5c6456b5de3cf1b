use vstd::prelude::*;

use crate::bitset::{word_bit, lemma_bit_of_set, lemma_bit_of_max};
use crate::direction::{Direction, all_directions, direction_index, direction_of_index};
use crate::pattern::{Pattern, PatternId, patterns_overlap};

verus! {

/// Where a pattern's bit lies in the words of a set of patterns.
#[derive(Debug, Clone, Copy, PartialEq, Eq, Structural)]
pub struct SupporterBit {
    pub word_index: usize,
    pub mask: u64,
}

/// The word and mask of pattern `p` in a set of patterns.
pub open spec fn bit_of(p: usize) -> SupporterBit {
    SupporterBit { word_index: p / 64, mask: 1u64 << ((p % 64) as u64) }
}

/// Pattern `b` may stand next to pattern `a` on `a`'s `direction` side.
pub open spec fn may_neighbor(a: Pattern, b: Pattern, direction: Direction) -> bool {
    a.size == b.size && patterns_overlap(a.pixels@, b.pixels@, a.size as int, direction)
}

/// The ids of the patterns among the first `k` of `patterns` that may stand next to pattern `a`
/// on its `direction` side, in increasing order.
pub open spec fn neighbor_ids(patterns: Seq<Pattern>, a: int, direction: Direction, k: int) -> Seq<
    usize,
>
    decreases k,
{
    if k <= 0 {
        Seq::empty()
    } else if may_neighbor(patterns[a], patterns[k - 1], direction) {
        neighbor_ids(patterns, a, direction, k - 1).push((k - 1) as usize)
    } else {
        neighbor_ids(patterns, a, direction, k - 1)
    }
}

/// The ids that `compute_rules` adds to the list of (`p`, `d`) while going through the pairs
/// (`a`, `b'`) with `b'` below `b`.
pub open spec fn row_additions(patterns: Seq<Pattern>, p: int, d: int, a: int, b: int) -> Seq<usize>
    decreases b,
{
    if b <= 0 {
        Seq::empty()
    } else if patterns[a].id == p && may_neighbor(patterns[a], patterns[b - 1], direction_of_index(d)) {
        row_additions(patterns, p, d, a, b - 1).push(patterns[b - 1].id)
    } else {
        row_additions(patterns, p, d, a, b - 1)
    }
}

/// The ids that `compute_rules` adds to the list of (`p`, `d`) while going through all pairs whose
/// first pattern comes before position `a`.
pub open spec fn rule_additions(patterns: Seq<Pattern>, p: int, d: int, a: int) -> Seq<usize>
    decreases a,
{
    if a <= 0 {
        Seq::empty()
    } else {
        rule_additions(patterns, p, d, a - 1) + row_additions(
            patterns,
            p,
            d,
            a - 1,
            patterns.len() as int,
        )
    }
}

/// The ids that `compute_rules` adds to the supporters of (`q`, `d`) while going through the pairs
/// (`a`, `b'`) with `b'` below `b`.
pub open spec fn supporter_row(patterns: Seq<Pattern>, q: int, d: int, a: int, b: int) -> Seq<usize>
    decreases b,
{
    if b <= 0 {
        Seq::empty()
    } else if patterns[b - 1].id == q && may_neighbor(patterns[a], patterns[b - 1], direction_of_index(d)) {
        supporter_row(patterns, q, d, a, b - 1).push(patterns[a].id)
    } else {
        supporter_row(patterns, q, d, a, b - 1)
    }
}

/// The ids that `compute_rules` adds to the supporters of (`q`, `d`) while going through all pairs
/// whose first pattern comes before position `a`.
pub open spec fn supporter_additions(patterns: Seq<Pattern>, q: int, d: int, a: int) -> Seq<usize>
    decreases a,
{
    if a <= 0 {
        Seq::empty()
    } else {
        supporter_additions(patterns, q, d, a - 1) + supporter_row(patterns, q, d, a - 1, patterns.len() as int)
    }
}

/// The ids of the patterns among the first `k` of `patterns` on whose `direction` side pattern `b`
/// may stand, in increasing order.
pub open spec fn supporter_ids(patterns: Seq<Pattern>, b: int, direction: Direction, k: int) -> Seq<usize>
    decreases k,
{
    if k <= 0 {
        Seq::empty()
    } else if may_neighbor(patterns[k - 1], patterns[b], direction) {
        supporter_ids(patterns, b, direction, k - 1).push((k - 1) as usize)
    } else {
        supporter_ids(patterns, b, direction, k - 1)
    }
}

/// When every pattern's id is its position, what `compute_rules` adds to the supporters of (`q`,
/// `d`) is the ids of the patterns on whose `d` side pattern `q` may stand, in increasing order.
pub proof fn lemma_supporter_additions_by_position(patterns: Seq<Pattern>, q: int, d: int, a: int)
    requires
        0 <= q < patterns.len(),
        0 <= a <= patterns.len(),
        forall|i: int| 0 <= i < patterns.len() ==> (#[trigger] patterns[i]).id == i,
    ensures
        supporter_additions(patterns, q, d, a) == supporter_ids(patterns, q, direction_of_index(d), a),
    decreases a,
{
    if a > 0 {
        lemma_supporter_additions_by_position(patterns, q, d, a - 1);
        lemma_supporter_row_single(patterns, q, d, a - 1, patterns.len() as int);
        let prev = supporter_additions(patterns, q, d, a - 1);
        assert(patterns[a - 1].id == a - 1);
        if may_neighbor(patterns[a - 1], patterns[q], direction_of_index(d)) {
            assert(prev + seq![(a - 1) as usize] =~= prev.push((a - 1) as usize));
        } else {
            assert(prev + Seq::<usize>::empty() =~= prev);
        }
    }
}

proof fn lemma_supporter_row_single(patterns: Seq<Pattern>, q: int, d: int, a: int, b: int)
    requires
        0 <= q < patterns.len(),
        0 <= a < patterns.len(),
        0 <= b <= patterns.len(),
        forall|i: int| 0 <= i < patterns.len() ==> (#[trigger] patterns[i]).id == i,
    ensures
        supporter_row(patterns, q, d, a, b) == if b > q && may_neighbor(patterns[a], patterns[q], direction_of_index(d)) {
            seq![a as usize]
        } else {
            Seq::<usize>::empty()
        },
    decreases b,
{
    if b > 0 {
        lemma_supporter_row_single(patterns, q, d, a, b - 1);
        assert(patterns[b - 1].id == b - 1);
        assert(patterns[a].id == a);
        if b - 1 == q && may_neighbor(patterns[a], patterns[q], direction_of_index(d)) {
            assert(Seq::<usize>::empty().push(a as usize) =~= seq![a as usize]);
        }
    }
}

/// When every pattern's id is its position, what `compute_rules` adds to the list of (`p`, `d`)
/// is the ids of the patterns that may stand on the `d` side of pattern `p`, in increasing order.
pub proof fn lemma_rule_additions_by_position(patterns: Seq<Pattern>, p: int, d: int)
    requires
        0 <= p < patterns.len(),
        forall|i: int| 0 <= i < patterns.len() ==> (#[trigger] patterns[i]).id == i,
    ensures
        rule_additions(patterns, p, d, patterns.len() as int) == neighbor_ids(
            patterns,
            p,
            direction_of_index(d),
            patterns.len() as int,
        ),
{
    let n = patterns.len() as int;
    assert forall|a: int| 0 <= a < n && a != p implies #[trigger] row_additions(patterns, p, d, a, n)
        == Seq::<usize>::empty() by {
        lemma_row_additions_other(patterns, p, d, a, n);
    }
    lemma_row_additions_own(patterns, p, d, n);
    lemma_rule_additions_single(patterns, p, d, n);
}

proof fn lemma_row_additions_other(patterns: Seq<Pattern>, p: int, d: int, a: int, b: int)
    requires
        patterns[a].id != p,
    ensures
        row_additions(patterns, p, d, a, b) == Seq::<usize>::empty(),
    decreases b,
{
    if b > 0 {
        lemma_row_additions_other(patterns, p, d, a, b - 1);
    }
}

proof fn lemma_row_additions_own(patterns: Seq<Pattern>, p: int, d: int, b: int)
    requires
        0 <= p < patterns.len(),
        b <= patterns.len(),
        forall|i: int| 0 <= i < patterns.len() ==> (#[trigger] patterns[i]).id == i,
    ensures
        row_additions(patterns, p, d, p, b) == neighbor_ids(patterns, p, direction_of_index(d), b),
    decreases b,
{
    if b > 0 {
        lemma_row_additions_own(patterns, p, d, b - 1);
        assert(patterns[b - 1].id == b - 1);
        assert(patterns[p].id == p);
    }
}

proof fn lemma_rule_additions_single(patterns: Seq<Pattern>, p: int, d: int, a: int)
    requires
        0 <= p < patterns.len(),
        0 <= a <= patterns.len(),
        forall|i: int| 0 <= i < a && i != p ==> #[trigger] row_additions(patterns, p, d, i, patterns.len() as int)
            == Seq::<usize>::empty(),
    ensures
        rule_additions(patterns, p, d, a) == if a > p {
            row_additions(patterns, p, d, p, patterns.len() as int)
        } else {
            Seq::<usize>::empty()
        },
    decreases a,
{
    if a > 0 {
        lemma_rule_additions_single(patterns, p, d, a - 1);
        let prev = rule_additions(patterns, p, d, a - 1);
        let row = row_additions(patterns, p, d, a - 1, patterns.len() as int);
        if a - 1 != p {
            assert(row == Seq::<usize>::empty());
            assert(prev + row =~= prev);
        } else {
            assert(prev == Seq::<usize>::empty());
            assert(prev + row =~= row);
        }
    }
}

/// `after` is `before` with pattern `b` allowed on the side `d` of pattern `a`: that list and the
/// supporters of (`b`, `d`) each gain one entry at their end, and nothing else is listed anew.
pub open spec fn allow_step(before: AdjacencyRules, after: AdjacencyRules, a: int, d: int, b: int) -> bool {
    &&& after.pattern_count() == before.pattern_count()
    &&& forall|p: int, e: int|
        0 <= p < before.pattern_count() && 0 <= e < 4 ==> #[trigger] after.allowed_list(p, e) == if p == a && e == d {
            before.allowed_list(p, e).push(b as usize)
        } else {
            before.allowed_list(p, e)
        }
    &&& forall|p: int, e: int|
        0 <= p < before.pattern_count() && 0 <= e < 4 ==> #[trigger] after.supporter_list(p, e) == if p == b && e == d {
            before.supporter_list(p, e).push(a as usize)
        } else {
            before.supporter_list(p, e)
        }
}

/// The patterns allowed on the side `d` of pattern `p` by the calls `calls` (each a pattern, a
/// direction index and the pattern allowed there), in call order.
pub open spec fn allowed_after(calls: Seq<(int, int, int)>, p: int, d: int) -> Seq<usize>
    decreases calls.len(),
{
    if calls.len() == 0 {
        Seq::empty()
    } else if calls.last().0 == p && calls.last().1 == d {
        allowed_after(calls.drop_last(), p, d).push(calls.last().2 as usize)
    } else {
        allowed_after(calls.drop_last(), p, d)
    }
}

/// The patterns that the calls `calls` made allow pattern `q` on their side `d`, in call order.
pub open spec fn supporters_after(calls: Seq<(int, int, int)>, q: int, d: int) -> Seq<usize>
    decreases calls.len(),
{
    if calls.len() == 0 {
        Seq::empty()
    } else if calls.last().2 == q && calls.last().1 == d {
        supporters_after(calls.drop_last(), q, d).push(calls.last().0 as usize)
    } else {
        supporters_after(calls.drop_last(), q, d)
    }
}

/// One more entry in the list of (`p0`, `d0`) adds one to the count of the lists of every first
/// `k` patterns that include `p0`.
proof fn lemma_rule_count_step(a: AdjacencyRules, b: AdjacencyRules, p0: int, d0: int, x: usize, k: int)
    requires
        0 <= k <= a.pattern_count(),
        b.pattern_count() == a.pattern_count(),
        0 <= p0 < a.pattern_count(),
        0 <= d0 < 4,
        forall|p: int, e: int|
            0 <= p < a.pattern_count() && 0 <= e < 4 ==> #[trigger] b.allowed_list(p, e) == if p == p0 && e == d0 {
                a.allowed_list(p, e).push(x)
            } else {
                a.allowed_list(p, e)
            },
    ensures
        b.rule_count_below(k) == a.rule_count_below(k) + if k > p0 { 1int } else { 0int },
    decreases k,
{
    if k > 0 {
        lemma_rule_count_step(a, b, p0, d0, x, k - 1);
        assert(b.allowed_list(k - 1, 0) == (if k - 1 == p0 && 0 == d0 { a.allowed_list(k - 1, 0).push(x) } else { a.allowed_list(k - 1, 0) }));
        assert(b.allowed_list(k - 1, 1) == (if k - 1 == p0 && 1 == d0 { a.allowed_list(k - 1, 1).push(x) } else { a.allowed_list(k - 1, 1) }));
        assert(b.allowed_list(k - 1, 2) == (if k - 1 == p0 && 2 == d0 { a.allowed_list(k - 1, 2).push(x) } else { a.allowed_list(k - 1, 2) }));
        assert(b.allowed_list(k - 1, 3) == (if k - 1 == p0 && 3 == d0 { a.allowed_list(k - 1, 3).push(x) } else { a.allowed_list(k - 1, 3) }));
    }
}

/// Empty lists count nothing.
proof fn lemma_rule_count_empty(r: AdjacencyRules, k: int)
    requires
        0 <= k <= r.pattern_count(),
        forall|p: int, e: int| 0 <= p < r.pattern_count() && 0 <= e < 4 ==> #[trigger] r.allowed_list(p, e).len() == 0,
    ensures
        r.rule_count_below(k) == 0,
    decreases k,
{
    if k > 0 {
        lemma_rule_count_empty(r, k - 1);
        assert(r.allowed_list(k - 1, 0).len() == 0);
        assert(r.allowed_list(k - 1, 1).len() == 0);
        assert(r.allowed_list(k - 1, 2).len() == 0);
        assert(r.allowed_list(k - 1, 3).len() == 0);
    }
}

/// Rules that start with every list empty and then allow, one call after the other, the triples
/// of `calls` (see `allow_step`), list for each pattern and direction exactly the patterns allowed
/// there, and the supporters, in call order with repeats, and count one rule per call.
pub proof fn lemma_allow_calls(states: Seq<AdjacencyRules>, calls: Seq<(int, int, int)>)
    requires
        states.len() == calls.len() + 1,
        forall|p: int, e: int|
            0 <= p < states[0].pattern_count() && 0 <= e < 4 ==> #[trigger] states[0].allowed_list(p, e) == Seq::<
                usize,
            >::empty() && states[0].supporter_list(p, e) == Seq::<usize>::empty(),
        forall|k: int|
            0 <= k < calls.len() ==> #[trigger] allow_step(states[k], states[k + 1], calls[k].0, calls[k].1, calls[k].2),
        forall|k: int|
            0 <= k < calls.len() ==> 0 <= (#[trigger] calls[k]).0 < states[0].pattern_count() && 0 <= calls[k].1 < 4 && 0
                <= calls[k].2 < states[0].pattern_count(),
    ensures
        states.last().pattern_count() == states[0].pattern_count(),
        forall|p: int, e: int|
            0 <= p < states[0].pattern_count() && 0 <= e < 4 ==> #[trigger] states.last().allowed_list(p, e) == allowed_after(
                calls,
                p,
                e,
            ) && states.last().supporter_list(p, e) == supporters_after(calls, p, e),
        states.last().rule_count_below(states[0].pattern_count()) == calls.len(),
    decreases calls.len(),
{
    let n = states[0].pattern_count();
    if calls.len() == 0 {
        assert forall|p: int, e: int| 0 <= p < n && 0 <= e < 4 implies #[trigger] states[0].allowed_list(p, e).len() == 0 by {
            assert(states[0].allowed_list(p, e) == Seq::<usize>::empty());
        }
        lemma_rule_count_empty(states[0], n);
    } else {
        let m = calls.len() - 1;
        let prev = states.drop_last();
        let prev_calls = calls.drop_last();
        assert forall|k: int| 0 <= k < prev_calls.len() implies #[trigger] allow_step(prev[k], prev[k + 1], prev_calls[k].0, prev_calls[k].1, prev_calls[k].2) by {
            assert(allow_step(states[k], states[k + 1], calls[k].0, calls[k].1, calls[k].2));
        }
        assert forall|k: int| 0 <= k < prev_calls.len() implies 0 <= (#[trigger] prev_calls[k]).0 < prev[0].pattern_count()
            && 0 <= prev_calls[k].1 < 4 && 0 <= prev_calls[k].2 < prev[0].pattern_count() by {
            assert(prev_calls[k] == calls[k]);
        }
        lemma_allow_calls(prev, prev_calls);
        let a = states[m];
        let b = states[m + 1];
        assert(prev.last() == a);
        assert(states.last() == b);
        assert(allow_step(a, b, calls[m].0, calls[m].1, calls[m].2));
        let c = calls[m];
        assert(calls.last() == c);
        lemma_rule_count_step(a, b, c.0, c.1, c.2 as usize, n as int);
    }
}

/// Which pattern may stand next to which, in each direction.
pub struct AdjacencyRules {
    allowed: Vec<[Vec<PatternId>; 4]>,
    allowed_masks: Vec<[Vec<u64>; 4]>,
    supporters: Vec<[Vec<PatternId>; 4]>,
    supporter_bits: Vec<[Vec<SupporterBit>; 4]>,
}

impl AdjacencyRules {
    /// Number of patterns the rules speak of.
    pub closed spec fn pattern_count(&self) -> int {
        self.allowed@.len() as int
    }

    /// The patterns that may stand on the `d` side of pattern `p`, in the order they were allowed.
    pub closed spec fn allowed_list(&self, p: int, d: int) -> Seq<PatternId> {
        self.allowed@[p][d]@
    }

    /// Number of entries in the lists of the first `k` patterns.
    pub open spec fn rule_count_below(&self, k: int) -> int
        decreases k,
    {
        if k <= 0 {
            0
        } else {
            self.rule_count_below(k - 1) + self.allowed_list(k - 1, 0).len() + self.allowed_list(k - 1, 1).len()
                + self.allowed_list(k - 1, 2).len() + self.allowed_list(k - 1, 3).len()
        }
    }

    /// The words of the set of patterns that may stand on the `d` side of pattern `p`.
    pub closed spec fn mask_words(&self, p: int, d: int) -> Seq<u64> {
        self.allowed_masks@[p][d]@
    }

    /// The patterns that allow `p` on their `d` side, in the order they were allowed.
    pub closed spec fn supporter_list(&self, p: int, d: int) -> Seq<PatternId> {
        self.supporters@[p][d]@
    }

    /// The bits of the patterns of `supporter_list(p, d)`.
    pub closed spec fn supporter_bit_list(&self, p: int, d: int) -> Seq<SupporterBit> {
        self.supporter_bits@[p][d]@
    }

    /// The tables agree: every id is a pattern, each mask holds exactly the allowed patterns, and
    /// `a` supports `b` in direction `d` exactly when `b` is allowed on the `d` side of `a`.
    pub open spec fn wf(&self) -> bool {
        let n = self.pattern_count();
        &&& forall|p: int, d: int, i: int|
            0 <= p < n && 0 <= d < 4 && 0 <= i < self.allowed_list(p, d).len() ==> #[trigger] self.allowed_list(
                p,
                d,
            )[i] < n
        &&& forall|p: int, d: int, i: int|
            0 <= p < n && 0 <= d < 4 && 0 <= i < self.supporter_list(p, d).len() ==> #[trigger] self.supporter_list(
                p,
                d,
            )[i] < n
        &&& forall|p: int, d: int|
            0 <= p < n && 0 <= d < 4 ==> (#[trigger] self.mask_words(p, d)).len() == (n + 63) / 64
        &&& forall|p: int, d: int, b: int|
            0 <= p < n && 0 <= d < 4 && 0 <= b < n ==> (word_bit(
                #[trigger] self.mask_words(p, d)[b / 64],
                b % 64,
            ) <==> self.allowed_list(p, d).contains(b as usize))
        &&& forall|p: int, d: int, b: int|
            0 <= p < n && 0 <= d < 4 && n <= b < 64 * ((n + 63) / 64) ==> !word_bit(
                #[trigger] self.mask_words(p, d)[b / 64],
                b % 64,
            )
        &&& forall|a: int, b: int, d: int|
            0 <= a < n && 0 <= b < n && 0 <= d < 4 ==> (#[trigger] self.supporter_list(b, d).contains(
                a as usize,
            ) <==> #[trigger] self.allowed_list(a, d).contains(b as usize))
        &&& forall|p: int, d: int|
            0 <= p < n && 0 <= d < 4 ==> #[trigger] self.supporter_bit_list(p, d) == self.supporter_list(
                p,
                d,
            ).map_values(|a: usize| bit_of(a))
        &&& self.tables_sized()
    }

    /// Every table has one entry per pattern.
    pub closed spec fn tables_sized(&self) -> bool {
        &&& self.allowed_masks@.len() == self.allowed@.len()
        &&& self.supporters@.len() == self.allowed@.len()
        &&& self.supporter_bits@.len() == self.allowed@.len()
    }

    /// Rules for `pattern_count` patterns that allow nothing yet.
    pub fn new(pattern_count: usize) -> (r: Self)
        ensures
            r.wf(),
            r.pattern_count() == pattern_count,
            forall|p: int, d: int|
                0 <= p < pattern_count && 0 <= d < 4 ==> #[trigger] r.allowed_list(p, d)
                    == Seq::<PatternId>::empty(),
            forall|p: int, d: int|
                0 <= p < pattern_count && 0 <= d < 4 ==> #[trigger] r.supporter_list(p, d)
                    == Seq::<PatternId>::empty(),
            forall|p: int, d: int|
                0 <= p < pattern_count && 0 <= d < 4 ==> #[trigger] r.mask_words(p, d)
                    == Seq::new(((pattern_count + 63) / 64) as nat, |i: int| 0u64),
    {
        let word_count = pattern_count / 64 + if pattern_count % 64 != 0 { 1 } else { 0 };
        let mut allowed: Vec<[Vec<PatternId>; 4]> = Vec::new();
        let mut allowed_masks: Vec<[Vec<u64>; 4]> = Vec::new();
        let mut supporters: Vec<[Vec<PatternId>; 4]> = Vec::new();
        let mut supporter_bits: Vec<[Vec<SupporterBit>; 4]> = Vec::new();
        let mut k: usize = 0;
        while k < pattern_count
            invariant
                k <= pattern_count,
                word_count == (pattern_count + 63) / 64,
                allowed@.len() == k,
                allowed_masks@.len() == k,
                supporters@.len() == k,
                supporter_bits@.len() == k,
                forall|p: int, d: int|
                    0 <= p < k && 0 <= d < 4 ==> (#[trigger] allowed@[p][d])@ == Seq::<
                        PatternId,
                    >::empty(),
                forall|p: int, d: int|
                    0 <= p < k && 0 <= d < 4 ==> (#[trigger] supporters@[p][d])@ == Seq::<
                        PatternId,
                    >::empty(),
                forall|p: int, d: int|
                    0 <= p < k && 0 <= d < 4 ==> (#[trigger] supporter_bits@[p][d])@ == Seq::<
                        SupporterBit,
                    >::empty(),
                forall|p: int, d: int|
                    0 <= p < k && 0 <= d < 4 ==> (#[trigger] allowed_masks@[p][d])@.len()
                        == word_count,
                forall|p: int, d: int, w: int|
                    0 <= p < k && 0 <= d < 4 && 0 <= w < word_count ==> #[trigger] allowed_masks@[p][d]@[w] == 0u64,
            decreases pattern_count - k,
        {
            allowed.push([Vec::new(), Vec::new(), Vec::new(), Vec::new()]);
            allowed_masks.push(
                [
                    vec![0u64; word_count],
                    vec![0u64; word_count],
                    vec![0u64; word_count],
                    vec![0u64; word_count],
                ],
            );
            supporters.push([Vec::new(), Vec::new(), Vec::new(), Vec::new()]);
            supporter_bits.push([Vec::new(), Vec::new(), Vec::new(), Vec::new()]);
            k = k + 1;
        }
        let r = Self { allowed, allowed_masks, supporters, supporter_bits };
        proof {
            assert forall|p: int, d: int, b: int|
                0 <= p < pattern_count && 0 <= d < 4 && 0 <= b < pattern_count implies (word_bit(
                #[trigger] r.mask_words(p, d)[b / 64],
                b % 64,
            ) <==> r.allowed_list(p, d).contains(b as usize)) by {
                lemma_bit_of_max((b % 64) as u64);
                assert(r.mask_words(p, d)[b / 64] == 0u64);
            }
            assert forall|p: int, d: int, b: int|
                0 <= p < pattern_count && 0 <= d < 4 && pattern_count <= b < 64 * ((pattern_count + 63) / 64) implies !word_bit(
                #[trigger] r.mask_words(p, d)[b / 64],
                b % 64,
            ) by {
                assert(b / 64 < (pattern_count + 63) / 64);
                lemma_bit_of_max((b % 64) as u64);
                assert(r.mask_words(p, d)[b / 64] == 0u64);
            }
            assert forall|p: int, d: int|
                0 <= p < pattern_count && 0 <= d < 4 implies #[trigger] r.mask_words(p, d)
                == Seq::new(((pattern_count + 63) / 64) as nat, |i: int| 0u64) by {
                assert(r.mask_words(p, d) =~= Seq::new(((pattern_count + 63) / 64) as nat, |i: int| 0u64));
            }
            assert forall|p: int, d: int|
                0 <= p < pattern_count && 0 <= d < 4 implies #[trigger] r.supporter_bit_list(p, d)
                == r.supporter_list(p, d).map_values(|a: usize| bit_of(a)) by {
                assert(r.supporter_list(p, d).map_values(|a: usize| bit_of(a)) =~= Seq::<
                    SupporterBit,
                >::empty());
            }
        }
        r
    }

    /// Allows `allowed_pattern_id` on the `direction` side of `pattern_id`.
    pub fn allow(&mut self, pattern_id: PatternId, direction: Direction, allowed_pattern_id: PatternId)
        requires
            old(self).wf(),
            pattern_id < old(self).pattern_count(),
            allowed_pattern_id < old(self).pattern_count(),
        ensures
            allow_step(*old(self), *final(self), pattern_id as int, direction_index(direction), allowed_pattern_id as int),
            final(self).wf(),
            final(self).pattern_count() == old(self).pattern_count(),
            forall|p: int, d: int|
                0 <= p < old(self).pattern_count() && 0 <= d < 4 ==> #[trigger] final(self).allowed_list(p, d)
                    == if p == pattern_id && d == direction_index(direction) {
                    old(self).allowed_list(p, d).push(allowed_pattern_id)
                } else {
                    old(self).allowed_list(p, d)
                },
            forall|p: int, d: int|
                0 <= p < old(self).pattern_count() && 0 <= d < 4 ==> #[trigger] final(self).supporter_list(p, d)
                    == if p == allowed_pattern_id && d == direction_index(direction) {
                    old(self).supporter_list(p, d).push(pattern_id)
                } else {
                    old(self).supporter_list(p, d)
                },
            forall|p: int, d: int|
                0 <= p < old(self).pattern_count() && 0 <= d < 4 ==> #[trigger] final(self).mask_words(p, d)
                    == if p == pattern_id && d == direction_index(direction) {
                    old(self).mask_words(p, d).update(
                        (allowed_pattern_id / 64) as int,
                        old(self).mask_words(p, d)[(allowed_pattern_id / 64) as int] | (1u64 << ((allowed_pattern_id % 64) as u64)),
                    )
                } else {
                    old(self).mask_words(p, d)
                },
    {
        let d = direction.to_index();
        let count = self.allowed.len();
        let ghost n = old(self).pattern_count();
        let ghost di = d as int;
        let ghost pa = pattern_id as int;
        let ghost pb = allowed_pattern_id as int;
        self.allowed[pattern_id][d].push(allowed_pattern_id);
        let word_index = allowed_pattern_id / 64;
        let bit_index = allowed_pattern_id % 64;
        let mask = 1u64 << (bit_index as u64);
        proof {
            assert(word_index < (n + 63) / 64);
            assert(old(self).mask_words(pa, di).len() == (n + 63) / 64);
        }
        let old_word = self.allowed_masks[pattern_id][d][word_index];
        self.allowed_masks[pattern_id][d].set(word_index, old_word | mask);
        self.supporters[allowed_pattern_id][d].push(pattern_id);
        let supporter_bit = SupporterBit {
            word_index: pattern_id / 64,
            mask: 1u64 << ((pattern_id % 64) as u64),
        };
        self.supporter_bits[allowed_pattern_id][d].push(supporter_bit);
        proof {
            let o = old(self);
            assert forall|p: int, e: int| 0 <= p < n && 0 <= e < 4 implies #[trigger] self.allowed_list(p, e)
                == if p == pa && e == di { o.allowed_list(p, e).push(allowed_pattern_id) } else {
                    o.allowed_list(p, e) } by {}
            assert forall|p: int, e: int| 0 <= p < n && 0 <= e < 4 implies #[trigger] self.supporter_list(p, e)
                == if p == pb && e == di { o.supporter_list(p, e).push(pattern_id) } else {
                    o.supporter_list(p, e) } by {}
            assert forall|p: int, e: int| 0 <= p < n && 0 <= e < 4 implies #[trigger] self.mask_words(p, e)
                == if p == pa && e == di { o.mask_words(p, e).update(word_index as int, old_word | mask) } else {
                    o.mask_words(p, e) } by {}
            assert forall|p: int, e: int| 0 <= p < n && 0 <= e < 4 implies #[trigger] self.supporter_bit_list(p, e)
                == if p == pb && e == di { o.supporter_bit_list(p, e).push(supporter_bit) } else {
                    o.supporter_bit_list(p, e) } by {}
            assert forall|p: int, e: int, i: int|
                0 <= p < n && 0 <= e < 4 && 0 <= i < self.allowed_list(p, e).len() implies #[trigger] self.allowed_list(p, e)[i] < n by {
                if p == pa && e == di && i < o.allowed_list(p, e).len() {
                    assert(self.allowed_list(p, e)[i] == o.allowed_list(p, e)[i]);
                }
            }
            assert forall|p: int, e: int, i: int|
                0 <= p < n && 0 <= e < 4 && 0 <= i < self.supporter_list(p, e).len() implies #[trigger] self.supporter_list(p, e)[i] < n by {
                if p == pb && e == di && i < o.supporter_list(p, e).len() {
                    assert(self.supporter_list(p, e)[i] == o.supporter_list(p, e)[i]);
                }
            }
            assert forall|p: int, e: int| 0 <= p < n && 0 <= e < 4 implies (#[trigger] self.mask_words(p, e)).len() == (n + 63) / 64 by {}
            assert forall|p: int, e: int, b: int|
                0 <= p < n && 0 <= e < 4 && 0 <= b < n implies (word_bit(#[trigger] self.mask_words(p, e)[b / 64], b % 64)
                    <==> self.allowed_list(p, e).contains(b as usize)) by {
                assert(word_bit(o.mask_words(p, e)[b / 64], b % 64) <==> o.allowed_list(p, e).contains(
                    b as usize,
                ));
                if p == pa && e == di {
                    lemma_push_contains(o.allowed_list(p, e), allowed_pattern_id, b as usize);
                    assert(self.allowed_list(p, e) == o.allowed_list(p, e).push(allowed_pattern_id));
                    if b / 64 == word_index {
                        lemma_bit_of_set(old_word, bit_index as u64, (b % 64) as u64);
                        assert(old_word == o.mask_words(p, e)[b / 64]);
                        assert(self.mask_words(p, e)[b / 64] == old_word | mask);
                        assert(word_bit(self.mask_words(p, e)[b / 64], b % 64) <==> (word_bit(old_word, b % 64) || b == pb));
                    } else {
                        assert(self.mask_words(p, e)[b / 64] == o.mask_words(p, e)[b / 64]);
                        assert(b != pb);
                    }
                } else {
                    assert(self.allowed_list(p, e) == o.allowed_list(p, e));
                    assert(self.mask_words(p, e) == o.mask_words(p, e));
                }
            }
            assert forall|p: int, e: int, b: int|
                0 <= p < n && 0 <= e < 4 && n <= b < 64 * ((n + 63) / 64) implies !word_bit(
                #[trigger] self.mask_words(p, e)[b / 64],
                b % 64,
            ) by {
                assert(!word_bit(o.mask_words(p, e)[b / 64], b % 64));
                if p == pa && e == di && b / 64 == word_index {
                    lemma_bit_of_set(old_word, bit_index as u64, (b % 64) as u64);
                    assert(old_word == o.mask_words(p, e)[b / 64]);
                    assert(b % 64 != bit_index);
                } else {
                    assert(self.mask_words(p, e)[b / 64] == o.mask_words(p, e)[b / 64]);
                }
            }
            assert forall|a: int, b: int, e: int|
                0 <= a < n && 0 <= b < n && 0 <= e < 4 implies (#[trigger] self.supporter_list(b, e).contains(a as usize)
                    <==> #[trigger] self.allowed_list(a, e).contains(b as usize)) by {
                assert(o.supporter_list(b, e).contains(a as usize) <==> o.allowed_list(a, e).contains(
                    b as usize,
                ));
                lemma_push_contains(o.supporter_list(b, e), pattern_id, a as usize);
                lemma_push_contains(o.allowed_list(a, e), allowed_pattern_id, b as usize);
            }
            assert forall|p: int, e: int| 0 <= p < n && 0 <= e < 4 implies #[trigger] self.supporter_bit_list(p, e)
                == self.supporter_list(p, e).map_values(|a: usize| bit_of(a)) by {
                assert(o.supporter_bit_list(p, e) == o.supporter_list(p, e).map_values(|a: usize| bit_of(a)));
                if p == pb && e == di {
                    assert(self.supporter_list(p, e).map_values(|a: usize| bit_of(a)) =~= o.supporter_list(
                        p, e).map_values(|a: usize| bit_of(a)).push(bit_of(pattern_id)));
                    assert(bit_of(pattern_id) == supporter_bit);
                }
            }
        }
    }

    /// The patterns that allow `pattern_id` on their `direction` side.
    pub fn get_supporters(&self, pattern_id: PatternId, direction: Direction) -> (r: &[PatternId])
        requires
            self.wf(),
            pattern_id < self.pattern_count(),
        ensures
            r@ == self.supporter_list(pattern_id as int, direction_index(direction)),
    {
        let d = direction.to_index();
        self.supporters[pattern_id][d].as_slice()
    }

    /// Word and mask of each pattern that allows `pattern_id` on its `direction` side.
    pub fn get_supporter_bits(&self, pattern_id: PatternId, direction: Direction) -> (r: &[SupporterBit])
        requires
            self.wf(),
            pattern_id < self.pattern_count(),
        ensures
            r@ == self.supporter_list(pattern_id as int, direction_index(direction)).map_values(
                |a: usize| bit_of(a),
            ),
    {
        let d = direction.to_index();
        proof {
            assert(self.supporter_bit_list(pattern_id as int, d as int) == self.supporter_list(
                pattern_id as int,
                d as int,
            ).map_values(|a: usize| bit_of(a)));
        }
        self.supporter_bits[pattern_id][d].as_slice()
    }

    /// The patterns allowed on the `direction` side of `pattern_id`.
    pub fn get_allowed_patterns(&self, pattern_id: PatternId, direction: Direction) -> (r: &[PatternId])
        requires
            pattern_id < self.pattern_count(),
        ensures
            r@ == self.allowed_list(pattern_id as int, direction_index(direction)),
    {
        let d = direction.to_index();
        self.allowed[pattern_id][d].as_slice()
    }

    /// The words of the set of patterns allowed on the `direction` side of `pattern_id`.
    pub fn get_allowed_mask(&self, pattern_id: PatternId, direction: Direction) -> (r: &[u64])
        requires
            self.wf(),
            pattern_id < self.pattern_count(),
        ensures
            r@ == self.mask_words(pattern_id as int, direction_index(direction)),
    {
        let d = direction.to_index();
        self.allowed_masks[pattern_id][d].as_slice()
    }

    /// Number of patterns the rules speak of.
    pub fn len(&self) -> (r: usize)
        ensures
            r == self.pattern_count(),
    {
        self.allowed.len()
    }

    /// Allows, for every ordered pair of patterns and every direction, the second pattern on that
    /// side of the first when their pixels agree where they overlap.
    pub fn compute_rules(&mut self, patterns: &[Pattern])
        requires
            old(self).wf(),
            forall|i: int|
                0 <= i < patterns@.len() ==> (#[trigger] patterns@[i]).wf() && patterns@[i].id
                    < old(self).pattern_count(),
        ensures
            final(self).wf(),
            final(self).pattern_count() == old(self).pattern_count(),
            forall|p: int, d: int|
                0 <= p < old(self).pattern_count() && 0 <= d < 4 ==> #[trigger] final(self).allowed_list(p, d)
                    == old(self).allowed_list(p, d) + rule_additions(
                    patterns@,
                    p,
                    d,
                    patterns@.len() as int,
                ),
            forall|q: int, d: int|
                0 <= q < old(self).pattern_count() && 0 <= d < 4 ==> #[trigger] final(self).supporter_list(q, d)
                    == old(self).supporter_list(q, d) + supporter_additions(patterns@, q, d, patterns@.len() as int),
    {
        let n = patterns.len();
        let ghost count = old(self).pattern_count();
        let directions = all_directions();
        let mut i: usize = 0;
        while i < n
            invariant
                i <= n,
                n == patterns@.len(),
                self.wf(),
                self.pattern_count() == count,
                forall|k: int| 0 <= k < 4 ==> directions[k] == direction_of_index(k) && direction_index(directions[k]) == k,
                forall|q: int|
                    0 <= q < patterns@.len() ==> (#[trigger] patterns@[q]).wf() && patterns@[q].id < count,
                forall|p: int, d: int|
                    0 <= p < count && 0 <= d < 4 ==> #[trigger] self.allowed_list(p, d)
                        == old(self).allowed_list(p, d) + rule_additions(patterns@, p, d, i as int),
                forall|q: int, d: int|
                    0 <= q < count && 0 <= d < 4 ==> #[trigger] self.supporter_list(q, d)
                        == old(self).supporter_list(q, d) + supporter_additions(patterns@, q, d, i as int),
            decreases n - i,
        {
            let mut j: usize = 0;
            while j < n
                invariant
                    i < n,
                    j <= n,
                    n == patterns@.len(),
                    self.wf(),
                    self.pattern_count() == count,
                    forall|k: int| 0 <= k < 4 ==> directions[k] == direction_of_index(k) && direction_index(directions[k]) == k,
                    forall|q: int|
                        0 <= q < patterns@.len() ==> (#[trigger] patterns@[q]).wf() && patterns@[q].id < count,
                    forall|p: int, d: int|
                        0 <= p < count && 0 <= d < 4 ==> #[trigger] self.allowed_list(p, d)
                            == old(self).allowed_list(p, d) + rule_additions(patterns@, p, d, i as int)
                            + row_additions(patterns@, p, d, i as int, j as int),
                    forall|q: int, d: int|
                        0 <= q < count && 0 <= d < 4 ==> #[trigger] self.supporter_list(q, d)
                            == old(self).supporter_list(q, d) + supporter_additions(patterns@, q, d, i as int)
                            + supporter_row(patterns@, q, d, i as int, j as int),
                decreases n - j,
            {
                let mut k: usize = 0;
                while k < 4
                    invariant
                        i < n,
                        j < n,
                        k <= 4,
                        n == patterns@.len(),
                        self.wf(),
                        self.pattern_count() == count,
                        forall|k2: int| 0 <= k2 < 4 ==> directions[k2] == direction_of_index(k2) && direction_index(directions[k2]) == k2,
                        forall|q: int|
                            0 <= q < patterns@.len() ==> (#[trigger] patterns@[q]).wf() && patterns@[q].id < count,
                        forall|p: int, d: int|
                            0 <= p < count && 0 <= d < 4 ==> #[trigger] self.allowed_list(p, d)
                                == old(self).allowed_list(p, d) + rule_additions(patterns@, p, d, i as int)
                                + row_additions(patterns@, p, d, i as int, j as int) + (if d < k
                                && patterns@[i as int].id == p && may_neighbor(
                                patterns@[i as int],
                                patterns@[j as int],
                                direction_of_index(d),
                            ) {
                                seq![patterns@[j as int].id]
                            } else {
                                Seq::<usize>::empty()
                            }),
                        forall|q: int, d: int|
                            0 <= q < count && 0 <= d < 4 ==> #[trigger] self.supporter_list(q, d)
                                == old(self).supporter_list(q, d) + supporter_additions(patterns@, q, d, i as int)
                                + supporter_row(patterns@, q, d, i as int, j as int) + (if d < k
                                && patterns@[j as int].id == q && may_neighbor(
                                patterns@[i as int],
                                patterns@[j as int],
                                direction_of_index(d),
                            ) {
                                seq![patterns@[i as int].id]
                            } else {
                                Seq::<usize>::empty()
                            }),
                    decreases 4 - k,
                {
                    let direction = directions[k];
                    let pattern_a = &patterns[i];
                    let pattern_b = &patterns[j];
                    let ghost before = *self;
                    assert(direction_index(direction) == k && direction == direction_of_index(k as int));
                    if pattern_a.overlaps(pattern_b, direction) {
                        self.allow(pattern_a.get_id(), direction, pattern_b.get_id());
                    }
                    proof {
                        assert forall|p: int, d: int| 0 <= p < count && 0 <= d < 4 implies #[trigger] self.allowed_list(p, d)
                            == old(self).allowed_list(p, d) + rule_additions(patterns@, p, d, i as int)
                            + row_additions(patterns@, p, d, i as int, j as int) + (if d < k + 1
                            && patterns@[i as int].id == p && may_neighbor(
                            patterns@[i as int],
                            patterns@[j as int],
                            direction_of_index(d),
                        ) {
                            seq![patterns@[j as int].id]
                        } else {
                            Seq::<usize>::empty()
                        }) by {
                            let base = old(self).allowed_list(p, d) + rule_additions(patterns@, p, d, i as int)
                                + row_additions(patterns@, p, d, i as int, j as int);
                            let cond = patterns@[i as int].id == p && may_neighbor(
                                patterns@[i as int], patterns@[j as int], direction_of_index(d));
                            let x_before = if d < k && cond { seq![patterns@[j as int].id] } else { Seq::<usize>::empty() };
                            assert(before.allowed_list(p, d) == base + x_before);
                            assert(base + Seq::<usize>::empty() =~= base);
                            if d == k as int {
                                assert(x_before == Seq::<usize>::empty());
                                assert(direction == direction_of_index(d));
                                if cond {
                                    assert(self.allowed_list(p, d) == before.allowed_list(p, d).push(patterns@[j as int].id));
                                    assert(base.push(patterns@[j as int].id) =~= base + seq![patterns@[j as int].id]);
                                } else {
                                    assert(self.allowed_list(p, d) == before.allowed_list(p, d));
                                }
                            } else {
                                assert(self.allowed_list(p, d) == before.allowed_list(p, d));
                            }
                        }
                        assert forall|q: int, d: int| 0 <= q < count && 0 <= d < 4 implies #[trigger] self.supporter_list(q, d)
                            == old(self).supporter_list(q, d) + supporter_additions(patterns@, q, d, i as int)
                            + supporter_row(patterns@, q, d, i as int, j as int) + (if d < k + 1
                            && patterns@[j as int].id == q && may_neighbor(
                            patterns@[i as int],
                            patterns@[j as int],
                            direction_of_index(d),
                        ) {
                            seq![patterns@[i as int].id]
                        } else {
                            Seq::<usize>::empty()
                        }) by {
                            let base = old(self).supporter_list(q, d) + supporter_additions(patterns@, q, d, i as int)
                                + supporter_row(patterns@, q, d, i as int, j as int);
                            let cond = patterns@[j as int].id == q && may_neighbor(
                                patterns@[i as int], patterns@[j as int], direction_of_index(d));
                            let x_before = if d < k && cond { seq![patterns@[i as int].id] } else { Seq::<usize>::empty() };
                            assert(before.supporter_list(q, d) == base + x_before);
                            assert(base + Seq::<usize>::empty() =~= base);
                            if d == k as int {
                                assert(x_before == Seq::<usize>::empty());
                                assert(direction == direction_of_index(d));
                                if cond {
                                    assert(self.supporter_list(q, d) == before.supporter_list(q, d).push(patterns@[i as int].id));
                                    assert(base.push(patterns@[i as int].id) =~= base + seq![patterns@[i as int].id]);
                                } else {
                                    assert(self.supporter_list(q, d) == before.supporter_list(q, d));
                                }
                            } else {
                                assert(self.supporter_list(q, d) == before.supporter_list(q, d));
                            }
                        }
                    }
                    k = k + 1;
                }
                proof {
                    assert forall|p: int, d: int| 0 <= p < count && 0 <= d < 4 implies #[trigger] self.allowed_list(p, d)
                        == old(self).allowed_list(p, d) + rule_additions(patterns@, p, d, i as int)
                        + row_additions(patterns@, p, d, i as int, j + 1) by {
                        let base = old(self).allowed_list(p, d) + rule_additions(patterns@, p, d, i as int);
                        let row = row_additions(patterns@, p, d, i as int, j as int);
                        if patterns@[i as int].id == p && may_neighbor(patterns@[i as int], patterns@[j as int], direction_of_index(d)) {
                            assert(base + row + seq![patterns@[j as int].id] =~= base + row.push(patterns@[j as int].id));
                        } else {
                            assert(base + row + Seq::<usize>::empty() =~= base + row);
                        }
                    }
                    assert forall|q: int, d: int| 0 <= q < count && 0 <= d < 4 implies #[trigger] self.supporter_list(q, d)
                        == old(self).supporter_list(q, d) + supporter_additions(patterns@, q, d, i as int)
                        + supporter_row(patterns@, q, d, i as int, j + 1) by {
                        let base = old(self).supporter_list(q, d) + supporter_additions(patterns@, q, d, i as int);
                        let row = supporter_row(patterns@, q, d, i as int, j as int);
                        if patterns@[j as int].id == q && may_neighbor(patterns@[i as int], patterns@[j as int], direction_of_index(d)) {
                            assert(base + row + seq![patterns@[i as int].id] =~= base + row.push(patterns@[i as int].id));
                        } else {
                            assert(base + row + Seq::<usize>::empty() =~= base + row);
                        }
                    }
                }
                j = j + 1;
            }
            proof {
                assert forall|p: int, d: int| 0 <= p < count && 0 <= d < 4 implies #[trigger] self.allowed_list(p, d)
                    == old(self).allowed_list(p, d) + rule_additions(patterns@, p, d, i + 1) by {
                    let ra = rule_additions(patterns@, p, d, i as int);
                    let row = row_additions(patterns@, p, d, i as int, n as int);
                    assert(old(self).allowed_list(p, d) + ra + row =~= old(self).allowed_list(p, d) + (ra + row));
                }
                assert forall|q: int, d: int| 0 <= q < count && 0 <= d < 4 implies #[trigger] self.supporter_list(q, d)
                    == old(self).supporter_list(q, d) + supporter_additions(patterns@, q, d, i + 1) by {
                    let sa = supporter_additions(patterns@, q, d, i as int);
                    let row = supporter_row(patterns@, q, d, i as int, n as int);
                    assert(old(self).supporter_list(q, d) + sa + row =~= old(self).supporter_list(q, d) + (sa + row));
                }
            }
            i = i + 1;
        }
    }

    proof fn lemma_rule_count_monotonic(&self, a: int, b: int)
        requires
            a <= b,
        ensures
            self.rule_count_below(a) <= self.rule_count_below(b),
        decreases b - a,
    {
        if a < b {
            self.lemma_rule_count_monotonic(a, b - 1);
        }
    }

    /// Number of (pattern, direction, allowed pattern) entries.
    pub fn count_rules(&self) -> (r: usize)
        requires
            self.rule_count_below(self.pattern_count()) <= usize::MAX,
        ensures
            r == self.rule_count_below(self.pattern_count()),
    {
        let n = self.allowed.len();
        let mut total: usize = 0;
        let mut p: usize = 0;
        while p < n
            invariant
                p <= n,
                n == self.allowed@.len(),
                n == self.pattern_count(),
                self.rule_count_below(n as int) <= usize::MAX,
                total == self.rule_count_below(p as int),
            decreases n - p,
        {
            proof {
                self.lemma_rule_count_monotonic(p + 1, n as int);
            }
            total = total + self.allowed[p][0].len() + self.allowed[p][1].len() + self.allowed[p][2].len()
                + self.allowed[p][3].len();
            p = p + 1;
        }
        total
    }
}

/// A pushed sequence holds what it held and the pushed value.
pub proof fn lemma_push_contains(s: Seq<PatternId>, v: PatternId, x: PatternId)
    ensures
        s.push(v).contains(x) <==> (s.contains(x) || x == v),
{
    if s.contains(x) {
        let i = choose|i: int| 0 <= i < s.len() && s[i] == x;
        assert(s.push(v)[i] == x);
    }
    if x == v {
        assert(s.push(v)[s.len() as int] == x);
    }
    if s.push(v).contains(x) && x != v {
        let i = choose|i: int| 0 <= i < s.len() + 1 && s.push(v)[i] == x;
        assert(s[i] == x);
    }
}

/// Pattern `b` (one of the first `k`) is among the neighbor ids of pattern `a` exactly when it may
/// stand on that side of `a`.
pub proof fn lemma_neighbor_ids_contains(patterns: Seq<Pattern>, a: int, direction: Direction, k: int, b: int)
    requires
        0 <= b < k <= usize::MAX,
    ensures
        neighbor_ids(patterns, a, direction, k).contains(b as usize) == may_neighbor(patterns[a], patterns[b], direction),
    decreases k,
{
    lemma_neighbor_ids_below(patterns, a, direction, k - 1);
    let prev = neighbor_ids(patterns, a, direction, k - 1);
    if b < k - 1 {
        lemma_neighbor_ids_contains(patterns, a, direction, k - 1, b);
        if may_neighbor(patterns[a], patterns[k - 1], direction) {
            let ids = prev.push((k - 1) as usize);
            if ids.contains(b as usize) {
                let i = choose|i: int| 0 <= i < ids.len() && ids[i] == b as usize;
                if i < prev.len() {
                    assert(prev[i] == b as usize);
                }
            }
            if prev.contains(b as usize) {
                let i = choose|i: int| 0 <= i < prev.len() && prev[i] == b as usize;
                assert(ids[i] == b as usize);
            }
        }
    } else {
        if prev.contains(b as usize) {
            let i = choose|i: int| 0 <= i < prev.len() && prev[i] == b as usize;
            assert(prev[i] < k - 1);
        }
        if may_neighbor(patterns[a], patterns[k - 1], direction) {
            let ids = prev.push((k - 1) as usize);
            assert(ids[prev.len() as int] == b as usize);
        }
    }
}

/// Every neighbor id is below the number of patterns looked at.
proof fn lemma_neighbor_ids_below(patterns: Seq<Pattern>, a: int, direction: Direction, k: int)
    requires
        k <= usize::MAX,
    ensures
        forall|i: int| 0 <= i < neighbor_ids(patterns, a, direction, k).len() ==> #[trigger] neighbor_ids(patterns, a, direction, k)[i] < k,
    decreases k,
{
    if k > 0 {
        lemma_neighbor_ids_below(patterns, a, direction, k - 1);
        let prev = neighbor_ids(patterns, a, direction, k - 1);
        if may_neighbor(patterns[a], patterns[k - 1], direction) {
            let ids = prev.push((k - 1) as usize);
            assert forall|i: int| 0 <= i < ids.len() implies #[trigger] ids[i] < k by {
                if i < prev.len() {
                    assert(ids[i] == prev[i]);
                }
            }
        }
    }
}

} // verus!
