use vstd::prelude::*;

use std::collections::VecDeque;

use rand::rngs::StdRng;

use crate::bitset::{count_true, positions, word_bit, lemma_positions, lemma_mask_test, lemma_count_true_zero};
use crate::cell::{Cell, weight_total, lemma_weight_total_bound, lemma_weight_total_update, lemma_weight_total_le, lemma_weight_total_all_false};
use crate::direction::{Direction, all_directions, direction_index, direction_of_index};
use crate::entropy_heap::{EntropyHeap, comes_first};
use crate::model::WfcModel;
use crate::pattern::PatternId;
use crate::random::random_below;
use crate::rules::{AdjacencyRules, bit_of, lemma_push_contains};
use crate::undo_log::{UndoEntry, UndoLog};
use crate::wave::{PatternRemovalResult, Wave, removal_result, neighbor_spec, unresolved_flags, contradiction_flags, collapsed_pattern};

verus! {

/// How many decisions can be taken back.
pub const MAX_BACKTRACK_DEPTH: usize = 256;

/// How many removals the undo history keeps at most.
pub const MAX_UNDO_ENTRIES: usize = 8_000_000;

/// Counters of the work done by propagation.
#[derive(Debug, Clone, Copy)]
pub struct PropagationStats {
    pub queue_pops: usize,
    pub removals_processed: usize,
    pub neighbor_checks: usize,
    pub allowed_entries_processed: usize,
    pub affected_patterns: usize,
    pub support_checks: usize,
    pub removed_patterns: usize,
}

impl PropagationStats {
    /// All counters at zero.
    pub open spec fn zero_spec() -> Self {
        Self {
            queue_pops: 0,
            removals_processed: 0,
            neighbor_checks: 0,
            allowed_entries_processed: 0,
            affected_patterns: 0,
            support_checks: 0,
            removed_patterns: 0,
        }
    }

    /// All counters at zero.
    pub fn zero() -> (r: Self)
        ensures
            r == Self::zero_spec(),
    {
        Self {
            queue_pops: 0,
            removals_processed: 0,
            neighbor_checks: 0,
            allowed_entries_processed: 0,
            affected_patterns: 0,
            support_checks: 0,
            removed_patterns: 0,
        }
    }
}

/// Counters of the decisions taken and taken back.
#[derive(Debug, Clone, Copy)]
pub struct BacktrackingStats {
    pub decisions: usize,
    pub backtracks: usize,
    pub successful_backtracks: usize,
    pub rejected_patterns: usize,
    pub restored_patterns: usize,
    pub committed_decisions: usize,
    pub history_overflows: usize,
    pub peak_undo_entries: usize,
    pub peak_decision_depth: usize,
}

impl BacktrackingStats {
    /// The same counters with one more successful backtrack, the count staying at its maximum.
    pub open spec fn with_one_more_success(self) -> Self {
        Self {
            successful_backtracks: if self.successful_backtracks < usize::MAX {
                (self.successful_backtracks + 1) as usize
            } else {
                self.successful_backtracks
            },
            ..self
        }
    }

    /// All counters at zero.
    pub open spec fn zero_spec() -> Self {
        Self {
            decisions: 0,
            backtracks: 0,
            successful_backtracks: 0,
            rejected_patterns: 0,
            restored_patterns: 0,
            committed_decisions: 0,
            history_overflows: 0,
            peak_undo_entries: 0,
            peak_decision_depth: 0,
        }
    }

    /// All counters at zero.
    pub fn zero() -> (r: Self)
        ensures
            r == Self::zero_spec(),
    {
        Self {
            decisions: 0,
            backtracks: 0,
            successful_backtracks: 0,
            rejected_patterns: 0,
            restored_patterns: 0,
            committed_decisions: 0,
            history_overflows: 0,
            peak_undo_entries: 0,
            peak_decision_depth: 0,
        }
    }
}

impl Default for PropagationStats {
    fn default() -> (r: Self)
        ensures
            r == Self::zero_spec(),
    {
        Self::zero()
    }
}

impl Default for BacktrackingStats {
    fn default() -> (r: Self)
        ensures
            r == Self::zero_spec(),
    {
        Self::zero()
    }
}

/// How many observations and runs of propagation the rounds of solving made.
#[derive(Debug, Clone, Copy)]
pub struct SolveCounts {
    pub observations: usize,
    pub propagation_calls: usize,
}

impl SolveCounts {
    /// Both counters at zero.
    pub open spec fn zero_spec() -> Self {
        Self { observations: 0, propagation_calls: 0 }
    }

    /// Both counters at zero.
    pub fn zero() -> (r: Self)
        ensures
            r == Self::zero_spec(),
    {
        Self { observations: 0, propagation_calls: 0 }
    }
}

/// What a round of solving came to.
#[derive(Debug, Clone, Copy, PartialEq, Eq, Structural)]
pub enum SolveStep {
    /// Every cell holds exactly one pattern.
    Solved,
    /// The solver gave up: nothing is left to take back, or no cell could be observed.
    Failed,
    /// Work remains.
    Running,
}

/// A choice of a pattern for a cell, with the undo checkpoint from before it.
#[derive(Debug, Clone, Copy)]
pub struct Decision {
    pub cell_index: usize,
    pub chosen_pattern_id: PatternId,
    pub undo_checkpoint: u64,
}

/// Every undo entry names a cell and a pattern of the wave, that pattern is impossible in that
/// cell, and no (cell, pattern) pair occurs twice.
pub open spec fn undo_entries_ok(entries: Seq<UndoEntry>, cells: Seq<Cell>, patterns: nat) -> bool {
    &&& forall|i: int|
        0 <= i < entries.len() ==> (#[trigger] entries[i]).cell() < cells.len() && entries[i].pattern()
            < patterns && !cells[entries[i].cell() as int].possible()[entries[i].pattern() as int]
    &&& forall|i: int, j: int|
        0 <= i < j < entries.len() ==> (#[trigger] entries[i]).cell() != (#[trigger] entries[j]).cell()
            || entries[i].pattern() != entries[j].pattern()
}

/// The possible patterns of each cell.
pub open spec fn possible_sets(cells: Seq<Cell>) -> Seq<Seq<bool>> {
    Seq::new(cells.len(), |c: int| cells[c].possible())
}

/// Decision `i`'s record of pattern `p` in cell `c` is the present value in `cells` with the
/// removals logged since the decision's checkpoint put back.
pub open spec fn decision_state_ok(
    records: Seq<Seq<Seq<bool>>>,
    decisions: Seq<Decision>,
    cells: Seq<Cell>,
    entries: Seq<UndoEntry>,
    base: nat,
    i: int,
    c: int,
    p: int,
) -> bool {
    records[i][c][p] == (cells[c].possible()[p] || recorded(entries.skip(decisions[i].undo_checkpoint - base), c, p))
}

/// One record per decision, each over every cell and pattern, agreeing with `cells` and the log
/// (see `decision_state_ok`), but for pattern `xp` of cell `xc`, which every record holds; each
/// record holds its decision's chosen pattern in its cell.
pub open spec fn records_restorable(
    records: Seq<Seq<Seq<bool>>>,
    decisions: Seq<Decision>,
    cells: Seq<Cell>,
    entries: Seq<UndoEntry>,
    base: nat,
    n: nat,
    xc: int,
    xp: int,
) -> bool {
    &&& records.len() == decisions.len()
    &&& forall|i: int|
        0 <= i < records.len() ==> (#[trigger] records[i]).len() == cells.len() && forall|k: int|
            0 <= k < cells.len() ==> (#[trigger] records[i][k]).len() == n
    &&& forall|i: int, k: int, q: int|
        0 <= i < records.len() && 0 <= k < cells.len() && 0 <= q < n && (k != xc || q != xp)
            ==> #[trigger] decision_state_ok(records, decisions, cells, entries, base, i, k, q)
    &&& 0 <= xc < cells.len() && 0 <= xp < n ==> forall|i: int| 0 <= i < records.len() ==> #[trigger] records[i][xc][xp]
    &&& forall|i: int|
        0 <= i < records.len() ==> #[trigger] records[i][decisions[i].cell_index as int][decisions[i].chosen_pattern_id as int]
}

/// Some pattern still possible in cell `source` allows `pattern` on its side `d`.
pub open spec fn supported_from(cells: Seq<Cell>, rules: AdjacencyRules, source: int, d: int, pattern: int) -> bool {
    exists|p: int|
        0 <= p < cells[source].possible().len() && #[trigger] cells[source].possible()[p]
            && rules.allowed_list(p, d).contains(pattern as usize)
}

/// In a `width` by `height` grid, cell `j` has a neighbor `source` such that `j` lies on the `d`
/// side of `source` and no pattern still possible in `source` allows `pattern` there.
pub open spec fn unsupported_somewhere(width: int, height: int, cells: Seq<Cell>, rules: AdjacencyRules, j: int, pattern: int) -> bool {
    exists|source: int, d: int|
        0 <= source < cells.len() && 0 <= d < 4 && #[trigger] neighbor_spec(
            width,
            height,
            source % width,
            source / width,
            direction_of_index(d),
        ) == Some(j) && !#[trigger] supported_from(cells, rules, source, d, pattern)
}

/// Every cell of `b` allows only patterns that the same cell of `a` allows.
pub open spec fn cells_shrunk(a: Seq<Cell>, b: Seq<Cell>, n: nat) -> bool {
    &&& a.len() == b.len()
    &&& forall|c: int, p: int| 0 <= c < a.len() && 0 <= p < n && #[trigger] b[c].possible()[p] ==> a[c].possible()[p]
    &&& forall|c: int| 0 <= c < a.len() ==> (#[trigger] b[c]).possible().len() == a[c].possible().len()
}

/// Every pattern possible in `a` but not in `b` is unsupported somewhere in `b`.
pub open spec fn removals_justified(width: int, height: int, a: Seq<Cell>, b: Seq<Cell>, rules: AdjacencyRules, n: nat) -> bool {
    forall|c: int, p: int|
        0 <= c < a.len() && 0 <= p < n && a[c].possible()[p] && !#[trigger] b[c].possible()[p] ==> unsupported_somewhere(
            width,
            height,
            b,
            rules,
            c,
            p,
        )
}

/// A removal waiting in `pending` for cell `c` is a pattern that allows `q` on its side `d`.
pub open spec fn pending_allows(pending: Seq<Vec<PatternId>>, rules: AdjacencyRules, c: int, d: int, q: int) -> bool {
    exists|k: int|
        0 <= k < pending[c]@.len() && #[trigger] rules.allowed_list(pending[c]@[k] as int, d).contains(q as usize)
}

/// Cell `c` is `taken` and a removal that was waiting for it in `pending` allows `q` on its side
/// `d`.
pub open spec fn allowed_by_taken(pending: Seq<Vec<PatternId>>, rules: AdjacencyRules, taken: int, c: int, d: int, q: int) -> bool {
    c == taken && pending_allows(pending, rules, c, d, q)
}

/// Pattern `q` is still possible on the side `d` of cell `c` for a reason: a pattern left in `c`
/// allows it there, a removal waiting for `c` allowed it, `extra` holds, or neither of the first
/// two held in the starting state (`cells0`, `pending0`).
pub open spec fn support_accounted(
    width: int,
    height: int,
    cells: Seq<Cell>,
    pending: Seq<Vec<PatternId>>,
    cells0: Seq<Cell>,
    pending0: Seq<Vec<PatternId>>,
    rules: AdjacencyRules,
    c: int,
    d: int,
    q: int,
    extra: bool,
) -> bool {
    match neighbor_spec(width, height, c % width, c / width, direction_of_index(d)) {
        Some(j) => cells[j].possible()[q] ==> supported_from(cells, rules, c, d, q) || pending_allows(
            pending,
            rules,
            c,
            d,
            q,
        ) || extra || (!supported_from(cells0, rules, c, d, q) && !pending_allows(pending0, rules, c, d, q)),
        None => true,
    }
}

/// Pattern `q`, if possible on the side `d` of cell `c`, is allowed there by some pattern left in
/// `c`, or in the starting state (`cells0`, `pending0`) no pattern of `c` allowed it and no removal
/// waiting for `c` had allowed it either.
pub open spec fn support_settled(
    width: int,
    height: int,
    cells: Seq<Cell>,
    cells0: Seq<Cell>,
    pending0: Seq<Vec<PatternId>>,
    rules: AdjacencyRules,
    c: int,
    d: int,
    q: int,
) -> bool {
    match neighbor_spec(width, height, c % width, c / width, direction_of_index(d)) {
        Some(j) => cells[j].possible()[q] ==> supported_from(cells, rules, c, d, q) || (!supported_from(
            cells0,
            rules,
            c,
            d,
            q,
        ) && !pending_allows(pending0, rules, c, d, q)),
        None => true,
    }
}

/// After propagation from the state (`cells0`, `pending0`), every pattern's place is settled (see
/// `support_settled`).
pub open spec fn propagation_complete(
    width: int,
    height: int,
    cells: Seq<Cell>,
    cells0: Seq<Cell>,
    pending0: Seq<Vec<PatternId>>,
    rules: AdjacencyRules,
    n: nat,
) -> bool {
    forall|c: int, d: int, q: int|
        0 <= c < cells.len() && 0 <= d < 4 && 0 <= q < n ==> #[trigger] support_settled(
            width,
            height,
            cells,
            cells0,
            pending0,
            rules,
            c,
            d,
            q,
        )
}

/// Some pattern possible in cell `c` of `sets` allows `q` on its side `d`.
pub open spec fn allowed_by_some(sets: Seq<Seq<bool>>, rules: AdjacencyRules, c: int, d: int, q: int) -> bool {
    exists|p: int| 0 <= p < sets[c].len() && #[trigger] sets[c][p] && rules.allowed_list(p, d).contains(q as usize)
}

/// Pattern `q`, if possible in the neighbor on the side `d` of cell `c`, is allowed there by some
/// pattern possible in `c`.
pub open spec fn locally_consistent(width: int, height: int, sets: Seq<Seq<bool>>, rules: AdjacencyRules, c: int, d: int, q: int) -> bool {
    match neighbor_spec(width, height, c % width, c / width, direction_of_index(d)) {
        Some(j) => sets[j][q] ==> allowed_by_some(sets, rules, c, d, q),
        None => true,
    }
}

/// Arc consistency of the possible patterns `sets` of a `width` by `height` grid: each pattern
/// possible in a cell is allowed there by each of the cell's neighbors.
pub open spec fn arc_consistent(width: int, height: int, sets: Seq<Seq<bool>>, rules: AdjacencyRules, n: nat) -> bool {
    forall|c: int, d: int, q: int|
        0 <= c < sets.len() && 0 <= d < 4 && 0 <= q < n ==> #[trigger] locally_consistent(width, height, sets, rules, c, d, q)
}

/// Pattern `q`, if possible on the side `d` of cell `c`, is allowed there by a pattern left in `c`
/// or by a removal waiting for `c`.
pub open spec fn accounted_for(
    width: int,
    height: int,
    cells: Seq<Cell>,
    pending: Seq<Vec<PatternId>>,
    rules: AdjacencyRules,
    c: int,
    d: int,
    q: int,
) -> bool {
    match neighbor_spec(width, height, c % width, c / width, direction_of_index(d)) {
        Some(j) => cells[j].possible()[q] ==> supported_from(cells, rules, c, d, q) || pending_allows(pending, rules, c, d, q),
        None => true,
    }
}

/// Arc consistency up to the removals waiting in `pending` (see `accounted_for`).
pub open spec fn consistent_but_pending(
    width: int,
    height: int,
    cells: Seq<Cell>,
    pending: Seq<Vec<PatternId>>,
    rules: AdjacencyRules,
    n: nat,
) -> bool {
    forall|c: int, d: int, q: int|
        0 <= c < cells.len() && 0 <= d < 4 && 0 <= q < n ==> #[trigger] accounted_for(width, height, cells, pending, rules, c, d, q)
}

/// Some pattern allows `q` on its side `d`.
pub open spec fn has_supporter(rules: AdjacencyRules, n: nat, d: int, q: int) -> bool {
    exists|p: int| 0 <= p < n && rules.allowed_list(p, d).contains(q as usize)
}

/// In every direction, every pattern is allowed there by some pattern.
pub open spec fn every_pattern_supported(rules: AdjacencyRules, n: nat) -> bool {
    forall|d: int, q: int| 0 <= d < 4 && 0 <= q < n ==> #[trigger] has_supporter(rules, n, d, q)
}

/// An arc consistent wave is consistent up to any waiting removals.
proof fn lemma_consistent_with_any_pending(width: int, height: int, cells: Seq<Cell>, pending: Seq<Vec<PatternId>>, rules: AdjacencyRules, n: nat)
    requires
        arc_consistent(width, height, possible_sets(cells), rules, n),
        width >= 0,
        height >= 0,
        cells.len() == width * height,
    ensures
        consistent_but_pending(width, height, cells, pending, rules, n),
{
    let sets = possible_sets(cells);
    assert forall|c: int, d: int, q: int| 0 <= c < cells.len() && 0 <= d < 4 && 0 <= q < n implies #[trigger] accounted_for(
        width,
        height,
        cells,
        pending,
        rules,
        c,
        d,
        q,
    ) by {
        assert(locally_consistent(width, height, sets, rules, c, d, q));
        if let Some(j) = neighbor_spec(width, height, c % width, c / width, direction_of_index(d)) {
            let dir = direction_of_index(d);
            crate::wave::lemma_index_bound(
                c % width + crate::direction::direction_dx(dir),
                c / width + crate::direction::direction_dy(dir),
                width,
                height,
            );
            if cells[j].possible()[q] {
                assert(sets[j][q]);
                let p = choose|p: int| 0 <= p < sets[c].len() && #[trigger] sets[c][p] && rules.allowed_list(p, d).contains(q as usize);
                assert(cells[c].possible()[p]);
            }
        }
    }
}

/// Taking pattern `r` out of cell `x` and queuing that removal keeps the wave consistent up to the
/// waiting removals.
proof fn lemma_pending_removal(
    width: int,
    height: int,
    cells: Seq<Cell>,
    cells2: Seq<Cell>,
    pending: Seq<Vec<PatternId>>,
    pending2: Seq<Vec<PatternId>>,
    rules: AdjacencyRules,
    x: int,
    r: int,
    n: nat,
)
    requires
        consistent_but_pending(width, height, cells, pending, rules, n),
        0 <= x < cells.len(),
        0 <= r < n <= usize::MAX,
        width >= 0,
        height >= 0,
        cells.len() == width * height,
        forall|i: int| 0 <= i < cells.len() ==> (#[trigger] cells[i]).possible().len() == n,
        cells2.len() == cells.len(),
        pending.len() == cells.len(),
        pending2.len() == cells.len(),
        forall|i: int| 0 <= i < cells.len() && i != x ==> #[trigger] cells2[i] == cells[i],
        cells2[x].possible() == cells[x].possible().update(r, false),
        forall|i: int| 0 <= i < cells.len() && i != x ==> #[trigger] pending2[i] == pending[i],
        pending2[x]@ == pending[x]@.push(r as usize),
    ensures
        consistent_but_pending(width, height, cells2, pending2, rules, n),
{
    assert forall|c: int, d: int, q: int| 0 <= c < cells2.len() && 0 <= d < 4 && 0 <= q < n implies #[trigger] accounted_for(
        width,
        height,
        cells2,
        pending2,
        rules,
        c,
        d,
        q,
    ) by {
        assert(accounted_for(width, height, cells, pending, rules, c, d, q));
        assert(support_accounted(width, height, cells, pending, cells, pending, rules, c, d, q, false));
        lemma_accounted_removal(width, height, cells, cells2, pending, pending2, cells, pending, rules, x, r, c, d, q, false, n);
        if let Some(j) = neighbor_spec(width, height, c % width, c / width, direction_of_index(d)) {
            let dir = direction_of_index(d);
            crate::wave::lemma_index_bound(
                c % width + crate::direction::direction_dx(dir),
                c / width + crate::direction::direction_dy(dir),
                width,
                height,
            );
            if cells2[j].possible()[q] {
                if j != x {
                    assert(cells2[j] == cells[j]);
                } else {
                    assert(cells[j].possible()[q]);
                }
            }
        }
    }
}

/// Propagation that settled from a state consistent up to its waiting removals leaves an arc
/// consistent wave.
proof fn lemma_settled_consistent(
    width: int,
    height: int,
    cells0: Seq<Cell>,
    pending0: Seq<Vec<PatternId>>,
    cells1: Seq<Cell>,
    rules: AdjacencyRules,
    n: nat,
)
    requires
        consistent_but_pending(width, height, cells0, pending0, rules, n),
        cells_shrunk(cells0, cells1, n),
        propagation_complete(width, height, cells1, cells0, pending0, rules, n),
        width >= 0,
        height >= 0,
        cells0.len() == width * height,
        forall|i: int| 0 <= i < cells0.len() ==> (#[trigger] cells0[i]).possible().len() == n,
    ensures
        arc_consistent(width, height, possible_sets(cells1), rules, n),
{
    let sets = possible_sets(cells1);
    assert forall|c: int, d: int, q: int| 0 <= c < sets.len() && 0 <= d < 4 && 0 <= q < n implies #[trigger] locally_consistent(
        width,
        height,
        sets,
        rules,
        c,
        d,
        q,
    ) by {
        assert(accounted_for(width, height, cells0, pending0, rules, c, d, q));
        assert(support_settled(width, height, cells1, cells0, pending0, rules, c, d, q));
        if let Some(j) = neighbor_spec(width, height, c % width, c / width, direction_of_index(d)) {
            let dir = direction_of_index(d);
            crate::wave::lemma_index_bound(
                c % width + crate::direction::direction_dx(dir),
                c / width + crate::direction::direction_dy(dir),
                width,
                height,
            );
            if sets[j][q] {
                assert(cells1[j].possible()[q]);
                assert(cells0[j].possible()[q]);
                assert(supported_from(cells1, rules, c, d, q));
                let p = choose|p: int|
                    0 <= p < cells1[c].possible().len() && #[trigger] cells1[c].possible()[p] && rules.allowed_list(p, d).contains(q as usize);
                assert(sets[c][p]);
            }
        }
    }
}

/// In an arc consistent wave, every two decided neighbors hold patterns that the rules allow side
/// by side.
pub proof fn lemma_consistent_wave_keeps_rules(wave: Wave, rules: AdjacencyRules)
    requires
        wave.wf(),
        wave.patterns() <= usize::MAX,
        arc_consistent(
            wave.width_spec() as int,
            wave.height_spec() as int,
            possible_sets(wave.cells_view()),
            rules,
            wave.patterns(),
        ),
    ensures
        wave.constraints_hold(rules),
{
    let cells = wave.cells_view();
    let sets = possible_sets(cells);
    let w = wave.width_spec() as int;
    let h = wave.height_spec() as int;
    assert forall|i: int, d: int| 0 <= i < cells.len() && 0 <= d < 4 implies #[trigger] wave.pair_ok(rules, i, d) by {
        if let Some(p) = collapsed_pattern(cells[i]) {
            if let Some(j) = wave.neighbor(i % w, i / w, direction_of_index(d)) {
                let dir = direction_of_index(d);
                crate::wave::lemma_index_bound(
                    i % w + crate::direction::direction_dx(dir),
                    i / w + crate::direction::direction_dy(dir),
                    w,
                    h,
                );
                if let Some(q) = collapsed_pattern(cells[j]) {
                    assert(cells[j].wf());
                    crate::wave::lemma_single_position(cells[j].possible());
                    crate::wave::lemma_single_position(cells[i].possible());
                    lemma_positions(cells[j].possible());
                    assert(cells[j].possible()[q as int]);
                    assert(sets[j][q as int]);
                    assert(locally_consistent(w, h, sets, rules, i, d, q as int));
                    let p2 = choose|p2: int| 0 <= p2 < sets[i].len() && #[trigger] sets[i][p2] && rules.allowed_list(p2, d).contains(q);
                    assert(cells[i].possible()[p2]);
                    assert(p2 == p);
                }
            }
        }
    }
}

/// A wave where every cell allows every pattern is arc consistent when, in every direction, every
/// pattern is allowed by some pattern.
proof fn lemma_full_wave_consistent(width: int, height: int, sets: Seq<Seq<bool>>, rules: AdjacencyRules, n: nat)
    requires
        every_pattern_supported(rules, n),
        width >= 0,
        height >= 0,
        sets.len() == width * height,
        forall|c: int| 0 <= c < sets.len() ==> #[trigger] sets[c] == Seq::new(n, |p: int| true),
    ensures
        arc_consistent(width, height, sets, rules, n),
{
    assert forall|c: int, d: int, q: int| 0 <= c < sets.len() && 0 <= d < 4 && 0 <= q < n implies #[trigger] locally_consistent(
        width,
        height,
        sets,
        rules,
        c,
        d,
        q,
    ) by {
        assert(has_supporter(rules, n, d, q));
        let p = choose|p: int| 0 <= p < n && rules.allowed_list(p, d).contains(q as usize);
        assert(sets[c] == Seq::new(n, |p: int| true));
        assert(sets[c][p]);
    }
}

/// Removing pattern `r` from cell `x` and queuing that removal for `x` keeps every pattern's
/// support accounted for.
proof fn lemma_accounted_removal(
    width: int,
    height: int,
    cells: Seq<Cell>,
    cells2: Seq<Cell>,
    pending: Seq<Vec<PatternId>>,
    pending2: Seq<Vec<PatternId>>,
    cells0: Seq<Cell>,
    pending0: Seq<Vec<PatternId>>,
    rules: AdjacencyRules,
    x: int,
    r: int,
    c: int,
    d: int,
    q: int,
    extra: bool,
    n: nat,
)
    requires
        0 <= x < cells.len(),
        0 <= r < n <= usize::MAX,
        0 <= q < n,
        width >= 0,
        height >= 0,
        cells.len() == width * height,
        forall|i: int| 0 <= i < cells.len() ==> (#[trigger] cells[i]).possible().len() == n,
        cells2.len() == cells.len(),
        pending.len() == cells.len(),
        pending2.len() == cells.len(),
        forall|i: int| 0 <= i < cells.len() && i != x ==> #[trigger] cells2[i] == cells[i],
        cells2[x].possible() == cells[x].possible().update(r, false),
        forall|i: int| 0 <= i < cells.len() && i != x ==> #[trigger] pending2[i] == pending[i],
        pending2[x]@ == pending[x]@.push(r as usize),
        0 <= c < cells.len(),
        support_accounted(width, height, cells, pending, cells0, pending0, rules, c, d, q, extra),
    ensures
        support_accounted(width, height, cells2, pending2, cells0, pending0, rules, c, d, q, extra),
{
    if let Some(j) = neighbor_spec(width, height, c % width, c / width, direction_of_index(d)) {
        let dir = direction_of_index(d);
        crate::wave::lemma_index_bound(
            c % width + crate::direction::direction_dx(dir),
            c / width + crate::direction::direction_dy(dir),
            width,
            height,
        );
        if cells2[j].possible()[q] {
            if j != x {
                assert(cells2[j] == cells[j]);
            }
            assert(cells[j].possible()[q]);
            if supported_from(cells, rules, c, d, q) {
                let p = choose|p: int|
                    0 <= p < cells[c].possible().len() && #[trigger] cells[c].possible()[p]
                        && rules.allowed_list(p, d).contains(q as usize);
                if c != x {
                    assert(cells2[c] == cells[c]);
                    assert(cells2[c].possible()[p]);
                } else if p != r {
                    assert(cells2[c].possible()[p]);
                } else {
                    let k = pending[x]@.len() as int;
                    assert(pending2[c]@[k] == r as usize);
                    assert(rules.allowed_list(pending2[c]@[k] as int, d).contains(q as usize));
                }
            }
            if pending_allows(pending, rules, c, d, q) {
                let k = choose|k: int|
                    0 <= k < pending[c]@.len() && #[trigger] rules.allowed_list(pending[c]@[k] as int, d).contains(q as usize);
                if c == x {
                    assert(pending2[c]@[k] == pending[c]@[k]);
                } else {
                    assert(pending2[c] == pending[c]);
                }
                assert(rules.allowed_list(pending2[c]@[k] as int, d).contains(q as usize));
            }
        }
    }
}

/// Every pattern set of `s` (one per cell, over `n` patterns) lies inside the possible patterns of
/// the same cell of `cells`.
pub open spec fn sets_within(s: Seq<Seq<bool>>, cells: Seq<Cell>, n: nat) -> bool {
    &&& s.len() == cells.len()
    &&& forall|c: int| 0 <= c < s.len() ==> (#[trigger] s[c]).len() == n
    &&& forall|c: int, p: int| 0 <= c < s.len() && 0 <= p < n && #[trigger] s[c][p] ==> cells[c].possible()[p]
}

/// Going from `a` to `b` kept every arc consistent choice of pattern sets that lay inside `a`: such a
/// choice still lies inside `b`, so nothing was removed that some arc consistent choice needs.
pub open spec fn keeps_consistent_choices(width: int, height: int, a: Seq<Cell>, b: Seq<Cell>, rules: AdjacencyRules, n: nat) -> bool {
    forall|s: Seq<Seq<bool>>|
        sets_within(s, a, n) && #[trigger] arc_consistent(width, height, s, rules, n) ==> sets_within(s, b, n)
}

/// Removing from `a` a pattern that a neighbor leaves unsupported keeps every arc consistent choice.
proof fn lemma_unsupported_removal_keeps(width: int, height: int, a: Seq<Cell>, b: Seq<Cell>, rules: AdjacencyRules, n: nat, j: int, q: int)
    requires
        0 <= j < a.len(),
        0 <= q < n,
        b.len() == a.len(),
        forall|i: int| 0 <= i < a.len() && i != j ==> #[trigger] b[i] == a[i],
        b[j].possible() == a[j].possible().update(q, false),
        unsupported_somewhere(width, height, a, rules, j, q),
        forall|i: int| 0 <= i < a.len() ==> (#[trigger] a[i]).possible().len() == n,
    ensures
        keeps_consistent_choices(width, height, a, b, rules, n),
{
    assert forall|s: Seq<Seq<bool>>| sets_within(s, a, n) && #[trigger] arc_consistent(width, height, s, rules, n) implies sets_within(
        s,
        b,
        n,
    ) by {
        let (source, d) = choose|source: int, d: int|
            0 <= source < a.len() && 0 <= d < 4 && #[trigger] neighbor_spec(
                width,
                height,
                source % width,
                source / width,
                direction_of_index(d),
            ) == Some(j) && !#[trigger] supported_from(a, rules, source, d, q);
        assert forall|c: int, p: int| 0 <= c < s.len() && 0 <= p < n && #[trigger] s[c][p] implies b[c].possible()[p] by {
            if c == j && p == q {
                assert(locally_consistent(width, height, s, rules, source, d, q));
                let p2 = choose|p2: int| 0 <= p2 < s[source].len() && #[trigger] s[source][p2] && rules.allowed_list(p2, d).contains(q as usize);
                assert(s[source].len() == n);
                assert(a[source].possible()[p2]);
                assert(a[source].possible().len() == n);
                assert(supported_from(a, rules, source, d, q));
                assert(false);
            } else if c != j {
                assert(b[c] == a[c]);
            }
        }
    }
}

/// Keeping the arc consistent choices composes.
proof fn lemma_keeps_trans(width: int, height: int, a: Seq<Cell>, b: Seq<Cell>, c: Seq<Cell>, rules: AdjacencyRules, n: nat)
    requires
        keeps_consistent_choices(width, height, a, b, rules, n),
        keeps_consistent_choices(width, height, b, c, rules, n),
    ensures
        keeps_consistent_choices(width, height, a, c, rules, n),
{
}

/// Arc consistent pattern sets with no empty cell.
pub open spec fn sound_record(width: int, height: int, sets: Seq<Seq<bool>>, rules: AdjacencyRules, n: nat) -> bool {
    arc_consistent(width, height, sets, rules, n) && no_empty_set(sets, n)
}

/// Some pattern below `n` is in `set`.
pub open spec fn has_pattern(set: Seq<bool>, n: nat) -> bool {
    exists|p: int| 0 <= p < n && #[trigger] set[p]
}

/// No cell of `sets` is left without a pattern.
pub open spec fn no_empty_set(sets: Seq<Seq<bool>>, n: nat) -> bool {
    forall|c: int| 0 <= c < sets.len() ==> #[trigger] has_pattern(sets[c], n)
}

/// A well formed cell has a positive count exactly when some pattern is possible in it.
proof fn lemma_count_has_pattern(cell: Cell, n: nat)
    requires
        cell.wf(),
        cell.possible().len() == n,
    ensures
        cell.count() > 0 <==> has_pattern(cell.possible(), n),
{
    if cell.count() == 0 {
        lemma_count_true_zero(cell.possible());
    }
    if !has_pattern(cell.possible(), n) {
        assert forall|i: int| 0 <= i < cell.possible().len() implies !cell.possible()[i] by {
            if cell.possible()[i] {
                assert(has_pattern(cell.possible(), n));
            }
        }
        crate::bitset::lemma_count_true_bounds(cell.possible());
    }
}

/// Well formed cells, each with a pattern, make a wave without contradictions; and the other way
/// round.
proof fn lemma_no_empty_cells(cells: Seq<Cell>, n: nat)
    requires
        forall|c: int| 0 <= c < cells.len() ==> (#[trigger] cells[c]).wf() && cells[c].possible().len() == n,
    ensures
        count_true(contradiction_flags(cells)) == 0 <==> no_empty_set(possible_sets(cells), n),
{
    let flags = contradiction_flags(cells);
    let sets = possible_sets(cells);
    if count_true(flags) == 0 {
        lemma_count_true_zero(flags);
        assert forall|c: int| 0 <= c < sets.len() implies #[trigger] has_pattern(sets[c], n) by {
            assert(!flags[c]);
            lemma_count_has_pattern(cells[c], n);
        }
    }
    if no_empty_set(sets, n) {
        assert forall|c: int| 0 <= c < flags.len() implies !flags[c] by {
            assert(has_pattern(sets[c], n));
            lemma_count_has_pattern(cells[c], n);
        }
        crate::bitset::lemma_count_true_bounds(flags);
    }
}

/// Taking patterns out of cells keeps a pattern unsupported where it was.
proof fn lemma_unsupported_monotone(width: int, height: int, a: Seq<Cell>, b: Seq<Cell>, rules: AdjacencyRules, j: int, pattern: int, n: nat)
    requires
        cells_shrunk(a, b, n),
        forall|c: int| 0 <= c < a.len() ==> (#[trigger] a[c]).possible().len() == n,
        unsupported_somewhere(width, height, a, rules, j, pattern),
    ensures
        unsupported_somewhere(width, height, b, rules, j, pattern),
{
    let (source, d) = choose|source: int, d: int|
        0 <= source < a.len() && 0 <= d < 4 && #[trigger] neighbor_spec(
            width,
            height,
            source % width,
            source / width,
            direction_of_index(d),
        ) == Some(j) && !#[trigger] supported_from(a, rules, source, d, pattern);
    if supported_from(b, rules, source, d, pattern) {
        let p = choose|p: int|
            0 <= p < b[source].possible().len() && #[trigger] b[source].possible()[p]
                && rules.allowed_list(p, d).contains(pattern as usize);
        assert(a[source].possible()[p]);
    }
    assert(neighbor_spec(width, height, source % width, source / width, direction_of_index(d)) == Some(j)
        && !supported_from(b, rules, source, d, pattern));
}

/// Cells that only lose patterns, none of them becoming empty, have the same empty cells.
proof fn lemma_same_empty_cells(a: Seq<Cell>, b: Seq<Cell>, n: nat)
    requires
        cells_shrunk(a, b, n),
        forall|i: int| 0 <= i < a.len() ==> (#[trigger] a[i]).wf() && a[i].possible().len() == n,
        forall|i: int| 0 <= i < b.len() ==> (#[trigger] b[i]).wf(),
        forall|i: int| 0 <= i < a.len() && a[i].count() > 0 ==> #[trigger] b[i].count() > 0,
    ensures
        contradiction_flags(a) == contradiction_flags(b),
{
    assert forall|i: int| 0 <= i < a.len() implies contradiction_flags(a)[i] == contradiction_flags(b)[i] by {
        if a[i].count() == 0 {
            crate::bitset::lemma_count_true_zero(a[i].possible());
            assert forall|q: int| 0 <= q < b[i].possible().len() implies !b[i].possible()[q] by {
                if b[i].possible()[q] {
                    assert(a[i].possible()[q]);
                }
            }
            crate::bitset::lemma_count_true_bounds(b[i].possible());
        } else {
            assert(b[i].count() > 0);
        }
    }
    assert(contradiction_flags(a) =~= contradiction_flags(b));
}

/// Justified removals compose: what `a` to `b` removed stays unsupported in `c`.
proof fn lemma_justified_trans(width: int, height: int, a: Seq<Cell>, b: Seq<Cell>, c: Seq<Cell>, rules: AdjacencyRules, n: nat)
    requires
        cells_shrunk(a, b, n),
        cells_shrunk(b, c, n),
        forall|i: int| 0 <= i < a.len() ==> (#[trigger] a[i]).possible().len() == n,
        removals_justified(width, height, a, b, rules, n),
        removals_justified(width, height, b, c, rules, n),
    ensures
        cells_shrunk(a, c, n),
        removals_justified(width, height, a, c, rules, n),
{
    assert forall|i: int| 0 <= i < b.len() implies (#[trigger] b[i]).possible().len() == n by {
        assert(b[i].possible().len() == a[i].possible().len());
    }
    assert forall|i: int, p: int| 0 <= i < a.len() && 0 <= p < n && a[i].possible()[p] && !#[trigger] c[i].possible()[p] implies unsupported_somewhere(
        width,
        height,
        c,
        rules,
        i,
        p,
    ) by {
        if b[i].possible()[p] {
        } else {
            lemma_unsupported_monotone(width, height, b, c, rules, i, p, n);
        }
    }
}

/// Sum of the possible counts of the cells.
pub open spec fn total_count(cells: Seq<Cell>) -> int
    decreases cells.len(),
{
    if cells.len() == 0 {
        0
    } else {
        total_count(cells.drop_last()) + cells.last().count()
    }
}

proof fn lemma_total_count_update(cells: Seq<Cell>, j: int, c: Cell)
    requires
        0 <= j < cells.len(),
    ensures
        total_count(cells.update(j, c)) + cells[j].count() == total_count(cells) + c.count(),
        total_count(cells) >= 0,
    decreases cells.len(),
{
    if j < cells.len() - 1 {
        lemma_total_count_update(cells.drop_last(), j, c);
        assert(cells.update(j, c).drop_last() =~= cells.drop_last().update(j, c));
    } else {
        assert(cells.update(j, c).drop_last() =~= cells.drop_last());
        lemma_total_count_nonneg(cells.drop_last());
    }
}

proof fn lemma_total_count_nonneg(cells: Seq<Cell>)
    ensures
        total_count(cells) >= 0,
    decreases cells.len(),
{
    if cells.len() > 0 {
        lemma_total_count_nonneg(cells.drop_last());
    }
}

/// Some entry of `entries` records the removal of `pattern` from cell `cell`.
pub open spec fn recorded(entries: Seq<UndoEntry>, cell: int, pattern: int) -> bool {
    exists|i: int| 0 <= i < entries.len() && (#[trigger] entries[i]).cell() == cell && entries[i].pattern() == pattern
}

/// `p` is what a draw below the weight of `cell` picks among its possible patterns by `weights`.
pub open spec fn weighted_choice(cell: Cell, weights: Seq<u32>, p: usize) -> bool {
    exists|v: int| 0 <= v < cell.weight() && Some(p) == #[trigger] weighted_pick(positions(cell.possible()), weights, v)
}

/// The first of `ids` at which the running total of the weights exceeds `r`.
pub open spec fn weighted_pick(ids: Seq<usize>, weights: Seq<u32>, r: int) -> Option<usize>
    decreases ids.len(),
{
    if ids.len() == 0 {
        None
    } else if r < weights[ids[0] as int] {
        Some(ids[0])
    } else {
        weighted_pick(ids.drop_first(), weights, r - weights[ids[0] as int])
    }
}

/// Sum of the weights of `ids`.
pub open spec fn ids_weight(ids: Seq<usize>, weights: Seq<u32>) -> int
    decreases ids.len(),
{
    if ids.len() == 0 {
        0
    } else {
        weights[ids[0] as int] + ids_weight(ids.drop_first(), weights)
    }
}

proof fn lemma_ids_weight_push(ids: Seq<usize>, weights: Seq<u32>, x: usize)
    ensures
        ids_weight(ids.push(x), weights) == ids_weight(ids, weights) + weights[x as int],
    decreases ids.len(),
{
    if ids.len() > 0 {
        lemma_ids_weight_push(ids.drop_first(), weights, x);
        assert(ids.push(x).drop_first() =~= ids.drop_first().push(x));
        assert(ids.push(x)[0] == ids[0]);
        assert(ids_weight(ids.push(x), weights) == weights[ids[0] as int] + ids_weight(ids.drop_first().push(x), weights));
    } else {
        assert(ids.push(x).drop_first() =~= Seq::<usize>::empty());
        assert(ids.push(x)[0] == x);
        assert(ids_weight(Seq::<usize>::empty(), weights) == 0);
        assert(ids_weight(ids.push(x), weights) == weights[x as int] + ids_weight(ids.push(x).drop_first(), weights));
    }
}

/// The weights of the positions of `s` add up to the total weight of `s`.
pub proof fn lemma_ids_weight_positions(s: Seq<bool>, weights: Seq<u32>)
    requires
        s.len() <= usize::MAX + 1,
    ensures
        ids_weight(positions(s), weights) == weight_total(s, weights),
    decreases s.len(),
{
    if s.len() > 0 {
        lemma_ids_weight_positions(s.drop_last(), weights);
        if s.last() {
            lemma_ids_weight_push(positions(s.drop_last()), weights, (s.len() - 1) as usize);
        }
    }
}

/// A draw below the total weight always picks one of the ids.
pub proof fn lemma_weighted_pick_some(ids: Seq<usize>, weights: Seq<u32>, r: int)
    requires
        0 <= r < ids_weight(ids, weights),
    ensures
        weighted_pick(ids, weights, r) matches Some(x) && ids.contains(x),
    decreases ids.len(),
{
    if ids.len() == 0 {
    } else if r < weights[ids[0] as int] {
        assert(ids[0] == ids[0]);
    } else {
        lemma_weighted_pick_some(ids.drop_first(), weights, r - weights[ids[0] as int]);
        let x = weighted_pick(ids, weights, r)->0;
        let i = choose|i: int| 0 <= i < ids.drop_first().len() && ids.drop_first()[i] == x;
        assert(ids[i + 1] == x);
    }
}

/// What `weighted_pick` picks is one of the ids.
pub proof fn lemma_weighted_pick_member(ids: Seq<usize>, weights: Seq<u32>, r: int)
    ensures
        weighted_pick(ids, weights, r) matches Some(x) ==> ids.contains(x),
    decreases ids.len(),
{
    if ids.len() > 0 && r >= weights[ids[0] as int] {
        lemma_weighted_pick_member(ids.drop_first(), weights, r - weights[ids[0] as int]);
        if let Some(x) = weighted_pick(ids, weights, r) {
            let i = choose|i: int| 0 <= i < ids.drop_first().len() && ids.drop_first()[i] == x;
            assert(ids[i + 1] == x);
        }
    } else if ids.len() > 0 {
        assert(ids[0] == ids[0]);
    }
}

/// Weights add up to no less than zero.
proof fn lemma_ids_weight_nonneg(ids: Seq<usize>, weights: Seq<u32>)
    ensures
        ids_weight(ids, weights) >= 0,
    decreases ids.len(),
{
    if ids.len() > 0 {
        lemma_ids_weight_nonneg(ids.drop_first(), weights);
    }
}

/// Among distinct ids, the draws that pick the `k`-th are exactly those from the total weight of
/// the ids before it up to that total plus its own weight.
pub proof fn lemma_weighted_pick_interval(ids: Seq<usize>, weights: Seq<u32>, k: int)
    requires
        0 <= k < ids.len(),
        forall|j: int| 0 <= j < ids.len() && j != k ==> #[trigger] ids[j] != ids[k],
    ensures
        forall|v: int|
            0 <= v ==> (#[trigger] weighted_pick(ids, weights, v) == Some(ids[k]) <==> ids_weight(ids.take(k), weights) <= v
                < ids_weight(ids.take(k), weights) + weights[ids[k] as int]),
    decreases k,
{
    let w0 = weights[ids[0] as int] as int;
    let rest = ids.drop_first();
    if k == 0 {
        assert(ids.take(0) =~= Seq::<usize>::empty());
        assert forall|v: int| 0 <= v implies (#[trigger] weighted_pick(ids, weights, v) == Some(ids[k]) <==> ids_weight(
            ids.take(k),
            weights,
        ) <= v < ids_weight(ids.take(k), weights) + weights[ids[k] as int]) by {
            if v >= w0 {
                lemma_weighted_pick_member(rest, weights, v - w0);
                if let Some(x) = weighted_pick(rest, weights, v - w0) {
                    let i = choose|i: int| 0 <= i < rest.len() && rest[i] == x;
                    assert(ids[i + 1] == x);
                }
            }
        }
    } else {
        assert forall|j: int| 0 <= j < rest.len() && j != k - 1 implies #[trigger] rest[j] != rest[k - 1] by {
            assert(ids[j + 1] != ids[k]);
        }
        lemma_weighted_pick_interval(rest, weights, k - 1);
        assert(ids.take(k).drop_first() =~= rest.take(k - 1));
        assert(ids.take(k)[0] == ids[0]);
        let lo = ids_weight(ids.take(k), weights);
        assert(lo == w0 + ids_weight(rest.take(k - 1), weights));
        lemma_ids_weight_nonneg(rest.take(k - 1), weights);
        assert(ids[0] != ids[k]);
        assert(rest[k - 1] == ids[k]);
        assert forall|v: int| 0 <= v implies (#[trigger] weighted_pick(ids, weights, v) == Some(ids[k]) <==> lo <= v < lo
            + weights[ids[k] as int]) by {
            if v >= w0 {
                assert(weighted_pick(ids, weights, v) == weighted_pick(rest, weights, v - w0));
                assert(weighted_pick(rest, weights, v - w0) == Some(rest[k - 1]) <==> ids_weight(rest.take(k - 1), weights) <= v
                    - w0 < ids_weight(rest.take(k - 1), weights) + weights[rest[k - 1] as int]);
            }
        }
    }
}

/// The positions of the first `m` entries of `s` begin the positions of `s`.
proof fn lemma_positions_prefix(s: Seq<bool>, m: int)
    requires
        0 <= m <= s.len(),
    ensures
        positions(s.take(m)).len() <= positions(s).len(),
        positions(s.take(m)) == positions(s).take(positions(s.take(m)).len() as int),
    decreases s.len(),
{
    if m == s.len() {
        assert(s.take(m) =~= s);
        assert(positions(s).take(positions(s).len() as int) =~= positions(s));
    } else {
        let d = s.drop_last();
        assert(s.take(m) =~= d.take(m));
        lemma_positions_prefix(d, m);
        let l = positions(d.take(m)).len() as int;
        if s.last() {
            assert(positions(s) == positions(d).push((s.len() - 1) as usize));
            assert(positions(s).take(l) =~= positions(d).take(l));
        }
    }
}

/// A draw picks pattern `p` among the patterns possible by `s` exactly when it lies in the band
/// that starts at the total weight of the possible patterns before `p` and is as wide as the weight
/// of `p`; a pattern that is not possible is never picked. So each possible pattern is picked by
/// as many of the draws below the total weight as its weight.
pub proof fn lemma_weighted_pick_share(s: Seq<bool>, weights: Seq<u32>, p: int)
    requires
        0 <= p < s.len(),
        s.len() <= usize::MAX,
    ensures
        s[p] ==> forall|v: int|
            0 <= v ==> (#[trigger] weighted_pick(positions(s), weights, v) == Some(p as usize) <==> weight_total(s.take(p), weights)
                <= v < weight_total(s.take(p), weights) + weights[p]),
        !s[p] ==> forall|v: int| #[trigger] weighted_pick(positions(s), weights, v) != Some(p as usize),
{
    let ids = positions(s);
    lemma_positions(s);
    if s[p] {
        lemma_positions_prefix(s, p);
        lemma_positions_prefix(s, p + 1);
        let before = positions(s.take(p));
        let l = before.len() as int;
        let t = s.take(p + 1);
        assert(t.drop_last() =~= s.take(p));
        assert(t.last() == s[p]);
        assert(positions(t) == before.push(p as usize));
        assert(ids.take(l + 1)[l] == p as usize);
        assert(ids[l] == p as usize);
        assert forall|j: int| 0 <= j < ids.len() && j != l implies #[trigger] ids[j] != ids[l] by {
            if j < l {
                assert(ids[j] < ids[l]);
            } else {
                assert(ids[l] < ids[j]);
            }
        }
        lemma_weighted_pick_interval(ids, weights, l);
        assert(ids.take(l) =~= before);
        lemma_ids_weight_positions(s.take(p), weights);
    } else {
        assert forall|v: int| #[trigger] weighted_pick(positions(s), weights, v) != Some(p as usize) by {
            lemma_weighted_pick_member(ids, weights, v);
            if weighted_pick(ids, weights, v) == Some(p as usize) {
                let i = choose|i: int| 0 <= i < ids.len() && ids[i] == p as usize;
            }
        }
    }
}

/// Picks a possible pattern of `cell` at the draw `random_weight`: going through the possible
/// patterns in increasing order, the first at which the running total of `pattern_weights` exceeds
/// the draw.
pub fn pick_weighted_pattern(cell: &Cell, pattern_weights: &[u32], random_weight: u64) -> (r: Option<PatternId>)
    requires
        cell.wf(),
        pattern_weights@.len() >= cell.possible().len(),
    ensures
        r == weighted_pick(positions(cell.possible()), pattern_weights@, random_weight as int),
{
    let ids = cell.possible_pattern_ids();
    proof {
        lemma_positions(cell.possible());
    }
    let mut remaining = random_weight;
    let mut k: usize = 0;
    proof {
        assert(ids@.skip(0) =~= ids@);
        assert forall|i: int| 0 <= i < ids@.len() implies #[trigger] ids@[i] < pattern_weights@.len() by {
            assert(positions(cell.possible())[i] < cell.possible().len());
        }
    }
    while k < ids.len()
        invariant
            k <= ids@.len(),
            ids@ == positions(cell.possible()),
            forall|i: int| 0 <= i < ids@.len() ==> #[trigger] ids@[i] < pattern_weights@.len(),
            weighted_pick(ids@.skip(k as int), pattern_weights@, remaining as int) == weighted_pick(
                positions(cell.possible()),
                pattern_weights@,
                random_weight as int,
            ),
        decreases ids@.len() - k,
    {
        let pattern_id = ids[k];
        let weight = pattern_weights[pattern_id] as u64;
        proof {
            assert(ids@.skip(k as int)[0] == pattern_id);
            assert(ids@.skip(k as int).drop_first() =~= ids@.skip(k + 1));
        }
        if remaining < weight {
            return Some(pattern_id);
        }
        remaining = remaining - weight;
        k = k + 1;
    }
    proof {
        assert(ids@.skip(k as int).len() == 0);
    }
    None
}

/// Chooses a possible pattern of `cell` at random, each with a chance proportional to its weight;
/// `None` when no pattern is possible or the total weight is 0.
pub fn choose_weighted_pattern(cell: &Cell, pattern_weights: &[u32], rng: &mut StdRng) -> (r: Option<PatternId>)
    requires
        cell.wf(),
        pattern_weights@.len() >= cell.possible().len(),
    ensures
        (cell.count() == 0 || cell.weight() == 0) ==> r is None,
        cell.count() > 0 && cell.weight() > 0 && cell.weight_matches(pattern_weights@) ==> r is Some,
        r matches Some(p) ==> p < cell.possible().len() && cell.possible()[p as int],
        cell.count() > 0 && cell.weight() > 0 ==> exists|v: int|
            0 <= v < cell.weight() && r == #[trigger] weighted_pick(positions(cell.possible()), pattern_weights@, v),
{
    if cell.is_contradiction() {
        return None;
    }
    let total_weight = cell.weight_sum();
    if total_weight == 0 {
        return None;
    }
    let random_weight = random_below(rng, total_weight);
    let r = pick_weighted_pattern(cell, pattern_weights, random_weight);
    proof {
        let ids = positions(cell.possible());
        lemma_positions(cell.possible());
        lemma_weighted_pick_member(ids, pattern_weights@, random_weight as int);
        if cell.weight_matches(pattern_weights@) {
            lemma_ids_weight_positions(cell.possible(), pattern_weights@);
            lemma_weighted_pick_some(ids, pattern_weights@, random_weight as int);
        }
        if let Some(p) = r {
            let i = choose|i: int| 0 <= i < ids.len() && ids[i] == p;
        }
        assert(r == weighted_pick(ids, pattern_weights@, random_weight as int));
    }
    r
}

/// The removals listed are the possible ids gone through other than the selected one.
pub open spec fn buffer_ok(buffer: Seq<usize>, possible: Seq<bool>, selected: usize, taken: Seq<usize>, n: int) -> bool {
    forall|i: int|
        #![trigger possible[i]]
        #![trigger buffer.contains(i as usize)]
        0 <= i < n ==> (buffer.contains(i as usize) <==> (possible[i] && i != selected as int
            && taken.contains(i as usize)))
}

/// Adding the next id to the list of ids gone through keeps the list of removals the possible ids
/// gone through other than the selected one.
proof fn lemma_buffer_step(
    buffer: Seq<usize>,
    nb: Seq<usize>,
    taken: Seq<usize>,
    id: usize,
    selected: usize,
    possible: Seq<bool>,
    n: int,
)
    requires
        buffer_ok(buffer, possible, selected, taken, n),
        nb == (if id != selected { buffer.push(id) } else { buffer }),
        id < n,
        n <= usize::MAX,
        possible[id as int],
    ensures
        buffer_ok(nb, possible, selected, taken.push(id), n),
{
    assert forall|i: int|
        #![trigger possible[i]]
        #![trigger nb.contains(i as usize)]
        0 <= i < n implies (nb.contains(i as usize) <==> (possible[i] && i != selected as int
        && taken.push(id).contains(i as usize))) by {
        let iu = i as usize;
        assert(buffer.contains(i as usize) <==> (possible[i] && i != selected as int && taken.contains(i as usize)));
        assert(taken.push(id).contains(iu) <==> (taken.contains(iu) || iu == id)) by {
            if taken.push(id).contains(iu) && iu != id {
                let j = choose|j: int| 0 <= j < taken.len() + 1 && #[trigger] taken.push(id)[j] == iu;
                assert(taken[j] == iu);
            }
            if taken.contains(iu) {
                let j = choose|j: int| 0 <= j < taken.len() && #[trigger] taken[j] == iu;
                assert(taken.push(id)[j] == iu);
            }
            if iu == id {
                assert(taken.push(id)[taken.len() as int] == id);
            }
        }
        assert(iu as int == i);
        assert((iu == id) == (i == id as int));
        assert((iu == selected) == (i == selected as int));
        if id != selected {
            assert(nb.contains(iu) <==> (buffer.contains(iu) || iu == id)) by {
                if nb.contains(iu) && iu != id {
                    let j = choose|j: int| 0 <= j < nb.len() && #[trigger] nb[j] == iu;
                    assert(buffer[j] == iu);
                }
                if buffer.contains(iu) {
                    let j = choose|j: int| 0 <= j < buffer.len() && #[trigger] buffer[j] == iu;
                    assert(nb[j] == iu);
                }
                if iu == id {
                    assert(nb[nb.len() - 1] == id);
                }
            }
            if iu == id {
                assert(possible[i]);
                assert(nb.contains(iu));
            }
        } else {
            assert(nb == buffer);
            if iu == id {
                assert(!nb.contains(iu) || i != selected as int);
            }
        }
    }
}

/// A sequence that is `true` at one place only counts one.
proof fn lemma_count_true_single(s: Seq<bool>, b: int)
    requires
        0 <= b < s.len(),
        forall|i: int| 0 <= i < s.len() ==> s[i] == (i == b),
    ensures
        count_true(s) == 1,
{
    crate::bitset::lemma_count_true_update(s, b, false);
    let t = s.update(b, false);
    assert forall|i: int| 0 <= i < t.len() implies !t[i] by {}
    crate::bitset::lemma_count_true_bounds(t);
}

/// A sequence with `true` at two different places counts at least two.
proof fn lemma_count_true_two(s: Seq<bool>, a: int, b: int)
    requires
        0 <= a < s.len(),
        0 <= b < s.len(),
        a != b,
        s[a],
        s[b],
    ensures
        count_true(s) >= 2,
{
    crate::bitset::lemma_count_true_update(s, a, false);
    let t = s.update(a, false);
    assert(t[b]);
    lemma_count_true_one(t, b);
}

/// A sequence with a `true` entry counts at least one.
proof fn lemma_count_true_one(s: Seq<bool>, b: int)
    requires
        0 <= b < s.len(),
        s[b],
    ensures
        count_true(s) >= 1,
{
    crate::bitset::lemma_count_true_update(s, b, false);
}

/// Decision `i` of `before` was taken back and its choice ruled out, which gave the cells `base`:
/// the decision's record with the chosen pattern gone from its cell, another pattern left there, and
/// only that removal waiting (`pending0`). Propagating it from there led to `after`: the cells only
/// shrank, each removal is justified, every arc consistent choice inside `base` was kept (nothing
/// was removed that propagation need not remove), propagation is complete, no cell emptied, and the
/// decisions left are (a suffix of) those older than decision `i`.
pub open spec fn rejection_propagated(
    before: WfcSolver,
    after: WfcSolver,
    rules: AdjacencyRules,
    i: int,
    base: Seq<Cell>,
    pending0: Seq<Vec<PatternId>>,
) -> bool {
    let d = before.decisions()[i];
    let record = before.decision_states()[i];
    let cells = after.wave_view().cells_view();
    let width = after.wave_view().width_spec() as int;
    let height = after.wave_view().height_spec() as int;
    let n = after.wave_view().patterns();
    &&& 0 <= i < before.decisions().len()
    &&& after.decisions().len() <= i
    &&& after.decisions() == before.decisions().subrange(i - after.decisions().len(), i)
    &&& after.decision_states() == before.decision_states().subrange(i - after.decision_states().len(), i)
    &&& base.len() == before.cell_total()
    &&& forall|c: int| 0 <= c < base.len() ==> (#[trigger] base[c]).wf()
    &&& possible_sets(base) == record.update(
        d.cell_index as int,
        record[d.cell_index as int].update(d.chosen_pattern_id as int, false),
    )
    &&& base[d.cell_index as int].count() > 0
    &&& pending0.len() == base.len()
    &&& forall|c: int|
        0 <= c < base.len() ==> (#[trigger] pending0[c])@ == if c == d.cell_index {
            seq![d.chosen_pattern_id]
        } else {
            Seq::<PatternId>::empty()
        }
    &&& cells_shrunk(base, cells, n)
    &&& removals_justified(width, height, base, cells, rules, n)
    &&& keeps_consistent_choices(width, height, base, cells, rules, n)
    &&& propagation_complete(width, height, cells, base, pending0, rules, n)
    &&& forall|c: int| 0 <= c < base.len() && base[c].count() > 0 ==> #[trigger] cells[c].count() > 0
    &&& after.wave_view().contradictions() == count_true(contradiction_flags(base))
}

/// Ruling out the choice of decision `i` of `before` in its record gave the cells `base`, from which
/// removals, each justified, led to the cells `cells`, some of which are empty.
pub open spec fn refutation(before: WfcSolver, rules: AdjacencyRules, i: int, base: Seq<Cell>, cells: Seq<Cell>) -> bool {
    let d = before.decisions()[i];
    let record = before.decision_states()[i];
    let width = before.wave_view().width_spec() as int;
    let height = before.wave_view().height_spec() as int;
    let n = before.wave_view().patterns();
    &&& base.len() == before.cell_total()
    &&& forall|c: int| 0 <= c < base.len() ==> (#[trigger] base[c]).wf()
    &&& forall|c: int| 0 <= c < cells.len() ==> (#[trigger] cells[c]).wf()
    &&& possible_sets(base) == record.update(
        d.cell_index as int,
        record[d.cell_index as int].update(d.chosen_pattern_id as int, false),
    )
    &&& cells_shrunk(base, cells, n)
    &&& removals_justified(width, height, base, cells, rules, n)
    &&& count_true(contradiction_flags(cells)) > 0
}

/// Decision `i` of `before` cannot stand: ruling out its choice leads, by justified removals, to an
/// empty cell (see `refutation`).
pub open spec fn rejection_refuted(before: WfcSolver, rules: AdjacencyRules, i: int) -> bool {
    exists|base: Seq<Cell>, cells: Seq<Cell>| #[trigger] refutation(before, rules, i, base, cells)
}

/// Observation took `before` to `after`: the cell `cell` that comes first in the heap was collapsed
/// to the pattern `p` that a draw below its weight picks, the other patterns of the cell waiting for
/// propagation, and the choice became the newest decision (or the history was full and no
/// decision is left); the cell left the heap, which stayed current where it was.
pub open spec fn observation_made(before: WfcSolver, after: WfcSolver, cell: usize, p: usize) -> bool {
    let old_cell = before.wave_view().cells_view()[cell as int];
    &&& cell < before.cell_total()
    &&& after.heap_view().entries() == before.heap_view().entries().update(cell as int, None)
    &&& before.heap_current() ==> after.heap_current()
    &&& comes_first(before.heap_view().entries(), cell as int)
    &&& old_cell.possible()[p as int]
    &&& weighted_choice(old_cell, before.weights_view(), p)
    &&& after.weights_view() == before.weights_view()
    &&& after.wave_view().width_spec() == before.wave_view().width_spec()
    &&& after.wave_view().height_spec() == before.wave_view().height_spec()
    &&& after.wave_view().patterns() == before.wave_view().patterns()
    &&& after.wave_view().cells_view().len() == before.wave_view().cells_view().len()
    &&& after.wave_view().cells_view()[cell as int].possible().len() == before.wave_view().patterns()
    &&& forall|i: int|
        0 <= i < before.wave_view().patterns() ==> #[trigger] after.wave_view().cells_view()[cell as int].possible()[i] == (i
            == p)
    &&& forall|i: int|
        0 <= i < after.wave_view().cells_view().len() && i != cell ==> #[trigger] after.wave_view().cells_view()[i]
            == before.wave_view().cells_view()[i]
    &&& forall|q: int|
        0 <= q < before.wave_view().patterns() && q != p && #[trigger] old_cell.possible()[q] ==> after.queue_view().contains(
            cell,
        ) && after.removals_view()[cell as int]@.contains(q as usize)
    &&& (after.decisions().len() > 0 && after.decisions().last() == (Decision {
        cell_index: cell,
        chosen_pattern_id: p,
        undo_checkpoint: before.undo_view().end() as u64,
    })) || (after.decisions().len() == 0 && (after.backtracking_view().history_overflows
        > before.backtracking_view().history_overflows || before.backtracking_view().history_overflows == usize::MAX))
    &&& after.decisions().len() == 0 ==> before.undo_view().entries_view().len() + old_cell.count() >= MAX_UNDO_ENTRIES
        || before.undo_view().end() + old_cell.count() >= u64::MAX
    &&& after.backtracking_view().decisions == if before.backtracking_view().decisions < usize::MAX {
        (before.backtracking_view().decisions + 1) as usize
    } else {
        before.backtracking_view().decisions
    }
}

/// Propagation took `before` to `after` and settled: the cells only shrank, each removal was
/// justified, every arc consistent choice was kept, propagation is complete for the removals that
/// waited in `before`, nothing waits any more, no new cell was emptied, and a heap current where
/// it was is current everywhere.
pub open spec fn propagation_settled(before: WfcSolver, after: WfcSolver, rules: AdjacencyRules) -> bool {
    let width = before.wave_view().width_spec() as int;
    let height = before.wave_view().height_spec() as int;
    let n = before.wave_view().patterns();
    &&& after.wave_view().width_spec() == before.wave_view().width_spec()
    &&& after.wave_view().height_spec() == before.wave_view().height_spec()
    &&& after.wave_view().patterns() == n
    &&& cells_shrunk(before.wave_view().cells_view(), after.wave_view().cells_view(), n)
    &&& removals_justified(width, height, before.wave_view().cells_view(), after.wave_view().cells_view(), rules, n)
    &&& keeps_consistent_choices(width, height, before.wave_view().cells_view(), after.wave_view().cells_view(), rules, n)
    &&& propagation_complete(
        width,
        height,
        after.wave_view().cells_view(),
        before.wave_view().cells_view(),
        before.removals_view(),
        rules,
        n,
    )
    &&& after.queue_view().len() == 0
    &&& after.dirty_cells().len() == 0
    &&& after.wave_view().contradictions() == before.wave_view().contradictions()
    &&& before.heap_current() ==> after.heap_current()
}

/// Propagation took `before` to `after` and emptied a cell: the cells only shrank, each removal was
/// justified and every arc consistent choice was kept.
pub open spec fn propagation_failed(before: WfcSolver, after: WfcSolver, rules: AdjacencyRules) -> bool {
    let width = before.wave_view().width_spec() as int;
    let height = before.wave_view().height_spec() as int;
    let n = before.wave_view().patterns();
    &&& cells_shrunk(before.wave_view().cells_view(), after.wave_view().cells_view(), n)
    &&& removals_justified(width, height, before.wave_view().cells_view(), after.wave_view().cells_view(), rules, n)
    &&& keeps_consistent_choices(width, height, before.wave_view().cells_view(), after.wave_view().cells_view(), rules, n)
    &&& after.wave_view().contradictions() > 0
}

/// After observing into `mid`, either propagation settled into `after`, or it failed and the
/// backtracking that followed succeeded (see `rejection_propagated`).
pub open spec fn observed_then_settled(mid: WfcSolver, after: WfcSolver, rules: AdjacencyRules) -> bool {
    ||| propagation_settled(mid, after, rules)
    ||| exists|mid2: WfcSolver|
        #[trigger] propagation_failed(mid, mid2, rules) && exists|i: int, base: Seq<Cell>, pending0: Seq<Vec<PatternId>>|
            #[trigger] rejection_propagated(mid2, after, rules, i, base, pending0)
}

/// Every decision of `before` from the `lo`-th on cannot stand (see `rejection_refuted`).
pub open spec fn refuted_from(before: WfcSolver, rules: AdjacencyRules, lo: int) -> bool {
    forall|i: int| lo <= i < before.decisions().len() ==> #[trigger] rejection_refuted(before, rules, i)
}

/// A suffix of a window ending at `hi` is the window of its own length ending at `hi`.
proof fn lemma_window_suffix<A>(s: Seq<A>, t: Seq<A>, u: Seq<A>, hi: int)
    requires
        0 <= t.len() <= hi <= s.len(),
        t == s.subrange(hi - t.len(), hi),
        u.len() <= t.len(),
        u == t.skip(t.len() - u.len()),
    ensures
        u == s.subrange(hi - u.len(), hi),
{
    assert(u =~= s.subrange(hi - u.len(), hi));
}

/// Runs wave function collapse on a grid of cells: observes (collapses a cell with the lowest
/// entropy), propagates what a change rules out to the neighbors, and backtracks on contradiction.
pub struct WfcSolver {
    wave: Wave,
    propagation_queue: VecDeque<usize>,
    queued_cells: Vec<bool>,
    pending_removals: Vec<Vec<PatternId>>,
    removed_patterns_buffer: Vec<PatternId>,
    entropy_heap: EntropyHeap,
    entropy_dirty: Vec<bool>,
    dirty_entropy_cells: Vec<usize>,
    propagation_stats: PropagationStats,
    affected_marks: [Vec<u32>; 4],
    affected_patterns: [Vec<PatternId>; 4],
    affected_epoch: u32,
    backtracking_stats: BacktrackingStats,
    solve_counts: SolveCounts,
    decision_stack: VecDeque<Decision>,
    undo_log: UndoLog,
    pending_rejection: Option<Decision>,
    weights: Ghost<Seq<u32>>,
    decision_waves: Ghost<Seq<Seq<Seq<bool>>>>,
}

impl WfcSolver {
    /// The wave being solved.
    pub closed spec fn wave_view(&self) -> Wave {
        self.wave
    }

    /// The cells whose entropy must be recomputed, in the order they changed.
    pub closed spec fn dirty_cells(&self) -> Seq<usize> {
        self.dirty_entropy_cells@
    }

    /// The cells waiting for propagation.
    pub closed spec fn queue_view(&self) -> Seq<usize> {
        self.propagation_queue@
    }

    /// The decision stack, oldest first.
    pub closed spec fn decisions(&self) -> Seq<Decision> {
        self.decision_stack@
    }

    /// The undo history.
    pub closed spec fn undo_view(&self) -> UndoLog {
        self.undo_log
    }

    /// The decision whose rejection is pending after a rollback.
    pub closed spec fn pending_view(&self) -> Option<Decision> {
        self.pending_rejection
    }

    /// The pattern weights of the model the solver was built for.
    pub closed spec fn weights_view(&self) -> Seq<u32> {
        self.weights@
    }

    /// Heap of undecided cells by entropy.
    pub closed spec fn heap_view(&self) -> EntropyHeap {
        self.entropy_heap
    }

    /// For each open decision, oldest first, the possible patterns of every cell when it was taken.
    pub closed spec fn decision_states(&self) -> Seq<Seq<Seq<bool>>> {
        self.decision_waves@
    }

    /// Every open decision's record agrees with the wave and the log (see `decision_state_ok`),
    /// but for pattern `xp` of cell `xc`, which every record holds.
    closed spec fn restorable_except(&self, xc: int, xp: int) -> bool {
        records_restorable(
            self.decision_waves@,
            self.decision_stack@,
            self.wave.cells_view(),
            self.undo_log.entries_view(),
            self.undo_log.base(),
            self.wave.patterns(),
            xc,
            xp,
        )
    }

    /// The removals waiting, per cell, to be propagated from it.
    pub closed spec fn removals_view(&self) -> Seq<Vec<PatternId>> {
        self.pending_removals@
    }

    /// The counters of decisions taken and taken back.
    pub closed spec fn backtracking_view(&self) -> BacktrackingStats {
        self.backtracking_stats
    }

    /// The counters of observations and propagation runs of the rounds of solving.
    pub closed spec fn counts_view(&self) -> SolveCounts {
        self.solve_counts
    }

    /// The counters of propagation work.
    pub closed spec fn propagation_view(&self) -> PropagationStats {
        self.propagation_stats
    }

    /// The wave recorded at each open decision was arc consistent under `rules`, with no empty cell.
    pub open spec fn history_consistent(&self, rules: AdjacencyRules) -> bool {
        forall|i: int|
            0 <= i < self.decision_states().len() ==> sound_record(
                self.wave_view().width_spec() as int,
                self.wave_view().height_spec() as int,
                #[trigger] self.decision_states()[i],
                rules,
                self.wave_view().patterns(),
            )
    }

    /// Propagation has settled under `rules`: nothing waits to be propagated, the wave is arc
    /// consistent with no empty cell, and so was the wave at each open decision.
    pub open spec fn settled(&self, rules: AdjacencyRules) -> bool {
        &&& self.queue_view().len() == 0
        &&& self.wave_view().contradictions() == 0
        &&& forall|c: int| 0 <= c < self.cell_total() ==> (#[trigger] self.removals_view()[c])@.len() == 0
        &&& arc_consistent(
            self.wave_view().width_spec() as int,
            self.wave_view().height_spec() as int,
            possible_sets(self.wave_view().cells_view()),
            rules,
            self.wave_view().patterns(),
        )
        &&& self.history_consistent(rules)
    }

    /// What the solver's invariant gives callers: the wave is well formed with the solver's weights,
    /// at most `MAX_BACKTRACK_DEPTH` decisions are open, each with a record, and the undo history
    /// holds at most `MAX_UNDO_ENTRIES` removals.
    pub proof fn lemma_inv_facts(&self)
        requires
            self.inv(),
        ensures
            self.wave_view().wf(),
            self.wave_view().weights_match(self.weights_view()),
            self.weights_view().len() == self.wave_view().patterns(),
            self.cell_total() <= u32::MAX,
            self.wave_view().patterns() <= u32::MAX,
            self.decisions().len() <= MAX_BACKTRACK_DEPTH,
            self.decision_states().len() == self.decisions().len(),
            self.undo_view().entries_view().len() <= MAX_UNDO_ENTRIES,
            forall|i: int|
                0 <= i < self.decisions().len() ==> (#[trigger] self.decisions()[i]).cell_index < self.cell_total()
                    && self.decisions()[i].chosen_pattern_id < self.wave_view().patterns(),
    {
    }

    /// In a solver whose propagation has settled under `rules`, every two decided neighbors hold
    /// patterns that the rules allow side by side.
    pub proof fn lemma_settled_keeps_rules(&self, rules: AdjacencyRules)
        requires
            self.inv(),
            self.settled(rules),
        ensures
            self.wave_view().constraints_hold(rules),
    {
        lemma_consistent_wave_keeps_rules(self.wave, rules);
    }

    /// Number of cells.
    pub open spec fn cell_total(&self) -> nat {
        self.wave_view().cells_view().len()
    }

    /// The solver's tables fit its wave, the wave is well formed with weights `weights`, the undo
    /// history and the decisions agree with the wave, at most `MAX_BACKTRACK_DEPTH` decisions are
    /// open and the history holds at most `MAX_UNDO_ENTRIES` removals.
    pub closed spec fn inv(&self) -> bool {
        let weights = self.weights@;
        let c = self.wave.cells_view().len();
        let n = self.wave.patterns();
        &&& self.wave.wf()
        &&& self.wave.weights_match(weights)
        &&& weights.len() == n
        &&& weight_total(Seq::new(n, |i: int| true), weights) <= u64::MAX
        &&& c <= u32::MAX
        &&& n <= u32::MAX
        &&& self.queued_cells@.len() == c
        &&& self.pending_removals@.len() == c
        &&& self.entropy_dirty@.len() == c
        &&& self.entropy_heap.wf()
        &&& self.entropy_heap.entries().len() == c
        &&& forall|i: int| 0 <= i < self.propagation_queue@.len() ==> #[trigger] self.propagation_queue@[i] < c
        &&& self.propagation_queue@.no_duplicates()
        &&& forall|j: int| 0 <= j < c ==> (#[trigger] self.queued_cells@[j] <==> self.propagation_queue@.contains(j as usize))
        &&& forall|j: int, k: int|
            0 <= j < c && 0 <= k < self.pending_removals@[j]@.len() ==> #[trigger] self.pending_removals@[j]@[k] < n
        &&& forall|i: int| 0 <= i < self.dirty_entropy_cells@.len() ==> #[trigger] self.dirty_entropy_cells@[i] < c
        &&& self.dirty_entropy_cells@.no_duplicates()
        &&& forall|j: int| 0 <= j < c ==> (#[trigger] self.entropy_dirty@[j] <==> self.dirty_entropy_cells@.contains(j as usize))
        &&& forall|d: int| 0 <= d < 4 ==> (#[trigger] self.affected_marks[d])@.len() == n
        &&& forall|d: int, q: int| 0 <= d < 4 && 0 <= q < n ==> #[trigger] self.affected_marks[d]@[q] <= self.affected_epoch
        &&& forall|j: int| 0 <= j < c && (#[trigger] self.pending_removals@[j])@.len() > 0 ==> self.queued_cells@[j]
        &&& forall|d: int, k: int|
            0 <= d < 4 && 0 <= k < self.affected_patterns[d]@.len() ==> #[trigger] self.affected_patterns[d]@[k] < n
        &&& forall|i: int|
            0 <= i < self.decision_stack@.len() ==> (#[trigger] self.decision_stack@[i]).cell_index < c
                && self.decision_stack@[i].chosen_pattern_id < n && self.undo_log.base()
                <= self.decision_stack@[i].undo_checkpoint <= self.undo_log.end()
        &&& forall|i: int, j: int|
            0 <= i < j < self.decision_stack@.len() ==> (#[trigger] self.decision_stack@[i]).undo_checkpoint
                <= (#[trigger] self.decision_stack@[j]).undo_checkpoint
        &&& self.undo_log.end() <= u64::MAX
        &&& self.decision_stack@.len() <= MAX_BACKTRACK_DEPTH
        &&& self.undo_log.entries_view().len() <= MAX_UNDO_ENTRIES
        &&& self.pending_rejection matches Some(d) ==> d.cell_index < c && d.chosen_pattern_id < n
        &&& undo_entries_ok(self.undo_log.entries_view(), self.wave.cells_view(), n)
        &&& self.restorable_except(-1, -1)
    }

    /// Everything but the undo entries' agreement with the wave.
    closed spec fn inv_core(&self) -> bool {
        let weights = self.weights@;
        let c = self.wave.cells_view().len();
        let n = self.wave.patterns();
        &&& self.wave.wf()
        &&& self.wave.weights_match(weights)
        &&& weights.len() == n
        &&& weight_total(Seq::new(n, |i: int| true), weights) <= u64::MAX
        &&& c <= u32::MAX
        &&& n <= u32::MAX
        &&& self.queued_cells@.len() == c
        &&& self.pending_removals@.len() == c
        &&& self.entropy_dirty@.len() == c
        &&& self.entropy_heap.wf()
        &&& self.entropy_heap.entries().len() == c
        &&& forall|i: int| 0 <= i < self.propagation_queue@.len() ==> #[trigger] self.propagation_queue@[i] < c
        &&& self.propagation_queue@.no_duplicates()
        &&& forall|j: int| 0 <= j < c ==> (#[trigger] self.queued_cells@[j] <==> self.propagation_queue@.contains(j as usize))
        &&& forall|j: int, k: int|
            0 <= j < c && 0 <= k < self.pending_removals@[j]@.len() ==> #[trigger] self.pending_removals@[j]@[k] < n
        &&& forall|i: int| 0 <= i < self.dirty_entropy_cells@.len() ==> #[trigger] self.dirty_entropy_cells@[i] < c
        &&& self.dirty_entropy_cells@.no_duplicates()
        &&& forall|j: int| 0 <= j < c ==> (#[trigger] self.entropy_dirty@[j] <==> self.dirty_entropy_cells@.contains(j as usize))
        &&& forall|d: int| 0 <= d < 4 ==> (#[trigger] self.affected_marks[d])@.len() == n
        &&& forall|d: int, q: int| 0 <= d < 4 && 0 <= q < n ==> #[trigger] self.affected_marks[d]@[q] <= self.affected_epoch
        &&& forall|j: int| 0 <= j < c && (#[trigger] self.pending_removals@[j])@.len() > 0 ==> self.queued_cells@[j]
        &&& forall|d: int, k: int|
            0 <= d < 4 && 0 <= k < self.affected_patterns[d]@.len() ==> #[trigger] self.affected_patterns[d]@[k] < n
        &&& forall|i: int|
            0 <= i < self.decision_stack@.len() ==> (#[trigger] self.decision_stack@[i]).cell_index < c
                && self.decision_stack@[i].chosen_pattern_id < n && self.undo_log.base()
                <= self.decision_stack@[i].undo_checkpoint <= self.undo_log.end()
        &&& forall|i: int, j: int|
            0 <= i < j < self.decision_stack@.len() ==> (#[trigger] self.decision_stack@[i]).undo_checkpoint
                <= (#[trigger] self.decision_stack@[j]).undo_checkpoint
        &&& self.undo_log.end() <= u64::MAX
        &&& self.pending_rejection matches Some(d) ==> d.cell_index < c && d.chosen_pattern_id < n
    }

    /// Both solvers agree on everything but the affected-pattern marks and round.
    closed spec fn same_but_marks(&self, other: Self) -> bool {
        &&& self.wave == other.wave
        &&& self.weights == other.weights
        &&& self.propagation_queue == other.propagation_queue
        &&& self.queued_cells == other.queued_cells
        &&& self.pending_removals == other.pending_removals
        &&& self.removed_patterns_buffer == other.removed_patterns_buffer
        &&& self.entropy_heap == other.entropy_heap
        &&& self.entropy_dirty == other.entropy_dirty
        &&& self.dirty_entropy_cells == other.dirty_entropy_cells
        &&& self.decision_stack == other.decision_stack
        &&& self.decision_waves == other.decision_waves
        &&& self.undo_log == other.undo_log
        &&& self.pending_rejection == other.pending_rejection
        &&& self.affected_patterns == other.affected_patterns
    }

    /// Both solvers agree on everything but the affected-pattern marks, lists and round, and the
    /// counters.
    closed spec fn same_but_affected(&self, other: Self) -> bool {
        &&& self.wave == other.wave
        &&& self.weights == other.weights
        &&& self.propagation_queue == other.propagation_queue
        &&& self.queued_cells == other.queued_cells
        &&& self.pending_removals == other.pending_removals
        &&& self.removed_patterns_buffer == other.removed_patterns_buffer
        &&& self.entropy_heap == other.entropy_heap
        &&& self.entropy_dirty == other.entropy_dirty
        &&& self.dirty_entropy_cells == other.dirty_entropy_cells
        &&& self.decision_stack == other.decision_stack
        &&& self.decision_waves == other.decision_waves
        &&& self.undo_log == other.undo_log
        &&& self.pending_rejection == other.pending_rejection
    }

    /// Going from `self` to `other` counted a commit whenever decisions left the stack from below:
    /// the count of committed decisions never goes down, and it went up (unless it was already at
    /// its maximum) when the stack got shorter.
    pub open spec fn commits_cover(&self, other: Self) -> bool {
        &&& other.backtracking_view().committed_decisions >= self.backtracking_view().committed_decisions
        &&& other.decisions().len() < self.decisions().len() ==> (other.backtracking_view().committed_decisions
            > self.backtracking_view().committed_decisions || self.backtracking_view().committed_decisions == usize::MAX)
    }

    /// Going from `self` to `other` counted a history overflow if the decisions all went: the count
    /// of overflows never goes down, and it went up (unless it was already at its maximum) when an
    /// open decision was left and none is any more.
    pub open spec fn overflow_counted(&self, other: Self) -> bool {
        &&& other.backtracking_view().history_overflows >= self.backtracking_view().history_overflows
        &&& self.decisions().len() > 0 && other.decisions().len() == 0 ==> (other.backtracking_view().history_overflows
            > self.backtracking_view().history_overflows || self.backtracking_view().history_overflows == usize::MAX)
    }

    /// The heap is current for every cell not waiting for a refresh: such a cell is in the heap
    /// exactly when more than one pattern is still possible in it.
    pub open spec fn heap_current(&self) -> bool {
        forall|c: int|
            0 <= c < self.cell_total() && !self.dirty_cells().contains(c as usize) ==> (#[trigger] self.heap_view().entries()[c]
                is Some <==> self.wave_view().cells_view()[c].count() > 1)
    }

    /// Going from `self` to `other` recorded at most one removal: the decision count stays, the
    /// history and its checkpoint grow by at most one, and the open decisions all went only where
    /// the history was full (`MAX_UNDO_ENTRIES` entries) or its checkpoint at the limit of `u64`.
    pub open spec fn history_step(&self, other: Self) -> bool {
        &&& other.backtracking_view().decisions == self.backtracking_view().decisions
        &&& other.undo_view().entries_view().len() <= self.undo_view().entries_view().len() + 1
        &&& other.undo_view().end() <= self.undo_view().end() + 1
        &&& self.decisions().len() > 0 && other.decisions().len() == 0 ==> (self.undo_view().entries_view().len()
            >= MAX_UNDO_ENTRIES || self.undo_view().end() >= u64::MAX)
    }

    proof fn lemma_commits_cover_trans(&self, b: Self, c: Self)
        requires
            self.commits_cover(b),
            b.commits_cover(c),
            b.decision_stack@.len() <= self.decision_stack@.len(),
        ensures
            self.commits_cover(c),
    {
    }

    proof fn lemma_inv_split(&self)
        ensures
            self.inv() <==> (self.inv_core() && undo_entries_ok(
                self.undo_log.entries_view(),
                self.wave.cells_view(),
                self.wave.patterns(),
            ) && self.restorable_except(-1, -1) && self.decision_stack@.len() <= MAX_BACKTRACK_DEPTH
                && self.undo_log.entries_view().len() <= MAX_UNDO_ENTRIES),
    {
    }

    /// A solver for a `width` by `height` output of `model`, every cell allowing every pattern, the
    /// entropy heap holding each cell with its priority from `initial_priorities` when there is
    /// more than one pattern.
    pub fn new(width: usize, height: usize, model: &WfcModel, initial_priorities: Vec<u64>) -> (r: Self)
        requires
            model.wf(),
            width * height <= u32::MAX,
            model.patterns_view().len() <= u32::MAX,
            initial_priorities@.len() == width * height,
        ensures
            r.inv(),
            r.weights_view() == model.weights(),
            r.wave_view().width_spec() == width,
            r.wave_view().height_spec() == height,
            r.wave_view().patterns() == model.patterns_view().len(),
            forall|i: int|
                0 <= i < r.cell_total() ==> (#[trigger] r.wave_view().cells_view()[i]).possible() == Seq::new(
                    model.patterns_view().len(),
                    |p: int| true,
                ),
            r.heap_view().entries() == Seq::new(
                (width * height) as nat,
                |c: int| if model.patterns_view().len() > 1 { Some(initial_priorities@[c]) } else { None },
            ),
            r.queue_view().len() == 0,
            r.decisions().len() == 0,
            r.dirty_cells().len() == 0,
            r.heap_current(),
            r.pending_view() is None,
            every_pattern_supported(model.rules_view(), model.patterns_view().len()) && model.patterns_view().len() > 0
                ==> r.settled(model.rules_view()),
    {
        let cell_count = width * height;
        let pattern_count = model.pattern_count();
        let wave = Wave::new(width, height, pattern_count, model.total_weight());
        let mut pending_removals: Vec<Vec<PatternId>> = Vec::new();
        let mut k: usize = 0;
        while k < cell_count
            invariant
                k <= cell_count,
                pending_removals@.len() == k,
                forall|j: int| 0 <= j < k ==> (#[trigger] pending_removals@[j])@.len() == 0,
            decreases cell_count - k,
        {
            pending_removals.push(Vec::new());
            k = k + 1;
        }
        let r = Self {
            wave,
            propagation_queue: VecDeque::new(),
            queued_cells: vec![false; cell_count],
            pending_removals,
            removed_patterns_buffer: Vec::new(),
            entropy_heap: EntropyHeap::new(cell_count, pattern_count, initial_priorities),
            entropy_dirty: vec![false; cell_count],
            dirty_entropy_cells: Vec::new(),
            propagation_stats: PropagationStats::zero(),
            affected_marks: [
                vec![0u32; pattern_count],
                vec![0u32; pattern_count],
                vec![0u32; pattern_count],
                vec![0u32; pattern_count],
            ],
            affected_patterns: [Vec::new(), Vec::new(), Vec::new(), Vec::new()],
            affected_epoch: 0,
            backtracking_stats: BacktrackingStats::zero(),
            solve_counts: SolveCounts::zero(),
            decision_stack: VecDeque::new(),
            undo_log: UndoLog::new(),
            pending_rejection: None,
            weights: Ghost(model.weights()),
            decision_waves: Ghost(Seq::empty()),
        };
        proof {
            let n = pattern_count as nat;
            assert forall|i: int| 0 <= i < r.wave.cells_view().len() implies (#[trigger] r.wave.cells_view()[i]).weight_matches(model.weights()) by {
                assert(r.wave.cells_view()[i].possible() == Seq::new(n, |p: int| true));
            }
            assert(r.dirty_entropy_cells@.no_duplicates());
            if every_pattern_supported(model.rules_view(), n) {
                let sets = possible_sets(r.wave.cells_view());
                assert forall|c: int| 0 <= c < sets.len() implies #[trigger] sets[c] == Seq::new(n, |p: int| true) by {
                    assert(r.wave.cells_view()[c].possible() == Seq::new(n, |p: int| true));
                }
                lemma_full_wave_consistent(width as int, height as int, sets, model.rules_view(), n);
                if n > 0 {
                    assert forall|c: int| 0 <= c < sets.len() implies #[trigger] has_pattern(sets[c], n) by {
                        assert(sets[c][0]);
                    }
                    lemma_no_empty_cells(r.wave.cells_view(), n);
                }
            }
        }
        r
    }

    /// The wave being solved.
    pub fn get_wave(&self) -> (r: &Wave)
        ensures
            *r == self.wave_view(),
    {
        &self.wave
    }

    /// The counters of decisions taken and taken back.
    pub fn get_backtracking_stats(&self) -> (r: BacktrackingStats)
        ensures
            r == self.backtracking_view(),
    {
        self.backtracking_stats
    }

    /// The counters of propagation work.
    pub fn get_propagation_stats(&self) -> (r: PropagationStats)
        ensures
            r == self.propagation_view(),
    {
        self.propagation_stats
    }

    /// Sets all counters back to zero.
    pub fn reset_stats(&mut self)
        ensures
            final(self).wave_view() == old(self).wave_view(),
            old(self).inv() ==> final(self).inv(),
            final(self).weights_view() == old(self).weights_view(),
            final(self).dirty_cells() == old(self).dirty_cells(),
            final(self).queue_view() == old(self).queue_view(),
            final(self).decisions() == old(self).decisions(),
            final(self).heap_view() == old(self).heap_view(),
            final(self).pending_view() == old(self).pending_view(),
            final(self).propagation_view() == PropagationStats::zero_spec(),
            final(self).backtracking_view() == BacktrackingStats::zero_spec(),
            final(self).counts_view() == SolveCounts::zero_spec(),
    {
        self.propagation_stats = PropagationStats::zero();
        self.backtracking_stats = BacktrackingStats::zero();
        self.solve_counts = SolveCounts::zero();
    }

    /// The counters of observations and propagation runs of the rounds of solving.
    pub fn get_solve_counts(&self) -> (r: SolveCounts)
        ensures
            r == self.counts_view(),
    {
        self.solve_counts
    }

    /// Hands the entropy heap the new priority of every cell whose entropy changed (`priorities[i]`
    /// for the `i`-th of them in the order they changed), with its possible count.
    fn apply_entropy_priorities(&mut self, priorities: &[u64])
        requires
            old(self).inv(),
            priorities@.len() == old(self).dirty_cells().len(),
        ensures
            old(self).commits_cover(*final(self)),
            final(self).inv(),
            final(self).weights_view() == old(self).weights_view(),
            final(self).dirty_cells().len() == 0,
            final(self).wave_view() == old(self).wave_view(),
            final(self).queue_view() == old(self).queue_view(),
            final(self).decisions() == old(self).decisions(),
            final(self).decision_states() == old(self).decision_states(),
            final(self).pending_view() == old(self).pending_view(),
            forall|c: int|
                0 <= c < old(self).cell_total() ==> #[trigger] final(self).heap_view().entries()[c] == (
                if old(self).dirty_cells().contains(c as usize) {
                    if old(self).wave_view().cells_view()[c].count() > 1 {
                        Some(priorities@[old(self).dirty_cells().index_of(c as usize)])
                    } else {
                        None
                    }
                } else {
                    old(self).heap_view().entries()[c]
                }),
    {
        let n = self.dirty_entropy_cells.len();
        let ghost dirty = self.dirty_entropy_cells@;
        let mut i: usize = 0;
        while i < n
            invariant
                self.backtracking_stats == old(self).backtracking_stats,
                self.decision_stack == old(self).decision_stack,
                i <= n,
                n == dirty.len(),
                dirty == old(self).dirty_entropy_cells@,
                self.dirty_entropy_cells == old(self).dirty_entropy_cells,
                priorities@.len() == n,
                self.wave == old(self).wave,
                self.weights == old(self).weights,
                self.propagation_queue == old(self).propagation_queue,
                self.queued_cells == old(self).queued_cells,
                self.pending_removals == old(self).pending_removals,
                self.affected_marks == old(self).affected_marks,
                self.affected_patterns == old(self).affected_patterns,
                self.affected_epoch == old(self).affected_epoch,
                self.decision_stack == old(self).decision_stack,
                self.decision_waves == old(self).decision_waves,
                self.undo_log == old(self).undo_log,
                self.pending_rejection == old(self).pending_rejection,
                self.entropy_heap.wf(),
                self.entropy_heap.entries().len() == old(self).cell_total(),
                self.entropy_dirty@.len() == old(self).cell_total(),
                old(self).inv(),
                forall|k: int| 0 <= k < i ==> !#[trigger] self.entropy_dirty@[dirty[k] as int],
                forall|j: int|
                    0 <= j < old(self).cell_total() && !dirty.take(i as int).contains(j as usize) ==> #[trigger] self.entropy_dirty@[j] == old(self).entropy_dirty@[j],
                forall|c: int|
                    0 <= c < old(self).cell_total() ==> #[trigger] self.entropy_heap.entries()[c] == (
                    if dirty.take(i as int).contains(c as usize) {
                        if old(self).wave.cells_view()[c].count() > 1 {
                            Some(priorities@[dirty.index_of(c as usize)])
                        } else {
                            None
                        }
                    } else {
                        old(self).entropy_heap.entries()[c]
                    }),
            decreases n - i,
        {
            let cell_index = self.dirty_entropy_cells[i];
            self.entropy_dirty.set(cell_index, false);
            let cell = self.wave.get_cell_by_index(cell_index);
            let possible_count = match cell {
                Some(c) => c.possible_count(),
                None => 0,
            };
            let ghost before = self.entropy_heap.entries();
            self.entropy_heap.update(cell_index, priorities[i], possible_count);
            proof {
                assert(dirty.contains(cell_index));
                let j = dirty.index_of(cell_index);
                assert(dirty[j] == cell_index);
                assert(j == i);
                assert forall|c: int|
                    0 <= c < old(self).cell_total() implies #[trigger] self.entropy_heap.entries()[c] == (
                    if dirty.take(i + 1).contains(c as usize) {
                        if old(self).wave.cells_view()[c].count() > 1 {
                            Some(priorities@[dirty.index_of(c as usize)])
                        } else {
                            None
                        }
                    } else {
                        old(self).entropy_heap.entries()[c]
                    }) by {
                    if c == cell_index {
                        assert(dirty.take(i + 1)[i as int] == cell_index);
                    } else {
                        if dirty.take(i + 1).contains(c as usize) {
                            let k = choose|k: int| 0 <= k < i + 1 && #[trigger] dirty.take(i + 1)[k] == c as usize;
                            assert(dirty.take(i as int)[k] == c as usize);
                        }
                        if dirty.take(i as int).contains(c as usize) {
                            let k = choose|k: int| 0 <= k < i && #[trigger] dirty.take(i as int)[k] == c as usize;
                            assert(dirty.take(i + 1)[k] == c as usize);
                        }
                    }
                }
                assert forall|j2: int|
                    0 <= j2 < old(self).cell_total() && !dirty.take(i + 1).contains(j2 as usize) implies #[trigger] self.entropy_dirty@[j2] == old(self).entropy_dirty@[j2] by {
                    if j2 == cell_index {
                        assert(dirty.take(i + 1)[i as int] == cell_index);
                    }
                    if dirty.take(i as int).contains(j2 as usize) {
                        let k = choose|k: int| 0 <= k < i && #[trigger] dirty.take(i as int)[k] == j2 as usize;
                        assert(dirty.take(i + 1)[k] == j2 as usize);
                    }
                }
            }
            i = i + 1;
        }
        self.dirty_entropy_cells.clear();
        proof {
            assert(dirty.take(n as int) =~= dirty);
            assert forall|j: int| 0 <= j < old(self).cell_total() implies !#[trigger] self.entropy_dirty@[j] by {
                if dirty.contains(j as usize) {
                    let k = choose|k: int| 0 <= k < n && #[trigger] dirty[k] == j as usize;
                } else {
                    assert(!old(self).entropy_dirty@[j]);
                }
            }
        }
    }

    /// Notes that the entropy of cell `cell_index` must be recomputed.
    fn mark_entropy_dirty(&mut self, cell_index: usize)
        requires
            old(self).inv(),
            cell_index < old(self).cell_total(),
        ensures
            final(self).backtracking_stats == old(self).backtracking_stats,
            old(self).commits_cover(*final(self)),
            final(self).inv(),
            final(self).wave == old(self).wave,
            final(self).weights == old(self).weights,
            final(self).removed_patterns_buffer == old(self).removed_patterns_buffer,
            final(self).propagation_queue == old(self).propagation_queue,
            final(self).queued_cells == old(self).queued_cells,
            final(self).pending_removals == old(self).pending_removals,
            final(self).entropy_heap == old(self).entropy_heap,
            final(self).decision_stack == old(self).decision_stack,
            final(self).decision_waves == old(self).decision_waves,
            final(self).undo_log == old(self).undo_log,
            final(self).pending_rejection == old(self).pending_rejection,
            final(self).affected_marks == old(self).affected_marks,
            final(self).affected_patterns == old(self).affected_patterns,
            final(self).affected_epoch == old(self).affected_epoch,
            final(self).dirty_cells().contains(cell_index),
            forall|c: usize| old(self).dirty_cells().contains(c) ==> #[trigger] final(self).dirty_cells().contains(c),
    {
        if self.entropy_dirty[cell_index] {
            return;
        }
        self.entropy_dirty.set(cell_index, true);
        self.dirty_entropy_cells.push(cell_index);
        proof {
            let d = self.dirty_entropy_cells@;
            assert(d[d.len() - 1] == cell_index);
            assert forall|c: usize| old(self).dirty_cells().contains(c) implies #[trigger] self.dirty_cells().contains(c) by {
                let k = choose|k: int| 0 <= k < old(self).dirty_entropy_cells@.len() && #[trigger] old(self).dirty_entropy_cells@[k] == c;
                assert(d[k] == c);
            }
            assert forall|j: int| 0 <= j < self.cell_total() implies (#[trigger] self.entropy_dirty@[j] <==> d.contains(j as usize)) by {
                if d.contains(j as usize) && j != cell_index {
                    let k = choose|k: int| 0 <= k < d.len() && #[trigger] d[k] == j as usize;
                    assert(old(self).dirty_entropy_cells@[k] == j as usize);
                }
                if old(self).dirty_entropy_cells@.contains(j as usize) {
                    let k = choose|k: int| 0 <= k < old(self).dirty_entropy_cells@.len() && #[trigger] old(self).dirty_entropy_cells@[k] == j as usize;
                    assert(d[k] == j as usize);
                }
            }
            assert(!old(self).dirty_entropy_cells@.contains(cell_index));
        }
    }

    /// Notes that `pattern_id` was removed from cell `cell_index` and queues the cell for
    /// propagation if it is not queued yet.
    fn enqueue_pattern_removal(&mut self, cell_index: usize, pattern_id: PatternId)
        requires
            old(self).inv(),
            cell_index < old(self).cell_total(),
            pattern_id < old(self).wave.patterns(),
        ensures
            final(self).backtracking_stats == old(self).backtracking_stats,
            old(self).commits_cover(*final(self)),
            final(self).inv(),
            final(self).wave == old(self).wave,
            final(self).weights == old(self).weights,
            final(self).removed_patterns_buffer == old(self).removed_patterns_buffer,
            final(self).entropy_heap == old(self).entropy_heap,
            final(self).entropy_dirty == old(self).entropy_dirty,
            final(self).dirty_entropy_cells == old(self).dirty_entropy_cells,
            final(self).decision_stack == old(self).decision_stack,
            final(self).decision_waves == old(self).decision_waves,
            final(self).undo_log == old(self).undo_log,
            final(self).pending_rejection == old(self).pending_rejection,
            final(self).affected_marks == old(self).affected_marks,
            final(self).affected_patterns == old(self).affected_patterns,
            final(self).affected_epoch == old(self).affected_epoch,
            final(self).queue_view().contains(cell_index),
            forall|c: usize| old(self).queue_view().contains(c) ==> #[trigger] final(self).queue_view().contains(c),
            final(self).queue_view().len() <= old(self).queue_view().len() + 1,
            final(self).pending_removals@.len() == old(self).pending_removals@.len(),
            final(self).pending_removals@[cell_index as int]@ == old(self).pending_removals@[cell_index as int]@.push(pattern_id),
            forall|j: int|
                0 <= j < old(self).pending_removals@.len() && j != cell_index ==> #[trigger] final(self).pending_removals@[j]
                    == old(self).pending_removals@[j],
    {
        self.pending_removals[cell_index].push(pattern_id);
        let ghost q = self.propagation_queue@;
        if !self.queued_cells[cell_index] {
            self.queued_cells.set(cell_index, true);
            self.propagation_queue.push_back(cell_index);
            proof {
                let nq = self.propagation_queue@;
                assert(nq[nq.len() - 1] == cell_index);
                assert forall|c: usize| q.contains(c) implies #[trigger] nq.contains(c) by {
                    let k = choose|k: int| 0 <= k < q.len() && #[trigger] q[k] == c;
                    assert(nq[k] == c);
                }
                assert forall|j: int| 0 <= j < self.cell_total() implies (#[trigger] self.queued_cells@[j] <==> nq.contains(j as usize)) by {
                    if nq.contains(j as usize) && j != cell_index {
                        let k = choose|k: int| 0 <= k < nq.len() && #[trigger] nq[k] == j as usize;
                        assert(q[k] == j as usize);
                    }
                    if q.contains(j as usize) {
                        let k = choose|k: int| 0 <= k < q.len() && #[trigger] q[k] == j as usize;
                        assert(nq[k] == j as usize);
                    }
                }
                assert(!q.contains(cell_index));
            }
        }
        proof {
            assert forall|j: int, k: int|
                0 <= j < self.cell_total() && 0 <= k < self.pending_removals@[j]@.len() implies #[trigger] self.pending_removals@[j]@[k]
                < self.wave.patterns() by {
                if j != cell_index || k < old(self).pending_removals@[j]@.len() {
                    assert(self.pending_removals@[j]@[k] == old(self).pending_removals@[j]@[k]);
                }
            }
        }
    }

    /// Starts a new marking round for the affected patterns, clearing all marks when the round
    /// number wraps around.
    fn advance_affected_epoch(&mut self)
        requires
            old(self).inv(),
        ensures
            final(self).backtracking_stats == old(self).backtracking_stats,
            final(self).decision_stack == old(self).decision_stack,
            old(self).commits_cover(*final(self)),
            final(self).inv(),
            final(self).same_but_marks(*old(self)),
            forall|d: int, q: int|
                0 <= d < 4 && 0 <= q < old(self).wave.patterns() ==> #[trigger] final(self).affected_marks[d]@[q] < final(self).affected_epoch,
    {
        self.affected_epoch = self.affected_epoch.wrapping_add(1);
        if self.affected_epoch == 0 {
            let n = self.affected_marks[0].len();
            let mut d: usize = 0;
            while d < 4
                invariant
                    self.backtracking_stats == old(self).backtracking_stats,
                    self.decision_stack == old(self).decision_stack,
                    d <= 4,
                    n == self.wave.patterns(),
                    forall|e: int| 0 <= e < 4 ==> (#[trigger] self.affected_marks[e])@.len() == n,
                    forall|e: int, p: int| 0 <= e < d && 0 <= p < n ==> #[trigger] self.affected_marks[e]@[p] == 0,
                    self.same_but_marks(*old(self)),
                decreases 4 - d,
            {
                let mut p: usize = 0;
                while p < n
                    invariant
                        self.backtracking_stats == old(self).backtracking_stats,
                        self.decision_stack == old(self).decision_stack,
                        d < 4,
                        p <= n,
                        n == self.wave.patterns(),
                        forall|e: int| 0 <= e < 4 ==> (#[trigger] self.affected_marks[e])@.len() == n,
                        forall|e: int, q: int| 0 <= e < d && 0 <= q < n ==> #[trigger] self.affected_marks[e]@[q] == 0,
                        forall|q: int| 0 <= q < p ==> #[trigger] self.affected_marks[d as int]@[q] == 0,
                        self.same_but_marks(*old(self)),
                    decreases n - p,
                {
                    self.affected_marks[d].set(p, 0);
                    p = p + 1;
                }
                d = d + 1;
            }
            self.affected_epoch = 1;
        }
    }

    /// Empties the propagation queue, dropping the removals waiting for the queued cells, and the
    /// scratch lists.
    fn clear_propagation_state(&mut self)
        requires
            old(self).inv(),
        ensures
            final(self).backtracking_stats == old(self).backtracking_stats,
            final(self).inv(),
            final(self).queue_view().len() == 0,
            final(self).wave == old(self).wave,
            final(self).weights == old(self).weights,
            final(self).entropy_heap == old(self).entropy_heap,
            final(self).entropy_dirty == old(self).entropy_dirty,
            final(self).dirty_entropy_cells == old(self).dirty_entropy_cells,
            final(self).decision_stack == old(self).decision_stack,
            final(self).decision_waves == old(self).decision_waves,
            final(self).undo_log == old(self).undo_log,
            final(self).pending_rejection == old(self).pending_rejection,
    {
        while self.propagation_queue.len() > 0
            invariant
                self.backtracking_stats == old(self).backtracking_stats,
                self.inv(),
                self.wave == old(self).wave,
                self.weights == old(self).weights,
                self.entropy_heap == old(self).entropy_heap,
                self.entropy_dirty == old(self).entropy_dirty,
                self.dirty_entropy_cells == old(self).dirty_entropy_cells,
                self.decision_stack == old(self).decision_stack,
                self.decision_waves == old(self).decision_waves,
                self.undo_log == old(self).undo_log,
                self.pending_rejection == old(self).pending_rejection,
            decreases self.propagation_queue@.len(),
        {
            let ghost before = self.propagation_queue@;
            let front = self.propagation_queue.pop_front();
            if let Some(cell_index) = front {
                proof {
                    assert(before[0] < self.cell_total());
                }
                let ghost queued_before = self.queued_cells@;
                self.queued_cells.set(cell_index, false);
                self.pending_removals[cell_index].clear();
                proof {
                    assert forall|i: int| 0 <= i < self.propagation_queue@.len() implies #[trigger] self.propagation_queue@[i]
                        < self.cell_total() by {
                        assert(self.propagation_queue@[i] == before[i + 1]);
                    }
                    let nq = self.propagation_queue@;
                    assert forall|a: int, b: int| 0 <= a < b < nq.len() implies nq[a] != nq[b] by {
                        assert(nq[a] == before[a + 1] && nq[b] == before[b + 1]);
                    }
                    assert forall|j: int| 0 <= j < self.cell_total() implies (#[trigger] self.queued_cells@[j] <==> nq.contains(j as usize)) by {
                        if nq.contains(j as usize) {
                            let k = choose|k: int| 0 <= k < nq.len() && #[trigger] nq[k] == j as usize;
                            assert(before[k + 1] == j as usize);
                            assert(before[0] != before[k + 1]);
                        }
                        if j != cell_index && before.contains(j as usize) {
                            let k = choose|k: int| 0 <= k < before.len() && #[trigger] before[k] == j as usize;
                            assert(k != 0);
                            assert(nq[k - 1] == j as usize);
                        }
                        if j != cell_index {
                            assert(queued_before[j] == self.queued_cells@[j]);
                        }
                    }
                    assert forall|j: int, k: int|
                        0 <= j < self.cell_total() && 0 <= k < self.pending_removals@[j]@.len() implies #[trigger] self.pending_removals@[j]@[k]
                        < self.wave.patterns() by {
                        assert(j != cell_index);
                    }
                }
            }
        }
        self.removed_patterns_buffer.clear();
        self.affected_patterns[0].clear();
        self.affected_patterns[1].clear();
        self.affected_patterns[2].clear();
        self.affected_patterns[3].clear();
    }

    /// Forgets which cells' entropy must be recomputed.
    fn clear_entropy_dirty_tracking(&mut self)
        requires
            old(self).inv(),
        ensures
            final(self).backtracking_stats == old(self).backtracking_stats,
            final(self).inv(),
            final(self).dirty_cells().len() == 0,
            final(self).wave == old(self).wave,
            final(self).weights == old(self).weights,
            final(self).removed_patterns_buffer == old(self).removed_patterns_buffer,
            final(self).propagation_queue == old(self).propagation_queue,
            final(self).queued_cells == old(self).queued_cells,
            final(self).pending_removals == old(self).pending_removals,
            final(self).entropy_heap == old(self).entropy_heap,
            final(self).decision_stack == old(self).decision_stack,
            final(self).decision_waves == old(self).decision_waves,
            final(self).undo_log == old(self).undo_log,
            final(self).pending_rejection == old(self).pending_rejection,
    {
        let n = self.dirty_entropy_cells.len();
        let ghost dirty = self.dirty_entropy_cells@;
        let mut i: usize = 0;
        while i < n
            invariant
                self.backtracking_stats == old(self).backtracking_stats,
                i <= n,
                n == dirty.len(),
                self.dirty_entropy_cells@ == dirty,
                self.entropy_dirty@.len() == old(self).cell_total(),
                old(self).inv(),
                dirty == old(self).dirty_entropy_cells@,
                forall|k: int| 0 <= k < i ==> !#[trigger] self.entropy_dirty@[dirty[k] as int],
                forall|j: int|
                    0 <= j < old(self).cell_total() && !dirty.take(i as int).contains(j as usize) ==> #[trigger] self.entropy_dirty@[j]
                        == old(self).entropy_dirty@[j],
                self.wave == old(self).wave,
                self.weights == old(self).weights,
                self.removed_patterns_buffer == old(self).removed_patterns_buffer,
                self.propagation_queue == old(self).propagation_queue,
                self.queued_cells == old(self).queued_cells,
                self.pending_removals == old(self).pending_removals,
                self.entropy_heap == old(self).entropy_heap,
                self.decision_stack == old(self).decision_stack,
                self.decision_waves == old(self).decision_waves,
                self.undo_log == old(self).undo_log,
                self.pending_rejection == old(self).pending_rejection,
                self.affected_marks == old(self).affected_marks,
                self.affected_patterns == old(self).affected_patterns,
                self.affected_epoch == old(self).affected_epoch,
            decreases n - i,
        {
            let cell_index = self.dirty_entropy_cells[i];
            self.entropy_dirty.set(cell_index, false);
            proof {
                assert forall|j2: int|
                    0 <= j2 < old(self).cell_total() && !dirty.take(i + 1).contains(j2 as usize) implies #[trigger] self.entropy_dirty@[j2]
                    == old(self).entropy_dirty@[j2] by {
                    if j2 == cell_index {
                        assert(dirty.take(i + 1)[i as int] == cell_index);
                    }
                    if dirty.take(i as int).contains(j2 as usize) {
                        let k = choose|k: int| 0 <= k < i && #[trigger] dirty.take(i as int)[k] == j2 as usize;
                        assert(dirty.take(i + 1)[k] == j2 as usize);
                    }
                }
            }
            i = i + 1;
        }
        self.dirty_entropy_cells.clear();
        proof {
            assert(dirty.take(n as int) =~= dirty);
            assert forall|j: int| 0 <= j < old(self).cell_total() implies !#[trigger] self.entropy_dirty@[j] by {
                if dirty.contains(j as usize) {
                    let k = choose|k: int| 0 <= k < n && #[trigger] dirty[k] == j as usize;
                } else {
                    assert(!old(self).entropy_dirty@[j]);
                }
            }
        }
    }

    /// Makes the oldest decision permanent: it can no longer be taken back, and the undo entries
    /// before the next decision are dropped.
    fn commit_oldest_decision(&mut self, Ghost(xc): Ghost<int>, Ghost(xp): Ghost<int>)
        requires
            old(self).inv_core(),
            undo_entries_ok(old(self).undo_log.entries_view(), old(self).wave.cells_view(), old(self).wave.patterns()),
            old(self).restorable_except(xc, xp),
        ensures
            final(self).backtracking_stats.history_overflows == old(self).backtracking_stats.history_overflows,
            final(self).backtracking_stats.decisions == old(self).backtracking_stats.decisions,
            final(self).inv_core(),
            undo_entries_ok(final(self).undo_log.entries_view(), final(self).wave.cells_view(), final(self).wave.patterns()),
            final(self).restorable_except(xc, xp),
            final(self).wave == old(self).wave,
            final(self).weights == old(self).weights,
            final(self).removed_patterns_buffer == old(self).removed_patterns_buffer,
            final(self).propagation_queue == old(self).propagation_queue,
            final(self).queued_cells == old(self).queued_cells,
            final(self).pending_removals == old(self).pending_removals,
            final(self).entropy_heap == old(self).entropy_heap,
            final(self).entropy_dirty == old(self).entropy_dirty,
            final(self).dirty_entropy_cells == old(self).dirty_entropy_cells,
            final(self).pending_rejection == old(self).pending_rejection,
            final(self).affected_marks == old(self).affected_marks,
            final(self).affected_patterns == old(self).affected_patterns,
            old(self).decisions().len() > 0 ==> final(self).decisions() == old(self).decisions().drop_first()
                && final(self).decision_states() == old(self).decision_states().drop_first(),
            old(self).decisions().len() == 0 ==> final(self).decisions() == old(self).decisions()
                && final(self).decision_states() == old(self).decision_states(),
            forall|i: int| 0 <= i < final(self).undo_view().entries_view().len() ==> old(self).undo_view().entries_view().contains(
                #[trigger] final(self).undo_view().entries_view()[i],
            ),
            final(self).undo_view().end() == old(self).undo_view().end(),
            final(self).undo_log.entries_view().len() <= old(self).undo_log.entries_view().len(),
            old(self).commits_cover(*final(self)),
    {
        let oldest = self.decision_stack.pop_front();
        if oldest.is_none() {
            return;
        }
        let ghost old_records = self.decision_waves@;
        proof {
            self.decision_waves = Ghost(self.decision_waves@.drop_first());
        }
        self.backtracking_stats.committed_decisions = self.backtracking_stats.committed_decisions.saturating_add(1);
        let ghost old_entries = self.undo_log.entries_view();
        let ghost old_base = self.undo_log.base();
        if self.decision_stack.len() > 0 {
            let next_checkpoint = self.decision_stack[0].undo_checkpoint;
            proof {
                assert(self.decision_stack@[0] == old(self).decision_stack@[1]);
            }
            self.undo_log.discard_before(next_checkpoint);
            proof {
                let e = self.undo_log.entries_view();
                let k = next_checkpoint - old(self).undo_log.base();
                assert forall|i: int| 0 <= i < e.len() implies old_entries.contains(#[trigger] e[i]) by {
                    assert(e[i] == old_entries[i + k]);
                }
                assert forall|i: int, j: int| 0 <= i < j < e.len() implies (#[trigger] e[i]).cell() != (#[trigger] e[j]).cell()
                    || e[i].pattern() != e[j].pattern() by {
                    assert(e[i] == old_entries[i + k] && e[j] == old_entries[j + k]);
                }
                assert forall|i: int| 0 <= i < self.decision_stack@.len() implies (#[trigger] self.decision_stack@[i]).cell_index
                    < self.cell_total() && self.decision_stack@[i].chosen_pattern_id < self.wave.patterns()
                    && self.undo_log.base() <= self.decision_stack@[i].undo_checkpoint <= self.undo_log.end() by {
                    assert(self.decision_stack@[i] == old(self).decision_stack@[i + 1]);
                    assert(old(self).decision_stack@[1].undo_checkpoint <= old(self).decision_stack@[i + 1].undo_checkpoint);
                }
                assert forall|i: int, j: int| 0 <= i < j < self.decision_stack@.len() implies (#[trigger] self.decision_stack@[i]).undo_checkpoint
                    <= (#[trigger] self.decision_stack@[j]).undo_checkpoint by {
                    assert(self.decision_stack@[i] == old(self).decision_stack@[i + 1]);
                    assert(self.decision_stack@[j] == old(self).decision_stack@[j + 1]);
                }
                let records = self.decision_waves@;
                let ds = self.decision_stack@;
                let cells = self.wave.cells_view();
                let n = self.wave.patterns();
                assert forall|i: int, c: int, q: int|
                    0 <= i < records.len() && 0 <= c < cells.len() && 0 <= q < n && (c != xc || q != xp)
                        implies #[trigger] decision_state_ok(records, ds, cells, e, self.undo_log.base(), i, c, q) by {
                    assert(records[i] == old_records[i + 1]);
                    assert(ds[i] == old(self).decision_stack@[i + 1]);
                    assert(decision_state_ok(old_records, old(self).decision_stack@, cells, old_entries, old_base, i + 1, c, q));
                    let a = ds[i].undo_checkpoint - old_base;
                    assert(e.skip(ds[i].undo_checkpoint - self.undo_log.base()) =~= old_entries.skip(a));
                }
                assert forall|i: int| 0 <= i < records.len() implies (#[trigger] records[i]).len() == cells.len() && forall|k2: int|
                    0 <= k2 < cells.len() ==> (#[trigger] records[i][k2]).len() == n by {
                    assert(records[i] == old_records[i + 1]);
                }
                if 0 <= xc < cells.len() && 0 <= xp < n {
                    assert forall|i: int| 0 <= i < records.len() implies #[trigger] records[i][xc][xp] by {
                        assert(records[i] == old_records[i + 1]);
                    }
                }
            }
        } else {
            self.undo_log.clear_committed();
        }
    }

    /// Records that `pattern_id` was just removed from cell `cell_index`, so that the removal can be
    /// undone, when a decision is open; makes old decisions permanent when the history is full.
    fn record_undo(&mut self, cell_index: usize, pattern_id: PatternId)
        requires
            old(self).inv_core(),
            undo_entries_ok(old(self).undo_log.entries_view(), old(self).wave.cells_view(), old(self).wave.patterns()),
            cell_index < old(self).cell_total(),
            pattern_id < old(self).wave.patterns(),
            !old(self).wave.cells_view()[cell_index as int].possible()[pattern_id as int],
            forall|i: int| 0 <= i < old(self).undo_log.entries_view().len() ==> !((#[trigger] old(self).undo_log.entries_view()[i]).cell()
                == cell_index && old(self).undo_log.entries_view()[i].pattern() == pattern_id),
            old(self).restorable_except(cell_index as int, pattern_id as int),
            old(self).decision_stack@.len() <= MAX_BACKTRACK_DEPTH,
            old(self).undo_log.entries_view().len() <= MAX_UNDO_ENTRIES,
        ensures
            old(self).overflow_counted(*final(self)),
            old(self).history_step(*final(self)),
            final(self).inv(),
            final(self).wave == old(self).wave,
            final(self).weights == old(self).weights,
            final(self).removed_patterns_buffer == old(self).removed_patterns_buffer,
            final(self).propagation_queue == old(self).propagation_queue,
            final(self).queued_cells == old(self).queued_cells,
            final(self).pending_removals == old(self).pending_removals,
            final(self).entropy_heap == old(self).entropy_heap,
            final(self).entropy_dirty == old(self).entropy_dirty,
            final(self).dirty_entropy_cells == old(self).dirty_entropy_cells,
            final(self).pending_rejection == old(self).pending_rejection,
            final(self).affected_marks == old(self).affected_marks,
            final(self).affected_patterns == old(self).affected_patterns,
            final(self).decisions().len() <= old(self).decisions().len(),
            final(self).decision_states() == old(self).decision_states().skip(
                old(self).decision_states().len() - final(self).decision_states().len(),
            ),
            final(self).decisions() == old(self).decisions().skip(old(self).decisions().len() - final(self).decisions().len()),
            final(self).decision_states().len() > 0 ==> old(self).decision_states().len() > 0
                && final(self).decision_states().last() == old(self).decision_states().last(),
            old(self).commits_cover(*final(self)),
    {
        let ghost xc = cell_index as int;
        let ghost xp = pattern_id as int;
        proof {
            self.lemma_inv_split();
        }
        if self.decision_stack.len() == 0 {
            return;
        }
        proof {
            assert(self.decision_waves@ =~= old(self).decision_waves@.skip(0));
            assert(self.decision_stack@ =~= old(self).decision_stack@.skip(0));
        }
        while self.undo_log.len() >= MAX_UNDO_ENTRIES && self.decision_stack.len() > 1
            invariant
                self.inv_core(),
                undo_entries_ok(self.undo_log.entries_view(), self.wave.cells_view(), self.wave.patterns()),
                self.restorable_except(xc, xp),
                xc == cell_index,
                xp == pattern_id,
                cell_index < self.cell_total(),
                pattern_id < self.wave.patterns(),
                !self.wave.cells_view()[cell_index as int].possible()[pattern_id as int],
                forall|i: int| 0 <= i < self.undo_log.entries_view().len() ==> !((#[trigger] self.undo_log.entries_view()[i]).cell()
                    == cell_index && self.undo_log.entries_view()[i].pattern() == pattern_id),
                self.decision_stack@.len() >= 1,
                self.wave == old(self).wave,
                self.weights == old(self).weights,
                self.removed_patterns_buffer == old(self).removed_patterns_buffer,
                self.propagation_queue == old(self).propagation_queue,
                self.queued_cells == old(self).queued_cells,
                self.pending_removals == old(self).pending_removals,
                self.entropy_heap == old(self).entropy_heap,
                self.entropy_dirty == old(self).entropy_dirty,
                self.dirty_entropy_cells == old(self).dirty_entropy_cells,
                self.pending_rejection == old(self).pending_rejection,
                self.affected_marks == old(self).affected_marks,
                self.affected_patterns == old(self).affected_patterns,
                self.decision_stack@.len() <= old(self).decision_stack@.len(),
                self.decision_waves@.len() > 0,
                self.decision_waves@.last() == old(self).decision_waves@.last(),
                self.decision_waves@ == old(self).decision_waves@.skip(old(self).decision_waves@.len() - self.decision_waves@.len()),
                self.decision_waves@.len() <= old(self).decision_waves@.len(),
                self.decision_stack@ == old(self).decision_stack@.skip(old(self).decision_stack@.len() - self.decision_stack@.len()),
                self.decision_stack@.len() <= MAX_BACKTRACK_DEPTH,
                self.undo_log.entries_view().len() <= MAX_UNDO_ENTRIES,
                old(self).commits_cover(*self),
                self.backtracking_stats.history_overflows == old(self).backtracking_stats.history_overflows,
                self.backtracking_stats.decisions == old(self).backtracking_stats.decisions,
                self.undo_log.entries_view().len() <= old(self).undo_log.entries_view().len(),
                self.undo_log.end() == old(self).undo_log.end(),
            decreases self.decision_stack@.len(),
        {
            let ghost before = self.undo_log.entries_view();
            let ghost records_before = self.decision_waves@;
            let ghost decisions_before = self.decision_stack@;
            let ghost iter_start = *self;
            self.commit_oldest_decision(Ghost(xc), Ghost(xp));
            proof {
                old(self).lemma_commits_cover_trans(iter_start, *self);
                let od = old(self).decision_stack@;
                let ad = od.len() - decisions_before.len();
                assert(decisions_before.len() <= od.len());
                assert(self.decision_stack@ =~= decisions_before.drop_first());
                assert forall|t: int| 0 <= t < decisions_before.len() - 1 implies #[trigger] decisions_before.drop_first()[t] == od.skip(ad + 1)[t] by {
                    assert(decisions_before[t + 1] == od[ad + t + 1]);
                }
                assert(decisions_before.drop_first() =~= od.skip(ad + 1));
            }
            proof {
                let o = old(self).decision_waves@;
                let a = o.len() - records_before.len();
                assert(records_before.len() <= o.len());
                assert(self.decision_waves@ =~= records_before.drop_first());
                assert forall|t: int| 0 <= t < records_before.len() - 1 implies #[trigger] records_before.drop_first()[t] == o.skip(a + 1)[t] by {
                    assert(records_before[t + 1] == o[a + t + 1]);
                }
                assert(records_before.drop_first() =~= o.skip(a + 1));
            }
            proof {
                assert forall|i: int| 0 <= i < self.undo_log.entries_view().len() implies !((#[trigger] self.undo_log.entries_view()[i]).cell()
                    == cell_index && self.undo_log.entries_view()[i].pattern() == pattern_id) by {
                    assert(before.contains(self.undo_log.entries_view()[i]));
                }
            }
        }
        let end = self.undo_log.checkpoint();
        if self.undo_log.len() >= MAX_UNDO_ENTRIES || end == u64::MAX {
            self.backtracking_stats.history_overflows = self.backtracking_stats.history_overflows.saturating_add(1);
            self.backtracking_stats.committed_decisions = self.backtracking_stats.committed_decisions.saturating_add(
                self.decision_stack.len(),
            );
            self.decision_stack.clear();
            proof {
                self.decision_waves = Ghost(Seq::empty());
            }
            self.undo_log.clear_committed();
            return;
        }
        let ghost before = self.undo_log.entries_view();
        self.undo_log.push(UndoEntry::new(cell_index, pattern_id));
        let len = self.undo_log.len();
        if len > self.backtracking_stats.peak_undo_entries {
            self.backtracking_stats.peak_undo_entries = len;
        }
        proof {
            let e = self.undo_log.entries_view();
            assert forall|i: int, j: int| 0 <= i < j < e.len() implies (#[trigger] e[i]).cell() != (#[trigger] e[j]).cell()
                || e[i].pattern() != e[j].pattern() by {
                if j < e.len() - 1 {
                    assert(e[i] == before[i] && e[j] == before[j]);
                } else {
                    assert(e[i] == before[i]);
                }
            }
            assert forall|i: int| 0 <= i < e.len() implies (#[trigger] e[i]).cell() < self.cell_total() && e[i].pattern()
                < self.wave.patterns() && !self.wave.cells_view()[e[i].cell() as int].possible()[e[i].pattern() as int] by {
                if i < e.len() - 1 {
                    assert(e[i] == before[i]);
                }
            }
            let records = self.decision_waves@;
            let ds = self.decision_stack@;
            let cells = self.wave.cells_view();
            let n = self.wave.patterns();
            let base = self.undo_log.base();
            let entry = e[e.len() - 1];
            assert(entry.cell() == cell_index && entry.pattern() == pattern_id);
            assert forall|i: int, c: int, q: int|
                0 <= i < records.len() && 0 <= c < cells.len() && 0 <= q < n implies #[trigger] decision_state_ok(
                records,
                ds,
                cells,
                e,
                base,
                i,
                c,
                q,
            ) by {
                let a = ds[i].undo_checkpoint - base;
                assert(0 <= a <= before.len());
                assert(e.skip(a) =~= before.skip(a).push(entry));
                let s0 = before.skip(a);
                let s1 = e.skip(a);
                if recorded(s0, c, q) {
                    let k = choose|k: int| 0 <= k < s0.len() && (#[trigger] s0[k]).cell() == c && s0[k].pattern() == q;
                    assert(s1[k] == s0[k]);
                }
                if recorded(s1, c, q) && !(c == xc && q == xp) {
                    let k = choose|k: int| 0 <= k < s1.len() && (#[trigger] s1[k]).cell() == c && s1[k].pattern() == q;
                    if k < s0.len() {
                        assert(s0[k] == s1[k]);
                    }
                }
                if c == xc && q == xp {
                    assert(s1[s0.len() as int] == entry);
                    assert(records[i][xc][xp]);
                } else {
                    assert(decision_state_ok(records, ds, cells, before, base, i, c, q));
                }
            }
        }
    }

    /// Opens a decision: cell `cell_index` gets `chosen_pattern_id`; what follows can be undone up
    /// to here. The oldest decisions become permanent beyond the maximum depth.
    fn begin_decision(&mut self, cell_index: usize, chosen_pattern_id: PatternId)
        requires
            old(self).inv(),
            cell_index < old(self).cell_total(),
            chosen_pattern_id < old(self).wave.patterns(),
            old(self).wave.cells_view()[cell_index as int].possible()[chosen_pattern_id as int],
        ensures
            final(self).backtracking_stats.history_overflows == old(self).backtracking_stats.history_overflows,
            final(self).inv(),
            final(self).wave == old(self).wave,
            final(self).weights == old(self).weights,
            final(self).removed_patterns_buffer == old(self).removed_patterns_buffer,
            final(self).propagation_queue == old(self).propagation_queue,
            final(self).queued_cells == old(self).queued_cells,
            final(self).pending_removals == old(self).pending_removals,
            final(self).entropy_heap == old(self).entropy_heap,
            final(self).entropy_dirty == old(self).entropy_dirty,
            final(self).dirty_entropy_cells == old(self).dirty_entropy_cells,
            final(self).pending_rejection == old(self).pending_rejection,
            final(self).affected_marks == old(self).affected_marks,
            final(self).affected_patterns == old(self).affected_patterns,
            final(self).backtracking_view().decisions == if old(self).backtracking_view().decisions < usize::MAX {
                (old(self).backtracking_view().decisions + 1) as usize
            } else {
                old(self).backtracking_view().decisions
            },
            final(self).undo_view().entries_view().len() <= old(self).undo_view().entries_view().len(),
            final(self).undo_view().end() == old(self).undo_view().end(),
            final(self).decisions().len() > 0,
            final(self).decisions().last() == (Decision {
                cell_index,
                chosen_pattern_id,
                undo_checkpoint: old(self).undo_view().end() as u64,
            }),
            final(self).decision_states().last() == possible_sets(old(self).wave.cells_view()),
            final(self).decision_states().len() <= old(self).decision_states().len() + 1,
            final(self).decision_states() == old(self).decision_states().push(possible_sets(old(self).wave.cells_view())).skip(
                old(self).decision_states().len() + 1 - final(self).decision_states().len(),
            ),
    {
        let decision = Decision {
            cell_index,
            chosen_pattern_id,
            undo_checkpoint: self.undo_log.checkpoint(),
        };
        let ghost snapshot = possible_sets(self.wave.cells_view());
        let ghost old_records = self.decision_waves@;
        self.decision_stack.push_back(decision);
        proof {
            self.decision_waves = Ghost(self.decision_waves@.push(snapshot));
            let records = self.decision_waves@;
            let ds = self.decision_stack@;
            let cells = self.wave.cells_view();
            let e = self.undo_log.entries_view();
            let base = self.undo_log.base();
            let n = self.wave.patterns();
            let last = records.len() - 1;
            assert(e.skip(ds[last].undo_checkpoint - base).len() == 0);
            assert forall|k: int, c: int, q: int|
                0 <= k < records.len() && 0 <= c < cells.len() && 0 <= q < n implies #[trigger] decision_state_ok(
                records,
                ds,
                cells,
                e,
                base,
                k,
                c,
                q,
            ) by {
                if k < last {
                    assert(records[k] == old_records[k]);
                    assert(ds[k] == old(self).decision_stack@[k]);
                    assert(decision_state_ok(old_records, old(self).decision_stack@, cells, e, base, k, c, q));
                } else {
                    assert(!recorded(e.skip(ds[last].undo_checkpoint - base), c, q));
                }
            }
            assert forall|k: int| 0 <= k < records.len() implies (#[trigger] records[k]).len() == cells.len() && forall|k2: int|
                0 <= k2 < cells.len() ==> (#[trigger] records[k][k2]).len() == n by {
                if k < last {
                    assert(records[k] == old_records[k]);
                }
            }
            self.lemma_inv_split();
            old(self).lemma_inv_split();
            assert(self.decision_waves@ =~= old(self).decision_waves@.push(snapshot).skip(0));
        }
        self.backtracking_stats.decisions = self.backtracking_stats.decisions.saturating_add(1);
        while self.decision_stack.len() > MAX_BACKTRACK_DEPTH
            invariant
                self.inv_core(),
                undo_entries_ok(self.undo_log.entries_view(), self.wave.cells_view(), self.wave.patterns()),
                self.restorable_except(-1, -1),
                self.decision_stack@.len() <= MAX_BACKTRACK_DEPTH + 1,
                self.undo_log.entries_view().len() <= MAX_UNDO_ENTRIES,
                self.backtracking_stats.history_overflows == old(self).backtracking_stats.history_overflows,
                self.backtracking_stats.decisions == if old(self).backtracking_stats.decisions < usize::MAX {
                    (old(self).backtracking_stats.decisions + 1) as usize
                } else {
                    old(self).backtracking_stats.decisions
                },
                self.undo_log.entries_view().len() <= old(self).undo_log.entries_view().len(),
                self.undo_log.end() == old(self).undo_log.end(),
                self.decision_stack@.len() > 0,
                self.decision_stack@.last() == decision,
                self.decision_waves@.len() > 0,
                self.decision_waves@.last() == snapshot,
                self.decision_waves@.len() <= old(self).decision_waves@.len() + 1,
                self.decision_waves@ == old(self).decision_waves@.push(snapshot).skip(
                    old(self).decision_waves@.len() + 1 - self.decision_waves@.len(),
                ),
                self.wave == old(self).wave,
                self.weights == old(self).weights,
                self.removed_patterns_buffer == old(self).removed_patterns_buffer,
                self.propagation_queue == old(self).propagation_queue,
                self.queued_cells == old(self).queued_cells,
                self.pending_removals == old(self).pending_removals,
                self.entropy_heap == old(self).entropy_heap,
                self.entropy_dirty == old(self).entropy_dirty,
                self.dirty_entropy_cells == old(self).dirty_entropy_cells,
                self.pending_rejection == old(self).pending_rejection,
                self.affected_marks == old(self).affected_marks,
                self.affected_patterns == old(self).affected_patterns,
            decreases self.decision_stack@.len(),
        {
            proof {
                self.lemma_inv_split();
            }
            let ghost before = self.decision_waves@;
            self.commit_oldest_decision(Ghost(-1), Ghost(-1));
            proof {
                self.lemma_inv_split();
                let pushed = old(self).decision_waves@.push(snapshot);
                assert(self.decision_waves@ =~= pushed.skip(pushed.len() - self.decision_waves@.len()));
            }
        }
        proof {
            self.lemma_inv_split();
        }
        let depth = self.decision_stack.len();
        if depth > self.backtracking_stats.peak_decision_depth {
            self.backtracking_stats.peak_decision_depth = depth;
        }
    }

    /// Takes `pattern_id` out of cell `cell_index` and records the removal for undoing.
    fn remove_pattern_recorded(&mut self, cell_index: usize, pattern_id: PatternId, model: &WfcModel) -> (r:
        PatternRemovalResult)
        requires
            old(self).inv(),
            model.weights() == old(self).weights_view(),
            pattern_id < old(self).wave.patterns(),
        ensures
            old(self).overflow_counted(*final(self)),
            old(self).history_step(*final(self)),
            final(self).inv(),
            r == removal_result(old(self).wave.cells_view(), cell_index as int, pattern_id as int),
            final(self).wave.cells_view().len() == old(self).wave.cells_view().len(),
            final(self).wave.width_spec() == old(self).wave.width_spec(),
            final(self).wave.height_spec() == old(self).wave.height_spec(),
            final(self).wave.patterns() == old(self).wave.patterns(),
            r == PatternRemovalResult::Unchanged ==> final(self).wave == old(self).wave,
            r != PatternRemovalResult::Unchanged ==> {
                let c = old(self).wave.cells_view()[cell_index as int];
                let f = final(self).wave.cells_view()[cell_index as int];
                &&& f.possible() == c.possible().update(pattern_id as int, false)
                &&& f.count() == c.count() - 1
                &&& forall|i: int| 0 <= i < final(self).wave.cells_view().len() && i != cell_index
                    ==> #[trigger] final(self).wave.cells_view()[i] == old(self).wave.cells_view()[i]
            },
            final(self).weights == old(self).weights,
            final(self).removed_patterns_buffer == old(self).removed_patterns_buffer,
            final(self).propagation_queue == old(self).propagation_queue,
            final(self).queued_cells == old(self).queued_cells,
            final(self).pending_removals == old(self).pending_removals,
            final(self).entropy_heap == old(self).entropy_heap,
            final(self).entropy_dirty == old(self).entropy_dirty,
            final(self).dirty_entropy_cells == old(self).dirty_entropy_cells,
            final(self).pending_rejection == old(self).pending_rejection,
            final(self).affected_marks == old(self).affected_marks,
            final(self).affected_patterns == old(self).affected_patterns,
            final(self).decisions().len() <= old(self).decisions().len(),
            final(self).decision_states() == old(self).decision_states().skip(
                old(self).decision_states().len() - final(self).decision_states().len(),
            ),
            final(self).decisions() == old(self).decisions().skip(old(self).decisions().len() - final(self).decisions().len()),
            final(self).decision_states().len() > 0 ==> old(self).decision_states().len() > 0
                && final(self).decision_states().last() == old(self).decision_states().last(),
            old(self).commits_cover(*final(self)),
    {
        let weight = model.pattern_weight(pattern_id);
        let ghost weights = self.weights@;
        proof {
            if cell_index < self.cell_total() && self.wave.cells_view()[cell_index as int].possible()[pattern_id as int] {
                let c = self.wave.cells_view()[cell_index as int];
                assert(c.weight_matches(weights));
                lemma_weight_total_bound(c.possible(), weights, pattern_id as int);
            }
        }
        let result = self.wave.remove_pattern_from_cell(cell_index, pattern_id, weight);
        match result {
            PatternRemovalResult::Unchanged => {
                return result;
            },
            _ => {},
        }
        proof {
            let c = old(self).wave.cells_view()[cell_index as int];
            let f = self.wave.cells_view()[cell_index as int];
            lemma_weight_total_update(c.possible(), weights, pattern_id as int, false);
            if f.count() == 0 {
                lemma_count_true_zero(f.possible());
                lemma_weight_total_all_false(f.possible(), weights);
            }
            assert(f.weight_matches(weights));
            assert forall|i: int| 0 <= i < self.cell_total() implies (#[trigger] self.wave.cells_view()[i]).weight_matches(weights) by {
                if i != cell_index {
                    assert(self.wave.cells_view()[i] == old(self).wave.cells_view()[i]);
                }
            }
            let e = self.undo_log.entries_view();
            assert forall|i: int| 0 <= i < e.len() implies (#[trigger] e[i]).cell() < self.cell_total() && e[i].pattern()
                < self.wave.patterns() && !self.wave.cells_view()[e[i].cell() as int].possible()[e[i].pattern() as int] by {
                assert(!old(self).wave.cells_view()[e[i].cell() as int].possible()[e[i].pattern() as int]);
            }
            assert forall|i: int| 0 <= i < e.len() implies !((#[trigger] e[i]).cell() == cell_index && e[i].pattern() == pattern_id) by {
                assert(!old(self).wave.cells_view()[e[i].cell() as int].possible()[e[i].pattern() as int]);
            }
            let records = self.decision_waves@;
            let ds = self.decision_stack@;
            let cells0 = old(self).wave.cells_view();
            let cells1 = self.wave.cells_view();
            let base = self.undo_log.base();
            let n = self.wave.patterns();
            let xc = cell_index as int;
            let xp = pattern_id as int;
            old(self).lemma_inv_split();
            assert forall|i: int, k: int, q: int|
                0 <= i < records.len() && 0 <= k < cells1.len() && 0 <= q < n && (k != xc || q != xp)
                    implies #[trigger] decision_state_ok(records, ds, cells1, e, base, i, k, q) by {
                assert(decision_state_ok(records, ds, cells0, e, base, i, k, q));
                if k != xc {
                    assert(cells1[k] == cells0[k]);
                }
            }
            assert forall|i: int| 0 <= i < records.len() implies #[trigger] records[i][xc][xp] by {
                assert(decision_state_ok(records, ds, cells0, e, base, i, xc, xp));
            }
        }
        self.record_undo(cell_index, pattern_id);
        result
    }

    /// Undoes every removal recorded after `checkpoint`, newest first, marking the restored cells'
    /// entropy for recomputation; the propagation queue and the dirty list are cleared first.
    fn rollback_to(&mut self, checkpoint: u64, model: &WfcModel)
        requires
            old(self).inv(),
            model.weights() == old(self).weights_view(),
            old(self).undo_log.base() <= checkpoint <= old(self).undo_log.end(),
            forall|i: int| 0 <= i < old(self).decision_stack@.len() ==> (#[trigger] old(self).decision_stack@[i]).undo_checkpoint <= checkpoint,
        ensures
            final(self).backtracking_stats.committed_decisions == old(self).backtracking_stats.committed_decisions,
            final(self).inv(),
            final(self).weights == old(self).weights,
            final(self).undo_log.end() == checkpoint,
            final(self).undo_log.entries_view() == old(self).undo_log.entries_view().take(checkpoint - old(self).undo_log.base()),
            final(self).decision_stack == old(self).decision_stack,
            final(self).decision_waves == old(self).decision_waves,
            final(self).pending_rejection == old(self).pending_rejection,
            final(self).queue_view().len() == 0,
            final(self).wave.cells_view().len() == old(self).wave.cells_view().len(),
            final(self).wave.width_spec() == old(self).wave.width_spec(),
            final(self).wave.height_spec() == old(self).wave.height_spec(),
            final(self).wave.patterns() == old(self).wave.patterns(),
            forall|c: int, p: int|
                0 <= c < old(self).cell_total() && 0 <= p < old(self).wave.patterns() ==> #[trigger] final(self).wave.cells_view()[c].possible()[p]
                    == (old(self).wave.cells_view()[c].possible()[p] || recorded(
                    old(self).undo_log.entries_view().skip(checkpoint - old(self).undo_log.base()),
                    c,
                    p,
                )),
            final(self).entropy_heap == old(self).entropy_heap,
            forall|c: int, p: int|
                0 <= c < old(self).cell_total() && 0 <= p < old(self).wave.patterns() && #[trigger] recorded(
                    old(self).undo_log.entries_view().skip(checkpoint - old(self).undo_log.base()),
                    c,
                    p,
                ) ==> final(self).dirty_cells().contains(c as usize),
    {
        self.clear_propagation_state();
        self.clear_entropy_dirty_tracking();
        let ghost start = *self;
        let ghost all = self.undo_log.entries_view();
        let ghost k = checkpoint - self.undo_log.base();
        while self.undo_log.checkpoint() > checkpoint
            invariant
                self.backtracking_stats.committed_decisions == old(self).backtracking_stats.committed_decisions,
                self.inv(),
                self.weights == old(self).weights,
                model.weights() == self.weights@,
                self.decision_stack == old(self).decision_stack,
                self.decision_waves == old(self).decision_waves,
                self.pending_rejection == old(self).pending_rejection,
                self.queue_view().len() == 0,
                self.undo_log.base() == start.undo_log.base(),
                start.undo_log == old(self).undo_log,
                old(self).undo_log.base() <= checkpoint,
                checkpoint <= self.undo_log.end(),
                k == checkpoint - self.undo_log.base(),
                all == start.undo_log.entries_view(),
                self.undo_log.entries_view() == all.take(self.undo_log.entries_view().len() as int),
                k <= self.undo_log.entries_view().len() <= all.len(),
                forall|i: int| 0 <= i < self.decision_stack@.len() ==> (#[trigger] self.decision_stack@[i]).undo_checkpoint <= checkpoint,
                self.wave.cells_view().len() == start.wave.cells_view().len(),
                self.wave.width_spec() == start.wave.width_spec(),
                self.wave.height_spec() == start.wave.height_spec(),
                self.wave.patterns() == start.wave.patterns(),
                start.wave == old(self).wave,
                forall|c: int, p: int|
                    0 <= c < old(self).cell_total() && 0 <= p < old(self).wave.patterns() ==> #[trigger] self.wave.cells_view()[c].possible()[p]
                        == (old(self).wave.cells_view()[c].possible()[p] || recorded(
                        all.skip(self.undo_log.entries_view().len() as int),
                        c,
                        p,
                    )),
                self.entropy_heap == old(self).entropy_heap,
                forall|c: int, p: int|
                    0 <= c < old(self).cell_total() && 0 <= p < old(self).wave.patterns() && #[trigger] recorded(
                        all.skip(self.undo_log.entries_view().len() as int),
                        c,
                        p,
                    ) ==> self.dirty_cells().contains(c as usize),
            decreases self.undo_log.entries_view().len(),
        {
            let ghost before = *self;
            assert(self.undo_log.entries_view().len() > 0);
            let popped = self.undo_log.pop_back();
            let entry = popped.unwrap();
            let cell_index = entry.cell_index();
            let pattern_id = entry.pattern_id();
            let ghost len = before.undo_log.entries_view().len() as int;
            proof {
                let e = before.undo_log.entries_view();
                assert(e[len - 1] == entry);
                let c = before.wave.cells_view()[cell_index as int];
                lemma_weight_total_le(
                    c.possible().update(pattern_id as int, true),
                    Seq::new(self.wave.patterns(), |i: int| true),
                    self.weights@,
                );
                lemma_weight_total_update(c.possible(), self.weights@, pattern_id as int, true);
                assert(c.weight_matches(self.weights@));
            }
            let weight = model.pattern_weight(pattern_id);
            let restored = self.wave.restore_pattern_to_cell(cell_index, pattern_id, weight);
            assert(restored);
            proof {
                let e = self.undo_log.entries_view();
                let f = self.wave.cells_view()[cell_index as int];
                lemma_weight_total_update(before.wave.cells_view()[cell_index as int].possible(), self.weights@, pattern_id as int, true);
                assert(f.weight_matches(self.weights@));
                assert forall|i: int| 0 <= i < self.cell_total() implies (#[trigger] self.wave.cells_view()[i]).weight_matches(self.weights@) by {
                    if i != cell_index {
                        assert(self.wave.cells_view()[i] == before.wave.cells_view()[i]);
                    }
                }
                let be = before.undo_log.entries_view();
                assert forall|i: int| 0 <= i < e.len() implies (#[trigger] e[i]).cell() < self.cell_total() && e[i].pattern()
                    < self.wave.patterns() && !self.wave.cells_view()[e[i].cell() as int].possible()[e[i].pattern() as int] by {
                    assert(e[i] == be[i]);
                    assert(be[i].cell() != be[len - 1].cell() || be[i].pattern() != be[len - 1].pattern());
                    if e[i].cell() != cell_index {
                        assert(self.wave.cells_view()[e[i].cell() as int] == before.wave.cells_view()[e[i].cell() as int]);
                    }
                }
                assert forall|i: int, j: int| 0 <= i < j < e.len() implies (#[trigger] e[i]).cell() != (#[trigger] e[j]).cell()
                    || e[i].pattern() != e[j].pattern() by {
                    assert(e[i] == be[i] && e[j] == be[j]);
                }
                assert(e =~= all.take(len - 1));
                assert forall|c: int, p: int|
                    0 <= c < old(self).cell_total() && 0 <= p < old(self).wave.patterns() implies #[trigger] self.wave.cells_view()[c].possible()[p]
                        == (old(self).wave.cells_view()[c].possible()[p] || recorded(all.skip(len - 1), c, p)) by {
                    let s1 = all.skip(len);
                    let s0 = all.skip(len - 1);
                    assert(s0[0] == entry);
                    if recorded(s1, c, p) {
                        let i = choose|i: int| 0 <= i < s1.len() && (#[trigger] s1[i]).cell() == c && s1[i].pattern() == p;
                        assert(s0[i + 1] == s1[i]);
                    }
                    if recorded(s0, c, p) {
                        let i = choose|i: int| 0 <= i < s0.len() && (#[trigger] s0[i]).cell() == c && s0[i].pattern() == p;
                        if i > 0 {
                            assert(s1[i - 1] == s0[i]);
                        }
                    }
                    if c != cell_index {
                        assert(self.wave.cells_view()[c] == before.wave.cells_view()[c]);
                    }
                }
                let records = self.decision_waves@;
                let ds = self.decision_stack@;
                let cells0 = before.wave.cells_view();
                let cells1 = self.wave.cells_view();
                let base = self.undo_log.base();
                let n = self.wave.patterns();
                before.lemma_inv_split();
                assert forall|i: int, c: int, q: int|
                    0 <= i < records.len() && 0 <= c < cells1.len() && 0 <= q < n implies #[trigger] decision_state_ok(
                    records,
                    ds,
                    cells1,
                    e,
                    base,
                    i,
                    c,
                    q,
                ) by {
                    assert(decision_state_ok(records, ds, cells0, be, base, i, c, q));
                    let a = ds[i].undo_checkpoint - base;
                    assert(0 <= a < len);
                    let t0 = be.skip(a);
                    let t1 = e.skip(a);
                    assert(t1 =~= t0.drop_last());
                    assert(t0[t0.len() - 1] == entry);
                    if recorded(t1, c, q) {
                        let m = choose|m: int| 0 <= m < t1.len() && (#[trigger] t1[m]).cell() == c && t1[m].pattern() == q;
                        assert(t0[m] == t1[m]);
                        assert(be[a + m] == t0[m]);
                        assert(be[a + m].cell() != be[len - 1].cell() || be[a + m].pattern() != be[len - 1].pattern());
                    }
                    if recorded(t0, c, q) && !(c == cell_index && q == pattern_id) {
                        let m = choose|m: int| 0 <= m < t0.len() && (#[trigger] t0[m]).cell() == c && t0[m].pattern() == q;
                        assert(m < t0.len() - 1);
                        assert(t1[m] == t0[m]);
                    }
                    if c == cell_index && q == pattern_id {
                        assert(recorded(t0, c, q));
                    }
                    if c != cell_index {
                        assert(cells1[c] == cells0[c]);
                    }
                }
                assert forall|i: int| 0 <= i < records.len() implies (#[trigger] records[i]).len() == cells1.len() && forall|k2: int|
                    0 <= k2 < cells1.len() ==> (#[trigger] records[i][k2]).len() == n by {
                }
            }
            self.backtracking_stats.restored_patterns = self.backtracking_stats.restored_patterns.saturating_add(1);
            let ghost dirty_before = self.dirty_cells();
            self.mark_entropy_dirty(cell_index);
            proof {
                assert forall|c: int, p: int|
                    0 <= c < old(self).cell_total() && 0 <= p < old(self).wave.patterns() && #[trigger] recorded(
                        all.skip(self.undo_log.entries_view().len() as int),
                        c,
                        p,
                    ) implies self.dirty_cells().contains(c as usize) by {
                    let s1 = all.skip(len);
                    let s0 = all.skip(len - 1);
                    assert(s0[0] == entry);
                    let i = choose|i: int| 0 <= i < s0.len() && (#[trigger] s0[i]).cell() == c && s0[i].pattern() == p;
                    if i > 0 {
                        assert(s1[i - 1] == s0[i]);
                        assert(recorded(s1, c, p));
                        assert(dirty_before.contains(c as usize));
                    }
                }
            }
        }
        proof {
            assert(self.undo_log.entries_view().len() == k);
            assert(all.take(k) == self.undo_log.entries_view());
        }
    }

    /// First half of a backtrack step: takes back the newest decision, undoing every removal made
    /// since it (the restored cells then need their entropy recomputed), and keeps the decision for
    /// `backtrack_reject`; `false` when there is no decision left, the propagation state and the
    /// dirty list being cleared then.
    pub fn backtrack_begin(&mut self, model: &WfcModel) -> (r: bool)
        requires
            old(self).inv(),
            model.weights() == old(self).weights_view(),
        ensures
            final(self).backtracking_view().committed_decisions == old(self).backtracking_view().committed_decisions,
            final(self).inv(),
            final(self).weights_view() == old(self).weights_view(),
            r == (old(self).decisions().len() > 0),
            final(self).queue_view().len() == 0,
            final(self).wave_view().width_spec() == old(self).wave_view().width_spec(),
            final(self).wave_view().height_spec() == old(self).wave_view().height_spec(),
            final(self).wave_view().patterns() == old(self).wave_view().patterns(),
            !r ==> final(self).dirty_cells().len() == 0 && final(self).wave_view() == old(self).wave_view()
                && final(self).decisions().len() == 0,
            r ==> {
                let d = old(self).decisions().last();
                let k = d.undo_checkpoint - old(self).undo_view().base();
                &&& final(self).decisions() == old(self).decisions().drop_last()
                &&& final(self).pending_view() == Some(d)
                &&& final(self).wave_view().cells_view().len() == old(self).wave_view().cells_view().len()
                &&& forall|c: int, p: int|
                    0 <= c < old(self).cell_total() && 0 <= p < old(self).wave_view().patterns() ==> #[trigger] final(self).wave_view().cells_view()[c].possible()[p] == (old(self).wave_view().cells_view()[c].possible()[p]
                        || recorded(old(self).undo_view().entries_view().skip(k), c, p))
                &&& final(self).decision_states() == old(self).decision_states().drop_last()
                &&& possible_sets(final(self).wave_view().cells_view()) == old(self).decision_states().last()
                &&& final(self).heap_view() == old(self).heap_view()
                &&& forall|c: int, p: int|
                    0 <= c < old(self).cell_total() && 0 <= p < old(self).wave_view().patterns() && #[trigger] recorded(
                        old(self).undo_view().entries_view().skip(k),
                        c,
                        p,
                    ) ==> final(self).dirty_cells().contains(c as usize)
            },
    {
        let popped = self.decision_stack.pop_back();
        match popped {
            None => {
                self.clear_propagation_state();
                self.clear_entropy_dirty_tracking();
                false
            },
            Some(decision) => {
                let ghost record = self.decision_waves@.last();
                proof {
                    old(self).lemma_inv_split();
                    let old_records = self.decision_waves@;
                    self.decision_waves = Ghost(self.decision_waves@.drop_last());
                    let records = self.decision_waves@;
                    let cells = self.wave.cells_view();
                    let e = self.undo_log.entries_view();
                    let base = self.undo_log.base();
                    let n = self.wave.patterns();
                    let ds = old(self).decision_stack@;
                    assert forall|i: int, c: int, q: int|
                        0 <= i < records.len() && 0 <= c < cells.len() && 0 <= q < n implies #[trigger] decision_state_ok(
                        records,
                        self.decision_stack@,
                        cells,
                        e,
                        base,
                        i,
                        c,
                        q,
                    ) by {
                        assert(records[i] == old_records[i]);
                        assert(self.decision_stack@[i] == ds[i]);
                        assert(decision_state_ok(old_records, ds, cells, e, base, i, c, q));
                    }
                    assert forall|i: int| 0 <= i < records.len() implies (#[trigger] records[i]).len() == cells.len() && forall|k2: int|
                        0 <= k2 < cells.len() ==> (#[trigger] records[i][k2]).len() == n by {
                        assert(records[i] == old_records[i]);
                    }
                }
                proof {
                    let ds = old(self).decision_stack@;
                    assert(decision == ds[ds.len() - 1]);
                    assert forall|i: int| 0 <= i < self.decision_stack@.len() implies (#[trigger] self.decision_stack@[i]).undo_checkpoint
                        <= decision.undo_checkpoint by {
                        assert(self.decision_stack@[i] == ds[i]);
                    }
                    assert forall|i: int| 0 <= i < self.decision_stack@.len() implies (#[trigger] self.decision_stack@[i]).cell_index
                        < self.cell_total() && self.decision_stack@[i].chosen_pattern_id < self.wave.patterns()
                        && self.undo_log.base() <= self.decision_stack@[i].undo_checkpoint <= self.undo_log.end() by {
                        assert(self.decision_stack@[i] == ds[i]);
                    }
                    assert forall|i: int, j: int| 0 <= i < j < self.decision_stack@.len() implies (#[trigger] self.decision_stack@[i]).undo_checkpoint
                        <= (#[trigger] self.decision_stack@[j]).undo_checkpoint by {
                        assert(self.decision_stack@[i] == ds[i] && self.decision_stack@[j] == ds[j]);
                    }
                    assert(self.decision_stack@ =~= ds.drop_last());
                }
                self.backtracking_stats.backtracks = self.backtracking_stats.backtracks.saturating_add(1);
                self.rollback_to(decision.undo_checkpoint, model);
                proof {
                    let cells0 = old(self).wave.cells_view();
                    let ds = old(self).decision_stack@;
                    let last = ds.len() - 1;
                    assert(ds[last] == decision);
                    assert forall|c: int| 0 <= c < self.cell_total() implies #[trigger] possible_sets(self.wave.cells_view())[c] == record[c] by {
                        assert forall|q: int| 0 <= q < self.wave.patterns() implies self.wave.cells_view()[c].possible()[q] == record[c][q] by {
                            assert(decision_state_ok(
                                old(self).decision_waves@,
                                ds,
                                cells0,
                                old(self).undo_log.entries_view(),
                                old(self).undo_log.base(),
                                last,
                                c,
                                q,
                            ));
                        }
                        assert(self.wave.cells_view()[c].possible() =~= record[c]);
                    }
                    assert(possible_sets(self.wave.cells_view()) =~= record);
                }
                self.pending_rejection = Some(decision);
                true
            },
        }
    }

    /// Second half of a backtrack step: rules out the pattern of the decision just taken back in
    /// its cell. Says whether that removed it and left other patterns there, in which case the
    /// removal is queued for propagation (and the cell's entropy marked for recomputation);
    /// otherwise the caller goes on to the next older decision.
    fn backtrack_reject(&mut self, model: &WfcModel) -> (r: bool)
        requires
            old(self).inv(),
            model.weights() == old(self).weights_view(),
            old(self).pending_view() is Some,
        ensures
            old(self).commits_cover(*final(self)),
            final(self).inv(),
            final(self).weights_view() == old(self).weights_view(),
            final(self).pending_view() is None,
            final(self).wave_view().width_spec() == old(self).wave_view().width_spec(),
            final(self).wave_view().height_spec() == old(self).wave_view().height_spec(),
            final(self).wave_view().patterns() == old(self).wave_view().patterns(),
            final(self).decisions().len() <= old(self).decisions().len(),
            final(self).decisions() == old(self).decisions().skip(old(self).decisions().len() - final(self).decisions().len()),
            ({
                let d = old(self).pending_view()->0;
                let res = removal_result(old(self).wave_view().cells_view(), d.cell_index as int, d.chosen_pattern_id as int);
                &&& r == (res is Removed)
                &&& res != PatternRemovalResult::Unchanged ==> {
                    &&& final(self).wave_view().cells_view()[d.cell_index as int].possible() == old(self).wave_view().cells_view()[d.cell_index as int].possible().update(
                        d.chosen_pattern_id as int,
                        false,
                    )
                    &&& forall|i: int|
                        0 <= i < final(self).wave_view().cells_view().len() && i != d.cell_index ==> #[trigger] final(self).wave_view().cells_view()[i]
                            == old(self).wave_view().cells_view()[i]
                }
                &&& res == PatternRemovalResult::Unchanged ==> final(self).wave_view() == old(self).wave_view()
                &&& res == PatternRemovalResult::Contradiction ==> final(self).wave_view().contradictions() > 0
                &&& r ==> final(self).queue_view().contains(d.cell_index)
                &&& r ==> final(self).wave_view().cells_view()[d.cell_index as int].count() > 0
                &&& final(self).removals_view().len() == old(self).removals_view().len()
                &&& r ==> final(self).removals_view()[d.cell_index as int]@ == old(self).removals_view()[d.cell_index as int]@.push(
                    d.chosen_pattern_id,
                )
                &&& forall|j: int|
                    0 <= j < old(self).removals_view().len() && (j != d.cell_index || !r) ==> #[trigger] final(self).removals_view()[j]
                        == old(self).removals_view()[j]
            }),
            final(self).decision_states() == old(self).decision_states().skip(
                old(self).decision_states().len() - final(self).decision_states().len(),
            ),
            final(self).wave_view().cells_view().len() == old(self).wave_view().cells_view().len(),
    {
        let decision = self.pending_rejection.unwrap();
        self.pending_rejection = None;
        if self.decision_stack.len() == 0 {
            self.undo_log.clear_committed();
        }
        let rejection = self.remove_pattern_recorded(decision.cell_index, decision.chosen_pattern_id, model);
        self.backtracking_stats.rejected_patterns = self.backtracking_stats.rejected_patterns.saturating_add(1);
        match rejection {
            PatternRemovalResult::Removed(_) => {
                self.enqueue_pattern_removal(decision.cell_index, decision.chosen_pattern_id);
                self.mark_entropy_dirty(decision.cell_index);
                true
            },
            PatternRemovalResult::Contradiction => {
                proof {
                    let flags = contradiction_flags(self.wave.cells_view());
                    if self.wave.contradictions() == 0 {
                        lemma_count_true_zero(flags);
                        assert(flags[decision.cell_index as int]);
                    }
                }
                false
            },
            _ => false,
        }
    }

    /// Counts a backtrack step whose propagation succeeded.
    fn note_backtrack_success(&mut self)
        ensures
            final(self).wave_view() == old(self).wave_view(),
            final(self).weights_view() == old(self).weights_view(),
            old(self).inv() ==> final(self).inv(),
            final(self).dirty_cells() == old(self).dirty_cells(),
            final(self).queue_view() == old(self).queue_view(),
            final(self).decisions() == old(self).decisions(),
            final(self).heap_view() == old(self).heap_view(),
            final(self).pending_view() == old(self).pending_view(),
            final(self).decision_states() == old(self).decision_states(),
            final(self).propagation_view() == old(self).propagation_view(),
            final(self).backtracking_view() == old(self).backtracking_view().with_one_more_success(),
            final(self).removals_view() == old(self).removals_view(),
    {
        self.backtracking_stats.successful_backtracks = self.backtracking_stats.successful_backtracks.saturating_add(1);
    }

    /// Chooses a pattern for cell `cell_index` at random by weight, opens a decision for it, and
    /// removes every other pattern from the cell (queuing the removals for propagation); `None`
    /// when there is no such cell or nothing can be chosen there.
    pub fn collapse_cell(&mut self, cell_index: usize, model: &WfcModel, rng: &mut StdRng) -> (r: Option<PatternId>)
        requires
            old(self).inv(),
            model.weights() == old(self).weights_view(),
        ensures
            r matches Some(p) ==> weighted_choice(old(self).wave_view().cells_view()[cell_index as int], old(self).weights_view(), p),
            final(self).wave_view().contradictions() == old(self).wave_view().contradictions(),
            final(self).inv(),
            final(self).weights_view() == old(self).weights_view(),
            final(self).wave_view().cells_view().len() == old(self).wave_view().cells_view().len(),
            cell_index >= old(self).cell_total() ==> r is None,
            cell_index < old(self).cell_total() && (old(self).wave_view().cells_view()[cell_index as int].count() == 0
                || old(self).wave_view().cells_view()[cell_index as int].weight() == 0) ==> r is None,
            cell_index < old(self).cell_total() && old(self).wave_view().cells_view()[cell_index as int].count() > 0
                && old(self).wave_view().cells_view()[cell_index as int].weight() > 0 ==> r is Some,
            r matches Some(p) ==> {
                &&& cell_index < old(self).cell_total()
                &&& old(self).wave_view().cells_view()[cell_index as int].possible()[p as int]
                &&& final(self).wave_view().cells_view()[cell_index as int].possible() == Seq::new(
                    old(self).wave_view().patterns(),
                    |i: int| i == p,
                )
                &&& forall|i: int|
                    0 <= i < final(self).wave_view().cells_view().len() && i != cell_index ==> #[trigger] final(self).wave_view().cells_view()[i]
                        == old(self).wave_view().cells_view()[i]
            },
            r is None ==> final(self).wave_view() == old(self).wave_view(),
            r is None ==> *final(self) == *old(self),
            r is Some && final(self).decisions().len() > 0 ==> final(self).decision_states().last() == possible_sets(
                old(self).wave_view().cells_view(),
            ),
            r matches Some(p) ==> (final(self).decisions().len() > 0 && final(self).decisions().last() == (Decision {
                cell_index,
                chosen_pattern_id: p,
                undo_checkpoint: old(self).undo_view().end() as u64,
            })) || (final(self).decisions().len() == 0 && (final(self).backtracking_view().history_overflows
                > old(self).backtracking_view().history_overflows || old(self).backtracking_view().history_overflows
                == usize::MAX)),
            r is Some && old(self).heap_current() ==> final(self).heap_current(),
            r is Some ==> final(self).heap_view() == old(self).heap_view(),
            r is Some ==> forall|c: usize| old(self).dirty_cells().contains(c) ==> #[trigger] final(self).dirty_cells().contains(c),
            r is Some ==> final(self).backtracking_view().decisions == if old(self).backtracking_view().decisions < usize::MAX {
                (old(self).backtracking_view().decisions + 1) as usize
            } else {
                old(self).backtracking_view().decisions
            },
            r is Some && final(self).decisions().len() == 0 ==> old(self).undo_view().entries_view().len()
                + old(self).wave_view().cells_view()[cell_index as int].count() >= MAX_UNDO_ENTRIES || old(self).undo_view().end()
                + old(self).wave_view().cells_view()[cell_index as int].count() >= u64::MAX,
            r matches Some(p) ==> forall|q: int|
                0 <= q < old(self).wave_view().patterns() && q != p && #[trigger] old(self).wave_view().cells_view()[cell_index as int].possible()[q]
                    ==> final(self).queue_view().contains(cell_index) && final(self).removals_view()[cell_index as int]@.contains(
                    q as usize,
                ),
            final(self).wave_view().width_spec() == old(self).wave_view().width_spec(),
            final(self).wave_view().height_spec() == old(self).wave_view().height_spec(),
            final(self).wave_view().patterns() == old(self).wave_view().patterns(),
            old(self).settled(model.rules_view()) ==> final(self).history_consistent(model.rules_view()) && consistent_but_pending(
                old(self).wave_view().width_spec() as int,
                old(self).wave_view().height_spec() as int,
                final(self).wave_view().cells_view(),
                final(self).removals_view(),
                model.rules_view(),
                old(self).wave_view().patterns(),
            ),
    {
        let ghost rules = model.rules_view();
        let ghost w = old(self).wave.width_spec() as int;
        let ghost h = old(self).wave.height_spec() as int;
        proof {
            if old(self).settled(rules) {
                lemma_consistent_with_any_pending(w, h, old(self).wave.cells_view(), old(self).pending_removals@, rules, old(self).wave.patterns());
            }
        }
        let n = model.pattern_weights().len();
        let selected_pattern_id = {
            let cell = match self.wave.get_cell_by_index(cell_index) {
                Some(c) => c,
                None => {
                    return None;
                },
            };
            proof {
                assert(cell.weight_matches(self.weights@));
            }
            match choose_weighted_pattern(cell, model.pattern_weights(), rng) {
                Some(p) => p,
                None => {
                    return None;
                },
            }
        };
        self.begin_decision(cell_index, selected_pattern_id);
        let ghost after_begin = *self;
        let ghost snapshot = possible_sets(old(self).wave.cells_view());
        let ghost states_now = self.decision_waves@;
        proof {
            if old(self).settled(rules) {
                lemma_no_empty_cells(old(self).wave.cells_view(), old(self).wave.patterns());
                let states = self.decision_waves@;
                let k = old(self).decision_waves@.len() + 1 - states.len();
                let pushed = old(self).decision_waves@.push(snapshot);
                assert forall|i: int| 0 <= i < states.len() implies sound_record(
                    w,
                    h,
                    #[trigger] self.decision_states()[i],
                    rules,
                    old(self).wave.patterns(),
                ) by {
                    assert(states[i] == pushed[i + k]);
                    if i + k < old(self).decision_waves@.len() {
                        assert(pushed[i + k] == old(self).decision_states()[i + k]);
                    }
                }
            }
        }
        let ghost decision = Decision {
            cell_index,
            chosen_pattern_id: selected_pattern_id,
            undo_checkpoint: old(self).undo_log.end() as u64,
        };
        self.removed_patterns_buffer.clear();
        let ids = match self.wave.get_cell_by_index(cell_index) {
            Some(c) => c.possible_pattern_ids(),
            None => Vec::new(),
        };
        let ghost old_possible = old(self).wave.cells_view()[cell_index as int].possible();
        proof {
            lemma_positions(old_possible);
            assert(ids@.take(0) =~= Seq::<usize>::empty());
        }
        let mut k: usize = 0;
        while k < ids.len()
            invariant
                self.decision_waves@.len() > 0,
                self.decision_waves@.last() == snapshot,
                self.decision_stack@.len() > 0,
                self.decision_stack@.last() == decision,
                self.pending_removals == old(self).pending_removals,
                self.propagation_queue == old(self).propagation_queue,
                self.decision_waves@ == states_now,
                self.backtracking_stats.history_overflows == old(self).backtracking_stats.history_overflows,
                self.backtracking_stats.decisions == after_begin.backtracking_stats.decisions,
                self.undo_log == after_begin.undo_log,
                self.entropy_heap == old(self).entropy_heap,
                self.dirty_entropy_cells == old(self).dirty_entropy_cells,
                self.removed_patterns_buffer@.len() <= k,
                old(self).settled(rules) ==> forall|i: int|
                    0 <= i < states_now.len() ==> sound_record(w, h, #[trigger] states_now[i], rules, n as nat),
                w == old(self).wave.width_spec() as int,
                h == old(self).wave.height_spec() as int,
                rules == model.rules_view(),
                k <= ids@.len(),
                ids@ == positions(old_possible),
                old_possible.len() == n,
                n <= usize::MAX,
                n == self.wave.patterns(),
                old_possible[selected_pattern_id as int],
                selected_pattern_id < n,
                self.inv(),
                self.wave == old(self).wave,
                self.weights == old(self).weights,
                forall|i: int| 0 <= i < self.removed_patterns_buffer@.len() ==> #[trigger] self.removed_patterns_buffer@[i] < n,
                self.removed_patterns_buffer@.no_duplicates(),
                buffer_ok(self.removed_patterns_buffer@, old_possible, selected_pattern_id, ids@.take(k as int), n as int),
                cell_index < self.cell_total(),
            decreases ids@.len() - k,
        {
            let id = ids[k];
            let ghost buffer = self.removed_patterns_buffer@;
            proof {
                lemma_positions(old_possible);
                assert(positions(old_possible)[k as int] < old_possible.len() && old_possible[positions(old_possible)[k as int] as int]);
                assert(ids@.take(k + 1) =~= ids@.take(k as int).push(id));
                assert(!ids@.take(k as int).contains(id)) by {
                    if ids@.take(k as int).contains(id) {
                        let j = choose|j: int| 0 <= j < k && #[trigger] ids@.take(k as int)[j] == id;
                        assert(positions(old_possible)[j] < positions(old_possible)[k as int]);
                    }
                }
            }
            let ghost expected = if id != selected_pattern_id { buffer.push(id) } else { buffer };
            proof {
                lemma_buffer_step(buffer, expected, ids@.take(k as int), id, selected_pattern_id, old_possible, n as int);
            }
            if id != selected_pattern_id {
                self.removed_patterns_buffer.push(id);
            }
            proof {
                let nb = self.removed_patterns_buffer@;
                assert(nb == expected);
                assert forall|a: int, b: int| 0 <= a < b < nb.len() implies nb[a] != nb[b] by {
                    if b == nb.len() - 1 && id != selected_pattern_id {
                        assert(buffer.contains(nb[a]));
                    }
                }
            }
            k = k + 1;
        }
        proof {
            assert(ids@.take(ids@.len() as int) =~= ids@);
        }
        let count = self.removed_patterns_buffer.len();
        let ghost buffer = self.removed_patterns_buffer@;
        let ghost old_possible_count = old(self).wave.cells_view()[cell_index as int].count();
        proof {
            lemma_positions(old_possible);
            assert(count <= ids@.len());
        }
        let mut index: usize = 0;
        while index < count
            invariant
                self.decision_waves@.len() > 0 ==> self.decision_waves@.last() == snapshot,
                self.decision_stack@.len() > 0 ==> self.decision_stack@.last() == decision,
                self.backtracking_stats.history_overflows >= old(self).backtracking_stats.history_overflows,
                self.backtracking_stats.decisions == after_begin.backtracking_stats.decisions,
                self.entropy_heap == old(self).entropy_heap,
                forall|c: usize| old(self).dirty_cells().contains(c) ==> #[trigger] self.dirty_cells().contains(c),
                index > 0 ==> self.dirty_cells().contains(cell_index),
                index == 0 ==> self.wave == old(self).wave,
                self.undo_log.entries_view().len() <= old(self).undo_log.entries_view().len() + index,
                self.undo_log.end() <= old(self).undo_log.end() + index,
                count <= old_possible_count,
                self.decision_stack@.len() == 0 ==> old(self).undo_log.entries_view().len() + index >= MAX_UNDO_ENTRIES
                    || old(self).undo_log.end() + index >= u64::MAX,
                self.decision_stack@.len() == 0 ==> (self.backtracking_stats.history_overflows
                    > old(self).backtracking_stats.history_overflows || old(self).backtracking_stats.history_overflows
                    == usize::MAX),
                self.pending_removals@.len() == self.cell_total(),
                rules == model.rules_view(),
                self.wave.width_spec() == w,
                self.wave.height_spec() == h,
                old(self).settled(rules) ==> self.history_consistent(rules) && consistent_but_pending(
                    w,
                    h,
                    self.wave.cells_view(),
                    self.pending_removals@,
                    rules,
                    n as nat,
                ),
                forall|q: int|
                    0 <= q < index ==> self.propagation_queue@.contains(cell_index) && (#[trigger] self.pending_removals@[cell_index as int]@).contains(
                        buffer[q],
                    ),
                index <= count,
                count == buffer.len(),
                self.removed_patterns_buffer@ == buffer,
                forall|i: int| 0 <= i < buffer.len() ==> #[trigger] buffer[i] < n,
                buffer.no_duplicates(),
                forall|i: int| 0 <= i < n ==> (buffer.contains(i as usize) <==> (#[trigger] old_possible[i]
                    && i != selected_pattern_id)),
                old_possible.len() == n,
                n == self.wave.patterns(),
                old_possible[selected_pattern_id as int],
                selected_pattern_id < n,
                self.inv(),
                self.weights == old(self).weights,
                model.weights() == self.weights@,
                cell_index < self.cell_total(),
                self.wave.cells_view().len() == old(self).wave.cells_view().len(),
                forall|i: int| 0 <= i < n ==> #[trigger] self.wave.cells_view()[cell_index as int].possible()[i] == (old_possible[i]
                    && !buffer.take(index as int).contains(i as usize)),
                forall|i: int|
                    0 <= i < self.wave.cells_view().len() && i != cell_index ==> #[trigger] self.wave.cells_view()[i]
                        == old(self).wave.cells_view()[i],
            decreases count - index,
        {
            let removed = self.removed_patterns_buffer[index];
            let ghost before = self.wave.cells_view()[cell_index as int];
            proof {
                assert(buffer.contains(removed)) by {
                    assert(buffer[index as int] == removed);
                }
                assert(!buffer.take(index as int).contains(removed)) by {
                    if buffer.take(index as int).contains(removed) {
                        let j = choose|j: int| 0 <= j < index && #[trigger] buffer.take(index as int)[j] == removed;
                        assert(buffer[j] == buffer[index as int]);
                    }
                }
                assert(before.possible()[removed as int]);
                assert(!buffer.contains(selected_pattern_id));
                assert(!buffer.take(index as int).contains(selected_pattern_id)) by {
                    if buffer.take(index as int).contains(selected_pattern_id) {
                        let j = choose|j: int| 0 <= j < index && #[trigger] buffer.take(index as int)[j] == selected_pattern_id;
                        assert(buffer[j] == selected_pattern_id);
                    }
                }
                assert(before.possible()[selected_pattern_id as int]);
                lemma_count_true_two(before.possible(), removed as int, selected_pattern_id as int);
            }
            let ghost pending_before = self.pending_removals@[cell_index as int]@;
            let ghost all_pending_before = self.pending_removals@;
            let ghost cells_before = self.wave.cells_view();
            let ghost states_before = self.decision_waves@;
            let ghost dirty_before = self.dirty_cells();
            let result = self.remove_pattern_recorded(cell_index, removed, model);
            match result {
                PatternRemovalResult::Removed(_) => {
                    self.enqueue_pattern_removal(cell_index, removed);
                    self.mark_entropy_dirty(cell_index);
                    proof {
                        let now = self.pending_removals@[cell_index as int]@;
                        assert(now == pending_before.push(removed));
                        assert(now[now.len() - 1] == removed);
                        assert forall|q: int| 0 <= q < index implies (#[trigger] self.pending_removals@[cell_index as int]@).contains(
                            buffer[q],
                        ) by {
                            let j = choose|j: int| 0 <= j < pending_before.len() && pending_before[j] == buffer[q];
                            assert(now[j] == buffer[q]);
                        }
                        if old(self).settled(rules) {
                            lemma_pending_removal(
                                w,
                                h,
                                cells_before,
                                self.wave.cells_view(),
                                all_pending_before,
                                self.pending_removals@,
                                rules,
                                cell_index as int,
                                removed as int,
                                n as nat,
                            );
                            let k = states_before.len() - self.decision_waves@.len();
                            assert forall|i: int| 0 <= i < self.decision_states().len() implies sound_record(
                                w,
                                h,
                                #[trigger] self.decision_states()[i],
                                rules,
                                n as nat,
                            ) by {
                                assert(self.decision_waves@[i] == states_before[i + k]);
                            }
                        }
                    }
                },
                _ => {
                    proof {
                        assert(false);
                    }
                },
            }
            proof {
                assert forall|c: usize| old(self).dirty_cells().contains(c) implies #[trigger] self.dirty_cells().contains(c) by {
                    assert(dirty_before.contains(c));
                }
                assert forall|i: int| 0 <= i < n implies #[trigger] self.wave.cells_view()[cell_index as int].possible()[i] == (old_possible[i]
                    && !buffer.take(index + 1).contains(i as usize)) by {
                    assert(buffer.take(index + 1) =~= buffer.take(index as int).push(removed));
                    if buffer.take(index as int).contains(i as usize) {
                        let j = choose|j: int| 0 <= j < index && #[trigger] buffer.take(index as int)[j] == i as usize;
                        assert(buffer.take(index + 1)[j] == i as usize);
                    }
                    if buffer.take(index + 1).contains(i as usize) && i != removed {
                        let j = choose|j: int| 0 <= j <= index && #[trigger] buffer.take(index + 1)[j] == i as usize;
                        assert(buffer.take(index as int)[j] == i as usize);
                    }
                    if i == removed {
                        assert(buffer.take(index + 1)[index as int] == removed);
                    }
                }
            }
            index = index + 1;
        }
        proof {
            assert(buffer.take(count as int) =~= buffer);
            assert(self.wave.cells_view()[cell_index as int].possible() =~= Seq::new(n as nat, |i: int| i == selected_pattern_id));
            let cells0 = old(self).wave.cells_view();
            let cells1 = self.wave.cells_view();
            assert(cells_shrunk(cells0, cells1, n as nat)) by {
                assert forall|c: int| 0 <= c < cells0.len() implies (#[trigger] cells1[c]).possible().len() == cells0[c].possible().len() by {
                    if c != cell_index {
                        assert(cells1[c] == cells0[c]);
                    }
                }
                assert forall|c: int, q: int| 0 <= c < cells0.len() && 0 <= q < n && #[trigger] cells1[c].possible()[q] implies cells0[c].possible()[q] by {
                    if c != cell_index {
                        assert(cells1[c] == cells0[c]);
                    }
                }
            }
            assert forall|c: int| 0 <= c < cells0.len() && cells0[c].count() > 0 implies #[trigger] cells1[c].count() > 0 by {
                if c != cell_index {
                    assert(cells1[c] == cells0[c]);
                } else {
                    assert(cells1[c].possible()[selected_pattern_id as int]);
                    assert(has_pattern(cells1[c].possible(), n as nat));
                    lemma_count_has_pattern(cells1[c], n as nat);
                }
            }
            lemma_same_empty_cells(cells0, cells1, n as nat);
            assert forall|q: int|
                0 <= q < n && q != selected_pattern_id && #[trigger] old_possible[q] implies self.propagation_queue@.contains(cell_index)
                && self.pending_removals@[cell_index as int]@.contains(q as usize) by {
                assert(buffer.contains(q as usize));
                let j = choose|j: int| 0 <= j < buffer.len() && buffer[j] == q as usize;
                assert(self.pending_removals@[cell_index as int]@.contains(buffer[j]));
            }
        }
        Some(selected_pattern_id)
    }

    /// No cell can be observed: the heap is empty, or the cell that comes first in it has no
    /// possible pattern or a total weight of 0.
    pub open spec fn observation_blocked(&self) -> bool {
        ||| forall|c: int| 0 <= c < self.cell_total() ==> #[trigger] self.heap_view().entries()[c] is None
        ||| exists|cell: int|
            #[trigger] comes_first(self.heap_view().entries(), cell) && (self.wave_view().cells_view()[cell].count() == 0
                || self.wave_view().cells_view()[cell].weight() == 0)
    }

    /// Takes the cell with the lowest priority out of the entropy heap.
    fn find_lowest_entropy_cell(&mut self) -> (r: Option<usize>)
        requires
            old(self).inv(),
        ensures
            final(self).backtracking_stats == old(self).backtracking_stats,
            final(self).inv(),
            final(self).wave == old(self).wave,
            final(self).weights == old(self).weights,
            final(self).undo_log == old(self).undo_log,
            final(self).decision_stack == old(self).decision_stack,
            final(self).pending_removals == old(self).pending_removals,
            final(self).propagation_queue == old(self).propagation_queue,
            final(self).decision_waves == old(self).decision_waves,
            r is None <==> forall|c: int| 0 <= c < old(self).cell_total() ==> #[trigger] old(self).heap_view().entries()[c] is None,
            r matches Some(cell) ==> comes_first(old(self).heap_view().entries(), cell as int)
                && final(self).heap_view().entries() == old(self).heap_view().entries().update(cell as int, None),
            final(self).dirty_cells() == old(self).dirty_cells(),
    {
        self.entropy_heap.pop_min()
    }

    /// Observation: takes the undecided cell with the lowest entropy priority and collapses it to a
    /// pattern chosen by weight; the cell and the pattern, or `None` when no cell is left in the
    /// heap or nothing could be chosen.
    pub fn observe(&mut self, model: &WfcModel, rng: &mut StdRng) -> (r: Option<(usize, PatternId)>)
        requires
            old(self).inv(),
            model.weights() == old(self).weights_view(),
        ensures
            r matches Some((cell, p)) ==> weighted_choice(old(self).wave_view().cells_view()[cell as int], old(self).weights_view(), p),
            final(self).wave_view().contradictions() == old(self).wave_view().contradictions(),
            final(self).inv(),
            final(self).weights_view() == old(self).weights_view(),
            final(self).wave_view().cells_view().len() == old(self).wave_view().cells_view().len(),
            r is None <==> old(self).observation_blocked(),
            r is None ==> final(self).wave_view() == old(self).wave_view() && final(self).decisions() == old(self).decisions()
                && final(self).decision_states() == old(self).decision_states() && final(self).queue_view() == old(self).queue_view()
                && final(self).removals_view() == old(self).removals_view(),
            r is Some && final(self).decisions().len() > 0 ==> final(self).decision_states().last() == possible_sets(
                old(self).wave_view().cells_view(),
            ),
            r matches Some((cell, p)) ==> (final(self).decisions().len() > 0 && final(self).decisions().last() == (Decision {
                cell_index: cell,
                chosen_pattern_id: p,
                undo_checkpoint: old(self).undo_view().end() as u64,
            })) || (final(self).decisions().len() == 0 && (final(self).backtracking_view().history_overflows
                > old(self).backtracking_view().history_overflows || old(self).backtracking_view().history_overflows
                == usize::MAX)),
            r is Some && old(self).heap_current() ==> final(self).heap_current(),
            r matches Some((cell, p)) ==> final(self).heap_view().entries() == old(self).heap_view().entries().update(cell as int, None),
            r is Some ==> final(self).backtracking_view().decisions == if old(self).backtracking_view().decisions < usize::MAX {
                (old(self).backtracking_view().decisions + 1) as usize
            } else {
                old(self).backtracking_view().decisions
            },
            r matches Some((cell, p)) ==> (final(self).decisions().len() == 0 ==> old(self).undo_view().entries_view().len()
                + old(self).wave_view().cells_view()[cell as int].count() >= MAX_UNDO_ENTRIES || old(self).undo_view().end()
                + old(self).wave_view().cells_view()[cell as int].count() >= u64::MAX),
            r matches Some((cell, p)) ==> forall|q: int|
                0 <= q < old(self).wave_view().patterns() && q != p && #[trigger] old(self).wave_view().cells_view()[cell as int].possible()[q]
                    ==> final(self).queue_view().contains(cell) && final(self).removals_view()[cell as int]@.contains(q as usize),
            final(self).wave_view().width_spec() == old(self).wave_view().width_spec(),
            final(self).wave_view().height_spec() == old(self).wave_view().height_spec(),
            final(self).wave_view().patterns() == old(self).wave_view().patterns(),
            old(self).settled(model.rules_view()) ==> final(self).history_consistent(model.rules_view()) && consistent_but_pending(
                old(self).wave_view().width_spec() as int,
                old(self).wave_view().height_spec() as int,
                final(self).wave_view().cells_view(),
                final(self).removals_view(),
                model.rules_view(),
                old(self).wave_view().patterns(),
            ),
            r matches Some((cell, p)) ==> {
                &&& cell < old(self).cell_total()
                &&& comes_first(old(self).heap_view().entries(), cell as int)
                &&& old(self).wave_view().cells_view()[cell as int].possible()[p as int]
                &&& final(self).wave_view().cells_view()[cell as int].possible() == Seq::new(
                    old(self).wave_view().patterns(),
                    |i: int| i == p,
                )
                &&& forall|i: int|
                    0 <= i < final(self).wave_view().cells_view().len() && i != cell ==> #[trigger] final(self).wave_view().cells_view()[i]
                        == old(self).wave_view().cells_view()[i]
            },
    {
        let cell_index = match self.find_lowest_entropy_cell() {
            Some(c) => c,
            None => {
                proof {
                    if old(self).settled(model.rules_view()) {
                        assert(self.decision_states() == old(self).decision_states());
                        assert(self.wave_view() == old(self).wave_view());
                        assert(self.history_consistent(model.rules_view()));
                        lemma_consistent_with_any_pending(
                            old(self).wave.width_spec() as int,
                            old(self).wave.height_spec() as int,
                            old(self).wave.cells_view(),
                            old(self).pending_removals@,
                            model.rules_view(),
                            old(self).wave.patterns(),
                        );
                    }
                    assert forall|cell: int| !#[trigger] comes_first(old(self).heap_view().entries(), cell) by {
                        if comes_first(old(self).heap_view().entries(), cell) {
                            assert(old(self).heap_view().entries()[cell] is Some);
                        }
                    }
                }
                return None;
            },
        };
        proof {
            if old(self).settled(model.rules_view()) {
                assert(self.decision_states() == old(self).decision_states());
                assert(self.wave_view() == old(self).wave_view());
                assert(self.removals_view() == old(self).removals_view());
                assert(self.queue_view() == old(self).queue_view());
                assert(self.history_consistent(model.rules_view()));
                assert(self.settled(model.rules_view()));
            }
            assert forall|cell: int| #[trigger] comes_first(old(self).heap_view().entries(), cell) implies cell == cell_index by {
                let e = old(self).heap_view().entries();
                if cell != cell_index {
                    assert(e[cell] is Some);
                    assert(e[cell_index as int] is Some);
                }
            }
        }
        let ghost mid = *self;
        let pattern_id = match self.collapse_cell(cell_index, model, rng) {
            Some(p) => p,
            None => {
                return None;
            },
        };
        proof {
            assert(mid.wave_view() == old(self).wave_view());
            assert(mid.weights_view() == old(self).weights_view());
            let c = mid.wave_view().cells_view()[cell_index as int];
            let c0 = c;
            let v = choose|v: int|
                0 <= v < c.weight() && Some(pattern_id) == #[trigger] weighted_pick(positions(c.possible()), mid.weights_view(), v);
            assert(Some(pattern_id) == weighted_pick(
                positions(old(self).wave_view().cells_view()[cell_index as int].possible()),
                old(self).weights_view(),
                v,
            ));
            assert(weighted_choice(old(self).wave_view().cells_view()[cell_index as int], old(self).weights_view(), pattern_id));
            if old(self).heap_current() {
                assert forall|c: int| 0 <= c < self.cell_total() && !self.dirty_cells().contains(c as usize) implies (
                #[trigger] self.heap_view().entries()[c] is Some <==> self.wave_view().cells_view()[c].count() > 1) by {
                    if c == cell_index {
                        let f = self.wave_view().cells_view()[c];
                        assert(f.possible() =~= Seq::new(old(self).wave_view().patterns(), |i: int| i == pattern_id));
                        lemma_weighted_pick_member(positions(c0.possible()), mid.weights_view(), v);
                        lemma_positions(c0.possible());
                        let k = choose|k: int| 0 <= k < positions(c0.possible()).len() && positions(c0.possible())[k] == pattern_id;
                        assert(pattern_id < c0.possible().len());
                        assert(pattern_id < f.possible().len());
                        lemma_count_true_single(f.possible(), pattern_id as int);
                    } else {
                        assert(!mid.dirty_cells().contains(c as usize));
                    }
                }
            }
        }
        Some((cell_index, pattern_id))
    }

    /// Whether some pattern still possible in cell `current_index` allows `pattern_id` on its
    /// `direction` side, read from the cell's words and the supporters' bits, with the number of
    /// supporters looked at.
    fn is_supported(&self, current_index: usize, pattern_id: PatternId, direction: Direction, rules: &AdjacencyRules) -> (r: (bool, usize))
        requires
            self.inv(),
            current_index < self.cell_total(),
            pattern_id < self.wave.patterns(),
            rules.wf(),
            rules.pattern_count() == self.wave.patterns(),
        ensures
            r.0 == supported_from(self.wave.cells_view(), *rules, current_index as int, direction_index(direction), pattern_id as int),
    {
        let cell = match self.wave.get_cell_by_index(current_index) {
            Some(c) => c,
            None => {
                return (false, 0);
            },
        };
        assert(*cell == self.wave.cells_view()[current_index as int]);
        let ghost n = self.wave.patterns() as int;
        let ghost d = direction_index(direction);
        let ghost sl = rules.supporter_list(pattern_id as int, d);
        proof {
            crate::direction::lemma_direction_facts(direction);
        }
        let words = cell.possible_pattern_words();
        let supporters = rules.get_supporter_bits(pattern_id, direction);
        proof {
            cell.lemma_words_len();
            assert(supporters@.len() == sl.len());
        }
        let mut k: usize = 0;
        while k < supporters.len()
            invariant
                k <= supporters@.len(),
                supporters@ == sl.map_values(|a: usize| bit_of(a)),
                sl == rules.supporter_list(pattern_id as int, d),
                d == direction_index(direction),
                0 <= d < 4,
                0 <= pattern_id < n,
                rules.wf(),
                rules.pattern_count() == n,
                cell.wf(),
                *cell == self.wave.cells_view()[current_index as int],
                cell.possible().len() == n,
                words@ == cell.possible_words(),
                words@.len() == (n + 63) / 64,
                forall|j: int| 0 <= j < k ==> !cell.possible()[#[trigger] sl[j] as int],
            decreases supporters@.len() - k,
        {
            let supporter = supporters[k];
            proof {
                assert(sl[k as int] < n);
                let p = sl[k as int] as int;
                assert(supporter == bit_of(sl[k as int]));
                assert(p / 64 < (n + 63) / 64);
                lemma_mask_test(words@[p / 64], (p % 64) as u64);
                assert(cell.possible()[p] == word_bit(cell.possible_words()[p / 64], p % 64));
            }
            if (words[supporter.word_index] & supporter.mask) != 0 {
                proof {
                    let p = sl[k as int] as int;
                    assert(rules.supporter_list(pattern_id as int, d).contains(p as usize)) by {
                        assert(sl[k as int] == p as usize);
                    }
                    assert(rules.allowed_list(p, d).contains((pattern_id as int) as usize));
                    assert(cell.possible()[p]);
                    assert(self.wave.cells_view()[current_index as int].possible()[p]);
                    assert(0 <= p < self.wave.cells_view()[current_index as int].possible().len());
                    assert(supported_from(self.wave.cells_view(), *rules, current_index as int, d, pattern_id as int));
                }
                return (true, k + 1);
            }
            k = k + 1;
        }
        proof {
            if supported_from(self.wave.cells_view(), *rules, current_index as int, d, pattern_id as int) {
                let p = choose|p: int|
                    0 <= p < cell.possible().len() && #[trigger] cell.possible()[p]
                        && rules.allowed_list(p, d).contains((pattern_id as int) as usize);
                assert(rules.supporter_list(pattern_id as int, d).contains(p as usize));
                let j = choose|j: int| 0 <= j < sl.len() && sl[j] == p as usize;
                assert(!cell.possible()[sl[j] as int]);
            }
        }
        (false, k)
    }

    /// The amount of work left that bounds propagation: twice the possible (cell, pattern) pairs
    /// plus the queued cells.
    closed spec fn work_measure(&self) -> int {
        2 * total_count(self.wave.cells_view()) + self.propagation_queue@.len()
    }

    /// Gathers, per direction, the patterns allowed on that side of some pattern of `removals`,
    /// each once, starting a new marking round.
    fn collect_affected(&mut self, removals: &Vec<PatternId>, rules: &AdjacencyRules)
        requires
            old(self).inv(),
            rules.wf(),
            rules.pattern_count() == old(self).wave.patterns(),
            forall|i: int| 0 <= i < removals@.len() ==> #[trigger] removals@[i] < old(self).wave.patterns(),
        ensures
            old(self).commits_cover(*final(self)),
            final(self).inv(),
            final(self).same_but_affected(*old(self)),
            forall|d: int, k: int, t: int|
                0 <= d < 4 && 0 <= k < removals@.len() && 0 <= t < rules.allowed_list(removals@[k] as int, d).len()
                    ==> #[trigger] final(self).affected_patterns[d]@.contains(rules.allowed_list(removals@[k] as int, d)[t]),
    {
        self.advance_affected_epoch();
        let epoch = self.affected_epoch;
        self.affected_patterns[0].clear();
        self.affected_patterns[1].clear();
        self.affected_patterns[2].clear();
        self.affected_patterns[3].clear();
        let ghost n = self.wave.patterns();
        proof {
            assert forall|d: int, k: int|
                0 <= d < 4 && 0 <= k < self.affected_patterns[d]@.len() implies #[trigger] self.affected_patterns[d]@[k]
                < n by {
            }
        }
        let mut r: usize = 0;
        while r < removals.len()
            invariant
                self.backtracking_stats == old(self).backtracking_stats,
                self.decision_stack == old(self).decision_stack,
                r <= removals@.len(),
                self.inv(),
                n == self.wave.patterns(),
                rules.wf(),
                rules.pattern_count() == n,
                forall|i: int| 0 <= i < removals@.len() ==> #[trigger] removals@[i] < n,
                self.same_but_affected(*old(self)),
                epoch == self.affected_epoch,
                forall|e: int, q: int|
                    0 <= e < 4 && 0 <= q < n && #[trigger] self.affected_marks[e]@[q] == epoch ==> self.affected_patterns[e]@.contains(
                        q as usize,
                    ),
                forall|e: int, k: int, t: int|
                    0 <= e < 4 && 0 <= k < r && 0 <= t < rules.allowed_list(removals@[k] as int, e).len()
                        ==> #[trigger] self.affected_patterns[e]@.contains(rules.allowed_list(removals@[k] as int, e)[t]),
            decreases removals@.len() - r,
        {
            let removed = removals[r];
            let mut d: usize = 0;
            while d < 4
                invariant
                    self.backtracking_stats == old(self).backtracking_stats,
                    self.decision_stack == old(self).decision_stack,
                    d <= 4,
                    r < removals@.len(),
                    removed == removals@[r as int],
                    removed < n,
                    self.inv(),
                    n == self.wave.patterns(),
                    rules.wf(),
                    rules.pattern_count() == n,
                    self.same_but_affected(*old(self)),
                    epoch == self.affected_epoch,
                    forall|e: int, q: int|
                        0 <= e < 4 && 0 <= q < n && #[trigger] self.affected_marks[e]@[q] == epoch ==> self.affected_patterns[e]@.contains(
                            q as usize,
                        ),
                    forall|e: int, k: int, t: int|
                        0 <= e < 4 && 0 <= k < r && 0 <= t < rules.allowed_list(removals@[k] as int, e).len()
                            ==> #[trigger] self.affected_patterns[e]@.contains(rules.allowed_list(removals@[k] as int, e)[t]),
                    forall|e: int, t: int|
                        0 <= e < d && 0 <= t < rules.allowed_list(removed as int, e).len()
                            ==> #[trigger] self.affected_patterns[e]@.contains(rules.allowed_list(removed as int, e)[t]),
                decreases 4 - d,
            {
                let direction = Direction::from_index(d);
                let allowed = rules.get_allowed_patterns(removed, direction);
                self.propagation_stats.allowed_entries_processed = self.propagation_stats.allowed_entries_processed.saturating_add(
                    allowed.len(),
                );
                let mut t: usize = 0;
                while t < allowed.len()
                    invariant
                        self.backtracking_stats == old(self).backtracking_stats,
                        self.decision_stack == old(self).decision_stack,
                        t <= allowed@.len(),
                        d < 4,
                        r < removals@.len(),
                        removed == removals@[r as int],
                        removed < n,
                        allowed@ == rules.allowed_list(removed as int, d as int),
                        self.inv(),
                        n == self.wave.patterns(),
                        rules.wf(),
                        rules.pattern_count() == n,
                        self.same_but_affected(*old(self)),
                        epoch == self.affected_epoch,
                        forall|e: int, q: int|
                            0 <= e < 4 && 0 <= q < n && #[trigger] self.affected_marks[e]@[q] == epoch ==> self.affected_patterns[e]@.contains(
                                q as usize,
                            ),
                        forall|e: int, k: int, t2: int|
                            0 <= e < 4 && 0 <= k < r && 0 <= t2 < rules.allowed_list(removals@[k] as int, e).len()
                                ==> #[trigger] self.affected_patterns[e]@.contains(rules.allowed_list(removals@[k] as int, e)[t2]),
                        forall|e: int, t2: int|
                            0 <= e < d && 0 <= t2 < rules.allowed_list(removed as int, e).len()
                                ==> #[trigger] self.affected_patterns[e]@.contains(rules.allowed_list(removed as int, e)[t2]),
                        forall|t2: int| 0 <= t2 < t ==> #[trigger] self.affected_patterns[d as int]@.contains(allowed@[t2]),
                    decreases allowed@.len() - t,
                {
                    let affected_pattern_id = allowed[t];
                    proof {
                        assert(rules.allowed_list(removed as int, d as int)[t as int] < n);
                    }
                    if self.affected_marks[d][affected_pattern_id] != epoch {
                        let ghost before = self.affected_patterns;
                        let ghost marks_before = self.affected_marks;
                        self.affected_marks[d].set(affected_pattern_id, epoch);
                        self.affected_patterns[d].push(affected_pattern_id);
                        proof {
                            assert forall|e: int| 0 <= e < 4 implies (#[trigger] self.affected_marks[e])@.len() == n by {
                            }
                            assert forall|e: int, k: int|
                                0 <= e < 4 && 0 <= k < self.affected_patterns[e]@.len() implies #[trigger] self.affected_patterns[e]@[k]
                                < n by {
                                if e == d && k == before[e]@.len() {
                                } else {
                                    assert(self.affected_patterns[e]@[k] == before[e]@[k]);
                                }
                            }
                            assert forall|e: int, q: int|
                                0 <= e < 4 && 0 <= q < n implies #[trigger] self.affected_marks[e]@[q] <= self.affected_epoch by {
                                if e != d || q != affected_pattern_id {
                                    assert(self.affected_marks[e]@[q] == marks_before[e]@[q]);
                                }
                            }
                            assert forall|e: int, x: usize| 0 <= e < 4 && #[trigger] before[e]@.contains(x) implies self.affected_patterns[e]@.contains(x) by {
                                if e == d {
                                    lemma_push_contains(before[e]@, affected_pattern_id, x);
                                } else {
                                    assert(self.affected_patterns[e] == before[e]);
                                }
                            }
                            lemma_push_contains(before[d as int]@, affected_pattern_id, affected_pattern_id);
                            assert forall|e: int, q: int|
                                0 <= e < 4 && 0 <= q < n && #[trigger] self.affected_marks[e]@[q] == epoch implies self.affected_patterns[e]@.contains(
                                    q as usize,
                                ) by {
                                if e != d || q != affected_pattern_id {
                                    assert(self.affected_marks[e]@[q] == marks_before[e]@[q]);
                                    assert(before[e]@.contains(q as usize));
                                }
                            }
                            assert forall|e: int, k: int, t2: int|
                                0 <= e < 4 && 0 <= k < r && 0 <= t2 < rules.allowed_list(removals@[k] as int, e).len()
                                    implies #[trigger] self.affected_patterns[e]@.contains(rules.allowed_list(removals@[k] as int, e)[t2]) by {
                                assert(before[e]@.contains(rules.allowed_list(removals@[k] as int, e)[t2]));
                            }
                            assert forall|e: int, t2: int|
                                0 <= e < d && 0 <= t2 < rules.allowed_list(removed as int, e).len()
                                    implies #[trigger] self.affected_patterns[e]@.contains(rules.allowed_list(removed as int, e)[t2]) by {
                                assert(before[e]@.contains(rules.allowed_list(removed as int, e)[t2]));
                            }
                            assert forall|t2: int| 0 <= t2 < t implies #[trigger] self.affected_patterns[d as int]@.contains(allowed@[t2]) by {
                                assert(before[d as int]@.contains(allowed@[t2]));
                            }
                        }
                    } else {
                        proof {
                            assert(self.affected_patterns[d as int]@.contains(affected_pattern_id));
                        }
                    }
                    t = t + 1;
                }
                d = d + 1;
            }
            r = r + 1;
        }
    }

    /// Takes `pattern_id` out of cell `neighbor_index`, the neighbor of cell `current_index` on its
    /// `direction` side, when the pattern is still possible there and no pattern left in cell
    /// `current_index` allows it on that side; `false` when that leaves the neighbor without any
    /// pattern.
    fn constrain_neighbor(
        &mut self,
        current_index: usize,
        neighbor_index: usize,
        pattern_id: PatternId,
        direction: Direction,
        model: &WfcModel,
    ) -> (r: bool)
        requires
            old(self).inv(),
            model.wf(),
            model.weights() == old(self).weights_view(),
            current_index < old(self).cell_total(),
            neighbor_index < old(self).cell_total(),
            pattern_id < old(self).wave.patterns(),
            old(self).wave.neighbor(
                current_index as int % old(self).wave.width_spec() as int,
                current_index as int / old(self).wave.width_spec() as int,
                direction,
            ) == Some(neighbor_index as int),
        ensures
            forall|c: int|
                0 <= c < old(self).wave.cells_view().len() && final(self).wave.cells_view()[c] != old(self).wave.cells_view()[c]
                    ==> #[trigger] final(self).dirty_entropy_cells@.contains(c as usize),
            forall|c: usize| old(self).dirty_entropy_cells@.contains(c) ==> #[trigger] final(self).dirty_entropy_cells@.contains(c),
            keeps_consistent_choices(
                old(self).wave.width_spec() as int,
                old(self).wave.height_spec() as int,
                old(self).wave.cells_view(),
                final(self).wave.cells_view(),
                model.rules_view(),
                old(self).wave.patterns(),
            ),
            old(self).commits_cover(*final(self)),
            final(self).inv(),
            final(self).wave.width_spec() == old(self).wave.width_spec(),
            final(self).wave.height_spec() == old(self).wave.height_spec(),
            final(self).wave.patterns() == old(self).wave.patterns(),
            final(self).weights == old(self).weights,
            final(self).entropy_heap == old(self).entropy_heap,
            final(self).pending_rejection == old(self).pending_rejection,
            final(self).affected_patterns == old(self).affected_patterns,
            final(self).decisions().len() <= old(self).decisions().len(),
            final(self).decision_states() == old(self).decision_states().skip(
                old(self).decision_states().len() - final(self).decision_states().len(),
            ),
            final(self).decisions() == old(self).decisions().skip(old(self).decisions().len() - final(self).decisions().len()),
            cells_shrunk(old(self).wave.cells_view(), final(self).wave.cells_view(), old(self).wave.patterns()),
            removals_justified(
                old(self).wave.width_spec() as int,
                old(self).wave.height_spec() as int,
                old(self).wave.cells_view(),
                final(self).wave.cells_view(),
                model.rules_view(),
                old(self).wave.patterns(),
            ),
            final(self).work_measure() <= old(self).work_measure(),
            !r ==> final(self).wave.contradictions() > 0,
            r ==> forall|c: int|
                0 <= c < old(self).wave.cells_view().len() && old(self).wave.cells_view()[c].count() > 0 ==> #[trigger] final(self).wave.cells_view()[c].count() > 0,
            r ==> (final(self).wave.cells_view() == old(self).wave.cells_view() && final(self).pending_removals
                == old(self).pending_removals) || ({
                let j = neighbor_index as int;
                &&& final(self).wave.cells_view()[j].possible() == old(self).wave.cells_view()[j].possible().update(
                    pattern_id as int,
                    false,
                )
                &&& forall|i: int|
                    0 <= i < old(self).cell_total() && i != j ==> #[trigger] final(self).wave.cells_view()[i]
                        == old(self).wave.cells_view()[i]
                &&& final(self).pending_removals@.len() == old(self).pending_removals@.len()
                &&& final(self).pending_removals@[j]@ == old(self).pending_removals@[j]@.push(pattern_id)
                &&& forall|i: int|
                    0 <= i < old(self).cell_total() && i != j ==> #[trigger] final(self).pending_removals@[i]
                        == old(self).pending_removals@[i]
            }),
            r && final(self).wave.cells_view()[neighbor_index as int].possible()[pattern_id as int] ==> supported_from(
                final(self).wave.cells_view(),
                model.rules_view(),
                current_index as int,
                direction_index(direction),
                pattern_id as int,
            ),
    {
        let ghost n = self.wave.patterns();
        let ghost cells0 = self.wave.cells_view();
        let ghost w = self.wave.width_spec() as int;
        let ghost h = self.wave.height_spec() as int;
        let ghost d = direction_index(direction);
        proof {
            crate::direction::lemma_direction_facts(direction);
            assert(cells_shrunk(cells0, cells0, n));
        }
        let possible = match self.wave.get_cell_by_index(neighbor_index) {
            Some(cell) => cell.is_pattern_possible(pattern_id),
            None => false,
        };
        if !possible {
            return true;
        }
        let rules = model.get_rules();
        let (supported, checks) = self.is_supported(current_index, pattern_id, direction, rules);
        self.propagation_stats.support_checks = self.propagation_stats.support_checks.saturating_add(checks);
        if supported {
            return true;
        }
        proof {
            assert(neighbor_spec(w, h, current_index as int % w, current_index as int / w, direction_of_index(d))
                == Some(neighbor_index as int) && !supported_from(cells0, *rules, current_index as int, d, pattern_id as int));
            assert(unsupported_somewhere(w, h, cells0, *rules, neighbor_index as int, pattern_id as int));
            lemma_total_count_nonneg(cells0);
        }
        let result = self.remove_pattern_recorded(neighbor_index, pattern_id, model);
        proof {
            let cells1 = self.wave.cells_view();
            let j = neighbor_index as int;
            assert(cells1 == cells0.update(j, cells1[j]));
            lemma_total_count_update(cells0, j, cells1[j]);
            assert(cells_shrunk(cells0, cells1, n));
            lemma_unsupported_monotone(w, h, cells0, cells1, *rules, j, pattern_id as int, n);
            if result != PatternRemovalResult::Unchanged {
                lemma_unsupported_removal_keeps(w, h, cells0, cells1, *rules, n, j, pattern_id as int);
            }
            assert forall|c: int, p: int|
                0 <= c < cells0.len() && 0 <= p < n && cells0[c].possible()[p] && !#[trigger] cells1[c].possible()[p]
                    implies unsupported_somewhere(w, h, cells1, *rules, c, p) by {
                if c != j {
                    assert(cells1[c] == cells0[c]);
                }
            }
        }
        match result {
            PatternRemovalResult::Unchanged => true,
            PatternRemovalResult::Contradiction => {
                proof {
                    let cells1 = self.wave.cells_view();
                    let j = neighbor_index as int;
                    assert(contradiction_flags(cells1)[j]);
                    lemma_count_true_one(contradiction_flags(cells1), j);
                }
                self.mark_entropy_dirty(neighbor_index);
                false
            },
            PatternRemovalResult::Removed(_) => {
                self.propagation_stats.removed_patterns = self.propagation_stats.removed_patterns.saturating_add(1);
                self.enqueue_pattern_removal(neighbor_index, pattern_id);
                self.mark_entropy_dirty(neighbor_index);
                true
            },
        }
    }

    /// Takes the oldest cell off the propagation queue, clears its queued flag and hands out the
    /// removals waiting for it.
    fn take_queued_cell(&mut self) -> (r: Option<(usize, Vec<PatternId>)>)
        requires
            old(self).inv(),
        ensures
            old(self).commits_cover(*final(self)),
            final(self).inv(),
            old(self).queue_view().len() == 0 ==> r is None && final(self).queue_view().len() == 0
                && final(self).pending_removals == old(self).pending_removals,
            old(self).queue_view().len() > 0 ==> (r matches Some((c, removals)) && {
                &&& c == old(self).queue_view()[0]
                &&& removals@ == old(self).pending_removals@[c as int]@
                &&& final(self).queue_view() == old(self).queue_view().drop_first()
                &&& final(self).pending_removals@.len() == old(self).pending_removals@.len()
                &&& final(self).pending_removals@[c as int]@.len() == 0
                &&& forall|j: int|
                    0 <= j < old(self).pending_removals@.len() && j != c ==> #[trigger] final(self).pending_removals@[j]
                        == old(self).pending_removals@[j]
            }),
            final(self).wave == old(self).wave,
            final(self).weights == old(self).weights,
            final(self).removed_patterns_buffer == old(self).removed_patterns_buffer,
            final(self).entropy_heap == old(self).entropy_heap,
            final(self).entropy_dirty == old(self).entropy_dirty,
            final(self).dirty_entropy_cells == old(self).dirty_entropy_cells,
            final(self).decision_stack == old(self).decision_stack,
            final(self).decision_waves == old(self).decision_waves,
            final(self).undo_log == old(self).undo_log,
            final(self).pending_rejection == old(self).pending_rejection,
            final(self).affected_marks == old(self).affected_marks,
            final(self).affected_patterns == old(self).affected_patterns,
            final(self).affected_epoch == old(self).affected_epoch,
    {
        if self.propagation_queue.len() == 0 {
            return None;
        }
        let popped = self.propagation_queue.pop_front();
        let cell_index = popped.unwrap();
        let ghost q = old(self).propagation_queue@;
        proof {
            assert(q[0] == cell_index);
            assert(self.propagation_queue@ =~= q.drop_first());
        }
        self.queued_cells.set(cell_index, false);
        self.propagation_stats.queue_pops = self.propagation_stats.queue_pops.saturating_add(1);
        let mut removals: Vec<PatternId> = Vec::new();
        std::mem::swap(&mut removals, &mut self.pending_removals[cell_index]);
        proof {
            let nq = self.propagation_queue@;
            assert forall|i: int| 0 <= i < nq.len() implies #[trigger] nq[i] < self.cell_total() by {
                assert(nq[i] == q[i + 1]);
            }
            assert forall|j: int| 0 <= j < self.cell_total() implies (#[trigger] self.queued_cells@[j]
                <==> nq.contains(j as usize)) by {
                if nq.contains(j as usize) {
                    let k = choose|k: int| 0 <= k < nq.len() && #[trigger] nq[k] == j as usize;
                    assert(q[k + 1] == j as usize);
                    assert(j != cell_index);
                }
                if j != cell_index && q.contains(j as usize) {
                    let k = choose|k: int| 0 <= k < q.len() && #[trigger] q[k] == j as usize;
                    assert(k != 0);
                    assert(nq[k - 1] == j as usize);
                }
            }
            assert forall|j: int, k: int|
                0 <= j < self.cell_total() && 0 <= k < self.pending_removals@[j]@.len() implies #[trigger] self.pending_removals@[j]@[k]
                < self.wave.patterns() by {
                assert(j != cell_index);
            }
            assert forall|j: int| 0 <= j < self.cell_total() && (#[trigger] self.pending_removals@[j])@.len() > 0 implies self.queued_cells@[j] by {
                assert(j != cell_index);
                assert(old(self).pending_removals@[j] == self.pending_removals@[j]);
            }
        }
        Some((cell_index, removals))
    }

    /// Works off the propagation queue: for every queued cell, the patterns it lost are looked up
    /// in the rules, and each pattern of a neighbor that is no longer allowed by any pattern left in
    /// the cell is removed from the neighbor, which is then queued in turn. Only ever removes
    /// patterns, and only ones that some neighbor no longer supports. `true` when the queue ran
    /// empty; `false` as soon as a cell is left without any pattern.
    fn drain_propagation_queue(&mut self, model: &WfcModel) -> (r: bool)
        requires
            old(self).inv(),
            model.wf(),
            model.weights() == old(self).weights_view(),
        ensures
            forall|c: int|
                0 <= c < old(self).wave.cells_view().len() && final(self).wave.cells_view()[c] != old(self).wave.cells_view()[c]
                    ==> #[trigger] final(self).dirty_entropy_cells@.contains(c as usize),
            forall|c: usize| old(self).dirty_entropy_cells@.contains(c) ==> #[trigger] final(self).dirty_entropy_cells@.contains(c),
            keeps_consistent_choices(
                old(self).wave.width_spec() as int,
                old(self).wave.height_spec() as int,
                old(self).wave.cells_view(),
                final(self).wave.cells_view(),
                model.rules_view(),
                old(self).wave.patterns(),
            ),
            old(self).commits_cover(*final(self)),
            final(self).inv(),
            final(self).weights_view() == old(self).weights_view(),
            final(self).heap_view() == old(self).heap_view(),
            final(self).pending_view() == old(self).pending_view(),
            final(self).decisions().len() <= old(self).decisions().len(),
            final(self).decision_states() == old(self).decision_states().skip(
                old(self).decision_states().len() - final(self).decision_states().len(),
            ),
            final(self).decisions() == old(self).decisions().skip(old(self).decisions().len() - final(self).decisions().len()),
            final(self).wave_view().width_spec() == old(self).wave_view().width_spec(),
            final(self).wave_view().height_spec() == old(self).wave_view().height_spec(),
            final(self).wave_view().patterns() == old(self).wave_view().patterns(),
            cells_shrunk(old(self).wave_view().cells_view(), final(self).wave_view().cells_view(), old(self).wave_view().patterns()),
            removals_justified(
                old(self).wave_view().width_spec() as int,
                old(self).wave_view().height_spec() as int,
                old(self).wave_view().cells_view(),
                final(self).wave_view().cells_view(),
                model.rules_view(),
                old(self).wave_view().patterns(),
            ),
            r ==> final(self).queue_view().len() == 0,
            r ==> propagation_complete(
                old(self).wave_view().width_spec() as int,
                old(self).wave_view().height_spec() as int,
                final(self).wave_view().cells_view(),
                old(self).wave_view().cells_view(),
                old(self).removals_view(),
                model.rules_view(),
                old(self).wave_view().patterns(),
            ),
            !r ==> final(self).wave_view().contradictions() > 0,
            r ==> forall|c: int|
                0 <= c < old(self).wave.cells_view().len() && old(self).wave.cells_view()[c].count() > 0 ==> #[trigger] final(self).wave.cells_view()[c].count() > 0,
    {
        let rules = model.get_rules();
        let ghost cells0 = self.wave.cells_view();
        let ghost n = self.wave.patterns();
        let ghost w = self.wave.width_spec() as int;
        let ghost h = self.wave.height_spec() as int;
        let ghost weights0 = self.weights@;
        let ghost heap0 = self.entropy_heap;
        let ghost pending0 = self.pending_rejection;
        let ghost removals0 = self.pending_removals@;
        proof {
            assert(self.decision_waves@ =~= old(self).decision_waves@.skip(0));
            assert(self.decision_stack@ =~= old(self).decision_stack@.skip(0));
            assert(cells_shrunk(cells0, cells0, n));
            assert forall|c: int, e: int, q: int| 0 <= c < cells0.len() && 0 <= e < 4 && 0 <= q < n implies #[trigger] support_accounted(
                w,
                h,
                self.wave.cells_view(),
                self.pending_removals@,
                cells0,
                removals0,
                *rules,
                c,
                e,
                q,
                false,
            ) by {
            }
        }
        loop
            invariant
                forall|c: int|
                    0 <= c < cells0.len() && self.wave.cells_view()[c] != cells0[c] ==> #[trigger] self.dirty_entropy_cells@.contains(c as usize),
                forall|c: usize| old(self).dirty_entropy_cells@.contains(c) ==> #[trigger] self.dirty_entropy_cells@.contains(c),
                keeps_consistent_choices(w, h, cells0, self.wave.cells_view(), *rules, n),
                old(self).commits_cover(*self),
                self.decision_stack@.len() <= old(self).decision_stack@.len(),
                self.inv(),
                model.wf(),
                model.weights() == self.weights@,
                *rules == model.rules_view(),
                self.weights@ == weights0,
                self.entropy_heap == heap0,
                self.pending_rejection == pending0,
                self.wave.width_spec() == w,
                self.wave.height_spec() == h,
                self.wave.patterns() == n,
                forall|i: int| 0 <= i < cells0.len() ==> (#[trigger] cells0[i]).possible().len() == n,
                cells_shrunk(cells0, self.wave.cells_view(), n),
                forall|c: int| 0 <= c < cells0.len() && cells0[c].count() > 0 ==> #[trigger] self.wave.cells_view()[c].count() > 0,
                removals_justified(w, h, cells0, self.wave.cells_view(), *rules, n),
                weights0 == old(self).weights@,
                heap0 == old(self).entropy_heap,
                pending0 == old(self).pending_rejection,
                cells0 == old(self).wave.cells_view(),
                n == old(self).wave.patterns(),
                w == old(self).wave.width_spec(),
                h == old(self).wave.height_spec(),
                self.decision_stack@.len() <= old(self).decision_stack@.len(),
                self.decision_waves@ == old(self).decision_waves@.skip(old(self).decision_waves@.len() - self.decision_waves@.len()),
                self.decision_waves@.len() <= old(self).decision_waves@.len(),
                self.decision_stack@ == old(self).decision_stack@.skip(old(self).decision_stack@.len() - self.decision_stack@.len()),
                removals0 == old(self).pending_removals@,
                forall|c: int, e: int, q: int| 0 <= c < cells0.len() && 0 <= e < 4 && 0 <= q < n ==> #[trigger] support_accounted(
                    w,
                    h,
                    self.wave.cells_view(),
                    self.pending_removals@,
                    cells0,
                    removals0,
                    *rules,
                    c,
                    e,
                    q,
                    false,
                ),
            decreases self.work_measure(),
        {
            let ghost m0 = self.work_measure();
            let ghost old_pending = self.pending_removals@;
            let ghost before_take = *self;
            let taken_cell = self.take_queued_cell();
            proof {
                old(self).lemma_commits_cover_trans(before_take, *self);
            }
            let (current_index, removals) = match taken_cell {
                Some(taken) => taken,
                None => {
                    proof {
                        let cells = self.wave.cells_view();
                        assert forall|c: int, e: int, q: int|
                            0 <= c < cells.len() && 0 <= e < 4 && 0 <= q < n implies #[trigger] support_settled(
                            w,
                            h,
                            cells,
                            cells0,
                            removals0,
                            *rules,
                            c,
                            e,
                            q,
                        ) by {
                            assert(support_accounted(w, h, cells, self.pending_removals@, cells0, removals0, *rules, c, e, q, false));
                            if self.pending_removals@[c]@.len() > 0 {
                                assert(self.queued_cells@[c]);
                                assert(self.propagation_queue@.contains(c as usize));
                            }
                            assert(!pending_allows(self.pending_removals@, *rules, c, e, q));
                        }
                    }
                    return true;
                },
            };
            let ghost m1 = self.work_measure();
            assert(m1 < m0);
            let (x, y) = match self.wave.index_to_coordinates(current_index) {
                Some(p) => p,
                None => {
                    continue;
                },
            };
            proof {
                assert(y * w >= 0) by (nonlinear_arith)
                    requires
                        y >= 0,
                        w >= 0,
                ;
                vstd::arithmetic::div_mod::lemma_fundamental_div_mod_converse(current_index as int, w, y as int, x as int);
                assert forall|i: int| 0 <= i < removals@.len() implies #[trigger] removals@[i] < n by {
                    assert(removals@[i] == old_pending[current_index as int]@[i]);
                }
            }
            proof {
                lemma_total_count_nonneg(self.wave.cells_view());
                let c0 = current_index as int;
                assert forall|c: int, e: int, q: int|
                    0 <= c < cells0.len() && 0 <= e < 4 && 0 <= q < n implies #[trigger] support_accounted(
                    w,
                    h,
                    self.wave.cells_view(),
                    self.pending_removals@,
                    cells0,
                    removals0,
                    *rules,
                    c,
                    e,
                    q,
                    allowed_by_taken(old_pending, *rules, c0, c, e, q),
                ) by {
                    assert(support_accounted(w, h, self.wave.cells_view(), old_pending, cells0, removals0, *rules, c, e, q, false));
                    if c != c0 {
                        assert(self.pending_removals@[c] == old_pending[c]);
                    } else {
                        assert(!pending_allows(self.pending_removals@, *rules, c, e, q));
                    }
                }
            }
            if removals.len() == 0 {
                proof {
                    let c0 = current_index as int;
                    assert forall|c: int, e: int, q: int|
                        0 <= c < cells0.len() && 0 <= e < 4 && 0 <= q < n implies #[trigger] support_accounted(
                        w,
                        h,
                        self.wave.cells_view(),
                        self.pending_removals@,
                        cells0,
                        removals0,
                        *rules,
                        c,
                        e,
                        q,
                        false,
                    ) by {
                        assert(support_accounted(
                            w,
                            h,
                            self.wave.cells_view(),
                            self.pending_removals@,
                            cells0,
                            removals0,
                            *rules,
                            c,
                            e,
                            q,
                            allowed_by_taken(old_pending, *rules, c0, c, e, q),
                        ));
                        assert(!pending_allows(old_pending, *rules, c0, e, q));
                    }
                }
                continue;
            }
            self.propagation_stats.removals_processed = self.propagation_stats.removals_processed.saturating_add(
                removals.len(),
            );
            let ghost before_collect = *self;
            self.collect_affected(&removals, rules);
            proof {
                old(self).lemma_commits_cover_trans(before_collect, *self);
                let c0 = current_index as int;
                assert forall|e: int, q: int| 0 <= e < 4 && 0 <= q < n implies #[trigger] support_accounted(
                    w,
                    h,
                    self.wave.cells_view(),
                    self.pending_removals@,
                    cells0,
                    removals0,
                    *rules,
                    c0,
                    e,
                    q,
                    self.affected_patterns[e]@.contains(q as usize),
                ) by {
                    assert(support_accounted(
                        w,
                        h,
                        self.wave.cells_view(),
                        self.pending_removals@,
                        cells0,
                        removals0,
                        *rules,
                        c0,
                        e,
                        q,
                        allowed_by_taken(old_pending, *rules, c0, c0, e, q),
                    ));
                    if pending_allows(old_pending, *rules, c0, e, q) {
                        let k = choose|k: int|
                            0 <= k < old_pending[c0]@.len() && #[trigger] rules.allowed_list(old_pending[c0]@[k] as int, e).contains(
                                q as usize,
                            );
                        assert(removals@[k] == old_pending[c0]@[k]);
                        let t = choose|t: int|
                            0 <= t < rules.allowed_list(removals@[k] as int, e).len() && rules.allowed_list(removals@[k] as int, e)[t]
                                == q as usize;
                        assert(self.affected_patterns[e]@.contains(rules.allowed_list(removals@[k] as int, e)[t]));
                    }
                }
                assert forall|c: int, e: int, q: int|
                    0 <= c < cells0.len() && c != c0 && 0 <= e < 4 && 0 <= q < n implies #[trigger] support_accounted(
                    w,
                    h,
                    self.wave.cells_view(),
                    self.pending_removals@,
                    cells0,
                    removals0,
                    *rules,
                    c,
                    e,
                    q,
                    false,
                ) by {
                    assert(support_accounted(
                        w,
                        h,
                        self.wave.cells_view(),
                        self.pending_removals@,
                        cells0,
                        removals0,
                        *rules,
                        c,
                        e,
                        q,
                        allowed_by_taken(old_pending, *rules, c0, c, e, q),
                    ));
                }
            }
            let mut d: usize = 0;
            while d < 4
                invariant
                    forall|c: int|
                        0 <= c < cells0.len() && self.wave.cells_view()[c] != cells0[c] ==> #[trigger] self.dirty_entropy_cells@.contains(c as usize),
                    forall|c: usize| old(self).dirty_entropy_cells@.contains(c) ==> #[trigger] self.dirty_entropy_cells@.contains(c),
                    keeps_consistent_choices(w, h, cells0, self.wave.cells_view(), *rules, n),
                    old(self).commits_cover(*self),
                    self.decision_stack@.len() <= old(self).decision_stack@.len(),
                    d <= 4,
                    self.inv(),
                    model.wf(),
                    model.weights() == self.weights@,
                    *rules == model.rules_view(),
                    self.weights@ == weights0,
                    self.entropy_heap == heap0,
                    self.pending_rejection == pending0,
                    self.wave.width_spec() == w,
                    self.wave.height_spec() == h,
                    self.wave.patterns() == n,
                    forall|i: int| 0 <= i < cells0.len() ==> (#[trigger] cells0[i]).possible().len() == n,
                    cells_shrunk(cells0, self.wave.cells_view(), n),
                    forall|c: int| 0 <= c < cells0.len() && cells0[c].count() > 0 ==> #[trigger] self.wave.cells_view()[c].count() > 0,
                    removals_justified(w, h, cells0, self.wave.cells_view(), *rules, n),
                    self.work_measure() <= m1,
                    m1 < m0,
                    weights0 == old(self).weights@,
                    heap0 == old(self).entropy_heap,
                    pending0 == old(self).pending_rejection,
                    cells0 == old(self).wave.cells_view(),
                    n == old(self).wave.patterns(),
                    w == old(self).wave.width_spec(),
                    h == old(self).wave.height_spec(),
                    self.decision_stack@.len() <= old(self).decision_stack@.len(),
                    self.decision_waves@ == old(self).decision_waves@.skip(old(self).decision_waves@.len() - self.decision_waves@.len()),
                    self.decision_waves@.len() <= old(self).decision_waves@.len(),
                    self.decision_stack@ == old(self).decision_stack@.skip(old(self).decision_stack@.len() - self.decision_stack@.len()),
                    current_index < self.cell_total(),
                    x < w,
                    y < h,
                    x <= current_index,
                    y * w + x == current_index,
                    x == current_index as int % w,
                    y == current_index as int / w,
                    removals0 == old(self).pending_removals@,
                    forall|c: int, e: int, q: int|
                        0 <= c < cells0.len() && c != current_index && 0 <= e < 4 && 0 <= q < n ==> #[trigger] support_accounted(
                            w,
                            h,
                            self.wave.cells_view(),
                            self.pending_removals@,
                            cells0,
                            removals0,
                            *rules,
                            c,
                            e,
                            q,
                            false,
                        ),
                    forall|e: int, q: int| 0 <= e < d && 0 <= q < n ==> #[trigger] support_accounted(
                        w,
                        h,
                        self.wave.cells_view(),
                        self.pending_removals@,
                        cells0,
                        removals0,
                        *rules,
                        current_index as int,
                        e,
                        q,
                        false,
                    ),
                    forall|e: int, q: int| d <= e < 4 && 0 <= q < n ==> #[trigger] support_accounted(
                        w,
                        h,
                        self.wave.cells_view(),
                        self.pending_removals@,
                        cells0,
                        removals0,
                        *rules,
                        current_index as int,
                        e,
                        q,
                        self.affected_patterns[e]@.contains(q as usize),
                    ),
                decreases 4 - d,
            {
                let direction = Direction::from_index(d);
                let neighbor = self.wave.get_neighbor_index(x, y, direction);
                proof {
                    crate::direction::lemma_direction_facts(direction);
                    crate::wave::lemma_neighbor_not_self(w, h, x as int, y as int, direction);
                }
                if let Some(neighbor_index) = neighbor {
                    self.propagation_stats.neighbor_checks = self.propagation_stats.neighbor_checks.saturating_add(1);
                    let affected_count = self.affected_patterns[d].len();
                    let ghost affected = self.affected_patterns;
                    let mut a: usize = 0;
                    while a < affected_count
                        invariant
                            forall|c: int|
                                0 <= c < cells0.len() && self.wave.cells_view()[c] != cells0[c] ==> #[trigger] self.dirty_entropy_cells@.contains(c as usize),
                            forall|c: usize| old(self).dirty_entropy_cells@.contains(c) ==> #[trigger] self.dirty_entropy_cells@.contains(c),
                            keeps_consistent_choices(w, h, cells0, self.wave.cells_view(), *rules, n),
                            old(self).commits_cover(*self),
                            self.decision_stack@.len() <= old(self).decision_stack@.len(),
                            d < 4,
                            a <= affected_count,
                            affected_count == affected[d as int]@.len(),
                            self.affected_patterns == affected,
                            direction == direction_of_index(d as int),
                            self.inv(),
                            model.wf(),
                            model.weights() == self.weights@,
                            *rules == model.rules_view(),
                            self.weights@ == weights0,
                            self.entropy_heap == heap0,
                            self.pending_rejection == pending0,
                            self.wave.width_spec() == w,
                            self.wave.height_spec() == h,
                            self.wave.patterns() == n,
                            forall|i: int| 0 <= i < cells0.len() ==> (#[trigger] cells0[i]).possible().len() == n,
                            cells_shrunk(cells0, self.wave.cells_view(), n),
                            forall|c: int| 0 <= c < cells0.len() && cells0[c].count() > 0 ==> #[trigger] self.wave.cells_view()[c].count() > 0,
                            removals_justified(w, h, cells0, self.wave.cells_view(), *rules, n),
                            self.work_measure() <= m1,
                            m1 < m0,
                            weights0 == old(self).weights@,
                            heap0 == old(self).entropy_heap,
                            pending0 == old(self).pending_rejection,
                            cells0 == old(self).wave.cells_view(),
                            n == old(self).wave.patterns(),
                            w == old(self).wave.width_spec(),
                            h == old(self).wave.height_spec(),
                            self.decision_stack@.len() <= old(self).decision_stack@.len(),
                            self.decision_waves@ == old(self).decision_waves@.skip(old(self).decision_waves@.len() - self.decision_waves@.len()),
                            self.decision_waves@.len() <= old(self).decision_waves@.len(),
                            self.decision_stack@ == old(self).decision_stack@.skip(old(self).decision_stack@.len() - self.decision_stack@.len()),
                            current_index < self.cell_total(),
                            neighbor_index < self.cell_total(),
                            self.wave.neighbor(current_index as int % w, current_index as int / w, direction)
                                == Some(neighbor_index as int),
                            neighbor_index != current_index,
                            direction_index(direction) == d,
                            removals0 == old(self).pending_removals@,
                            forall|c: int, e: int, q: int|
                                0 <= c < cells0.len() && c != current_index && 0 <= e < 4 && 0 <= q < n ==> #[trigger] support_accounted(
                                    w,
                                    h,
                                    self.wave.cells_view(),
                                    self.pending_removals@,
                                    cells0,
                                    removals0,
                                    *rules,
                                    c,
                                    e,
                                    q,
                                    false,
                                ),
                            forall|e: int, q: int| 0 <= e < d && 0 <= q < n ==> #[trigger] support_accounted(
                                w,
                                h,
                                self.wave.cells_view(),
                                self.pending_removals@,
                                cells0,
                                removals0,
                                *rules,
                                current_index as int,
                                e,
                                q,
                                false,
                            ),
                            forall|e: int, q: int| d <= e < 4 && 0 <= q < n ==> #[trigger] support_accounted(
                                w,
                                h,
                                self.wave.cells_view(),
                                self.pending_removals@,
                                cells0,
                                removals0,
                                *rules,
                                current_index as int,
                                e,
                                q,
                                affected[e]@.contains(q as usize),
                            ),
                            forall|t: int|
                                #![trigger affected[d as int]@[t]]
                                0 <= t < a && self.wave.cells_view()[neighbor_index as int].possible()[affected[d as int]@[t] as int]
                                    ==> supported_from(
                                    self.wave.cells_view(),
                                    *rules,
                                    current_index as int,
                                    d as int,
                                    affected[d as int]@[t] as int,
                                ),
                        decreases affected_count - a,
                    {
                        let neighbor_pattern_id = self.affected_patterns[d][a];
                        self.propagation_stats.affected_patterns = self.propagation_stats.affected_patterns.saturating_add(1);
                        let ghost before = self.wave.cells_view();
                        let ghost before_pending = self.pending_removals@;
                        let ghost records_before = self.decision_waves@;
                        let ghost decisions_before = self.decision_stack@;
                        let ghost before_constrain = *self;
                        let ok = self.constrain_neighbor(current_index, neighbor_index, neighbor_pattern_id, direction, model);
                        proof {
                            old(self).lemma_commits_cover_trans(before_constrain, *self);
                            let od = old(self).decision_stack@;
                            let ad = od.len() - decisions_before.len();
                            let bd = decisions_before.len() - self.decision_stack@.len();
                            assert(decisions_before.len() <= od.len());
                            assert(self.decision_stack@.len() <= decisions_before.len());
                            assert forall|t: int| 0 <= t < self.decision_stack@.len() implies #[trigger] decisions_before.skip(bd)[t] == od.skip(ad + bd)[t] by {
                                assert(decisions_before[bd + t] == od[ad + bd + t]);
                            }
                            assert(decisions_before.skip(bd) =~= od.skip(ad + bd));
                            let o = old(self).decision_waves@;
                            let a = o.len() - records_before.len();
                            let b = records_before.len() - self.decision_waves@.len();
                            assert(records_before.len() <= o.len());
                            assert(self.decision_waves@.len() <= records_before.len());
                            assert forall|t: int| 0 <= t < self.decision_waves@.len() implies #[trigger] records_before.skip(b)[t] == o.skip(a + b)[t] by {
                                assert(records_before[b + t] == o[a + b + t]);
                            }
                            assert(records_before.skip(b) =~= o.skip(a + b));
                            lemma_justified_trans(w, h, cells0, before, self.wave.cells_view(), *rules, n);
                            lemma_keeps_trans(w, h, cells0, before, self.wave.cells_view(), *rules, n);
                            assert forall|c: int|
                                0 <= c < cells0.len() && self.wave.cells_view()[c] != cells0[c] implies #[trigger] self.dirty_entropy_cells@.contains(
                                c as usize,
                            ) by {
                                if self.wave.cells_view()[c] == before[c] {
                                    assert(before_constrain.dirty_entropy_cells@.contains(c as usize));
                                }
                            }
                        }
                        if !ok {
                            return false;
                        }
                        proof {
                            let cells2 = self.wave.cells_view();
                            let pending2 = self.pending_removals@;
                            let c0 = current_index as int;
                            let j = neighbor_index as int;
                            let qa = neighbor_pattern_id as int;
                            if !(cells2 == before && pending2 == before_pending) {
                                assert forall|c: int, e: int, q: int|
                                    0 <= c < cells0.len() && c != c0 && 0 <= e < 4 && 0 <= q < n implies #[trigger] support_accounted(
                                    w,
                                    h,
                                    cells2,
                                    pending2,
                                    cells0,
                                    removals0,
                                    *rules,
                                    c,
                                    e,
                                    q,
                                    false,
                                ) by {
                                    lemma_accounted_removal(w, h, before, cells2, before_pending, pending2, cells0, removals0, *rules, j, qa, c, e, q, false, n);
                                }
                                assert forall|e: int, q: int| 0 <= e < d && 0 <= q < n implies #[trigger] support_accounted(
                                    w,
                                    h,
                                    cells2,
                                    pending2,
                                    cells0,
                                    removals0,
                                    *rules,
                                    c0,
                                    e,
                                    q,
                                    false,
                                ) by {
                                    lemma_accounted_removal(w, h, before, cells2, before_pending, pending2, cells0, removals0, *rules, j, qa, c0, e, q, false, n);
                                }
                                assert forall|e: int, q: int| d <= e < 4 && 0 <= q < n implies #[trigger] support_accounted(
                                    w,
                                    h,
                                    cells2,
                                    pending2,
                                    cells0,
                                    removals0,
                                    *rules,
                                    c0,
                                    e,
                                    q,
                                    affected[e]@.contains(q as usize),
                                ) by {
                                    lemma_accounted_removal(
                                        w,
                                        h,
                                        before,
                                        cells2,
                                        before_pending,
                                        pending2,
                                        cells0,
                                        removals0,
                                        *rules,
                                        j,
                                        qa,
                                        c0,
                                        e,
                                        q,
                                        affected[e]@.contains(q as usize),
                                        n,
                                    );
                                }
                                assert(cells2[c0] == before[c0]);
                            }
                            assert forall|t: int|
                                #![trigger affected[d as int]@[t]]
                                0 <= t < a + 1 && cells2[j].possible()[affected[d as int]@[t] as int] implies supported_from(
                                cells2,
                                *rules,
                                c0,
                                d as int,
                                affected[d as int]@[t] as int,
                            ) by {
                                if t < a {
                                    assert(affected[d as int]@[t] < n);
                                    assert(before[j].possible()[affected[d as int]@[t] as int]);
                                    assert(supported_from(before, *rules, c0, d as int, affected[d as int]@[t] as int));
                                    assert(cells2[c0] == before[c0]);
                                }
                            }
                        }
                        a = a + 1;
                    }
                    proof {
                        let c0 = current_index as int;
                        let cells = self.wave.cells_view();
                        assert forall|q: int| 0 <= q < n implies #[trigger] support_accounted(
                            w,
                            h,
                            cells,
                            self.pending_removals@,
                            cells0,
                            removals0,
                            *rules,
                            c0,
                            d as int,
                            q,
                            false,
                        ) by {
                            assert(support_accounted(
                                w,
                                h,
                                cells,
                                self.pending_removals@,
                                cells0,
                                removals0,
                                *rules,
                                c0,
                                d as int,
                                q,
                                affected[d as int]@.contains(q as usize),
                            ));
                            if affected[d as int]@.contains(q as usize) {
                                let t = choose|t: int| 0 <= t < affected[d as int]@.len() && affected[d as int]@[t] == q as usize;
                                assert(affected[d as int]@[t] as int == q);
                            }
                        }
                    }
                }
                proof {
                    let c0 = current_index as int;
                    let cells = self.wave.cells_view();
                    assert forall|e: int, q: int| 0 <= e < d + 1 && 0 <= q < n implies #[trigger] support_accounted(
                        w,
                        h,
                        cells,
                        self.pending_removals@,
                        cells0,
                        removals0,
                        *rules,
                        c0,
                        e,
                        q,
                        false,
                    ) by {
                        if e < d {
                        } else {
                            if neighbor is None {
                                assert(neighbor_spec(w, h, c0 % w, c0 / w, direction_of_index(e)) is None);
                            }
                        }
                    }
                }
                d = d + 1;
            }
            proof {
                lemma_total_count_nonneg(self.wave.cells_view());
            }
        }
    }

    /// Hands the entropy heap, for every cell whose entropy changed, the priority that `priority`
    /// gives it (called with the cell's index and the cell) and the cell's possible count; a cell
    /// left with at most one pattern leaves the heap.
    fn flush_entropy_updates<F: Fn(usize, &Cell) -> u64>(&mut self, priority: &F)
        requires
            old(self).inv(),
            forall|c: usize, cell: &Cell| #[trigger] priority.requires((c, cell)),
        ensures
            old(self).commits_cover(*final(self)),
            final(self).inv(),
            final(self).weights_view() == old(self).weights_view(),
            final(self).dirty_cells().len() == 0,
            final(self).wave_view() == old(self).wave_view(),
            final(self).queue_view() == old(self).queue_view(),
            final(self).decisions() == old(self).decisions(),
            final(self).decision_states() == old(self).decision_states(),
            final(self).pending_view() == old(self).pending_view(),
            forall|c: int|
                0 <= c < old(self).cell_total() && !old(self).dirty_cells().contains(c as usize) ==> #[trigger] final(self).heap_view().entries()[c]
                    == old(self).heap_view().entries()[c],
            forall|c: int|
                0 <= c < old(self).cell_total() && old(self).dirty_cells().contains(c as usize) ==> (#[trigger] final(self).heap_view().entries()[c]
                    is Some <==> old(self).wave_view().cells_view()[c].count() > 1),
            forall|c: int|
                0 <= c < old(self).cell_total() && old(self).dirty_cells().contains(c as usize)
                    && #[trigger] final(self).heap_view().entries()[c] is Some ==> priority.ensures(
                    (c as usize, &old(self).wave_view().cells_view()[c]),
                    final(self).heap_view().entries()[c]->0,
                ),
    {
        let n = self.dirty_entropy_cells.len();
        let ghost dirty = self.dirty_entropy_cells@;
        let mut priorities: Vec<u64> = Vec::new();
        let mut i: usize = 0;
        while i < n
            invariant
                i <= n,
                n == dirty.len(),
                dirty == self.dirty_entropy_cells@,
                self.inv(),
                priorities@.len() == i,
                forall|c: usize, cell: &Cell| #[trigger] priority.requires((c, cell)),
                forall|k: int|
                    0 <= k < i ==> priority.ensures(
                        (dirty[k], &self.wave.cells_view()[dirty[k] as int]),
                        #[trigger] priorities@[k],
                    ),
            decreases n - i,
        {
            let cell_index = self.dirty_entropy_cells[i];
            let p = match self.wave.get_cell_by_index(cell_index) {
                Some(cell) => priority(cell_index, cell),
                None => 0,
            };
            priorities.push(p);
            i = i + 1;
        }
        let ghost before = *self;
        self.apply_entropy_priorities(priorities.as_slice());
        proof {
            assert forall|c: int|
                0 <= c < old(self).cell_total() && old(self).dirty_cells().contains(c as usize)
                    && #[trigger] self.heap_view().entries()[c] is Some implies priority.ensures(
                    (c as usize, &old(self).wave_view().cells_view()[c]),
                    self.heap_view().entries()[c]->0,
                ) by {
                let k = dirty.index_of(c as usize);
                assert(dirty[k] == c as usize);
            }
        }
    }

    /// Propagation: works off the queue of removals (see `drain_propagation_queue`) and, when that
    /// succeeds, hands the heap the new priorities of the changed cells. Only ever removes
    /// patterns, each removal being of a pattern a neighbor left unsupported when it was made, so
    /// every arc consistent choice inside the old wave is kept (no removal too many), and each
    /// removed pattern stays unsupported by some neighbor (soundness); when the queue runs empty
    /// (`true`), every pattern left whose support a queued removal could have taken away is still
    /// supported by each neighbor (completeness). `false` as soon as a cell is left without any
    /// pattern.
    pub fn propagate<F: Fn(usize, &Cell) -> u64>(&mut self, model: &WfcModel, priority: &F) -> (r: bool)
        requires
            old(self).inv(),
            model.wf(),
            model.weights() == old(self).weights_view(),
            forall|c: usize, cell: &Cell| #[trigger] priority.requires((c, cell)),
        ensures
            r ==> forall|c: int|
                0 <= c < old(self).cell_total() && (old(self).dirty_cells().contains(c as usize) || final(self).wave_view().cells_view()[c]
                    != old(self).wave_view().cells_view()[c]) ==> (#[trigger] final(self).heap_view().entries()[c] is Some
                    <==> final(self).wave_view().cells_view()[c].count() > 1),
            r ==> forall|c: int|
                0 <= c < old(self).cell_total() && (old(self).dirty_cells().contains(c as usize) || final(self).wave_view().cells_view()[c]
                    != old(self).wave_view().cells_view()[c]) && #[trigger] final(self).heap_view().entries()[c] is Some
                    ==> priority.ensures((c as usize, &final(self).wave_view().cells_view()[c]), final(self).heap_view().entries()[c]->0),
            keeps_consistent_choices(
                old(self).wave_view().width_spec() as int,
                old(self).wave_view().height_spec() as int,
                old(self).wave_view().cells_view(),
                final(self).wave_view().cells_view(),
                model.rules_view(),
                old(self).wave_view().patterns(),
            ),
            old(self).commits_cover(*final(self)),
            final(self).inv(),
            final(self).weights_view() == old(self).weights_view(),
            final(self).pending_view() == old(self).pending_view(),
            final(self).decisions().len() <= old(self).decisions().len(),
            final(self).decision_states() == old(self).decision_states().skip(
                old(self).decision_states().len() - final(self).decision_states().len(),
            ),
            final(self).decisions() == old(self).decisions().skip(old(self).decisions().len() - final(self).decisions().len()),
            final(self).wave_view().width_spec() == old(self).wave_view().width_spec(),
            final(self).wave_view().height_spec() == old(self).wave_view().height_spec(),
            final(self).wave_view().patterns() == old(self).wave_view().patterns(),
            cells_shrunk(old(self).wave_view().cells_view(), final(self).wave_view().cells_view(), old(self).wave_view().patterns()),
            removals_justified(
                old(self).wave_view().width_spec() as int,
                old(self).wave_view().height_spec() as int,
                old(self).wave_view().cells_view(),
                final(self).wave_view().cells_view(),
                model.rules_view(),
                old(self).wave_view().patterns(),
            ),
            r ==> final(self).queue_view().len() == 0 && final(self).dirty_cells().len() == 0,
            r && old(self).heap_current() ==> final(self).heap_current(),
            r ==> propagation_complete(
                old(self).wave_view().width_spec() as int,
                old(self).wave_view().height_spec() as int,
                final(self).wave_view().cells_view(),
                old(self).wave_view().cells_view(),
                old(self).removals_view(),
                model.rules_view(),
                old(self).wave_view().patterns(),
            ),
            !r ==> final(self).wave_view().contradictions() > 0,
            r ==> forall|c: int|
                0 <= c < old(self).cell_total() && old(self).wave_view().cells_view()[c].count() > 0 ==> #[trigger] final(self).wave_view().cells_view()[c].count() > 0,
            r ==> final(self).wave_view().contradictions() == old(self).wave_view().contradictions(),
            old(self).history_consistent(model.rules_view()) ==> final(self).history_consistent(model.rules_view()),
            r && consistent_but_pending(
                old(self).wave_view().width_spec() as int,
                old(self).wave_view().height_spec() as int,
                old(self).wave_view().cells_view(),
                old(self).removals_view(),
                model.rules_view(),
                old(self).wave_view().patterns(),
            ) && old(self).history_consistent(model.rules_view()) && old(self).wave_view().contradictions() == 0
                ==> final(self).settled(model.rules_view()),
    {
        let ok = self.drain_propagation_queue(model);
        let ghost drained = *self;
        proof {
            if ok {
                lemma_same_empty_cells(old(self).wave.cells_view(), self.wave.cells_view(), old(self).wave.patterns());
            }
        }
        if ok {
            self.flush_entropy_updates(priority);
            proof {
                assert forall|c: int|
                    0 <= c < old(self).cell_total() && (old(self).dirty_cells().contains(c as usize) || self.wave.cells_view()[c]
                        != old(self).wave.cells_view()[c]) implies drained.dirty_cells().contains(c as usize) by {
                    if old(self).dirty_cells().contains(c as usize) {
                        assert(old(self).dirty_entropy_cells@.contains(c as usize));
                    }
                }
                if old(self).heap_current() {
                    assert forall|c: int| 0 <= c < self.cell_total() && !self.dirty_cells().contains(c as usize) implies (
                    #[trigger] self.heap_view().entries()[c] is Some <==> self.wave_view().cells_view()[c].count() > 1) by {
                        if !drained.dirty_cells().contains(c as usize) {
                            assert(!old(self).dirty_cells().contains(c as usize));
                            assert(self.wave.cells_view()[c] == old(self).wave.cells_view()[c]);
                        }
                    }
                }
            }
        }
        proof {
            let rules = model.rules_view();
            let w = old(self).wave.width_spec() as int;
            let h = old(self).wave.height_spec() as int;
            let n = old(self).wave.patterns();
            let k = old(self).decision_states().len() - self.decision_states().len();
            if old(self).history_consistent(rules) {
                assert forall|i: int| 0 <= i < self.decision_states().len() implies sound_record(
                    w,
                    h,
                    #[trigger] self.decision_states()[i],
                    rules,
                    n,
                ) by {
                    assert(self.decision_states()[i] == old(self).decision_states()[i + k]);
                }
            }
            if ok && consistent_but_pending(w, h, old(self).wave.cells_view(), old(self).pending_removals@, rules, n) {
                lemma_settled_consistent(w, h, old(self).wave.cells_view(), old(self).pending_removals@, self.wave.cells_view(), rules, n);
                assert forall|c: int| 0 <= c < self.cell_total() implies (#[trigger] self.removals_view()[c])@.len() == 0 by {
                    if self.pending_removals@[c]@.len() > 0 {
                        assert(self.queued_cells@[c]);
                        assert(self.propagation_queue@.contains(c as usize));
                    }
                }
            }
        }
        ok
    }

    /// Backtracking: takes back decisions, newest first (undoing what followed each), and rules out
    /// the pattern each of them chose, until such a rejection propagates without contradiction
    /// (`true`) or no decision is left (`false`). The heap learns the priorities of the cells that
    /// changed. On `true` the wave is the record of the decision taken back with its choice ruled
    /// out and propagated (see `rejection_propagated`); on `false` each decision taken back was
    /// refuted (see `rejection_refuted`), and older ones left the stack only as commits forced by
    /// the bounded history.
    #[verifier::rlimit(30)]
    pub fn try_backtrack<F: Fn(usize, &Cell) -> u64>(&mut self, model: &WfcModel, priority: &F) -> (r: bool)
        requires
            old(self).inv(),
            model.wf(),
            model.weights() == old(self).weights_view(),
            forall|c: usize, cell: &Cell| #[trigger] priority.requires((c, cell)),
        ensures
            final(self).inv(),
            final(self).weights_view() == old(self).weights_view(),
            final(self).queue_view().len() == 0,
            final(self).dirty_cells().len() == 0,
            r ==> final(self).decisions().len() < old(self).decisions().len(),
            r ==> exists|i: int, base: Seq<Cell>, pending0: Seq<Vec<PatternId>>|
                #[trigger] rejection_propagated(*old(self), *final(self), model.rules_view(), i, base, pending0),
            !r ==> final(self).decisions().len() == 0,
            !r && old(self).decisions().len() == 0 ==> final(self).wave_view() == old(self).wave_view(),
            !r && old(self).decisions().len() > 0 ==> final(self).wave_view().contradictions() > 0,
            !r && old(self).decisions().len() > 0 ==> exists|lo: int|
                0 <= lo < old(self).decisions().len() && #[trigger] refuted_from(*old(self), model.rules_view(), lo) && (lo
                    > 0 ==> final(self).backtracking_view().committed_decisions > old(self).backtracking_view().committed_decisions
                    || old(self).backtracking_view().committed_decisions == usize::MAX),
            final(self).wave_view().cells_view().len() == old(self).wave_view().cells_view().len(),
            final(self).wave_view().width_spec() == old(self).wave_view().width_spec(),
            final(self).wave_view().height_spec() == old(self).wave_view().height_spec(),
            final(self).wave_view().patterns() == old(self).wave_view().patterns(),
            old(self).history_consistent(model.rules_view()) ==> final(self).history_consistent(model.rules_view()),
            r && old(self).history_consistent(model.rules_view()) ==> final(self).settled(model.rules_view())
                && final(self).wave_view().contradictions() == 0,
    {
        let ghost rules = model.rules_view();
        let ghost w = old(self).wave.width_spec() as int;
        let ghost h = old(self).wave.height_spec() as int;
        let ghost n = old(self).wave.patterns();
        let ghost mut top: int = old(self).decisions().len() as int;
        proof {
            assert(old(self).decisions() =~= old(self).decisions().subrange(0, top));
            assert(old(self).decision_states() =~= old(self).decision_states().subrange(0, top));
        }
        loop
            invariant
                self.inv(),
                model.wf(),
                model.weights() == self.weights_view(),
                self.weights_view() == old(self).weights_view(),
                self.decisions().len() <= top <= old(self).decisions().len(),
                old(self).decision_states().len() == old(self).decisions().len(),
                self.decision_states().len() == self.decisions().len(),
                self.decisions() == old(self).decisions().subrange(top - self.decisions().len(), top),
                self.decision_states() == old(self).decision_states().subrange(top - self.decisions().len(), top),
                self.decisions().len() == old(self).decisions().len() ==> self.wave == old(self).wave,
                self.decisions().len() < old(self).decisions().len() ==> self.wave.contradictions() > 0,
                self.wave.cells_view().len() == old(self).wave.cells_view().len(),
                self.wave.width_spec() == w,
                self.wave.height_spec() == h,
                self.wave.patterns() == n,
                w == old(self).wave.width_spec() as int,
                h == old(self).wave.height_spec() as int,
                n == old(self).wave.patterns(),
                rules == model.rules_view(),
                old(self).history_consistent(rules) ==> self.history_consistent(rules),
                top == old(self).decisions().len() ==> self.decisions().len() == old(self).decisions().len(),
                self.backtracking_view().committed_decisions >= old(self).backtracking_view().committed_decisions,
                top - self.decisions().len() > 0 ==> (self.backtracking_view().committed_decisions
                    > old(self).backtracking_view().committed_decisions || old(self).backtracking_view().committed_decisions
                    == usize::MAX),
                forall|k: int| top <= k < old(self).decisions().len() ==> #[trigger] rejection_refuted(*old(self), rules, k),
                forall|c: usize, cell: &Cell| #[trigger] priority.requires((c, cell)),
            decreases self.decisions().len(),
        {
            let ghost depth = self.decisions().len();
            let ghost entry = *self;
            if !self.backtrack_begin(model) {
                proof {
                    if old(self).decisions().len() > 0 {
                        assert(top < old(self).decisions().len());
                        assert(refuted_from(*old(self), rules, top));
                    }
                }
                return false;
            }
            let ghost i: int = top - 1;
            let ghost d = entry.decisions().last();
            let ghost record = entry.decision_states().last();
            proof {
                assert(d == old(self).decisions()[i]);
                assert(record == old(self).decision_states()[i]);
                top = i;
                assert(self.decisions() =~= old(self).decisions().subrange(top - self.decisions().len(), top));
                assert(self.decision_states() =~= old(self).decision_states().subrange(top - self.decisions().len(), top));
                entry.lemma_inv_split();
                assert(records_restorable(
                    entry.decision_waves@,
                    entry.decision_stack@,
                    entry.wave.cells_view(),
                    entry.undo_log.entries_view(),
                    entry.undo_log.base(),
                    entry.wave.patterns(),
                    -1,
                    -1,
                ));
                let last = entry.decision_waves@.len() - 1;
                assert(entry.decision_waves@[last][entry.decision_stack@[last].cell_index as int][entry.decision_stack@[last].chosen_pattern_id as int]);
                assert(possible_sets(self.wave.cells_view())[d.cell_index as int] == record[d.cell_index as int]);
            }
            self.flush_entropy_updates(priority);
            let ghost pre = *self;
            proof {
                assert forall|j: int| 0 <= j < pre.cell_total() implies (#[trigger] pre.pending_removals@[j])@.len() == 0 by {
                    if pre.pending_removals@[j]@.len() > 0 {
                        assert(pre.queued_cells@[j]);
                        assert(pre.propagation_queue@.contains(j as usize));
                    }
                }
                assert(possible_sets(pre.wave.cells_view()) == record);
                assert(possible_sets(pre.wave.cells_view())[d.cell_index as int] == record[d.cell_index as int]);
                assert(pre.wave.cells_view()[d.cell_index as int].possible()[d.chosen_pattern_id as int]);
            }
            let rejected = self.backtrack_reject(model);
            let ghost base_s = *self;
            proof {
                let base = base_s.wave.cells_view();
                let c0 = d.cell_index as int;
                assert forall|c: int| 0 <= c < base.len() implies #[trigger] possible_sets(base)[c] == record.update(
                    c0,
                    record[c0].update(d.chosen_pattern_id as int, false),
                )[c] by {
                    assert(possible_sets(pre.wave.cells_view())[c] == record[c]);
                }
                assert(possible_sets(base) =~= record.update(c0, record[c0].update(d.chosen_pattern_id as int, false)));
            }
            if rejected {
                proof {
                    lemma_window_suffix(old(self).decisions(), pre.decisions(), self.decisions(), top);
                    lemma_window_suffix(old(self).decision_states(), pre.decision_states(), self.decision_states(), top);
                    if old(self).history_consistent(rules) {
                        assert(sound_record(w, h, old(self).decision_states()[i], rules, n));
                        let base = self.wave.cells_view();
                        let c0 = d.cell_index as int;
                        assert forall|c: int| 0 <= c < possible_sets(base).len() implies #[trigger] has_pattern(possible_sets(base)[c], n) by {
                            if c == c0 {
                                lemma_count_has_pattern(base[c], n);
                            } else {
                                assert(possible_sets(base)[c] == record[c]);
                                assert(has_pattern(record[c], n));
                            }
                        }
                        lemma_no_empty_cells(base, n);
                        lemma_consistent_with_any_pending(w, h, pre.wave.cells_view(), pre.pending_removals@, rules, n);
                        lemma_pending_removal(
                            w,
                            h,
                            pre.wave.cells_view(),
                            self.wave.cells_view(),
                            pre.pending_removals@,
                            self.pending_removals@,
                            rules,
                            d.cell_index as int,
                            d.chosen_pattern_id as int,
                            n,
                        );
                        let len = self.decision_states().len();
                        assert forall|k: int| 0 <= k < len implies sound_record(
                            w,
                            h,
                            #[trigger] self.decision_states()[k],
                            rules,
                            n,
                        ) by {
                            assert(self.decision_states()[k] == old(self).decision_states()[top - len + k]);
                        }
                    }
                }
                self.solve_counts.propagation_calls = self.solve_counts.propagation_calls.saturating_add(1);
                if self.propagate(model, priority) {
                    self.note_backtrack_success();
                    proof {
                        if old(self).history_consistent(rules) {
                            assert(self.settled(rules));
                        }
                        lemma_window_suffix(old(self).decisions(), base_s.decisions(), self.decisions(), top);
                        lemma_window_suffix(old(self).decision_states(), base_s.decision_states(), self.decision_states(), top);
                        let base = base_s.wave.cells_view();
                        let pending0 = base_s.pending_removals@;
                        let c0 = d.cell_index as int;
                        assert forall|c: int| 0 <= c < base.len() implies (#[trigger] pending0[c])@ == if c == c0 {
                            seq![d.chosen_pattern_id]
                        } else {
                            Seq::<PatternId>::empty()
                        } by {
                            assert(pre.pending_removals@[c]@.len() == 0);
                            if c == c0 {
                                assert(pending0[c]@ =~= seq![d.chosen_pattern_id]);
                            } else {
                                assert(pending0[c]@ =~= Seq::<PatternId>::empty());
                            }
                        }
                        assert(rejection_propagated(*old(self), *self, model.rules_view(), i, base, pending0));
                    }
                    return true;
                }
                proof {
                    lemma_window_suffix(old(self).decisions(), base_s.decisions(), self.decisions(), top);
                    lemma_window_suffix(old(self).decision_states(), base_s.decision_states(), self.decision_states(), top);
                    assert(refutation(*old(self), rules, i, base_s.wave.cells_view(), self.wave.cells_view()));
                }
            } else {
                proof {
                    lemma_window_suffix(old(self).decisions(), pre.decisions(), self.decisions(), top);
                    lemma_window_suffix(old(self).decision_states(), pre.decision_states(), self.decision_states(), top);
                    let base = self.wave.cells_view();
                    assert(cells_shrunk(base, base, n));
                    assert(refutation(*old(self), rules, i, base, base));
                }
            }
            proof {
                if old(self).history_consistent(rules) {
                    let len = self.decision_states().len();
                    assert forall|k: int| 0 <= k < len implies sound_record(
                        w,
                        h,
                        #[trigger] self.decision_states()[k],
                        rules,
                        n,
                    ) by {
                        assert(self.decision_states()[k] == old(self).decision_states()[top - len + k]);
                    }
                }
            }
            assert(self.decisions().len() < depth);
        }
    }

    /// One round of solving: done (`Solved`) when every cell is decided; on a contradiction,
    /// backtracks (`Failed` when nothing is left to take back); otherwise observes the undecided
    /// cell with the lowest entropy priority and propagates the choice, backtracking when that
    /// fails. `Failed` also when no cell can be observed although the wave is not decided.
    pub fn solve_step<F: Fn(usize, &Cell) -> u64>(&mut self, model: &WfcModel, rng: &mut StdRng, priority: &F) -> (r:
        SolveStep)
        requires
            old(self).inv(),
            model.wf(),
            model.weights() == old(self).weights_view(),
            forall|c: usize, cell: &Cell| #[trigger] priority.requires((c, cell)),
        ensures
            final(self).inv(),
            final(self).weights_view() == old(self).weights_view(),
            final(self).wave_view().cells_view().len() == old(self).wave_view().cells_view().len(),
            r == SolveStep::Solved ==> final(self).wave_view().unresolved() == 0 && final(self).wave_view().contradictions() == 0,
            old(self).wave_view().unresolved() == 0 && old(self).wave_view().contradictions() == 0 ==> r == SolveStep::Solved
                && final(self).wave_view() == old(self).wave_view(),
            r == SolveStep::Running ==> final(self).queue_view().len() == 0 && final(self).dirty_cells().len() == 0,
            r == SolveStep::Failed ==> !(final(self).wave_view().unresolved() == 0 && final(self).wave_view().contradictions() == 0),
            old(self).wave_view().contradictions() > 0 ==> r != SolveStep::Solved,
            old(self).wave_view().contradictions() > 0 && r == SolveStep::Running ==> exists|i: int, base: Seq<Cell>, pending0: Seq<Vec<PatternId>>|
                #[trigger] rejection_propagated(*old(self), *final(self), model.rules_view(), i, base, pending0),
            old(self).wave_view().contradictions() > 0 && r == SolveStep::Failed ==> final(self).decisions().len() == 0
                && final(self).wave_view().contradictions() > 0,
            old(self).wave_view().contradictions() > 0 && r == SolveStep::Failed && old(self).decisions().len() > 0 ==> exists|lo: int|
                0 <= lo < old(self).decisions().len() && #[trigger] refuted_from(*old(self), model.rules_view(), lo) && (lo
                    > 0 ==> final(self).backtracking_view().committed_decisions > old(self).backtracking_view().committed_decisions
                    || old(self).backtracking_view().committed_decisions == usize::MAX),
            old(self).wave_view().contradictions() == 0 && old(self).wave_view().unresolved() > 0 ==> (r == SolveStep::Failed
                && final(self).wave_view() == old(self).wave_view() <==> old(self).observation_blocked()),
            old(self).wave_view().contradictions() == 0 && old(self).wave_view().unresolved() > 0 && !old(self).observation_blocked()
                && r == SolveStep::Failed ==> final(self).decisions().len() == 0 && final(self).wave_view().contradictions() > 0,
            old(self).wave_view().contradictions() == 0 && old(self).wave_view().unresolved() > 0 ==> r != SolveStep::Solved,
            old(self).wave_view().contradictions() == 0 && old(self).wave_view().unresolved() > 0 && !old(self).observation_blocked()
                && r == SolveStep::Running ==> exists|mid: WfcSolver, cell: usize, p: usize|
                #[trigger] observation_made(*old(self), mid, cell, p) && observed_then_settled(mid, *final(self), model.rules_view()),
            final(self).wave_view().width_spec() == old(self).wave_view().width_spec(),
            final(self).wave_view().height_spec() == old(self).wave_view().height_spec(),
            final(self).wave_view().patterns() == old(self).wave_view().patterns(),
            old(self).settled(model.rules_view()) && r == SolveStep::Running ==> final(self).settled(model.rules_view()),
            old(self).settled(model.rules_view()) && r == SolveStep::Solved ==> final(self).wave_view().constraints_hold(
                model.rules_view(),
            ),
    {
        proof {
            if old(self).settled(model.rules_view()) {
                lemma_consistent_wave_keeps_rules(old(self).wave, model.rules_view());
            }
        }
        if self.wave.is_fully_collapsed() {
            return SolveStep::Solved;
        }
        if self.wave.has_contradiction() {
            if !self.try_backtrack(model, priority) {
                return SolveStep::Failed;
            }
            return SolveStep::Running;
        }
        let ghost unobserved = *self;
        self.solve_counts.observations = self.solve_counts.observations.saturating_add(1);
        proof {
            assert(self.wave_view() == unobserved.wave_view());
            assert(self.decision_states() == unobserved.decision_states());
            assert(self.removals_view() == unobserved.removals_view());
            assert(self.queue_view() == unobserved.queue_view());
            assert(self.heap_view() == unobserved.heap_view());
            assert(unobserved.settled(model.rules_view()) ==> self.settled(model.rules_view()));
            assert(unobserved.observation_blocked() == self.observation_blocked());
        }
        let observation = self.observe(model, rng);
        if observation.is_none() {
            if self.wave.is_fully_collapsed() {
                return SolveStep::Solved;
            }
            return SolveStep::Failed;
        }
        let ghost observed = *self;
        let ghost (cell, chosen) = observation->0;
        self.solve_counts.propagation_calls = self.solve_counts.propagation_calls.saturating_add(1);
        let ghost mid = *self;
        proof {
            assert(self.wave_view() == observed.wave_view());
            assert(self.decision_states() == observed.decision_states());
            assert(self.removals_view() == observed.removals_view());
            assert(observed.history_consistent(model.rules_view()) ==> self.history_consistent(model.rules_view()));
            assert(observation_made(*old(self), mid, cell, chosen));
        }
        let propagated = self.propagate(model, priority);
        if !propagated {
            let ghost mid2 = *self;
            if !self.try_backtrack(model, priority) {
                return SolveStep::Failed;
            }
            proof {
                assert(propagation_failed(mid, mid2, model.rules_view()));
                let (i, base, pending0) = choose|i: int, base: Seq<Cell>, pending0: Seq<Vec<PatternId>>|
                    #[trigger] rejection_propagated(mid2, *self, model.rules_view(), i, base, pending0);
                assert(observed_then_settled(mid, *self, model.rules_view()));
            }
        } else {
            proof {
                assert(propagation_settled(mid, *self, model.rules_view()));
            }
        }
        proof {
            assert(observation_made(*old(self), mid, cell, chosen) && observed_then_settled(mid, *self, model.rules_view()));
        }
        SolveStep::Running
    }
}

} // verus!
