use vstd::prelude::*;

use crate::bitset::{count_true, positions, word_bit, lemma_count_true_update, lemma_count_true_bounds, lemma_positions, lemma_mask_test};
use crate::cell::{Cell, weight_total, lemma_weight_total_all_false};
use crate::direction::{Direction, direction_dx, direction_dy, direction_index, direction_of_index, opposite_spec, all_directions, lemma_direction_facts};
use crate::pattern::{PatternId, patterns_overlap};
use crate::pixel_grid::Pixel;
use crate::rules::AdjacencyRules;

verus! {

/// What taking a pattern out of a cell did.
#[derive(Debug, Clone, Copy, PartialEq, Eq, Structural)]
pub enum PatternRemovalResult {
    Unchanged,
    Removed(usize),
    Contradiction,
}

/// What restricting a cell to a mask did.
#[derive(Debug, Clone, Copy, PartialEq, Eq, Structural)]
pub enum CellConstraintResult {
    Unchanged,
    Changed(usize),
    Contradiction,
}

/// A collapsed cell whose collapsed neighbor holds a pattern that its rules do not allow there.
#[derive(Debug, Clone, Copy, PartialEq, Eq, Structural)]
pub struct ConstraintViolation {
    pub cell_index: usize,
    pub pattern_id: PatternId,
    pub direction: Direction,
    pub neighbor_index: usize,
    pub neighbor_pattern_id: PatternId,
}

/// Which cells are still undecided (more than one pattern possible).
pub open spec fn unresolved_flags(cells: Seq<Cell>) -> Seq<bool> {
    Seq::new(cells.len(), |i: int| cells[i].count() > 1)
}

/// Which cells have no possible pattern left.
pub open spec fn contradiction_flags(cells: Seq<Cell>) -> Seq<bool> {
    Seq::new(cells.len(), |i: int| cells[i].count() == 0)
}

/// The cell one step in `direction` from column `x`, row `y` of a `width` by `height` grid, when
/// that step stays inside.
pub open spec fn neighbor_spec(width: int, height: int, x: int, y: int, direction: Direction) -> Option<
    int,
> {
    let nx = x + direction_dx(direction);
    let ny = y + direction_dy(direction);
    if 0 <= nx < width && 0 <= ny < height {
        Some(ny * width + nx)
    } else {
        None
    }
}

/// The only pattern of a collapsed cell.
pub open spec fn collapsed_pattern(c: Cell) -> Option<PatternId> {
    if c.count() == 1 {
        Some(positions(c.possible())[0])
    } else {
        None
    }
}

/// The grid of cells of the output, with the number of undecided and of contradicted cells.
pub struct Wave {
    width: usize,
    height: usize,
    cells: Vec<Cell>,
    unresolved_count: usize,
    contradiction_count: usize,
    pattern_count: Ghost<nat>,
}

impl Wave {
    pub closed spec fn width_spec(&self) -> nat {
        self.width as nat
    }

    pub closed spec fn height_spec(&self) -> nat {
        self.height as nat
    }

    /// The cells, row by row.
    pub closed spec fn cells_view(&self) -> Seq<Cell> {
        self.cells@
    }

    /// Number of patterns each cell ranges over.
    pub closed spec fn patterns(&self) -> nat {
        self.pattern_count@
    }

    /// The stored number of undecided cells.
    pub closed spec fn unresolved(&self) -> nat {
        self.unresolved_count as nat
    }

    /// The stored number of contradicted cells.
    pub closed spec fn contradictions(&self) -> nat {
        self.contradiction_count as nat
    }

    /// One cell per place, every cell well formed over the same patterns, and both counts exact.
    pub open spec fn wf(&self) -> bool {
        &&& self.cells_view().len() == self.width_spec() * self.height_spec()
        &&& forall|i: int|
            0 <= i < self.cells_view().len() ==> (#[trigger] self.cells_view()[i]).wf()
                && self.cells_view()[i].possible().len() == self.patterns()
        &&& self.unresolved() == count_true(unresolved_flags(self.cells_view()))
        &&& self.contradictions() == count_true(contradiction_flags(self.cells_view()))
        &&& self.cells_view().len() <= usize::MAX
    }

    /// Both waves hold the same cells, sizes and counts.
    pub open spec fn same_state(&self, other: Self) -> bool {
        &&& self.cells_view() == other.cells_view()
        &&& self.width_spec() == other.width_spec()
        &&& self.height_spec() == other.height_spec()
        &&& self.patterns() == other.patterns()
        &&& self.unresolved() == other.unresolved()
        &&& self.contradictions() == other.contradictions()
    }

    /// Every cell's stored weight is the total weight of its possible patterns.
    pub open spec fn weights_match(&self, weights: Seq<u32>) -> bool {
        forall|i: int|
            0 <= i < self.cells_view().len() ==> (#[trigger] self.cells_view()[i]).weight_matches(weights)
    }

    /// The cell one step in `direction` from column `x`, row `y`.
    pub open spec fn neighbor(&self, x: int, y: int, direction: Direction) -> Option<int> {
        neighbor_spec(self.width_spec() as int, self.height_spec() as int, x, y, direction)
    }

    /// Every collapsed cell whose neighbor is collapsed holds a pattern that allows the neighbor's
    /// pattern on that side.
    pub open spec fn constraints_hold(&self, rules: AdjacencyRules) -> bool {
        forall|i: int, d: int| 0 <= i < self.cells_view().len() && 0 <= d < 4 ==> #[trigger] self.pair_ok(rules, i, d)
    }

    /// Cell `i` and its neighbor on side `d` are fine by the rules, or one of them is not collapsed,
    /// or there is no neighbor there.
    pub open spec fn pair_ok(&self, rules: AdjacencyRules, i: int, d: int) -> bool {
        let w = self.width_spec() as int;
        match (collapsed_pattern(self.cells_view()[i]), self.neighbor(i % w, i / w, direction_of_index(d))) {
            (Some(p), Some(j)) => match collapsed_pattern(self.cells_view()[j]) {
                Some(q) => rules.allowed_list(p as int, d).contains(q),
                None => true,
            },
            _ => true,
        }
    }

    /// A `width` by `height` grid where every cell allows all `pattern_count` patterns with total
    /// weight `total_weight`.
    pub fn new(width: usize, height: usize, pattern_count: usize, total_weight: u64) -> (r: Self)
        requires
            width * height <= usize::MAX,
        ensures
            r.wf(),
            r.width_spec() == width,
            r.height_spec() == height,
            r.patterns() == pattern_count,
            forall|i: int|
                0 <= i < r.cells_view().len() ==> (#[trigger] r.cells_view()[i]).possible() == Seq::new(
                    pattern_count as nat,
                    |p: int| true,
                ) && r.cells_view()[i].count() == pattern_count && r.cells_view()[i].weight()
                    == total_weight,
            r.unresolved() == (if pattern_count > 1 { width * height } else { 0 }),
            r.contradictions() == (if pattern_count == 0 { width * height } else { 0 }),
    {
        let cell_count = width * height;
        let mut cells: Vec<Cell> = Vec::new();
        let mut k: usize = 0;
        while k < cell_count
            invariant
                k <= cell_count,
                cells@.len() == k,
                forall|i: int|
                    0 <= i < k ==> (#[trigger] cells@[i]).wf() && cells@[i].possible() == Seq::new(
                        pattern_count as nat,
                        |p: int| true,
                    ) && cells@[i].count() == pattern_count && cells@[i].weight() == total_weight,
            decreases cell_count - k,
        {
            cells.push(Cell::new(pattern_count, total_weight));
            k = k + 1;
        }
        let unresolved_count = if pattern_count > 1 { cell_count } else { 0 };
        let contradiction_count = if pattern_count == 0 { cell_count } else { 0 };
        let r = Self {
            width,
            height,
            cells,
            unresolved_count,
            contradiction_count,
            pattern_count: Ghost(pattern_count as nat),
        };
        proof {
            lemma_count_true_bounds(unresolved_flags(r.cells@));
            lemma_count_true_bounds(contradiction_flags(r.cells@));
        }
        r
    }

    pub fn get_width(&self) -> (r: usize)
        ensures
            r == self.width_spec(),
    {
        self.width
    }

    pub fn get_height(&self) -> (r: usize)
        ensures
            r == self.height_spec(),
    {
        self.height
    }

    /// Number of cells.
    pub fn cell_count(&self) -> (r: usize)
        ensures
            r == self.cells_view().len(),
    {
        self.cells.len()
    }

    /// The row-major index of column `x`, row `y`, when that place is inside the grid.
    pub fn coordinates_to_index(&self, x: usize, y: usize) -> (r: Option<usize>)
        requires
            self.wf(),
        ensures
            r == (if x < self.width_spec() && y < self.height_spec() {
                Some((y * self.width_spec() + x) as usize)
            } else {
                None::<usize>
            }),
            r matches Some(i) ==> i < self.cells_view().len(),
    {
        if x >= self.width || y >= self.height {
            return None;
        }
        proof {
            lemma_index_bound(x as int, y as int, self.width as int, self.height as int);
        }
        Some(y * self.width + x)
    }

    /// The column and row of the cell with index `index`, when there is such a cell.
    pub fn index_to_coordinates(&self, index: usize) -> (r: Option<(usize, usize)>)
        requires
            self.wf(),
        ensures
            r == (if index < self.cells_view().len() {
                Some(((index as nat % self.width_spec()) as usize, (index as nat / self.width_spec()) as usize))
            } else {
                None::<(usize, usize)>
            }),
            r matches Some((x, y)) ==> x < self.width_spec() && y < self.height_spec() && y
                * self.width_spec() + x == index,
    {
        if index >= self.cells.len() {
            return None;
        }
        proof {
            lemma_coordinates_of_index(index as int, self.width as int, self.height as int);
        }
        let x = index % self.width;
        let y = index / self.width;
        Some((x, y))
    }

    /// The cell at column `x`, row `y`.
    pub fn get_cell(&self, x: usize, y: usize) -> (r: Option<&Cell>)
        requires
            self.wf(),
        ensures
            r == (if x < self.width_spec() && y < self.height_spec() {
                Some(&self.cells_view()[y * self.width_spec() + x])
            } else {
                None::<&Cell>
            }),
    {
        let index = self.coordinates_to_index(x, y);
        proof {
            if x < self.width && y < self.height {
                lemma_index_bound(x as int, y as int, self.width as int, self.height as int);
            }
        }
        match index {
            Some(i) => Some(&self.cells[i]),
            None => None,
        }
    }

    /// The cell with index `index`.
    pub fn get_cell_by_index(&self, index: usize) -> (r: Option<&Cell>)
        ensures
            r == (if index < self.cells_view().len() {
                Some(&self.cells_view()[index as int])
            } else {
                None::<&Cell>
            }),
    {
        if index < self.cells.len() {
            Some(&self.cells[index])
        } else {
            None
        }
    }

    /// The index of the cell one step in `direction` from column `x`, row `y`, when that cell
    /// exists.
    pub fn get_neighbor_index(&self, x: usize, y: usize, direction: Direction) -> (r: Option<usize>)
        requires
            self.wf(),
            direction == Direction::Right ==> x < usize::MAX,
            direction == Direction::Down ==> y < usize::MAX,
        ensures
            r is Some <==> self.neighbor(x as int, y as int, direction) is Some,
            r matches Some(j) ==> self.neighbor(x as int, y as int, direction) == Some(j as int),
            r matches Some(j) ==> j < self.cells_view().len(),
    {
        let (neighbor_x, neighbor_y) = match direction {
            Direction::Up => {
                if y == 0 {
                    return None;
                }
                (x, y - 1)
            },
            Direction::Right => {
                if x + 1 >= self.width {
                    return None;
                }
                (x + 1, y)
            },
            Direction::Down => {
                if y + 1 >= self.height {
                    return None;
                }
                (x, y + 1)
            },
            Direction::Left => {
                if x == 0 {
                    return None;
                }
                (x - 1, y)
            },
        };
        proof {
            if neighbor_x < self.width && neighbor_y < self.height {
                lemma_index_bound(neighbor_x as int, neighbor_y as int, self.width as int, self.height as int);
            }
        }
        self.coordinates_to_index(neighbor_x, neighbor_y)
    }

    /// No cell is undecided and none is contradicted.
    pub fn is_fully_collapsed(&self) -> (r: bool)
        ensures
            r == (self.unresolved() == 0 && self.contradictions() == 0),
    {
        self.unresolved_count == 0 && self.contradiction_count == 0
    }

    /// Some cell has no possible pattern left.
    pub fn has_contradiction(&self) -> (r: bool)
        ensures
            r == (self.contradictions() > 0),
    {
        self.contradiction_count > 0
    }

    pub fn get_unresolved_count(&self) -> (r: usize)
        ensures
            r == self.unresolved(),
    {
        self.unresolved_count
    }

    pub fn get_contradiction_count(&self) -> (r: usize)
        ensures
            r == self.contradictions(),
    {
        self.contradiction_count
    }

    /// Brings both counters from the state before cell `j` changed (when it held `prev`) to the
    /// present cells.
    fn update_cell_state_counts(
        &mut self,
        before_count: usize,
        after_count: usize,
        Ghost(j): Ghost<int>,
        Ghost(prev): Ghost<Cell>,
    )
        requires
            0 <= j < old(self).cells_view().len(),
            old(self).cells_view().len() <= usize::MAX,
            prev.count() == before_count,
            old(self).cells_view()[j].count() == after_count,
            old(self).unresolved() == count_true(
                unresolved_flags(old(self).cells_view().update(j, prev)),
            ),
            old(self).contradictions() == count_true(
                contradiction_flags(old(self).cells_view().update(j, prev)),
            ),
        ensures
            final(self).cells_view() == old(self).cells_view(),
            final(self).width_spec() == old(self).width_spec(),
            final(self).height_spec() == old(self).height_spec(),
            final(self).patterns() == old(self).patterns(),
            final(self).unresolved() == count_true(unresolved_flags(final(self).cells_view())),
            final(self).contradictions() == count_true(contradiction_flags(final(self).cells_view())),
    {
        let ghost cells = self.cells@;
        let ghost prior = cells.update(j, prev);
        proof {
            assert(cells =~= prior.update(j, cells[j]));
            assert(unresolved_flags(cells) =~= unresolved_flags(prior).update(j, after_count > 1));
            assert(contradiction_flags(cells) =~= contradiction_flags(prior).update(j, after_count == 0));
            lemma_count_true_update(unresolved_flags(prior), j, after_count > 1);
            lemma_count_true_update(contradiction_flags(prior), j, after_count == 0);
            lemma_count_true_bounds(unresolved_flags(cells));
            lemma_count_true_bounds(contradiction_flags(cells));
        }
        let was_unresolved = before_count > 1;
        let is_unresolved = after_count > 1;
        if was_unresolved && !is_unresolved {
            self.unresolved_count = self.unresolved_count - 1;
        } else if !was_unresolved && is_unresolved {
            self.unresolved_count = self.unresolved_count + 1;
        }
        let was_contradiction = before_count == 0;
        let is_contradiction = after_count == 0;
        if !was_contradiction && is_contradiction {
            self.contradiction_count = self.contradiction_count + 1;
        } else if was_contradiction && !is_contradiction {
            self.contradiction_count = self.contradiction_count - 1;
        }
    }

    /// Takes `pattern_id` out of cell `cell_index` (lowering its weight by `weight`); says whether
    /// nothing changed, how many patterns are left, or that none is.
    pub fn remove_pattern_from_cell(&mut self, cell_index: usize, pattern_id: PatternId, weight: u32) -> (r:
        PatternRemovalResult)
        requires
            old(self).wf(),
            cell_index < old(self).cells_view().len() ==> pattern_id < old(self).patterns(),
            cell_index < old(self).cells_view().len() && old(self).cells_view()[cell_index as int].possible()[pattern_id as int]
                ==> weight <= old(self).cells_view()[cell_index as int].weight(),
        ensures
            final(self).wf(),
            final(self).width_spec() == old(self).width_spec(),
            final(self).height_spec() == old(self).height_spec(),
            final(self).patterns() == old(self).patterns(),
            final(self).cells_view().len() == old(self).cells_view().len(),
            r == removal_result(old(self).cells_view(), cell_index as int, pattern_id as int),
            r == PatternRemovalResult::Unchanged ==> *final(self) == *old(self),
            r != PatternRemovalResult::Unchanged ==> {
                let c = old(self).cells_view()[cell_index as int];
                let f = final(self).cells_view()[cell_index as int];
                &&& f.possible() == c.possible().update(pattern_id as int, false)
                &&& f.count() == c.count() - 1
                &&& f.weight() == (if f.count() == 0 { 0 } else { c.weight() - weight })
                &&& forall|i: int| 0 <= i < final(self).cells_view().len() && i != cell_index
                    ==> #[trigger] final(self).cells_view()[i] == old(self).cells_view()[i]
            },
    {
        if cell_index >= self.cells.len() {
            return PatternRemovalResult::Unchanged;
        }
        let ghost prev = self.cells@[cell_index as int];
        if !self.cells[cell_index].is_pattern_possible(pattern_id) {
            return PatternRemovalResult::Unchanged;
        }
        let before_count = self.cells[cell_index].possible_count();
        let changed = self.cells[cell_index].remove_pattern(pattern_id, weight);
        assert(changed);
        let after_count = self.cells[cell_index].possible_count();
        proof {
            assert(old(self).cells_view() =~= self.cells_view().update(cell_index as int, prev));
            assert forall|i: int| 0 <= i < self.cells_view().len() implies (#[trigger] self.cells_view()[i]).wf()
                && self.cells_view()[i].possible().len() == self.patterns() by {
                if i != cell_index {
                    assert(self.cells_view()[i] == old(self).cells_view()[i]);
                }
            }
        }
        self.update_cell_state_counts(before_count, after_count, Ghost(cell_index as int), Ghost(prev));
        if after_count == 0 {
            PatternRemovalResult::Contradiction
        } else {
            PatternRemovalResult::Removed(after_count)
        }
    }

    /// Makes `pattern_id` possible again in cell `cell_index` (raising its weight by `weight`);
    /// says whether it was impossible there.
    pub fn restore_pattern_to_cell(&mut self, cell_index: usize, pattern_id: PatternId, weight: u32) -> (r: bool)
        requires
            old(self).wf(),
            cell_index < old(self).cells_view().len() ==> pattern_id < old(self).patterns(),
            cell_index < old(self).cells_view().len() && !old(self).cells_view()[cell_index as int].possible()[pattern_id as int]
                ==> old(self).cells_view()[cell_index as int].weight() + weight <= u64::MAX,
        ensures
            final(self).wf(),
            final(self).width_spec() == old(self).width_spec(),
            final(self).height_spec() == old(self).height_spec(),
            final(self).patterns() == old(self).patterns(),
            final(self).cells_view().len() == old(self).cells_view().len(),
            r == (cell_index < old(self).cells_view().len() && !old(self).cells_view()[cell_index as int].possible()[pattern_id as int]),
            !r ==> *final(self) == *old(self),
            r ==> {
                let c = old(self).cells_view()[cell_index as int];
                let f = final(self).cells_view()[cell_index as int];
                &&& f.possible() == c.possible().update(pattern_id as int, true)
                &&& f.count() == c.count() + 1
                &&& f.weight() == c.weight() + weight
                &&& forall|i: int| 0 <= i < final(self).cells_view().len() && i != cell_index
                    ==> #[trigger] final(self).cells_view()[i] == old(self).cells_view()[i]
            },
    {
        if cell_index >= self.cells.len() {
            return false;
        }
        let ghost prev = self.cells@[cell_index as int];
        if self.cells[cell_index].is_pattern_possible(pattern_id) {
            return false;
        }
        let before_count = self.cells[cell_index].possible_count();
        let changed = self.cells[cell_index].restore_pattern(pattern_id, weight);
        assert(changed);
        let after_count = self.cells[cell_index].possible_count();
        proof {
            assert(old(self).cells_view() =~= self.cells_view().update(cell_index as int, prev));
            assert forall|i: int| 0 <= i < self.cells_view().len() implies (#[trigger] self.cells_view()[i]).wf()
                && self.cells_view()[i].possible().len() == self.patterns() by {
                if i != cell_index {
                    assert(self.cells_view()[i] == old(self).cells_view()[i]);
                }
            }
        }
        self.update_cell_state_counts(before_count, after_count, Ghost(cell_index as int), Ghost(prev));
        true
    }

    /// Leaves `pattern_id` (with weight `weight`) as the only possible pattern of cell `cell_index`
    /// if it was possible there; says whether it was.
    pub fn collapse_cell_to(&mut self, cell_index: usize, pattern_id: PatternId, weight: u32) -> (r: bool)
        requires
            old(self).wf(),
            cell_index < old(self).cells_view().len() ==> pattern_id < old(self).patterns(),
        ensures
            final(self).wf(),
            final(self).width_spec() == old(self).width_spec(),
            final(self).height_spec() == old(self).height_spec(),
            final(self).patterns() == old(self).patterns(),
            final(self).cells_view().len() == old(self).cells_view().len(),
            r == (cell_index < old(self).cells_view().len() && old(self).cells_view()[cell_index as int].possible()[pattern_id as int]),
            !r ==> *final(self) == *old(self),
            r ==> {
                let f = final(self).cells_view()[cell_index as int];
                &&& f.possible() == Seq::new(old(self).patterns(), |i: int| i == pattern_id)
                &&& f.count() == 1
                &&& f.weight() == weight
                &&& forall|i: int| 0 <= i < final(self).cells_view().len() && i != cell_index
                    ==> #[trigger] final(self).cells_view()[i] == old(self).cells_view()[i]
            },
    {
        if cell_index >= self.cells.len() {
            return false;
        }
        let ghost prev = self.cells@[cell_index as int];
        if !self.cells[cell_index].is_pattern_possible(pattern_id) {
            return false;
        }
        let before_count = self.cells[cell_index].possible_count();
        let changed = self.cells[cell_index].collapse_to(pattern_id, weight);
        assert(changed);
        let after_count = self.cells[cell_index].possible_count();
        proof {
            assert(old(self).cells_view() =~= self.cells_view().update(cell_index as int, prev));
            assert forall|i: int| 0 <= i < self.cells_view().len() implies (#[trigger] self.cells_view()[i]).wf()
                && self.cells_view()[i].possible().len() == self.patterns() by {
                if i != cell_index {
                    assert(self.cells_view()[i] == old(self).cells_view()[i]);
                }
            }
        }
        self.update_cell_state_counts(before_count, after_count, Ghost(cell_index as int), Ghost(prev));
        true
    }

    /// Restricts cell `cell_index` to the patterns whose bit is set in `mask`, its weight then
    /// being recounted by `pattern_weights`; says whether nothing changed, how many patterns are
    /// left, or that none is.
    pub fn intersect_cell_with_mask(&mut self, cell_index: usize, mask: &[u64], pattern_weights: &[u32]) -> (r:
        CellConstraintResult)
        requires
            old(self).wf(),
            cell_index < old(self).cells_view().len() && old(self).cells_view()[cell_index as int].count() != 1 ==> mask@.len() == (
            old(self).patterns() + 63) / 64,
            cell_index < old(self).cells_view().len() && old(self).cells_view()[cell_index as int].count() == 1 ==> forall|p: int|
                0 <= p < old(self).patterns() && #[trigger] old(self).cells_view()[cell_index as int].possible()[p] ==> p / 64
                    < mask@.len(),
            pattern_weights@.len() == old(self).patterns(),
            weight_total(Seq::new(old(self).patterns(), |i: int| true), pattern_weights@) <= u64::MAX,
        ensures
            final(self).wf(),
            final(self).width_spec() == old(self).width_spec(),
            final(self).height_spec() == old(self).height_spec(),
            final(self).patterns() == old(self).patterns(),
            final(self).cells_view().len() == old(self).cells_view().len(),
            cell_index >= old(self).cells_view().len() ==> r == CellConstraintResult::Unchanged,
            cell_index < old(self).cells_view().len() ==> {
                let c = old(self).cells_view()[cell_index as int];
                let kept = Seq::new(c.possible().len(), |i: int| c.possible()[i] && word_bit(mask@[i / 64], i % 64));
                &&& r == (if kept == c.possible() {
                    CellConstraintResult::Unchanged
                } else if count_true(kept) == 0 {
                    CellConstraintResult::Contradiction
                } else {
                    CellConstraintResult::Changed(count_true(kept) as usize)
                })
                &&& final(self).cells_view()[cell_index as int].possible() == kept
                &&& r != CellConstraintResult::Unchanged ==> final(self).cells_view()[cell_index as int].weight() == weight_total(
                    kept,
                    pattern_weights@,
                )
            },
            r == CellConstraintResult::Unchanged ==> final(self).same_state(*old(self)),
            forall|i: int| 0 <= i < final(self).cells_view().len() && i != cell_index
                ==> #[trigger] final(self).cells_view()[i] == old(self).cells_view()[i],
    {
        if cell_index >= self.cells.len() {
            return CellConstraintResult::Unchanged;
        }
        let ghost prev = self.cells@[cell_index as int];
        let ghost kept = Seq::new(prev.possible().len(), |i: int| prev.possible()[i] && word_bit(mask@[i / 64], i % 64));
        let before_count = self.cells[cell_index].possible_count();
        let after_count: usize;
        if before_count == 1 {
            let collapsed = self.cells[cell_index].collapsed_pattern_id();
            let pattern_id = match collapsed {
                Some(p) => p,
                None => {
                    return CellConstraintResult::Unchanged;
                },
            };
            proof {
                lemma_positions(prev.possible());
                lemma_single_position(prev.possible());
            }
            let word_index = pattern_id / 64;
            let bit_index = pattern_id % 64;
            proof {
                lemma_mask_test(mask@[word_index as int], bit_index as u64);
            }
            let is_supported = (mask[word_index] & (1u64 << bit_index)) != 0;
            if is_supported {
                proof {
                    assert(kept =~= prev.possible());
                }
                return CellConstraintResult::Unchanged;
            }
            let removed = self.cells[cell_index].remove_pattern(pattern_id, 0);
            proof {
                assert(kept =~= prev.possible().update(pattern_id as int, false));
                assert forall|i: int| 0 <= i < kept.len() implies !kept[i] by {
                    if i != pattern_id {
                        assert(!prev.possible()[i]);
                    }
                }
                lemma_weight_total_all_false(kept, pattern_weights@);
                assert(kept != prev.possible()) by {
                    assert(prev.possible()[pattern_id as int] != kept[pattern_id as int]);
                }
            }
            after_count = 0;
        } else {
            proof {
                self.cells@[cell_index as int].lemma_words_len();
            }
            let changed = self.cells[cell_index].intersect_with_mask(mask, pattern_weights);
            if !changed {
                proof {
                    assert(self.cells_view() =~= old(self).cells_view());
                }
                return CellConstraintResult::Unchanged;
            }
            after_count = self.cells[cell_index].possible_count();
        }
        proof {
            assert(old(self).cells_view() =~= self.cells_view().update(cell_index as int, prev));
            assert forall|i: int| 0 <= i < self.cells_view().len() implies (#[trigger] self.cells_view()[i]).wf()
                && self.cells_view()[i].possible().len() == self.patterns() by {
                if i != cell_index {
                    assert(self.cells_view()[i] == old(self).cells_view()[i]);
                }
            }
        }
        self.update_cell_state_counts(before_count, after_count, Ghost(cell_index as int), Ghost(prev));
        if after_count == 0 {
            CellConstraintResult::Contradiction
        } else {
            CellConstraintResult::Changed(after_count)
        }
    }

    /// The first collapsed cell (by index, then by direction) whose collapsed neighbor holds a
    /// pattern its rules do not allow there, if any.
    pub fn find_constraint_violation(&self, rules: &AdjacencyRules) -> (r: Option<ConstraintViolation>)
        requires
            self.wf(),
            rules.pattern_count() >= self.patterns(),
        ensures
            r is None <==> self.constraints_hold(*rules),
            r matches Some(v) ==> {
                &&& v.cell_index < self.cells_view().len()
                &&& !self.pair_ok(*rules, v.cell_index as int, direction_index(v.direction))
                &&& collapsed_pattern(self.cells_view()[v.cell_index as int]) == Some(v.pattern_id)
                &&& self.neighbor(
                    v.cell_index as int % self.width_spec() as int,
                    v.cell_index as int / self.width_spec() as int,
                    v.direction,
                ) == Some(v.neighbor_index as int)
                &&& collapsed_pattern(self.cells_view()[v.neighbor_index as int]) == Some(v.neighbor_pattern_id)
                &&& forall|i: int, d: int|
                    0 <= i < self.cells_view().len() && 0 <= d < 4 && (i < v.cell_index || (i
                        == v.cell_index && d < direction_index(v.direction))) ==> #[trigger] self.pair_ok(*rules, i, d)
            },
    {
        let n = self.cells.len();
        let directions = all_directions();
        let mut i: usize = 0;
        while i < n
            invariant
                i <= n,
                n == self.cells_view().len(),
                self.wf(),
                rules.pattern_count() >= self.patterns(),
                forall|k: int| 0 <= k < 4 ==> directions[k] == direction_of_index(k) && direction_index(directions[k]) == k,
                forall|i2: int, d: int| 0 <= i2 < i && 0 <= d < 4 ==> #[trigger] self.pair_ok(*rules, i2, d),
            decreases n - i,
        {
            let current = self.cells[i].collapsed_pattern_id();
            let coordinates = self.index_to_coordinates(i);
            match (current, coordinates) {
                (Some(pattern_id), Some((x, y))) => {
                    proof {
                        lemma_positions(self.cells_view()[i as int].possible());
                    }
                    let mut k: usize = 0;
                    while k < 4
                        invariant
                            i < n,
                            k <= 4,
                            n == self.cells_view().len(),
                            self.wf(),
                            rules.pattern_count() >= self.patterns(),
                            current == Some(pattern_id),
                            current == collapsed_pattern(self.cells_view()[i as int]),
                            pattern_id < self.patterns(),
                            x == i as int % self.width_spec() as int,
                            y == i as int / self.width_spec() as int,
                            x < self.width_spec(),
                            y < self.height_spec(),
                            forall|k2: int| 0 <= k2 < 4 ==> directions[k2] == direction_of_index(k2) && direction_index(directions[k2]) == k2,
                            forall|i2: int, d: int| 0 <= i2 < i && 0 <= d < 4 ==> #[trigger] self.pair_ok(*rules, i2, d),
                            forall|d: int| 0 <= d < k ==> #[trigger] self.pair_ok(*rules, i as int, d),
                        decreases 4 - k,
                    {
                        let direction = directions[k];
                        let neighbor = self.get_neighbor_index(x, y, direction);
                        if let Some(neighbor_index) = neighbor {
                            let neighbor_pattern = self.cells[neighbor_index].collapsed_pattern_id();
                            if let Some(neighbor_pattern_id) = neighbor_pattern {
                                let allowed_patterns = rules.get_allowed_patterns(pattern_id, direction);
                                if !slice_contains(allowed_patterns, neighbor_pattern_id) {
                                    assert(direction_index(direction) == k);
                                    let ghost w = self.width_spec() as int;
                                    assert(collapsed_pattern(self.cells_view()[i as int]) == Some(pattern_id));
                                    assert(self.neighbor(i as int % w, i as int / w, direction_of_index(k as int)) == Some(neighbor_index as int));
                                    assert(collapsed_pattern(self.cells_view()[neighbor_index as int]) == Some(neighbor_pattern_id));
                                    assert(!rules.allowed_list(pattern_id as int, k as int).contains(neighbor_pattern_id));
                                    assert(!self.pair_ok(*rules, i as int, k as int));
                                    return Some(ConstraintViolation {
                                        cell_index: i,
                                        pattern_id,
                                        direction,
                                        neighbor_index,
                                        neighbor_pattern_id,
                                    });
                                }
                            }
                        }
                        k = k + 1;
                    }
                },
                _ => {
                    proof {
                        lemma_coordinates_of_index(i as int, self.width as int, self.height as int);
                    }
                },
            }
            i = i + 1;
        }
        None
    }

    /// Whether every collapsed cell's collapsed neighbors hold patterns its rules allow there.
    pub fn validate_constraints(&self, rules: &AdjacencyRules) -> (r: bool)
        requires
            self.wf(),
            rules.pattern_count() >= self.patterns(),
        ensures
            r == self.constraints_hold(*rules),
    {
        self.find_constraint_violation(rules).is_none()
    }

    /// Converting a place to its index and back gives the place again.
    pub proof fn lemma_coordinates_round_trip(&self, x: int, y: int)
        requires
            self.wf(),
            0 <= x < self.width_spec(),
            0 <= y < self.height_spec(),
        ensures
            0 <= y * self.width_spec() + x < self.cells_view().len(),
            (y * self.width_spec() + x) % (self.width_spec() as int) == x,
            (y * self.width_spec() + x) / (self.width_spec() as int) == y,
    {
        lemma_index_bound(x, y, self.width_spec() as int, self.height_spec() as int);
        lemma_div_mod_of_index(x, y, self.width_spec() as int);
    }

    /// Converting an index to its place and back gives the index again.
    pub proof fn lemma_index_round_trip(&self, index: int)
        requires
            self.wf(),
            0 <= index < self.cells_view().len(),
        ensures
            index % (self.width_spec() as int) < self.width_spec(),
            index / (self.width_spec() as int) < self.height_spec(),
            (index / (self.width_spec() as int)) * self.width_spec() + index % (self.width_spec() as int) == index,
    {
        lemma_coordinates_of_index(index, self.width_spec() as int, self.height_spec() as int);
    }
}

/// The neighbor relation goes both ways: if `j` is the cell one step in `direction` from the cell
/// at (`x`, `y`), then that cell is the one a step the opposite way from `j`.
pub proof fn lemma_neighbor_symmetric(width: int, height: int, x: int, y: int, direction: Direction)
    requires
        0 <= x < width,
        0 <= y < height,
    ensures
        neighbor_spec(width, height, x, y, direction) matches Some(j) ==> neighbor_spec(
            width,
            height,
            j % width,
            j / width,
            opposite_spec(direction),
        ) == Some(y * width + x),
{
    lemma_direction_facts(direction);
    if let Some(j) = neighbor_spec(width, height, x, y, direction) {
        let nx = x + direction_dx(direction);
        let ny = y + direction_dy(direction);
        lemma_div_mod_of_index(nx, ny, width);
        assert(j % width == nx && j / width == ny);
    }
}

/// Whether `value` occurs in `items`.
pub fn slice_contains(items: &[PatternId], value: PatternId) -> (r: bool)
    ensures
        r == items@.contains(value),
{
    let mut k: usize = 0;
    while k < items.len()
        invariant
            k <= items@.len(),
            forall|i: int| 0 <= i < k ==> items@[i] != value,
        decreases items@.len() - k,
    {
        if items[k] == value {
            proof {
                assert(items@[k as int] == value);
            }
            return true;
        }
        k = k + 1;
    }
    false
}

/// A cell is never its own neighbor.
pub proof fn lemma_neighbor_not_self(width: int, height: int, x: int, y: int, direction: Direction)
    requires
        0 <= x < width,
        0 <= y < height,
    ensures
        neighbor_spec(width, height, x, y, direction) matches Some(j) ==> j != y * width + x,
{
    lemma_direction_facts(direction);
    if let Some(j) = neighbor_spec(width, height, x, y, direction) {
        let nx = x + direction_dx(direction);
        let ny = y + direction_dy(direction);
        lemma_div_mod_of_index(nx, ny, width);
        lemma_div_mod_of_index(x, y, width);
    }
}

proof fn lemma_div_mod_of_index(x: int, y: int, width: int)
    requires
        0 <= x < width,
        0 <= y,
    ensures
        (y * width + x) % width == x,
        (y * width + x) / width == y,
{
    assert((y * width + x) % width == x && (y * width + x) / width == y) by (nonlinear_arith)
        requires
            0 <= x < width,
            0 <= y,
    ;
}

/// A sequence with exactly one `true` entry has it at its first position and nowhere else.
pub proof fn lemma_single_position(s: Seq<bool>)
    requires
        count_true(s) == 1,
        s.len() <= usize::MAX + 1,
    ensures
        positions(s).len() == 1,
        forall|i: int| 0 <= i < s.len() ==> (s[i] <==> i == positions(s)[0]),
{
    lemma_positions(s);
    assert forall|i: int| 0 <= i < s.len() implies (s[i] <==> i == positions(s)[0]) by {
        if s[i] {
            let k = choose|k: int| 0 <= k < positions(s).len() && positions(s)[k] == i;
            assert(k == 0);
        }
    }
}

/// What `remove_pattern_from_cell` answers for cell `j` and pattern `p`.
pub open spec fn removal_result(cells: Seq<Cell>, j: int, p: int) -> PatternRemovalResult {
    if j < 0 || j >= cells.len() || !cells[j].possible()[p] {
        PatternRemovalResult::Unchanged
    } else if cells[j].count() == 1 {
        PatternRemovalResult::Contradiction
    } else {
        PatternRemovalResult::Removed((cells[j].count() - 1) as usize)
    }
}

/// A place inside a `width` by `height` grid has a row-major index inside the grid.
pub proof fn lemma_index_bound(x: int, y: int, width: int, height: int)
    requires
        0 <= x < width,
        0 <= y < height,
    ensures
        0 <= y * width + x < width * height,
{
    assert(y * width + x < width * height) by (nonlinear_arith)
        requires
            0 <= x < width,
            0 <= y < height,
    ;
    assert(0 <= y * width) by (nonlinear_arith)
        requires
            0 <= y,
            0 <= width,
    ;
}

/// An index inside a `width` by `height` grid splits into a column and a row inside the grid.
pub proof fn lemma_coordinates_of_index(index: int, width: int, height: int)
    requires
        0 <= index < width * height,
        0 <= width,
        0 <= height,
    ensures
        width > 0,
        0 <= index % width < width,
        0 <= index / width < height,
        (index / width) * width + index % width == index,
{
    if width == 0 {
        assert(width * height == 0);
    }
    assert((index / width) * width + index % width == index) by (nonlinear_arith)
        requires
            width > 0,
    ;
    assert(index / width < height) by (nonlinear_arith)
        requires
            width > 0,
            0 <= index < width * height,
    ;
    assert(0 <= index / width) by (nonlinear_arith)
        requires
            width > 0,
            0 <= index,
    ;
}

/// The steps of the four directions: `Right` is the next column, `Left` the previous one, `Down`
/// the next row and `Up` the previous one, when that place is inside the grid.
pub proof fn lemma_neighbor_steps(width: int, height: int, x: int, y: int)
    ensures
        neighbor_spec(width, height, x, y, Direction::Right) == (if 0 <= x + 1 < width && 0 <= y < height {
            Some(y * width + x + 1)
        } else {
            None::<int>
        }),
        neighbor_spec(width, height, x, y, Direction::Left) == (if 0 <= x - 1 < width && 0 <= y < height {
            Some(y * width + x - 1)
        } else {
            None::<int>
        }),
        neighbor_spec(width, height, x, y, Direction::Down) == (if 0 <= x < width && 0 <= y + 1 < height {
            Some((y + 1) * width + x)
        } else {
            None::<int>
        }),
        neighbor_spec(width, height, x, y, Direction::Up) == (if 0 <= x < width && 0 <= y - 1 < height {
            Some((y - 1) * width + x)
        } else {
            None::<int>
        }),
{
}

/// A place of a grid of width `width` has one index.
proof fn lemma_index_unique(x: int, y: int, mx: int, my: int, width: int)
    requires
        0 <= x < width,
        0 <= mx < width,
        y * width + x == my * width + mx,
    ensures
        x == mx,
        y == my,
{
    assert((y - my) * width == mx - x) by (nonlinear_arith)
        requires
            y * width + x == my * width + mx,
    ;
    if y > my {
        assert((y - my) * width >= width) by (nonlinear_arith)
            requires
                y - my >= 1,
                width > 0,
        ;
    } else if y < my {
        assert((my - y) * width >= width) by (nonlinear_arith)
            requires
                my - y >= 1,
                width > 0,
        ;
        assert((y - my) * width == -((my - y) * width)) by (nonlinear_arith);
    }
}

/// Two `n` by `n` patterns, `a` drawn at cell (`x`, `y`) and `b` at its neighbor (`nx`, `ny`) in
/// `direction` (each square placed with its top left corner at its cell, as a wave is drawn), may
/// stand that way exactly when they have the same color at every picture pixel that both squares
/// cover.
pub proof fn lemma_overlap_is_agreement_where_drawn(
    a: Seq<Pixel>,
    b: Seq<Pixel>,
    n: int,
    direction: Direction,
    width: int,
    height: int,
    x: int,
    y: int,
    nx: int,
    ny: int,
)
    requires
        n > 0,
        0 <= x < width,
        0 <= y < height,
        0 <= nx < width,
        0 <= ny < height,
        neighbor_spec(width, height, x, y, direction) == Some(ny * width + nx),
    ensures
        patterns_overlap(a, b, n, direction) <==> forall|px: int, py: int|
            x <= px < x + n && y <= py < y + n && nx <= px < nx + n && ny <= py < ny + n ==> #[trigger] a[(py - y) * n + (px
                - x)] == #[trigger] b[(py - ny) * n + (px - nx)],
{
    let dx = direction_dx(direction);
    let dy = direction_dy(direction);
    lemma_index_unique(x + dx, y + dy, nx, ny, width);
    if patterns_overlap(a, b, n, direction) {
        assert forall|px: int, py: int|
            x <= px < x + n && y <= py < y + n && nx <= px < nx + n && ny <= py < ny + n implies #[trigger] a[(py - y) * n + (px
                - x)] == #[trigger] b[(py - ny) * n + (px - nx)] by {
            let x0 = px - nx;
            let y0 = py - ny;
            assert(a[(y0 + dy) * n + (x0 + dx)] == b[y0 * n + x0]);
        }
    }
    if forall|px: int, py: int|
        x <= px < x + n && y <= py < y + n && nx <= px < nx + n && ny <= py < ny + n ==> #[trigger] a[(py - y) * n + (px
            - x)] == #[trigger] b[(py - ny) * n + (px - nx)] {
        assert forall|x0: int, y0: int|
            0 <= x0 < n && 0 <= y0 < n && 0 <= x0 + dx < n && 0 <= y0 + dy < n implies #[trigger] a[(y0 + dy) * n + (x0 + dx)]
                == #[trigger] b[y0 * n + x0] by {
            let px = x0 + nx;
            let py = y0 + ny;
            assert(a[(py - y) * n + (px - x)] == b[(py - ny) * n + (px - nx)]);
        }
    }
}

} // verus!
