use vstd::prelude::*;

verus! {

/// Marks a cell that is not in the heap.
pub const NO_POSITION: usize = usize::MAX;

/// Cell `a` comes before cell `b`: lower priority first, and the lower cell index on a tie.
pub open spec fn comes_before(priorities: Seq<u64>, a: usize, b: usize) -> bool {
    priorities[a as int] < priorities[b as int] || (priorities[a as int] == priorities[b as int] && a
        < b)
}

/// Position of the parent of position `i` in a binary heap.
pub open spec fn parent_of(i: int) -> int {
    (i - 1) / 2
}

/// Heap position `i` lies in the subtree rooted at position `root`.
pub open spec fn in_subtree(i: int, root: int) -> bool
    decreases i,
{
    if i <= root || i <= 0 {
        i == root
    } else {
        in_subtree(parent_of(i), root)
    }
}

/// A sequence of distinct values below `c` has at most `c` entries.
pub proof fn lemma_distinct_bound(s: Seq<usize>, c: int)
    requires
        c >= 0,
        forall|i: int| 0 <= i < s.len() ==> #[trigger] s[i] < c,
        forall|i: int, j: int| 0 <= i < j < s.len() ==> s[i] != s[j],
    ensures
        s.len() <= c,
    decreases c,
{
    if c == 0 {
        if s.len() > 0 {
            assert(s[0] < c);
        }
    } else if exists|k: int| 0 <= k < s.len() && s[k] == c - 1 {
        let k = choose|k: int| 0 <= k < s.len() && s[k] == c - 1;
        let t = s.remove(k);
        assert(t.len() == s.len() - 1);
        assert forall|i: int| 0 <= i < t.len() implies #[trigger] t[i] < c - 1 by {
            if i < k {
                assert(t[i] == s[i] && i != k);
            } else {
                assert(t[i] == s[i + 1] && i + 1 != k);
            }
        }
        assert forall|i: int, j: int| 0 <= i < j < t.len() implies t[i] != t[j] by {
            let i2 = if i < k { i } else { i + 1 };
            let j2 = if j < k { j } else { j + 1 };
            assert(t[i] == s[i2] && t[j] == s[j2] && i2 < j2);
        }
        lemma_distinct_bound(t, c - 1);
        assert(s.len() <= c);
    } else {
        assert forall|i: int| 0 <= i < s.len() implies #[trigger] s[i] < c - 1 by {
            assert(s[i] != c - 1);
        }
        lemma_distinct_bound(s, c - 1);
        assert(s.len() <= c);
    }
}

/// A binary min-heap of cells, ordered by a priority per cell (then by cell index), that knows
/// where each cell stands so that a cell's priority can change in place.
pub struct EntropyHeap {
    heap: Vec<usize>,
    positions: Vec<usize>,
    priorities: Vec<u64>,
}

impl EntropyHeap {
    /// For each cell, its priority if it is in the heap.
    pub closed spec fn entries(&self) -> Seq<Option<u64>> {
        Seq::new(
            self.positions@.len(),
            |c: int|
                if self.positions@[c] == NO_POSITION {
                    None
                } else {
                    Some(self.priorities@[c])
                },
        )
    }

    /// The heap array and the positions agree.
    closed spec fn index_ok(&self) -> bool {
        let n = self.heap@.len();
        let c = self.positions@.len();
        &&& self.priorities@.len() == c
        &&& n <= c
        &&& c <= usize::MAX
        &&& forall|i: int|
            0 <= i < n ==> #[trigger] self.heap@[i] < c && self.positions@[self.heap@[i] as int] == i
        &&& forall|cell: int|
            0 <= cell < c && #[trigger] self.positions@[cell] != NO_POSITION ==> self.positions@[cell] < n
                && self.heap@[self.positions@[cell] as int] == cell
    }

    /// The entry at position `i` does not come before its parent's.
    closed spec fn ordered_at(&self, i: int) -> bool {
        !comes_before(self.priorities@, self.heap@[i], self.heap@[parent_of(i)])
    }

    /// Every entry but the root is not before its parent.
    closed spec fn ordered(&self) -> bool {
        forall|i: int| 0 < i < self.heap@.len() ==> #[trigger] self.ordered_at(i)
    }

    /// The heap is well formed.
    pub closed spec fn wf(&self) -> bool {
        self.index_ok() && self.ordered()
    }

    /// Heap order holds except between position `pos` and its parent, and the children of `pos` do
    /// not come before the parent of `pos`.
    closed spec fn ordered_except_up(&self, pos: int) -> bool {
        &&& forall|i: int| 0 < i < self.heap@.len() && i != pos ==> #[trigger] self.ordered_at(i)
        &&& pos > 0 ==> forall|i: int|
            0 < i < self.heap@.len() && parent_of(i) == pos ==> !comes_before(
                self.priorities@,
                #[trigger] self.heap@[i],
                self.heap@[parent_of(pos)],
            )
    }

    /// Heap order holds except between position `pos` and its children, and the children of `pos`
    /// do not come before the parent of `pos`.
    closed spec fn ordered_except_down(&self, pos: int) -> bool {
        &&& forall|i: int|
            0 < i < self.heap@.len() && parent_of(i) != pos ==> #[trigger] self.ordered_at(i)
        &&& pos > 0 ==> forall|i: int|
            0 < i < self.heap@.len() && parent_of(i) == pos ==> !comes_before(
                self.priorities@,
                #[trigger] self.heap@[i],
                self.heap@[parent_of(pos)],
            )
    }

    /// In a well-formed heap, no entry comes before the root.
    proof fn lemma_root_first(&self, i: int)
        requires
            self.wf(),
            0 <= i < self.heap@.len(),
        ensures
            !comes_before(self.priorities@, self.heap@[i], self.heap@[0]),
        decreases i,
    {
        if i > 0 {
            assert(self.ordered_at(i));
            self.lemma_root_first(parent_of(i));
        }
    }

    proof fn lemma_entry(&self, c: int)
        requires
            0 <= c < self.positions@.len(),
        ensures
            self.entries().len() == self.positions@.len(),
            self.entries()[c] == if self.positions@[c] == NO_POSITION {
                None
            } else {
                Some(self.priorities@[c])
            },
    {
    }

    /// Swaps the entries at two positions and records their new positions.
    fn swap_positions(&mut self, left: usize, right: usize)
        requires
            old(self).index_ok(),
            left < old(self).heap@.len(),
            right < old(self).heap@.len(),
        ensures
            final(self).index_ok(),
            final(self).heap@ == old(self).heap@.update(left as int, old(self).heap@[right as int]).update(
                right as int,
                old(self).heap@[left as int],
            ),
            final(self).priorities == old(self).priorities,
            final(self).entries() == old(self).entries(),
    {
        let left_cell = self.heap[left];
        let right_cell = self.heap[right];
        self.heap.set(left, right_cell);
        self.heap.set(right, left_cell);
        self.positions.set(right_cell, left);
        self.positions.set(left_cell, right);
        proof {
            assert forall|cell: int|
                0 <= cell < self.positions@.len() && #[trigger] self.positions@[cell] != NO_POSITION implies self.positions@[cell]
                < self.heap@.len() && self.heap@[self.positions@[cell] as int] == cell by {
                if cell != left_cell && cell != right_cell {
                    assert(old(self).positions@[cell] != NO_POSITION);
                    let p = old(self).positions@[cell] as int;
                    assert(p != left && p != right);
                }
            }
            assert(self.entries() =~= old(self).entries());
        }
    }

    /// Whether the entry at `left_position` comes before the one at `right_position`.
    fn is_less(&self, left_position: usize, right_position: usize) -> (r: bool)
        requires
            self.index_ok(),
            left_position < self.heap@.len(),
            right_position < self.heap@.len(),
        ensures
            r == comes_before(
                self.priorities@,
                self.heap@[left_position as int],
                self.heap@[right_position as int],
            ),
    {
        let left_cell = self.heap[left_position];
        let right_cell = self.heap[right_position];
        let left_priority = self.priorities[left_cell];
        let right_priority = self.priorities[right_cell];
        if left_priority < right_priority {
            true
        } else if left_priority > right_priority {
            false
        } else {
            left_cell < right_cell
        }
    }

    /// Moves the entry at `position` up until it is not before its parent.
    fn sift_up(&mut self, position: usize)
        requires
            old(self).index_ok(),
            position < old(self).heap@.len(),
            old(self).ordered_except_up(position as int),
        ensures
            final(self).wf(),
            final(self).entries() == old(self).entries(),
            final(self).heap@.len() == old(self).heap@.len(),
            final(self).priorities == old(self).priorities,
    {
        let mut position = position;
        while position > 0
            invariant
                self.index_ok(),
                position < self.heap@.len(),
                self.ordered_except_up(position as int),
                self.entries() == old(self).entries(),
                self.heap@.len() == old(self).heap@.len(),
                self.priorities == old(self).priorities,
            decreases position,
        {
            let parent = (position - 1) / 2;
            if !self.is_less(position, parent) {
                proof {
                    assert(self.ordered_at(position as int));
                }
                return;
            }
            let ghost before = *self;
            self.swap_positions(position, parent);
            proof {
                let pr = self.priorities@;
                let h = self.heap@;
                let bh = before.heap@;
                assert forall|i: int| 0 < i < h.len() && i != parent implies #[trigger] self.ordered_at(i) by {
                    if i == position {
                    } else if parent_of(i) == position {
                        assert(!comes_before(pr, bh[i], bh[parent as int]));
                    } else if parent_of(i) == parent {
                        assert(before.ordered_at(i));
                    } else if i != position && i != parent {
                        assert(before.ordered_at(i));
                        if parent > 0 && i == parent_of(parent as int) {
                        }
                    }
                }
                if parent > 0 {
                    assert(before.ordered_at(parent as int));
                    assert forall|i: int|
                        0 < i < h.len() && parent_of(i) == parent implies !comes_before(
                            pr,
                            #[trigger] h[i],
                            h[parent_of(parent as int)],
                        ) by {
                        if i != position {
                            assert(before.ordered_at(i));
                        }
                    }
                }
            }
            position = parent;
        }
    }

    /// Moves the entry at `position` down until no child comes before it.
    fn sift_down(&mut self, start: usize)
        requires
            old(self).index_ok(),
            start < old(self).heap@.len(),
            old(self).ordered_except_down(start as int),
        ensures
            final(self).wf(),
            final(self).entries() == old(self).entries(),
            final(self).heap@.len() == old(self).heap@.len(),
            final(self).priorities == old(self).priorities,
            forall|i: int|
                0 <= i < old(self).heap@.len() && !in_subtree(i, start as int) ==> #[trigger] final(self).heap@[i]
                    == old(self).heap@[i],
    {
        let ghost root = start as int;
        let mut position = start;
        let len = self.heap.len();
        loop
            invariant
                self.index_ok(),
                len == self.heap@.len(),
                position < len,
                self.ordered_except_down(position as int),
                self.entries() == old(self).entries(),
                self.heap@.len() == old(self).heap@.len(),
                self.priorities == old(self).priorities,
                in_subtree(position as int, root),
                root == start as int,
                forall|i: int|
                    0 <= i < old(self).heap@.len() && !in_subtree(i, root) ==> #[trigger] self.heap@[i] == old(self).heap@[i],
            decreases len - position,
        {
            if position >= (len - 1) / 2 + 1 || position * 2 + 1 >= len {
                proof {
                    assert forall|i: int| 0 < i < self.heap@.len() implies #[trigger] self.ordered_at(i) by {
                        if parent_of(i) == position {
                            assert(i >= 2 * position + 1);
                        }
                    }
                }
                return;
            }
            let left = position * 2 + 1;
            let right = left + 1;
            let mut smallest = left;
            if right < len && self.is_less(right, left) {
                smallest = right;
            }
            if !self.is_less(smallest, position) {
                proof {
                    assert forall|i: int| 0 < i < self.heap@.len() implies #[trigger] self.ordered_at(i) by {
                        if parent_of(i) == position {
                            assert(i == left || i == right);
                        }
                    }
                }
                return;
            }
            let ghost before = *self;
            self.swap_positions(position, smallest);
            proof {
                let pr = self.priorities@;
                let h = self.heap@;
                let bh = before.heap@;
                assert(parent_of(smallest as int) == position);
                assert forall|i: int| 0 < i < h.len() && parent_of(i) != smallest implies #[trigger] self.ordered_at(i) by {
                    if i == smallest {
                    } else if parent_of(i) == position {
                        assert(i == left || i == right);
                    } else if i == position {
                        if position > 0 {
                            assert(!comes_before(pr, bh[smallest as int], bh[parent_of(position as int)]));
                        }
                    } else {
                        assert(before.ordered_at(i));
                    }
                }
                assert forall|i: int|
                    0 < i < h.len() && parent_of(i) == smallest implies !comes_before(
                        pr,
                        #[trigger] h[i],
                        h[parent_of(smallest as int)],
                    ) by {
                    assert(before.ordered_at(i));
                }
            }
            proof {
                assert(in_subtree(smallest as int, root)) by {
                    assert(parent_of(smallest as int) == position);
                }
            }
            position = smallest;
        }
    }

    /// A heap over `cell_count` cells holding every cell with its priority from `priorities` when
    /// there is more than one pattern, and no cell otherwise.
    pub fn new(cell_count: usize, pattern_count: usize, priorities: Vec<u64>) -> (r: Self)
        requires
            priorities@.len() == cell_count,
        ensures
            r.wf(),
            r.entries() == Seq::new(
                cell_count as nat,
                |c: int| if pattern_count > 1 { Some(priorities@[c]) } else { None },
            ),
    {
        let mut result = Self {
            heap: Vec::with_capacity(cell_count),
            positions: vec![NO_POSITION; cell_count],
            priorities,
        };
        proof {
            assert(result.entries() =~= Seq::new(
                cell_count as nat,
                |c: int| if c < 0 { Some(priorities@[c]) } else { None },
            ));
        }
        if pattern_count > 1 {
            let mut cell_index: usize = 0;
            while cell_index < cell_count
                invariant
                    cell_index <= cell_count,
                    result.wf(),
                    result.positions@.len() == cell_count,
                    result.priorities@ == priorities@,
                    result.heap@.len() == cell_index,
                    result.entries() == Seq::new(
                        cell_count as nat,
                        |c: int| if c < cell_index { Some(priorities@[c]) } else { None },
                    ),
                decreases cell_count - cell_index,
            {
                let position = result.heap.len();
                let ghost before = result;
                proof {
                    before.lemma_entry(cell_index as int);
                }
                result.heap.push(cell_index);
                result.positions.set(cell_index, position);
                proof {
                    assert forall|i: int| 0 <= i < position implies before.heap@[i] != cell_index by {
                        assert(before.positions@[before.heap@[i] as int] == i);
                    }
                    assert forall|i: int| 0 <= i < result.heap@.len() implies #[trigger] result.heap@[i] < result.positions@.len()
                        && result.positions@[result.heap@[i] as int] == i by {
                        if i < position {
                            assert(result.heap@[i] == before.heap@[i]);
                        }
                    }
                    assert forall|cell: int|
                        0 <= cell < cell_count && #[trigger] result.positions@[cell] != NO_POSITION implies result.positions@[cell]
                        < result.heap@.len() && result.heap@[result.positions@[cell] as int] == cell by {
                        if cell != cell_index {
                            assert(before.positions@[cell] != NO_POSITION);
                        }
                    }
                    assert forall|i: int| 0 < i < result.heap@.len() && i != position implies #[trigger] result.ordered_at(i) by {
                        assert(before.ordered_at(i));
                    }
                    assert forall|c: int| 0 <= c < cell_count implies #[trigger] result.entries()[c] == (if c < cell_index + 1 {
                        Some(priorities@[c])
                    } else {
                        None
                    }) by {
                        result.lemma_entry(c);
                        before.lemma_entry(c);
                    }
                    assert(result.entries() =~= Seq::new(
                        cell_count as nat,
                        |c: int| if c < cell_index + 1 { Some(priorities@[c]) } else { None },
                    ));
                }
                result.sift_up(position);
                cell_index = cell_index + 1;
            }
        }
        proof {
            assert(result.entries() =~= Seq::new(
                cell_count as nat,
                |c: int| if pattern_count > 1 { Some(priorities@[c]) } else { None },
            ));
        }
        result
    }

    /// Sets the priority of cell `cell_index` and puts it in the heap, or takes it out when it has
    /// at most one possible pattern left.
    pub fn update(&mut self, cell_index: usize, priority: u64, possible_count: usize)
        requires
            old(self).wf(),
            cell_index < old(self).entries().len(),
        ensures
            final(self).wf(),
            final(self).entries() == old(self).entries().update(
                cell_index as int,
                if possible_count > 1 { Some(priority) } else { None },
            ),
    {
        proof {
            self.lemma_entry(cell_index as int);
        }
        if possible_count <= 1 {
            self.remove(cell_index);
            return;
        }
        let position = self.positions[cell_index];
        if position == NO_POSITION {
            let ghost before = *self;
            self.priorities.set(cell_index, priority);
            let new_position = self.heap.len();
            self.heap.push(cell_index);
            self.positions.set(cell_index, new_position);
            proof {
                assert forall|i: int| 0 <= i < new_position implies before.heap@[i] != cell_index by {
                    assert(before.positions@[before.heap@[i] as int] == i);
                }
                let with_new = before.heap@.push(cell_index);
                assert forall|i: int| 0 <= i < with_new.len() implies #[trigger] with_new[i] < before.positions@.len() by {
                    if i < new_position {
                        assert(before.heap@[i] < before.positions@.len());
                    }
                }
                assert forall|i: int, j: int| 0 <= i < j < with_new.len() implies with_new[i] != with_new[j] by {
                    if j < new_position {
                        assert(before.positions@[before.heap@[i] as int] == i);
                        assert(before.positions@[before.heap@[j] as int] == j);
                    }
                }
                lemma_distinct_bound(with_new, before.positions@.len() as int);
                assert forall|i: int| 0 <= i < self.heap@.len() implies #[trigger] self.heap@[i] < self.positions@.len()
                    && self.positions@[self.heap@[i] as int] == i by {
                    if i < new_position {
                        assert(self.heap@[i] == before.heap@[i]);
                    }
                }
                assert forall|cell: int|
                    0 <= cell < self.positions@.len() && #[trigger] self.positions@[cell] != NO_POSITION implies self.positions@[cell]
                    < self.heap@.len() && self.heap@[self.positions@[cell] as int] == cell by {
                    if cell != cell_index {
                        assert(before.positions@[cell] != NO_POSITION);
                    }
                }
                assert forall|i: int| 0 < i < self.heap@.len() && i != new_position implies #[trigger] self.ordered_at(i) by {
                    assert(before.ordered_at(i));
                    assert(self.heap@[i] == before.heap@[i]);
                    assert(self.heap@[parent_of(i)] == before.heap@[parent_of(i)]);
                }
            }
            self.sift_up(new_position);
            proof {
                assert(self.entries() =~= old(self).entries().update(cell_index as int, Some(priority)));
            }
            return;
        }
        let old_priority = self.priorities[cell_index];
        self.priorities.set(cell_index, priority);
        proof {
            let pr = self.priorities@;
            let opr = old(self).priorities@;
            let h = self.heap@;
            assert(h[position as int] == cell_index);
            assert forall|i: int| 0 < i < h.len() && i != position && parent_of(i) != position implies #[trigger] self.ordered_at(i) by {
                assert(old(self).ordered_at(i));
            }
            if priority < old_priority {
                assert forall|i: int| 0 < i < h.len() && i != position implies #[trigger] self.ordered_at(i) by {
                    assert(old(self).ordered_at(i));
                }
                if position > 0 {
                    assert(old(self).ordered_at(position as int));
                    assert forall|i: int| 0 < i < h.len() && parent_of(i) == position implies !comes_before(
                        pr,
                        #[trigger] h[i],
                        h[parent_of(position as int)],
                    ) by {
                        assert(old(self).ordered_at(i));
                    }
                }
            } else if priority > old_priority {
                assert forall|i: int| 0 < i < h.len() && parent_of(i) != position implies #[trigger] self.ordered_at(i) by {
                    assert(old(self).ordered_at(i));
                }
                if position > 0 {
                    assert forall|i: int| 0 < i < h.len() && parent_of(i) == position implies !comes_before(
                        pr,
                        #[trigger] h[i],
                        h[parent_of(position as int)],
                    ) by {
                        assert(old(self).ordered_at(i));
                        assert(old(self).ordered_at(position as int));
                    }
                }
            } else {
                assert(pr =~= opr);
                assert forall|i: int| 0 < i < h.len() implies #[trigger] self.ordered_at(i) by {
                    assert(old(self).ordered_at(i));
                }
            }
            assert(self.entries() =~= old(self).entries().update(cell_index as int, Some(priority)));
        }
        if priority < old_priority {
            self.sift_up(position);
        } else if priority > old_priority {
            self.sift_down(position);
        }
    }

    /// Takes out and returns the cell with the lowest priority (the lowest index on a tie);
    /// `None` when the heap is empty.
    pub fn pop_min(&mut self) -> (r: Option<usize>)
        requires
            old(self).wf(),
        ensures
            final(self).wf(),
            r is None <==> forall|c: int| 0 <= c < old(self).entries().len() ==> #[trigger] old(self).entries()[c] is None,
            r is None ==> final(self).entries() == old(self).entries(),
            r matches Some(cell) ==> comes_first(old(self).entries(), cell as int) && final(self).entries()
                == old(self).entries().update(cell as int, None),
    {
        if self.heap.len() == 0 {
            proof {
                assert forall|c: int| 0 <= c < old(self).entries().len() implies #[trigger] old(self).entries()[c] is None by {
                    self.lemma_entry(c);
                }
            }
            return None;
        }
        let cell_index = self.heap[0];
        proof {
            self.lemma_entry(cell_index as int);
            assert forall|c: int|
                0 <= c < old(self).entries().len() && c != cell_index && #[trigger] old(self).entries()[c] is Some implies (
                old(self).entries()[cell_index as int]->0 < old(self).entries()[c]->0 || (old(self).entries()[cell_index as int]->0
                    == old(self).entries()[c]->0 && cell_index < c)) by {
                self.lemma_entry(c);
                let p = self.positions@[c] as int;
                self.lemma_root_first(p);
            }
        }
        self.remove_at(0);
        Some(cell_index)
    }

    /// Takes cell `cell_index` out of the heap, if it is in.
    fn remove(&mut self, cell_index: usize)
        requires
            old(self).wf(),
            cell_index < old(self).entries().len(),
        ensures
            final(self).wf(),
            final(self).entries() == old(self).entries().update(cell_index as int, None),
    {
        proof {
            self.lemma_entry(cell_index as int);
        }
        let position = self.positions[cell_index];
        if position == NO_POSITION {
            proof {
                assert(self.entries() =~= old(self).entries().update(cell_index as int, None));
            }
            return;
        }
        self.remove_at(position);
    }

    /// Takes the entry at `position` out of the heap.
    fn remove_at(&mut self, position: usize)
        requires
            old(self).wf(),
            position < old(self).heap@.len(),
        ensures
            final(self).wf(),
            final(self).entries() == old(self).entries().update(old(self).heap@[position as int] as int, None),
    {
        let ghost removed_cell = self.heap@[position as int];
        let ghost old_heap = self.heap@;
        let removed = self.heap.swap_remove(position);
        self.positions.set(removed, NO_POSITION);
        let len = self.heap.len();
        if position >= len {
            proof {
                assert(self.heap@ =~= old_heap.drop_last());
                assert forall|i: int| 0 < i < self.heap@.len() implies #[trigger] self.ordered_at(i) by {
                    assert(old(self).ordered_at(i));
                }
                assert forall|cell: int|
                    0 <= cell < self.positions@.len() && #[trigger] self.positions@[cell] != NO_POSITION implies self.positions@[cell]
                    < self.heap@.len() && self.heap@[self.positions@[cell] as int] == cell by {
                    assert(old(self).positions@[cell] != NO_POSITION);
                }
                assert(self.entries() =~= old(self).entries().update(removed_cell as int, None));
            }
            return;
        }
        let moved_cell = self.heap[position];
        self.positions.set(moved_cell, position);
        proof {
            let h = self.heap@;
            let last = old_heap.len() - 1;
            assert(h =~= old_heap.update(position as int, old_heap[last]).drop_last());
            assert(moved_cell == old_heap[last]);
            assert forall|cell: int|
                0 <= cell < self.positions@.len() && #[trigger] self.positions@[cell] != NO_POSITION implies self.positions@[cell]
                < self.heap@.len() && self.heap@[self.positions@[cell] as int] == cell by {
                if cell != moved_cell {
                    assert(old(self).positions@[cell] != NO_POSITION);
                    assert(old(self).positions@[cell] != last);
                }
            }
            assert forall|i: int| 0 <= i < h.len() implies #[trigger] h[i] < self.positions@.len() && self.positions@[h[i] as int] == i by {
                if i != position {
                    assert(h[i] == old_heap[i]);
                }
            }
            assert(self.entries() =~= old(self).entries().update(removed_cell as int, None));
        }
        if position > 0 {
            let parent = (position - 1) / 2;
            if self.is_less(position, parent) {
                proof {
                    let pr = self.priorities@;
                    let h = self.heap@;
                    assert(old(self).ordered_at(position as int));
                    assert forall|i: int| 0 < i < h.len() && i != position implies #[trigger] self.ordered_at(i) by {
                        assert(old(self).ordered_at(i));
                        if parent_of(i) == position {
                            assert(!comes_before(pr, old_heap[position as int], old_heap[parent as int]));
                        }
                    }
                    assert forall|i: int| 0 < i < h.len() && parent_of(i) == position implies !comes_before(
                        pr,
                        #[trigger] h[i],
                        h[parent_of(position as int)],
                    ) by {
                        assert(old(self).ordered_at(i));
                        assert(old(self).ordered_at(position as int));
                    }
                }
                self.sift_up(position);
                return;
            }
        }
        proof {
            let pr = self.priorities@;
            let h = self.heap@;
            assert forall|i: int| 0 < i < h.len() && parent_of(i) != position implies #[trigger] self.ordered_at(i) by {
                assert(old(self).ordered_at(i));
            }
            if position > 0 {
                assert forall|i: int| 0 < i < h.len() && parent_of(i) == position implies !comes_before(
                    pr,
                    #[trigger] h[i],
                    h[parent_of(position as int)],
                ) by {
                    assert(old(self).ordered_at(i));
                    assert(old(self).ordered_at(position as int));
                }
            }
        }
        self.sift_down(position);
    }
}

/// Cell `cell` comes first among the cells of `entries` that have a priority: lowest priority,
/// then lowest index.
pub open spec fn comes_first(entries: Seq<Option<u64>>, cell: int) -> bool {
    &&& 0 <= cell < entries.len()
    &&& entries[cell] is Some
    &&& forall|c: int|
        0 <= c < entries.len() && c != cell && #[trigger] entries[c] is Some ==> (entries[cell]->0 < entries[c]->0 || (
        entries[cell]->0 == entries[c]->0 && cell < c))
}

/// Cells leave the heap in order: the cell that comes first after the first one was taken out has a
/// priority at least as high, and comes after it when the priorities are equal.
pub proof fn lemma_pops_in_order(entries: Seq<Option<u64>>, first: int, second: int)
    requires
        comes_first(entries, first),
        comes_first(entries.update(first, None), second),
    ensures
        second != first,
        entries[first]->0 <= entries[second]->0,
        entries[first]->0 == entries[second]->0 ==> first < second,
{
    assert(entries.update(first, None)[second] == entries[second]);
}

} // verus!
