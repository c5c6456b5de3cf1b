use vstd::prelude::*;

use rand::rngs::StdRng;

use crate::random::random_below;

verus! {

/// Marks a cell that is in no bucket.
pub const NO_BUCKET: usize = usize::MAX;

/// The undecided cells, grouped by their number of possible patterns, to pick a cell with the
/// fewest.
pub struct EntropyBuckets {
    buckets: Vec<Vec<usize>>,
    cell_bucket: Vec<usize>,
    cell_position: Vec<usize>,
    minimum: usize,
}

impl EntropyBuckets {
    /// For each cell, the bucket (number of possible patterns) it is in, if any.
    pub closed spec fn entries(&self) -> Seq<Option<nat>> {
        Seq::new(
            self.cell_bucket@.len(),
            |c: int|
                if self.cell_bucket@[c] == NO_BUCKET {
                    None
                } else {
                    Some(self.cell_bucket@[c] as nat)
                },
        )
    }

    /// Number of buckets: one per possible count, from 0 to the number of patterns.
    pub closed spec fn bucket_count(&self) -> nat {
        self.buckets@.len()
    }

    /// The buckets and the per-cell bucket and position agree, every bucket in use is above 1, and
    /// every bucket below the remembered minimum is empty.
    pub closed spec fn wf(&self) -> bool {
        let b = self.buckets@.len();
        let c = self.cell_bucket@.len();
        &&& self.cell_position@.len() == c
        &&& b <= usize::MAX
        &&& self.minimum <= b
        &&& forall|cell: int|
            0 <= cell < c && #[trigger] self.cell_bucket@[cell] != NO_BUCKET ==> {
                &&& 2 <= self.cell_bucket@[cell] < b
                &&& self.cell_position@[cell] < self.buckets@[self.cell_bucket@[cell] as int]@.len()
                &&& self.buckets@[self.cell_bucket@[cell] as int]@[self.cell_position@[cell] as int]
                    == cell
            }
        &&& forall|k: int, p: int|
            0 <= k < b && 0 <= p < self.buckets@[k]@.len() ==> {
                &&& #[trigger] self.buckets@[k]@[p] < c
                &&& self.cell_bucket@[self.buckets@[k]@[p] as int] == k
                &&& self.cell_position@[self.buckets@[k]@[p] as int] == p
            }
        &&& forall|k: int| 0 <= k < self.minimum && k < b ==> (#[trigger] self.buckets@[k])@.len() == 0
    }

    /// Buckets for counts up to `pattern_count`, holding all `cell_count` cells in the top bucket
    /// when there is more than one pattern, and none otherwise.
    pub fn new(pattern_count: usize, cell_count: usize) -> (r: Self)
        requires
            pattern_count < usize::MAX,
        ensures
            r.wf(),
            r.bucket_count() == pattern_count + 1,
            r.entries() == Seq::new(
                cell_count as nat,
                |c: int| if pattern_count > 1 { Some(pattern_count as nat) } else { None },
            ),
    {
        let mut buckets: Vec<Vec<usize>> = Vec::new();
        let mut k: usize = 0;
        while k <= pattern_count
            invariant
                k <= pattern_count + 1,
                pattern_count < usize::MAX,
                buckets@.len() == k,
                forall|i: int| 0 <= i < k ==> (#[trigger] buckets@[i])@.len() == 0,
            decreases pattern_count + 1 - k,
        {
            buckets.push(Vec::new());
            k = k + 1;
        }
        let mut cell_bucket = vec![NO_BUCKET; cell_count];
        let mut cell_position = vec![0usize; cell_count];
        let minimum = if pattern_count > 1 {
            let mut cell_index: usize = 0;
            while cell_index < cell_count
                invariant
                    cell_index <= cell_count,
                    1 < pattern_count < usize::MAX,
                    buckets@.len() == pattern_count + 1,
                    cell_bucket@.len() == cell_count,
                    cell_position@.len() == cell_count,
                    forall|i: int| 0 <= i < buckets@.len() && i != pattern_count ==> (#[trigger] buckets@[i])@.len() == 0,
                    buckets@[pattern_count as int]@.len() == cell_index,
                    forall|p: int| 0 <= p < cell_index ==> #[trigger] buckets@[pattern_count as int]@[p] == p,
                    forall|c: int| 0 <= c < cell_index ==> #[trigger] cell_bucket@[c] == pattern_count && cell_position@[c] == c,
                    forall|c: int| cell_index <= c < cell_count ==> #[trigger] cell_bucket@[c] == NO_BUCKET,
                decreases cell_count - cell_index,
            {
                let position = buckets[pattern_count].len();
                buckets[pattern_count].push(cell_index);
                cell_bucket.set(cell_index, pattern_count);
                cell_position.set(cell_index, position);
                cell_index = cell_index + 1;
            }
            pattern_count
        } else {
            buckets.len()
        };
        let r = Self { buckets, cell_bucket, cell_position, minimum };
        proof {
            assert(r.entries() =~= Seq::new(
                cell_count as nat,
                |c: int| if pattern_count > 1 { Some(pattern_count as nat) } else { None },
            ));
        }
        r
    }

    /// Moves cell `cell_index` to the bucket for `possible_count` patterns, or out of the buckets
    /// when it has at most one pattern left.
    pub fn update(&mut self, cell_index: usize, possible_count: usize)
        requires
            old(self).wf(),
            cell_index < old(self).entries().len(),
            possible_count < old(self).bucket_count(),
        ensures
            final(self).wf(),
            final(self).bucket_count() == old(self).bucket_count(),
            final(self).entries() == old(self).entries().update(
                cell_index as int,
                if possible_count > 1 { Some(possible_count as nat) } else { None },
            ),
    {
        self.remove_cell(cell_index);
        if possible_count <= 1 {
            return;
        }
        let ghost mid = *self;
        let position = self.buckets[possible_count].len();
        self.buckets[possible_count].push(cell_index);
        self.cell_bucket.set(cell_index, possible_count);
        self.cell_position.set(cell_index, position);
        if possible_count < self.minimum {
            self.minimum = possible_count;
        }
        proof {
            let b = self.buckets@.len() as int;
            assert(mid.entries()[cell_index as int] is None);
            assert(mid.cell_bucket@[cell_index as int] == NO_BUCKET);
            assert(self.buckets@[possible_count as int]@ == mid.buckets@[possible_count as int]@.push(cell_index));
            assert forall|k: int, p: int| 0 <= k < b && 0 <= p < self.buckets@[k]@.len() implies {
                &&& #[trigger] self.buckets@[k]@[p] < self.cell_bucket@.len()
                &&& self.cell_bucket@[self.buckets@[k]@[p] as int] == k
                &&& self.cell_position@[self.buckets@[k]@[p] as int] == p
            } by {
                if k == possible_count && p == position {
                } else {
                    if k != possible_count {
                        assert(self.buckets@[k] == mid.buckets@[k]);
                    } else {
                        let sb = mid.buckets@[possible_count as int]@;
                        assert(p < sb.len());
                        assert(sb.push(cell_index)[p] == sb[p]);
                    }
                    assert(self.buckets@[k]@[p] == mid.buckets@[k]@[p]);
                    assert(mid.buckets@[k]@[p] != cell_index);
                }
            }
            assert(self.entries() =~= mid.entries().update(cell_index as int, Some(possible_count as nat)));
            assert(mid.entries().update(cell_index as int, Some(possible_count as nat)) =~= old(self).entries().update(
                cell_index as int,
                Some(possible_count as nat),
            ));
        }
    }

    /// Takes a cell with the fewest possible patterns out of the buckets, chosen at random among
    /// those; `None` when no cell is left.
    pub fn pop_lowest(&mut self, rng: &mut StdRng) -> (r: Option<usize>)
        requires
            old(self).wf(),
        ensures
            final(self).wf(),
            final(self).bucket_count() == old(self).bucket_count(),
            r is None <==> forall|c: int| 0 <= c < old(self).entries().len() ==> #[trigger] old(self).entries()[c] is None,
            r matches Some(cell) ==> {
                &&& cell < old(self).entries().len()
                &&& old(self).entries()[cell as int] is Some
                &&& forall|c: int|
                    0 <= c < old(self).entries().len() && #[trigger] old(self).entries()[c] is Some ==> old(self).entries()[cell as int]->0
                        <= old(self).entries()[c]->0
                &&& final(self).entries() == old(self).entries().update(cell as int, None)
            },
            r is None ==> final(self).entries() == old(self).entries(),
    {
        self.advance_minimum();
        if self.minimum >= self.buckets.len() {
            proof {
                assert forall|c: int| 0 <= c < old(self).entries().len() implies #[trigger] old(self).entries()[c] is None by {
                    if self.cell_bucket@[c] != NO_BUCKET {
                        let k = self.cell_bucket@[c] as int;
                        assert(self.buckets@[k]@.len() == 0);
                    }
                }
            }
            return None;
        }
        let bucket_index = self.minimum;
        let len = self.buckets[bucket_index].len();
        let random_index = random_below(rng, len as u64) as usize;
        let cell_index = self.buckets[bucket_index][random_index];
        proof {
            assert(self.cell_bucket@[cell_index as int] == bucket_index);
            assert forall|c: int|
                0 <= c < old(self).entries().len() && #[trigger] old(self).entries()[c] is Some implies old(self).entries()[cell_index as int]->0
                    <= old(self).entries()[c]->0 by {
                let k = self.cell_bucket@[c] as int;
                assert(self.buckets@[k]@.len() > 0);
            }
        }
        self.remove_cell(cell_index);
        Some(cell_index)
    }

    /// Takes cell `cell_index` out of its bucket, if it is in one.
    fn remove_cell(&mut self, cell_index: usize)
        requires
            old(self).wf(),
            cell_index < old(self).entries().len(),
        ensures
            final(self).wf(),
            final(self).bucket_count() == old(self).bucket_count(),
            final(self).entries() == old(self).entries().update(cell_index as int, None),
            final(self).minimum == old(self).minimum,
            final(self).cell_bucket@.len() == old(self).cell_bucket@.len(),
            final(self).buckets@.len() == old(self).buckets@.len(),
    {
        let bucket_index = self.cell_bucket[cell_index];
        if bucket_index == NO_BUCKET {
            proof {
                assert(self.entries() =~= old(self).entries().update(cell_index as int, None));
            }
            return;
        }
        let position = self.cell_position[cell_index];
        let ghost old_bucket = self.buckets@[bucket_index as int]@;
        let removed_cell = self.buckets[bucket_index].swap_remove(position);
        let new_len = self.buckets[bucket_index].len();
        if position < new_len {
            let moved_cell = self.buckets[bucket_index][position];
            proof {
                assert(moved_cell == old_bucket[old_bucket.len() - 1]);
            }
            self.cell_position.set(moved_cell, position);
        }
        self.cell_bucket.set(cell_index, NO_BUCKET);
        proof {
            let b = self.buckets@.len() as int;
            let nb = self.buckets@[bucket_index as int]@;
            assert(nb =~= old_bucket.update(position as int, old_bucket.last()).drop_last());
            assert forall|k: int, p: int| 0 <= k < b && 0 <= p < self.buckets@[k]@.len() implies {
                &&& #[trigger] self.buckets@[k]@[p] < self.cell_bucket@.len()
                &&& self.cell_bucket@[self.buckets@[k]@[p] as int] == k
                &&& self.cell_position@[self.buckets@[k]@[p] as int] == p
            } by {
                if k == bucket_index {
                    if p == position {
                        assert(self.buckets@[k]@[p] == old_bucket[old_bucket.len() - 1]);
                        let last = old_bucket.len() - 1;
                        assert(old(self).cell_position@[old_bucket[last] as int] == last);
                    } else {
                        assert(self.buckets@[k]@[p] == old_bucket[p]);
                        assert(old(self).cell_position@[old_bucket[p] as int] == p);
                        assert(old_bucket[p] != cell_index);
                    }
                } else {
                    assert(self.buckets@[k]@[p] == old(self).buckets@[k]@[p]);
                    assert(old(self).cell_bucket@[old(self).buckets@[k]@[p] as int] == k);
                }
            }
            assert forall|c: int|
                0 <= c < self.cell_bucket@.len() && #[trigger] self.cell_bucket@[c] != NO_BUCKET implies {
                &&& 2 <= self.cell_bucket@[c] < b
                &&& self.cell_position@[c] < self.buckets@[self.cell_bucket@[c] as int]@.len()
                &&& self.buckets@[self.cell_bucket@[c] as int]@[self.cell_position@[c] as int] == c
            } by {
                assert(c != cell_index);
                assert(old(self).cell_bucket@[c] != NO_BUCKET);
                let k = old(self).cell_bucket@[c] as int;
                let p = old(self).cell_position@[c] as int;
                if k == bucket_index {
                    if p == old_bucket.len() - 1 {
                        assert(self.cell_position@[c] == position);
                    } else {
                        assert(p != position);
                    }
                }
            }
            assert(self.entries() =~= old(self).entries().update(cell_index as int, None));
        }
    }

    /// Moves the remembered minimum up to the first bucket that is not empty.
    fn advance_minimum(&mut self)
        requires
            old(self).wf(),
        ensures
            final(self).wf(),
            final(self).entries() == old(self).entries(),
            final(self).bucket_count() == old(self).bucket_count(),
            final(self).buckets == old(self).buckets,
            final(self).minimum < final(self).buckets@.len() ==> final(self).buckets@[final(self).minimum as int]@.len() > 0,
    {
        while self.minimum < self.buckets.len() && self.buckets[self.minimum].len() == 0
            invariant
                self.wf(),
                self.entries() == old(self).entries(),
                self.buckets == old(self).buckets,
                self.cell_bucket == old(self).cell_bucket,
                self.cell_position == old(self).cell_position,
            decreases self.buckets@.len() - self.minimum,
        {
            self.minimum = self.minimum + 1;
        }
    }
}

} // verus!
