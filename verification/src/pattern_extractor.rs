use vstd::prelude::*;

use std::collections::HashMap;

use crate::pattern::{Pattern, PatternId, window, copy_window, pixels_hash};
use crate::pixel_grid::{Pixel, PixelGrid};

verus! {

/// Number of places an `n` wide window can take along a side of length `len`.
pub open spec fn placements(len: int, n: int) -> int {
    if len < n {
        0
    } else {
        len - n + 1
    }
}

/// Every `n` by `n` window of `grid`, row by row of their top left corners.
pub open spec fn all_windows(grid: PixelGrid, n: int) -> Seq<Seq<Pixel>> {
    let cols = placements(grid.width as int, n);
    let rows = placements(grid.height as int, n);
    Seq::new((cols * rows) as nat, |k: int| window(grid, k % cols, k / cols, n))
}

/// The distinct entries of `ws`, in the order of their first occurrence.
pub open spec fn distinct_in_order(ws: Seq<Seq<Pixel>>) -> Seq<Seq<Pixel>>
    decreases ws.len(),
{
    if ws.len() == 0 {
        Seq::empty()
    } else {
        let d = distinct_in_order(ws.drop_last());
        if d.contains(ws.last()) {
            d
        } else {
            d.push(ws.last())
        }
    }
}

/// How many entries of `ws` equal `w`.
pub open spec fn occurrences(ws: Seq<Seq<Pixel>>, w: Seq<Pixel>) -> nat
    decreases ws.len(),
{
    if ws.len() == 0 {
        0
    } else {
        occurrences(ws.drop_last(), w) + (if ws.last() == w { 1nat } else { 0nat })
    }
}

proof fn lemma_occurrences_bound(ws: Seq<Seq<Pixel>>, w: Seq<Pixel>)
    ensures
        occurrences(ws, w) <= ws.len(),
    decreases ws.len(),
{
    if ws.len() > 0 {
        lemma_occurrences_bound(ws.drop_last(), w);
    }
}

/// Cuts a picture into all its square windows of one size.
pub struct PatternExtractor {
    pattern_size: u32,
}

impl PatternExtractor {
    /// The side length of the windows.
    pub closed spec fn size(&self) -> u32 {
        self.pattern_size
    }

    /// The extractor for windows of side `pattern_size`.
    pub closed spec fn new_spec(pattern_size: u32) -> Self {
        Self { pattern_size }
    }

    pub fn new(pattern_size: u32) -> (r: Self)
        ensures
            r.size() == pattern_size,
            r == Self::new_spec(pattern_size),
    {
        Self { pattern_size }
    }

    /// The limits under which cutting the picture into windows runs without overflow: where a
    /// window fits in the picture, its pixel count fits in `u32`, and the windows can all be held
    /// in memory.
    pub open spec fn can_cut(&self, image: PixelGrid) -> bool {
        &&& image.wf()
        &&& (image.width >= self.size() && image.height >= self.size()) ==> self.size() * self.size() <= u32::MAX
        &&& placements(image.width as int, self.size() as int) * placements(
            image.height as int,
            self.size() as int,
        ) <= usize::MAX
    }

    /// The limits of `can_cut`, and besides no window occurs more often than a `u32` frequency
    /// can count.
    pub open spec fn can_extract(&self, image: PixelGrid) -> bool {
        &&& self.can_cut(image)
        &&& forall|w: Seq<Pixel>| #[trigger] occurrences(all_windows(image, self.size() as int), w) <= u32::MAX
    }

    fn extract_pattern(&self, image: &PixelGrid, start_x: u32, start_y: u32, id: PatternId) -> (r:
        Option<Pattern>)
        requires
            image.wf(),
            start_x + self.size() <= u32::MAX,
            start_y + self.size() <= u32::MAX,
            self.size() * self.size() <= u32::MAX,
        ensures
            r is Some <==> (start_x + self.size() <= image.width && start_y + self.size()
                <= image.height),
            r matches Some(p) ==> p.wf() && p.id == id && p.size == self.size() && p.frequency == 1
                && p.pixels@ == window(*image, start_x as int, start_y as int, self.size() as int),
    {
        if start_x + self.pattern_size > image.width() || start_y + self.pattern_size
            > image.height() {
            return None;
        }
        let pixels = copy_window(image, start_x, start_y, self.pattern_size);
        Some(Pattern::new(id, self.pattern_size, pixels))
    }

    /// Every window of the picture, row by row, numbered from 0; empty when the picture is
    /// smaller than a window.
    pub fn extract_all_patterns(&self, image: &PixelGrid) -> (r: Vec<Pattern>)
        requires
            self.can_cut(*image),
        ensures
            r@.len() == all_windows(*image, self.size() as int).len(),
            forall|k: int|
                0 <= k < r@.len() ==> {
                    &&& (#[trigger] r@[k]).pixels@ == all_windows(*image, self.size() as int)[k]
                    &&& r@[k].wf()
                    &&& r@[k].pixels@.len() == self.size() * self.size()
                    &&& r@[k].id == k
                    &&& r@[k].size == self.size()
                    &&& r@[k].frequency == 1
                },
    {
        let ghost all = all_windows(*image, self.size() as int);
        if image.width() < self.pattern_size || image.height() < self.pattern_size {
            proof {
                assert(all.len() == 0) by (nonlinear_arith)
                    requires
                        all.len() == placements(image.width as int, self.size() as int) * placements(
                            image.height as int,
                            self.size() as int,
                        ),
                        placements(image.width as int, self.size() as int) == 0 || placements(
                            image.height as int,
                            self.size() as int,
                        ) == 0,
                ;
            }
            return Vec::new();
        }
        let mut patterns: Vec<Pattern> = Vec::new();
        let mut id_counter: PatternId = 0;
        let n = self.pattern_size;
        let max_x = image.width() - n;
        let max_y = image.height() - n;
        let ghost cols = max_x + 1;
        proof {
            assert(all.len() == cols * (max_y + 1));
            assert((max_y + 1) * cols == cols * (max_y + 1)) by (nonlinear_arith);
            assert(max_y + 1 <= (max_y + 1) * cols) by (nonlinear_arith)
                requires
                    cols >= 1,
                    max_y >= 0,
            ;
        }
        let mut y: u64 = 0;
        while y <= max_y as u64
            invariant
                self.can_cut(*image),
                n == self.size(),
                max_x == image.width - n,
                max_y == image.height - n,
                cols == max_x + 1,
                y <= max_y + 1,
                all == all_windows(*image, n as int),
                all.len() == cols * (max_y + 1),
                all.len() == (max_y + 1) * cols,
                all.len() <= usize::MAX,
                max_y + 1 <= u64::MAX,
                id_counter == y * cols,
                patterns@.len() == id_counter,
                forall|k: int|
                    0 <= k < patterns@.len() ==> {
                        &&& (#[trigger] patterns@[k]).pixels@ == all[k]
                        &&& patterns@[k].wf()
                        &&& patterns@[k].id == k
                        &&& patterns@[k].size == n
                        &&& patterns@[k].frequency == 1
                    },
            decreases max_y + 1 - y,
        {
            let mut x: u64 = 0;
            while x <= max_x as u64
                invariant
                    self.can_cut(*image),
                    n == self.size(),
                    max_x == image.width - n,
                    max_y == image.height - n,
                    cols == max_x + 1,
                    y <= max_y,
                    x <= max_x + 1,
                    all == all_windows(*image, n as int),
                    all.len() == cols * (max_y + 1),
                    all.len() == (max_y + 1) * cols,
                    all.len() <= usize::MAX,
                    max_y + 1 <= u64::MAX,
                    id_counter == y * cols + x,
                    patterns@.len() == id_counter,
                    forall|k: int|
                        0 <= k < patterns@.len() ==> {
                            &&& (#[trigger] patterns@[k]).pixels@ == all[k]
                            &&& patterns@[k].wf()
                            &&& patterns@[k].id == k
                            &&& patterns@[k].size == n
                            &&& patterns@[k].frequency == 1
                        },
                decreases max_x + 1 - x,
            {
                proof {
                    let k = y * cols + x;
                    assert(k < cols * (max_y + 1)) by (nonlinear_arith)
                        requires
                            x < cols,
                            y <= max_y,
                            k == y * cols + x,
                            0 <= x,
                    ;
                    assert(k % cols == x && k / cols == y) by (nonlinear_arith)
                        requires
                            x < cols,
                            0 <= x,
                            0 <= y,
                            k == y * cols + x,
                    ;
                }
                assert(id_counter < usize::MAX);
                let extracted = self.extract_pattern(image, x as u32, y as u32, id_counter);
                if let Some(pattern) = extracted {
                    patterns.push(pattern);
                    id_counter = id_counter + 1;
                }
                x = x + 1;
            }
            proof {
                assert(y * cols + cols == (y + 1) * cols) by (nonlinear_arith);
            }
            y = y + 1;
        }
        proof {
            assert(id_counter == (max_y + 1) * cols);
        }
        patterns
    }

    /// The distinct windows of the picture in the order of their first occurrence (row by row),
    /// numbered from 0, each with the number of times it occurs; empty when the picture is smaller
    /// than a window.
    pub fn extract_unique_patterns(&self, image: &PixelGrid) -> (r: Vec<Pattern>)
        requires
            self.can_extract(*image),
        ensures
            r@.len() == distinct_in_order(all_windows(*image, self.size() as int)).len(),
            forall|k: int|
                0 <= k < r@.len() ==> {
                    &&& (#[trigger] r@[k]).pixels@ == distinct_in_order(
                        all_windows(*image, self.size() as int),
                    )[k]
                    &&& r@[k].wf()
                    &&& r@[k].pixels@.len() == self.size() * self.size()
                    &&& r@[k].id == k
                    &&& r@[k].size == self.size()
                    &&& r@[k].frequency == occurrences(
                        all_windows(*image, self.size() as int),
                        r@[k].pixels@,
                    )
                },
    {
        let ghost all = all_windows(*image, self.size() as int);
        if image.width() < self.pattern_size || image.height() < self.pattern_size {
            proof {
                assert(all.len() == 0) by (nonlinear_arith)
                    requires
                        all.len() == placements(image.width as int, self.size() as int) * placements(
                            image.height as int,
                            self.size() as int,
                        ),
                        placements(image.width as int, self.size() as int) == 0 || placements(
                            image.height as int,
                            self.size() as int,
                        ) == 0,
                ;
            }
            return Vec::new();
        }
        let mut unique_patterns: Vec<Pattern> = Vec::new();
        let mut pattern_lookup: HashMap<u64, Vec<PatternId>> = HashMap::new();
        let n = self.pattern_size;
        let max_x = image.width() - n;
        let max_y = image.height() - n;
        let ghost cols = max_x + 1;
        proof {
            assert(all.len() == cols * (max_y + 1));
            assert((max_y + 1) * cols == cols * (max_y + 1)) by (nonlinear_arith);
            assert(max_y + 1 <= (max_y + 1) * cols) by (nonlinear_arith)
                requires
                    cols >= 1,
                    max_y >= 0,
            ;
        }
        let mut y: u64 = 0;
        while y <= max_y as u64
            invariant
                forall|key: u64, t: int|
                    pattern_lookup@.contains_key(key) && 0 <= t < pattern_lookup@[key]@.len() ==> #[trigger] pattern_lookup@[key]@[t]
                        < unique_patterns@.len() && pixels_hash(unique_patterns@[pattern_lookup@[key]@[t] as int].pixels@) == key,
                forall|k: int|
                    0 <= k < unique_patterns@.len() ==> pattern_lookup@.contains_key(pixels_hash((#[trigger] unique_patterns@[k]).pixels@))
                        && pattern_lookup@[pixels_hash(unique_patterns@[k].pixels@)]@.contains(k as usize),
                self.can_extract(*image),
                n == self.size(),
                max_x == image.width - n,
                max_y == image.height - n,
                cols == max_x + 1,
                y <= max_y + 1,
                all == all_windows(*image, n as int),
                all.len() == cols * (max_y + 1),
                all.len() == (max_y + 1) * cols,
                all.len() <= usize::MAX,
                max_y + 1 <= u64::MAX,
                unique_patterns@.len() == distinct_in_order(all.take(y * cols)).len(),
                forall|k: int|
                    0 <= k < unique_patterns@.len() ==> {
                        &&& (#[trigger] unique_patterns@[k]).pixels@ == distinct_in_order(
                            all.take(y * cols),
                        )[k]
                        &&& unique_patterns@[k].wf()
                        &&& unique_patterns@[k].id == k
                        &&& unique_patterns@[k].size == n
                        &&& unique_patterns@[k].frequency == occurrences(
                            all.take(y * cols),
                            unique_patterns@[k].pixels@,
                        )
                    },
            decreases max_y + 1 - y,
        {
            let mut x: u64 = 0;
            while x <= max_x as u64
                invariant
                    forall|key: u64, t: int|
                        pattern_lookup@.contains_key(key) && 0 <= t < pattern_lookup@[key]@.len() ==> #[trigger] pattern_lookup@[key]@[t]
                            < unique_patterns@.len() && pixels_hash(unique_patterns@[pattern_lookup@[key]@[t] as int].pixels@) == key,
                    forall|k: int|
                        0 <= k < unique_patterns@.len() ==> pattern_lookup@.contains_key(pixels_hash((#[trigger] unique_patterns@[k]).pixels@))
                            && pattern_lookup@[pixels_hash(unique_patterns@[k].pixels@)]@.contains(k as usize),
                    self.can_extract(*image),
                    n == self.size(),
                    max_x == image.width - n,
                    max_y == image.height - n,
                    cols == max_x + 1,
                    y <= max_y,
                    x <= max_x + 1,
                    all == all_windows(*image, n as int),
                    all.len() == cols * (max_y + 1),
                    all.len() == (max_y + 1) * cols,
                    all.len() <= usize::MAX,
                    max_y + 1 <= u64::MAX,
                    unique_patterns@.len() == distinct_in_order(all.take(y * cols + x)).len(),
                    forall|k: int|
                        0 <= k < unique_patterns@.len() ==> {
                            &&& (#[trigger] unique_patterns@[k]).pixels@ == distinct_in_order(
                                all.take(y * cols + x),
                            )[k]
                            &&& unique_patterns@[k].wf()
                            &&& unique_patterns@[k].id == k
                            &&& unique_patterns@[k].size == n
                            &&& unique_patterns@[k].frequency == occurrences(
                                all.take(y * cols + x),
                                unique_patterns@[k].pixels@,
                            )
                        },
                decreases max_x + 1 - x,
            {
                let ghost m = y * cols + x;
                proof {
                    assert(m < cols * (max_y + 1)) by (nonlinear_arith)
                        requires
                            x < cols,
                            y <= max_y,
                            m == y * cols + x,
                            0 <= x,
                    ;
                    assert(m % cols == x && m / cols == y) by (nonlinear_arith)
                        requires
                            x < cols,
                            0 <= x,
                            0 <= y,
                            m == y * cols + x,
                    ;
                }
                let candidate_id = unique_patterns.len();
                let extracted = self.extract_pattern(image, x as u32, y as u32, candidate_id);
                let pattern = match extracted {
                    Some(p) => p,
                    None => {
                        assert(false);
                        x = x + 1;
                        continue;
                    },
                };
                let ghost w = all[m];
                let ghost d = distinct_in_order(all.take(m));
                proof {
                    assert(all.take(m + 1).drop_last() =~= all.take(m));
                    assert(all.take(m + 1).last() == w);
                    lemma_occurrences_bound(all.take(m), w);
                    lemma_occurrences_prefix(all, w, m + 1);
                    assert(occurrences(all, w) <= u32::MAX);
                    assert(occurrences(all.take(m + 1), w) == occurrences(all.take(m), w) + 1);
                }
                let mut duplicate_id: Option<PatternId> = None;
                let count = unique_patterns.len();
                let hash = pattern.compute_hash();
                let ghost lookup_now = pattern_lookup@;
                match pattern_lookup.get(&hash) {
                    Some(ids) => {
                        let mut t: usize = 0;
                        while t < ids.len()
                            invariant
                                t <= ids@.len(),
                                ids@ == lookup_now[hash]@,
                                lookup_now.contains_key(hash),
                                count == unique_patterns@.len(),
                                pattern.pixels@ == w,
                                forall|k: int| 0 <= k < count ==> (#[trigger] unique_patterns@[k]).pixels@ == d[k],
                                count == d.len(),
                                forall|key: u64, i: int|
                                    lookup_now.contains_key(key) && 0 <= i < lookup_now[key]@.len() ==> #[trigger] lookup_now[key]@[i]
                                        < count && pixels_hash(unique_patterns@[lookup_now[key]@[i] as int].pixels@) == key,
                                duplicate_id is None ==> forall|i: int| 0 <= i < t ==> d[ids@[i] as int] != w,
                                duplicate_id matches Some(i) ==> i < count && d[i as int] == w,
                                duplicate_id is Some ==> t == ids@.len(),
                            decreases ids@.len() - t,
                        {
                            let id = ids[t];
                            proof {
                                assert(lookup_now[hash]@[t as int] == id);
                            }
                            if pattern.has_same_pixels(&unique_patterns[id]) {
                                duplicate_id = Some(id);
                                t = ids.len();
                            } else {
                                t = t + 1;
                            }
                        }
                    },
                    None => {},
                }
                proof {
                    if duplicate_id is None {
                        assert forall|k: int| 0 <= k < count implies d[k] != w by {
                            if d[k] == w {
                                assert(unique_patterns@[k].pixels@ == w);
                                assert(pixels_hash(w) == hash);
                                assert(pattern_lookup@.contains_key(hash));
                                assert(pattern_lookup@[hash]@.contains(k as usize));
                                let i = choose|i: int| 0 <= i < pattern_lookup@[hash]@.len() && pattern_lookup@[hash]@[i] == k as usize;
                                assert(d[pattern_lookup@[hash]@[i] as int] == w);
                            }
                        }
                    }
                }
                match duplicate_id {
                    Some(pattern_id) => {
                        proof {
                            assert(d.contains(w));
                            lemma_occurrences_bound(all.take(m), d[pattern_id as int]);
                            assert(unique_patterns@[pattern_id as int].frequency == occurrences(all.take(m), w));
                        }
                        let mut target = unique_patterns.remove(pattern_id);
                        target.increment_frequency();
                        unique_patterns.insert(pattern_id, target);
                        proof {
                            assert(distinct_in_order(all.take(m + 1)) == d);
                            assert forall|k: int| 0 <= k < unique_patterns@.len() implies (#[trigger] unique_patterns@[k]).frequency
                                == occurrences(all.take(m + 1), unique_patterns@[k].pixels@) by {
                                if k != pattern_id {
                                    assert(d[k] != w) by {
                                        lemma_distinct_in_order_unique(all.take(m));
                                    }
                                }
                            }
                        }
                    },
                    None => {
                        proof {
                            assert(!d.contains(w));
                            assert(distinct_in_order(all.take(m + 1)) == d.push(w));
                            lemma_occurrences_zero(all.take(m), w);
                        }
                        unique_patterns.push(pattern);
                        let ghost before_map = pattern_lookup@;
                        let mut ids = match pattern_lookup.remove(&hash) {
                            Some(v) => v,
                            None => Vec::new(),
                        };
                        let ghost old_ids = ids@;
                        ids.push(candidate_id);
                        pattern_lookup.insert(hash, ids);
                        proof {
                            assert(before_map.contains_key(hash) ==> old_ids == before_map[hash]@);
                            assert(!before_map.contains_key(hash) ==> old_ids == Seq::<usize>::empty());
                            assert(unique_patterns@[count as int].pixels@ == w);
                            assert forall|key: u64, t: int|
                                pattern_lookup@.contains_key(key) && 0 <= t < pattern_lookup@[key]@.len() implies #[trigger] pattern_lookup@[key]@[t]
                                    < unique_patterns@.len() && pixels_hash(unique_patterns@[pattern_lookup@[key]@[t] as int].pixels@) == key by {
                                if key == hash {
                                    if t < old_ids.len() {
                                        assert(pattern_lookup@[key]@[t] == before_map[hash]@[t]);
                                    } else {
                                        assert(pattern_lookup@[key]@[t] == candidate_id);
                                    }
                                } else {
                                    assert(pattern_lookup@[key] == before_map[key]);
                                }
                            }
                            assert forall|k: int|
                                0 <= k < unique_patterns@.len() implies pattern_lookup@.contains_key(pixels_hash((#[trigger] unique_patterns@[k]).pixels@))
                                && pattern_lookup@[pixels_hash(unique_patterns@[k].pixels@)]@.contains(k as usize) by {
                                let key = pixels_hash(unique_patterns@[k].pixels@);
                                if k == count {
                                    assert(pattern_lookup@[hash]@[old_ids.len() as int] == candidate_id);
                                } else if key == hash {
                                    assert(before_map[hash]@.contains(k as usize));
                                    let i = choose|i: int| 0 <= i < before_map[hash]@.len() && before_map[hash]@[i] == k as usize;
                                    assert(pattern_lookup@[hash]@[i] == k as usize);
                                } else {
                                    assert(pattern_lookup@[key] == before_map[key]);
                                }
                            }
                        }
                        proof {
                            assert forall|k: int| 0 <= k < unique_patterns@.len() implies (#[trigger] unique_patterns@[k]).frequency
                                == occurrences(all.take(m + 1), unique_patterns@[k].pixels@) by {
                                if k < count {
                                    assert(d[k] != w);
                                }
                            }
                        }
                    },
                }
                x = x + 1;
            }
            proof {
                assert(y * cols + cols == (y + 1) * cols) by (nonlinear_arith);
            }
            y = y + 1;
        }
        proof {
            assert(all.take((max_y + 1) * cols) =~= all);
        }
        unique_patterns
    }
}

/// A prefix holds no more copies of `w` than the whole.
pub proof fn lemma_occurrences_prefix(ws: Seq<Seq<Pixel>>, w: Seq<Pixel>, k: int)
    requires
        0 <= k <= ws.len(),
    ensures
        occurrences(ws.take(k), w) <= occurrences(ws, w),
    decreases ws.len() - k,
{
    if k < ws.len() {
        lemma_occurrences_prefix(ws, w, k + 1);
        assert(ws.take(k + 1).drop_last() =~= ws.take(k));
    } else {
        assert(ws.take(k) =~= ws);
    }
}

/// The sum over the first `k` entries is at most the sum over the first `m`.
pub proof fn lemma_occurrence_sum_mono(ws: Seq<Seq<Pixel>>, e: Seq<Seq<Pixel>>, k: int, m: int)
    requires
        0 <= k <= m,
    ensures
        occurrence_sum(ws, e, k) <= occurrence_sum(ws, e, m),
    decreases m - k,
{
    if k < m {
        lemma_occurrence_sum_mono(ws, e, k, m - 1);
    }
}

/// There are no more distinct windows than windows.
pub proof fn lemma_distinct_in_order_len(ws: Seq<Seq<Pixel>>)
    ensures
        distinct_in_order(ws).len() <= ws.len(),
    decreases ws.len(),
{
    if ws.len() > 0 {
        lemma_distinct_in_order_len(ws.drop_last());
    }
}

proof fn lemma_distinct_in_order_unique(ws: Seq<Seq<Pixel>>)
    ensures
        forall|i: int, j: int|
            0 <= i < j < distinct_in_order(ws).len() ==> distinct_in_order(ws)[i]
                != distinct_in_order(ws)[j],
    decreases ws.len(),
{
    if ws.len() > 0 {
        lemma_distinct_in_order_unique(ws.drop_last());
        let d = distinct_in_order(ws.drop_last());
        if !d.contains(ws.last()) {
            let e = distinct_in_order(ws);
            assert(e == d.push(ws.last()));
            assert forall|i: int, j: int| 0 <= i < j < e.len() implies e[i] != e[j] by {
                if j == d.len() {
                    if e[i] == e[j] {
                        assert(d[i] == ws.last());
                    }
                }
            }
        }
    }
}

proof fn lemma_occurrences_zero(ws: Seq<Seq<Pixel>>, w: Seq<Pixel>)
    requires
        !distinct_in_order(ws).contains(w),
    ensures
        occurrences(ws, w) == 0,
    decreases ws.len(),
{
    if ws.len() > 0 {
        let d = distinct_in_order(ws.drop_last());
        if d.contains(ws.last()) {
        } else {
            assert(distinct_in_order(ws) == d.push(ws.last()));
            assert(distinct_in_order(ws)[d.len() as int] == ws.last());
        }
        if d.contains(w) {
            let i = choose|i: int| 0 <= i < d.len() && d[i] == w;
            if d.contains(ws.last()) {
                assert(distinct_in_order(ws)[i] == w);
            } else {
                assert(distinct_in_order(ws)[i] == w);
            }
        }
        lemma_occurrences_zero(ws.drop_last(), w);
    }
}

/// The occurrences in `ws` of the first `k` entries of `e`, added up.
pub open spec fn occurrence_sum(ws: Seq<Seq<Pixel>>, e: Seq<Seq<Pixel>>, k: int) -> nat
    decreases k,
{
    if k <= 0 {
        0
    } else {
        occurrence_sum(ws, e, k - 1) + occurrences(ws, e[k - 1])
    }
}

/// The sum only looks at the first `k` entries of `e`.
proof fn lemma_occurrence_sum_prefix(ws: Seq<Seq<Pixel>>, e: Seq<Seq<Pixel>>, f: Seq<Seq<Pixel>>, k: int)
    requires
        0 <= k <= e.len(),
        k <= f.len(),
        forall|i: int| 0 <= i < k ==> e[i] == f[i],
    ensures
        occurrence_sum(ws, e, k) == occurrence_sum(ws, f, k),
    decreases k,
{
    if k > 0 {
        lemma_occurrence_sum_prefix(ws, e, f, k - 1);
    }
}

/// One more window adds one to the sum when it is among the first `k` distinct entries of `e`.
proof fn lemma_occurrence_sum_step(ws: Seq<Seq<Pixel>>, e: Seq<Seq<Pixel>>, k: int)
    requires
        ws.len() > 0,
        0 <= k <= e.len(),
        forall|i: int, j: int| 0 <= i < j < e.len() ==> e[i] != e[j],
    ensures
        occurrence_sum(ws, e, k) == occurrence_sum(ws.drop_last(), e, k) + (if e.take(k).contains(ws.last()) {
            1int
        } else {
            0int
        }),
    decreases k,
{
    if k > 0 {
        lemma_occurrence_sum_step(ws, e, k - 1);
        let x = ws.last();
        if e[k - 1] == x {
            assert(e.take(k)[k - 1] == x);
            if e.take(k - 1).contains(x) {
                let i = choose|i: int| 0 <= i < k - 1 && #[trigger] e.take(k - 1)[i] == x;
                assert(e[i] == e[k - 1]);
            }
        } else {
            if e.take(k).contains(x) {
                let i = choose|i: int| 0 <= i < k && #[trigger] e.take(k)[i] == x;
                assert(e.take(k - 1)[i] == x);
            }
            if e.take(k - 1).contains(x) {
                let i = choose|i: int| 0 <= i < k - 1 && #[trigger] e.take(k - 1)[i] == x;
                assert(e.take(k)[i] == x);
            }
        }
    }
}

/// Every window is counted once: the occurrences of the distinct windows add up to the number of
/// windows.
pub proof fn lemma_occurrences_add_up(ws: Seq<Seq<Pixel>>)
    ensures
        occurrence_sum(ws, distinct_in_order(ws), distinct_in_order(ws).len() as int) == ws.len(),
    decreases ws.len(),
{
    if ws.len() > 0 {
        let rest = ws.drop_last();
        let x = ws.last();
        let d = distinct_in_order(rest);
        let e = distinct_in_order(ws);
        lemma_occurrences_add_up(rest);
        lemma_distinct_in_order_unique(ws);
        lemma_distinct_in_order_unique(rest);
        if d.contains(x) {
            assert(e == d);
            lemma_occurrence_sum_step(ws, d, d.len() as int);
            assert(d.take(d.len() as int) =~= d);
        } else {
            assert(e == d.push(x));
            lemma_occurrence_sum_step(ws, d, d.len() as int);
            assert(d.take(d.len() as int) =~= d);
            lemma_occurrence_sum_prefix(ws, e, d, d.len() as int);
            lemma_occurrences_zero(rest, x);
            assert(e[d.len() as int] == x);
        }
    }
}

/// Every entry of `ws` is among its distinct entries.
proof fn lemma_distinct_in_order_covers(ws: Seq<Seq<Pixel>>)
    ensures
        forall|k: int| 0 <= k < ws.len() ==> distinct_in_order(ws).contains(#[trigger] ws[k]),
    decreases ws.len(),
{
    if ws.len() > 0 {
        let rest = ws.drop_last();
        lemma_distinct_in_order_covers(rest);
        let d = distinct_in_order(rest);
        let e = distinct_in_order(ws);
        assert forall|k: int| 0 <= k < ws.len() implies e.contains(#[trigger] ws[k]) by {
            if k < ws.len() - 1 {
                assert(rest[k] == ws[k]);
                let i = choose|i: int| 0 <= i < d.len() && d[i] == rest[k];
                if d.contains(ws.last()) {
                    assert(e[i] == ws[k]);
                } else {
                    assert(e == d.push(ws.last()));
                    assert(e[i] == ws[k]);
                }
            } else if d.contains(ws.last()) {
                let i = choose|i: int| 0 <= i < d.len() && d[i] == ws.last();
                assert(e[i] == ws[k]);
            } else {
                assert(e[d.len() as int] == ws[k]);
            }
        }
    }
}

/// The distinct extraction is the full extraction of the same picture with every repeat dropped:
/// its pixel lists are those of the full extraction in the order of their first occurrence, no two
/// alike, every window of the full extraction is among them, each frequency counts the windows of
/// the full extraction with those pixels, and the frequencies add up to the number of windows.
pub proof fn lemma_unique_from_all(
    extractor: PatternExtractor,
    image: PixelGrid,
    all: Seq<Pattern>,
    unique: Seq<Pattern>,
)
    requires
        all.len() == all_windows(image, extractor.size() as int).len(),
        forall|k: int| 0 <= k < all.len() ==> (#[trigger] all[k]).pixels@ == all_windows(image, extractor.size() as int)[k],
        unique.len() == distinct_in_order(all_windows(image, extractor.size() as int)).len(),
        forall|k: int|
            0 <= k < unique.len() ==> (#[trigger] unique[k]).pixels@ == distinct_in_order(
                all_windows(image, extractor.size() as int),
            )[k] && unique[k].frequency == occurrences(all_windows(image, extractor.size() as int), unique[k].pixels@),
    ensures
        unique.map_values(|p: Pattern| p.pixels@) == distinct_in_order(all.map_values(|p: Pattern| p.pixels@)),
        forall|k: int|
            0 <= k < unique.len() ==> (#[trigger] unique[k]).frequency == occurrences(
                all.map_values(|p: Pattern| p.pixels@),
                unique[k].pixels@,
            ),
        forall|i: int, j: int| 0 <= i < j < unique.len() ==> (#[trigger] unique[i]).pixels@ != (#[trigger] unique[j]).pixels@,
        forall|k: int| 0 <= k < all.len() ==> exists|j: int| 0 <= j < unique.len() && (#[trigger] unique[j]).pixels@ == (#[trigger] all[k]).pixels@,
        occurrence_sum(
            all.map_values(|p: Pattern| p.pixels@),
            unique.map_values(|p: Pattern| p.pixels@),
            unique.len() as int,
        ) == all.len(),
{
    let ws = all_windows(image, extractor.size() as int);
    let pix = all.map_values(|p: Pattern| p.pixels@);
    assert(pix =~= ws);
    let d = distinct_in_order(ws);
    assert(unique.map_values(|p: Pattern| p.pixels@) =~= d);
    lemma_distinct_in_order_unique(ws);
    lemma_distinct_in_order_covers(ws);
    assert forall|k: int| 0 <= k < all.len() implies exists|j: int| 0 <= j < unique.len() && (#[trigger] unique[j]).pixels@
        == (#[trigger] all[k]).pixels@ by {
        assert(d.contains(ws[k]));
        let j = choose|j: int| 0 <= j < d.len() && d[j] == ws[k];
        assert(unique[j].pixels@ == all[k].pixels@);
    }
    assert forall|i: int, j: int| 0 <= i < j < unique.len() implies (#[trigger] unique[i]).pixels@ != (#[trigger] unique[j]).pixels@ by {
        assert(d[i] != d[j]);
    }
    lemma_occurrences_add_up(ws);
}

/// Pixel (`px`, `py`) of a pattern of the full extraction, read row by row as patterns are drawn,
/// is the picture pixel at that offset from the window's top left corner (`sx`, `sy`); the
/// windows are numbered row by row of their corners.
pub proof fn lemma_extracted_pixels(extractor: PatternExtractor, image: PixelGrid, all: Seq<Pattern>)
    requires
        all.len() == all_windows(image, extractor.size() as int).len(),
        forall|k: int| 0 <= k < all.len() ==> (#[trigger] all[k]).pixels@ == all_windows(image, extractor.size() as int)[k]
            && all[k].size == extractor.size(),
    ensures
        forall|sx: int, sy: int, px: int, py: int|
            0 <= sx < placements(image.width as int, extractor.size() as int) && 0 <= sy < placements(
                image.height as int,
                extractor.size() as int,
            ) && 0 <= px < extractor.size() && 0 <= py < extractor.size() ==> #[trigger] all[sy * placements(
                image.width as int,
                extractor.size() as int,
            ) + sx].pixels@[py * extractor.size() + px] == image.pixel_at(sx + px, sy + py),
{
    let n = extractor.size() as int;
    let cols = placements(image.width as int, n);
    let rows = placements(image.height as int, n);
    assert forall|sx: int, sy: int, px: int, py: int| 0 <= sx < cols && 0 <= sy < rows && 0 <= px < n && 0 <= py < n implies #[trigger] all[sy * cols + sx].pixels@[py * n + px] == image.pixel_at(sx + px, sy + py) by {
        let k = sy * cols + sx;
        let j = py * n + px;
        assert(0 <= k < cols * rows && k % cols == sx && k / cols == sy) by (nonlinear_arith)
            requires
                0 <= sx < cols,
                0 <= sy < rows,
                k == sy * cols + sx,
        ;
        assert(0 <= j < n * n && j % n == px && j / n == py) by (nonlinear_arith)
            requires
                0 <= px < n,
                0 <= py < n,
                j == py * n + px,
        ;
        assert(all_windows(image, n).len() == cols * rows);
        assert(k < all.len());
        assert(all[k].pixels@ == window(image, k % cols, k / cols, n));
        assert(window(image, sx, sy, n)[j] == image.pixel_at(sx + px, sy + py));
        assert(all[sy * cols + sx].pixels@[py * n + px] == image.pixel_at(sx + px, sy + py));
    }
}

} // verus!
