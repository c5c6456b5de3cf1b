use vstd::prelude::*;

use crate::direction::{Direction, direction_dx, direction_dy, opposite_spec, lemma_direction_facts};
use crate::pixel_grid::{Pixel, PixelGrid, lemma_grid_index};

verus! {

/// Position of a pattern in the list of a model's patterns.
pub type PatternId = usize;

/// The pixels of an `n` by `n` window of `grid` whose top left corner is at (`sx`, `sy`), row by row.
pub open spec fn window(grid: PixelGrid, sx: int, sy: int, n: int) -> Seq<Pixel> {
    Seq::new((n * n) as nat, |k: int| grid.pixel_at(sx + k % n, sy + k / n))
}

/// Placing the `n` by `n` pixels `b` one step (`dx`, `dy`) away from `a` makes them agree
/// wherever they cover the same place.
pub open spec fn overlap_holds(a: Seq<Pixel>, b: Seq<Pixel>, n: int, dx: int, dy: int) -> bool {
    forall|x: int, y: int|
        0 <= x < n && 0 <= y < n && 0 <= x + dx < n && 0 <= y + dy < n ==> #[trigger] a[(y + dy)
            * n + (x + dx)] == #[trigger] b[y * n + x]
}

/// Two patterns may stand side by side in `direction` (the second one on that side of the first).
pub open spec fn patterns_overlap(a: Seq<Pixel>, b: Seq<Pixel>, n: int, direction: Direction) -> bool {
    overlap_holds(a, b, n, direction_dx(direction), direction_dy(direction))
}

/// Whether `b` may stand next to `a` in `direction` is the same as whether `a` may stand next to `b`
/// in the opposite direction.
pub proof fn lemma_overlap_symmetric(a: Seq<Pixel>, b: Seq<Pixel>, n: int, direction: Direction)
    ensures
        patterns_overlap(a, b, n, direction) == patterns_overlap(b, a, n, opposite_spec(direction)),
{
    lemma_direction_facts(direction);
    let dx = direction_dx(direction);
    let dy = direction_dy(direction);
    if patterns_overlap(a, b, n, direction) {
        assert forall|x: int, y: int|
            0 <= x < n && 0 <= y < n && 0 <= x + (-dx) < n && 0 <= y + (-dy) < n implies #[trigger] b[(
            y + (-dy)) * n + (x + (-dx))] == #[trigger] a[y * n + x] by {
            let x0 = x - dx;
            let y0 = y - dy;
            assert(a[(y0 + dy) * n + (x0 + dx)] == b[y0 * n + x0]);
        }
    }
    if patterns_overlap(b, a, n, opposite_spec(direction)) {
        assert forall|x: int, y: int|
            0 <= x < n && 0 <= y < n && 0 <= x + dx < n && 0 <= y + dy < n implies #[trigger] a[(y
            + dy) * n + (x + dx)] == #[trigger] b[y * n + x] by {
            let x0 = x + dx;
            let y0 = y + dy;
            assert(b[(y0 + (-dy)) * n + (x0 + (-dx))] == a[y0 * n + x0]);
        }
    }
}

/// Mixes one byte into a running hash: the hash turns left by five bits and takes the byte in.
pub open spec fn mix_byte(h: u64, b: u8) -> u64 {
    ((h << 5u64) | (h >> 59u64)) ^ (b as u64)
}

/// Mixes the four channels of a pixel into a running hash.
pub open spec fn mix_pixel(h: u64, p: Pixel) -> u64 {
    mix_byte(mix_byte(mix_byte(mix_byte(h, p[0]), p[1]), p[2]), p[3])
}

/// The hash of a sequence of pixels: every pixel mixed in, in order, from a fixed start.
pub open spec fn pixels_hash(pixels: Seq<Pixel>) -> u64
    decreases pixels.len(),
{
    if pixels.len() == 0 {
        0xcbf2_9ce4_8422_2325u64
    } else {
        mix_pixel(pixels_hash(pixels.drop_last()), pixels.last())
    }
}

/// A square piece of a picture, with the number of times it occurs there.
pub struct Pattern {
    pub id: PatternId,
    pub size: u32,
    pub pixels: Vec<Pixel>,
    pub frequency: u32,
}

impl Pattern {
    /// One pixel per position of the square.
    pub open spec fn wf(&self) -> bool {
        self.pixels@.len() == self.size * self.size
    }

    /// A pattern seen once.
    pub fn new(id: PatternId, size: u32, pixels: Vec<Pixel>) -> (r: Self)
        requires
            size * size <= u32::MAX,
            pixels@.len() == size * size,
        ensures
            r.wf(),
            r.id == id,
            r.size == size,
            r.pixels@ == pixels@,
            r.frequency == 1,
    {
        Self { id, size, pixels, frequency: 1 }
    }

    /// Counts one more occurrence.
    pub fn increment_frequency(&mut self)
        requires
            old(self).frequency < u32::MAX,
        ensures
            final(self).frequency == old(self).frequency + 1,
            final(self).id == old(self).id,
            final(self).size == old(self).size,
            final(self).pixels@ == old(self).pixels@,
    {
        self.frequency = self.frequency + 1;
    }

    pub fn get_id(&self) -> (r: PatternId)
        ensures
            r == self.id,
    {
        self.id
    }

    pub fn get_size(&self) -> (r: u32)
        ensures
            r == self.size,
    {
        self.size
    }

    pub fn get_frequency(&self) -> (r: u32)
        ensures
            r == self.frequency,
    {
        self.frequency
    }

    pub fn get_pixels(&self) -> (r: &[Pixel])
        ensures
            r@ == self.pixels@,
    {
        self.pixels.as_slice()
    }

    /// The pixel at column `x` and row `y` of the square, if that place is inside it.
    pub fn get_pixel(&self, x: usize, y: usize) -> (r: Option<&Pixel>)
        ensures
            r == (if x < self.size && y < self.size && y * self.size + x < self.pixels@.len() {
                Some(&self.pixels@[y * self.size + x])
            } else {
                None
            }),
    {
        if x >= (self.size as usize) || y >= (self.size as usize) {
            return None;
        }
        let n = self.size as u64;
        proof {
            assert(y * n + x < n * n) by (nonlinear_arith)
                requires
                    y < n,
                    x < n,
            ;
            assert(n * n <= u32::MAX * u32::MAX) by (nonlinear_arith)
                requires
                    n <= u32::MAX,
            ;
        }
        let index = (y as u64) * n + (x as u64);
        if index < self.pixels.len() as u64 {
            Some(&self.pixels[index as usize])
        } else {
            None
        }
    }

    /// The `size` by `size` piece of `image` whose top left corner is at (`start_x`, `start_y`),
    /// if it lies inside the picture.
    pub fn extract_pattern(
        image: &PixelGrid,
        start_x: u32,
        start_y: u32,
        size: u32,
        id: PatternId,
    ) -> (r: Option<Pattern>)
        requires
            image.wf(),
            start_x + size <= u32::MAX,
            start_y + size <= u32::MAX,
            start_x + size <= image.width && start_y + size <= image.height ==> size * size
                <= u32::MAX,
        ensures
            r is Some <==> (start_x + size <= image.width && start_y + size <= image.height),
            r matches Some(p) ==> p.wf() && p.id == id && p.size == size && p.frequency == 1
                && p.pixels@ == window(*image, start_x as int, start_y as int, size as int),
    {
        if start_x + size > image.width() || start_y + size > image.height() {
            return None;
        }
        let pixels = copy_window(image, start_x, start_y, size);
        Some(Pattern::new(id, size, pixels))
    }

    /// Whether both patterns hold the same pixels.
    /// The hash of the pattern's pixels, equal for patterns with the same pixels.
    pub fn compute_hash(&self) -> (r: u64)
        ensures
            r == pixels_hash(self.pixels@),
    {
        let mut h: u64 = 0xcbf2_9ce4_8422_2325u64;
        let mut k: usize = 0;
        while k < self.pixels.len()
            invariant
                k <= self.pixels@.len(),
                h == pixels_hash(self.pixels@.take(k as int)),
            decreases self.pixels@.len() - k,
        {
            proof {
                assert(self.pixels@.take(k + 1).drop_last() =~= self.pixels@.take(k as int));
                assert(self.pixels@.take(k + 1).last() == self.pixels@[k as int]);
            }
            let p = self.pixels[k];
            h = ((h << 5u64) | (h >> 59u64)) ^ (p[0] as u64);
            h = ((h << 5u64) | (h >> 59u64)) ^ (p[1] as u64);
            h = ((h << 5u64) | (h >> 59u64)) ^ (p[2] as u64);
            h = ((h << 5u64) | (h >> 59u64)) ^ (p[3] as u64);
            k = k + 1;
        }
        proof {
            assert(self.pixels@.take(self.pixels@.len() as int) =~= self.pixels@);
        }
        h
    }

    pub fn has_same_pixels(&self, other: &Pattern) -> (r: bool)
        ensures
            r == (self.pixels@ == other.pixels@),
    {
        let n = self.pixels.len();
        if n != other.pixels.len() {
            return false;
        }
        let mut k: usize = 0;
        while k < n
            invariant
                k <= n,
                n == self.pixels@.len(),
                n == other.pixels@.len(),
                forall|i: int| 0 <= i < k ==> self.pixels@[i] == other.pixels@[i],
            decreases n - k,
        {
            if !same_pixel(&self.pixels[k], &other.pixels[k]) {
                return false;
            }
            k = k + 1;
        }
        proof {
            assert(self.pixels@ =~= other.pixels@);
        }
        true
    }

    /// Whether `other` may stand next to this pattern on its `direction` side: both have the same
    /// size and agree on every pixel they share there.
    pub fn overlaps(&self, other: &Pattern, direction: Direction) -> (r: bool)
        requires
            self.wf(),
            other.wf(),
        ensures
            r == (self.size == other.size && patterns_overlap(
                self.pixels@,
                other.pixels@,
                self.size as int,
                direction,
            )),
    {
        if self.size != other.size {
            return false;
        }
        let n = self.size as usize;
        let dx: i64 = match direction {
            Direction::Right => 1,
            Direction::Left => -1,
            _ => 0,
        };
        let dy: i64 = match direction {
            Direction::Down => 1,
            Direction::Up => -1,
            _ => 0,
        };
        let ghost a = self.pixels@;
        let ghost b = other.pixels@;
        let mut y: usize = 0;
        while y < n
            invariant
                y <= n,
                n == self.size,
                n == other.size,
                self.wf(),
                other.wf(),
                a == self.pixels@,
                b == other.pixels@,
                dx == direction_dx(direction),
                dy == direction_dy(direction),
                forall|x0: int, y0: int|
                    0 <= x0 < n && 0 <= y0 < y && 0 <= x0 + dx < n && 0 <= y0 + dy < n
                        ==> #[trigger] a[(y0 + dy) * n + (x0 + dx)] == #[trigger] b[y0 * n + x0],
            decreases n - y,
        {
            let mut x: usize = 0;
            while x < n
                invariant
                    x <= n,
                    y < n,
                    n == self.size,
                    n == other.size,
                    self.wf(),
                    other.wf(),
                    a == self.pixels@,
                    b == other.pixels@,
                    dx == direction_dx(direction),
                    dy == direction_dy(direction),
                    forall|x0: int, y0: int|
                        0 <= x0 < n && 0 <= y0 < y && 0 <= x0 + dx < n && 0 <= y0 + dy < n
                            ==> #[trigger] a[(y0 + dy) * n + (x0 + dx)] == #[trigger] b[y0 * n + x0],
                    forall|x0: int|
                        0 <= x0 < x && 0 <= x0 + dx < n && 0 <= y + dy < n ==> #[trigger] a[(y
                            + dy) * n + (x0 + dx)] == b[y * n + x0],
                decreases n - x,
            {
                let nx = x as i64 + dx;
                let ny = y as i64 + dy;
                if 0 <= nx && nx < n as i64 && 0 <= ny && ny < n as i64 {
                    let ux = nx as usize;
                    let uy = ny as usize;
                    let len_a = self.pixels.len();
                    let len_b = other.pixels.len();
                    proof {
                        lemma_grid_index(ux as int, uy as int, n as int, n as int);
                        lemma_grid_index(x as int, y as int, n as int, n as int);
                    }
                    if !same_pixel(&self.pixels[uy * n + ux], &other.pixels[y * n + x]) {
                        return false;
                    }
                }
                x = x + 1;
            }
            y = y + 1;
        }
        true
    }
}

/// Whether two pixels are equal.
pub fn same_pixel(a: &Pixel, b: &Pixel) -> (r: bool)
    ensures
        r == (*a == *b),
{
    let r = a[0] == b[0] && a[1] == b[1] && a[2] == b[2] && a[3] == b[3];
    proof {
        if r {
            assert(*a =~= *b);
        }
    }
    r
}

/// The pixels of the `size` by `size` window of `image` at (`start_x`, `start_y`), row by row.
pub fn copy_window(image: &PixelGrid, start_x: u32, start_y: u32, size: u32) -> (r: Vec<Pixel>)
    requires
        image.wf(),
        start_x + size <= image.width,
        start_y + size <= image.height,
    ensures
        r@ == window(*image, start_x as int, start_y as int, size as int),
{
    let ghost w = window(*image, start_x as int, start_y as int, size as int);
    let mut pixels: Vec<Pixel> = Vec::new();
    let mut y: u32 = 0;
    while y < size
        invariant
            y <= size,
            image.wf(),
            start_x + size <= image.width,
            start_y + size <= image.height,
            w == window(*image, start_x as int, start_y as int, size as int),
            pixels@ == w.take(y * size),
        decreases size - y,
    {
        let mut x: u32 = 0;
        while x < size
            invariant
                x <= size,
                y < size,
                image.wf(),
                start_x + size <= image.width,
                start_y + size <= image.height,
                w == window(*image, start_x as int, start_y as int, size as int),
                pixels@ == w.take(y * size + x),
            decreases size - x,
        {
            let pixel = image.get_pixel(start_x + x, start_y + y);
            proof {
                let k = y * size + x;
                assert(k < size * size) by (nonlinear_arith)
                    requires
                        x < size,
                        y < size,
                        k == y * size + x,
                ;
                assert(k % (size as int) == x && k / (size as int) == y) by (nonlinear_arith)
                    requires
                        x < size,
                        0 <= x,
                        0 <= y,
                        k == y * size + x,
                ;
                assert(w.take(k + 1) =~= w.take(k).push(pixel));
            }
            pixels.push(pixel);
            x = x + 1;
        }
        proof {
            assert(y * size + size == (y + 1) * size) by (nonlinear_arith);
        }
        y = y + 1;
    }
    proof {
        assert(w.take(size * size) =~= w);
    }
    pixels
}

} // verus!
