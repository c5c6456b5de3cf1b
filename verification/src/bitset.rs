use vstd::prelude::*;
use vstd::std_specs::bits::{u64_trailing_zeros, axiom_u64_trailing_zeros};

verus! {

/// Whether bit `j` (counted from the least significant bit) of `w` is set.
pub open spec fn word_bit(w: u64, j: int) -> bool {
    (w >> (j as u64)) & 1u64 == 1u64
}

/// The 64 bits of a word, least significant first.
pub open spec fn word_bits(w: u64) -> Seq<bool> {
    Seq::new(64, |j: int| word_bit(w, j))
}

/// Number of `true` entries of a sequence.
pub open spec fn count_true(s: Seq<bool>) -> nat
    decreases s.len(),
{
    if s.len() == 0 {
        0
    } else {
        count_true(s.drop_last()) + (if s.last() { 1nat } else { 0nat })
    }
}

pub proof fn lemma_count_true_append(a: Seq<bool>, b: Seq<bool>)
    ensures
        count_true(a + b) == count_true(a) + count_true(b),
    decreases b.len(),
{
    if b.len() == 0 {
        assert(a + b =~= a);
    } else {
        lemma_count_true_append(a, b.drop_last());
        assert((a + b).drop_last() =~= a + b.drop_last());
    }
}

pub proof fn lemma_count_true_bounds(s: Seq<bool>)
    ensures
        count_true(s) <= s.len(),
        (forall|i: int| 0 <= i < s.len() ==> !s[i]) ==> count_true(s) == 0,
        (forall|i: int| 0 <= i < s.len() ==> s[i]) ==> count_true(s) == s.len(),
    decreases s.len(),
{
    if s.len() > 0 {
        lemma_count_true_bounds(s.drop_last());
    }
}

/// A sequence with no `true` entry counted has none at all.
pub proof fn lemma_count_true_zero(s: Seq<bool>)
    requires
        count_true(s) == 0,
    ensures
        forall|i: int| 0 <= i < s.len() ==> !s[i],
    decreases s.len(),
{
    if s.len() > 0 {
        lemma_count_true_zero(s.drop_last());
        assert forall|i: int| 0 <= i < s.len() implies !s[i] by {
            if i < s.len() - 1 {
                assert(s.drop_last()[i] == s[i]);
            }
        }
    }
}

pub proof fn lemma_count_true_update(s: Seq<bool>, j: int, v: bool)
    requires
        0 <= j < s.len(),
    ensures
        count_true(s.update(j, v)) + (if s[j] { 1int } else { 0int }) == count_true(s) + (if v {
            1int
        } else {
            0int
        }),
{
    let t = s.update(j, v);
    assert(s =~= s.take(j) + seq![s[j]] + s.skip(j + 1));
    assert(t =~= s.take(j) + seq![v] + s.skip(j + 1));
    lemma_count_true_append(s.take(j) + seq![s[j]], s.skip(j + 1));
    lemma_count_true_append(s.take(j), seq![s[j]]);
    lemma_count_true_append(s.take(j) + seq![v], s.skip(j + 1));
    lemma_count_true_append(s.take(j), seq![v]);
    assert(seq![s[j]].drop_last() =~= Seq::<bool>::empty());
    assert(seq![v].drop_last() =~= Seq::<bool>::empty());
}

pub proof fn lemma_bit_of_max(j: u64)
    requires
        j < 64,
    ensures
        (u64::MAX >> j) & 1u64 == 1u64,
        (0u64 >> j) & 1u64 == 0u64,
{
    assert((u64::MAX >> j) & 1u64 == 1u64) by (bit_vector)
        requires
            j < 64,
    ;
    assert((0u64 >> j) & 1u64 == 0u64) by (bit_vector);
}

pub proof fn lemma_bit_of_low_mask(r: u64, j: u64)
    requires
        0 < r < 64,
        j < 64,
    ensures
        (((1u64 << r) - 1) as u64 >> j) & 1u64 == 1u64 <==> j < r,
{
    assert((((1u64 << r) - 1) as u64 >> j) & 1u64 == 1u64 <==> j < r) by (bit_vector)
        requires
            0 < r < 64,
            j < 64,
    ;
}

pub proof fn lemma_bit_of_single(b: u64, j: u64)
    requires
        b < 64,
        j < 64,
    ensures
        ((1u64 << b) >> j) & 1u64 == 1u64 <==> j == b,
{
    assert(((1u64 << b) >> j) & 1u64 == 1u64 <==> j == b) by (bit_vector)
        requires
            b < 64,
            j < 64,
    ;
}

pub proof fn lemma_bit_of_clear(w: u64, b: u64, j: u64)
    requires
        b < 64,
        j < 64,
    ensures
        ((w & !(1u64 << b)) >> j) & 1u64 == 1u64 <==> ((w >> j) & 1u64 == 1u64 && j != b),
{
    assert(((w & !(1u64 << b)) >> j) & 1u64 == 1u64 <==> ((w >> j) & 1u64 == 1u64 && j != b))
        by (bit_vector)
        requires
            b < 64,
            j < 64,
    ;
}

pub proof fn lemma_bit_of_set(w: u64, b: u64, j: u64)
    requires
        b < 64,
        j < 64,
    ensures
        ((w | (1u64 << b)) >> j) & 1u64 == 1u64 <==> ((w >> j) & 1u64 == 1u64 || j == b),
{
    assert(((w | (1u64 << b)) >> j) & 1u64 == 1u64 <==> ((w >> j) & 1u64 == 1u64 || j == b))
        by (bit_vector)
        requires
            b < 64,
            j < 64,
    ;
}

pub proof fn lemma_bit_of_and(w: u64, m: u64, j: u64)
    requires
        j < 64,
    ensures
        ((w & m) >> j) & 1u64 == 1u64 <==> ((w >> j) & 1u64 == 1u64 && (m >> j) & 1u64 == 1u64),
{
    assert(((w & m) >> j) & 1u64 == 1u64 <==> ((w >> j) & 1u64 == 1u64 && (m >> j) & 1u64
        == 1u64)) by (bit_vector)
        requires
            j < 64,
    ;
}

pub proof fn lemma_mask_test(w: u64, b: u64)
    requires
        b < 64,
    ensures
        (w & (1u64 << b)) != 0 <==> (w >> b) & 1u64 == 1u64,
{
    assert((w & (1u64 << b)) != 0 <==> (w >> b) & 1u64 == 1u64) by (bit_vector)
        requires
            b < 64,
    ;
}

/// The indices of the `true` entries of `s`, in increasing order.
pub open spec fn positions(s: Seq<bool>) -> Seq<usize>
    decreases s.len(),
{
    if s.len() == 0 {
        Seq::empty()
    } else if s.last() {
        positions(s.drop_last()).push((s.len() - 1) as usize)
    } else {
        positions(s.drop_last())
    }
}

pub proof fn lemma_positions(s: Seq<bool>)
    requires
        s.len() <= usize::MAX + 1,
    ensures
        positions(s).len() == count_true(s),
        forall|k: int|
            0 <= k < positions(s).len() ==> #[trigger] positions(s)[k] < s.len() && s[positions(
                s,
            )[k] as int],
        forall|k: int, l: int|
            0 <= k < l < positions(s).len() ==> #[trigger] positions(s)[k] < #[trigger] positions(
                s,
            )[l],
        forall|i: int|
            0 <= i < s.len() && #[trigger] s[i] ==> exists|k: int|
                0 <= k < positions(s).len() && positions(s)[k] == i,
    decreases s.len(),
{
    if s.len() > 0 {
        let t = s.drop_last();
        lemma_positions(t);
        assert forall|i: int| 0 <= i < s.len() && #[trigger] s[i] implies exists|k: int|
            0 <= k < positions(s).len() && positions(s)[k] == i by {
            if i < s.len() - 1 {
                assert(t[i]);
                let k = choose|k: int| 0 <= k < positions(t).len() && positions(t)[k] == i;
                assert(positions(s)[k] == i);
            } else {
                assert(positions(s)[positions(s).len() - 1] == i);
            }
        }
    }
}

/// Appending entries that are all `false` adds no position.
pub proof fn lemma_positions_false_stretch(s: Seq<bool>, a: int, b: int)
    requires
        0 <= a <= b <= s.len(),
        forall|i: int| a <= i < b ==> !s[i],
    ensures
        positions(s.take(b)) == positions(s.take(a)),
        count_true(s.take(b)) == count_true(s.take(a)),
    decreases b - a,
{
    if a < b {
        lemma_positions_false_stretch(s, a, b - 1);
        assert(s.take(b).drop_last() =~= s.take(b - 1));
    }
}

/// Number of set bits of a word.
fn word_count_ones(w: u64) -> (r: u32)
    ensures
        r == count_true(word_bits(w)),
{
    let mut c: u32 = 0;
    let mut j: u64 = 0;
    while j < 64
        invariant
            j <= 64,
            c <= j,
            c == count_true(word_bits(w).take(j as int)),
        decreases 64 - j,
    {
        proof {
            assert(word_bits(w).take(j + 1).drop_last() =~= word_bits(w).take(j as int));
            assert(word_bits(w).take(j + 1).last() == word_bit(w, j as int));
        }
        if (w >> j) & 1u64 == 1u64 {
            c = c + 1;
        }
        j = j + 1;
    }
    proof {
        assert(word_bits(w).take(64) =~= word_bits(w));
    }
    c
}

proof fn lemma_word_change(w: u64, o: u64)
    requires
        w & o != w,
    ensures
        exists|j: int| 0 <= j < 64 && word_bit(w, j) && !word_bit(o, j),
{
    let d = w & !o;
    assert(d != 0) by (bit_vector)
        requires
            d == w & !o,
            w & o != w,
    ;
    axiom_u64_trailing_zeros(d);
    let t = u64_trailing_zeros(d) as u64;
    assert(t < 64);
    assert((d >> t) & 1u64 == 1u64);
    assert((w >> t) & 1u64 == 1u64 && (o >> t) & 1u64 != 1u64) by (bit_vector)
        requires
            d == w & !o,
            (d >> t) & 1u64 == 1u64,
            t < 64,
    ;
    assert(word_bit(w, t as int) && !word_bit(o, t as int));
}

proof fn lemma_clear_lowest(r: u64, t: u64)
    requires
        r != 0,
        t < 64,
        (r >> t) & 1u64 == 1u64,
        r << ((64 - t) as u64) == 0,
    ensures
        r & ((r - 1) as u64) == r & !(1u64 << t),
{
    assert(r & ((r - 1) as u64) == r & !(1u64 << t)) by (bit_vector)
        requires
            r != 0,
            t < 64,
            (r >> t) & 1u64 == 1u64,
            r << ((64 - t) as u64) == 0,
    ;
}

/// A fixed-size set of small integers, stored as 64-bit words.
pub struct BitSet {
    words: Vec<u64>,
    bit_count: usize,
}

impl BitSet {
    /// The words that hold the bits, lowest bits first.
    pub closed spec fn word_seq(&self) -> Seq<u64> {
        self.words@
    }

    /// Number of bits the set ranges over.
    pub closed spec fn bit_len(&self) -> nat {
        self.bit_count as nat
    }

    /// Which of the `bit_len()` bits are set.
    pub open spec fn view(&self) -> Seq<bool> {
        Seq::new(self.bit_len(), |i: int| word_bit(self.word_seq()[i / 64], i % 64))
    }

    /// The word layout: exactly enough words, and no bit set past the end.
    pub open spec fn wf(&self) -> bool {
        &&& self.bit_len() <= usize::MAX
        &&& self.word_seq().len() == (self.bit_len() + 63) / 64
        &&& forall|i: int|
            self.bit_len() <= i < self.word_seq().len() * 64 ==> !word_bit(
                #[trigger] self.word_seq()[i / 64],
                i % 64,
            )
    }

    /// All bits of all words, including the unused ones past `bit_len()`.
    pub open spec fn all_bits(&self) -> Seq<bool> {
        Seq::new((self.word_seq().len() * 64) as nat, |i: int| word_bit(self.word_seq()[i / 64], i % 64))
    }

    proof fn lemma_all_bits(&self)
        requires
            self.wf(),
        ensures
            self.all_bits().take(self.bit_len() as int) == self@,
            self.bit_len() <= self.all_bits().len(),
            forall|i: int| self.bit_len() <= i < self.all_bits().len() ==> !self.all_bits()[i],
    {
        assert(self.all_bits().take(self.bit_len() as int) =~= self@);
    }

    /// Number of bits the set ranges over.
    pub fn len(&self) -> (r: usize)
        ensures
            r == self@.len(),
    {
        self.bit_count
    }

    /// A set that holds every bit below `bit_count`.
    pub fn full(bit_count: usize) -> (r: Self)
        ensures
            r.wf(),
            r@ == Seq::new(bit_count as nat, |i: int| true),
    {
        let word_count = bit_count / 64 + if bit_count % 64 != 0 { 1 } else { 0 };
        let mut words = vec![u64::MAX; word_count];
        let remaining_bits = bit_count % 64;
        if word_count > 0 && remaining_bits != 0 {
            let last = word_count - 1;
            let shift = remaining_bits as u64;
            assert(1u64 << shift >= 1u64) by (bit_vector)
                requires
                    shift < 64,
            ;
            words.set(last, (1u64 << shift) - 1);
        }
        let r = Self { words, bit_count };
        proof {
            assert forall|i: int| 0 <= i < word_count * 64 implies word_bit(
                #[trigger] r.words@[i / 64],
                i % 64,
            ) == (i < bit_count) by {
                lemma_bit_of_max((i % 64) as u64);
                if remaining_bits != 0 && i / 64 == word_count - 1 {
                    lemma_bit_of_low_mask(remaining_bits as u64, (i % 64) as u64);
                }
            }
            assert(r@ =~= Seq::new(bit_count as nat, |i: int| true));
        }
        r
    }

    /// A set that holds no bit, over `bit_count` bits.
    pub fn empty(bit_count: usize) -> (r: Self)
        ensures
            r.wf(),
            r@ == Seq::new(bit_count as nat, |i: int| false),
    {
        let word_count = bit_count / 64 + if bit_count % 64 != 0 { 1 } else { 0 };
        let words = vec![0u64; word_count];
        let r = Self { words, bit_count };
        proof {
            assert forall|i: int| 0 <= i < word_count * 64 implies !word_bit(
                #[trigger] r.words@[i / 64],
                i % 64,
            ) by {
                lemma_bit_of_max((i % 64) as u64);
            }
            assert(r@ =~= Seq::new(bit_count as nat, |i: int| false));
        }
        r
    }

    /// Whether `bit` is in the set.
    pub fn contains(&self, bit: usize) -> (r: bool)
        requires
            self.wf(),
            bit < self@.len(),
        ensures
            r == self@[bit as int],
    {
        let word_index = bit / 64;
        let bit_index = bit % 64;
        proof {
            lemma_mask_test(self.words@[word_index as int], bit_index as u64);
        }
        (self.words[word_index] & (1u64 << bit_index)) != 0
    }

    /// Takes `bit` out of the set; says whether it was in.
    pub fn remove(&mut self, bit: usize) -> (r: bool)
        requires
            old(self).wf(),
            bit < old(self)@.len(),
        ensures
            final(self).wf(),
            final(self)@ == old(self)@.update(bit as int, false),
            r == old(self)@[bit as int],
            !r ==> *final(self) == *old(self),
    {
        let word_index = bit / 64;
        let bit_index = bit % 64;
        let mask = 1u64 << bit_index;
        let word = self.words[word_index];
        let was_set = (word & mask) != 0;
        proof {
            lemma_mask_test(word, bit_index as u64);
        }
        if !was_set {
            return false;
        }
        self.words.set(word_index, word & !mask);
        proof {
            let ghost old_words = old(self).words@;
            assert forall|i: int| 0 <= i < self.words@.len() * 64 implies word_bit(
                #[trigger] self.words@[i / 64],
                i % 64,
            ) == (word_bit(old_words[i / 64], i % 64) && i != bit) by {
                if i / 64 == word_index {
                    lemma_bit_of_clear(word, bit_index as u64, (i % 64) as u64);
                }
            }
            assert(self@ =~= old(self)@.update(bit as int, false));
        }
        was_set
    }

    /// Puts `bit` into the set; says whether it was newly added.
    pub fn insert(&mut self, bit: usize) -> (r: bool)
        requires
            old(self).wf(),
            bit < old(self)@.len(),
        ensures
            final(self).wf(),
            final(self)@ == old(self)@.update(bit as int, true),
            r == !old(self)@[bit as int],
            !r ==> *final(self) == *old(self),
    {
        let word_index = bit / 64;
        let bit_index = bit % 64;
        let mask = 1u64 << bit_index;
        let word = self.words[word_index];
        let was_set = (word & mask) != 0;
        proof {
            lemma_mask_test(word, bit_index as u64);
        }
        if was_set {
            return false;
        }
        self.words.set(word_index, word | mask);
        proof {
            let ghost old_words = old(self).words@;
            assert forall|i: int| 0 <= i < self.words@.len() * 64 implies word_bit(
                #[trigger] self.words@[i / 64],
                i % 64,
            ) == (word_bit(old_words[i / 64], i % 64) || i == bit) by {
                if i / 64 == word_index {
                    lemma_bit_of_set(word, bit_index as u64, (i % 64) as u64);
                }
            }
            assert(self@ =~= old(self)@.update(bit as int, true));
        }
        !was_set
    }

    /// Leaves `bit` as the only member if it was a member, and the set empty otherwise;
    /// says whether it was a member.
    pub fn keep_only(&mut self, bit: usize) -> (r: bool)
        requires
            old(self).wf(),
            bit < old(self)@.len(),
        ensures
            final(self).wf(),
            final(self)@ == Seq::new(old(self)@.len(), |i: int| i == bit && old(self)@[bit as int]),
            r == old(self)@[bit as int],
    {
        let word_index = bit / 64;
        let bit_index = bit % 64;
        let mask = 1u64 << bit_index;
        let was_set = (self.words[word_index] & mask) != 0;
        proof {
            lemma_mask_test(self.words@[word_index as int], bit_index as u64);
        }
        let n = self.words.len();
        let mut k: usize = 0;
        while k < n
            invariant
                k <= n,
                n == self.words@.len(),
                n == old(self).words@.len(),
                self.bit_count == old(self).bit_count,
                forall|w: int| 0 <= w < k ==> self.words@[w] == 0u64,
            decreases n - k,
        {
            self.words.set(k, 0);
            k = k + 1;
        }
        if was_set {
            self.words.set(word_index, mask);
        }
        proof {
            assert forall|i: int| 0 <= i < self.words@.len() * 64 implies word_bit(
                #[trigger] self.words@[i / 64],
                i % 64,
            ) == (i == bit && was_set) by {
                lemma_bit_of_max((i % 64) as u64);
                if i / 64 == word_index {
                    lemma_bit_of_single(bit_index as u64, (i % 64) as u64);
                }
            }
            assert(self@ =~= Seq::new(old(self)@.len(), |i: int| i == bit && old(self)@[bit as int]));
        }
        was_set
    }

    /// Keeps only the bits that are also set in the mask `other`, one word per word of the set;
    /// says whether the set changed.
    pub fn intersect_with(&mut self, other: &[u64]) -> (r: bool)
        requires
            old(self).wf(),
            other@.len() == old(self).word_seq().len(),
        ensures
            final(self).wf(),
            final(self)@ == Seq::new(
                old(self)@.len(),
                |i: int| old(self)@[i] && word_bit(other@[i / 64], i % 64),
            ),
            r == (final(self)@ != old(self)@),
            !r ==> *final(self) == *old(self),
    {
        let n = self.words.len();
        let mut changed = false;
        let mut k: usize = 0;
        while k < n
            invariant
                k <= n,
                n == self.words@.len(),
                n == old(self).words@.len(),
                n == other@.len(),
                self.bit_count == old(self).bit_count,
                forall|w: int| 0 <= w < k ==> self.words@[w] == old(self).words@[w] & other@[w],
                forall|w: int| k <= w < n ==> self.words@[w] == old(self).words@[w],
                changed == exists|w: int|
                    0 <= w < k && (old(self).words@[w] & other@[w]) != old(self).words@[w],
                !changed ==> *self == *old(self),
            decreases n - k,
        {
            let word = self.words[k];
            let new_word = word & other[k];
            if new_word != word {
                self.words.set(k, new_word);
                changed = true;
            }
            k = k + 1;
        }
        proof {
            let ghost ow = old(self).words@;
            assert forall|i: int| 0 <= i < n * 64 implies word_bit(#[trigger] self.words@[i / 64], i % 64)
                == (word_bit(ow[i / 64], i % 64) && word_bit(other@[i / 64], i % 64)) by {
                lemma_bit_of_and(ow[i / 64], other@[i / 64], (i % 64) as u64);
            }
            assert(self@ =~= Seq::new(
                old(self)@.len(),
                |i: int| old(self)@[i] && word_bit(other@[i / 64], i % 64),
            ));
            if changed {
                let w = choose|w: int| 0 <= w < n && (ow[w] & other@[w]) != ow[w];
                lemma_word_change(ow[w], other@[w]);
                let j = choose|j: int| 0 <= j < 64 && word_bit(ow[w], j) && !word_bit(other@[w], j);
                let i = w * 64 + j;
                assert(i / 64 == w && i % 64 == j);
                assert(i < self.bit_count);
                assert(old(self)@[i] && !self@[i]);
            } else {
                assert(self.words@ =~= ow);
                assert(self@ =~= old(self)@);
            }
        }
        changed
    }

    /// The words that hold the bits.
    pub fn words(&self) -> (r: &[u64])
        ensures
            r@ == self.word_seq(),
    {
        self.words.as_slice()
    }

    /// The words that hold the bits, to be changed in place.
    pub fn words_mut(&mut self) -> (r: &mut [u64])
        ensures
            r@ == old(self).word_seq(),
            final(self).word_seq() == final(r)@,
            final(self).bit_len() == old(self).bit_len(),
    {
        self.words.as_mut_slice()
    }

    /// Number of bits in the set.
    pub fn count_ones(&self) -> (r: usize)
        requires
            self.wf(),
        ensures
            r == count_true(self@),
    {
        let ghost all = self.all_bits();
        proof {
            self.lemma_all_bits();
            lemma_positions_false_stretch(all, self.bit_count as int, all.len() as int);
            assert(all.take(all.len() as int) =~= all);
        }
        let n = self.words.len();
        let mut total: usize = 0;
        let mut k: usize = 0;
        while k < n
            invariant
                k <= n,
                n == self.words@.len(),
                all == self.all_bits(),
                self.wf(),
                count_true(all) == count_true(self@),
                total == count_true(all.take(k * 64)),
            decreases n - k,
        {
            let c = word_count_ones(self.words[k]);
            proof {
                assert(all.take((k + 1) * 64) =~= all.take(k * 64) + word_bits(self.words@[k as int]));
                lemma_count_true_append(all.take(k * 64), word_bits(self.words@[k as int]));
                lemma_count_true_append(all.take((k + 1) * 64), all.skip((k + 1) * 64));
                assert(all =~= all.take((k + 1) * 64) + all.skip((k + 1) * 64));
                lemma_count_true_bounds(self@);
            }
            total = total + c as usize;
            k = k + 1;
        }
        proof {
            assert(all.take(n * 64) =~= all);
        }
        total
    }

    /// The members of the set, in increasing order.
    pub fn iter_ones(&self) -> (r: Vec<usize>)
        requires
            self.wf(),
        ensures
            r@ == positions(self@),
    {
        let ghost all = self.all_bits();
        proof {
            self.lemma_all_bits();
            lemma_positions_false_stretch(all, self.bit_count as int, all.len() as int);
            assert(all.take(all.len() as int) =~= all);
        }
        let n = self.words.len();
        let mut result: Vec<usize> = Vec::new();
        let mut word_index: usize = 0;
        while word_index < n
            invariant
                word_index <= n,
                n == self.words@.len(),
                all == self.all_bits(),
                self.wf(),
                positions(all) == positions(self@),
                result@ == positions(all.take(word_index * 64)),
            decreases n - word_index,
        {
            let word = self.words[word_index];
            let mut remaining = word;
            let ghost mut t: int = 0;
            let base = word_index * 64;
            while remaining != 0
                invariant
                    0 <= t <= 64,
                    word_index < n,
                    n == self.words@.len(),
                    all == self.all_bits(),
                    self.wf(),
                    word == self.words@[word_index as int],
                    base == word_index * 64,
                    forall|j: int| 0 <= j < 64 ==> word_bit(remaining, j) == (j >= t && word_bit(word, j)),
                    result@ == positions(all.take(base + t)),
                decreases 64 - t,
            {
                let tz = remaining.trailing_zeros();
                proof {
                    axiom_u64_trailing_zeros(remaining);
                    assert(tz < 64);
                    assert(word_bit(remaining, tz as int));
                    assert forall|i: int| base + t <= i < base + tz implies !#[trigger] all[i] by {
                        let j = i - base;
                        assert((remaining >> (j as u64)) & 1u64 == 0u64);
                        assert(((base + j) / 64) == word_index && (base + j) % 64 == j);
                    }
                    lemma_positions_false_stretch(all, base + t, base + tz);
                    assert(((base + tz) / 64) == word_index && (base + tz) % 64 == tz);
                    assert(all.take(base + tz + 1).drop_last() =~= all.take(base + tz));
                    assert(all[base + tz]);
                    lemma_clear_lowest(remaining, tz as u64);
                }
                let next = remaining & (remaining - 1);
                proof {
                    assert forall|j: int| 0 <= j < 64 implies word_bit(next, j) == (j >= tz + 1
                        && word_bit(word, j)) by {
                        lemma_bit_of_clear(remaining, tz as u64, j as u64);
                        if j < tz {
                            assert((remaining >> (j as u64)) & 1u64 == 0u64);
                        }
                    }
                    t = tz + 1;
                }
                result.push(base + tz as usize);
                remaining = next;
            }
            proof {
                assert forall|i: int| base + t <= i < base + 64 implies !#[trigger] all[i] by {
                    let j = i - base;
                    assert(!word_bit(remaining, j)) by {
                        lemma_bit_of_max(j as u64);
                    }
                    assert(((base + j) / 64) == word_index && (base + j) % 64 == j);
                }
                lemma_positions_false_stretch(all, base + t, base + 64);
            }
            word_index = word_index + 1;
        }
        proof {
            assert(all.take(n * 64) =~= all);
        }
        result
    }
}

/// Taking a member out of a set and putting it back gives the set back; so does putting in a
/// non-member and taking it out again.
pub proof fn lemma_remove_insert_round_trip(s: Seq<bool>, bit: int)
    requires
        0 <= bit < s.len(),
    ensures
        s[bit] ==> s.update(bit, false).update(bit, true) == s,
        !s[bit] ==> s.update(bit, true).update(bit, false) == s,
{
    if s[bit] {
        assert(s.update(bit, false).update(bit, true) =~= s);
    } else {
        assert(s.update(bit, true).update(bit, false) =~= s);
    }
}

} // verus!
