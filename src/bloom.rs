//! Fixed-width Bloom filters over 64-bit words.
//!
//! A filter is a sequence of `u64` words. An input `x` sets bit `x % 64` of
//! word `(x / 64) % W`, where `W` is the number of words. Filters are combined
//! by word-wise OR and compared by a subset test on their set bits.
use vstd::prelude::*;

verus! {

/// Word index that input `x` maps to in a filter of `w` words.
pub open spec fn word_of(x: u32, w: nat) -> int {
    ((x / 64) as int) % (w as int)
}

/// The single-bit mask that input `x` sets within its word.
pub open spec fn bit_of(x: u32) -> u64 {
    1u64 << (x % 64)
}

/// Word `i` of the filter built from `inputs` with `w` words: the OR of the
/// bits of every input that maps to word `i`.
pub open spec fn built_word(inputs: Seq<u32>, w: nat, i: int) -> u64
    decreases inputs.len(),
{
    if inputs.len() == 0 {
        0
    } else {
        let prev = built_word(inputs.drop_last(), w, i);
        if word_of(inputs.last(), w) == i {
            prev | bit_of(inputs.last())
        } else {
            prev
        }
    }
}

/// The words of the filter built from `inputs` with `w` words.
pub open spec fn bloom_of(inputs: Seq<u32>, w: nat) -> Seq<u64> {
    Seq::new(w, |i: int| built_word(inputs, w, i))
}

/// Every bit set in `b` is set in `a` (the two filters having equal width).
pub open spec fn covers(a: Seq<u64>, b: Seq<u64>) -> bool {
    &&& a.len() == b.len()
    &&& forall|i: int| 0 <= i < a.len() ==> #[trigger] (a[i] & b[i]) == b[i]
}

/// Word `i` of the union of `fs`: the OR of word `i` of every filter.
pub open spec fn union_word(fs: Seq<Seq<u64>>, i: int) -> u64
    decreases fs.len(),
{
    if fs.len() == 0 {
        0
    } else {
        union_word(fs.drop_last(), i) | fs.last()[i]
    }
}

/// The word-wise OR of the filters `fs`, all of width `w`.
pub open spec fn union_of(fs: Seq<Seq<u64>>, w: nat) -> Seq<u64> {
    Seq::new(w, |i: int| union_word(fs, i))
}

/// All filters in `fs` have `w` words.
pub open spec fn all_width(fs: Seq<Seq<u64>>, w: nat) -> bool {
    forall|k: int| 0 <= k < fs.len() ==> (#[trigger] fs[k]).len() == w
}

/// A filter whose bits are held in 64-bit words.
pub struct BloomFilter {
    pub filter_array: Vec<u64>,
}

impl View for BloomFilter {
    type V = Seq<u64>;

    open spec fn view(&self) -> Seq<u64> {
        self.filter_array@
    }
}

pub open spec fn filters_view(fs: Seq<BloomFilter>) -> Seq<Seq<u64>> {
    fs.map_values(|f: BloomFilter| f@)
}

proof fn lemma_or_keeps_mask(a: u64, b: u64, m: u64)
    requires
        a & m == m,
    ensures
        (a | b) & m == m,
        (b | a) & m == m,
{
    assert((a & m == m) ==> ((a | b) & m == m && (b | a) & m == m)) by (bit_vector);
}

proof fn lemma_or_mask_pair(a: u64, b: u64, c: u64)
    requires
        a & b == b,
        a & c == c,
    ensures
        a & (b | c) == (b | c),
{
    assert((a & b == b && a & c == c) ==> a & (b | c) == (b | c)) by (bit_vector);
}

proof fn lemma_mask_facts(a: u64, b: u64)
    ensures
        (a | b) & b == b,
        (a | b) & a == a,
        a & 0 == 0,
        a & a == a,
{
    assert((a | b) & b == b) by (bit_vector);
    assert((a | b) & a == a) by (bit_vector);
    assert(a & 0 == 0) by (bit_vector);
    assert(a & a == a) by (bit_vector);
}

/// The word that an input maps to holds that input's bit.
proof fn lemma_built_word_has_input(inputs: Seq<u32>, w: nat, k: int)
    requires
        0 <= k < inputs.len(),
        w > 0,
    ensures
        built_word(inputs, w, word_of(inputs[k], w)) & bit_of(inputs[k]) == bit_of(inputs[k]),
    decreases inputs.len(),
{
    let i = word_of(inputs[k], w);
    let last = inputs.last();
    let prev = built_word(inputs.drop_last(), w, i);
    if k == inputs.len() - 1 {
        lemma_mask_facts(prev, bit_of(last));
    } else {
        lemma_built_word_has_input(inputs.drop_last(), w, k);
        assert(inputs.drop_last()[k] == inputs[k]);
        if word_of(last, w) == i {
            lemma_or_keeps_mask(prev, bit_of(last), bit_of(inputs[k]));
        }
    }
}

/// Where every input of `ys` is among `xs`, each word built from `xs` holds the
/// word built from `ys`.
proof fn lemma_built_word_subset(xs: Seq<u32>, ys: Seq<u32>, w: nat, i: int)
    requires
        w > 0,
        forall|j: int| 0 <= j < ys.len() ==> xs.contains(#[trigger] ys[j]),
    ensures
        built_word(xs, w, i) & built_word(ys, w, i) == built_word(ys, w, i),
    decreases ys.len(),
{
    let a = built_word(xs, w, i);
    if ys.len() == 0 {
        lemma_mask_facts(a, 0);
    } else {
        let y = ys.last();
        assert forall|j: int| 0 <= j < ys.drop_last().len() implies xs.contains(
            #[trigger] ys.drop_last()[j],
        ) by {
            assert(ys.drop_last()[j] == ys[j]);
        }
        lemma_built_word_subset(xs, ys.drop_last(), w, i);
        if word_of(y, w) == i {
            assert(xs.contains(ys[ys.len() - 1]));
            let k = choose|k: int| 0 <= k < xs.len() && xs[k] == y;
            lemma_built_word_has_input(xs, w, k);
            lemma_or_mask_pair(a, built_word(ys.drop_last(), w, i), bit_of(y));
        }
    }
}

/// Building a filter from a subset of the inputs gives a filter that the filter
/// of the whole set covers: a Bloom filter has no false negatives.
pub proof fn lemma_bloom_subset_covered(xs: Seq<u32>, ys: Seq<u32>, w: nat)
    requires
        w > 0,
        forall|j: int| 0 <= j < ys.len() ==> xs.contains(#[trigger] ys[j]),
    ensures
        covers(bloom_of(xs, w), bloom_of(ys, w)),
{
    assert forall|i: int| 0 <= i < w implies #[trigger] (bloom_of(xs, w)[i] & bloom_of(ys, w)[i])
        == bloom_of(ys, w)[i] by {
        lemma_built_word_subset(xs, ys, w, i);
    }
}

/// Each filter in a list is covered by the union of the list.
proof fn lemma_union_word_covers_member(fs: Seq<Seq<u64>>, k: int, i: int)
    requires
        0 <= k < fs.len(),
    ensures
        union_word(fs, i) & fs[k][i] == fs[k][i],
    decreases fs.len(),
{
    let prev = union_word(fs.drop_last(), i);
    if k == fs.len() - 1 {
        lemma_mask_facts(prev, fs.last()[i]);
    } else {
        lemma_union_word_covers_member(fs.drop_last(), k, i);
        assert(fs.drop_last()[k] == fs[k]);
        lemma_or_keeps_mask(prev, fs.last()[i], fs[k][i]);
    }
}

/// The filter depends only on the set of inputs: their order and repetition
/// do not change it.
pub proof fn lemma_bloom_set_valued(xs: Seq<u32>, ys: Seq<u32>, w: nat)
    requires
        w > 0,
        forall|j: int| 0 <= j < ys.len() ==> xs.contains(#[trigger] ys[j]),
        forall|j: int| 0 <= j < xs.len() ==> ys.contains(#[trigger] xs[j]),
    ensures
        bloom_of(xs, w) == bloom_of(ys, w),
{
    lemma_bloom_subset_covered(xs, ys, w);
    lemma_bloom_subset_covered(ys, xs, w);
    let a = bloom_of(xs, w);
    let b = bloom_of(ys, w);
    assert forall|i: int| 0 <= i < w implies a[i] == b[i] by {
        let (x, y) = (a[i], b[i]);
        assert(x & y == y);
        assert(y & x == x);
        assert((x & y == y && y & x == x) ==> x == y) by (bit_vector);
    }
    assert(a =~= b);
}

/// The union of a list of filters of equal width covers each of them.
pub proof fn lemma_union_covers_each(fs: Seq<Seq<u64>>, w: nat, k: int)
    requires
        all_width(fs, w),
        0 <= k < fs.len(),
    ensures
        covers(union_of(fs, w), fs[k]),
{
    assert forall|i: int| 0 <= i < w implies #[trigger] (union_of(fs, w)[i] & fs[k][i])
        == fs[k][i] by {
        lemma_union_word_covers_member(fs, k, i);
    }
}

/// The union of two filters of equal width covers both of them.
pub proof fn lemma_union_of_two_covers_both(a: Seq<u64>, b: Seq<u64>)
    requires
        a.len() == b.len(),
    ensures
        covers(union_of(seq![a, b], a.len()), a),
        covers(union_of(seq![a, b], a.len()), b),
{
    let fs = seq![a, b];
    assert(fs[0] == a && fs[1] == b);
    lemma_union_covers_each(fs, a.len(), 0);
    lemma_union_covers_each(fs, a.len(), 1);
}

/// A filter covers itself.
pub proof fn lemma_covers_reflexive(a: Seq<u64>)
    ensures
        covers(a, a),
{
    assert forall|i: int| 0 <= i < a.len() implies #[trigger] (a[i] & a[i]) == a[i] by {
        lemma_mask_facts(a[i], 0);
    }
}

/// Covering is transitive.
pub proof fn lemma_covers_transitive(a: Seq<u64>, b: Seq<u64>, c: Seq<u64>)
    requires
        covers(a, b),
        covers(b, c),
    ensures
        covers(a, c),
{
    assert forall|i: int| 0 <= i < a.len() implies #[trigger] (a[i] & c[i]) == c[i] by {
        let (x, y, z) = (a[i], b[i], c[i]);
        assert(x & y == y);
        assert(y & z == z);
        assert((x & y == y && y & z == z) ==> x & z == z) by (bit_vector);
    }
}

/// The all-zero filter of `w` words.
pub open spec fn zero_filter(w: nat) -> Seq<u64> {
    Seq::new(w, |i: int| 0u64)
}

/// The all-zero filter is covered by every filter of its width.
pub proof fn lemma_zero_covered(a: Seq<u64>)
    ensures
        covers(a, zero_filter(a.len())),
{
    assert forall|i: int| 0 <= i < a.len() implies #[trigger] (a[i] & zero_filter(a.len())[i])
        == zero_filter(a.len())[i] by {
        lemma_mask_facts(a[i], 0);
    }
}

impl BloomFilter {
    /// Builds a filter of `filter_size` words from `inputs`.
    pub fn new(inputs: &[u32], filter_size: usize) -> (r: BloomFilter)
        requires
            inputs@.len() > 0 ==> filter_size > 0,
        ensures
            r@ == bloom_of(inputs@, filter_size as nat),
    {
        let mut filter_array: Vec<u64> = Vec::new();
        let mut i: usize = 0;
        while i < filter_size
            invariant
                i <= filter_size,
                filter_array@ == Seq::new(i as nat, |j: int| 0u64),
            decreases filter_size - i,
        {
            filter_array.push(0);
            i = i + 1;
        }
        let ghost w = filter_size as nat;
        let mut k: usize = 0;
        while k < inputs.len()
            invariant
                k <= inputs@.len(),
                inputs@.len() > 0 ==> filter_size > 0,
                filter_array@ == bloom_of(inputs@.subrange(0, k as int), w),
                w == filter_size as nat,
            decreases inputs@.len() - k,
        {
            let input = inputs[k];
            let (index, bit) = input_to_offset_and_bit(input, filter_size);
            let ghost before = filter_array@;
            filter_array.set(index, filter_array[index] | bit);
            proof {
                let pre = inputs@.subrange(0, k as int);
                let post = inputs@.subrange(0, k as int + 1);
                assert(post.drop_last() =~= pre);
                assert(post.last() == input);
                assert(filter_array@ =~= bloom_of(post, w));
            }
            k = k + 1;
        }
        assert(inputs@.subrange(0, inputs@.len() as int) =~= inputs@);
        BloomFilter { filter_array }
    }

    /// Builds the word-wise OR of `bloom_filters`, all of the same width.
    pub fn from_filters(bloom_filters: &[BloomFilter]) -> (r: BloomFilter)
        requires
            bloom_filters@.len() > 0,
            all_width(filters_view(bloom_filters@), bloom_filters@[0]@.len()),
        ensures
            r@ == union_of(filters_view(bloom_filters@), bloom_filters@[0]@.len()),
    {
        let ghost fs = filters_view(bloom_filters@);
        let w = bloom_filters[0].filter_array.len();
        let mut combined: Vec<u64> = Vec::new();
        let mut i: usize = 0;
        while i < w
            invariant
                i <= w,
                combined@ == Seq::new(i as nat, |j: int| 0u64),
            decreases w - i,
        {
            combined.push(0);
            i = i + 1;
        }
        let mut k: usize = 0;
        while k < bloom_filters.len()
            invariant
                k <= bloom_filters@.len(),
                fs == filters_view(bloom_filters@),
                all_width(fs, w as nat),
                combined@ == union_of(fs.subrange(0, k as int), w as nat),
            decreases bloom_filters@.len() - k,
        {
            let filter = &bloom_filters[k];
            assert(fs[k as int] == filter@);
            let ghost pre = fs.subrange(0, k as int);
            let ghost post = fs.subrange(0, k as int + 1);
            assert(post.drop_last() =~= pre);
            let mut j: usize = 0;
            while j < w
                invariant
                    j <= w,
                    k < bloom_filters@.len(),
                    filter@.len() == w,
                    fs[k as int] == filter@,
                    post.len() == k + 1,
                    pre.len() == k,
                    post.drop_last() == pre,
                    post.last() == filter@,
                    combined@.len() == w,
                    forall|t: int| 0 <= t < j ==> combined@[t] == union_word(post, t),
                    forall|t: int| j <= t < w ==> combined@[t] == union_word(pre, t),
                decreases w - j,
            {
                assert(union_word(post, j as int) == union_word(pre, j as int) | filter@[j as int]);
                let word = combined[j] | filter.filter_array[j];
                combined.set(j, word);
                j = j + 1;
            }
            assert(combined@ =~= union_of(post, w as nat));
            k = k + 1;
        }
        assert(fs.subrange(0, bloom_filters@.len() as int) =~= fs);
        BloomFilter { filter_array: combined }
    }

    /// Whether every bit set in `other` is also set in `self`. The two filters
    /// must have the same width.
    pub fn possibly_contains(&self, other: &BloomFilter) -> (r: bool)
        requires
            self@.len() == other@.len(),
        ensures
            r == covers(self@, other@),
    {
        let mut i: usize = 0;
        while i < self.filter_array.len()
            invariant
                i <= self@.len(),
                self@.len() == other@.len(),
                forall|t: int| 0 <= t < i ==> #[trigger] (self@[t] & other@[t]) == other@[t],
            decreases self@.len() - i,
        {
            if (self.filter_array[i] & other.filter_array[i]) != other.filter_array[i] {
                return false;
            }
            i = i + 1;
        }
        true
    }

    /// A filter with the same words as `self`.
    pub fn duplicate(&self) -> (r: BloomFilter)
        ensures
            r@ == self@,
    {
        let mut words: Vec<u64> = Vec::new();
        let mut i: usize = 0;
        while i < self.filter_array.len()
            invariant
                i <= self@.len(),
                words@ == self@.subrange(0, i as int),
            decreases self@.len() - i,
        {
            words.push(self.filter_array[i]);
            i = i + 1;
        }
        assert(self@.subrange(0, self@.len() as int) =~= self@);
        BloomFilter { filter_array: words }
    }
}

/// The word index and the bit mask that `input` sets in a filter of
/// `array_length` words.
fn input_to_offset_and_bit(input: u32, array_length: usize) -> (r: (usize, u64))
    requires
        array_length > 0,
    ensures
        r.0 == word_of(input, array_length as nat),
        r.1 == bit_of(input),
{
    let offset = ((input / 64) as usize) % array_length;
    let bit = 1u64 << (input % 64);
    (offset, bit)
}

} // verus!
