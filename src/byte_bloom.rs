//! Bloom filters over 8-bit words.
//!
//! An input `x` sets bit `x % 8` of byte `(x / 8) % W`, where `W` is the number
//! of bytes; so inputs `0` to `7` fill the first byte and input `8` wraps to
//! the next one.
use vstd::prelude::*;

verus! {

/// Byte index that input `x` maps to in a filter of `w` bytes.
pub open spec fn byte_of(x: u32, w: nat) -> int {
    ((x / 8) as int) % (w as int)
}

/// The single-bit mask that input `x` sets within its byte.
pub open spec fn byte_bit_of(x: u32) -> u8 {
    1u8 << ((x % 8) as u8)
}

/// Byte `i` of the filter built from `inputs` with `w` bytes.
pub open spec fn built_byte(inputs: Seq<u32>, w: nat, i: int) -> u8
    decreases inputs.len(),
{
    if inputs.len() == 0 {
        0
    } else {
        let prev = built_byte(inputs.drop_last(), w, i);
        if byte_of(inputs.last(), w) == i {
            prev | byte_bit_of(inputs.last())
        } else {
            prev
        }
    }
}

/// The bytes of the filter built from `inputs` with `w` bytes.
pub open spec fn byte_bloom_of(inputs: Seq<u32>, w: nat) -> Seq<u8> {
    Seq::new(w, |i: int| built_byte(inputs, w, i))
}

/// Every bit set in `b` is set in `a` (the two filters having equal width).
pub open spec fn covers_bytes(a: Seq<u8>, b: Seq<u8>) -> bool {
    &&& a.len() == b.len()
    &&& forall|i: int| 0 <= i < a.len() ==> #[trigger] (a[i] & b[i]) == b[i]
}

/// A filter whose bits are held in bytes.
pub struct BloomFilter {
    pub filter_array: Vec<u8>,
}

impl View for BloomFilter {
    type V = Seq<u8>;

    open spec fn view(&self) -> Seq<u8> {
        self.filter_array@
    }
}

impl BloomFilter {
    /// Builds a filter of `filter_size` bytes from `inputs`.
    pub fn new(inputs: &[u32], filter_size: usize) -> (r: BloomFilter)
        requires
            inputs@.len() > 0 ==> filter_size > 0,
        ensures
            r@ == byte_bloom_of(inputs@, filter_size as nat),
    {
        let mut filter_array: Vec<u8> = Vec::new();
        let mut i: usize = 0;
        while i < filter_size
            invariant
                i <= filter_size,
                filter_array@ == Seq::new(i as nat, |j: int| 0u8),
            decreases filter_size - i,
        {
            filter_array.push(0);
            i = i + 1;
        }
        let ghost w = filter_size as nat;
        let mut k: usize = 0;
        while k < inputs.len()
            invariant
                k <= inputs@.len(),
                inputs@.len() > 0 ==> filter_size > 0,
                filter_array@ == byte_bloom_of(inputs@.subrange(0, k as int), w),
                w == filter_size as nat,
            decreases inputs@.len() - k,
        {
            let input = inputs[k];
            let index = ((input / 8) as usize) % filter_size;
            let bit = 1u8 << ((input % 8) as u8);
            filter_array.set(index, filter_array[index] | bit);
            proof {
                let pre = inputs@.subrange(0, k as int);
                let post = inputs@.subrange(0, k as int + 1);
                assert(post.drop_last() =~= pre);
                assert(post.last() == input);
                assert(filter_array@ =~= byte_bloom_of(post, w));
            }
            k = k + 1;
        }
        assert(inputs@.subrange(0, inputs@.len() as int) =~= inputs@);
        BloomFilter { filter_array }
    }

    /// Whether every bit set in `other` is also set in `self`. The two filters
    /// must have the same width.
    pub fn possibly_contains(&self, other: &BloomFilter) -> (r: bool)
        requires
            self@.len() == other@.len(),
        ensures
            r == covers_bytes(self@, other@),
    {
        let mut i: usize = 0;
        while i < self.filter_array.len()
            invariant
                i <= self@.len(),
                self@.len() == other@.len(),
                forall|t: int| 0 <= t < i ==> #[trigger] (self@[t] & other@[t]) == other@[t],
            decreases self@.len() - i,
        {
            if (self.filter_array[i] & other.filter_array[i]) != other.filter_array[i] {
                return false;
            }
            i = i + 1;
        }
        true
    }
}

} // verus!
