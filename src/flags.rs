//! Active-dimension flags and the run-lengths (strides) they induce over a
//! row-major flattened buffer.
use bitvec::vec::BitVec;
use vstd::prelude::*;

verus! {

/// An ordered sequence of bits, one per dimension slot, held in a `BitVec`.
#[verifier::external_body]
pub struct FlagBits {
    bits: BitVec,
}

/// The bits held, in index order.
pub uninterp spec fn bits_of(v: FlagBits) -> Seq<bool>;

/// The largest number of bits a `BitVec` can hold.
pub const MAX_FLAG_BITS: usize = usize::MAX >> 3;

impl FlagBits {
    /// Relies on `BitVec::new`: an empty bit-vector.
    #[verifier::external_body]
    fn empty() -> (r: FlagBits)
        ensures
            bits_of(r) == Seq::<bool>::empty(),
    {
        FlagBits { bits: BitVec::new() }
    }

    /// Relies on `BitVec::push`: appends one bit (it panics past the encodable
    /// length, which `requires` rules out).
    #[verifier::external_body]
    fn push_bit(&mut self, b: bool)
        requires
            bits_of(*old(self)).len() < MAX_FLAG_BITS,
        ensures
            bits_of(*final(self)) == bits_of(*old(self)).push(b),
    {
        self.bits.push(b)
    }

    /// Relies on `BitVec::len`: the number of bits held.
    #[verifier::external_body]
    fn bit_count(&self) -> (r: usize)
        ensures
            r == bits_of(*self).len(),
    {
        self.bits.len()
    }

    /// Relies on indexing a `BitVec` by `usize`: the bit at that position
    /// (it panics out of bounds, which `requires` rules out).
    #[verifier::external_body]
    fn bit_at(&self, i: usize) -> (r: bool)
        requires
            i < bits_of(*self).len(),
        ensures
            r == bits_of(*self)[i as int],
    {
        self.bits[i]
    }

    /// Builds the bits from a slice of booleans, in order.
    pub fn from_slice(flags: &[bool]) -> (r: FlagBits)
        requires
            flags@.len() <= MAX_FLAG_BITS,
        ensures
            bits_of(r) == flags@,
    {
        let mut r = FlagBits::empty();
        let mut i: usize = 0;
        while i < flags.len()
            invariant
                i <= flags@.len(),
                flags@.len() <= MAX_FLAG_BITS,
                bits_of(r) == flags@.take(i as int),
            decreases flags@.len() - i,
        {
            r.push_bit(flags[i]);
            i = i + 1;
            assert(flags@.take(i as int) == flags@.take(i - 1).push(flags@[i - 1]));
        }
        assert(flags@.take(flags@.len() as int) == flags@);
        r
    }

    /// The number of bits held.
    pub fn len(&self) -> (r: usize)
        ensures
            r == bits_of(*self).len(),
    {
        self.bit_count()
    }

    /// The bit at position `i`.
    pub fn get(&self, i: usize) -> (r: bool)
        requires
            i < bits_of(*self).len(),
        ensures
            r == bits_of(*self)[i as int],
    {
        self.bit_at(i)
    }
}

/// The size a dimension contributes to the addressed space: its own size when
/// active, 1 when collapsed.
pub open spec fn effective_size(flags: Seq<bool>, sizes: Seq<usize>, i: int) -> nat {
    if flags[i] {
        sizes[i] as nat
    } else {
        1
    }
}

/// Product of the effective sizes of the positions `k..sizes.len()`.
pub open spec fn span_from(flags: Seq<bool>, sizes: Seq<usize>, k: int) -> nat
    decreases sizes.len() - k,
{
    if 0 <= k < sizes.len() {
        effective_size(flags, sizes, k) * span_from(flags, sizes, k + 1)
    } else {
        1
    }
}

/// The run-length at position `i`: the product of the sizes of all later active
/// dimensions when `i` is active, `0` when it is collapsed.
pub open spec fn run_length(flags: Seq<bool>, sizes: Seq<usize>, i: int) -> nat {
    if flags[i] {
        span_from(flags, sizes, i + 1)
    } else {
        0
    }
}

/// Every active dimension has a positive size.
pub open spec fn active_sizes_positive(flags: Seq<bool>, sizes: Seq<usize>) -> bool {
    forall|i: int| 0 <= i < sizes.len() && #[trigger] flags[i] ==> sizes[i] > 0
}

proof fn lemma_span_positive(flags: Seq<bool>, sizes: Seq<usize>, k: int)
    requires
        flags.len() == sizes.len(),
        active_sizes_positive(flags, sizes),
    ensures
        span_from(flags, sizes, k) >= 1,
    decreases sizes.len() - k,
{
    if 0 <= k < sizes.len() {
        lemma_span_positive(flags, sizes, k + 1);
        let e = effective_size(flags, sizes, k);
        let s = span_from(flags, sizes, k + 1);
        assert(e >= 1);
        assert(e * s >= 1) by (nonlinear_arith)
            requires
                e >= 1,
                s >= 1,
        ;
    }
}

proof fn lemma_span_monotone(flags: Seq<bool>, sizes: Seq<usize>, j: int, k: int)
    requires
        flags.len() == sizes.len(),
        active_sizes_positive(flags, sizes),
        0 <= j <= k,
    ensures
        span_from(flags, sizes, k) <= span_from(flags, sizes, j),
    decreases k - j,
{
    if j < k {
        lemma_span_monotone(flags, sizes, j + 1, k);
        if j < sizes.len() {
            lemma_span_positive(flags, sizes, j + 1);
            let e = effective_size(flags, sizes, j);
            let s = span_from(flags, sizes, j + 1);
            assert(e >= 1);
            assert(s <= e * s) by (nonlinear_arith)
                requires
                    e >= 1,
            ;
        }
    }
}

/// Returns the run-length of each dimension described by `flags` / `sizes`:
/// the stride of a row-major layout over the active dimensions alone, and `0`
/// at every collapsed position.
pub fn compute_run_lengths(flags: &FlagBits, sizes: &[usize]) -> (r: Vec<usize>)
    requires
        bits_of(*flags).len() == sizes@.len(),
        active_sizes_positive(bits_of(*flags), sizes@),
        span_from(bits_of(*flags), sizes@, 0) <= usize::MAX,
    ensures
        r@.len() == sizes@.len(),
        forall|i: int|
            0 <= i < r@.len() ==> r@[i] == run_length(bits_of(*flags), sizes@, i),
        forall|i: int| 0 <= i < r@.len() && !bits_of(*flags)[i] ==> r@[i] == 0,
{
    let ghost fs = bits_of(*flags);
    let n = sizes.len();
    // Product of all effective sizes, accumulated from the last position back.
    let mut total: usize = 1;
    let mut k: usize = n;
    while k > 0
        invariant
            k <= n,
            n == sizes@.len(),
            fs.len() == n,
            fs == bits_of(*flags),
            active_sizes_positive(fs, sizes@),
            span_from(fs, sizes@, 0) <= usize::MAX,
            total == span_from(fs, sizes@, k as int),
        decreases k,
    {
        k = k - 1;
        proof {
            lemma_span_monotone(fs, sizes@, 0, k as int);
        }
        if flags.bit_at(k) {
            total = sizes[k] * total;
        }
    }
    let mut current_size: usize = total;
    let mut run_lengths: Vec<usize> = Vec::with_capacity(n);
    let mut i: usize = 0;
    while i < n
        invariant
            i <= n,
            n == sizes@.len(),
            fs.len() == n,
            fs == bits_of(*flags),
            active_sizes_positive(fs, sizes@),
            current_size == span_from(fs, sizes@, i as int),
            run_lengths@.len() == i,
            forall|j: int| 0 <= j < i ==> run_lengths@[j] == run_length(fs, sizes@, j),
        decreases n - i,
    {
        if flags.bit_at(i) {
            let size = sizes[i];
            proof {
                lemma_span_positive(fs, sizes@, i + 1);
                let s = span_from(fs, sizes@, i + 1);
                assert(current_size == size * s);
                assert((size * s) / (size as int) == s) by (nonlinear_arith)
                    requires
                        size > 0,
                ;
            }
            let run_length = current_size / size;
            run_lengths.push(run_length);
            current_size = run_length;
        } else {
            run_lengths.push(0);
        }
        i = i + 1;
    }
    run_lengths
}

/// The dimensions a piece of data varies by, and the run-length of each.
pub struct Flags {
    /// Indicates the dimensions that are in use.
    flags: FlagBits,
    /// Indicates the run-lengths for each dimension.
    run_lengths: Vec<usize>,
}

impl Flags {
    /// Which dimensions are in use.
    pub closed spec fn active(&self) -> Seq<bool> {
        bits_of(self.flags)
    }

    /// The run-length recorded for each dimension.
    pub closed spec fn strides(&self) -> Seq<usize> {
        self.run_lengths@
    }
}

impl Default for Flags {
    fn default() -> (r: Flags)
        ensures
            r.active() == Seq::<bool>::empty(),
            r.strides() == Seq::<usize>::empty(),
    {
        Flags { flags: FlagBits::empty(), run_lengths: Vec::new() }
    }
}

proof fn lemma_span_inactive_tail(flags: Seq<bool>, sizes: Seq<usize>, k: int)
    requires
        flags.len() == sizes.len(),
        0 <= k,
        forall|i: int| k <= i < flags.len() ==> !#[trigger] flags[i],
    ensures
        span_from(flags, sizes, k) == 1,
    decreases sizes.len() - k,
{
    if k < sizes.len() {
        lemma_span_inactive_tail(flags, sizes, k + 1);
    }
}

/// With a single active dimension, that dimension has run-length 1 and every
/// other dimension run-length 0, whatever the sizes.
pub proof fn lemma_single_active(flags: Seq<bool>, sizes: Seq<usize>, k: int)
    requires
        flags.len() == sizes.len(),
        0 <= k < flags.len(),
        flags[k],
        forall|i: int| 0 <= i < flags.len() && i != k ==> !#[trigger] flags[i],
    ensures
        run_length(flags, sizes, k) == 1,
        forall|i: int|
            0 <= i < flags.len() && i != k ==> #[trigger] run_length(flags, sizes, i) == 0,
{
    lemma_span_inactive_tail(flags, sizes, k + 1);
}

/// With exactly two active dimensions `j < k`, the earlier one strides over the
/// whole of the later one (`sizes[k]`), the later one has run-length 1, and every
/// other dimension run-length 0.
pub proof fn lemma_two_active(flags: Seq<bool>, sizes: Seq<usize>, j: int, k: int)
    requires
        flags.len() == sizes.len(),
        0 <= j < k < flags.len(),
        flags[j],
        flags[k],
        forall|i: int| 0 <= i < flags.len() && i != j && i != k ==> !#[trigger] flags[i],
    ensures
        run_length(flags, sizes, j) == sizes[k],
        run_length(flags, sizes, k) == 1,
        forall|i: int|
            0 <= i < flags.len() && i != j && i != k ==> #[trigger] run_length(flags, sizes, i)
                == 0,
{
    lemma_span_inactive_tail(flags, sizes, k + 1);
    lemma_span_between(flags, sizes, j + 1, k);
    assert(span_from(flags, sizes, k) == effective_size(flags, sizes, k) * span_from(
        flags,
        sizes,
        k + 1,
    ));
    assert(effective_size(flags, sizes, k) == sizes[k]);
}

proof fn lemma_span_between(flags: Seq<bool>, sizes: Seq<usize>, m: int, k: int)
    requires
        flags.len() == sizes.len(),
        0 <= m <= k < flags.len(),
        forall|i: int| m <= i < k ==> !#[trigger] flags[i],
    ensures
        span_from(flags, sizes, m) == span_from(flags, sizes, k),
    decreases k - m,
{
    if m < k {
        lemma_span_between(flags, sizes, m + 1, k);
    }
}

} // verus!
