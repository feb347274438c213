//! The size and alignment of a block of memory.
use vstd::prelude::*;
use vstd::arithmetic::power2::{is_pow2, pow2, lemma_pow2_strictly_increases, lemma_pow2_pos};
use vstd::arithmetic::power::pow;
use vstd::bits::lemma_usize_low_bits_mask_is_mod;
use vstd::layout::{valid_layout, size_of, align_of, layout_for_type_is_valid};

verus! {

broadcast use vstd::arithmetic::power2::is_pow2_equiv;

/// The largest multiple of `align` that is at most `x`.
pub open spec fn align_down_spec(x: usize, align: usize) -> usize {
    x & !((align - 1) as usize)
}

/// Masking the low bits of `y` below a power of two is taking the remainder.
pub proof fn lemma_mask_is_mod(y: usize, align: usize)
    requires
        is_pow2(align as int),
    ensures
        align > 0,
        y & ((align - 1) as usize) == y % align,
{
    let n: nat = choose|i: nat| pow(2, i) == align as int;
    assert(pow2(n) == align);
    lemma_pow2_pos(n);
    if n >= usize::BITS {
        vstd::arithmetic::power2::lemma2_to64();
        vstd::arithmetic::power2::lemma2_to64_rest();
        if n > usize::BITS {
            lemma_pow2_strictly_increases(usize::BITS as nat, n);
        }
        assert(false);
    }
    lemma_usize_low_bits_mask_is_mod(y, n);
}

/// Rounding down to a power of two drops the remainder, and no more.
pub proof fn lemma_align_down(x: usize, align: usize)
    requires
        is_pow2(align as int),
    ensures
        align_down_spec(x, align) == x - x % align,
        align_down_spec(x, align) <= x,
        x - align_down_spec(x, align) < align,
        align_down_spec(x, align) % align == 0,
{
    lemma_mask_is_mod(x, align);
    let m = ((align - 1) as usize);
    assert(x & !m == x - (x & m)) by (bit_vector);
    vstd::arithmetic::div_mod::lemma_fundamental_div_mod(x as int, align as int);
    vstd::arithmetic::div_mod::lemma_mod_multiples_basic(x as int / align as int, align as int);
}

/// A bitwise power-of-two test agrees with [is_pow2].
pub proof fn lemma_bit_power_of_two(align: usize)
    requires
        align != 0,
        align & ((align - 1) as usize) == 0,
    ensures
        is_pow2(align as int),
    decreases align,
{
    reveal(is_pow2);
    if align != 1 {
        let half = align / 2;
        assert(align % 2 == 0 && half != 0 && half & ((half - 1) as usize) == 0) by (bit_vector)
            requires
                align != 0usize,
                align != 1usize,
                align & ((align - 1) as usize) == 0usize,
                half == align / 2,
        ;
        lemma_bit_power_of_two(half);
    }
}

/// The smallest multiple of the power of two `align` that is at least `x`.
pub open spec fn align_up_spec(x: usize, align: usize) -> usize {
    ((x + align - 1) as usize) & !((align - 1) as usize)
}

/// Rounding up to a power of two adds less than the alignment and gives a multiple of it.
pub proof fn lemma_align_up(x: usize, align: usize)
    requires
        is_pow2(align as int),
        x + align - 1 <= usize::MAX,
    ensures
        x <= align_up_spec(x, align) <= x + align - 1,
        align_up_spec(x, align) % align == 0,
{
    lemma_mask_is_mod(0, align);
    lemma_align_down((x + align - 1) as usize, align);
}

/// The size and alignment of a block of memory.
///
/// The alignment is a power of two, and the size rounded up to the alignment does not
/// exceed `isize::MAX`.
#[derive(Clone, Copy, Debug, PartialEq, Eq)]
pub struct Layout {
    size: usize,
    align: usize,
}

impl Layout {
    #[verifier::type_invariant]
    spec fn inv(self) -> bool {
        valid_layout(self.size, self.align)
    }

    /// The size in bytes.
    pub closed spec fn size_spec(self) -> usize {
        self.size
    }

    /// The alignment in bytes.
    pub closed spec fn align_spec(self) -> usize {
        self.align
    }

    /// The size in bytes.
    pub fn size(&self) -> (size: usize)
        ensures
            size == self.size_spec(),
            valid_layout(self.size_spec(), self.align_spec()),
    {
        proof {
            use_type_invariant(self);
        }
        self.size
    }

    /// The alignment in bytes: a power of two.
    pub fn align(&self) -> (align: usize)
        ensures
            align == self.align_spec(),
            valid_layout(self.size_spec(), self.align_spec()),
    {
        proof {
            use_type_invariant(self);
        }
        self.align
    }

    /// Makes a layout of `size` bytes aligned to `align`; `None` unless `align` is a power
    /// of two and `size`, rounded up to `align`, does not exceed `isize::MAX`.
    pub fn from_size_align(size: usize, align: usize) -> (layout: Option<Layout>)
        ensures
            layout is Some <==> valid_layout(size, align),
            layout matches Some(l) ==> l.size_spec() == size && l.align_spec() == align,
    {
        if align == 0 || align & (align - 1) != 0 {
            proof {
                if align != 0 {
                    assert(is_pow2(align as int) ==> align & ((align - 1) as usize) == 0) by {
                        if is_pow2(align as int) {
                            lemma_mask_is_mod(align, align);
                            vstd::arithmetic::div_mod::lemma_mod_self_0(align as int);
                        }
                    }
                }
                reveal(is_pow2);
            }
            return None;
        }
        proof {
            lemma_bit_power_of_two(align);
        }
        let limit = isize::MAX as usize;
        let rem = limit % align;
        assert(rem <= limit) by (nonlinear_arith)
            requires
                rem == limit % align,
                align > 0,
        ;
        if size > limit - rem {
            return None;
        }
        Some(Layout { size, align })
    }

    /// The layout of a value of type `T`.
    pub fn new<T>() -> (layout: Layout)
        ensures
            layout.size_spec() == size_of::<T>(),
            layout.align_spec() == align_of::<T>(),
    {
        layout_for_type_is_valid::<T>();
        Layout { size: core::mem::size_of::<T>(), align: core::mem::align_of::<T>() }
    }

    /// The layout of the value `_value` points to.
    pub fn for_value<T>(_value: &T) -> (layout: Layout)
        ensures
            layout.size_spec() == size_of::<T>(),
            layout.align_spec() == align_of::<T>(),
    {
        Self::new::<T>()
    }
}

} // verus!
