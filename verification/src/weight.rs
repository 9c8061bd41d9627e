use crate::text::{contains_char, starts_with_char, starts_with_spec};
use vstd::prelude::*;
use vstd::std_specs::bits::{axiom_u64_leading_zeros, u64_leading_zeros};

verus! {

/// Edge weights, node potentials and path lengths are 64-bit signed integers.
pub type Weight = i64;

/// Sentinel for "no distance known yet".
pub const MAX: Weight = 0x7fff_ffff_ffff_ffff;

/// Number of bits of a key.
pub const NUM_BITS: usize = 64;

/// Number of bits needed to write `x`: the position of its highest set bit, counted from one.
pub open spec fn bit_length(x: u64) -> int {
    64 - u64_leading_zeros(x)
}

/// Number of high bits in a row that `a` and `b` have in common.
pub open spec fn radix_similarity_spec(a: Weight, b: Weight) -> int {
    u64_leading_zeros(#[verifier::truncate] (a as u64) ^ #[verifier::truncate] (b as u64)) as int
}

/// The position, counted from one, of the highest bit in which `a` and `b` differ; `0` when
/// they are equal.
pub open spec fn radix_distance_spec(a: Weight, b: Weight) -> int {
    bit_length(#[verifier::truncate] (a as u64) ^ #[verifier::truncate] (b as u64))
}

pub proof fn lemma_bit_length_shift(x: u64)
    ensures
        0 <= bit_length(x) <= 64,
        bit_length(x) == 0 <==> x == 0,
        bit_length(x) < 64 ==> x >> (bit_length(x) as u64) == 0,
        bit_length(x) > 0 ==> x >> ((bit_length(x) - 1) as u64) == 1,
{
    axiom_u64_leading_zeros(x);
    let z = u64_leading_zeros(x) as u64;
    if z < 64 {
        let s = (63 - z) as u64;
        let above = (64 - z) as u64;
        assert(x >> above == 0);
        assert(x >> s == 1) by (bit_vector)
            requires
                s < 64,
                above == s + 1,
                (x >> s) & 1 != 0,
                x >> above == 0,
        ;
    }
}

/// A value that becomes `1` when shifted right by `k - 1` has bit length `k`.
proof fn lemma_bit_length_unique(x: u64, k: u64)
    requires
        0 < k <= 64,
        x >> ((k - 1) as u64) == 1,
    ensures
        bit_length(x) == k,
{
    lemma_bit_length_shift(x);
    let km = (k - 1) as u64;
    if bit_length(x) == 0 {
        assert(false) by (bit_vector)
            requires
                x == 0,
                x >> km == 1,
        ;
    } else {
        let lm = (bit_length(x) - 1) as u64;
        assert(lm == km) by (bit_vector)
            requires
                lm < 64,
                km < 64,
                x >> lm == 1,
                x >> km == 1,
        ;
    }
}

/// A value that vanishes when shifted right by `k` has bit length at most `k`.
proof fn lemma_bit_length_at_most(x: u64, k: u64)
    requires
        k < 64,
        x >> k == 0,
    ensures
        bit_length(x) <= k,
{
    lemma_bit_length_shift(x);
    if bit_length(x) > k {
        let lm = (bit_length(x) - 1) as u64;
        assert(false) by (bit_vector)
            requires
                k <= lm,
                lm < 64,
                x >> k == 0,
                x >> lm == 1,
        ;
    }
}

/// Bounds of the radix distance, and when it is zero.
pub proof fn lemma_radix_distance_bounds(a: Weight, b: Weight)
    ensures
        0 <= radix_distance_spec(a, b) <= 64,
        0 <= a && 0 <= b ==> (radix_distance_spec(a, b) == 0 <==> a == b),
        radix_distance_spec(a, b) == 64 - radix_similarity_spec(a, b),
{
    let ua = #[verifier::truncate] (a as u64);
    let ub = #[verifier::truncate] (b as u64);
    lemma_bit_length_shift(ua ^ ub);
    assert((ua ^ ub == 0) <==> ua == ub) by (bit_vector);
}

/// Keys at least `top` are ordered as their buckets are: a key in a lower bucket is smaller.
pub proof fn lemma_lower_bucket_smaller(a: Weight, b: Weight, top: Weight)
    requires
        0 <= top <= a,
        top <= b,
        radix_distance_spec(a, top) < radix_distance_spec(b, top),
    ensures
        a < b,
{
    let (ua, ub, ut) = (a as u64, b as u64, top as u64);
    lemma_bit_length_shift(ua ^ ut);
    lemma_bit_length_shift(ub ^ ut);
    let i = bit_length(ua ^ ut) as u64;
    let jm = (bit_length(ub ^ ut) - 1) as u64;
    assert(ua < ub) by (bit_vector)
        requires
            ut <= ub,
            i <= jm,
            jm < 64,
            (ua ^ ut) >> i == 0,
            (ub ^ ut) >> jm == 1,
    ;
}

/// Two keys of one bucket above the first are closer to each other than to `top`.
pub proof fn lemma_same_bucket_closer(a: Weight, m: Weight, top: Weight)
    requires
        0 <= top <= a,
        top <= m,
        radix_distance_spec(a, top) == radix_distance_spec(m, top),
        radix_distance_spec(a, top) > 0,
    ensures
        radix_distance_spec(a, m) < radix_distance_spec(a, top),
{
    let (ua, um, ut) = (a as u64, m as u64, top as u64);
    lemma_bit_length_shift(ua ^ ut);
    lemma_bit_length_shift(um ^ ut);
    let im = (bit_length(ua ^ ut) - 1) as u64;
    assert((ua ^ um) >> im == 0) by (bit_vector)
        requires
            im < 64,
            (ua ^ ut) >> im == 1,
            (um ^ ut) >> im == 1,
    ;
    lemma_bit_length_at_most(ua ^ um, im);
}

/// A key of a higher bucket keeps its bucket when `top` moves to a key of a lower one.
pub proof fn lemma_higher_bucket_stays(b: Weight, m: Weight, top: Weight)
    requires
        0 <= top <= m,
        top <= b,
        radix_distance_spec(m, top) < radix_distance_spec(b, top),
    ensures
        radix_distance_spec(b, m) == radix_distance_spec(b, top),
{
    let (ub, um, ut) = (b as u64, m as u64, top as u64);
    lemma_bit_length_shift(um ^ ut);
    lemma_bit_length_shift(ub ^ ut);
    let i = bit_length(um ^ ut) as u64;
    let j = bit_length(ub ^ ut) as u64;
    let jm = (j - 1) as u64;
    assert((ub ^ um) >> jm == 1) by (bit_vector)
        requires
            i <= jm,
            jm < 64,
            (um ^ ut) >> i == 0,
            (ub ^ ut) >> jm == 1,
    ;
    lemma_bit_length_unique(ub ^ um, j);
}

/// Number of high bits in a row that `a` and `b` have in common.
pub fn radix_similarity(a: Weight, b: Weight) -> (r: usize)
    ensures
        r == radix_similarity_spec(a, b),
        r <= NUM_BITS,
{
    let x: u64 = #[verifier::truncate] (a as u64) ^ #[verifier::truncate] (b as u64);
    proof {
        axiom_u64_leading_zeros(x);
    }
    x.leading_zeros() as usize
}

/// Opposite of `radix_similarity`: the index of the bucket that holds `a` when the heap's
/// floor is `b`.
pub fn radix_distance(a: Weight, b: Weight) -> (r: usize)
    ensures
        r == radix_distance_spec(a, b),
        r <= NUM_BITS,
{
    NUM_BITS - radix_similarity(a, b)
}

/// Raises `value` to `floor` where `floor` is the greater. Integer weights are exact, so
/// nothing is ever rounded: the value comes back as it was.
pub fn round_up(value: Weight, floor: Weight) -> (r: Weight)
    ensures
        r == value,
{
    let _ = floor;
    value
}


/// Types whose values can be keys of a radix heap: fixed-width integers, compared by the
/// high bits that two of them have in common.
pub trait Radix: Sized {
    /// The number of bits of a value.
    spec fn num_bits_spec() -> int;

    /// The number of high bits in a row that the two values have in common.
    spec fn similarity_spec(&self, other: &Self) -> int;

    /// Number of bits of a value
    fn num_bits() -> (r: usize)
        ensures
            r == Self::num_bits_spec(),
    ;

    /// Number of high bits in a row that `self` and `other` have in common
    fn radix_similarity(&self, other: &Self) -> (r: usize)
        ensures
            r == self.similarity_spec(other),
            r <= Self::num_bits_spec(),
    ;

    /// Opposite of `radix_similarity`
    fn radix_distance(&self, other: &Self) -> (r: usize)
        ensures
            r == Self::num_bits_spec() - self.similarity_spec(other),
    ;
}

impl Radix for i64 {
    open spec fn num_bits_spec() -> int {
        64
    }

    open spec fn similarity_spec(&self, other: &Self) -> int {
        radix_similarity_spec(*self, *other)
    }

    fn num_bits() -> (r: usize) {
        64
    }

    fn radix_similarity(&self, other: &Self) -> (r: usize) {
        self::radix_similarity(*self, *other)
    }

    fn radix_distance(&self, other: &Self) -> (r: usize) {
        64 - self::radix_similarity(*self, *other)
    }
}

impl Radix for u64 {
    open spec fn num_bits_spec() -> int {
        64
    }

    open spec fn similarity_spec(&self, other: &Self) -> int {
        u64_leading_zeros(*self ^ *other) as int
    }

    fn num_bits() -> (r: usize) {
        64
    }

    fn radix_similarity(&self, other: &Self) -> (r: usize) {
        let x: u64 = *self ^ *other;
        proof {
            axiom_u64_leading_zeros(x);
        }
        x.leading_zeros() as usize
    }

    fn radix_distance(&self, other: &Self) -> (r: usize) {
        64 - self.radix_similarity(other)
    }
}

impl Radix for u32 {
    open spec fn num_bits_spec() -> int {
        32
    }

    open spec fn similarity_spec(&self, other: &Self) -> int {
        vstd::std_specs::bits::u32_leading_zeros(*self ^ *other) as int
    }

    fn num_bits() -> (r: usize) {
        32
    }

    fn radix_similarity(&self, other: &Self) -> (r: usize) {
        let x: u32 = *self ^ *other;
        proof {
            vstd::std_specs::bits::axiom_u32_leading_zeros(x);
        }
        x.leading_zeros() as usize
    }

    fn radix_distance(&self, other: &Self) -> (r: usize) {
        32 - self.radix_similarity(other)
    }
}

impl Radix for u16 {
    open spec fn num_bits_spec() -> int {
        16
    }

    open spec fn similarity_spec(&self, other: &Self) -> int {
        vstd::std_specs::bits::u16_leading_zeros(*self ^ *other) as int
    }

    fn num_bits() -> (r: usize) {
        16
    }

    fn radix_similarity(&self, other: &Self) -> (r: usize) {
        let x: u16 = *self ^ *other;
        proof {
            vstd::std_specs::bits::axiom_u16_leading_zeros(x);
        }
        x.leading_zeros() as usize
    }

    fn radix_distance(&self, other: &Self) -> (r: usize) {
        16 - self.radix_similarity(other)
    }
}

impl Radix for u8 {
    open spec fn num_bits_spec() -> int {
        8
    }

    open spec fn similarity_spec(&self, other: &Self) -> int {
        vstd::std_specs::bits::u8_leading_zeros(*self ^ *other) as int
    }

    fn num_bits() -> (r: usize) {
        8
    }

    fn radix_similarity(&self, other: &Self) -> (r: usize) {
        let x: u8 = *self ^ *other;
        proof {
            vstd::std_specs::bits::axiom_u8_leading_zeros(x);
        }
        x.leading_zeros() as usize
    }

    fn radix_distance(&self, other: &Self) -> (r: usize) {
        8 - self.radix_similarity(other)
    }
}

impl Radix for i32 {
    open spec fn num_bits_spec() -> int {
        32
    }

    open spec fn similarity_spec(&self, other: &Self) -> int {
        vstd::std_specs::bits::u32_leading_zeros(
            #[verifier::truncate] (*self as u32) ^ #[verifier::truncate] (*other as u32),
        ) as int
    }

    fn num_bits() -> (r: usize) {
        32
    }

    fn radix_similarity(&self, other: &Self) -> (r: usize) {
        let x: u32 = #[verifier::truncate] (*self as u32) ^ #[verifier::truncate] (*other as u32);
        proof {
            vstd::std_specs::bits::axiom_u32_leading_zeros(x);
        }
        x.leading_zeros() as usize
    }

    fn radix_distance(&self, other: &Self) -> (r: usize) {
        32 - self.radix_similarity(other)
    }
}

impl Radix for i16 {
    open spec fn num_bits_spec() -> int {
        16
    }

    open spec fn similarity_spec(&self, other: &Self) -> int {
        vstd::std_specs::bits::u16_leading_zeros(
            #[verifier::truncate] (*self as u16) ^ #[verifier::truncate] (*other as u16),
        ) as int
    }

    fn num_bits() -> (r: usize) {
        16
    }

    fn radix_similarity(&self, other: &Self) -> (r: usize) {
        let x: u16 = #[verifier::truncate] (*self as u16) ^ #[verifier::truncate] (*other as u16);
        proof {
            vstd::std_specs::bits::axiom_u16_leading_zeros(x);
        }
        x.leading_zeros() as usize
    }

    fn radix_distance(&self, other: &Self) -> (r: usize) {
        16 - self.radix_similarity(other)
    }
}

impl Radix for i8 {
    open spec fn num_bits_spec() -> int {
        8
    }

    open spec fn similarity_spec(&self, other: &Self) -> int {
        vstd::std_specs::bits::u8_leading_zeros(
            #[verifier::truncate] (*self as u8) ^ #[verifier::truncate] (*other as u8),
        ) as int
    }

    fn num_bits() -> (r: usize) {
        8
    }

    fn radix_similarity(&self, other: &Self) -> (r: usize) {
        let x: u8 = #[verifier::truncate] (*self as u8) ^ #[verifier::truncate] (*other as u8);
        proof {
            vstd::std_specs::bits::axiom_u8_leading_zeros(x);
        }
        x.leading_zeros() as usize
    }

    fn radix_distance(&self, other: &Self) -> (r: usize) {
        8 - self.radix_similarity(other)
    }
}

/// Types for which `Weight` has been implemented
///
/// This enum is only used as a helper in `main`
#[derive(Debug, Clone, Copy, PartialEq, Eq, Structural)]
pub enum WeightType {
    F32,
    F64,
    I8,
    I16,
    I32,
    I64,
}

/// The weight type that a text names. A text that starts with `i` names an integer type:
/// the one of 8 bits if it holds an `8`, of 16 bits if it holds a `1`, of 32 bits if it
/// holds a `3` or a `2`, else the one of 64 bits. Any other text names a float type: the one
/// of 32 bits if it holds a `3` or a `2`, else the one of 64 bits.
pub open spec fn weight_type_of(t: Seq<char>) -> WeightType {
    if starts_with_spec(t, 'i') {
        if t.contains('8') {
            WeightType::I8
        } else if t.contains('1') {
            WeightType::I16
        } else if t.contains('3') || t.contains('2') {
            WeightType::I32
        } else {
            WeightType::I64
        }
    } else if t.contains('3') || t.contains('2') {
        WeightType::F32
    } else {
        WeightType::F64
    }
}

/// The name of a weight type: `f32`, `f64`, `i8`, `i16`, `i32` or `i64`.
pub open spec fn name_of(ty: WeightType) -> Seq<char> {
    match ty {
        WeightType::F32 => seq!['f', '3', '2'],
        WeightType::F64 => seq!['f', '6', '4'],
        WeightType::I8 => seq!['i', '8'],
        WeightType::I16 => seq!['i', '1', '6'],
        WeightType::I32 => seq!['i', '3', '2'],
        WeightType::I64 => seq!['i', '6', '4'],
    }
}

/// Each weight type is read off its own name.
pub proof fn lemma_names_read_back(ty: WeightType)
    ensures
        weight_type_of(name_of(ty)) == ty,
{
    let t = name_of(ty);
    match ty {
        WeightType::F32 => {
            assert(t[1] == '3');
        },
        WeightType::F64 => {},
        WeightType::I8 => {
            assert(t[1] == '8');
        },
        WeightType::I16 => {
            assert(t[1] == '1');
        },
        WeightType::I32 => {
            assert(t[1] == '3');
        },
        WeightType::I64 => {},
    }
}

impl WeightType {
    /// Reads the weight type off a text. There is always an answer: the default is `F64`.
    pub fn from_str(t: &str) -> (r: WeightType)
        ensures
            r == weight_type_of(t@),
    {
        if starts_with_char(t, 'i') {
            if contains_char(t, '8') {
                WeightType::I8
            } else if contains_char(t, '1') {
                WeightType::I16
            } else if contains_char(t, '3') || contains_char(t, '2') {
                WeightType::I32
            } else {
                WeightType::I64
            }
        } else if contains_char(t, '3') || contains_char(t, '2') {
            WeightType::F32
        } else {
            WeightType::F64
        }
    }

    /// The number of bits of a weight of this type.
    pub fn num_bits(&self) -> (r: usize)
        ensures
            r == match *self {
                WeightType::I8 => 8int,
                WeightType::I16 => 16int,
                WeightType::F32 | WeightType::I32 => 32int,
                WeightType::F64 | WeightType::I64 => 64int,
            },
    {
        match self {
            WeightType::I8 => 8,
            WeightType::I16 => 16,
            WeightType::F32 | WeightType::I32 => 32,
            WeightType::F64 | WeightType::I64 => 64,
        }
    }
}

} // verus!
