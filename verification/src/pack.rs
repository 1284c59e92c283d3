//! Bit fields: numbers that share one word.

use crate::cfg::{lemma_width, valid, width, Config};
use vstd::arithmetic::power2::{
    lemma_pow2_adds,
    lemma_pow2_pos,
    lemma_pow2_strictly_increases,
    pow2,
};
use vstd::bits::{
    lemma_usize_low_bits_mask_is_mod,
    lemma_usize_pow2_no_overflow,
    lemma_usize_shl_is_mul,
    lemma_usize_shr_is_div,
    low_bits_mask,
};
use vstd::prelude::*;

verus! {

/// The number that the `len` bits from bit `shift` on hold in `word`.
pub open spec fn field(word: nat, shift: nat, len: nat) -> nat {
    (word / pow2(shift)) % pow2(len)
}

/// `word` with the `len` bits from bit `shift` on holding `value` instead.
pub open spec fn with_field(word: nat, shift: nat, len: nat, value: nat) -> nat {
    (word - field(word, shift, len) * pow2(shift) + value * pow2(shift)) as nat
}

/// Whether there is such a field in a word.
pub open spec fn is_field(shift: nat, len: nat) -> bool {
    0 < len < width() && shift + len <= width()
}

/// The `len` low bits of a word, all set.
spec fn low_mask(len: usize) -> usize {
    ((1usize << len) - 1) as usize
}

proof fn lemma_low_mask(len: usize)
    requires
        0 < len < width(),
    ensures
        low_mask(len) == pow2(len as nat) - 1,
        (1usize << len) == pow2(len as nat),
        1 <= (1usize << len),
{
    lemma_usize_pow2_no_overflow(len as nat);
    lemma_usize_shl_is_mul(1, len);
}

/// What reading a field does to the bits of a word.
proof fn lemma_read(word: usize, shift: usize, len: usize)
    requires
        is_field(shift as nat, len as nat),
    ensures
        (word >> shift) & low_mask(len) == field(word as nat, shift as nat, len as nat),
{
    lemma_low_mask(len);
    lemma_usize_shr_is_div(word, shift);
    lemma_usize_pow2_no_overflow(len as nat);
    lemma_usize_low_bits_mask_is_mod(word >> shift, len as nat);
    assert(low_mask(len) == low_bits_mask(len as nat) as usize);
}

/// What writing a field does to the bits of a word.
proof fn lemma_write(word: usize, shift: usize, len: usize, value: usize)
    requires
        is_field(shift as nat, len as nat),
        value < pow2(len as nat),
    ensures
        (word & !(low_mask(len) << shift)) | (value << shift) == with_field(
            word as nat,
            shift as nat,
            len as nat,
            value as nat,
        ),
{
    lemma_low_mask(len);
    lemma_read(word, shift, len);
    lemma_width();
    let mask: usize = low_mask(len);
    let old_value: usize = (word >> shift) & mask;
    assert(value <= mask);
    // Neither field value runs over the top of the word.
    lemma_pow2_adds(len as nat, shift as nat);
    lemma_pow2_pos(shift as nat);
    if len + shift < width() {
        lemma_pow2_strictly_increases((len + shift) as nat, width());
    }
    assert(value * pow2(shift as nat) <= usize::MAX && old_value * pow2(shift as nat) <= usize::MAX)
        by (nonlinear_arith)
        requires
            value < pow2(len as nat),
            old_value < pow2(len as nat),
            pow2(len as nat) * pow2(shift as nat) <= usize::MAX + 1,
            pow2(shift as nat) > 0,
    ;
    lemma_usize_shl_is_mul(value, shift);
    lemma_usize_shl_is_mul(old_value, shift);
    assert(((word & !(mask << shift)) | (value << shift)) + (old_value << shift) == word + (value
        << shift)) by (bit_vector)
        requires
            0 < len < usize::BITS,
            shift + len <= usize::BITS,
            mask == (1usize << len) - 1,
            value <= mask,
            old_value == (word >> shift) & mask,
    ;
}

/// A field is below two to the number of its bits.
pub proof fn lemma_field_bound(word: nat, shift: nat, len: nat)
    ensures
        field(word, shift, len) < pow2(len),
{
    lemma_pow2_pos(len);
    vstd::arithmetic::div_mod::lemma_mod_bound((word / pow2(shift)) as int, pow2(len) as int);
}

/// A field is what lies between the bits above it and those below it, and that is
/// all that writing to it replaces.
pub proof fn field_lies_between(word: nat, above: nat, value: nat, below: nat, shift: nat, len: nat)
    requires
        below < pow2(shift),
        value < pow2(len),
        word == above * pow2(shift + len) + value * pow2(shift) + below,
    ensures
        field(word, shift, len) == value,
        forall|new: nat|
            #[trigger] with_field(word, shift, len, new) == above * pow2(shift + len) + new * pow2(
                shift,
            ) + below,
{
    let (s, l): (int, int) = (pow2(shift) as int, pow2(len) as int);
    let rest: int = above * l + value;
    lemma_pow2_adds(shift, len);
    assert(word == rest * s + below) by (nonlinear_arith)
        requires
            word == above * (s * l) + value * s + below,
            rest == above * l + value,
    ;
    vstd::arithmetic::div_mod::lemma_fundamental_div_mod_converse(
        word as int,
        s,
        rest,
        below as int,
    );
    vstd::arithmetic::div_mod::lemma_fundamental_div_mod_converse(
        rest,
        l,
        above as int,
        value as int,
    );
    assert forall|new: nat|
        #[trigger] with_field(word, shift, len, new) == above * pow2(shift + len) + new * pow2(
            shift,
        ) + below by {
        assert(new * pow2(shift) >= 0 && above * pow2(shift + len) >= 0) by (nonlinear_arith);
    }
}

/// What is written to a field is read back from it, and no other field of the
/// word changes.
pub proof fn lemma_with_field(word: usize, shift: nat, len: nat, value: nat)
    requires
        is_field(shift, len),
        value < pow2(len),
    ensures
        with_field(word as nat, shift, len, value) <= usize::MAX,
        field(with_field(word as nat, shift, len, value), shift, len) == value,
        forall|s: nat, l: nat|
            #![trigger field(with_field(word as nat, shift, len, value), s, l)]
            is_field(s, l) && (s + l <= shift || shift + len <= s) ==> field(
                with_field(word as nat, shift, len, value),
                s,
                l,
            ) == field(word as nat, s, l),
{
    lemma_width();
    lemma_usize_pow2_no_overflow(len);
    let (s0, l0, v0): (usize, usize, usize) = (shift as usize, len as usize, value as usize);
    let mask: usize = low_mask(l0);
    lemma_low_mask(l0);
    lemma_write(word, s0, l0, v0);
    let r: usize = (word & !(mask << s0)) | (v0 << s0);
    assert(r == with_field(word as nat, shift, len, value));
    lemma_read(r, s0, l0);
    assert((r >> s0) & mask == v0) by (bit_vector)
        requires
            0 < l0 < usize::BITS,
            s0 + l0 <= usize::BITS,
            mask == (1usize << l0) - 1,
            v0 <= mask,
            r == (word & !(mask << s0)) | (v0 << s0),
    ;
    assert forall|s: nat, l: nat|
        #![trigger field(with_field(word as nat, shift, len, value), s, l)]
        is_field(s, l) && (s + l <= shift || shift + len <= s) implies field(
        with_field(word as nat, shift, len, value),
        s,
        l,
    ) == field(word as nat, s, l) by {
        let (s1, l1): (usize, usize) = (s as usize, l as usize);
        let mask1: usize = low_mask(l1);
        lemma_low_mask(l1);
        lemma_read(r, s1, l1);
        lemma_read(word, s1, l1);
        assert((r >> s1) & mask1 == (word >> s1) & mask1) by (bit_vector)
            requires
                0 < l0 < usize::BITS,
                s0 + l0 <= usize::BITS,
                0 < l1 < usize::BITS,
                s1 + l1 <= usize::BITS,
                s1 + l1 <= s0 || s0 + l0 <= s1,
                mask == (1usize << l0) - 1,
                mask1 == (1usize << l1) - 1,
                v0 <= mask,
                r == (word & !(mask << s0)) | (v0 << s0),
        ;
    }
}

/// A word is made up of adjacent fields that cover all its bits.
pub proof fn lemma_three_fields(word: usize, a: nat, b: nat, c: nat)
    requires
        0 < a,
        0 < b,
        0 < c,
        a + b + c == width(),
    ensures
        word == field(word as nat, 0, a) + field(word as nat, a, b) * pow2(a) + field(
            word as nat,
            a + b,
            c,
        ) * pow2(a + b),
{
    lemma_width();
    let (a0, b0, c0): (usize, usize, usize) = (a as usize, b as usize, c as usize);
    let ab: usize = (a0 + b0) as usize;
    lemma_read(word, 0, a0);
    lemma_read(word, a0, b0);
    lemma_read(word, ab, c0);
    lemma_low_mask(a0);
    lemma_low_mask(b0);
    lemma_low_mask(c0);
    let (ma, mb, mc): (usize, usize, usize) = (low_mask(a0), low_mask(b0), low_mask(c0));
    let x: usize = (word >> 0usize) & ma;
    let y: usize = (word >> a0) & mb;
    let z: usize = (word >> ab) & mc;
    assert(word == x + (y << a0) + (z << ab)) by (bit_vector)
        requires
            0 < a0 < usize::BITS,
            0 < b0 < usize::BITS,
            0 < c0 < usize::BITS,
            ab == a0 + b0,
            ab + c0 == usize::BITS,
            ma == (1usize << a0) - 1,
            mb == (1usize << b0) - 1,
            mc == (1usize << c0) - 1,
            x == (word >> 0usize) & ma,
            y == (word >> a0) & mb,
            z == (word >> ab) & mc,
    ;
    lemma_pow2_adds(b, a);
    lemma_pow2_adds(c, a + b);
    lemma_pow2_pos(a);
    lemma_pow2_pos(a + b);
    lemma_pow2_strictly_increases(a + b, width());
    assert(y * pow2(a) <= usize::MAX && z * pow2(a + b) <= usize::MAX) by (nonlinear_arith)
        requires
            y < pow2(b),
            z < pow2(c),
            pow2(b) * pow2(a) == pow2(a + b),
            pow2(c) * pow2(a + b) <= usize::MAX + 1,
            pow2(a + b) <= usize::MAX + 1,
            pow2(a) > 0,
            pow2(a + b) > 0,
    ;
    lemma_usize_shl_is_mul(y, a0);
    lemma_usize_shl_is_mul(z, ab);
}

/// Reads the `len` bits of `word` from bit `shift` on.
fn read_bits(word: usize, shift: usize, len: usize) -> (r: usize)
    requires
        is_field(shift as nat, len as nat),
    ensures
        r == field(word as nat, shift as nat, len as nat),
{
    proof {
        lemma_width();
        lemma_read(word, shift, len);
        lemma_low_mask(len);
    }
    (word >> shift) & ((1usize << len) - 1)
}

/// Writes `value` to the `len` bits of `word` from bit `shift` on.
fn write_bits(word: usize, shift: usize, len: usize, value: usize) -> (r: usize)
    requires
        is_field(shift as nat, len as nat),
        value < pow2(len as nat),
    ensures
        r == with_field(word as nat, shift as nat, len as nat, value as nat),
{
    proof {
        lemma_width();
        lemma_write(word, shift, len, value);
        lemma_low_mask(len);
    }
    (word & !(((1usize << len) - 1) << shift)) | (value << shift)
}

/// A number that has a field of its own in a word whose layout follows from the
/// configuration `C`.
pub trait Pack<C: Config>: Sized {
    /// The number of bits of the field.
    spec fn field_len() -> nat;

    /// The number of the field's lowest bit.
    spec fn field_shift() -> nat;

    /// The number that `self` stands for.
    spec fn number(&self) -> nat;

    /// The field lies within a word.
    proof fn lemma_is_field()
        requires
            valid::<C>(),
        ensures
            is_field(Self::field_shift(), Self::field_len()),
    ;

    /// The number of bits of the field.
    fn len() -> (r: usize)
        requires
            valid::<C>(),
        ensures
            r == Self::field_len(),
    ;

    /// The number of the field's lowest bit.
    fn shift() -> (r: usize)
        requires
            valid::<C>(),
        ensures
            r == Self::field_shift(),
    ;

    /// The number that `self` stands for.
    fn as_usize(&self) -> (r: usize)
        ensures
            r == self.number(),
    ;

    /// The value that stands for the number `val`.
    fn from_usize(val: usize) -> (r: Self)
        requires
            valid::<C>(),
            val < pow2(Self::field_len()),
        ensures
            r.number() == val,
    ;

    /// The largest number that the field can hold: as many ones as it has bits.
    fn bits() -> (r: usize)
        requires
            valid::<C>(),
        ensures
            r == pow2(Self::field_len()) - 1,
    {
        let len: usize = Self::len();
        proof {
            Self::lemma_is_field();
            lemma_width();
            lemma_low_mask(len);
        }
        (1usize << len) - 1
    }

    /// The word `to` with the field holding `self`.
    fn pack(&self, to: usize) -> (r: usize)
        requires
            valid::<C>(),
            self.number() < pow2(Self::field_len()),
        ensures
            r == with_field(to as nat, Self::field_shift(), Self::field_len(), self.number()),
    {
        proof {
            Self::lemma_is_field();
        }
        write_bits(to, Self::shift(), Self::len(), self.as_usize())
    }

    /// What the field holds in the word `from`.
    fn from_packed(from: usize) -> (r: Self)
        requires
            valid::<C>(),
        ensures
            r.number() == field(from as nat, Self::field_shift(), Self::field_len()),
    {
        proof {
            Self::lemma_is_field();
            lemma_field_bound(from as nat, Self::field_shift(), Self::field_len());
        }
        Self::from_usize(read_bits(from, Self::shift(), Self::len()))
    }
}

} // verus!
