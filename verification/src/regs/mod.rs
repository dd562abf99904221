//! System register values and the encoding of their fields.
//!
//! Each register is a value type; a field is read with `get_field` and
//! written with `set_field`, which returns the register with that field
//! replaced and every other bit kept. Moving values to and from the
//! hardware is left to the caller.
use vstd::prelude::*;

pub mod cnthctl_el2;
pub mod cntvoff_el2;
pub mod current_el;
pub mod elr_el2;
pub mod elr_el3;
pub mod hcr_el2;
pub mod mpidr_el1;
pub mod scr_el3;
pub mod sp_el1;
pub mod spsr_el1;
pub mod spsr_el3;
pub mod vbar_el1;

verus! {

/// Read field `F` of a register value.
pub trait RegisterGetField<F> {
    /// The field's value in this register value.
    spec fn field_spec(&self) -> F;

    fn get_field(&self) -> (r: F)
        ensures
            r == self.field_spec(),
    ;
}

/// Replace field `F` of a register value.
pub trait RegisterSetField<F>: Sized {
    /// This register value with the field replaced by `field`.
    spec fn with_field_spec(self, field: F) -> Self;

    fn set_field(self, field: F) -> (r: Self)
        ensures
            r == self.with_field_spec(field),
    ;
}

/// `v` with bit `bit` set to `on`.
pub open spec fn with_bit(v: u64, bit: u64, on: bool) -> u64 {
    if on {
        v | (1u64 << bit)
    } else {
        v & !(1u64 << bit)
    }
}

/// Whether bit `bit` of `v` is set.
pub open spec fn bit_of(v: u64, bit: u64) -> bool {
    v & (1u64 << bit) != 0
}

/// `v` with bit `bit` set to `on`.
pub fn set_bit(v: u64, bit: u64, on: bool) -> (r: u64)
    requires
        bit < 64,
    ensures
        r == with_bit(v, bit, on),
{
    if on {
        v | (1u64 << bit)
    } else {
        v & !(1u64 << bit)
    }
}

/// Whether bit `bit` of `v` is set.
pub fn get_bit(v: u64, bit: u64) -> (r: bool)
    requires
        bit < 64,
    ensures
        r == bit_of(v, bit),
{
    v & (1u64 << bit) != 0
}

/// Mask of a field of `length` bits in a register of `bits` bits.
pub open spec fn field_mask64(length: u64) -> u64 {
    if length == 64 {
        u64::MAX
    } else {
        ((1u64 << length) - 1) as u64
    }
}

/// `v` with the `length` bits at `offset` cleared and `value << offset`
/// or-ed in (a value wider than the field spills into the bits above it).
pub open spec fn with_field64(v: u64, offset: u64, length: u64, value: u64) -> u64 {
    v & !(field_mask64(length) << offset) | (value << offset)
}

/// Write `value` into the field of `length` bits at `offset` of `v`.
pub fn set_field64(v: u64, offset: u64, length: u64, value: u64) -> (r: u64)
    requires
        offset < 64,
        length <= 64,
    ensures
        r == with_field64(v, offset, length, value),
{
    proof {
        assert(length < 64 ==> (1u64 << length) >= 1) by (bit_vector);
    }
    let mask: u64 = if length == 64 {
        u64::MAX
    } else {
        (1u64 << length) - 1
    };
    v & !(mask << offset) | (value << offset)
}

/// Mask of a field of `length` bits in a 32-bit register.
pub open spec fn field_mask32(length: u32) -> u32 {
    if length == 32 {
        u32::MAX
    } else {
        ((1u32 << length) - 1) as u32
    }
}

/// `v` with the `length` bits at `offset` cleared and `value << offset`
/// or-ed in.
pub open spec fn with_field32(v: u32, offset: u32, length: u32, value: u32) -> u32 {
    v & !(field_mask32(length) << offset) | (value << offset)
}

/// Write `value` into the field of `length` bits at `offset` of `v`.
pub fn set_field32(v: u32, offset: u32, length: u32, value: u32) -> (r: u32)
    requires
        offset < 32,
        length <= 32,
    ensures
        r == with_field32(v, offset, length, value),
{
    proof {
        assert(length < 32 ==> (1u32 << length) >= 1) by (bit_vector);
    }
    let mask: u32 = if length == 32 {
        u32::MAX
    } else {
        (1u32 << length) - 1
    };
    v & !(mask << offset) | (value << offset)
}

/// Setting a bit and reading it back gives the value set, and leaves every
/// other bit as it was.
pub proof fn law_bit_set_then_get(v: u64, bit: u64, on: bool, other: u64)
    requires
        bit < 64,
        other < 64,
        other != bit,
    ensures
        bit_of(with_bit(v, bit, on), bit) == on,
        bit_of(with_bit(v, bit, on), other) == bit_of(v, other),
{
    assert(bit_of(with_bit(v, bit, on), bit) == on) by (bit_vector)
        requires
            bit < 64,
    ;
    assert(bit_of(with_bit(v, bit, on), other) == bit_of(v, other)) by (bit_vector)
        requires
            bit < 64,
            other < 64,
            other != bit,
    ;
}

/// A field value that fits its field is read back from it, and the bits
/// outside the field keep their values.
pub proof fn law_field_set_then_get(v: u64, offset: u64, length: u64, value: u64, other: u64)
    requires
        offset < 64,
        0 < length < 64,
        offset + length <= 64,
        value < (1u64 << length),
        other < 64,
        other < offset || other >= offset + length,
    ensures
        (with_field64(v, offset, length, value) >> offset) & field_mask64(length) == value,
        bit_of(with_field64(v, offset, length, value), other) == bit_of(v, other),
{
    assert((with_field64(v, offset, length, value) >> offset) & field_mask64(length) == value) by (bit_vector)
        requires
            offset < 64,
            0 < length < 64,
            offset + length <= 64,
            value < (1u64 << length),
    ;
    assert(bit_of(with_field64(v, offset, length, value), other) == bit_of(v, other)) by (bit_vector)
        requires
            offset < 64,
            0 < length < 64,
            offset + length <= 64,
            value < (1u64 << length),
            other < 64,
            other < offset || other >= offset + length,
    ;
}

/// Setting bit `bit` of `v` to `on`, seen bit by bit: bit `bit` is `on`
/// and every other bit is that of `v`.
pub proof fn lemma_with_bit_bits(v: u64, bit: u64, on: bool, other: u64)
    by (bit_vector)
    requires
        bit < 64,
        other < 64,
    ensures
        (with_bit(v, bit, on) >> bit) & 1 == (if on { 1u64 } else { 0u64 }),
        other != bit ==> (with_bit(v, bit, on) >> other) & 1 == (v >> other) & 1,
        bit_of(v, bit) == ((v >> bit) & 1 == 1),
{
}

/// Writing `value` into the field of `length` bits at `offset` of a 32-bit
/// `v`, seen from outside: the field reads back `value`, every bit below
/// the field and above it is that of `v`.
pub proof fn lemma_with_field32_bits(v: u32, offset: u32, length: u32, value: u32, other: u32)
    by (bit_vector)
    requires
        0 < length,
        offset + length <= 32,
        value < (1u32 << length),
        other < 32,
    ensures
        (with_field32(v, offset, length, value) >> offset) & (((1u32 << length) - 1) as u32) == value,
        other < offset || other >= offset + length ==> (with_field32(v, offset, length, value) >> other) & 1 == (v >> other) & 1,
{
}

/// Replacing the low four bits of `v` by `code`: the low four bits read
/// `code` and the bits above them are those of `v`.
pub proof fn lemma_low_nibble(v: u64, code: u64)
    by (bit_vector)
    requires
        code < 16,
    ensures
        ((v & !15u64) | code) & 15 == code,
        ((v & !15u64) | code) >> 4u64 == v >> 4u64,
{
}

/// The powers of two that field widths of one, two, three and sixteen bits
/// stand for.
pub proof fn lemma_field_widths()
    by (bit_vector)
    ensures
        1u32 << 1u32 == 2,
        1u32 << 2u32 == 4,
        1u32 << 3u32 == 8,
        1u32 << 16u32 == 0x10000,
{
}

} // verus!
