//! Supervisor binary interface: error codes of the firmware calls and the
//! hexadecimal rendering used by the debug console.
use vstd::prelude::*;

verus! {

/// Error returned by a firmware call.
#[derive(Debug, Clone, Copy, PartialEq, Eq, Structural)]
pub enum SbiError {
    Unknown,
    Failed,
    NotSupported,
    InvalidParam,
    Denied,
    InvalidAddress,
    AlreadyAvailable,
    AlreadyStarted,
    AlreadyStopped,
}

/// The error that the firmware reports with the code `err` (which is not 0).
pub open spec fn error_of(err: isize) -> SbiError {
    if err == -1 {
        SbiError::Failed
    } else if err == -2 {
        SbiError::NotSupported
    } else if err == -3 {
        SbiError::InvalidParam
    } else if err == -4 {
        SbiError::Denied
    } else if err == -5 {
        SbiError::InvalidAddress
    } else if err == -6 {
        SbiError::AlreadyAvailable
    } else if err == -7 {
        SbiError::AlreadyStarted
    } else if err == -8 {
        SbiError::AlreadyStopped
    } else {
        SbiError::Unknown
    }
}

impl SbiError {
    /// Interpret the `(error, value)` pair that a firmware call returns:
    /// code 0 is success with `value`, the standard negative codes name
    /// their error and every other code is `Unknown`.
    pub fn from_code(code: (isize, usize)) -> (r: Result<usize, SbiError>)
        ensures
            code.0 == 0 ==> r == Ok::<usize, SbiError>(code.1),
            code.0 != 0 ==> r == Err::<usize, SbiError>(error_of(code.0)),
    {
        let (err, value) = code;
        match err {
            0 => Ok(value),
            -1 => Err(SbiError::Failed),
            -2 => Err(SbiError::NotSupported),
            -3 => Err(SbiError::InvalidParam),
            -4 => Err(SbiError::Denied),
            -5 => Err(SbiError::InvalidAddress),
            -6 => Err(SbiError::AlreadyAvailable),
            -7 => Err(SbiError::AlreadyStarted),
            -8 => Err(SbiError::AlreadyStopped),
            _ => Err(SbiError::Unknown),
        }
    }
}

/// The number that the firmware specification gives each error; `Unknown`
/// stands for every code it does not name and has none (0).
pub open spec fn standard_code(e: SbiError) -> isize {
    match e {
        SbiError::Failed => -1isize,
        SbiError::NotSupported => -2isize,
        SbiError::InvalidParam => -3isize,
        SbiError::Denied => -4isize,
        SbiError::InvalidAddress => -5isize,
        SbiError::AlreadyAvailable => -6isize,
        SbiError::AlreadyStarted => -7isize,
        SbiError::AlreadyStopped => -8isize,
        SbiError::Unknown => 0isize,
    }
}

/// A failing code from -1 to -8 is read as the error that the firmware
/// specification numbers so; every other non-zero code is `Unknown`.
pub proof fn law_error_codes(err: isize)
    requires
        err != 0,
    ensures
        -8 <= err <= -1 ==> standard_code(error_of(err)) == err,
        err < -8 || err > 0 ==> error_of(err) == SbiError::Unknown,
{
}

/// The digits are `0` to `9` (ASCII 48 to 57) for the nibbles 0 to 9 and
/// `a` to `f` (ASCII 97 to 102) for the nibbles 10 to 15.
pub proof fn law_hex_alphabet(x: u8)
    requires
        x < 16,
    ensures
        x <= 9 ==> hex_digit(x) == 48 + x,
        x >= 10 ==> hex_digit(x) == 97 + (x - 10),
{
}

/// Lower-case ASCII digit of the nibble `x`.
pub open spec fn hex_digit(x: u8) -> u8 {
    if x > 9 {
        (x + 87) as u8
    } else {
        (x + 48) as u8
    }
}

/// Nibble `i` of `value`, counted from the most significant one.
pub open spec fn nibble(value: usize, i: int) -> u8 {
    ((value >> ((60 - 4 * i) as usize)) & 0xf) as u8
}

/// The 16 lower-case hexadecimal digits of `value`, most significant first.
pub fn to_hex(value: usize) -> (r: [u8; 16])
    requires
        usize::BITS == 64,
    ensures
        forall|i: int| 0 <= i < 16 ==> #[trigger] r[i] == hex_digit(nibble(value, i)),
{
    let mut r: [u8; 16] = [0u8; 16];
    let mut i: usize = 0;
    while i < 16
        invariant
            i <= 16,
            usize::BITS == 64,
            forall|j: int| 0 <= j < i ==> #[trigger] r[j] == hex_digit(nibble(value, j)),
        decreases 16 - i,
    {
        let shift: usize = 60 - 4 * i;
        let masked: usize = (value >> shift) & 0xf;
        assert(masked <= 0xf) by (bit_vector)
            requires
                masked == (value >> shift) & 0xf,
        ;
        let x: u8 = masked as u8;
        // `'a' - 10` and `'0'` in ASCII
        let digit: u8 = if x > 9 {
            87 + x
        } else {
            48 + x
        };
        r[i] = digit;
        i = i + 1;
    }
    r
}

/// The nibble that the ASCII digit `c` stands for.
pub open spec fn digit_value(c: u8) -> u8 {
    if c >= 97 {
        (c - 87) as u8
    } else {
        (c - 48) as u8
    }
}

/// A masked nibble survives the round trip through `u8`.
proof fn lemma_nibble_cast(v: usize, sh: usize)
    by (bit_vector)
    ensures
        ((((v >> sh) & 0xf) as u8) as usize) == (v >> sh) & 0xf,
        (v >> sh) & 0xf <= 15,
{
}

/// Reading the 16 digits of `to_hex` as base-16 digits, most significant
/// first, gives back the value.
pub proof fn law_hex_roundtrip(value: usize)
    requires
        usize::BITS == 64,
    ensures
        forall|i: int| 0 <= i < 16 ==> #[trigger] digit_value(hex_digit(nibble(value, i))) == nibble(value, i),
        value == ((nibble(value, 0) as usize) << 60usize) | ((nibble(value, 1) as usize) << 56usize) | ((nibble(value, 2) as usize) << 52usize) | ((nibble(value, 3) as usize) << 48usize) | ((nibble(value, 4) as usize) << 44usize) | ((nibble(value, 5) as usize) << 40usize) | ((nibble(value, 6) as usize) << 36usize) | ((nibble(value, 7) as usize) << 32usize) | ((nibble(value, 8) as usize) << 28usize) | ((nibble(value, 9) as usize) << 24usize) | ((nibble(value, 10) as usize) << 20usize) | ((nibble(value, 11) as usize) << 16usize) | ((nibble(value, 12) as usize) << 12usize) | ((nibble(value, 13) as usize) << 8usize) | ((nibble(value, 14) as usize) << 4usize) | ((nibble(value, 15) as usize) << 0usize),
{
    assert forall|i: int| 0 <= i < 16 implies #[trigger] digit_value(hex_digit(nibble(value, i))) == nibble(value, i) by {
        let sh = (60 - 4 * i) as usize;
        lemma_nibble_cast(value, sh);
    }
    lemma_nibble_cast(value, 60);
    lemma_nibble_cast(value, 56);
    lemma_nibble_cast(value, 52);
    lemma_nibble_cast(value, 48);
    lemma_nibble_cast(value, 44);
    lemma_nibble_cast(value, 40);
    lemma_nibble_cast(value, 36);
    lemma_nibble_cast(value, 32);
    lemma_nibble_cast(value, 28);
    lemma_nibble_cast(value, 24);
    lemma_nibble_cast(value, 20);
    lemma_nibble_cast(value, 16);
    lemma_nibble_cast(value, 12);
    lemma_nibble_cast(value, 8);
    lemma_nibble_cast(value, 4);
    lemma_nibble_cast(value, 0);
    assert(value == (((value >> 60usize) & 0xf) << 60usize) | (((value >> 56usize) & 0xf) << 56usize) | (((value >> 52usize) & 0xf) << 52usize) | (((value >> 48usize) & 0xf) << 48usize) | (((value >> 44usize) & 0xf) << 44usize) | (((value >> 40usize) & 0xf) << 40usize) | (((value >> 36usize) & 0xf) << 36usize) | (((value >> 32usize) & 0xf) << 32usize) | (((value >> 28usize) & 0xf) << 28usize) | (((value >> 24usize) & 0xf) << 24usize) | (((value >> 20usize) & 0xf) << 20usize) | (((value >> 16usize) & 0xf) << 16usize) | (((value >> 12usize) & 0xf) << 12usize) | (((value >> 8usize) & 0xf) << 8usize) | (((value >> 4usize) & 0xf) << 4usize) | (((value >> 0usize) & 0xf) << 0usize)) by (bit_vector)
        requires
            usize::BITS == 64,
    ;
}

} // verus!
