//! The telemetry sample and its two frame layouts.
use vstd::prelude::*;
use crate::numbers::{Real, parse_i32, parse_decimal, i32_of, decimal_of};
use crate::split::{split_on, split_bytes, views};

verus! {

pub const COMMA: u8 = 44;

/// Number of comma-separated fields in a text frame.
pub const TEXT_FIELDS: usize = 7;

/// Number of bytes in a binary frame: two `i32`, two flag bytes and three
/// single-precision bit patterns.
pub const BINARY_LEN: usize = 22;

/// One telemetry sample, fields in wire order.
#[derive(Clone, Copy, Debug, PartialEq, Eq, Structural)]
pub struct Msg {
    pub left_motor: i32,
    pub right_motor: i32,
    pub left_sensor: bool,
    pub right_sensor: bool,
    pub kp: Real,
    pub ki: Real,
    pub kd: Real,
}

pub open spec fn zero_real() -> Real {
    Real::Decimal { mantissa: 0, scale: 0 }
}

/// The all-zero sample that fills history slots never written.
pub open spec fn zero_msg() -> Msg {
    Msg {
        left_motor: 0,
        right_motor: 0,
        left_sensor: false,
        right_sensor: false,
        kp: zero_real(),
        ki: zero_real(),
        kd: zero_real(),
    }
}

impl Default for Msg {
    fn default() -> (r: Msg)
        ensures
            r == zero_msg(),
    {
        Msg {
            left_motor: 0,
            right_motor: 0,
            left_sensor: false,
            right_sensor: false,
            kp: Real::Decimal { mantissa: 0, scale: 0 },
            ki: Real::Decimal { mantissa: 0, scale: 0 },
            kd: Real::Decimal { mantissa: 0, scale: 0 },
        }
    }
}

/// A sensor field of a text frame: exactly `0` (clear) or `1` (set).
pub open spec fn text_flag(f: Seq<u8>) -> Option<bool> {
    if f == seq![48u8] {
        Some(false)
    } else if f == seq![49u8] {
        Some(true)
    } else {
        None
    }
}

/// Reads a sensor field of a text frame.
pub fn read_text_flag(f: &[u8]) -> (r: Option<bool>)
    ensures
        r == text_flag(f@),
{
    if f.len() != 1 {
        proof {
            assert(f@.len() != seq![48u8].len());
            assert(f@.len() != seq![49u8].len());
        }
        return None;
    }
    if f[0] == 48 {
        assert(f@ =~= seq![48u8]);
        Some(false)
    } else if f[0] == 49 {
        assert(f@ =~= seq![49u8]);
        Some(true)
    } else {
        proof {
            assert(f@[0] != seq![48u8][0]);
            assert(f@[0] != seq![49u8][0]);
        }
        None
    }
}

/// The sample a text frame such as `10,-20,1,0,0.5,0.1,0.05` stands for:
/// exactly seven fields, motors as `i32`, sensors as the literal `0` or `1`,
/// gains as decimals. Any field that does not read makes the whole
/// frame unreadable.
pub open spec fn text_msg(frame: Seq<u8>) -> Option<Msg> {
    let f = split_on(frame, COMMA);
    if f.len() != TEXT_FIELDS {
        None
    } else {
        match (i32_of(f[0]), i32_of(f[1]), text_flag(f[2]), text_flag(f[3])) {
            (Some(lm), Some(rm), Some(ls), Some(rs)) => match (
                decimal_of(f[4]),
                decimal_of(f[5]),
                decimal_of(f[6]),
            ) {
                (Some(kp), Some(ki), Some(kd)) => Some(
                    Msg {
                        left_motor: lm,
                        right_motor: rm,
                        left_sensor: ls,
                        right_sensor: rs,
                        kp,
                        ki,
                        kd,
                    },
                ),
                _ => None,
            },
            _ => None,
        }
    }
}

/// Decodes one text frame (without its newline).
pub fn decode_text(frame: &[u8]) -> (r: Option<Msg>)
    ensures
        r == text_msg(frame@),
{
    let fields = split_bytes(frame, COMMA);
    if fields.len() != TEXT_FIELDS {
        return None;
    }
    proof {
        assert forall|j: int| 0 <= j < 7 implies fields@[j]@ == #[trigger] split_on(frame@, COMMA)[j] by {
            assert(views(fields@)[j] == fields@[j]@);
        }
    }
    let lm = parse_i32(fields[0].as_slice());
    let rm = parse_i32(fields[1].as_slice());
    let ls = read_text_flag(fields[2].as_slice());
    let rs = read_text_flag(fields[3].as_slice());
    let kp = parse_decimal(fields[4].as_slice());
    let ki = parse_decimal(fields[5].as_slice());
    let kd = parse_decimal(fields[6].as_slice());
    match (lm, rm, ls, rs) {
        (Some(lm), Some(rm), Some(ls), Some(rs)) => match (kp, ki, kd) {
            (Some(kp), Some(ki), Some(kd)) => Some(
                Msg {
                    left_motor: lm,
                    right_motor: rm,
                    left_sensor: ls,
                    right_sensor: rs,
                    kp,
                    ki,
                    kd,
                },
            ),
            _ => None,
        },
        _ => None,
    }
}

/// Little-endian value of four bytes.
pub open spec fn le_u32(b: Seq<u8>, at: int) -> nat {
    (b[at] + b[at + 1] * 256 + b[at + 2] * 65536 + b[at + 3] * 16777216) as nat
}

/// Two's-complement reading of a 32-bit pattern.
pub open spec fn as_signed(u: nat) -> int {
    if u < 2147483648 {
        u as int
    } else {
        u - 4294967296
    }
}

pub open spec fn flag_of(b: u8) -> Option<bool> {
    if b == 0 {
        Some(false)
    } else if b == 1 {
        Some(true)
    } else {
        None
    }
}

/// The sample a binary frame stands for: 22 bytes holding, little-endian and
/// in order, the two motors as `i32`, the two sensors as one byte each (`0`
/// or `1`), then the three gains as single-precision bit patterns.
pub open spec fn binary_msg(frame: Seq<u8>) -> Option<Msg> {
    if frame.len() != BINARY_LEN {
        None
    } else {
        match (flag_of(frame[8]), flag_of(frame[9])) {
            (Some(ls), Some(rs)) => Some(
                Msg {
                    left_motor: as_signed(le_u32(frame, 0)) as i32,
                    right_motor: as_signed(le_u32(frame, 4)) as i32,
                    left_sensor: ls,
                    right_sensor: rs,
                    kp: Real::Single(le_u32(frame, 10) as u32),
                    ki: Real::Single(le_u32(frame, 14) as u32),
                    kd: Real::Single(le_u32(frame, 18) as u32),
                },
            ),
            _ => None,
        }
    }
}

/// Reads four bytes at `at` as a little-endian `u32`.
pub fn read_u32(b: &[u8], at: usize) -> (r: u32)
    requires
        at + 4 <= b@.len(),
    ensures
        r == le_u32(b@, at as int),
{
    b[at] as u32 + b[at + 1] as u32 * 256 + b[at + 2] as u32 * 65536 + b[at + 3] as u32 * 16777216
}

/// Reads four bytes at `at` as a little-endian `i32`.
pub fn read_i32(b: &[u8], at: usize) -> (r: i32)
    requires
        at + 4 <= b@.len(),
    ensures
        r == as_signed(le_u32(b@, at as int)),
{
    let u = read_u32(b, at);
    if u < 2147483648 {
        u as i32
    } else {
        (u - 2147483648) as i32 - 2147483647 - 1
    }
}

fn read_flag(b: u8) -> (r: Option<bool>)
    ensures
        r == flag_of(b),
{
    if b == 0 {
        Some(false)
    } else if b == 1 {
        Some(true)
    } else {
        None
    }
}

/// Decodes one binary frame (without its newline).
pub fn decode_binary(frame: &[u8]) -> (r: Option<Msg>)
    ensures
        r == binary_msg(frame@),
{
    if frame.len() != BINARY_LEN {
        return None;
    }
    match (read_flag(frame[8]), read_flag(frame[9])) {
        (Some(ls), Some(rs)) => Some(
            Msg {
                left_motor: read_i32(frame, 0),
                right_motor: read_i32(frame, 4),
                left_sensor: ls,
                right_sensor: rs,
                kp: Real::Single(read_u32(frame, 10)),
                ki: Real::Single(read_u32(frame, 14)),
                kd: Real::Single(read_u32(frame, 18)),
            },
        ),
        _ => None,
    }
}

} // verus!
