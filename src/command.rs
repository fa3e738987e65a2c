//! Commands from the host to the device: set one gain to a new value.
use vstd::prelude::*;
use vstd::arithmetic::div_mod::lemma_fundamental_div_mod;
use crate::numbers::{Real, decimal_of, decimal_text, parse_decimal, is_decimal_text};
use crate::message::{le_u32, read_u32};
use crate::decoder::{Codec, NEWLINE};

verus! {

/// The gain a command sets.
#[derive(Clone, Copy, Debug, PartialEq, Eq, Structural)]
pub enum Target {
    Kp,
    Ki,
    Kd,
}

/// A decoded command.
#[derive(Clone, Copy, Debug, PartialEq, Eq, Structural)]
pub struct Command {
    pub target: Target,
    pub value: Real,
}

/// The byte that names a gain on the wire: `p`, `i` or `d`.
pub open spec fn tag_of(t: Target) -> u8 {
    match t {
        Target::Kp => 112,
        Target::Ki => 105,
        Target::Kd => 100,
    }
}

pub open spec fn target_of(b: u8) -> Option<Target> {
    if b == 112 {
        Some(Target::Kp)
    } else if b == 105 {
        Some(Target::Ki)
    } else if b == 100 {
        Some(Target::Kd)
    } else {
        None
    }
}

/// The four little-endian bytes of `x`.
pub open spec fn le_bytes(x: u32) -> Seq<u8> {
    seq![
        (x % 256) as u8,
        (x / 256 % 256) as u8,
        (x / 256 / 256 % 256) as u8,
        (x / 256 / 256 / 256) as u8,
    ]
}

/// A text command: the gain's tag, the value as decimal text, a newline.
pub open spec fn text_command(t: Target, text: Seq<u8>) -> Seq<u8> {
    seq![tag_of(t)] + text + seq![NEWLINE]
}

/// A binary command: the gain's tag, the value's single-precision bits
/// little-endian, a newline.
pub open spec fn binary_command(t: Target, bits: u32) -> Seq<u8> {
    seq![tag_of(t)] + le_bytes(bits) + seq![NEWLINE]
}

/// The command a frame (without its newline) stands for.
pub open spec fn command_of(codec: Codec, frame: Seq<u8>) -> Option<Command> {
    if frame.len() == 0 {
        None
    } else {
        match target_of(frame[0]) {
            None => None,
            Some(t) => match codec {
                Codec::Text => match decimal_of(frame.subrange(1, frame.len() as int)) {
                    Some(v) => Some(Command { target: t, value: v }),
                    None => None,
                },
                Codec::Binary => if frame.len() == 5 {
                    Some(Command { target: t, value: Real::Single(le_u32(frame, 1) as u32) })
                } else {
                    None
                },
            },
        }
    }
}

/// The wire tag of a gain.
pub fn tag(t: Target) -> (r: u8)
    ensures
        r == tag_of(t),
{
    match t {
        Target::Kp => 112,
        Target::Ki => 105,
        Target::Kd => 100,
    }
}

/// The gain a wire tag names, if any.
pub fn target_from_tag(b: u8) -> (r: Option<Target>)
    ensures
        r == target_of(b),
{
    if b == 112 {
        Some(Target::Kp)
    } else if b == 105 {
        Some(Target::Ki)
    } else if b == 100 {
        Some(Target::Kd)
    } else {
        None
    }
}

/// Builds the text command that sets `target` to the decimal written in
/// `value_text`, however many digits it has; `None` when that text is not a
/// decimal.
pub fn encode_text_command(target: Target, value_text: &[u8]) -> (r: Option<Vec<u8>>)
    ensures
        r is Some <==> decimal_text(value_text@) is Some,
        r is Some ==> r.unwrap()@ == text_command(target, value_text@),
{
    if !is_decimal_text(value_text) {
        return None;
    }
    let mut out: Vec<u8> = Vec::new();
    out.push(tag(target));
    let mut i: usize = 0;
    while i < value_text.len()
        invariant
            i <= value_text@.len(),
            out@ == seq![tag_of(target)] + value_text@.subrange(0, i as int),
        decreases value_text.len() - i,
    {
        out.push(value_text[i]);
        i = i + 1;
        assert(out@ =~= seq![tag_of(target)] + value_text@.subrange(0, i as int));
    }
    out.push(NEWLINE);
    assert(value_text@.subrange(0, value_text@.len() as int) =~= value_text@);
    assert(out@ =~= text_command(target, value_text@));
    Some(out)
}

/// Builds the binary command that sets `target` to the single-precision
/// number whose bit pattern is `bits`.
pub fn encode_binary_command(target: Target, bits: u32) -> (r: Vec<u8>)
    ensures
        r@ == binary_command(target, bits),
{
    let mut out: Vec<u8> = Vec::new();
    out.push(tag(target));
    out.push((bits % 256) as u8);
    out.push((bits / 256 % 256) as u8);
    out.push((bits / 256 / 256 % 256) as u8);
    out.push((bits / 256 / 256 / 256) as u8);
    out.push(NEWLINE);
    assert(out@ =~= binary_command(target, bits));
    out
}

/// Decodes a command frame (without its newline).
pub fn decode_command(codec: Codec, frame: &[u8]) -> (r: Option<Command>)
    ensures
        r == command_of(codec, frame@),
{
    if frame.len() == 0 {
        return None;
    }
    let t = match target_from_tag(frame[0]) {
        Some(t) => t,
        None => return None,
    };
    match codec {
        Codec::Text => {
            let rest = vstd::slice::slice_subrange(frame, 1, frame.len());
            assert(rest@ == frame@.subrange(1, frame@.len() as int));
            match parse_decimal(rest) {
                Some(v) => Some(Command { target: t, value: v }),
                None => None,
            }
        },
        Codec::Binary => {
            if frame.len() == 5 {
                Some(Command { target: t, value: Real::Single(read_u32(frame, 1)) })
            } else {
                None
            }
        },
    }
}

proof fn lemma_le_bytes(x: u32)
    ensures
        le_u32(seq![0u8] + le_bytes(x), 1) == x,
{
    let a = x as int;
    let b = a / 256;
    let c = b / 256;
    lemma_fundamental_div_mod(a, 256);
    lemma_fundamental_div_mod(b, 256);
    lemma_fundamental_div_mod(c, 256);
    assert(c / 256 < 256);
    let s = seq![0u8] + le_bytes(x);
    assert(s[1] == a % 256);
    assert(s[2] == b % 256);
    assert(s[3] == c % 256);
    assert(s[4] == c / 256);
}

/// A text command read back gives the target and exactly the decimal it was
/// built from.
pub proof fn lemma_text_command_round_trip(t: Target, text: Seq<u8>)
    requires
        decimal_of(text) is Some,
    ensures
        command_of(Codec::Text, text_command(t, text).drop_last()) == Some(
            Command { target: t, value: decimal_of(text).unwrap() },
        ),
{
    let frame = text_command(t, text).drop_last();
    assert(frame.subrange(1, frame.len() as int) =~= text);
}

/// A binary command read back gives the target and exactly the bit pattern
/// it was built from.
pub proof fn lemma_binary_command_round_trip(t: Target, bits: u32)
    ensures
        command_of(Codec::Binary, binary_command(t, bits).drop_last()) == Some(
            Command { target: t, value: Real::Single(bits) },
        ),
{
    let frame = binary_command(t, bits).drop_last();
    lemma_le_bytes(bits);
    assert(frame =~= seq![tag_of(t)] + le_bytes(bits));
    assert(le_u32(frame, 1) == le_u32(seq![0u8] + le_bytes(bits), 1));
}

} // verus!
