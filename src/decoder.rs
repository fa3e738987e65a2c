//! Turning a byte stream into frames and decoded samples.
use vstd::prelude::*;
use crate::message::{Msg, decode_text, decode_binary, text_msg, binary_msg, COMMA, TEXT_FIELDS};
use crate::split::{split_on, count_of, lemma_split_len, lemma_count_concat, lemma_split_single};

verus! {

pub const NEWLINE: u8 = 10;

/// Which layout the frames of a link use.
#[derive(Clone, Copy, Debug, PartialEq, Eq, Structural)]
pub enum Codec {
    /// Fixed 22-byte little-endian records.
    Binary,
    /// Comma-separated decimal text.
    Text,
}

pub open spec fn frame_msg(codec: Codec, frame: Seq<u8>) -> Option<Msg> {
    match codec {
        Codec::Binary => binary_msg(frame),
        Codec::Text => text_msg(frame),
    }
}

/// The complete frames of a stream: every piece that a newline ends.
pub open spec fn frames_of(s: Seq<u8>) -> Seq<Seq<u8>> {
    split_on(s, NEWLINE).drop_last()
}

/// What is left after the last newline of a stream.
pub open spec fn rest_of(s: Seq<u8>) -> Seq<u8> {
    split_on(s, NEWLINE).last()
}

/// Decodes one frame (without its newline) with the given layout.
pub fn decode_frame(codec: Codec, frame: &[u8]) -> (r: Option<Msg>)
    ensures
        r == frame_msg(codec, frame@),
{
    match codec {
        Codec::Binary => decode_binary(frame),
        Codec::Text => decode_text(frame),
    }
}

/// Accumulates bytes until a newline, then hands out the frame together
/// with what it decodes to.
pub struct FrameDecoder {
    codec: Codec,
    pending: Vec<u8>,
}

impl FrameDecoder {
    /// The layout this decoder reads.
    pub closed spec fn codec(&self) -> Codec {
        self.codec
    }

    /// Bytes received since the last newline.
    pub closed spec fn pending(&self) -> Seq<u8> {
        self.pending@
    }

    /// Nothing pending holds a newline: every newline has ended a frame.
    pub open spec fn wf(&self) -> bool {
        count_of(self.pending(), NEWLINE) == 0
    }

    pub fn new(codec: Codec) -> (r: FrameDecoder)
        ensures
            r.wf(),
            r.codec() == codec,
            r.pending() == Seq::<u8>::empty(),
    {
        FrameDecoder { codec, pending: Vec::new() }
    }

    /// Takes one byte. A newline ends the frame: its bytes come back with the
    /// decoded sample (`None` when they do not decode) and the accumulator
    /// is cleared. Any other byte is kept.
    pub fn push_byte(&mut self, b: u8) -> (r: Option<(Option<Msg>, Vec<u8>)>)
        requires
            old(self).wf(),
        ensures
            final(self).wf(),
            final(self).codec() == old(self).codec(),
            b == NEWLINE ==> final(self).pending() == Seq::<u8>::empty() && r is Some
                && r.unwrap().1@ == old(self).pending() && r.unwrap().0 == frame_msg(
                old(self).codec(),
                old(self).pending(),
            ),
            b != NEWLINE ==> final(self).pending() == old(self).pending().push(b) && r is None,
    {
        if b == NEWLINE {
            let frame = self.pending.split_off(0);
            let msg = decode_frame(self.codec, frame.as_slice());
            proof {
                assert(count_of(self.pending@, NEWLINE) == 0);
            }
            Some((msg, frame))
        } else {
            self.pending.push(b);
            proof {
                assert(self.pending@.drop_last() =~= old(self).pending@);
            }
            None
        }
    }

    /// Takes a run of bytes and returns, in order, one pair for every
    /// newline among them.
    pub fn feed(&mut self, bytes: &[u8]) -> (r: Vec<(Option<Msg>, Vec<u8>)>)
        requires
            old(self).wf(),
        ensures
            final(self).wf(),
            final(self).codec() == old(self).codec(),
            r@.len() == frames_of(old(self).pending() + bytes@).len(),
            forall|j: int|
                0 <= j < r@.len() ==> (#[trigger] r@[j]).1@ == frames_of(old(self).pending() + bytes@)[j]
                    && r@[j].0 == frame_msg(old(self).codec(), r@[j].1@),
            final(self).pending() == rest_of(old(self).pending() + bytes@),
    {
        let ghost start = self.pending@;
        let mut out: Vec<(Option<Msg>, Vec<u8>)> = Vec::new();
        let mut i: usize = 0;
        proof {
            lemma_split_single(start, NEWLINE);
            assert(start + bytes@.subrange(0, 0) =~= start);
        }
        while i < bytes.len()
            invariant
                i <= bytes@.len(),
                self.wf(),
                self.codec == old(self).codec(),
                split_on(start + bytes@.subrange(0, i as int), NEWLINE) == out@.map_values(
                    |p: (Option<Msg>, Vec<u8>)| p.1@,
                ).push(self.pending@),
                forall|j: int|
                    0 <= j < out@.len() ==> (#[trigger] out@[j]).0 == frame_msg(self.codec, out@[j].1@),
            decreases bytes.len() - i,
        {
            let ghost prefix = start + bytes@.subrange(0, i as int);
            let ghost before = out@;
            assert((start + bytes@.subrange(0, i as int + 1)).drop_last() =~= prefix);
            let b = bytes[i];
            let got = self.push_byte(b);
            match got {
                Some(p) => {
                    out.push(p);
                },
                None => {},
            }
            i = i + 1;
            assert(split_on(start + bytes@.subrange(0, i as int), NEWLINE) =~= out@.map_values(
                |p: (Option<Msg>, Vec<u8>)| p.1@,
            ).push(self.pending@));
        }
        assert(start + bytes@.subrange(0, bytes@.len() as int) =~= start + bytes@);
        out
    }
}

/// However the bytes arrive, a decoder with nothing pending hands out exactly
/// one frame per newline in them: none is lost and none is repeated.
pub proof fn lemma_one_frame_per_newline(pending: Seq<u8>, bytes: Seq<u8>)
    requires
        count_of(pending, NEWLINE) == 0,
    ensures
        frames_of(pending + bytes).len() == count_of(bytes, NEWLINE),
{
    lemma_split_len(pending + bytes, NEWLINE);
    lemma_count_concat(pending, bytes, NEWLINE);
}

/// A text frame with too few or too many fields never decodes, and once its
/// newline arrives it is handed out as it was received.
pub proof fn lemma_wrong_arity_rejected(frame: Seq<u8>)
    requires
        count_of(frame, NEWLINE) == 0,
        split_on(frame, COMMA).len() != TEXT_FIELDS,
    ensures
        frame_msg(Codec::Text, frame) is None,
        frames_of(frame.push(NEWLINE)) == seq![frame],
{
    lemma_split_single(frame, NEWLINE);
    assert(frame.push(NEWLINE).drop_last() =~= frame);
    assert(frames_of(frame.push(NEWLINE)) =~= seq![frame]);
}

} // verus!
