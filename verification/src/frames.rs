//! Wire format between the app and the Whisper sidecar.
//!
//! Per job the app writes a little-endian `u32` sample count, then that many
//! little-endian 32-bit samples; the sidecar answers with exactly one text
//! line. Samples travel as their IEEE-754 bit patterns (`f32::to_bits`), so
//! this module never touches floating point.

use vstd::prelude::*;

verus! {

/// The little-endian bytes of `x`.
pub open spec fn le_bytes(x: u32) -> Seq<u8> {
    seq![(x % 256) as u8, ((x / 256) % 256) as u8, ((x / 65536) % 256) as u8, (x / 16777216) as u8]
}

/// The `u32` whose little-endian bytes are `b[0..4]`.
pub open spec fn from_le(b: Seq<u8>) -> u32 {
    (b[0] + 256 * b[1] + 65536 * b[2] + 16777216 * b[3]) as u32
}

/// The sample count as it is written in the frame header: the count modulo
/// 2^32.
pub open spec fn header_count(n: nat) -> u32 {
    (n % 4294967296) as u32
}

/// The little-endian bytes of every sample, in order.
pub open spec fn sample_bytes(samples: Seq<u32>) -> Seq<u8>
    decreases samples.len(),
{
    if samples.len() == 0 {
        Seq::<u8>::empty()
    } else {
        sample_bytes(samples.drop_last()) + le_bytes(samples.last())
    }
}

/// One job frame: the count header followed by the samples.
pub open spec fn frame(samples: Seq<u32>) -> Seq<u8> {
    le_bytes(header_count(samples.len())) + sample_bytes(samples)
}

/// The samples encoded by `bytes`, four bytes each (a trailing partial
/// sample is ignored, as `chunks_exact` does).
pub open spec fn decoded(bytes: Seq<u8>) -> Seq<u32> {
    Seq::new(bytes.len() / 4, |i: int| from_le(bytes.subrange(4 * i, 4 * i + 4)))
}

pub proof fn lemma_le_round_trip(x: u32)
    ensures
        from_le(le_bytes(x)) == x,
{
    let b = le_bytes(x);
    assert(b[0] + 256 * b[1] + 65536 * b[2] + 16777216 * b[3] == x) by (nonlinear_arith)
        requires
            b[0] == x % 256,
            b[1] == (x / 256) % 256,
            b[2] == (x / 65536) % 256,
            b[3] == x / 16777216,
            x < 4294967296,
    ;
}

fn push_le(buf: &mut Vec<u8>, x: u32)
    ensures
        final(buf)@ == old(buf)@ + le_bytes(x),
{
    buf.push((x % 256) as u8);
    buf.push(((x / 256) % 256) as u8);
    buf.push(((x / 65536) % 256) as u8);
    buf.push((x / 16777216) as u8);
    proof {
        assert(final(buf)@ =~= old(buf)@ + le_bytes(x));
    }
}

/// Wire frame: `u32` LE sample count, then the samples (as `f32` bit
/// patterns), each `u32` LE.
pub fn encode_frame(samples: &[u32]) -> (buf: Vec<u8>)
    ensures
        buf@ == frame(samples@),
{
    let mut buf: Vec<u8> = Vec::new();
    let count = ((samples.len() as u64) % 4294967296) as u32;
    push_le(&mut buf, count);
    let ghost head = buf@;
    proof {
        assert(samples@.take(0) =~= Seq::<u32>::empty());
        assert(buf@ =~= head + sample_bytes(samples@.take(0)));
    }
    for k in 0..samples.len()
        invariant
            head == le_bytes(header_count(samples@.len())),
            buf@ == head + sample_bytes(samples@.take(k as int)),
    {
        push_le(&mut buf, samples[k]);
        proof {
            assert(samples@.take(k + 1).drop_last() =~= samples@.take(k as int));
            assert(samples@.take(k + 1).last() == samples@[k as int]);
            assert(buf@ =~= head + sample_bytes(samples@.take(k + 1)));
        }
    }
    proof {
        assert(samples@.take(samples.len() as int) =~= samples@);
    }
    buf
}

/// The sample count announced by a frame header.
pub fn header_sample_count(header: &[u8; 4]) -> (n: u32)
    ensures
        n == from_le(header@),
{
    (header[0] as u32) + (header[1] as u32) * 256 + (header[2] as u32) * 65536 + (header[3] as u32)
        * 16777216
}

/// Bytes of sample data that follow a header announcing `count` samples;
/// `None` when that does not fit in memory addresses.
pub fn payload_len(count: u32) -> (n: Option<usize>)
    ensures
        n matches Some(b) ==> b == 4 * count,
        n is None ==> 4 * count > usize::MAX,
{
    (count as usize).checked_mul(4)
}

/// The samples encoded by `bytes`, four little-endian bytes each.
pub fn decode_samples(bytes: &[u8]) -> (samples: Vec<u32>)
    ensures
        samples@ == decoded(bytes@),
{
    let n = bytes.len() / 4;
    let mut samples: Vec<u32> = Vec::new();
    for i in 0..n
        invariant
            n == bytes@.len() / 4,
            samples@ == decoded(bytes@).take(i as int),
    {
        proof {
            assert(4 * i + 4 <= bytes@.len()) by (nonlinear_arith)
                requires
                    i < n,
                    n == bytes@.len() / 4,
            ;
            assert(bytes@.len() == bytes.len());
        }
        let b0 = bytes[4 * i];
        let b1 = bytes[4 * i + 1];
        let b2 = bytes[4 * i + 2];
        let b3 = bytes[4 * i + 3];
        let x = (b0 as u32) + (b1 as u32) * 256 + (b2 as u32) * 65536 + (b3 as u32) * 16777216;
        samples.push(x);
        proof {
            let sub = bytes@.subrange(4 * i, 4 * i + 4);
            assert(sub[0] == b0 && sub[1] == b1 && sub[2] == b2 && sub[3] == b3);
            assert(decoded(bytes@).take(i + 1) =~= decoded(bytes@).take(i as int).push(x));
        }
    }
    proof {
        assert(decoded(bytes@).take(n as int) =~= decoded(bytes@));
    }
    samples
}

/// What one `Read::read` call into the unfilled rest of a buffer returned.
pub enum ReadOutcome {
    /// `Ok(n)`: `n` bytes were read (`0` means end of input).
    Read(usize),
    /// `Err` of kind `Interrupted`: retry.
    Interrupted,
    /// Any other error.
    Failed,
}

/// Progress of filling a buffer with exactly `want` bytes.
pub enum FillState {
    /// `filled` bytes so far; read more.
    Pending(usize),
    /// The buffer is full.
    Filled,
    /// Input ended first (clean shutdown or a truncated record).
    Ended,
    /// An I/O error other than an interruption.
    Failed,
}

/// Starting state for filling `want` bytes.
pub fn fill_start(want: usize) -> (s: FillState)
    ensures
        want == 0 ==> s is Filled,
        want > 0 ==> s == FillState::Pending(0),
{
    if want == 0 {
        FillState::Filled
    } else {
        FillState::Pending(0)
    }
}

/// Next state after one read into the rest of a buffer of `want` bytes, of
/// which `filled` are already in. A read returns at most the space left.
pub fn fill_step(filled: usize, want: usize, outcome: ReadOutcome) -> (s: FillState)
    requires
        filled < want,
        outcome matches ReadOutcome::Read(n) ==> n <= want - filled,
    ensures
        outcome matches ReadOutcome::Read(n) ==> (if n == 0 {
            s is Ended
        } else if filled + n == want {
            s is Filled
        } else {
            s == FillState::Pending((filled + n) as usize)
        }),
        outcome is Interrupted ==> s == FillState::Pending(filled),
        outcome is Failed ==> s is Failed,
{
    match outcome {
        ReadOutcome::Read(n) => {
            if n == 0 {
                FillState::Ended
            } else if filled + n == want {
                FillState::Filled
            } else {
                FillState::Pending(filled + n)
            }
        },
        ReadOutcome::Interrupted => FillState::Pending(filled),
        ReadOutcome::Failed => FillState::Failed,
    }
}

/// Frames decode back to what was encoded: the header announces the number
/// of samples (when it fits in 32 bits) and the payload decodes to exactly
/// the samples.
pub proof fn law_frame_round_trip(samples: Seq<u32>)
    requires
        samples.len() <= u32::MAX,
    ensures
        from_le(frame(samples).take(4)) == samples.len(),
        decoded(frame(samples).skip(4)) == samples,
{
    let f = frame(samples);
    let b = sample_bytes(samples);
    assert(f.take(4) =~= le_bytes(header_count(samples.len())));
    lemma_le_round_trip(header_count(samples.len()));
    assert(header_count(samples.len()) == samples.len());
    assert(f.skip(4) =~= b);
    lemma_sample_bytes(samples);
    let n = samples.len();
    assert(b.len() / 4 == n) by (nonlinear_arith)
        requires
            b.len() == 4 * n,
    ;
    assert forall|i: int| 0 <= i < n implies decoded(b)[i] == samples[i] by {
        assert(decoded(b)[i] == from_le(b.subrange(4 * i, 4 * i + 4)));
    }
    assert(decoded(b) =~= samples);
}

proof fn lemma_sample_bytes(samples: Seq<u32>)
    ensures
        sample_bytes(samples).len() == 4 * samples.len(),
        forall|i: int| 0 <= i < samples.len() ==> #[trigger] sample_bytes(samples).subrange(4 * i, 4 * i + 4) == le_bytes(samples[i]),
        forall|i: int| 0 <= i < samples.len() ==> from_le(#[trigger] sample_bytes(samples).subrange(4 * i, 4 * i + 4)) == samples[i],
    decreases samples.len(),
{
    if samples.len() > 0 {
        let front = samples.drop_last();
        lemma_sample_bytes(front);
        let b = sample_bytes(samples);
        let fb = sample_bytes(front);
        assert forall|i: int| 0 <= i < samples.len() implies #[trigger] b.subrange(4 * i, 4 * i + 4) == le_bytes(samples[i]) by {
            if i < front.len() {
                assert(b.subrange(4 * i, 4 * i + 4) =~= fb.subrange(4 * i, 4 * i + 4));
                assert(front[i] == samples[i]);
            } else {
                assert(b.subrange(4 * i, 4 * i + 4) =~= le_bytes(samples.last()));
            }
        }
        assert forall|i: int| 0 <= i < samples.len() implies from_le(#[trigger] b.subrange(4 * i, 4 * i + 4)) == samples[i] by {
            assert(b.subrange(4 * i, 4 * i + 4) == le_bytes(samples[i]));
            lemma_le_round_trip(samples[i]);
        }
    }
}

} // verus!
