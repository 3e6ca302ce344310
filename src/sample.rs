//! Sample and amplitude arithmetic.
//!
//! A buffer is a sequence of signed 32-bit samples; frames of several channels are stored
//! interleaved, and every operation here works sample by sample, so the channel layout passes
//! through untouched. Amplitudes (the dry and wet mix coefficients) are fixed point numbers in
//! which [`UNITY`] stands for 1.0.

use vstd::prelude::*;

verus! {

/// One audio sample.
pub type Sample = i32;

/// A mix coefficient in fixed point: `UNITY` is 1.0, `UNITY / 2` is 0.5.
pub type Amplitude = u16;

/// The silent sample.
pub const EQUILIBRIUM: Sample = 0;

/// The amplitude that leaves a signal unchanged.
pub const UNITY: Amplitude = 32768;

/// `x` limited to the range of a sample.
pub open spec fn clamp_sample(x: int) -> int {
    if x < i32::MIN {
        i32::MIN as int
    } else if x > i32::MAX {
        i32::MAX as int
    } else {
        x
    }
}

/// Division that rounds toward zero, so that a signal and its negation scale alike.
pub open spec fn div_trunc(n: int, d: int) -> int {
    if n >= 0 {
        n / d
    } else {
        -((-n) / d)
    }
}

/// The sum of two samples, computed without wraparound and saturated to the sample range.
pub open spec fn add_spec(a: int, b: int) -> int {
    clamp_sample(a + b)
}

/// The dry/wet blend of one sample: `wet * wet_sample + dry * dry_sample`, with both
/// coefficients read as fractions of `UNITY`.
pub open spec fn blend_spec(wet_sample: int, dry_sample: int, wet: int, dry: int) -> int {
    clamp_sample(div_trunc(wet_sample * wet + dry_sample * dry, UNITY as int))
}

/// Adds two samples in a wider signed domain and saturates the result.
pub fn add_samples(a: Sample, b: Sample) -> (r: Sample)
    ensures
        r == add_spec(a as int, b as int),
{
    let s: i64 = a as i64 + b as i64;
    if s < i32::MIN as i64 {
        i32::MIN
    } else if s > i32::MAX as i64 {
        i32::MAX
    } else {
        s as i32
    }
}

proof fn lemma_scaled_sample_bounds(s: int, a: int)
    requires
        i32::MIN <= s <= i32::MAX,
        0 <= a <= u16::MAX,
    ensures
        -0x8000_0000 * 0x10000 <= s * a <= 0x8000_0000 * 0x10000,
{
    assert(-0x8000_0000 * 0x10000 <= s * a <= 0x8000_0000 * 0x10000) by (nonlinear_arith)
        requires
            -0x8000_0000 <= s < 0x8000_0000,
            0 <= a < 0x10000,
    ;
}

/// Blends one wet (rendered) sample with one dry (input) sample.
pub fn blend_samples(wet_sample: Sample, dry_sample: Sample, wet: Amplitude, dry: Amplitude) -> (r:
    Sample)
    ensures
        r == blend_spec(wet_sample as int, dry_sample as int, wet as int, dry as int),
{
    proof {
        lemma_scaled_sample_bounds(wet_sample as int, wet as int);
        lemma_scaled_sample_bounds(dry_sample as int, dry as int);
    }
    let w: i64 = wet_sample as i64 * wet as i64;
    let d: i64 = dry_sample as i64 * dry as i64;
    let n: i64 = w + d;
    let unity: i64 = UNITY as i64;
    let q: i64 = if n >= 0 {
        n / unity
    } else {
        -((-n) / unity)
    };
    if q < i32::MIN as i64 {
        i32::MIN
    } else if q > i32::MAX as i64 {
        i32::MAX
    } else {
        q as i32
    }
}

/// Sets every sample of `buffer` to silence.
pub fn fill_equilibrium(buffer: &mut [Sample])
    ensures
        final(buffer)@.len() == old(buffer)@.len(),
        forall|i: int| 0 <= i < final(buffer)@.len() ==> final(buffer)@[i] == EQUILIBRIUM,
{
    let n = buffer.len();
    let mut i: usize = 0;
    while i < n
        invariant
            n == buffer@.len(),
            0 <= i <= n,
            forall|j: int| 0 <= j < i ==> buffer@[j] == EQUILIBRIUM,
        decreases n - i,
    {
        buffer[i] = EQUILIBRIUM;
        i = i + 1;
    }
}

/// Adds `input` into `output`, sample by sample.
pub fn sum_into(output: &mut [Sample], input: &[Sample])
    requires
        old(output)@.len() == input@.len(),
    ensures
        final(output)@.len() == old(output)@.len(),
        forall|i: int|
            0 <= i < final(output)@.len() ==> final(output)@[i] == add_spec(
                old(output)@[i] as int,
                input@[i] as int,
            ),
{
    let n = output.len();
    let mut i: usize = 0;
    while i < n
        invariant
            n == output@.len(),
            n == input@.len(),
            0 <= i <= n,
            forall|j: int|
                0 <= j < i ==> output@[j] == add_spec(old(output)@[j] as int, input@[j] as int),
            forall|j: int| i <= j < n ==> output@[j] == old(output)@[j],
        decreases n - i,
    {
        let s = add_samples(output[i], input[i]);
        output[i] = s;
        i = i + 1;
    }
}

/// Copies `source` into `target`.
pub fn write_into(target: &mut [Sample], source: &[Sample])
    requires
        old(target)@.len() == source@.len(),
    ensures
        final(target)@ == source@,
{
    let n = target.len();
    let mut i: usize = 0;
    while i < n
        invariant
            n == target@.len(),
            n == source@.len(),
            0 <= i <= n,
            forall|j: int| 0 <= j < i ==> target@[j] == source@[j],
        decreases n - i,
    {
        target[i] = source[i];
        i = i + 1;
    }
    assert(target@ =~= source@);
}

/// Combines the rendered (wet) signal in `output` with the summed input (dry) signal in
/// `dry_buffer`: each sample becomes `wet * output[i] + dry * dry_buffer[i]`.
pub fn blend_into(output: &mut [Sample], dry_buffer: &[Sample], wet: Amplitude, dry: Amplitude)
    requires
        old(output)@.len() == dry_buffer@.len(),
    ensures
        final(output)@.len() == old(output)@.len(),
        forall|i: int|
            0 <= i < final(output)@.len() ==> final(output)@[i] == blend_spec(
                old(output)@[i] as int,
                dry_buffer@[i] as int,
                wet as int,
                dry as int,
            ),
{
    let n = output.len();
    let mut i: usize = 0;
    while i < n
        invariant
            n == output@.len(),
            n == dry_buffer@.len(),
            0 <= i <= n,
            forall|j: int|
                0 <= j < i ==> output@[j] == blend_spec(
                    old(output)@[j] as int,
                    dry_buffer@[j] as int,
                    wet as int,
                    dry as int,
                ),
            forall|j: int| i <= j < n ==> output@[j] == old(output)@[j],
        decreases n - i,
    {
        let s = blend_samples(output[i], dry_buffer[i], wet, dry);
        output[i] = s;
        i = i + 1;
    }
}

/// Resizes `buffer` to `target_len` samples: a longer buffer is truncated, a shorter one is
/// extended with silence.
pub fn resize_buffer_to(buffer: &mut Vec<Sample>, target_len: usize)
    ensures
        final(buffer)@.len() == target_len,
        forall|i: int|
            0 <= i < target_len ==> final(buffer)@[i] == if i < old(buffer)@.len() {
                old(buffer)@[i]
            } else {
                EQUILIBRIUM
            },
{
    let len = buffer.len();
    if len < target_len {
        let mut k: usize = len;
        while k < target_len
            invariant
                len <= k <= target_len,
                buffer@.len() == k,
                forall|i: int| 0 <= i < len ==> buffer@[i] == old(buffer)@[i],
                forall|i: int| len <= i < k ==> buffer@[i] == EQUILIBRIUM,
            decreases target_len - k,
        {
            buffer.push(EQUILIBRIUM);
            k = k + 1;
        }
    } else if len > target_len {
        buffer.truncate(target_len);
    }
}

} // verus!
