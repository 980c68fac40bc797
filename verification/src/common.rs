//! Rates and sizes of the echo canceller.
use vstd::prelude::*;

verus! {

/// Samples per block.
pub const BLOCK_SIZE: usize = 64;

/// Half the length of a transform.
pub const FFT_LENGTH_BY_2: usize = 64;

/// Number of frequency bins of a transform.
pub const FFT_LENGTH_BY_2_PLUS_1: usize = 65;

/// Whether the echo canceller runs at a full-band rate.
pub open spec fn is_full_band_rate(sample_rate_hz: usize) -> bool {
    sample_rate_hz == 16000 || sample_rate_hz == 32000 || sample_rate_hz == 48000
}

/// Whether the echo canceller runs at a full-band rate.
pub fn valid_full_band_rate(sample_rate_hz: usize) -> (valid: bool)
    ensures
        valid == is_full_band_rate(sample_rate_hz),
        valid <==> sample_rate_hz % 16000 == 0 && 0 < sample_rate_hz <= 48000,
{
    sample_rate_hz == 16000 || sample_rate_hz == 32000 || sample_rate_hz == 48000
}

/// A full-band rate holds one, two or three bands of 16 kHz.
pub proof fn lemma_full_band_rates(sample_rate_hz: usize)
    ensures
        is_full_band_rate(sample_rate_hz) <==> exists|k: int|
            1 <= k <= 3 && sample_rate_hz == #[trigger] (16000 * k),
{
    if is_full_band_rate(sample_rate_hz) {
        let k = (sample_rate_hz / 16000) as int;
        assert(1 <= k <= 3 && sample_rate_hz == 16000 * k);
    }
}

/// Number of 16 kHz bands of a full-band rate.
pub fn num_bands_for_rate(sample_rate_hz: usize) -> (n: usize)
    requires
        is_full_band_rate(sample_rate_hz),
    ensures
        n * 16000 == sample_rate_hz,
        1 <= n <= 3,
{
    sample_rate_hz / 16000
}

} // verus!
