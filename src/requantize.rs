//! Bit-depth requantization with dither drawn from `[-1, 1)` and error
//! feedback (noise shaping). Each call owns its carried error, which starts at zero.
use vstd::prelude::*;

use rand::rngs::StdRng;
use rand::Rng;

use crate::error::AudioError;

verus! {

#[verifier::external_type_specification]
#[verifier::external_body]
pub struct ExStdRng(StdRng);

/// Relies on rand's `Rng::gen_range` over a half-open integer range `low..high`:
/// the value drawn lies in it; the call panics on an empty range, which
/// `requires` leaves out.
#[verifier::external_body]
fn draw_in_range(rng: &mut StdRng, low: i32, high: i32) -> (r: i32)
    requires
        low < high,
    ensures
        low <= r < high,
{
    rng.gen_range(low..high)
}

/// Dither values are fixed-point numbers: `d` stands for `d / DITHER_ONE`,
/// so the dither interval `[-1.0, 1.0)` is `[-DITHER_ONE, DITHER_ONE)`.
pub const DITHER_ONE: i64 = 65536;

/// Largest source depth whose samples an `i32` can carry.
pub const MAX_SOURCE_BITS: u16 = 32;

/// The target depths that the requantizer produces.
pub open spec fn valid_target_bits(bits: u16) -> bool {
    bits == 8 || bits == 16 || bits == 24 || bits == 32
}

/// The error that a requantization request is rejected with, if any.
pub open spec fn config_error(source_bits: u16, target_bits: u16) -> Option<AudioError> {
    if !valid_target_bits(target_bits) || source_bits < target_bits {
        Some(AudioError::ConfigurationError)
    } else if source_bits > MAX_SOURCE_BITS {
        Some(AudioError::DomainError)
    } else {
        None
    }
}

/// `2^k`.
pub open spec fn pow2(k: nat) -> int
    decreases k,
{
    if k == 0 {
        1
    } else {
        2 * pow2((k - 1) as nat)
    }
}

/// Integer division rounding toward zero, for a positive divisor.
pub open spec fn div_toward_zero(a: int, d: int) -> int {
    if a >= 0 {
        a / d
    } else {
        -((-a) / d)
    }
}

/// `floor(scaled + dither / DITHER_ONE + 0.8 * prev_err)`.
pub open spec fn quantized(scaled: int, dither: int, prev_err: int) -> int {
    (5 * DITHER_ONE * scaled + 5 * dither + 4 * DITHER_ONE * prev_err) / (5 * DITHER_ONE)
}

/// `round(0.9 * q)`, halves rounded away from zero.
pub open spec fn amplified(q: int) -> int {
    if q >= 0 {
        (9 * q + 5) / 10
    } else {
        -((-9 * q + 5) / 10)
    }
}

/// A dither value in `[-1.0, 1.0)`.
pub open spec fn dither_in_range(d: i32) -> bool {
    -DITHER_ONE <= d < DITHER_ONE
}

/// A dither sequence with one value in range for each of `n` samples.
pub open spec fn dither_fits(dither: Seq<i32>, n: nat) -> bool {
    &&& dither.len() == n
    &&& forall|i: int| 0 <= i < dither.len() ==> dither_in_range(#[trigger] dither[i])
}

/// The sample at `i`, divided down by `scale`.
pub open spec fn scaled_at(samples: Seq<i32>, scale: int, i: int) -> int {
    div_toward_zero(samples[i] as int, scale)
}

/// The quantization error carried into sample `i`: zero at the start, then
/// each scaled sample minus its quantized value.
pub open spec fn error_before(samples: Seq<i32>, dither: Seq<i32>, scale: int, i: nat) -> int
    decreases i,
{
    if i == 0 {
        0
    } else {
        let j = (i - 1) as int;
        let s = scaled_at(samples, scale, j);
        s - quantized(s, dither[j] as int, error_before(samples, dither, scale, (i - 1) as nat))
    }
}

/// The output sample at `i`.
pub open spec fn requantized_at(samples: Seq<i32>, dither: Seq<i32>, scale: int, i: int) -> int {
    let s = scaled_at(samples, scale, i);
    amplified(quantized(s, dither[i] as int, error_before(samples, dither, scale, i as nat)))
}

/// The buffer that an accepted request produces: the input itself when the
/// depths are equal, else the dithered, error-shaped, amplified samples
/// (each of which lies within `i32`, see `requantize_step`).
pub open spec fn requantized(
    samples: Seq<i32>,
    source_bits: u16,
    target_bits: u16,
    dither: Seq<i32>,
) -> Seq<i32> {
    if source_bits == target_bits {
        samples
    } else {
        let scale = pow2((source_bits - target_bits) as nat);
        Seq::new(samples.len(), |i: int| requantized_at(samples, dither, scale, i) as i32)
    }
}

/// Every sample lies in the signed range of `bits` bits.
pub open spec fn fits_bits(samples: Seq<i32>, bits: u16) -> bool {
    forall|i: int|
        0 <= i < samples.len() ==> -pow2((bits - 1) as nat) <= #[trigger] samples[i] < pow2(
            (bits - 1) as nat,
        )
}

/// Checks a requantization request.
pub fn check_config(source_bits: u16, target_bits: u16) -> (r: Option<AudioError>)
    ensures
        r == config_error(source_bits, target_bits),
{
    if !(target_bits == 8 || target_bits == 16 || target_bits == 24 || target_bits == 32)
        || source_bits < target_bits {
        Some(AudioError::ConfigurationError)
    } else if source_bits > MAX_SOURCE_BITS {
        Some(AudioError::DomainError)
    } else {
        None
    }
}

/// One step of the error-feedback quantizer: from a scaled sample, its
/// dither and the error carried in, the output sample and the error carried
/// on.
pub fn requantize_step(scaled: i32, dither: i32, prev_err: i32) -> (r: (i32, i32))
    requires
        dither_in_range(dither),
        -10 <= prev_err <= 10,
    ensures
        r.0 == amplified(quantized(scaled as int, dither as int, prev_err as int)),
        r.1 == scaled - quantized(scaled as int, dither as int, prev_err as int),
        -8 <= r.1 <= 9,
{
    let e64: i64 = prev_err as i64;
    assert(-40 * DITHER_ONE <= 4 * DITHER_ONE * e64 <= 40 * DITHER_ONE) by (nonlinear_arith)
        requires -10 <= e64 <= 10;
    let t: i64 = 5 * (dither as i64) + 4 * DITHER_ONE * e64;
    assert(-45 * DITHER_ONE <= t < 45 * DITHER_ONE);
    let shifted: i64 = (t + 45 * DITHER_ONE) / (5 * DITHER_ONE);
    assert(0 <= shifted <= 17);
    let fl: i64 = shifted - 9;
    let q: i64 = scaled as i64 + fl;
    proof {
        let m: int = 5 * DITHER_ONE;
        let ti: int = t as int;
        let si: int = scaled as int;
        assert(fl == ti / m);
        assert((m * si + ti) / m == si + ti / m) by (nonlinear_arith)
            requires m > 0;
        assert(quantized(scaled as int, dither as int, prev_err as int) == q);
    }
    assert(-2147483657 <= q <= 2147483655);
    let out: i64 = if q >= 0 {
        (9 * q + 5) / 10
    } else {
        let nq: i64 = -q;
        -((9 * nq + 5) / 10)
    };
    assert(i32::MIN <= out <= i32::MAX);
    ((out as i32), (-fl) as i32)
}

/// `2^k`, for the shifts that a valid request needs.
fn scale_factor(k: u16) -> (r: i64)
    requires
        k <= 24,
    ensures
        r == pow2(k as nat),
        1 <= r <= 16777216,
{
    proof {
        reveal_with_fuel(pow2, 25);
        assert(pow2(24) == 16777216);
    }
    let mut r: i64 = 1;
    let mut i: u16 = 0;
    while i < k
        invariant
            i <= k <= 24,
            r == pow2(i as nat),
            pow2(24) == 16777216,
        decreases k - i,
    {
        proof {
            lemma_pow2_monotone((i + 1) as nat, 24);
        }
        r = r * 2;
        i = i + 1;
    }
    proof {
        lemma_pow2_monotone(k as nat, 24);
    }
    r
}

proof fn lemma_pow2_monotone(a: nat, b: nat)
    requires
        a <= b,
    ensures
        1 <= pow2(a) <= pow2(b),
    decreases b,
{
    if b > a {
        lemma_pow2_monotone(a, (b - 1) as nat);
    } else if a > 0 {
        lemma_pow2_monotone((a - 1) as nat, (a - 1) as nat);
    }
}

/// Requantizes `samples` from `source_bits` to `target_bits`, taking the
/// dither for sample `i` from `dither[i]` (fixed point, see `DITHER_ONE`).
/// Equal depths leave the buffer as it is.
pub fn requantize_with_dither(
    samples: &Vec<i32>,
    source_bits: u16,
    target_bits: u16,
    dither: &Vec<i32>,
) -> (r: Result<Vec<i32>, AudioError>)
    requires
        dither_fits(dither@, samples@.len()),
    ensures
        match r {
            Ok(v) => config_error(source_bits, target_bits) is None && v@ == requantized(
                samples@,
                source_bits,
                target_bits,
                dither@,
            ),
            Err(e) => config_error(source_bits, target_bits) == Some(e),
        },
        fits_bits(samples@, source_bits) ==> (r matches Ok(v) ==> fits_bits(v@, target_bits)),
        config_error(source_bits, target_bits) is None ==> (r matches Ok(v) && v@.len()
            == samples@.len()),
{
    if let Some(e) = check_config(source_bits, target_bits) {
        return Err(e);
    }
    proof {
        if fits_bits(samples@, source_bits) {
            lemma_requantized_fits_target(samples@, source_bits, target_bits, dither@);
        }
    }
    if source_bits == target_bits {
        return Ok(samples.clone());
    }
    let scale: i64 = scale_factor(source_bits - target_bits);
    let ghost sc: int = scale as int;
    let mut out: Vec<i32> = Vec::new();
    let mut err: i32 = 0;
    let mut i: usize = 0;
    while i < samples.len()
        invariant
            sc == scale,
            1 <= scale,
            i <= samples@.len(),
            dither_fits(dither@, samples@.len()),
            out@.len() == i,
            forall|j: int| 0 <= j < i ==> out@[j] == requantized_at(samples@, dither@, sc, j) as i32,
            err == error_before(samples@, dither@, sc, i as nat),
            -10 <= err <= 10,
        decreases samples@.len() - i,
    {
        let a: i64 = samples[i] as i64;
        let scaled: i64 = if a >= 0 {
            a / scale
        } else {
            -((-a) / scale)
        };
        proof {
            assert(0 <= (if a >= 0 { a as int } else { -a }) / sc <= (if a >= 0 { a as int } else { -a }))
                by (nonlinear_arith)
                requires sc >= 1, (if a >= 0 { a as int } else { -a }) >= 0;
        }
        assert(scaled == scaled_at(samples@, sc, i as int));
        assert(dither_in_range(dither@[i as int]));
        let (o, e) = requantize_step(scaled as i32, dither[i], err);
        out.push(o);
        err = e;
        i = i + 1;
    }
    assert(out@ =~= requantized(samples@, source_bits, target_bits, dither@));
    Ok(out)
}

/// Draws one dither value in `[-1.0, 1.0)` for each of `n` samples.
pub fn draw_dither(rng: &mut StdRng, n: usize) -> (r: Vec<i32>)
    ensures
        dither_fits(r@, n as nat),
{
    let mut d: Vec<i32> = Vec::new();
    let low: i32 = -65536;
    let high: i32 = 65536;
    assert(low == -DITHER_ONE && high == DITHER_ONE);
    while d.len() < n
        invariant
            low == -DITHER_ONE && high == DITHER_ONE,
            d@.len() <= n,
            forall|i: int| 0 <= i < d@.len() ==> dither_in_range(#[trigger] d@[i]),
        decreases n - d@.len(),
    {
        let x = draw_in_range(rng, low, high);
        d.push(x);
    }
    d
}

/// Requantizes `samples` from `source_bits` to `target_bits` with dither
/// drawn from `rng`. Equal depths leave the buffer as it is; an empty buffer
/// gives an empty one.
pub fn requantize(samples: &Vec<i32>, source_bits: u16, target_bits: u16, rng: &mut StdRng) -> (r:
    Result<Vec<i32>, AudioError>)
    ensures
        match r {
            Ok(v) => {
                &&& config_error(source_bits, target_bits) is None
                &&& v@.len() == samples@.len()
                &&& exists|d: Seq<i32>|
                    dither_fits(d, samples@.len()) && v@ == #[trigger] requantized(
                        samples@,
                        source_bits,
                        target_bits,
                        d,
                    )
                &&& fits_bits(samples@, source_bits) ==> fits_bits(v@, target_bits)
            },
            Err(e) => config_error(source_bits, target_bits) == Some(e),
        },
        !valid_target_bits(target_bits) ==> r == Err::<Vec<i32>, AudioError>(
            AudioError::ConfigurationError,
        ),
        config_error(source_bits, target_bits) is None && samples@.len() == 0 ==> (r matches Ok(v)
            && v@.len() == 0),
{
    if let Some(e) = check_config(source_bits, target_bits) {
        return Err(e);
    }
    let dither = draw_dither(rng, samples.len());
    let r = requantize_with_dither(samples, source_bits, target_bits, &dither);
    if let Ok(v) = &r {
        assert(dither_fits(dither@, samples@.len()) && v@ == requantized(
            samples@,
            source_bits,
            target_bits,
            dither@,
        ));
    }
    r
}

proof fn lemma_quantized_offset(scaled: int, dither: int, prev_err: int)
    requires
        -DITHER_ONE <= dither < DITHER_ONE,
        -10 <= prev_err <= 10,
    ensures
        -9 <= quantized(scaled, dither, prev_err) - scaled <= 8,
{
    let m: int = 5 * DITHER_ONE;
    let t: int = 5 * dither + 4 * DITHER_ONE * prev_err;
    assert(-40 * DITHER_ONE <= 4 * DITHER_ONE * prev_err <= 40 * DITHER_ONE) by (nonlinear_arith)
        requires -10 <= prev_err <= 10;
    assert((m * scaled + t) / m == scaled + t / m) by (nonlinear_arith)
        requires m > 0;
    assert(-9 * m <= t < 9 * m);
    assert(-9 <= t / m <= 8) by (nonlinear_arith)
        requires m > 0, -9 * m <= t < 9 * m;
}

proof fn lemma_error_bounded(samples: Seq<i32>, dither: Seq<i32>, scale: int, i: nat)
    requires
        dither_fits(dither, samples.len()),
        i <= samples.len(),
    ensures
        -8 <= error_before(samples, dither, scale, i) <= 9,
    decreases i,
{
    if i > 0 {
        let j = (i - 1) as int;
        lemma_error_bounded(samples, dither, scale, (i - 1) as nat);
        assert(dither_in_range(dither[j]));
        lemma_quantized_offset(
            scaled_at(samples, scale, j),
            dither[j] as int,
            error_before(samples, dither, scale, (i - 1) as nat),
        );
    }
}

proof fn lemma_pow2_add(a: nat, b: nat)
    ensures
        pow2(a + b) == pow2(a) * pow2(b),
    decreases a,
{
    if a > 0 {
        lemma_pow2_add((a - 1) as nat, b);
        assert(pow2(a + b) == 2 * pow2((a - 1 + b) as nat));
        assert(2 * (pow2((a - 1) as nat) * pow2(b)) == (2 * pow2((a - 1) as nat)) * pow2(b))
            by (nonlinear_arith);
    }
}

proof fn lemma_scaled_fits(x: int, scale: int, half: int)
    requires
        scale >= 1,
        -(scale * half) <= x < scale * half,
    ensures
        -half <= div_toward_zero(x, scale) < half,
{
    if x >= 0 {
        assert(x / scale < half) by (nonlinear_arith)
            requires scale >= 1, 0 <= x < scale * half;
        assert(x / scale >= 0) by (nonlinear_arith)
            requires scale >= 1, 0 <= x;
    } else {
        assert((-x) / scale <= half) by (nonlinear_arith)
            requires scale >= 1, 0 < -x <= scale * half;
        assert((-x) / scale >= 0) by (nonlinear_arith)
            requires scale >= 1, 0 < -x;
    }
}

proof fn lemma_amplified_fits(q: int, half: int)
    requires
        half >= 128,
        -half - 9 <= q <= half + 7,
    ensures
        -half <= amplified(q) < half,
{
}

/// When every input sample lies in the signed range of the source depth,
/// every output sample lies in the signed range of the target depth: the
/// error carried between samples never pushes a value out of range.
pub proof fn lemma_requantized_fits_target(
    samples: Seq<i32>,
    source_bits: u16,
    target_bits: u16,
    dither: Seq<i32>,
)
    requires
        config_error(source_bits, target_bits) is None,
        dither_fits(dither, samples.len()),
        fits_bits(samples, source_bits),
    ensures
        fits_bits(requantized(samples, source_bits, target_bits, dither), target_bits),
{
    if source_bits != target_bits {
        let k = (source_bits - target_bits) as nat;
        let scale = pow2(k);
        let half = pow2((target_bits - 1) as nat);
        let out = requantized(samples, source_bits, target_bits, dither);
        lemma_pow2_add(k, (target_bits - 1) as nat);
        assert((k + (target_bits - 1)) as nat == (source_bits - 1) as nat);
        lemma_pow2_monotone(0, k);
        lemma_pow2_monotone(7, (target_bits - 1) as nat);
        reveal_with_fuel(pow2, 8);
        assert forall|i: int| 0 <= i < out.len() implies -half <= #[trigger] out[i] < half by {
            assert(-pow2((source_bits - 1) as nat) <= samples[i] < pow2((source_bits - 1) as nat));
            lemma_scaled_fits(samples[i] as int, scale, half);
            lemma_error_bounded(samples, dither, scale, i as nat);
            assert(dither_in_range(dither[i]));
            let sc = scaled_at(samples, scale, i);
            lemma_quantized_offset(sc, dither[i] as int, error_before(samples, dither, scale, i as nat));
            lemma_amplified_fits(
                quantized(sc, dither[i] as int, error_before(samples, dither, scale, i as nat)),
                half,
            );
        }
    }
}

/// Requantizing to the depth a buffer already has changes nothing, so a
/// second pass at the target depth leaves the result of a first pass as it
/// was, whatever dither either pass draws.
pub proof fn lemma_requantize_idempotent(
    samples: Seq<i32>,
    source_bits: u16,
    target_bits: u16,
    first: Seq<i32>,
    second: Seq<i32>,
)
    requires
        config_error(source_bits, target_bits) is None,
    ensures
        config_error(target_bits, target_bits) is None,
        requantized(requantized(samples, source_bits, target_bits, first), target_bits, target_bits, second)
            == requantized(samples, source_bits, target_bits, first),
{
}

} // verus!
