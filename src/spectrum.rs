//! Radix-2 decimation-in-time transform over any sample type that supplies
//! the arithmetic, block-length selection, and dominant-bin search.
use vstd::prelude::*;

use crate::error::AudioError;

verus! {

/// `n` is a power of two (1, 2, 4, ...).
pub open spec fn is_power_of_two(n: nat) -> bool
    decreases n,
{
    if n == 1 {
        true
    } else if n < 1 || n % 2 != 0 {
        false
    } else {
        is_power_of_two(n / 2)
    }
}

/// `n` is the largest power of two that does not exceed `len`.
pub open spec fn is_block_length(n: nat, len: nat) -> bool {
    is_power_of_two(n) && n <= len && len < 2 * n
}

proof fn lemma_double_power_of_two(n: nat)
    requires
        is_power_of_two(n),
    ensures
        is_power_of_two(2 * n),
{
    assert((2 * n) / 2 == n);
    assert((2 * n) % 2 == 0);
}

proof fn lemma_powers_of_two_spread(a: nat, b: nat)
    requires
        is_power_of_two(a),
        is_power_of_two(b),
        a < b,
    ensures
        2 * a <= b,
    decreases a,
{
    if a > 1 {
        lemma_powers_of_two_spread(a / 2, b / 2);
    }
}

/// A block length is the largest power of two not above the length: no
/// other power of two lies between it and the length.
pub proof fn lemma_block_length_is_largest(n: nat, len: nat, m: nat)
    requires
        is_block_length(n, len),
        is_power_of_two(m),
        m <= len,
    ensures
        m <= n,
{
    if m > n {
        lemma_powers_of_two_spread(n, m);
    }
}

/// The FFT block length for a buffer of `len` samples: the largest power of
/// two not above `len`. An empty buffer has none.
pub fn block_length(len: usize) -> (r: Result<usize, AudioError>)
    ensures
        len == 0 ==> r == Err::<usize, AudioError>(AudioError::DomainError),
        len > 0 ==> (r matches Ok(n) && is_block_length(n as nat, len as nat)),
{
    if len == 0 {
        return Err(AudioError::DomainError);
    }
    let mut n: usize = 1;
    while n <= len / 2
        invariant
            1 <= n <= len,
            is_power_of_two(n as nat),
        decreases len - n,
    {
        proof {
            lemma_double_power_of_two(n as nat);
        }
        n = n * 2;
    }
    Ok(n)
}

/// Arithmetic that the transform needs from a complex sample type. Each
/// operation is stated by a spec function of the type; the transform fixes
/// which values are combined, and in what order, in terms of those.
///
/// The spec functions' default bodies are placeholders that let impls
/// written outside `verus!` compile: a generic caller never sees them, and
/// an impl that Verus checks overrides them to meet its methods' `ensures`.
pub trait SpectralValue: Copy + Sized {
    /// The sum of two values.
    open spec fn spec_plus(self, other: Self) -> Self {
        self
    }

    /// The difference of two values.
    open spec fn spec_minus(self, other: Self) -> Self {
        self
    }

    /// This value times the twiddle factor `exp(-2*pi*i*k/n)`.
    open spec fn spec_twiddled(self, k: nat, n: nat) -> Self {
        self
    }

    /// This value with its real part weighted by the Hann window
    /// `0.5 * (1 - cos(2*pi*i/(n-1)))`, its imaginary part kept.
    open spec fn spec_hann_weighted(self, i: nat, n: nat) -> Self {
        self
    }

    fn plus(self, other: Self) -> (r: Self)
        ensures
            r == self.spec_plus(other),
    ;

    fn minus(self, other: Self) -> (r: Self)
        ensures
            r == self.spec_minus(other),
    ;

    fn twiddled(self, k: usize, n: usize) -> (r: Self)
        ensures
            r == self.spec_twiddled(k as nat, n as nat),
    ;

    fn hann_weighted(self, i: usize, n: usize) -> (r: Self)
        ensures
            r == self.spec_hann_weighted(i as nat, n as nat),
    ;
}

/// Whether a Hann window is applied before the transform.
#[derive(Clone, Copy, Debug, PartialEq, Eq, Structural)]
pub enum Window {
    /// Samples are transformed as they are.
    Rectangular,
    /// The real part of sample `i` of the block is weighted by the Hann window.
    Hann,
}

/// The even-indexed samples of `x`.
pub open spec fn evens<T>(x: Seq<T>) -> Seq<T> {
    Seq::new(x.len() / 2, |j: int| x[2 * j])
}

/// The odd-indexed samples of `x`.
pub open spec fn odds<T>(x: Seq<T>) -> Seq<T> {
    Seq::new(x.len() / 2, |j: int| x[2 * j + 1])
}

/// Radix-2 decimation in time: transform the even and the odd samples, then
/// bin `k` of the low half is `e[k] + w^k * o[k]` and bin `k` of the high
/// half is `e[k] - w^k * o[k]`, with `w = exp(-2*pi*i/n)`.
pub open spec fn dit<T: SpectralValue>(x: Seq<T>) -> Seq<T>
    decreases x.len(),
{
    if x.len() <= 1 {
        x
    } else {
        let n = x.len();
        let h = n / 2;
        let e = dit(Seq::new(h, |j: int| x[2 * j]));
        let o = dit(Seq::new(h, |j: int| x[2 * j + 1]));
        Seq::new(
            n,
            |k: int|
                if k < h {
                    e[k].spec_plus(o[k].spec_twiddled(k as nat, n))
                } else {
                    e[k - h].spec_minus(o[k - h].spec_twiddled((k - h) as nat, n))
                },
        )
    }
}

/// The first `n` samples, each weighted by the Hann window when that window
/// is chosen and the block has more than one sample.
pub open spec fn windowed<T: SpectralValue>(x: Seq<T>, n: nat, window: Window) -> Seq<T> {
    Seq::new(
        n,
        |i: int|
            if n > 1 && window == Window::Hann {
                x[i].spec_hann_weighted(i as nat, n)
            } else {
                x[i]
            },
    )
}

/// The spectrum reads only the first `n` samples: buffers that agree there
/// have the same windowed block, and so the same spectrum.
pub proof fn lemma_spectrum_reads_block_only<T: SpectralValue>(
    a: Seq<T>,
    b: Seq<T>,
    n: nat,
    window: Window,
)
    requires
        n <= a.len(),
        n <= b.len(),
        a.subrange(0, n as int) == b.subrange(0, n as int),
    ensures
        windowed(a, n, window) == windowed(b, n, window),
        dit(windowed(a, n, window)) == dit(windowed(b, n, window)),
{
    assert forall|i: int| 0 <= i < n implies a[i] == b[i] by {
        assert(a[i] == a.subrange(0, n as int)[i]);
        assert(b[i] == b.subrange(0, n as int)[i]);
    }
    assert(windowed(a, n, window) =~= windowed(b, n, window));
}

/// The even-indexed and the odd-indexed samples of `x`.
pub fn split_even_odd<T: Copy>(x: &Vec<T>) -> (r: (Vec<T>, Vec<T>))
    requires
        x@.len() % 2 == 0,
    ensures
        r.0@ == evens(x@),
        r.1@ == odds(x@),
{
    let half = x.len() / 2;
    let mut even: Vec<T> = Vec::new();
    let mut odd: Vec<T> = Vec::new();
    let mut j: usize = 0;
    while j < half
        invariant
            half == x@.len() / 2,
            x@.len() % 2 == 0,
            x@.len() == x.len(),
            half + half == x.len(),
            j <= half,
            even@.len() == j,
            odd@.len() == j,
            forall|k: int| 0 <= k < j ==> #[trigger] even@[k] == x@[2 * k],
            forall|k: int| 0 <= k < j ==> #[trigger] odd@[k] == x@[2 * k + 1],
        decreases half - j,
    {
        assert(j + j + 1 < x@.len());
        let k: usize = j + j;
        even.push(x[k]);
        odd.push(x[k + 1]);
        j = j + 1;
    }
    assert(even@ =~= evens(x@));
    assert(odd@ =~= odds(x@));
    (even, odd)
}

/// Radix-2 decimation in time on a block whose length is a power of two.
fn transform_block<T: SpectralValue>(x: Vec<T>) -> (r: Vec<T>)
    requires
        is_power_of_two(x@.len()),
    ensures
        r@ == dit(x@),
    decreases x@.len(),
{
    let n = x.len();
    if n == 1 {
        return x;
    }
    assert(n % 2 == 0 && is_power_of_two((n / 2) as nat));
    let (even, odd) = split_even_odd(&x);
    let ghost xs = x@;
    let ghost half_n: int = (n / 2) as int;
    assert(evens(xs) == Seq::new(half_n as nat, |j: int| xs[2 * j]));
    assert(odds(xs) == Seq::new(half_n as nat, |j: int| xs[2 * j + 1]));
    let even = transform_block(even);
    let odd = transform_block(odd);
    let ghost spec_e = dit(evens(xs));
    let ghost spec_o = dit(odds(xs));
    assert(spec_e.len() == half_n && spec_o.len() == half_n) by {
        lemma_dit_len(evens(xs));
        lemma_dit_len(odds(xs));
    }
    let half = n / 2;
    let mut low: Vec<T> = Vec::new();
    let mut high: Vec<T> = Vec::new();
    let mut j: usize = 0;
    while j < half
        invariant
            half == n / 2,
            half_n == half,
            n == xs.len(),
            even@ == spec_e,
            odd@ == spec_o,
            even@.len() == half,
            odd@.len() == half,
            j <= half,
            low@.len() == j,
            high@.len() == j,
            forall|k: int|
                0 <= k < j ==> #[trigger] low@[k] == even@[k].spec_plus(
                    odd@[k].spec_twiddled(k as nat, n as nat),
                ),
            forall|k: int|
                0 <= k < j ==> #[trigger] high@[k] == even@[k].spec_minus(
                    odd@[k].spec_twiddled(k as nat, n as nat),
                ),
        decreases half - j,
    {
        let t = odd[j].twiddled(j, n);
        low.push(even[j].plus(t));
        high.push(even[j].minus(t));
        j = j + 1;
    }
    let ghost lo = low@;
    let ghost hi = high@;
    low.append(&mut high);
    assert(low@ =~= dit(xs)) by {
        assert(low@ == lo + hi);
    }
    low
}

/// The spec transform keeps the length of its block.
pub proof fn lemma_dit_len<T: SpectralValue>(x: Seq<T>)
    ensures
        dit(x).len() == x.len(),
    decreases x.len(),
{
    if x.len() > 1 {
        lemma_dit_len(Seq::new(x.len() / 2, |j: int| x[2 * j]));
        lemma_dit_len(Seq::new(x.len() / 2, |j: int| x[2 * j + 1]));
    }
}

proof fn lemma_dit_of_zeros<T: SpectralValue>(x: Seq<T>, zero: T)
    requires
        is_power_of_two(x.len()),
        forall|i: int| 0 <= i < x.len() ==> x[i] == zero,
        zero.spec_plus(zero) == zero,
        zero.spec_minus(zero) == zero,
        forall|k: nat, n: nat| #[trigger] zero.spec_twiddled(k, n) == zero,
    ensures
        dit(x).len() == x.len(),
        forall|k: int| 0 <= k < x.len() ==> #[trigger] dit(x)[k] == zero,
    decreases x.len(),
{
    lemma_dit_len(x);
    if x.len() > 1 {
        let h = x.len() / 2;
        let e = Seq::new(h, |j: int| x[2 * j]);
        let o = Seq::new(h, |j: int| x[2 * j + 1]);
        assert(x.len() % 2 == 0 && is_power_of_two(h));
        lemma_dit_of_zeros(e, zero);
        lemma_dit_of_zeros(o, zero);
        assert forall|k: int| 0 <= k < x.len() implies #[trigger] dit(x)[k] == zero by {
            if k < h {
                assert(dit(e)[k] == zero && dit(o)[k] == zero);
                assert(zero.spec_twiddled(k as nat, x.len()) == zero);
            } else {
                assert(dit(e)[k - h] == zero && dit(o)[k - h] == zero);
                assert(zero.spec_twiddled((k - h) as nat, x.len()) == zero);
            }
        }
    }
}

/// A buffer of zeros has a spectrum of zeros, for any block length and
/// window, where the sample type's zero sums, differences, twiddles and
/// windows to itself.
pub proof fn lemma_spectrum_of_zeros<T: SpectralValue>(
    samples: Seq<T>,
    zero: T,
    n: nat,
    window: Window,
)
    requires
        is_power_of_two(n),
        n <= samples.len(),
        forall|i: int| 0 <= i < samples.len() ==> samples[i] == zero,
        zero.spec_plus(zero) == zero,
        zero.spec_minus(zero) == zero,
        forall|k: nat, m: nat| #[trigger] zero.spec_twiddled(k, m) == zero,
        forall|i: nat, m: nat| #[trigger] zero.spec_hann_weighted(i, m) == zero,
    ensures
        dit(windowed(samples, n, window)).len() == n,
        forall|k: int| 0 <= k < n ==> #[trigger] dit(windowed(samples, n, window))[k] == zero,
{
    let w = windowed(samples, n, window);
    assert forall|i: int| 0 <= i < w.len() implies w[i] == zero by {
        assert(zero.spec_hann_weighted(i as nat, n) == zero);
    }
    lemma_dit_of_zeros(w, zero);
}

/// The spectrum of the first `N` samples, `N` being the largest power of two
/// not above the buffer's length, with the window applied first. A one-sample
/// block is returned as it is; an empty buffer has no spectrum.
pub fn transform<T: SpectralValue>(samples: &Vec<T>, window: Window) -> (r: Result<
    Vec<T>,
    AudioError,
>)
    ensures
        samples@.len() == 0 <==> r == Err::<Vec<T>, AudioError>(AudioError::DomainError),
        samples@.len() > 0 ==> r is Ok,
        r matches Ok(v) ==> is_block_length(v@.len(), samples@.len()),
        r matches Ok(v) ==> v@ == dit(windowed(samples@, v@.len(), window)),
        samples@.len() == 1 ==> (r matches Ok(v) && v@ == samples@),
{
    let n = match block_length(samples.len()) {
        Ok(n) => n,
        Err(e) => {
            return Err(e);
        },
    };
    let mut block: Vec<T> = Vec::new();
    let mut i: usize = 0;
    while i < n
        invariant
            is_block_length(n as nat, samples@.len()),
            i <= n,
            block@.len() == i,
            forall|k: int|
                0 <= k < i ==> #[trigger] block@[k] == windowed(samples@, n as nat, window)[k],
        decreases n - i,
    {
        let x = samples[i];
        if n > 1 && window == Window::Hann {
            block.push(x.hann_weighted(i, n));
        } else {
            block.push(x);
        }
        i = i + 1;
    }
    assert(block@ =~= windowed(samples@, n as nat, window));
    if samples.len() == 1 {
        assert(block@ =~= samples@);
    }
    let out = transform_block(block);
    proof {
        lemma_dit_len(block@);
    }
    Ok(out)
}

/// The ordering key of a 32-bit float's bit pattern: keys compare as the
/// floats do in the IEEE 754 total order (negative patterns have their
/// magnitude bits flipped).
pub open spec fn order_key(bits: u32) -> int {
    if bits >= 0x8000_0000 {
        -1 - (bits - 0x8000_0000)
    } else {
        bits as int
    }
}

/// The ordering key of the float whose bit pattern is `bits`.
pub fn total_order_key(bits: u32) -> (r: i32)
    ensures
        r == order_key(bits),
{
    if bits >= 0x8000_0000 {
        let m: i32 = (bits - 0x8000_0000) as i32;
        -1 - m
    } else {
        bits as i32
    }
}

/// `b` is the first bin among `[0, bins)` whose key is the largest there.
pub open spec fn is_first_peak(keys: Seq<i32>, bins: int, b: int) -> bool {
    &&& 0 <= b < bins
    &&& forall|i: int| 0 <= i < bins ==> #[trigger] keys[i] <= keys[b]
    &&& forall|i: int| 0 <= i < b ==> #[trigger] keys[i] < keys[b]
}

/// The dominant bin of a spectrum of `N = keys.len()` bins, given the
/// ordering key of each bin's magnitude: the first bin of `[0, N/2)` with the
/// largest key. A spectrum with no bin below `N/2` has none.
pub fn dominant_bin(keys: &Vec<i32>) -> (r: Result<usize, AudioError>)
    ensures
        keys@.len() / 2 == 0 ==> r == Err::<usize, AudioError>(AudioError::DomainError),
        keys@.len() / 2 > 0 ==> (r matches Ok(b) && is_first_peak(keys@, (keys@.len() / 2) as int, b as int)),
{
    let bins = keys.len() / 2;
    if bins == 0 {
        return Err(AudioError::DomainError);
    }
    let mut best: usize = 0;
    let mut i: usize = 1;
    while i < bins
        invariant
            bins == keys@.len() / 2,
            1 <= i <= bins,
            is_first_peak(keys@, i as int, best as int),
        decreases bins - i,
    {
        if keys[i] > keys[best] {
            best = i;
        }
        i = i + 1;
    }
    Ok(best)
}

} // verus!
