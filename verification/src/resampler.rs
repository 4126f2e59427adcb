//! The streaming resampler: downmix, delay line, decimation gate, filter
//! and clamp to 16-bit PCM.
//!
//! The resampler is generic over the sample type. It owns what is integer
//! logic: which samples make a frame, the delay line, the choice of the
//! frames at which an output is due, the order of the outputs and the clamp
//! to the 16-bit range. The arithmetic on samples is handed in as two
//! functions: the mean of two channels, and the filter, which takes the
//! delay line and gives the filter value scaled to 16-bit full scale and
//! rounded. The filter history and the phase live in the resampler and carry
//! over from one call to the next, so what the filter is given depends on
//! the stream of frames alone and not on how the stream is cut into calls.

use vstd::prelude::*;
use vstd::arithmetic::div_mod::{lemma_fundamental_div_mod, lemma_fundamental_div_mod_converse};

verus! {

/// Number of taps of the low-pass filter, and length of the delay line.
pub const TAP_COUNT: usize = 15;

/// The rate of the output stream.
pub const OUTPUT_RATE: u32 = 16000;

/// Largest 16-bit sample, and full scale of the filter value.
pub const PCM_MAX: i16 = 32767;

/// Smallest 16-bit sample.
pub const PCM_MIN: i16 = -32768;

/// Largest decimation factor that a 32-bit rate can give.
pub const MAX_FACTOR: usize = 268_435;

/// The unit of the coefficient table: a coefficient is `coefficient(i)`
/// divided by this.
pub const COEFFICIENT_SCALE: u32 = 10000;

/// The windowed-sinc low-pass coefficients, in units of 1/10000, oldest tap
/// first. The set is symmetric about the middle tap.
pub open spec fn coefficient(i: int) -> int {
    if i == 0 || i == 14 {
        24
    } else if i == 1 || i == 13 {
        60
    } else if i == 2 || i == 12 {
        177
    } else if i == 3 || i == 11 {
        393
    } else if i == 4 || i == 10 {
        694
    } else if i == 5 || i == 9 {
        1013
    } else if i == 6 || i == 8 {
        1268
    } else if i == 7 {
        1372
    } else {
        0
    }
}

/// The rounded filter value clamped to the signed 16-bit range.
pub open spec fn clamped(rounded: int) -> int {
    if rounded > PCM_MAX {
        PCM_MAX as int
    } else if rounded < PCM_MIN {
        PCM_MIN as int
    } else {
        rounded
    }
}

/// The decimation factor for an input rate; zero below the output rate.
pub open spec fn decimation_factor(input_rate: u32) -> int {
    input_rate as int / (OUTPUT_RATE as int)
}

/// The state that a resampler carries from call to call.
pub struct ResamplerState<T> {
    /// The most recent mono samples, oldest first.
    pub delay: Seq<T>,
    /// Frames taken in since the last output.
    pub phase: nat,
}

impl<T> ResamplerState<T> {
    /// Silent history, phase zero.
    pub open spec fn fresh(silence: T) -> Self {
        ResamplerState { delay: Seq::new(TAP_COUNT as nat, |i: int| silence), phase: 0 }
    }

    pub open spec fn valid(self) -> bool {
        &&& self.delay.len() == TAP_COUNT
        &&& self.phase < MAX_FACTOR
    }
}

/// The phase that counts at the start of a call. A phase left over from a
/// call with a larger factor fires at the next frame, as the largest phase of
/// this factor does.
pub open spec fn entry_phase(phase: nat, factor: int) -> int {
    if phase < factor {
        phase as int
    } else {
        factor - 1
    }
}

/// Number of outputs that `frames` further frames give.
pub open spec fn output_count(phase: nat, frames: int, factor: int) -> int {
    if factor < 1 {
        0
    } else {
        (entry_phase(phase, factor) + frames) / factor
    }
}

/// Index of the frame at which output `j` is produced.
pub open spec fn firing_frame(phase: nat, factor: int, j: int) -> int {
    (j + 1) * factor - entry_phase(phase, factor) - 1
}

/// The delay line after `k` frames of `monos` were shifted into `delay`.
pub open spec fn delay_after<T>(delay: Seq<T>, monos: Seq<T>, k: int) -> Seq<T> {
    (delay + monos).subrange(k, k + TAP_COUNT)
}

/// The window that the filter is given for output `j`: the delay line as it
/// stands once the firing frame is shifted in.
pub open spec fn window<T>(s: ResamplerState<T>, monos: Seq<T>, factor: int, j: int) -> Seq<T> {
    delay_after(s.delay, monos, firing_frame(s.phase, factor, j) + 1)
}

/// The state after a stream of mono samples. A factor of zero, like an empty
/// stream, leaves the state as it is.
pub open spec fn advanced<T>(s: ResamplerState<T>, monos: Seq<T>, factor: int) -> ResamplerState<
    T,
> {
    if factor < 1 || monos.len() == 0 {
        s
    } else {
        ResamplerState {
            delay: delay_after(s.delay, monos, monos.len() as int),
            phase: ((entry_phase(s.phase, factor) + monos.len()) % factor) as nat,
        }
    }
}

/// Whether `monos` is a downmix of the whole frames of an interleaved input:
/// of each frame what `mix` gave for its first two channels, or its only
/// channel as it is. A trailing part of a frame is left out.
pub open spec fn is_downmix<T, M: Fn(T, T) -> T>(
    mix: M,
    input: Seq<T>,
    channels: int,
    monos: Seq<T>,
) -> bool {
    &&& monos.len() == input.len() as int / channels
    &&& forall|k: int|
        0 <= k < monos.len() ==> if channels >= 2 {
            mix.ensures((input[k * channels], input[k * channels + 1]), #[trigger] monos[k])
        } else {
            monos[k] == input[k * channels]
        }
}

/// Whether `pcm` is what `filter` gave for a window, clamped.
pub open spec fn is_filtered<T, F: Fn(&Vec<T>) -> i64>(filter: F, window: Seq<T>, pcm: i16) -> bool {
    exists|w: Vec<T>, v: i64|
        w@ == window && #[trigger] filter.ensures((&w,), v) && pcm == clamped(v as int)
}

/// What one call does: some downmix of the input is shifted through the
/// delay line, the state moves on by its frames, and output `j` is the
/// clamped filter value of window `j`. A factor of zero gives no output and
/// leaves the state as it is.
pub open spec fn resampled<T, M: Fn(T, T) -> T, F: Fn(&Vec<T>) -> i64>(
    mix: M,
    filter: F,
    before: ResamplerState<T>,
    input: Seq<T>,
    channels: int,
    factor: int,
    after: ResamplerState<T>,
    output: Seq<i16>,
) -> bool {
    if factor < 1 {
        after == before && output.len() == 0
    } else {
        exists|monos: Seq<T>|
            {
                &&& #[trigger] is_downmix(mix, input, channels, monos)
                &&& after == advanced(before, monos, factor)
                &&& output.len() == output_count(before.phase, monos.len() as int, factor)
                &&& forall|j: int|
                    0 <= j < output.len() ==> is_filtered(
                        filter,
                        window(before, monos, factor, j),
                        #[trigger] output[j],
                    )
            }
    }
}

/// Resampler state: the filter delay line and the decimation phase.
pub struct Resampler<T> {
    delay_line: Vec<T>,
    phase: usize,
    silence: T,
}

impl<T> View for Resampler<T> {
    type V = ResamplerState<T>;

    closed spec fn view(&self) -> ResamplerState<T> {
        ResamplerState { delay: self.delay_line@, phase: self.phase as nat }
    }
}

/// The coefficient of tap `i`, in units of `1 / COEFFICIENT_SCALE`; zero
/// beyond the last tap.
pub fn coefficient_at(i: usize) -> (c: u32)
    ensures
        c == coefficient(i as int),
{
    if i == 0 || i == 14 {
        24
    } else if i == 1 || i == 13 {
        60
    } else if i == 2 || i == 12 {
        177
    } else if i == 3 || i == 11 {
        393
    } else if i == 4 || i == 10 {
        694
    } else if i == 5 || i == 9 {
        1013
    } else if i == 6 || i == 8 {
        1268
    } else if i == 7 {
        1372
    } else {
        0
    }
}

/// Clamps a rounded filter value to the signed 16-bit range.
pub fn clamp_pcm(rounded: i64) -> (pcm: i16)
    ensures
        pcm == clamped(rounded as int),
{
    if rounded > 32767 {
        PCM_MAX
    } else if rounded < -32768 {
        PCM_MIN
    } else {
        rounded as i16
    }
}

impl<T: Copy> Resampler<T> {
    /// The invariant of a resampler: a full delay line.
    pub open spec fn wf(&self) -> bool {
        self@.valid()
    }

    /// The sample that stands for silence.
    pub closed spec fn silence(&self) -> T {
        self.silence
    }

    /// A resampler whose history is `silence`.
    pub fn new(silence: T) -> (r: Self)
        ensures
            r.wf(),
            r@ == ResamplerState::fresh(silence),
            r.silence() == silence,
    {
        let mut delay_line: Vec<T> = Vec::new();
        let mut i: usize = 0;
        while i < TAP_COUNT
            invariant
                i <= TAP_COUNT,
                delay_line@.len() == i,
                forall|j: int| 0 <= j < i ==> delay_line@[j] == silence,
            decreases TAP_COUNT - i,
        {
            delay_line.push(silence);
            i = i + 1;
        }
        let r = Resampler { delay_line, phase: 0, silence };
        assert(r@.delay =~= ResamplerState::fresh(silence).delay);
        r
    }

    /// Resamples a buffer of interleaved samples to 16 kHz mono 16-bit PCM.
    ///
    /// Of each frame the first two channels go through `mix` (a single
    /// channel is taken as it is), the result is shifted into the delay line,
    /// and every `input_rate / 16000` frames the delay line goes through
    /// `filter` and the value is clamped. A rate below 16000 gives no output
    /// and leaves the state untouched; only then may `channels` be zero.
    pub fn process<M: Fn(T, T) -> T, F: Fn(&Vec<T>) -> i64>(
        &mut self,
        input: &[T],
        channels: u32,
        input_rate: u32,
        mix: M,
        filter: F,
    ) -> (output: Vec<i16>)
        requires
            old(self).wf(),
            channels >= 1 || decimation_factor(input_rate) == 0,
            forall|l: T, r: T| mix.requires((l, r)),
            forall|w: &Vec<T>| w@.len() == TAP_COUNT ==> filter.requires((w,)),
        ensures
            final(self).wf(),
            final(self).silence() == old(self).silence(),
            resampled(
                mix,
                filter,
                old(self)@,
                input@,
                channels as int,
                decimation_factor(input_rate),
                final(self)@,
                output@,
            ),
    {
        let factor: usize = (input_rate / OUTPUT_RATE) as usize;
        let mut output: Vec<i16> = Vec::new();
        if factor == 0 {
            return output;
        }
        let ch: usize = channels as usize;
        let frame_count: usize = input.len() / ch;
        let ghost start = self@;
        let ghost f = factor as int;
        let ghost entry = entry_phase(start.phase, f);
        let ghost mut monos: Seq<T> = Seq::empty();
        let mut k: usize = 0;
        proof {
            assert(self@.delay =~= delay_after(start.delay, monos, 0));
            assert(0 * f + entry == entry) by (nonlinear_arith);
            lemma_fundamental_div_mod_converse(entry, f, 0, entry);
        }
        while k < frame_count
            invariant
                k <= frame_count,
                input@.len() <= usize::MAX,
                ch == channels,
                ch >= 1,
                frame_count == input@.len() as int / (ch as int),
                forall|l: T, r: T| mix.requires((l, r)),
                forall|w: &Vec<T>| w@.len() == TAP_COUNT ==> filter.requires((w,)),
                monos.len() == k,
                forall|i: int|
                    0 <= i < k ==> if ch >= 2 {
                        mix.ensures((input@[i * ch], input@[i * ch + 1]), #[trigger] monos[i])
                    } else {
                        monos[i] == input@[i * ch]
                    },
                f == factor,
                1 <= factor <= MAX_FACTOR,
                entry == entry_phase(start.phase, f),
                start.delay.len() == TAP_COUNT,
                self.silence == old(self).silence,
                self.delay_line@.len() == TAP_COUNT,
                self.phase < MAX_FACTOR,
                self@.delay == delay_after(start.delay, monos, k as int),
                entry_phase(self.phase as nat, f) == (entry + k) % f,
                k > 0 ==> self.phase < factor,
                k == 0 ==> self.phase == start.phase,
                output@.len() == (entry + k) / f,
                forall|j: int|
                    0 <= j < output@.len() ==> is_filtered(
                        filter,
                        window(start, monos, f, j),
                        #[trigger] output@[j],
                    ),
            decreases frame_count - k,
        {
            proof {
                lemma_frame_in_bounds(input@.len() as int, ch as int, k as int);
                lemma_gate_step(entry + k, f);
            }
            let base: usize = k * ch;
            let mono: T = if ch >= 2 {
                mix(input[base], input[base + 1])
            } else {
                input[base]
            };
            let ghost earlier = monos;
            let ghost before = self.delay_line@;
            proof {
                monos = monos.push(mono);
                assert forall|j: int| 0 <= j < output@.len() implies is_filtered(
                    filter,
                    window(start, monos, f, j),
                    #[trigger] output@[j],
                ) by {
                    lemma_fired_before(entry, k as int, f, j);
                    assert(window(start, monos, f, j) =~= window(start, earlier, f, j));
                    assert(is_filtered(filter, window(start, earlier, f, j), output@[j]));
                }
            }
            self.delay_line.remove(0);
            self.delay_line.push(mono);
            assert(self.delay_line@ =~= delay_after(start.delay, monos, k + 1)) by {
                assert(before == delay_after(start.delay, earlier, k as int));
            }
            self.phase = self.phase + 1;
            if self.phase >= factor {
                self.phase = 0;
                let rounded = filter(&self.delay_line);
                let pcm = clamp_pcm(rounded);
                proof {
                    let j = output@.len() as int;
                    assert(f * (j + 1) == (j + 1) * f) by (nonlinear_arith);
                    assert(firing_frame(start.phase, f, j) == k);
                    assert(self.delay_line@ == window(start, monos, f, j));
                    assert(filter.ensures((&self.delay_line,), rounded));
                    assert(is_filtered(filter, window(start, monos, f, j), pcm));
                }
                output.push(pcm);
            }
            k = k + 1;
        }
        proof {
            assert(is_downmix(mix, input@, channels as int, monos));
        }
        output
    }

    /// Clears the delay line and the phase, as for a new session.
    pub fn reset(&mut self)
        ensures
            final(self).wf(),
            final(self)@ == ResamplerState::fresh(old(self).silence()),
            final(self).silence() == old(self).silence(),
    {
        let fresh = Resampler::new(self.silence);
        self.delay_line = fresh.delay_line;
        self.phase = 0;
    }
}

/// Frame `k` of `len / channels` whole frames lies inside the input.
proof fn lemma_frame_in_bounds(len: int, channels: int, k: int)
    requires
        channels >= 1,
        0 <= k < len / channels,
    ensures
        0 <= k * channels,
        k * channels + channels <= len,
{
    lemma_fundamental_div_mod(len, channels);
    let q = len / channels;
    assert(0 <= k * channels && k * channels + channels <= channels * q) by (nonlinear_arith)
        requires
            channels >= 1,
            0 <= k < q,
    ;
}

/// One more frame: the count of outputs grows exactly when the phase was the
/// last of its cycle.
proof fn lemma_gate_step(n: int, f: int)
    requires
        n >= 0,
        f >= 1,
    ensures
        0 <= n % f < f,
        n == f * (n / f) + n % f,
        n / f >= 0,
        n % f + 1 < f ==> (n + 1) / f == n / f && (n + 1) % f == n % f + 1,
        n % f + 1 >= f ==> (n + 1) / f == n / f + 1 && (n + 1) % f == 0 && n + 1 == f * (n / f
            + 1),
{
    lemma_fundamental_div_mod(n, f);
    let q = n / f;
    let r = n % f;
    assert(0 <= r < f) by (nonlinear_arith)
        requires
            r == n % f,
            f >= 1,
    ;
    assert(q * f == f * q) by (nonlinear_arith);
    assert(q >= 0) by (nonlinear_arith)
        requires
            n == f * q + r,
            0 <= r < f,
            n >= 0,
    ;
    if r + 1 < f {
        lemma_fundamental_div_mod_converse(n + 1, f, q, r + 1);
    } else {
        assert(f * (q + 1) == f * q + f && (q + 1) * f == f * q + f) by (nonlinear_arith);
        lemma_fundamental_div_mod_converse(n + 1, f, q + 1, 0);
    }
}

/// An output that was produced within the first `k` frames fired at one of
/// them.
proof fn lemma_fired_before(entry: int, k: int, f: int, j: int)
    requires
        f >= 1,
        0 <= entry < f,
        k >= 0,
        0 <= j < (entry + k) / f,
    ensures
        0 <= (j + 1) * f - entry - 1 < k,
{
    lemma_gate_step(entry + k, f);
    let q = (entry + k) / f;
    let r = (entry + k) % f;
    assert(0 <= (j + 1) * f - entry - 1 < k) by (nonlinear_arith)
        requires
            entry + k == f * q + r,
            0 <= r,
            0 <= j < q,
            0 <= entry < f,
            f >= 1,
    ;
}

/// Quotient and remainder of `n + m` from those of `n`.
proof fn lemma_gate_run(n: int, m: int, f: int)
    requires
        n >= 0,
        m >= 0,
        f >= 1,
    ensures
        0 <= n % f < f,
        n == f * (n / f) + n % f,
        (n + m) / f == n / f + (n % f + m) / f,
        (n + m) % f == (n % f + m) % f,
        0 <= (n % f + m) % f < f,
        n % f + m == f * ((n % f + m) / f) + (n % f + m) % f,
        (n % f + m) / f >= 0,
        n / f >= 0,
{
    lemma_gate_step(n, f);
    let q = n / f;
    let r = n % f;
    lemma_gate_step(r + m, f);
    let q2 = (r + m) / f;
    let r2 = (r + m) % f;
    assert((q + q2) * f + r2 == n + m) by (nonlinear_arith)
        requires
            n == f * q + r,
            r + m == f * q2 + r2,
    ;
    lemma_fundamental_div_mod_converse(n + m, f, q + q2, r2);
}

/// Shifting the frames of `b` into the delay line that `a` left is shifting
/// the frames of `a + b` into the first delay line.
proof fn lemma_delay_compose<T>(delay: Seq<T>, a: Seq<T>, b: Seq<T>, k: int)
    requires
        delay.len() == TAP_COUNT,
        0 <= k <= b.len(),
    ensures
        delay_after(delay_after(delay, a, a.len() as int), b, k) == delay_after(
            delay,
            a + b,
            a.len() + k,
        ),
{
    let mid = delay_after(delay, a, a.len() as int);
    let left = delay_after(mid, b, k);
    let right = delay_after(delay, a + b, a.len() + k);
    assert forall|i: int| 0 <= i < TAP_COUNT implies left[i] == right[i] by {
        if k + i < TAP_COUNT {
            assert(mid[k + i] == (delay + a)[a.len() + k + i]);
        }
    }
    assert(left =~= right);
}

/// The delay line after `k` frames does not depend on the frames that follow.
proof fn lemma_delay_prefix<T>(delay: Seq<T>, a: Seq<T>, b: Seq<T>, k: int)
    requires
        delay.len() == TAP_COUNT,
        0 <= k <= a.len(),
    ensures
        delay_after(delay, a + b, k) == delay_after(delay, a, k),
{
    assert(delay_after(delay, a + b, k) =~= delay_after(delay, a, k));
}

/// Whether `mix` computes the function `mean`.
pub open spec fn mix_is<T, M: Fn(T, T) -> T>(mix: M, mean: spec_fn(T, T) -> T) -> bool {
    forall|l: T, r: T, m: T| #[trigger] mix.ensures((l, r), m) ==> m == mean(l, r)
}

/// Whether `filter` computes the function `value` of the window.
pub open spec fn filter_is<T, F: Fn(&Vec<T>) -> i64>(
    filter: F,
    value: spec_fn(Seq<T>) -> i64,
) -> bool {
    forall|w: Vec<T>, v: i64| #[trigger] filter.ensures((&w,), v) ==> v == value(w@)
}

/// The mono samples of the whole frames of an interleaved input under the
/// mean `mean`. A trailing part of a frame is left out.
pub open spec fn mono_stream<T>(input: Seq<T>, channels: int, mean: spec_fn(T, T) -> T) -> Seq<T> {
    Seq::new(
        (input.len() as int / channels) as nat,
        |k: int|
            if channels >= 2 {
                mean(input[k * channels], input[k * channels + 1])
            } else {
                input[k * channels]
            },
    )
}

/// All outputs that a stream of mono samples gives from state `s` under the
/// filter function `value`. A factor of zero gives none.
pub open spec fn outputs<T>(
    s: ResamplerState<T>,
    monos: Seq<T>,
    factor: int,
    value: spec_fn(Seq<T>) -> i64,
) -> Seq<i16> {
    Seq::new(
        output_count(s.phase, monos.len() as int, factor) as nat,
        |j: int| clamped(value(window(s, monos, factor, j)) as int) as i16,
    )
}

/// The coefficient set is symmetric about the middle tap, every tap is
/// positive, and the sum of the set, the gain for a constant input, is
/// 0.863.
pub proof fn law_coefficients_symmetric()
    ensures
        forall|i: int|
            0 <= i < TAP_COUNT ==> #[trigger] coefficient(i) == coefficient(TAP_COUNT - 1 - i),
        forall|i: int| 0 <= i < TAP_COUNT ==> #[trigger] coefficient(i) > 0,
        coefficient(0) + coefficient(1) + coefficient(2) + coefficient(3) + coefficient(4)
            + coefficient(5) + coefficient(6) + coefficient(7) + coefficient(8) + coefficient(9)
            + coefficient(10) + coefficient(11) + coefficient(12) + coefficient(13) + coefficient(
            14,
        ) == 8630,
{
}

/// The clamp: a value in the signed 16-bit range is kept, one above becomes
/// the largest sample and one below the smallest. Nothing wraps.
pub proof fn law_clamped_in_range(rounded: int)
    ensures
        PCM_MIN <= clamped(rounded) <= PCM_MAX,
        PCM_MIN <= rounded <= PCM_MAX ==> clamped(rounded) == rounded,
        rounded >= PCM_MAX ==> clamped(rounded) == PCM_MAX,
        rounded <= PCM_MIN ==> clamped(rounded) == PCM_MIN,
{
}

/// The number of outputs follows from the phase and the number of frames
/// alone, whatever the samples and the arithmetic on them; from phase zero,
/// `n` frames give `n / factor` outputs.
pub proof fn law_decimation_ratio<T, M: Fn(T, T) -> T, F: Fn(&Vec<T>) -> i64>(
    mix: M,
    filter: F,
    before: ResamplerState<T>,
    input: Seq<T>,
    channels: int,
    factor: int,
    after: ResamplerState<T>,
    output: Seq<i16>,
)
    requires
        resampled(mix, filter, before, input, channels, factor, after, output),
    ensures
        output.len() == output_count(before.phase, input.len() as int / channels, factor),
        before.phase == 0 && factor >= 1 ==> output.len() == (input.len() as int / channels)
            / factor,
{
}

/// The state invariant: a stream keeps a valid state valid, and once a frame
/// was taken in the phase is below the factor.
pub proof fn law_state_stays_valid<T>(s: ResamplerState<T>, monos: Seq<T>, factor: int)
    requires
        s.valid(),
        factor <= MAX_FACTOR,
    ensures
        advanced(s, monos, factor).valid(),
        factor >= 1 && monos.len() > 0 ==> advanced(s, monos, factor).phase < factor,
{
    if factor >= 1 && monos.len() > 0 {
        lemma_gate_run(entry_phase(s.phase, factor), monos.len() as int, factor);
    }
}

/// With a mean and a filter that are functions of their arguments, a call is
/// a function of the state and the input: the outputs are `outputs` of the
/// mono stream and the state is `advanced` by it.
pub proof fn law_process_is_function<T, M: Fn(T, T) -> T, F: Fn(&Vec<T>) -> i64>(
    mix: M,
    filter: F,
    mean: spec_fn(T, T) -> T,
    value: spec_fn(Seq<T>) -> i64,
    before: ResamplerState<T>,
    input: Seq<T>,
    channels: int,
    factor: int,
    after: ResamplerState<T>,
    output: Seq<i16>,
)
    requires
        resampled(mix, filter, before, input, channels, factor, after, output),
        mix_is(mix, mean),
        filter_is(filter, value),
    ensures
        output == outputs(before, mono_stream(input, channels, mean), factor, value),
        after == advanced(before, mono_stream(input, channels, mean), factor),
{
    let stream = mono_stream(input, channels, mean);
    if factor < 1 {
        assert(output =~= outputs(before, stream, factor, value));
    } else {
        let monos = choose|monos: Seq<T>|
            {
                &&& #[trigger] is_downmix(mix, input, channels, monos)
                &&& after == advanced(before, monos, factor)
                &&& output.len() == output_count(before.phase, monos.len() as int, factor)
                &&& forall|j: int|
                    0 <= j < output.len() ==> is_filtered(
                        filter,
                        window(before, monos, factor, j),
                        #[trigger] output[j],
                    )
            };
        assert(monos =~= stream);
        let want = outputs(before, stream, factor, value);
        assert forall|j: int| 0 <= j < output.len() implies output[j] == want[j] by {
            assert(is_filtered(filter, window(before, monos, factor, j), output[j]));
        }
        assert(output =~= want);
    }
}

/// Chunking does not change results: a stream fed in two consecutive parts
/// gives the filter the windows of the whole stream, in order, and so the
/// outputs of the whole stream, and it leaves the state that the whole
/// stream leaves.
pub proof fn law_chunking<T>(
    s: ResamplerState<T>,
    a: Seq<T>,
    b: Seq<T>,
    factor: int,
    value: spec_fn(Seq<T>) -> i64,
)
    requires
        s.delay.len() == TAP_COUNT,
    ensures
        outputs(s, a + b, factor, value) == outputs(s, a, factor, value) + outputs(
            advanced(s, a, factor),
            b,
            factor,
            value,
        ),
        advanced(s, a + b, factor) == advanced(advanced(s, a, factor), b, factor),
        forall|j: int|
            0 <= j < output_count(s.phase, a.len() as int, factor) ==> #[trigger] window(
                s,
                a + b,
                factor,
                j,
            ) == window(s, a, factor, j),
        forall|i: int|
            0 <= i < output_count(advanced(s, a, factor).phase, b.len() as int, factor)
                ==> #[trigger] window(advanced(s, a, factor), b, factor, i) == window(
                s,
                a + b,
                factor,
                output_count(s.phase, a.len() as int, factor) + i,
            ),
{
    let whole = outputs(s, a + b, factor, value);
    let s1 = advanced(s, a, factor);
    let first = outputs(s, a, factor, value);
    let second = outputs(s1, b, factor, value);
    if factor < 1 {
        assert(whole =~= first + second);
    } else {
        let f = factor;
        let entry = entry_phase(s.phase, f);
        let n1 = a.len() as int;
        let n2 = b.len() as int;
        lemma_gate_run(entry + n1, n2, f);
        lemma_gate_run(entry, n1, f);
        let q1 = (entry + n1) / f;
        let r1 = (entry + n1) % f;
        if n1 == 0 {
            assert(0 * f + entry == entry) by (nonlinear_arith);
            lemma_fundamental_div_mod_converse(entry, f, 0, entry);
            assert(a + b =~= b);
        }
        let entry1 = entry_phase(s1.phase, f);
        assert(entry1 == r1);
        lemma_gate_run(entry1, n2, f);
        let q2 = (r1 + n2) / f;
        assert(whole.len() == q1 + q2);
        assert(first.len() == q1);
        assert(second.len() == q2);
        assert forall|j: int| 0 <= j < q1 implies #[trigger] window(s, a + b, f, j) == window(
            s,
            a,
            f,
            j,
        ) by {
            lemma_fired_before(entry, n1, f, j);
            lemma_delay_prefix(s.delay, a, b, firing_frame(s.phase, f, j) + 1);
        }
        assert forall|i: int| 0 <= i < q2 implies #[trigger] window(s1, b, f, i) == window(
            s,
            a + b,
            f,
            q1 + i,
        ) by {
            lemma_fired_before(r1, n2, f, i);
            let u = firing_frame(s1.phase, f, i);
            let t = firing_frame(s.phase, f, q1 + i);
            assert(u + n1 == t) by (nonlinear_arith)
                requires
                    t == (q1 + i + 1) * f - entry - 1,
                    u == (i + 1) * f - r1 - 1,
                    entry + n1 == f * q1 + r1,
            ;
            if n1 == 0 {
                assert(s1 == s);
            } else {
                lemma_delay_compose(s.delay, a, b, u + 1);
            }
        }
        assert forall|j: int| 0 <= j < q1 + q2 implies whole[j] == (first + second)[j] by {
            if j < q1 {
                assert(window(s, a + b, f, j) == window(s, a, f, j));
            } else {
                assert(window(s1, b, f, j - q1) == window(s, a + b, f, q1 + (j - q1)));
                assert((first + second)[j] == second[j - q1]);
            }
        }
        assert(whole =~= first + second);
        if n1 == 0 {
        } else if n2 == 0 {
            assert(a + b =~= a);
        } else {
            lemma_delay_compose(s.delay, a, b, n2);
        }
    }
}

/// The mono stream of two inputs laid end to end is the two mono streams
/// laid end to end, where the first input ends on a frame boundary.
pub proof fn lemma_mono_stream_concat<T>(
    x: Seq<T>,
    y: Seq<T>,
    channels: int,
    mean: spec_fn(T, T) -> T,
)
    requires
        channels >= 1,
        x.len() as int % channels == 0,
    ensures
        mono_stream(x + y, channels, mean) == mono_stream(x, channels, mean) + mono_stream(
            y,
            channels,
            mean,
        ),
{
    let c = channels;
    let n1 = x.len() as int / c;
    let n2 = y.len() as int / c;
    lemma_gate_run(x.len() as int, y.len() as int, c);
    let whole = mono_stream(x + y, c, mean);
    let parts = mono_stream(x, c, mean) + mono_stream(y, c, mean);
    assert(whole.len() == n1 + n2);
    assert(x.len() == c * n1);
    assert forall|k: int| 0 <= k < n1 + n2 implies whole[k] == parts[k] by {
        if k < n1 {
            lemma_frame_in_bounds(x.len() as int, c, k);
        } else {
            lemma_frame_in_bounds(y.len() as int, c, k - n1);
            assert(k * c == c * n1 + (k - n1) * c) by (nonlinear_arith);
            assert((x + y)[k * c] == y[(k - n1) * c]);
            if c >= 2 {
                assert((x + y)[k * c + 1] == y[(k - n1) * c + 1]);
            }
        }
    }
    assert(whole =~= parts);
}

/// Continuity across chunks: an input fed in one call gives the same output
/// sequence and the same final state as the same input split, on a frame
/// boundary, into two consecutive calls.
pub proof fn law_continuity_across_chunks<T>(
    s: ResamplerState<T>,
    x: Seq<T>,
    y: Seq<T>,
    channels: int,
    factor: int,
    mean: spec_fn(T, T) -> T,
    value: spec_fn(Seq<T>) -> i64,
)
    requires
        s.valid(),
        channels >= 1,
        x.len() as int % channels == 0,
    ensures
        ({
            let mid = advanced(s, mono_stream(x, channels, mean), factor);
            &&& outputs(s, mono_stream(x + y, channels, mean), factor, value) == outputs(
                s,
                mono_stream(x, channels, mean),
                factor,
                value,
            ) + outputs(mid, mono_stream(y, channels, mean), factor, value)
            &&& advanced(s, mono_stream(x + y, channels, mean), factor) == advanced(
                mid,
                mono_stream(y, channels, mean),
                factor,
            )
        }),
{
    lemma_mono_stream_concat(x, y, channels, mean);
    law_chunking(
        s,
        mono_stream(x, channels, mean),
        mono_stream(y, channels, mean),
        factor,
        value,
    );
}

/// Silence in, silence out: where the mean of silence is silence and the
/// filter gives zero on a silent delay line, an input of silence yields,
/// from the fresh state, zero outputs only and leaves the delay line
/// silent.
pub proof fn law_silence_stays_silent<T>(
    silence: T,
    input: Seq<T>,
    channels: int,
    factor: int,
    mean: spec_fn(T, T) -> T,
    value: spec_fn(Seq<T>) -> i64,
)
    requires
        channels >= 1,
        forall|i: int| 0 <= i < input.len() ==> #[trigger] input[i] == silence,
        mean(silence, silence) == silence,
        value(ResamplerState::fresh(silence).delay) == 0,
    ensures
        ({
            let fresh = ResamplerState::fresh(silence);
            let monos = mono_stream(input, channels, mean);
            let out = outputs(fresh, monos, factor, value);
            &&& forall|j: int| 0 <= j < out.len() ==> #[trigger] out[j] == 0
            &&& advanced(fresh, monos, factor).delay == fresh.delay
        }),
{
    let s = ResamplerState::fresh(silence);
    let monos = mono_stream(input, channels, mean);
    let out = outputs(s, monos, factor, value);
    assert forall|k: int| 0 <= k < monos.len() implies #[trigger] monos[k] == silence by {
        lemma_frame_in_bounds(input.len() as int, channels, k);
    }
    if factor >= 1 {
        lemma_gate_run(0, monos.len() as int, factor);
        assert forall|j: int| 0 <= j < out.len() implies #[trigger] out[j] == 0 by {
            lemma_fired_before(0, monos.len() as int, factor, j);
            assert(window(s, monos, factor, j) =~= s.delay);
        }
        assert(advanced(s, monos, factor).delay =~= s.delay);
    }
}

} // verus!
