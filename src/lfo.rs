//! A low-frequency sine oscillator read from a wavetable.
//!
//! The phase is a position in the table, in units of `1 / ONE` entry, kept in
//! `[0, period)` where the period is the table length times `ONE`. Frequencies
//! are in millihertz and the sample rate in hertz.
use vstd::prelude::*;
use crate::fixed::{lemma_lerp_bounds, ONE};
use crate::ring_buffer::{
    abs_int, lemma_read_frac_lipschitz, lemma_read_frac_periodic, pushed, read_frac, steps_within,
    RingBuffer,
};
use crate::sine::{lemma_sine_q_range, sine_q, sine_value};

verus! {

/// The largest wavetable or delay line, in samples.
pub const MAX_CAPACITY: u64 = 0xffff_ffff;

/// One period of the sine wave over `n` entries, entry `i` at `2π·i/n`.
pub open spec fn sine_table(n: nat) -> Seq<i32> {
    Seq::new(n, |i: int| sine_q(i, n as int) as i32)
}

/// The phase range of a table of `n` entries.
pub open spec fn period(n: nat) -> int {
    n * (ONE as int)
}

/// How far the phase moves in one sample: `freq_mhz / 1000 / rate` of a
/// period, truncated towards zero, then reduced into `[0, period)`.
pub open spec fn phase_step(freq_mhz: int, rate_hz: int, n: nat) -> int {
    let mag = (if freq_mhz >= 0 { freq_mhz } else { -freq_mhz }) * period(n) / (1000 * rate_hz);
    (if freq_mhz >= 0 { mag } else { -mag }) % period(n)
}

/// The phase after one more sample.
pub open spec fn advance(phase: int, freq_mhz: int, rate_hz: int, n: nat) -> int {
    (phase + phase_step(freq_mhz, rate_hz, n)) % period(n)
}

/// The oscillator's output at `phase`: the table read there, times the
/// amplitude. It carries `ONE` as its unit.
pub open spec fn wave_at(table: Seq<i32>, phase: int, amplitude: int) -> int {
    read_frac(table, phase) * amplitude
}

/// The phase after `t` samples from `phase`.
pub open spec fn phase_after(phase: int, freq_mhz: int, rate_hz: int, n: nat, t: nat) -> int
    decreases t,
{
    if t == 0 {
        phase
    } else {
        advance(phase_after(phase, freq_mhz, rate_hz, n, (t - 1) as nat), freq_mhz, rate_hz, n)
    }
}

/// Running `m` samples and then `t` more is running `m + t`.
pub proof fn lemma_phase_after_add(phase: int, freq_mhz: int, rate_hz: int, n: nat, m: nat, t: nat)
    ensures
        phase_after(phase, freq_mhz, rate_hz, n, m + t) == phase_after(
            phase_after(phase, freq_mhz, rate_hz, n, m),
            freq_mhz,
            rate_hz,
            n,
            t,
        ),
    decreases t,
{
    if t > 0 {
        lemma_phase_after_add(phase, freq_mhz, rate_hz, n, m, (t - 1) as nat);
        assert((m + t - 1) as nat == m + (t - 1) as nat);
    }
}

/// After `t` samples the phase has moved by `t` steps, modulo the period.
pub proof fn lemma_phase_after_closed(phase: int, freq_mhz: int, rate_hz: int, n: nat, t: nat)
    requires
        n >= 1,
        0 <= phase < period(n),
    ensures
        phase_after(phase, freq_mhz, rate_hz, n, t) == (phase + t * phase_step(
            freq_mhz,
            rate_hz,
            n,
        )) % period(n),
    decreases t,
{
    let p = period(n);
    let s = phase_step(freq_mhz, rate_hz, n);
    assert(p >= 1) by (nonlinear_arith)
        requires
            n >= 1,
            p == n * (ONE as int),
    ;
    if t == 0 {
        vstd::arithmetic::div_mod::lemma_small_mod(phase as nat, p as nat);
    } else {
        lemma_phase_after_closed(phase, freq_mhz, rate_hz, n, (t - 1) as nat);
        let x = phase + (t - 1) * s;
        vstd::arithmetic::div_mod::lemma_mod_bound(s, p);
        vstd::arithmetic::div_mod::lemma_small_mod(s as nat, p as nat);
        vstd::arithmetic::div_mod::lemma_add_mod_noop(x, s, p);
        vstd::arithmetic::div_mod::lemma_mod_twice(x, p);
        assert(x + s == phase + t * s) by (nonlinear_arith)
            requires
                x == phase + (t - 1) * s,
        ;
    }
}

/// The oscillator is periodic: when `m` steps add up to whole periods of the
/// table, the phase (and so the output) `m` samples on is the same as now,
/// from any sample `t` onwards.
pub proof fn lemma_lfo_periodic(
    phase: int,
    freq_mhz: int,
    rate_hz: int,
    n: nat,
    m: nat,
    t: nat,
)
    requires
        n >= 1,
        0 <= phase < period(n),
        (m * phase_step(freq_mhz, rate_hz, n)) % period(n) == 0,
    ensures
        phase_after(phase, freq_mhz, rate_hz, n, m + t) == phase_after(
            phase,
            freq_mhz,
            rate_hz,
            n,
            t,
        ),
{
    let p = period(n);
    let s = phase_step(freq_mhz, rate_hz, n);
    lemma_phase_after_closed(phase, freq_mhz, rate_hz, n, m + t);
    lemma_phase_after_closed(phase, freq_mhz, rate_hz, n, t);
    assert(phase + (m + t) * s == (phase + t * s) + m * s) by (nonlinear_arith);
    assert(p >= 1) by (nonlinear_arith)
        requires
            n >= 1,
            p == n * (ONE as int),
    ;
    vstd::arithmetic::div_mod::lemma_add_mod_noop(phase + t * s, m * s, p);
    vstd::arithmetic::div_mod::lemma_mod_twice(phase + t * s, p);
}

/// The oscillator nearly repeats after `m` samples when `m` steps come close
/// to whole periods. With `e` the phase `m` steps move past whole periods
/// (so `e` or `period - e` is small when `m` is close to a whole number of
/// periods), the output `m` samples on differs from the output now by at
/// most `amp · (delta · e / ONE + 1)`, and by at most
/// `amp · (delta · (period - e) / ONE + 1)`, where `delta` bounds the step
/// between neighbouring table entries and the `+ 1` is the rounding.
pub proof fn lemma_lfo_near_periodic(
    table: Seq<i32>,
    delta: int,
    phase: int,
    freq_mhz: int,
    rate_hz: int,
    amp: nat,
    m: nat,
    t: nat,
)
    requires
        table.len() >= 1,
        0 <= phase < period(table.len()),
        steps_within(table, delta),
    ensures
        ({
            let n = table.len();
            let e = (m * phase_step(freq_mhz, rate_hz, n)) % period(n);
            let later = wave_at(table, phase_after(phase, freq_mhz, rate_hz, n, m + t), amp as int);
            let now = wave_at(table, phase_after(phase, freq_mhz, rate_hz, n, t), amp as int);
            &&& abs_int(later - now) <= amp * (delta * e / (ONE as int) + 1)
            &&& abs_int(later - now) <= amp * (delta * (period(n) - e) / (ONE as int) + 1)
        }),
{
    let n = table.len();
    let pp = period(n);
    let s = phase_step(freq_mhz, rate_hz, n);
    assert(pp >= 1) by (nonlinear_arith)
        requires
            n >= 1,
            pp == n * (ONE as int),
    ;
    let e = (m * s) % pp;
    vstd::arithmetic::div_mod::lemma_mod_bound(m * s, pp);
    lemma_phase_after_closed(phase, freq_mhz, rate_hz, n, t);
    lemma_phase_after_closed(phase, freq_mhz, rate_hz, n, m + t);
    let x = phase + t * s;
    let p = x % pp;
    vstd::arithmetic::div_mod::lemma_mod_bound(x, pp);
    vstd::arithmetic::div_mod::lemma_add_mod_noop(x, m * s, pp);
    assert(phase + (m + t) * s == x + m * s) by (nonlinear_arith)
        requires
            x == phase + t * s,
    ;
    let q = phase_after(phase, freq_mhz, rate_hz, n, m + t);
    assert(q == (p + e) % pp);
    let r_now = read_frac(table, p);
    let r_later = read_frac(table, q);
    lemma_read_gap(table, delta, p, e);
    let b1 = delta * e / (ONE as int) + 1;
    let b2 = delta * (pp - e) / (ONE as int) + 1;
    lemma_scaled_gap(r_later, r_now, amp as int, b1);
    lemma_scaled_gap(r_later, r_now, amp as int, b2);
}

/// Reading `e` further round the table (within one turn) changes the read by
/// at most `delta · e / ONE + 1`, or, going the other way round,
/// `delta · (period - e) / ONE + 1`.
proof fn lemma_read_gap(table: Seq<i32>, delta: int, p: int, e: int)
    requires
        table.len() >= 1,
        steps_within(table, delta),
        0 <= p < period(table.len()),
        0 <= e < period(table.len()),
    ensures
        abs_int(read_frac(table, (p + e) % period(table.len())) - read_frac(table, p)) <= delta * e
            / (ONE as int) + 1,
        abs_int(read_frac(table, (p + e) % period(table.len())) - read_frac(table, p)) <= delta * (
        period(table.len()) - e) / (ONE as int) + 1,
{
    let pp = period(table.len());
    if p + e < pp {
        vstd::arithmetic::div_mod::lemma_small_mod((p + e) as nat, pp as nat);
        lemma_read_gap_forward(table, delta, p, p + e);
        let d = (p + e) - p;
        assert(d == e);
        assert(delta * d == delta * e);
        assert(delta * (pp - d) == delta * (pp - e));
    } else {
        vstd::arithmetic::div_mod::lemma_fundamental_div_mod_converse(p + e, pp, 1, p + e - pp);
        lemma_read_gap_forward(table, delta, p + e - pp, p);
        let d = p - (p + e - pp);
        assert(d == pp - e);
        assert(pp - d == e);
        assert(delta * d == delta * (pp - e));
        assert(delta * (pp - d) == delta * e);
        let r0 = read_frac(table, p);
        let r1 = read_frac(table, p + e - pp);
        assert(abs_int(r1 - r0) == abs_int(r0 - r1));
    }
}

/// For `q` at or after `p` within one turn, reads at `p` and `q` differ by
/// at most `delta · (q - p) / ONE + 1` and `delta · (period - (q - p)) / ONE + 1`.
proof fn lemma_read_gap_forward(table: Seq<i32>, delta: int, p: int, q: int)
    requires
        table.len() >= 1,
        steps_within(table, delta),
        0 <= p <= q < period(table.len()),
    ensures
        abs_int(read_frac(table, q) - read_frac(table, p)) <= delta * (q - p) / (ONE as int) + 1,
        abs_int(read_frac(table, q) - read_frac(table, p)) <= delta * (period(table.len()) - (q
            - p)) / (ONE as int) + 1,
{
    lemma_read_frac_lipschitz(table, delta, p, q);
    lemma_read_frac_periodic(table, p);
    lemma_read_frac_lipschitz(table, delta, q, p + table.len() * ONE);
    assert(p + table.len() * ONE - q == period(table.len()) - (q - p));
}

proof fn lemma_scaled_gap(a: int, b: int, k: int, bound: int)
    requires
        abs_int(a - b) <= bound,
        k >= 0,
    ensures
        abs_int(a * k - b * k) <= k * bound,
{
    if a >= b {
        assert(0 <= a * k - b * k <= k * bound) by (nonlinear_arith)
            requires
                0 <= a - b <= bound,
                k >= 0,
        ;
    } else {
        assert(0 <= b * k - a * k <= k * bound) by (nonlinear_arith)
            requires
                0 <= b - a <= bound,
                k >= 0,
        ;
    }
}

pub struct LFO {
    wave_table: RingBuffer,
    sample_rate_hz: u32,
    phase_index: u64,
    freq_mhz: i32,
    amplitude: u32,
}

/// A ring holding `sine_table(size)`, entry `i` at `i` samples back. Reads
/// wrap around the ring, so a position past the last entry interpolates
/// towards entry 0 and the period closes on itself.
fn build_table(size: usize) -> (r: RingBuffer)
    requires
        1 <= size <= MAX_CAPACITY,
    ensures
        r.wf(),
        r@ == sine_table(size as nat),
        forall|i: int| 0 <= i < size ==> -(ONE as int) <= #[trigger] r@[i] <= ONE,
{
    let mut table = RingBuffer::new(size);
    let mut i: usize = size;
    while i > 0
        invariant
            table.wf(),
            table@.len() == size,
            i <= size,
            forall|k: int|
                0 <= k < size ==> #[trigger] table@[k] == if k < size - i {
                    sine_q(i + k, size as int) as i32
                } else {
                    0i32
                },
        decreases i,
    {
        let v = sine_value(i - 1, size);
        let ghost before = table@;
        table.push(v);
        assert forall|k: int| 0 <= k < size implies #[trigger] table@[k] == if k < size - (i - 1) {
            sine_q((i - 1) + k, size as int) as i32
        } else {
            0i32
        } by {
            assert(table@ == pushed(before, v));
            if k > 0 {
                assert(table@[k] == before[k - 1]);
            }
        }
        i = i - 1;
    }
    assert(table@ =~= sine_table(size as nat));
    assert forall|i: int| 0 <= i < size implies -(ONE as int) <= #[trigger] table@[i] <= ONE by {
        lemma_sine_q_range(i, size as int);
    }
    table
}

impl LFO {
    /// The wavetable, entry `i` holding the wave at `2π·i/len`.
    pub closed spec fn table(&self) -> Seq<i32> {
        self.wave_table@
    }

    pub closed spec fn rate(&self) -> int {
        self.sample_rate_hz as int
    }

    /// The phase, as a table position in units of `1 / ONE` entry.
    pub closed spec fn phase(&self) -> int {
        self.phase_index as int
    }

    pub closed spec fn freq(&self) -> int {
        self.freq_mhz as int
    }

    pub closed spec fn amp(&self) -> int {
        self.amplitude as int
    }

    pub closed spec fn wf(&self) -> bool {
        &&& self.wave_table.wf()
        &&& self.wave_table@.len() <= MAX_CAPACITY
        &&& self.sample_rate_hz > 0
        &&& self.phase_index < period(self.wave_table@.len())
        &&& forall|i: int|
            0 <= i < self.wave_table@.len() ==> -(ONE as int) <= #[trigger] self.wave_table@[i]
                <= ONE
    }

    /// What `wf` gives a caller: a positive rate, a table of one sine period
    /// and a phase inside it.
    pub proof fn lemma_wf(&self)
        requires
            self.wf(),
        ensures
            self.rate() > 0,
            1 <= self.table().len() <= MAX_CAPACITY,
            0 <= self.phase() < period(self.table().len()),
            forall|i: int|
                0 <= i < self.table().len() ==> -(ONE as int) <= #[trigger] self.table()[i] <= ONE,
    {
    }

    /// An oscillator at `sample_rate_hz` over a table of `size` entries, at
    /// frequency 0, amplitude 1 and phase 0.
    pub fn new(sample_rate_hz: u32, size: usize) -> (r: Self)
        requires
            sample_rate_hz > 0,
            1 <= size <= MAX_CAPACITY,
        ensures
            r.wf(),
            r.table() == sine_table(size as nat),
            r.rate() == sample_rate_hz,
            r.freq() == 0,
            r.amp() == 1,
            r.phase() == 0,
    {
        LFO {
            wave_table: build_table(size),
            sample_rate_hz,
            phase_index: 0,
            freq_mhz: 0,
            amplitude: 1,
        }
    }

    /// Sets the frequency, in millihertz; a negative one runs the wave
    /// backwards.
    pub fn set_frequency(&mut self, freq_mhz: i32)
        requires
            old(self).wf(),
        ensures
            final(self).wf(),
            final(self).freq() == freq_mhz,
            final(self).table() == old(self).table(),
            final(self).rate() == old(self).rate(),
            final(self).amp() == old(self).amp(),
            final(self).phase() == old(self).phase(),
    {
        self.freq_mhz = freq_mhz;
    }

    /// Sets the factor the table values are scaled by.
    pub fn set_amplitude(&mut self, amplitude: u32)
        requires
            old(self).wf(),
        ensures
            final(self).wf(),
            final(self).amp() == amplitude,
            final(self).table() == old(self).table(),
            final(self).rate() == old(self).rate(),
            final(self).freq() == old(self).freq(),
            final(self).phase() == old(self).phase(),
    {
        self.amplitude = amplitude;
    }

    /// Sets the phase, a table position in units of `1 / ONE` entry, wrapped
    /// into one period.
    pub fn set_phase(&mut self, phase: u64)
        requires
            old(self).wf(),
        ensures
            final(self).wf(),
            final(self).phase() == phase as int % period(old(self).table().len()),
            final(self).table() == old(self).table(),
            final(self).rate() == old(self).rate(),
            final(self).freq() == old(self).freq(),
            final(self).amp() == old(self).amp(),
    {
        let p: u64 = self.wave_table.capacity() as u64 * (ONE as u64);
        self.phase_index = phase % p;
    }

    /// Frequency (mHz), amplitude and phase.
    pub fn get_params(&self) -> (r: (i32, u32, u64))
        requires
            self.wf(),
        ensures
            r.0 == self.freq(),
            r.1 == self.amp(),
            r.2 == self.phase(),
    {
        (self.freq_mhz, self.amplitude, self.phase_index)
    }

    /// Rebuilds the table with `size` entries and sets the phase to 0.
    pub fn reset(&mut self, size: usize)
        requires
            old(self).wf(),
            1 <= size <= MAX_CAPACITY,
        ensures
            final(self).wf(),
            final(self).table() == sine_table(size as nat),
            final(self).phase() == 0,
            final(self).rate() == old(self).rate(),
            final(self).freq() == old(self).freq(),
            final(self).amp() == old(self).amp(),
    {
        self.phase_index = 0;
        self.wave_table = build_table(size);
    }

    /// Advances the phase by one sample and returns the wave there.
    pub fn next_mod(&mut self) -> (r: i64)
        requires
            old(self).wf(),
        ensures
            final(self).wf(),
            final(self).phase() == advance(
                old(self).phase(),
                old(self).freq(),
                old(self).rate(),
                old(self).table().len(),
            ),
            r == wave_at(final(self).table(), final(self).phase(), final(self).amp()),
            -(final(self).amp() * ONE) <= r <= final(self).amp() * ONE,
            final(self).table() == old(self).table(),
            final(self).rate() == old(self).rate(),
            final(self).freq() == old(self).freq(),
            final(self).amp() == old(self).amp(),
    {
        let n = self.wave_table.capacity();
        let p: u128 = n as u128 * (ONE as u128);
        let step = phase_step_exec(self.freq_mhz, self.sample_rate_hz, n);
        let next: u128 = (self.phase_index as u128 + step) % p;
        self.phase_index = next as u64;
        let v = self.wave_table.get_frac(self.phase_index);
        proof {
            let pos = self.phase_index as int;
            let h = self.wave_table@;
            let i0 = (pos / (ONE as int)) % (h.len() as int);
            let i1 = (i0 + 1) % (h.len() as int);
            lemma_lerp_bounds(h[i0] as int, h[i1] as int, pos % (ONE as int));
            assert(-(self.amplitude * ONE) <= v * self.amplitude <= self.amplitude * ONE)
                by (nonlinear_arith)
                requires
                    -(ONE as int) <= v <= ONE,
            ;
        }
        v as i64 * self.amplitude as i64
    }
}

/// `phase_step` for a table of `n` entries.
fn phase_step_exec(freq_mhz: i32, rate_hz: u32, n: usize) -> (r: u128)
    requires
        rate_hz > 0,
        1 <= n <= MAX_CAPACITY,
    ensures
        r == phase_step(freq_mhz as int, rate_hz as int, n as nat),
        r < period(n as nat),
{
    assert(n * ONE <= MAX_CAPACITY * ONE) by (nonlinear_arith)
        requires
            n <= MAX_CAPACITY,
    ;
    let p: u128 = n as u128 * (ONE as u128);
    let mag_f: u128 = if freq_mhz >= 0 {
        freq_mhz as u128
    } else {
        (-(freq_mhz as i64)) as u128
    };
    assert(mag_f * p <= 0x8000_0000 * (MAX_CAPACITY * ONE)) by (nonlinear_arith)
        requires
            mag_f <= 0x8000_0000,
            p <= MAX_CAPACITY * ONE,
    ;
    let mag: u128 = mag_f * p / (1000 * rate_hz as u128);
    let m: u128 = mag % p;
    if freq_mhz >= 0 || m == 0 {
        proof {
            if freq_mhz < 0 {
                vstd::arithmetic::div_mod::lemma_fundamental_div_mod(mag as int, p as int);
                let a = mag as int / p as int;
                assert(-(mag as int) == (-a) * p + 0) by (nonlinear_arith)
                    requires
                        mag == p * a + 0,
                ;
                vstd::arithmetic::div_mod::lemma_fundamental_div_mod_converse(
                    -(mag as int),
                    p as int,
                    -(mag as int / p as int),
                    0,
                );
            }
        }
        m
    } else {
        proof {
            vstd::arithmetic::div_mod::lemma_fundamental_div_mod(mag as int, p as int);
            let a = mag as int / p as int;
            assert(-(mag as int) == (-a - 1) * p + (p - m)) by (nonlinear_arith)
                requires
                    mag == p * a + m,
            ;
            vstd::arithmetic::div_mod::lemma_fundamental_div_mod_converse(
                -(mag as int),
                p as int,
                -a - 1,
                (p - m) as int,
            );
        }
        p - m
    }
}

} // verus!
