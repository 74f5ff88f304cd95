//! The vibrato filter: one delay line per channel, read at a delay that a
//! shared sine oscillator sweeps around a base delay.
//!
//! Times are in microseconds and the modulation frequency in millihertz. The
//! base delay is kept in samples to `1 / ONE` of a sample (rounded down); the
//! width, which is the oscillator's amplitude, in whole samples. Every channel
//! sees the same oscillator value at a given sample index: the oscillator
//! steps once per sample index, not once per channel.
use vstd::prelude::*;
use crate::fixed::ONE;
use crate::lfo::{phase_after, wave_at, LFO, MAX_CAPACITY};
use crate::ring_buffer::{push_all, read_frac, silence, RingBuffer};

verus! {

/// The resolution of the modulation wavetable.
pub const TABLE_SIZE: usize = 1024;

/// A parameter of the filter.
#[derive(Clone, Copy, Debug, PartialEq, Eq, Structural)]
pub enum Param {
    /// The modulation width, in microseconds.
    Width,
    /// The modulation frequency, in millihertz.
    ModFreq,
}

impl Param {
    /// The parameter's name, with its unit.
    pub fn name(&self) -> (r: &'static str)
        ensures
            *self == Param::Width ==> r@ == "width in microseconds"@,
            *self == Param::ModFreq ==> r@ == "modulation frequency in millihertz"@,
    {
        match self {
            Param::Width => "width in microseconds",
            Param::ModFreq => "modulation frequency in millihertz",
        }
    }
}

/// Why a filter could not be configured.
#[derive(Clone, Copy, Debug, PartialEq, Eq, Structural)]
pub enum Error {
    /// The parameter `name` may not take `value`.
    InvalidParameter { name: Param, value: i128 },
}

/// A time in whole samples, rounded down.
pub open spec fn samples_of(us: int, rate_hz: int) -> int {
    us * rate_hz / 1_000_000
}

/// A time as a fractional number of samples, in units of `1 / ONE` sample,
/// rounded down.
pub open spec fn delay_pos_of(us: int, rate_hz: int) -> int {
    us * rate_hz * ONE / 1_000_000
}

/// The length of each delay line: room for the base delay in whole samples, a
/// full swing of the modulation either way, one sample for the fraction of the
/// delay and one guard sample, so that neither of the two samples a read
/// blends wraps round to the newest one.
pub open spec fn capacity_of(rate_hz: int, delay_us: int, width_us: int) -> int {
    2 + samples_of(delay_us, rate_hz) + 2 * samples_of(width_us, rate_hz)
}

/// The error a configuration is refused with, if any: a width beyond the
/// base delay, else a modulation frequency that is not positive.
pub open spec fn config_error(delay_us: int, width_us: int, mod_freq_mhz: int) -> Option<Error> {
    if width_us > delay_us {
        Some(Error::InvalidParameter { name: Param::Width, value: width_us as i128 })
    } else if mod_freq_mhz <= 0 {
        Some(Error::InvalidParameter { name: Param::ModFreq, value: mod_freq_mhz as i128 })
    } else {
        None
    }
}

/// What fixes the filter's output besides its history: base delay (in units
/// of `1 / ONE` sample), width (in whole samples), modulation frequency,
/// sample rate and wavetable.
pub struct Setup {
    pub delay_pos: nat,
    pub width: nat,
    pub freq_mhz: int,
    pub rate_hz: int,
    pub table: Seq<i32>,
}

/// The modulation depth at sample `t` of a block, from oscillator phase
/// `phase` at its start: the oscillator steps before each sample.
pub open spec fn depth_at(s: Setup, phase: int, t: int) -> int {
    wave_at(
        s.table,
        phase_after(phase, s.freq_mhz, s.rate_hz, s.table.len(), (t + 1) as nat),
        s.width as int,
    )
}

/// The output of channel `c` at sample `t` of the block `input`, from delay
/// lines `lines` and oscillator phase `phase`: the input up to `t` is pushed,
/// then the line is read `delay + depth` behind its newest sample.
pub open spec fn vib_out(
    s: Setup,
    lines: Seq<Seq<i32>>,
    phase: int,
    input: Seq<Seq<i32>>,
    c: int,
    t: int,
) -> int {
    read_frac(
        push_all(lines[c], input[c].take(t + 1)),
        s.delay_pos + depth_at(s, phase, t),
    )
}

/// The delay lines after the block `input`.
pub open spec fn lines_after(lines: Seq<Seq<i32>>, input: Seq<Seq<i32>>) -> Seq<Seq<i32>> {
    Seq::new(lines.len(), |c: int| push_all(lines[c], input[c]))
}

/// The samples of every channel.
pub open spec fn channels(v: Seq<Vec<i32>>) -> Seq<Seq<i32>> {
    Seq::new(v.len(), |c: int| v[c]@)
}

/// A block of `channels` channels of `n` samples each.
pub open spec fn is_block(v: Seq<Seq<i32>>, channels: int, n: int) -> bool {
    &&& v.len() == channels
    &&& forall|c: int| 0 <= c < channels ==> #[trigger] v[c].len() == n
}

/// The length of a block: that of its first channel, or 0 without channels.
pub open spec fn block_len(v: Seq<Seq<i32>>) -> int {
    if v.len() == 0 {
        0
    } else {
        v[0].len() as int
    }
}

pub struct VFilter {
    sample_rate_hz: u32,
    delay_us: u64,
    width_us: u64,
    mod_freq_mhz: i32,
    delay_pos: u64,
    delay_buffer: Vec<RingBuffer>,
    lfo: LFO,
    num_channels: usize,
}

fn delay_pos_exec(us: u64, rate_hz: u32) -> (r: u128)
    ensures
        r == delay_pos_of(us as int, rate_hz as int),
{
    assert(us as int * rate_hz as int * ONE <= 0xffff_ffff_ffff_ffff * 0xffff_ffff * ONE)
        by (nonlinear_arith)
        requires
            us <= 0xffff_ffff_ffff_ffff,
            rate_hz <= 0xffff_ffff,
    ;
    us as u128 * rate_hz as u128 * (ONE as u128) / 1_000_000
}

/// The fractional delay lies between its whole samples and the next one.
proof fn lemma_delay_pos_range(us: int, rate_hz: int)
    requires
        us >= 0,
        rate_hz >= 0,
    ensures
        samples_of(us, rate_hz) * ONE <= delay_pos_of(us, rate_hz) < (samples_of(us, rate_hz) + 1)
            * ONE,
{
    let x = us * rate_hz;
    let m = 1_000_000int;
    let one = ONE as int;
    let ds = x / m;
    let p = x * one / m;
    vstd::arithmetic::div_mod::lemma_fundamental_div_mod(x, m);
    vstd::arithmetic::div_mod::lemma_fundamental_div_mod(x * one, m);
    vstd::arithmetic::div_mod::lemma_mod_pos_bound(x, m);
    vstd::arithmetic::div_mod::lemma_mod_pos_bound(x * one, m);
    assert(x * rate_hz == x * rate_hz);
    assert(us * rate_hz * ONE == x * one);
    assert(ds * one <= p < (ds + 1) * one) by (nonlinear_arith)
        requires
            x == m * ds + x % m,
            0 <= x % m < m,
            x * one == m * p + (x * one) % m,
            0 <= (x * one) % m < m,
            one > 0,
            m > 0,
    ;
}

fn samples_exec(us: u64, rate_hz: u32) -> (r: u128)
    ensures
        r == samples_of(us as int, rate_hz as int),
        r <= 0xffff_ffff_ffff_ffff * 0xffff_ffff,
{
    proof {
        vstd::arithmetic::div_mod::lemma_div_is_ordered_by_denominator(us * rate_hz, 1, 1_000_000);
    }
    assert(us as int * rate_hz as int <= 0xffff_ffff_ffff_ffff * 0xffff_ffff) by (nonlinear_arith)
        requires
            us <= 0xffff_ffff_ffff_ffff,
            rate_hz <= 0xffff_ffff,
    ;
    us as u128 * rate_hz as u128 / 1_000_000
}

/// The length each delay line of a filter with these settings has; `new`
/// and `set_param` take settings only where it is at most `MAX_CAPACITY`.
pub fn delay_line_capacity(sample_rate_hz: u32, delay_us: u64, width_us: u64) -> (r: u128)
    ensures
        r == capacity_of(sample_rate_hz as int, delay_us as int, width_us as int),
{
    let ds = samples_exec(delay_us, sample_rate_hz);
    let ws = samples_exec(width_us, sample_rate_hz);
    2 + ds + 2 * ws
}

/// A shorter time is no more samples.
proof fn lemma_samples_monotonic(a: int, b: int, rate_hz: int)
    requires
        0 <= a <= b,
        rate_hz >= 0,
    ensures
        0 <= samples_of(a, rate_hz) <= samples_of(b, rate_hz),
{
    assert(0 <= a * rate_hz <= b * rate_hz) by (nonlinear_arith)
        requires
            0 <= a <= b,
            rate_hz >= 0,
    ;
    vstd::arithmetic::div_mod::lemma_div_is_ordered(a * rate_hz, b * rate_hz, 1_000_000);
    vstd::arithmetic::div_mod::lemma_div_pos_is_pos(a * rate_hz, 1_000_000);
}

fn validate(delay_us: u64, width_us: u64, mod_freq_mhz: i32) -> (r: Result<(), Error>)
    ensures
        r is Err <==> config_error(delay_us as int, width_us as int, mod_freq_mhz as int) is Some,
        r is Err ==> r->Err_0 == config_error(
            delay_us as int,
            width_us as int,
            mod_freq_mhz as int,
        )->Some_0,
{
    if width_us > delay_us {
        Err(Error::InvalidParameter { name: Param::Width, value: width_us as i128 })
    } else if mod_freq_mhz <= 0 {
        Err(Error::InvalidParameter { name: Param::ModFreq, value: mod_freq_mhz as i128 })
    } else {
        Ok(())
    }
}

/// `channels` silent delay lines of `capacity` samples.
fn silent_lines(channels: usize, capacity: usize) -> (r: Vec<RingBuffer>)
    requires
        capacity >= 1,
    ensures
        r@.len() == channels,
        forall|c: int|
            0 <= c < channels ==> (#[trigger] r@[c]).wf() && r@[c]@ == silence(capacity as nat),
{
    let mut lines: Vec<RingBuffer> = Vec::new();
    let mut c: usize = 0;
    while c < channels
        invariant
            capacity >= 1,
            c <= channels,
            lines@.len() == c,
            forall|i: int|
                0 <= i < c ==> (#[trigger] lines@[i]).wf() && lines@[i]@ == silence(
                    capacity as nat,
                ),
        decreases channels - c,
    {
        lines.push(RingBuffer::new(capacity));
        c = c + 1;
    }
    lines
}

impl VFilter {
    pub closed spec fn rate(&self) -> int {
        self.sample_rate_hz as int
    }

    pub closed spec fn delay_us(&self) -> int {
        self.delay_us as int
    }

    pub closed spec fn width_us(&self) -> int {
        self.width_us as int
    }

    pub closed spec fn mod_freq(&self) -> int {
        self.mod_freq_mhz as int
    }

    pub closed spec fn channel_count(&self) -> int {
        self.num_channels as int
    }

    /// Each channel's delay line, newest sample first.
    pub closed spec fn lines(&self) -> Seq<Seq<i32>> {
        Seq::new(self.delay_buffer@.len(), |c: int| self.delay_buffer@[c]@)
    }

    /// The oscillator's phase.
    pub closed spec fn phase(&self) -> int {
        self.lfo.phase()
    }

    pub open spec fn setup(&self) -> Setup {
        Setup {
            delay_pos: delay_pos_of(self.delay_us(), self.rate()) as nat,
            width: samples_of(self.width_us(), self.rate()) as nat,
            freq_mhz: self.mod_freq(),
            rate_hz: self.rate(),
            table: self.table(),
        }
    }

    pub closed spec fn table(&self) -> Seq<i32> {
        self.lfo.table()
    }

    pub closed spec fn wf(&self) -> bool {
        &&& self.sample_rate_hz > 0
        &&& self.width_us <= self.delay_us
        &&& self.mod_freq_mhz > 0
        &&& self.delay_pos == delay_pos_of(self.delay_us as int, self.sample_rate_hz as int)
        &&& capacity_of(self.sample_rate_hz as int, self.delay_us as int, self.width_us as int)
            <= MAX_CAPACITY
        &&& self.delay_buffer@.len() == self.num_channels
        &&& forall|c: int|
            0 <= c < self.num_channels ==> (#[trigger] self.delay_buffer@[c]).wf()
                && self.delay_buffer@[c]@.len() == capacity_of(
                self.sample_rate_hz as int,
                self.delay_us as int,
                self.width_us as int,
            )
        &&& self.lfo.wf()
        &&& self.lfo.rate() == self.sample_rate_hz
        &&& self.lfo.freq() == self.mod_freq_mhz
        &&& self.lfo.amp() == samples_of(self.width_us as int, self.sample_rate_hz as int)
        &&& self.lfo.table().len() == TABLE_SIZE
    }

    /// What `wf` gives a caller about the settings and the delay lines.
    pub proof fn lemma_wf(&self)
        requires
            self.wf(),
        ensures
            self.rate() > 0,
            0 <= self.width_us() <= self.delay_us(),
            self.mod_freq() > 0,
            self.setup().width * ONE <= self.setup().delay_pos,
            self.setup().delay_pos < (samples_of(self.delay_us(), self.rate()) + 1) * ONE,
            self.setup().width == samples_of(self.width_us(), self.rate()),
            self.lines().len() == self.channel_count(),
            forall|c: int|
                0 <= c < self.channel_count() ==> #[trigger] self.lines()[c].len() == capacity_of(
                    self.rate(),
                    self.delay_us(),
                    self.width_us(),
                ),
            self.table().len() == TABLE_SIZE,
            0 <= self.phase() < crate::lfo::period(TABLE_SIZE as nat),
            forall|i: int|
                0 <= i < TABLE_SIZE ==> -(ONE as int) <= #[trigger] self.table()[i] <= ONE,
    {
        self.lfo.lemma_wf();
        lemma_samples_monotonic(self.width_us as int, self.delay_us as int, self.sample_rate_hz as int);
        lemma_delay_pos_range(self.delay_us as int, self.sample_rate_hz as int);
        let ws = samples_of(self.width_us as int, self.sample_rate_hz as int);
        let ds = samples_of(self.delay_us as int, self.sample_rate_hz as int);
        assert(ws * ONE <= ds * ONE) by (nonlinear_arith)
            requires
                ws <= ds,
        ;
    }

    /// A filter with silent delay lines, or the error `config_error` names.
    /// The oscillator starts at phase 0 with amplitude the width in samples.
    pub fn new(
        sample_rate_hz: u32,
        delay_us: u64,
        width_us: u64,
        mod_freq_mhz: i32,
        num_channels: usize,
    ) -> (r: Result<Self, Error>)
        requires
            sample_rate_hz > 0,
            width_us <= delay_us && mod_freq_mhz > 0 ==> capacity_of(
                sample_rate_hz as int,
                delay_us as int,
                width_us as int,
            ) <= MAX_CAPACITY,
        ensures
            r is Err <==> config_error(delay_us as int, width_us as int, mod_freq_mhz as int) is Some,
            r is Err ==> r->Err_0 == config_error(
                delay_us as int,
                width_us as int,
                mod_freq_mhz as int,
            )->Some_0,
            r is Ok ==> {
                let f = r->Ok_0;
                &&& f.wf()
                &&& f.rate() == sample_rate_hz
                &&& f.delay_us() == delay_us
                &&& f.width_us() == width_us
                &&& f.mod_freq() == mod_freq_mhz
                &&& f.channel_count() == num_channels
                &&& f.lines() == Seq::new(
                    num_channels as nat,
                    |c: int|
                        silence(
                            capacity_of(sample_rate_hz as int, delay_us as int, width_us as int) as nat,
                        ),
                )
                &&& f.phase() == 0
                &&& f.table() == crate::lfo::sine_table(TABLE_SIZE as nat)
            },
    {
        match validate(delay_us, width_us, mod_freq_mhz) {
            Err(e) => {
                return Err(e);
            },
            Ok(()) => {},
        }
        let ds = samples_exec(delay_us, sample_rate_hz);
        let ws = samples_exec(width_us, sample_rate_hz);
        proof {
            lemma_samples_monotonic(width_us as int, delay_us as int, sample_rate_hz as int);
            lemma_delay_pos_range(delay_us as int, sample_rate_hz as int);
            assert((ds + 1) * ONE <= MAX_CAPACITY * ONE) by (nonlinear_arith)
                requires
                    ds + 1 <= MAX_CAPACITY,
            ;
        }
        let dp = delay_pos_exec(delay_us, sample_rate_hz);
        let capacity: usize = (2 + ds + 2 * ws) as usize;
        let delay_buffer = silent_lines(num_channels, capacity);
        let mut lfo = LFO::new(sample_rate_hz, TABLE_SIZE);
        lfo.set_frequency(mod_freq_mhz);
        lfo.set_amplitude(ws as u32);
        let f = VFilter {
            sample_rate_hz,
            delay_us,
            width_us,
            mod_freq_mhz,
            delay_pos: dp as u64,
            delay_buffer,
            lfo,
            num_channels,
        };
        assert(f.lines() =~= Seq::new(
            num_channels as nat,
            |c: int| silence(capacity as nat),
        ));
        Ok(f)
    }

    /// Silences every delay line. The oscillator runs on from its phase.
    pub fn reset(&mut self)
        requires
            old(self).wf(),
        ensures
            final(self).wf(),
            final(self).lines() == Seq::new(
                old(self).channel_count() as nat,
                |c: int|
                    silence(
                        capacity_of(old(self).rate(), old(self).delay_us(), old(self).width_us()) as nat,
                    ),
            ),
            final(self).setup() == old(self).setup(),
            final(self).phase() == old(self).phase(),
            final(self).channel_count() == old(self).channel_count(),
            final(self).delay_us() == old(self).delay_us(),
            final(self).width_us() == old(self).width_us(),
    {
        let ghost cap = capacity_of(self.rate(), self.delay_us(), self.width_us());
        let mut i: usize = 0;
        while i < self.num_channels
            invariant
                self.wf(),
                self.sample_rate_hz == old(self).sample_rate_hz,
                self.delay_us == old(self).delay_us,
                self.width_us == old(self).width_us,
                self.mod_freq_mhz == old(self).mod_freq_mhz,
                self.num_channels == old(self).num_channels,
                self.lfo == old(self).lfo,
                cap == capacity_of(self.rate(), self.delay_us(), self.width_us()),
                i <= self.num_channels,
                forall|c: int| 0 <= c < i ==> #[trigger] self.delay_buffer@[c]@ == silence(cap as nat),
            decreases self.num_channels - i,
        {
            self.delay_buffer[i].reset();
            i = i + 1;
        }
        assert(self.lines() =~= Seq::new(
            old(self).channel_count() as nat,
            |c: int| silence(cap as nat),
        ));
    }

    /// Changes delay, width and modulation frequency, or leaves the filter
    /// as it was and returns the error `config_error` names. On success every
    /// delay line is replaced by a silent one of the new length, even when
    /// the length is unchanged: the history is dropped on purpose. The
    /// oscillator keeps its phase and takes the new frequency and width.
    pub fn set_param(&mut self, delay_us: u64, width_us: u64, mod_freq_mhz: i32) -> (r: Result<
        (),
        Error,
    >)
        requires
            old(self).wf(),
            width_us <= delay_us && mod_freq_mhz > 0 ==> capacity_of(
                old(self).rate(),
                delay_us as int,
                width_us as int,
            ) <= MAX_CAPACITY,
        ensures
            final(self).wf(),
            r is Err <==> config_error(delay_us as int, width_us as int, mod_freq_mhz as int) is Some,
            r is Err ==> r->Err_0 == config_error(
                delay_us as int,
                width_us as int,
                mod_freq_mhz as int,
            )->Some_0 && *final(self) == *old(self),
            r is Ok ==> {
                &&& final(self).delay_us() == delay_us
                &&& final(self).width_us() == width_us
                &&& final(self).mod_freq() == mod_freq_mhz
                &&& final(self).rate() == old(self).rate()
                &&& final(self).channel_count() == old(self).channel_count()
                &&& final(self).lines() == Seq::new(
                    old(self).channel_count() as nat,
                    |c: int|
                        silence(capacity_of(old(self).rate(), delay_us as int, width_us as int) as nat),
                )
                &&& final(self).phase() == old(self).phase()
                &&& final(self).table() == old(self).table()
            },
    {
        match validate(delay_us, width_us, mod_freq_mhz) {
            Err(e) => {
                return Err(e);
            },
            Ok(()) => {},
        }
        let ds = samples_exec(delay_us, self.sample_rate_hz);
        let ws = samples_exec(width_us, self.sample_rate_hz);
        proof {
            lemma_samples_monotonic(width_us as int, delay_us as int, self.sample_rate_hz as int);
            lemma_delay_pos_range(delay_us as int, self.sample_rate_hz as int);
            assert((ds + 1) * ONE <= MAX_CAPACITY * ONE) by (nonlinear_arith)
                requires
                    ds + 1 <= MAX_CAPACITY,
            ;
        }
        let dp = delay_pos_exec(delay_us, self.sample_rate_hz);
        let capacity: usize = (2 + ds + 2 * ws) as usize;
        self.delay_us = delay_us;
        self.width_us = width_us;
        self.mod_freq_mhz = mod_freq_mhz;
        self.delay_pos = dp as u64;
        self.delay_buffer = silent_lines(self.num_channels, capacity);
        self.lfo.set_frequency(mod_freq_mhz);
        self.lfo.set_amplitude(ws as u32);
        assert(self.lines() =~= Seq::new(
            old(self).channel_count() as nat,
            |c: int| silence(capacity as nat),
        ));
        Ok(())
    }

    /// Base delay (microseconds), width (microseconds) and modulation
    /// frequency (millihertz).
    pub fn get_param(&self) -> (r: (u64, u64, i32))
        requires
            self.wf(),
        ensures
            r.0 == self.delay_us(),
            r.1 == self.width_us(),
            r.2 == self.mod_freq(),
    {
        (self.delay_us, self.width_us, self.mod_freq_mhz)
    }

    /// Runs one block through the filter. For each sample index the
    /// oscillator steps once; then, channel by channel, the input sample is
    /// pushed into the channel's delay line and the line is read at the base
    /// delay plus the modulation depth, into the output.
    pub fn process(&mut self, input: &[Vec<i32>], output: &mut Vec<Vec<i32>>)
        requires
            old(self).wf(),
            is_block(channels(input@), old(self).channel_count(), block_len(channels(input@))),
            is_block(
                channels(old(output)@),
                old(self).channel_count(),
                block_len(channels(input@)),
            ),
        ensures
            final(self).wf(),
            final(self).setup() == old(self).setup(),
            final(self).delay_us() == old(self).delay_us(),
            final(self).width_us() == old(self).width_us(),
            final(self).channel_count() == old(self).channel_count(),
            final(self).lines() == lines_after(old(self).lines(), channels(input@)),
            final(self).phase() == phase_after(
                old(self).phase(),
                old(self).mod_freq(),
                old(self).rate(),
                TABLE_SIZE as nat,
                block_len(channels(input@)) as nat,
            ),
            is_block(
                channels(final(output)@),
                old(self).channel_count(),
                block_len(channels(input@)),
            ),
            forall|c: int, t: int|
                0 <= c < old(self).channel_count() && 0 <= t < block_len(channels(input@)) ==> (
                #[trigger] final(output)@[c]@[t]) == vib_out(
                    old(self).setup(),
                    old(self).lines(),
                    old(self).phase(),
                    channels(input@),
                    c,
                    t,
                ),
    {
        let ghost s0 = self.setup();
        let ghost lines0 = self.lines();
        let ghost ph0 = self.phase();
        let ghost inp = channels(input@);
        let ghost count = self.num_channels as int;
        let ghost f0 = *self;
        proof {
            self.lemma_wf();
            assert(s0.delay_pos < MAX_CAPACITY * ONE) by (nonlinear_arith)
                requires
                    s0.delay_pos < (samples_of(self.delay_us(), self.rate()) + 1) * ONE,
                    samples_of(self.delay_us(), self.rate()) + 1 <= MAX_CAPACITY,
            ;
        }
        let n: usize = if input.len() == 0 {
            0
        } else {
            input[0].len()
        };
        assert(n == block_len(inp));
        let mut t: usize = 0;
        while t < n
            invariant
                self.wf(),
                self.setup() == s0,
                self.sample_rate_hz == old(self).sample_rate_hz,
                self.delay_us == old(self).delay_us,
                self.width_us == old(self).width_us,
                self.mod_freq_mhz == old(self).mod_freq_mhz,
                self.num_channels == count,
                self.delay_pos == s0.delay_pos,
                s0.width * ONE <= s0.delay_pos < MAX_CAPACITY * ONE,
                s0.width == self.lfo.amp(),
                f0.wf(),
                f0.setup() == s0,
                f0.phase() == ph0,
                f0.lines() == lines0,
                lines0 == old(self).lines(),
                lines0.len() == count,
                inp == channels(input@),
                is_block(inp, count, n as int),
                t <= n,
                self.lfo.phase() == phase_after(
                    ph0,
                    s0.freq_mhz,
                    s0.rate_hz,
                    TABLE_SIZE as nat,
                    t as nat,
                ),
                forall|c: int|
                    0 <= c < count ==> #[trigger] self.delay_buffer@[c]@ == push_all(
                        lines0[c],
                        inp[c].take(t as int),
                    ),
                is_block(channels(output@), count, n as int),
                forall|c: int, u: int|
                    0 <= c < count && 0 <= u < t ==> (#[trigger] output@[c]@[u]) == vib_out(
                        s0,
                        lines0,
                        ph0,
                        inp,
                        c,
                        u,
                    ),
            decreases n - t,
        {
            let depth = self.lfo.next_mod();
            let pos: u64 = (self.delay_pos as i64 + depth) as u64;
            assert(pos == s0.delay_pos + depth_at(s0, ph0, t as int));
            proof {
                lemma_read_within_line(f0, t as int);
            }
            let mut c: usize = 0;
            while c < self.num_channels
                invariant
                    self.wf(),
                    self.setup() == s0,
                    self.sample_rate_hz == old(self).sample_rate_hz,
                    self.delay_us == old(self).delay_us,
                    self.width_us == old(self).width_us,
                    self.mod_freq_mhz == old(self).mod_freq_mhz,
                    self.num_channels == count,
                    self.delay_pos == s0.delay_pos,
                    s0.width * ONE <= s0.delay_pos < MAX_CAPACITY * ONE,
                    s0.width == self.lfo.amp(),
                    0 <= pos as int / (ONE as int) + 1 < capacity_of(
                        self.sample_rate_hz as int,
                        self.delay_us as int,
                        self.width_us as int,
                    ),
                    lines0.len() == count,
                    inp == channels(input@),
                    is_block(inp, count, n as int),
                    t < n,
                    c <= count,
                    pos == s0.delay_pos + depth_at(s0, ph0, t as int),
                    self.lfo.phase() == phase_after(
                        ph0,
                        s0.freq_mhz,
                        s0.rate_hz,
                        TABLE_SIZE as nat,
                        (t + 1) as nat,
                    ),
                    forall|d: int|
                        0 <= d < count ==> #[trigger] self.delay_buffer@[d]@ == push_all(
                            lines0[d],
                            inp[d].take(if d < c {
                                t + 1
                            } else {
                                t as int
                            }),
                        ),
                    is_block(channels(output@), count, n as int),
                    forall|d: int, u: int|
                        0 <= d < count && 0 <= u < (if d < c {
                            t + 1
                        } else {
                            t as int
                        }) ==> (#[trigger] output@[d]@[u]) == vib_out(s0, lines0, ph0, inp, d, u),
                decreases count - c,
            {
                assert(inp[c as int] == input@[c as int]@);
                assert(channels(output@)[c as int] == output@[c as int]@);
                let x = input[c][t];
                self.delay_buffer[c].push(x);
                assert(inp[c as int].take(t + 1).drop_last() =~= inp[c as int].take(t as int));
                // Both samples the read blends lie inside the line: no wrap.
                assert(pos as int / (ONE as int) + 1 < self.delay_buffer@[c as int]@.len());
                let y = self.delay_buffer[c].get_frac(pos);
                assert(y == vib_out(s0, lines0, ph0, inp, c as int, t as int));
                let ghost out_before = output@;
                output[c].set(t, y);
                assert forall|d: int| 0 <= d < count implies #[trigger] channels(output@)[d].len()
                    == n by {
                    assert(channels(out_before)[d] == out_before[d]@);
                }
                assert forall|d: int, u: int|
                    0 <= d < count && 0 <= u < (if d < c + 1 {
                        t + 1
                    } else {
                        t as int
                    }) implies (#[trigger] output@[d]@[u]) == vib_out(
                    s0,
                    lines0,
                    ph0,
                    inp,
                    d,
                    u,
                ) by {
                    assert(channels(out_before)[d] == out_before[d]@);
                    if d != c {
                        assert(output@[d] == out_before[d]);
                    }
                }
                c = c + 1;
            }
            t = t + 1;
        }
        assert(self.lines() =~= lines_after(lines0, inp)) by {
            assert forall|c: int| 0 <= c < count implies inp[c].take(n as int) == inp[c] by {
                assert(inp[c].take(n as int) =~= inp[c]);
            }
        }
    }
}

/// A read from a history whose samples all lie in `[-ONE, ONE]` lies there
/// too.
proof fn lemma_read_frac_unit(h: Seq<i32>, pos: int)
    requires
        h.len() >= 1,
        pos >= 0,
        forall|i: int| 0 <= i < h.len() ==> -(ONE as int) <= #[trigger] h[i] <= ONE,
    ensures
        -(ONE as int) <= read_frac(h, pos) <= ONE,
{
    let i0 = (pos / (ONE as int)) % (h.len() as int);
    let i1 = (i0 + 1) % (h.len() as int);
    crate::fixed::lemma_lerp_bounds(h[i0] as int, h[i1] as int, pos % (ONE as int));
}

/// The modulation depth never exceeds the width, either way.
proof fn lemma_depth_bounds(f: VFilter, t: int)
    requires
        f.wf(),
        t >= 0,
    ensures
        -(f.setup().width * ONE) <= depth_at(f.setup(), f.phase(), t) <= f.setup().width * ONE,
{
    f.lemma_wf();
    let s = f.setup();
    let ph = phase_after(f.phase(), s.freq_mhz, s.rate_hz, s.table.len(), (t + 1) as nat);
    crate::lfo::lemma_phase_after_closed(f.phase(), s.freq_mhz, s.rate_hz, s.table.len(), (t + 1) as nat);
    let r = read_frac(s.table, ph);
    lemma_read_frac_unit(s.table, ph);
    let w = s.width as int;
    assert(-(w * ONE) <= r * w <= w * ONE) by (nonlinear_arith)
        requires
            -(ONE as int) <= r <= ONE,
            w >= 0,
    ;
}

/// Every read of the filter lands inside its delay lines: the position is
/// never negative, never beyond base delay plus width, and both samples it
/// blends (`pos / ONE` and the next older one) lie below the line's length,
/// so neither wraps round to the newest sample.
pub proof fn lemma_read_within_line(f: VFilter, t: int)
    requires
        f.wf(),
        t >= 0,
    ensures
        0 <= f.setup().delay_pos + depth_at(f.setup(), f.phase(), t) <= f.setup().delay_pos
            + f.setup().width * ONE,
        (f.setup().delay_pos + depth_at(f.setup(), f.phase(), t)) / (ONE as int) + 1 < capacity_of(
            f.rate(),
            f.delay_us(),
            f.width_us(),
        ),
{
    f.lemma_wf();
    lemma_depth_bounds(f, t);
    let s = f.setup();
    let one = ONE as int;
    let w = s.width as int;
    let ds = samples_of(f.delay_us(), f.rate());
    let pos = s.delay_pos + depth_at(s, f.phase(), t);
    vstd::arithmetic::div_mod::lemma_fundamental_div_mod(pos, one);
    vstd::arithmetic::div_mod::lemma_mod_pos_bound(pos, one);
    let k = pos / one;
    assert(k < ds + 1 + w) by (nonlinear_arith)
        requires
            pos == one * k + pos % one,
            0 <= pos % one,
            pos <= s.delay_pos + w * one,
            s.delay_pos < (ds + 1) * one,
            one > 0,
    ;
}

/// The modulation is silent: a width of zero gives a depth of zero.
proof fn lemma_zero_width_depth(f: VFilter, t: int)
    requires
        f.wf(),
        f.width_us() == 0,
    ensures
        f.setup().width == 0,
        depth_at(f.setup(), f.phase(), t) == 0,
{
    let s = f.setup();
    assert(samples_of(0, f.rate()) == 0);
    let ph = phase_after(f.phase(), s.freq_mhz, s.rate_hz, s.table.len(), (t + 1) as nat);
    let r = read_frac(s.table, ph);
    assert(r * 0 == 0);
}

/// With zero base delay and zero width the filter passes its input through
/// unchanged.
pub proof fn lemma_zero_delay_is_identity(f: VFilter, input: Seq<Seq<i32>>, c: int, t: int)
    requires
        f.wf(),
        f.delay_us() == 0,
        f.width_us() == 0,
        input.len() == f.channel_count(),
        0 <= c < f.channel_count(),
        0 <= t < input[c].len(),
    ensures
        vib_out(f.setup(), f.lines(), f.phase(), input, c, t) == input[c][t],
{
    f.lemma_wf();
    let s = f.setup();
    lemma_zero_width_depth(f, t);
    assert(0int * f.rate() * ONE == 0);
    assert(s.delay_pos == 0);
    let h = push_all(f.lines()[c], input[c].take(t + 1));
    crate::ring_buffer::lemma_push_all_index(f.lines()[c], input[c].take(t + 1), 0);
    vstd::arithmetic::div_mod::lemma_small_mod(0, h.len());
    crate::fixed::lemma_lerp_at_zero(h[0] as int, h[(0int + 1) % (h.len() as int)] as int);
}

/// With zero width, a base delay of a whole number `D` of samples and silent
/// delay lines, the output is the input shifted by `D`, with `D` samples of
/// silence in front.
pub proof fn lemma_zero_width_is_pure_delay(f: VFilter, input: Seq<Seq<i32>>, c: int, t: int)
    requires
        f.wf(),
        f.width_us() == 0,
        f.setup().delay_pos as int % (ONE as int) == 0,
        forall|d: int|
            0 <= d < f.channel_count() ==> #[trigger] f.lines()[d] == silence(
                f.lines()[d].len(),
            ),
        input.len() == f.channel_count(),
        0 <= c < f.channel_count(),
        0 <= t < input[c].len(),
    ensures
        vib_out(f.setup(), f.lines(), f.phase(), input, c, t) == if t >= f.setup().delay_pos as int / (
        ONE as int) {
            input[c][t - f.setup().delay_pos as int / (ONE as int)] as int
        } else {
            0
        },
{
    f.lemma_wf();
    let s = f.setup();
    let one = ONE as int;
    let d = s.delay_pos as int / one;
    lemma_zero_width_depth(f, t);
    lemma_read_within_line(f, t);
    vstd::arithmetic::div_mod::lemma_fundamental_div_mod(s.delay_pos as int, one);
    let cap = f.lines()[c].len() as int;
    assert(d + 1 < cap);
    let xs = input[c].take(t + 1);
    let h = push_all(f.lines()[c], xs);
    crate::ring_buffer::lemma_push_all_index(f.lines()[c], xs, d);
    vstd::arithmetic::div_mod::lemma_small_mod(d as nat, cap as nat);
    crate::fixed::lemma_lerp_at_zero(h[d] as int, h[(d + 1) % cap] as int);
}

/// A constant input comes out unchanged once the longest delay the
/// modulation can reach, base delay plus width, has passed.
pub proof fn lemma_constant_input_passes(
    f: VFilter,
    input: Seq<Seq<i32>>,
    c: int,
    t: int,
    v: i32,
)
    requires
        f.wf(),
        input.len() == f.channel_count(),
        0 <= c < f.channel_count(),
        0 <= t < input[c].len(),
        f.setup().delay_pos + f.setup().width * ONE <= t * ONE,
        forall|j: int| 0 <= j <= t ==> #[trigger] input[c][j] == v,
    ensures
        vib_out(f.setup(), f.lines(), f.phase(), input, c, t) == v,
{
    f.lemma_wf();
    lemma_read_within_line(f, t);
    let s = f.setup();
    let one = ONE as int;
    let pos = s.delay_pos + depth_at(s, f.phase(), t);
    let xs = input[c].take(t + 1);
    let h = push_all(f.lines()[c], xs);
    let cap = f.lines()[c].len() as int;
    assert(h.len() == cap) by {
        crate::ring_buffer::lemma_push_all_index(f.lines()[c], xs, 0);
    }
    vstd::arithmetic::div_mod::lemma_fundamental_div_mod(pos, one);
    vstd::arithmetic::div_mod::lemma_mod_pos_bound(pos, one);
    let k = pos / one;
    let fr = pos % one;
    assert(0 <= k <= t && (k == t ==> fr == 0)) by (nonlinear_arith)
        requires
            pos == one * k + fr,
            0 <= fr < one,
            0 <= pos <= t * one,
    ;
    vstd::arithmetic::div_mod::lemma_small_mod(k as nat, cap as nat);
    crate::ring_buffer::lemma_push_all_index(f.lines()[c], xs, k);
    assert(h[k] == v);
    if fr == 0 {
        crate::fixed::lemma_lerp_at_zero(v as int, h[(k + 1) % cap] as int);
    } else {
        vstd::arithmetic::div_mod::lemma_small_mod((k + 1) as nat, cap as nat);
        crate::ring_buffer::lemma_push_all_index(f.lines()[c], xs, k + 1);
        crate::fixed::lemma_lerp_same(v as int, fr);
    }
}

/// Two blocks joined, channel by channel.
pub open spec fn join_blocks(a: Seq<Seq<i32>>, b: Seq<Seq<i32>>) -> Seq<Seq<i32>> {
    Seq::new(a.len(), |c: int| a[c] + b[c])
}

/// Processing is independent of how the input is cut into blocks: running
/// `a` and then `b` gives the outputs, delay lines and oscillator phase that
/// running the two joined as one block does.
pub proof fn lemma_process_in_blocks(
    s: Setup,
    lines: Seq<Seq<i32>>,
    phase: int,
    a: Seq<Seq<i32>>,
    b: Seq<Seq<i32>>,
    na: int,
    nb: int,
)
    requires
        na >= 0,
        nb >= 0,
        is_block(a, lines.len() as int, na),
        is_block(b, lines.len() as int, nb),
    ensures
        lines_after(lines, join_blocks(a, b)) == lines_after(lines_after(lines, a), b),
        phase_after(phase, s.freq_mhz, s.rate_hz, s.table.len(), (na + nb) as nat) == phase_after(
            phase_after(phase, s.freq_mhz, s.rate_hz, s.table.len(), na as nat),
            s.freq_mhz,
            s.rate_hz,
            s.table.len(),
            nb as nat,
        ),
        forall|c: int, t: int|
            0 <= c < lines.len() && 0 <= t < na ==> #[trigger] vib_out(
                s,
                lines,
                phase,
                join_blocks(a, b),
                c,
                t,
            ) == vib_out(s, lines, phase, a, c, t),
        forall|c: int, t: int|
            0 <= c < lines.len() && 0 <= t < nb ==> #[trigger] vib_out(
                s,
                lines,
                phase,
                join_blocks(a, b),
                c,
                na + t,
            ) == vib_out(
                s,
                lines_after(lines, a),
                phase_after(phase, s.freq_mhz, s.rate_hz, s.table.len(), na as nat),
                b,
                c,
                t,
            ),
{
    let ab = join_blocks(a, b);
    let n = s.table.len();
    crate::lfo::lemma_phase_after_add(phase, s.freq_mhz, s.rate_hz, n, na as nat, nb as nat);
    assert forall|c: int| 0 <= c < lines.len() implies #[trigger] lines_after(lines, ab)[c]
        == lines_after(lines_after(lines, a), b)[c] by {
        crate::ring_buffer::lemma_push_all_concat(lines[c], a[c], b[c]);
    }
    assert(lines_after(lines, ab) =~= lines_after(lines_after(lines, a), b));
    assert forall|c: int, t: int| 0 <= c < lines.len() && 0 <= t < na implies #[trigger] vib_out(
        s,
        lines,
        phase,
        ab,
        c,
        t,
    ) == vib_out(s, lines, phase, a, c, t) by {
        assert(ab[c].take(t + 1) =~= a[c].take(t + 1));
    }
    assert forall|c: int, t: int| 0 <= c < lines.len() && 0 <= t < nb implies #[trigger] vib_out(
        s,
        lines,
        phase,
        ab,
        c,
        na + t,
    ) == vib_out(
        s,
        lines_after(lines, a),
        phase_after(phase, s.freq_mhz, s.rate_hz, n, na as nat),
        b,
        c,
        t,
    ) by {
        assert(ab[c].take(na + t + 1) =~= a[c] + b[c].take(t + 1));
        crate::ring_buffer::lemma_push_all_concat(lines[c], a[c], b[c].take(t + 1));
        crate::lfo::lemma_phase_after_add(phase, s.freq_mhz, s.rate_hz, n, na as nat, (t + 1) as nat);
        assert((na + t + 1) as nat == na as nat + (t + 1) as nat);
    }
}

} // verus!
