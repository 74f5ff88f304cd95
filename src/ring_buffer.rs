//! A fixed-capacity ring of samples that overwrites its oldest sample on each
//! push, and reads at fractional distances behind the newest one.
use vstd::prelude::*;
use crate::fixed::{lerp, lerp_sample, ONE};

verus! {

/// The history after `x` is pushed: `x` in front, the oldest sample gone.
pub open spec fn pushed(h: Seq<i32>, x: i32) -> Seq<i32> {
    seq![x] + h.drop_last()
}

/// A history of `n` samples that were never written.
pub open spec fn silence(n: nat) -> Seq<i32> {
    Seq::new(n, |k: int| 0i32)
}

/// The value read `pos / ONE` samples behind the newest one (in `h`, index 0
/// is the newest sample), interpolated towards the next older sample by the
/// fractional part of `pos`. Both integer positions wrap around the history.
pub open spec fn read_frac(h: Seq<i32>, pos: int) -> int {
    let i0 = (pos / (ONE as int)) % (h.len() as int);
    let i1 = (i0 + 1) % (h.len() as int);
    lerp(h[i0] as int, h[i1] as int, pos % (ONE as int))
}

/// The history after each sample of `xs` is pushed in turn.
pub open spec fn push_all(h: Seq<i32>, xs: Seq<i32>) -> Seq<i32>
    decreases xs.len(),
{
    if xs.len() == 0 {
        h
    } else {
        pushed(push_all(h, xs.drop_last()), xs.last())
    }
}

/// Sample `k` back after pushing `xs` is the `k`-th newest of `xs`, or, past
/// the start of `xs`, what the history held before.
pub proof fn lemma_push_all_index(h: Seq<i32>, xs: Seq<i32>, k: int)
    requires
        0 <= k < h.len(),
    ensures
        push_all(h, xs).len() == h.len(),
        push_all(h, xs)[k] == if k < xs.len() {
            xs[xs.len() - 1 - k]
        } else {
            h[k - xs.len()]
        },
    decreases xs.len(),
{
    if xs.len() > 0 {
        let ys = xs.drop_last();
        lemma_push_all_index(h, ys, 0);
        if k > 0 {
            lemma_push_all_index(h, ys, k - 1);
        }
    }
}

/// Pushing `a` and then `b` leaves the history that pushing `a + b` does.
pub proof fn lemma_push_all_concat(h: Seq<i32>, a: Seq<i32>, b: Seq<i32>)
    ensures
        push_all(push_all(h, a), b) == push_all(h, a + b),
    decreases b.len(),
{
    if b.len() == 0 {
        assert(a + b =~= a);
    } else {
        lemma_push_all_concat(h, a, b.drop_last());
        assert((a + b).drop_last() =~= a + b.drop_last());
    }
}

/// A ring that was never written reads as silence at every position.
pub proof fn lemma_fresh_reads_silence(c: nat, pos: int)
    requires
        c >= 1,
        pos >= 0,
    ensures
        read_frac(silence(c), pos) == 0,
{
    crate::fixed::lemma_lerp_same(0, pos % (ONE as int));
}

/// Once at least a capacity of samples has been pushed, offset 0 reads the
/// newest of them and offset one sample (for a capacity of two or more) the
/// one pushed just before it.
pub proof fn lemma_reads_latest(h: Seq<i32>, xs: Seq<i32>)
    requires
        h.len() >= 1,
        xs.len() >= h.len(),
    ensures
        read_frac(push_all(h, xs), 0) == xs[xs.len() - 1],
        h.len() >= 2 ==> read_frac(push_all(h, xs), ONE as int) == xs[xs.len() - 2],
{
    let g = push_all(h, xs);
    lemma_push_all_index(h, xs, 0);
    vstd::arithmetic::div_mod::lemma_small_mod(0, h.len());
    assert(0int / (ONE as int) == 0 && 0int % (ONE as int) == 0);
    crate::fixed::lemma_lerp_at_zero(g[0] as int, g[(0int + 1) % (h.len() as int)] as int);
    if h.len() >= 2 {
        lemma_push_all_index(h, xs, 1);
        let c = h.len() as int;
        assert((ONE as int) / (ONE as int) == 1);
        assert((ONE as int) % (ONE as int) == 0);
        vstd::arithmetic::div_mod::lemma_small_mod(1, c as nat);
        crate::fixed::lemma_lerp_at_zero(g[1] as int, g[2int % c] as int);
    }
}

/// A read between two neighbouring whole offsets `k` and `k + 1` is the
/// linear blend of the samples stored there, by the fraction `f / ONE`.
pub proof fn lemma_read_frac_linear(h: Seq<i32>, k: int, f: int)
    requires
        h.len() >= 1,
        k >= 0,
        0 <= f <= ONE,
    ensures
        read_frac(h, k * ONE + f) == lerp(
            h[k % (h.len() as int)] as int,
            h[(k + 1) % (h.len() as int)] as int,
            f,
        ),
{
    let c = h.len() as int;
    let one = ONE as int;
    let a = h[k % c] as int;
    let b = h[(k + 1) % c] as int;
    if f < one {
        vstd::arithmetic::div_mod::lemma_fundamental_div_mod_converse(k * one + f, one, k, f);
        vstd::arithmetic::div_mod::lemma_add_mod_noop(k, 1, c);
        vstd::arithmetic::div_mod::lemma_add_mod_noop(k % c, 1, c);
        vstd::arithmetic::div_mod::lemma_mod_twice(k, c);
    } else {
        assert(k * one + f == (k + 1) * one + 0) by (nonlinear_arith)
            requires
                f == one,
        ;
        vstd::arithmetic::div_mod::lemma_fundamental_div_mod_converse(k * one + f, one, k + 1, 0);
        crate::fixed::lemma_lerp_at_zero(b, h[((k + 1) % c + 1) % c] as int);
        crate::fixed::lemma_lerp_at_one(a, b);
    }
}

pub open spec fn abs_int(x: int) -> int {
    if x < 0 {
        -x
    } else {
        x
    }
}

/// Neighbouring entries of `h`, the last and the first included, differ by
/// at most `delta`.
pub open spec fn steps_within(h: Seq<i32>, delta: int) -> bool {
    forall|i: int| 0 <= i < h.len() ==> abs_int(h[(i + 1) % (h.len() as int)] - #[trigger] h[i]) <= delta
}

/// `ONE` times the blend of entry `k` (wrapped) and the next one by `f`,
/// before rounding.
spec fn seg(h: Seq<i32>, k: int, f: int) -> int {
    let i0 = k % (h.len() as int);
    h[i0] * (ONE - f) + h[(i0 + 1) % (h.len() as int)] * f
}

proof fn lemma_seg_slope(h: Seq<i32>, delta: int, k: int, f1: int, f2: int)
    requires
        h.len() >= 1,
        steps_within(h, delta),
        k >= 0,
        0 <= f1 <= f2 <= ONE,
    ensures
        abs_int(seg(h, k, f2) - seg(h, k, f1)) <= delta * (f2 - f1),
{
    let c = h.len() as int;
    let i0 = k % c;
    vstd::arithmetic::div_mod::lemma_mod_pos_bound(k, c);
    let a = h[i0] as int;
    let b = h[(i0 + 1) % c] as int;
    assert(abs_int(b - a) <= delta);
    assert(seg(h, k, f2) - seg(h, k, f1) == (b - a) * (f2 - f1)) by (nonlinear_arith)
        requires
            seg(h, k, f2) == a * (ONE - f2) + b * f2,
            seg(h, k, f1) == a * (ONE - f1) + b * f1,
    ;
    assert(abs_int((b - a) * (f2 - f1)) <= delta * (f2 - f1)) by (nonlinear_arith)
        requires
            abs_int(b - a) <= delta,
            f2 - f1 >= 0,
            abs_int(b - a) == if b - a < 0 { -(b - a) } else { b - a },
            abs_int((b - a) * (f2 - f1)) == if (b - a) * (f2 - f1) < 0 {
                -((b - a) * (f2 - f1))
            } else {
                (b - a) * (f2 - f1)
            },
    ;
}

/// The unrounded blend moves by at most `delta` per whole sample of
/// position.
#[verifier::rlimit(50)]
proof fn lemma_blend_lipschitz(h: Seq<i32>, delta: int, p1: int, p2: int)
    requires
        h.len() >= 1,
        steps_within(h, delta),
        0 <= p1 <= p2,
    ensures
        abs_int(seg(h, p2 / (ONE as int), p2 % (ONE as int)) - seg(
            h,
            p1 / (ONE as int),
            p1 % (ONE as int),
        )) <= delta * (p2 - p1),
    decreases p2 - p1,
{
    let one = ONE as int;
    let c = h.len() as int;
    vstd::arithmetic::div_mod::lemma_fundamental_div_mod(p1, one);
    vstd::arithmetic::div_mod::lemma_fundamental_div_mod(p2, one);
    vstd::arithmetic::div_mod::lemma_mod_pos_bound(p1, one);
    vstd::arithmetic::div_mod::lemma_mod_pos_bound(p2, one);
    let k1 = p1 / one;
    let k2 = p2 / one;
    let f1 = p1 % one;
    let f2 = p2 % one;
    vstd::arithmetic::div_mod::lemma_div_is_ordered(p1, p2, one);
    vstd::arithmetic::div_mod::lemma_div_pos_is_pos(p1, one);
    if k1 == k2 {
        lemma_seg_slope(h, delta, k1, f1, f2);
    } else {
        let b = (k1 + 1) * one;
        assert(b == one * k1 + one) by (nonlinear_arith)
            requires
                b == (k1 + 1) * one,
        ;
        vstd::arithmetic::mul::lemma_mul_inequality(k1 + 1, k2, one);
        assert(one * k2 == k2 * one) by (nonlinear_arith);
        vstd::arithmetic::div_mod::lemma_fundamental_div_mod_converse(b, one, k1 + 1, 0);
        lemma_seg_slope(h, delta, k1, f1, one);
        lemma_blend_lipschitz(h, delta, b, p2);
        // The end of one segment is the start of the next.
        vstd::arithmetic::div_mod::lemma_add_mod_noop(k1, 1, c);
        vstd::arithmetic::div_mod::lemma_add_mod_noop(k1 % c, 1, c);
        vstd::arithmetic::div_mod::lemma_mod_twice(k1, c);
        vstd::arithmetic::div_mod::lemma_mod_pos_bound(k1 + 1, c);
        assert(seg(h, k1, one) == seg(h, k1 + 1, 0));
        assert(delta * (one - f1) + delta * (p2 - b) == delta * (p2 - p1)) by (nonlinear_arith)
            requires
                p1 == one * k1 + f1,
                b == one * k1 + one,
        ;
    }
}

/// Reads move by at most `delta` per sample of position, plus one for the
/// rounding: for positions `p1 <= p2`, the reads differ by at most
/// `delta · (p2 - p1) / ONE + 1`.
pub proof fn lemma_read_frac_lipschitz(h: Seq<i32>, delta: int, p1: int, p2: int)
    requires
        h.len() >= 1,
        steps_within(h, delta),
        0 <= p1 <= p2,
    ensures
        abs_int(read_frac(h, p2) - read_frac(h, p1)) <= delta * (p2 - p1) / (ONE as int) + 1,
{
    let one = ONE as int;
    lemma_blend_lipschitz(h, delta, p1, p2);
    let x1 = seg(h, p1 / one, p1 % one);
    let x2 = seg(h, p2 / one, p2 % one);
    assert(read_frac(h, p1) == x1 / one);
    assert(read_frac(h, p2) == x2 / one);
    let d = delta * (p2 - p1);
    lemma_floor_gap(x1, x2, d);
    lemma_floor_gap(x2, x1, d);
}

/// Values at most `d` apart, divided by `ONE` and rounded down, end up at
/// most `d / ONE + 1` apart: here, `x2` is not that far above `x1`.
proof fn lemma_floor_gap(x1: int, x2: int, d: int)
    requires
        x2 - x1 <= d,
        d >= 0,
    ensures
        x2 / (ONE as int) - x1 / (ONE as int) <= d / (ONE as int) + 1,
{
    let one = ONE as int;
    vstd::arithmetic::div_mod::lemma_fundamental_div_mod(x1, one);
    vstd::arithmetic::div_mod::lemma_fundamental_div_mod(x2, one);
    vstd::arithmetic::div_mod::lemma_fundamental_div_mod(d, one);
    vstd::arithmetic::div_mod::lemma_mod_bound(x1, one);
    vstd::arithmetic::div_mod::lemma_mod_bound(x2, one);
    vstd::arithmetic::div_mod::lemma_mod_bound(d, one);
    let g = x2 / one - x1 / one - d / one;
    assert(one * g < 2 * one) by (nonlinear_arith)
        requires
            x1 == one * (x1 / one) + x1 % one,
            x2 == one * (x2 / one) + x2 % one,
            d == one * (d / one) + d % one,
            0 <= x1 % one < one,
            0 <= x2 % one,
            0 <= d % one,
            x2 - x1 <= d,
            g == x2 / one - x1 / one - d / one,
    ;
    assert(g < 2) by (nonlinear_arith)
        requires
            one * g < 2 * one,
            one > 0,
    ;
}

/// Reading one full turn further on reads the same.
pub proof fn lemma_read_frac_periodic(h: Seq<i32>, pos: int)
    requires
        h.len() >= 1,
        pos >= 0,
    ensures
        read_frac(h, pos + h.len() * ONE) == read_frac(h, pos),
{
    let one = ONE as int;
    let c = h.len() as int;
    vstd::arithmetic::div_mod::lemma_fundamental_div_mod(pos, one);
    vstd::arithmetic::div_mod::lemma_mod_pos_bound(pos, one);
    let k = pos / one;
    assert(pos + c * one == (k + c) * one + pos % one) by (nonlinear_arith)
        requires
            pos == one * k + pos % one,
    ;
    vstd::arithmetic::div_mod::lemma_fundamental_div_mod_converse(pos + c * one, one, k + c, pos % one);
    vstd::arithmetic::div_mod::lemma_mod_add_multiples_vanish(k, c);
    assert(k + c == c + k);
}

/// Where the sample `k` pushes back is stored, given the next slot to write.
spec fn slot_of(head: int, cap: int, k: int) -> int {
    if k < head {
        head - 1 - k
    } else {
        head + cap - 1 - k
    }
}

pub struct RingBuffer {
    buf: Vec<i32>,
    head: usize,
}

impl View for RingBuffer {
    /// The stored samples from the newest (index 0) to the oldest; slots
    /// never written read as zero.
    type V = Seq<i32>;

    closed spec fn view(&self) -> Seq<i32> {
        Seq::new(
            self.buf@.len(),
            |k: int| self.buf@[slot_of(self.head as int, self.buf@.len() as int, k)],
        )
    }
}

impl RingBuffer {
    pub closed spec fn wf(&self) -> bool {
        &&& self.buf@.len() >= 1
        &&& self.head < self.buf@.len()
    }

    /// A ring of `capacity` silent samples.
    pub fn new(capacity: usize) -> (r: Self)
        requires
            capacity >= 1,
        ensures
            r.wf(),
            r@ == silence(capacity as nat),
    {
        let buf = vec![0i32; capacity];
        let r = RingBuffer { buf, head: 0 };
        assert(r@ =~= silence(capacity as nat));
        r
    }

    /// The number of samples the ring holds; fixed at construction.
    pub fn capacity(&self) -> (r: usize)
        requires
            self.wf(),
        ensures
            r == self@.len(),
            r >= 1,
    {
        self.buf.len()
    }

    /// Stores `x` as the newest sample, dropping the oldest.
    pub fn push(&mut self, x: i32)
        requires
            old(self).wf(),
        ensures
            final(self).wf(),
            final(self)@ == pushed(old(self)@, x),
    {
        let ghost before = self@;
        let h = self.head;
        let n = self.buf.len();
        self.buf.set(h, x);
        if h + 1 == n {
            self.head = 0;
        } else {
            self.head = h + 1;
        }
        assert(self@ =~= pushed(before, x));
    }

    /// Forgets every stored sample: the ring reads as silence again.
    pub fn reset(&mut self)
        requires
            old(self).wf(),
        ensures
            final(self).wf(),
            final(self)@ == silence(old(self)@.len()),
    {
        let n = self.buf.len();
        let mut i: usize = 0;
        while i < n
            invariant
                self.buf@.len() == n,
                n >= 1,
                self.head < n,
                i <= n,
                forall|j: int| 0 <= j < i ==> self.buf@[j] == 0,
            decreases n - i,
        {
            self.buf.set(i, 0);
            i = i + 1;
        }
        self.head = 0;
        assert(self@ =~= silence(n as nat));
    }

    /// The sample `k` pushes back, wrapping around the capacity.
    pub fn get(&self, k: usize) -> (r: i32)
        requires
            self.wf(),
        ensures
            r == self@[k as int % self@.len() as int],
    {
        let i = k % self.buf.len();
        self.at(i)
    }

    fn at(&self, k: usize) -> (r: i32)
        requires
            self.wf(),
            k < self@.len(),
        ensures
            r == self@[k as int],
    {
        if k < self.head {
            self.buf[self.head - 1 - k]
        } else {
            self.buf[self.head + (self.buf.len() - 1 - k)]
        }
    }

    /// Reads `pos / ONE` samples behind the newest one, interpolating
    /// linearly towards the next older sample by the fraction `pos % ONE`.
    /// Offset 0 is the sample pushed last.
    pub fn get_frac(&self, pos: u64) -> (r: i32)
        requires
            self.wf(),
        ensures
            r == read_frac(self@, pos as int),
    {
        let cap = self.buf.len();
        let k: u64 = pos / (ONE as u64);
        let f: u32 = (pos % (ONE as u64)) as u32;
        let i0: usize = (k % (cap as u64)) as usize;
        let i1: usize = if i0 + 1 == cap {
            0
        } else {
            i0 + 1
        };
        proof {
            if i0 + 1 < cap {
                vstd::arithmetic::div_mod::lemma_small_mod((i0 + 1) as nat, cap as nat);
            } else {
                vstd::arithmetic::div_mod::lemma_mod_self_0(cap as int);
            }
            assert(i0 as int == (pos as int / (ONE as int)) % (self@.len() as int));
            assert(i1 as int == (i0 as int + 1) % (self@.len() as int));
            assert(f as int == pos as int % (ONE as int));
        }
        let a = self.at(i0);
        let b = self.at(i1);
        lerp_sample(a, b, f)
    }
}

} // verus!
