use vstd::prelude::*;
use vstd::arithmetic::div_mod::{lemma_div_is_ordered, lemma_div_multiples_vanish};

verus! {

/// Fixed-point scale: this many units stand for an amplitude of 1.0.
pub const SAMPLE_SCALE: i64 = 1000;

/// Largest magnitude accepted for a raw capture sample.
pub const SAMPLE_LIMIT: i64 = 1000000;

/// Largest magnitude a conditioned (filtered and amplified) sample can
/// reach, and the bound under which energy computation is proved safe.
pub const CONDITIONED_LIMIT: i64 = 250000000;

/// Bound on the high-pass filter state that its update preserves.
pub const HP_STATE_BOUND: i64 = 38000000;

// ─── Root-mean-square energy ──────────────────────────────────────────

/// Sum of squared samples.
pub open spec fn sum_squares(s: Seq<i64>) -> int
    decreases s.len(),
{
    if s.len() == 0 {
        0int
    } else {
        s[0] * s[0] + sum_squares(s.drop_first())
    }
}

/// The integer square root, rounded down.
pub open spec fn sqrt_floor(n: int) -> int
    decreases n,
{
    if n <= 0 {
        0int
    } else {
        let r = sqrt_floor(n - 1);
        if (r + 1) * (r + 1) <= n {
            r + 1
        } else {
            r
        }
    }
}

/// `sqrt_floor` is the rounded-down square root.
pub proof fn lemma_sqrt_floor(n: int)
    requires
        n >= 0,
    ensures
        sqrt_floor(n) >= 0,
        sqrt_floor(n) * sqrt_floor(n) <= n,
        n < (sqrt_floor(n) + 1) * (sqrt_floor(n) + 1),
    decreases n,
{
    if n == 0 {
    } else {
        lemma_sqrt_floor(n - 1);
        let r = sqrt_floor(n - 1);
        if (r + 1) * (r + 1) <= n {
            assert(n - 1 < (r + 1) * (r + 1));
            assert(n == (r + 1) * (r + 1));
            assert((r + 2) * (r + 2) > (r + 1) * (r + 1)) by (nonlinear_arith)
                requires
                    r >= 0,
            ;
        }
    }
}

/// Any value with the square-root property is `sqrt_floor`.
pub proof fn lemma_sqrt_floor_unique(n: int, r: int)
    requires
        n >= 0,
        r >= 0,
        r * r <= n,
        n < (r + 1) * (r + 1),
    ensures
        r == sqrt_floor(n),
{
    lemma_sqrt_floor(n);
    let s = sqrt_floor(n);
    if r < s {
        assert((r + 1) * (r + 1) <= s * s) by (nonlinear_arith)
            requires
                0 <= r,
                r + 1 <= s,
        ;
    }
    if s < r {
        assert((s + 1) * (s + 1) <= r * r) by (nonlinear_arith)
            requires
                0 <= s,
                s + 1 <= r,
        ;
    }
}

/// Bounded samples give a bounded sum of squares.
proof fn lemma_sum_squares_bound(s: Seq<i64>, m: int)
    requires
        m >= 0,
        forall|i: int| 0 <= i < s.len() ==> -m <= #[trigger] s[i] <= m,
    ensures
        0 <= sum_squares(s) <= s.len() * (m * m),
    decreases s.len(),
{
    if s.len() == 0 {
    } else {
        assert(-m <= s[0] <= m);
        assert(s[0] * s[0] <= m * m) by (nonlinear_arith)
            requires
                -m <= s[0] <= m,
        ;
        assert(s[0] * s[0] >= 0) by (nonlinear_arith);
        let t = s.drop_first();
        assert forall|i: int| 0 <= i < t.len() implies -m <= #[trigger] t[i] <= m by {
            assert(t[i] == s[i + 1]);
        }
        lemma_sum_squares_bound(t, m);
        assert(s.len() * (m * m) == m * m + t.len() * (m * m)) by (nonlinear_arith)
            requires
                t.len() == s.len() - 1,
        ;
    }
}

/// A constant sequence's sum of squares.
proof fn lemma_sum_squares_constant(s: Seq<i64>, c: i64)
    requires
        forall|i: int| 0 <= i < s.len() ==> s[i] == c,
    ensures
        sum_squares(s) == s.len() * (c * c),
    decreases s.len(),
{
    if s.len() == 0 {
    } else {
        let t = s.drop_first();
        lemma_sum_squares_constant(t, c);
        assert(s.len() * (c * c) == c * c + t.len() * (c * c)) by (nonlinear_arith)
            requires
                t.len() == s.len() - 1,
        ;
    }
}

/// Rounded-down square root by bisection.
fn isqrt(x: u128) -> (r: u64)
    requires
        x <= 1000000000000000000,
    ensures
        r as int == sqrt_floor(x as int),
{
    let mut lo: u64 = 0;
    let mut hi: u64 = 1000000001;
    proof {
        assert((1000000001 as int) * (1000000001 as int) > x as int);
    }
    while lo + 1 < hi
        invariant
            lo < hi <= 1000000001,
            (lo as int) * (lo as int) <= x as int,
            (x as int) < (hi as int) * (hi as int),
        decreases hi - lo,
    {
        let mid = lo + (hi - lo) / 2;
        proof {
            assert((mid as int) * (mid as int) <= (1000000001 as int) * (1000000001 as int))
                by (nonlinear_arith)
                requires
                    0 <= mid as int <= 1000000001,
            ;
        }
        let sq = (mid as u128) * (mid as u128);
        if sq <= x {
            lo = mid;
        } else {
            hi = mid;
        }
    }
    proof {
        assert(hi == lo + 1);
        lemma_sqrt_floor_unique(x as int, lo as int);
    }
    lo
}

/// Copy a slice of samples.
pub fn samples_subrange(v: &Vec<i64>, from: usize, to: usize) -> (r: Vec<i64>)
    requires
        from <= to <= v@.len(),
    ensures
        r@ == v@.subrange(from as int, to as int),
{
    let mut r: Vec<i64> = Vec::new();
    let mut i: usize = from;
    while i < to
        invariant
            from <= i <= to <= v@.len(),
            r@ == v@.subrange(from as int, i as int),
        decreases to - i,
    {
        r.push(v[i]);
        i = i + 1;
        proof {
            assert(r@ =~= v@.subrange(from as int, i as int));
        }
    }
    r
}

/// Root-mean-square energy of a sample slice, in fixed-point units: the
/// rounded-down square root of the mean squared sample. An empty slice has
/// zero energy.
pub fn calculate_rms(data: &Vec<i64>) -> (r: u64)
    requires
        forall|i: int| 0 <= i < data@.len() ==> -CONDITIONED_LIMIT <= #[trigger] data@[i] <= CONDITIONED_LIMIT,
    ensures
        data@.len() == 0 ==> r == 0,
        data@.len() > 0 ==> r as int == sqrt_floor(sum_squares(data@) / data@.len() as int),
{
    let n = data.len();
    if n == 0 {
        return 0;
    }
    let ghost m = CONDITIONED_LIMIT as int;
    let mut acc: u128 = 0;
    let mut i: usize = 0;
    proof {
        assert(data@.skip(0) =~= data@);
        lemma_sum_squares_bound(data@, m);
    }
    while i < n
        invariant
            n == data@.len(),
            i <= n,
            forall|j: int| 0 <= j < data@.len() ==> -CONDITIONED_LIMIT <= #[trigger] data@[j]
                <= CONDITIONED_LIMIT,
            sum_squares(data@) == acc + sum_squares(data@.skip(i as int)),
            acc <= (i as int) * ((CONDITIONED_LIMIT as int) * (CONDITIONED_LIMIT as int)),
        decreases n - i,
    {
        let ghost tail = data@.skip(i as int);
        proof {
            assert(tail[0] == data@[i as int]);
            assert(tail.drop_first() =~= data@.skip(i + 1));
        }
        let v = data[i];
        let av: u64 = if v >= 0 {
            v as u64
        } else {
            (-v) as u64
        };
        proof {
            assert((av as int) * (av as int) <= (CONDITIONED_LIMIT as int) * (
            CONDITIONED_LIMIT as int)) by (nonlinear_arith)
                requires
                    0 <= av as int <= CONDITIONED_LIMIT as int,
            ;
            assert(0 <= av as int <= CONDITIONED_LIMIT as int);
        }
        let sq: u128 = (av as u128) * (av as u128);
        proof {
            assert(sq as int == (v as int) * (v as int)) by (nonlinear_arith)
                requires
                    av as int == if v >= 0 {
                        v as int
                    } else {
                        -(v as int)
                    },
                    sq as int == (av as int) * (av as int),
            ;
            assert(sq <= (CONDITIONED_LIMIT as u128) * (CONDITIONED_LIMIT as u128))
                by (nonlinear_arith)
                requires
                    -(CONDITIONED_LIMIT as int) <= v as int <= CONDITIONED_LIMIT as int,
                    sq as int == (v as int) * (v as int),
            ;
            assert((i + 1) * ((CONDITIONED_LIMIT as int) * (CONDITIONED_LIMIT as int)) == (
            i as int) * ((CONDITIONED_LIMIT as int) * (CONDITIONED_LIMIT as int)) + (
            CONDITIONED_LIMIT as int) * (CONDITIONED_LIMIT as int)) by (nonlinear_arith);
            assert((i as int) * ((CONDITIONED_LIMIT as int) * (CONDITIONED_LIMIT as int)) <= (
            18446744073709551615 as int) * ((CONDITIONED_LIMIT as int) * (
            CONDITIONED_LIMIT as int))) by (nonlinear_arith)
                requires
                    0 <= i as int <= 18446744073709551615,
            ;
        }
        acc = acc + sq;
        i = i + 1;
    }
    proof {
        assert(data@.skip(n as int) =~= Seq::<i64>::empty());
        assert(sum_squares(data@) == acc);
    }
    let mean: u128 = acc / (n as u128);
    proof {
        assert(mean as int == sum_squares(data@) / (n as int));
        assert(sum_squares(data@) <= (n as int) * ((CONDITIONED_LIMIT as int) * (
        CONDITIONED_LIMIT as int)));
        lemma_div_is_ordered(
            sum_squares(data@),
            (n as int) * ((CONDITIONED_LIMIT as int) * (CONDITIONED_LIMIT as int)),
            n as int,
        );
        lemma_div_multiples_vanish(
            (CONDITIONED_LIMIT as int) * (CONDITIONED_LIMIT as int),
            n as int,
        );
        assert(mean <= (CONDITIONED_LIMIT as u128) * (CONDITIONED_LIMIT as u128));
    }
    isqrt(mean)
}

/// The energy of a constant slice: zero for silence, the amplitude itself
/// for a constant amplitude.
pub proof fn lemma_rms_constant(s: Seq<i64>, c: i64)
    requires
        s.len() > 0,
        c >= 0,
        forall|i: int| 0 <= i < s.len() ==> s[i] == c,
    ensures
        sqrt_floor(sum_squares(s) / s.len() as int) == c,
{
    lemma_sum_squares_constant(s, c);
    lemma_div_multiples_vanish((c as int) * (c as int), s.len() as int);
    assert(sum_squares(s) / s.len() as int == (c as int) * (c as int));
    assert((c as int) * (c as int) < (c + 1) * (c + 1)) by (nonlinear_arith)
        requires
            c >= 0,
    ;
    lemma_sqrt_floor_unique((c as int) * (c as int), c as int);
}

// ─── Signal conditioning for the hushed-voice mode ────────────────────

/// Division rounded toward zero, as the hardware computes it.
pub open spec fn div_trunc(a: int, b: int) -> int {
    if a >= 0 {
        a / b
    } else {
        -((-a) / b)
    }
}

/// State of the single-pole high-pass filter: the previous raw sample and
/// the previous filtered sample.
pub struct HighPassState {
    pub prev_in: i64,
    pub prev_out: i64,
}

/// The filter's next output, before amplification: a pole of 19/20, about
/// a 120 Hz cutoff at a 16 kHz sample rate.
pub open spec fn hp_next_out(st: HighPassState, x: i64) -> int {
    div_trunc(19 * (st.prev_out + x - st.prev_in), 20)
}

/// The +15 dB gain applied after the filter: a factor of 5.62.
pub open spec fn hp_gained(out: int) -> int {
    div_trunc(562 * out, 100)
}

/// The filter state after one sample.
pub open spec fn hp_step_state(st: HighPassState, x: i64) -> HighPassState {
    HighPassState { prev_in: x, prev_out: hp_next_out(st, x) as i64 }
}

impl HighPassState {
    /// The state stays inside the bounds that keep every computation exact.
    pub open spec fn wf(&self) -> bool {
        &&& -SAMPLE_LIMIT <= self.prev_in <= SAMPLE_LIMIT
        &&& -HP_STATE_BOUND <= self.prev_out <= HP_STATE_BOUND
    }

    /// The quiescent filter.
    pub fn new() -> (r: HighPassState)
        ensures
            r.prev_in == 0,
            r.prev_out == 0,
            r.wf(),
    {
        HighPassState { prev_in: 0, prev_out: 0 }
    }

    /// Pass one sample through the filter and the gain stage.
    pub fn step(&mut self, sample: i64) -> (r: i64)
        requires
            old(self).wf(),
            -SAMPLE_LIMIT <= sample <= SAMPLE_LIMIT,
        ensures
            final(self).wf(),
            *final(self) == hp_step_state(*old(self), sample),
            r as int == hp_gained(hp_next_out(*old(self), sample)),
            -CONDITIONED_LIMIT <= r <= CONDITIONED_LIMIT,
    {
        let diff: i64 = self.prev_out + sample - self.prev_in;
        let num: i64 = 19 * diff;
        let out: i64 = if num >= 0 {
            (((num as u64) / 20) as i64)
        } else {
            -((((-num) as u64) / 20) as i64)
        };
        proof {
            assert(out as int == div_trunc(num as int, 20));
            assert(-HP_STATE_BOUND <= out <= HP_STATE_BOUND);
        }
        self.prev_in = sample;
        self.prev_out = out;
        let gnum: i64 = 562 * out;
        let g: i64 = if gnum >= 0 {
            (((gnum as u64) / 100) as i64)
        } else {
            -((((-gnum) as u64) / 100) as i64)
        };
        proof {
            assert(g as int == div_trunc(gnum as int, 100));
            assert(-CONDITIONED_LIMIT <= g <= CONDITIONED_LIMIT);
        }
        g
    }
}

/// The filter state after a whole chunk.
pub open spec fn hp_final(st: HighPassState, xs: Seq<i64>) -> HighPassState
    decreases xs.len(),
{
    if xs.len() == 0 {
        st
    } else {
        hp_final(hp_step_state(st, xs[0]), xs.drop_first())
    }
}

/// The conditioned samples a whole chunk produces.
pub open spec fn hp_out(st: HighPassState, xs: Seq<i64>) -> Seq<i64>
    decreases xs.len(),
{
    if xs.len() == 0 {
        Seq::empty()
    } else {
        seq![hp_gained(hp_next_out(st, xs[0])) as i64] + hp_out(
            hp_step_state(st, xs[0]),
            xs.drop_first(),
        )
    }
}

} // verus!
