use vstd::prelude::*;
use vstd::wrapping::u64_specs::{wrapping_add, wrapping_mul};
use crate::bench::{CHECKSUM_OFFSET, CHECKSUM_PRIME, LCG_MULTIPLIER, LCG_INCREMENT};
use crate::text::{decimal_string, spec_decimal};
use crate::parallel_for::{mul_saturating, div_ceil};

verus! {

/// Checksum of bytes: multiply by the prime, then add the next value.
pub open spec fn spec_checksum_u8(values: Seq<u8>) -> u64
    decreases values.len(),
{
    if values.len() == 0 {
        CHECKSUM_OFFSET
    } else {
        wrapping_add(wrapping_mul(spec_checksum_u8(values.drop_last()), CHECKSUM_PRIME), values.last() as u64)
    }
}

pub fn checksum_u8(values: &[u8]) -> (r: u64)
    ensures
        r == spec_checksum_u8(values@),
{
    let mut acc = CHECKSUM_OFFSET;
    let mut i: usize = 0;
    while i < values.len()
        invariant
            i <= values@.len(),
            acc == spec_checksum_u8(values@.subrange(0, i as int)),
        decreases values@.len() - i,
    {
        proof {
            assert(values@.subrange(0, i + 1).drop_last() =~= values@.subrange(0, i as int));
        }
        acc = acc.wrapping_mul(CHECKSUM_PRIME).wrapping_add(values[i] as u64);
        i = i + 1;
    }
    proof {
        assert(values@.subrange(0, values@.len() as int) =~= values@);
    }
    acc
}

/// Checksum of 32-bit integers, each taken by its two's-complement bits.
pub open spec fn spec_checksum_i32(values: Seq<i32>) -> u64
    decreases values.len(),
{
    if values.len() == 0 {
        CHECKSUM_OFFSET
    } else {
        wrapping_add(wrapping_mul(spec_checksum_i32(values.drop_last()), CHECKSUM_PRIME), (values.last() as u32) as u64)
    }
}

pub fn checksum_i32(values: &[i32]) -> (r: u64)
    ensures
        r == spec_checksum_i32(values@),
{
    let mut acc = CHECKSUM_OFFSET;
    let mut i: usize = 0;
    while i < values.len()
        invariant
            i <= values@.len(),
            acc == spec_checksum_i32(values@.subrange(0, i as int)),
        decreases values@.len() - i,
    {
        proof {
            assert(values@.subrange(0, i + 1).drop_last() =~= values@.subrange(0, i as int));
        }
        acc = acc.wrapping_mul(CHECKSUM_PRIME).wrapping_add(values[i] as u32 as u64);
        i = i + 1;
    }
    proof {
        assert(values@.subrange(0, values@.len() as int) =~= values@);
    }
    acc
}

/// Chunk size for about four chunks per worker (at least one worker), at
/// least 1.
pub fn auto_chunk_size_for_workers(len: usize, workers: usize) -> (r: usize)
    ensures
        r == ({
            let target = mul_saturating(if workers > 1 { workers as nat } else { 1 }, 4);
            let c = div_ceil(len as nat, target);
            if c > 1 { c } else { 1 }
        }),
{
    let w = if workers > 1 { workers } else { 1 };
    let target = if w > usize::MAX / 4 { usize::MAX } else { w * 4 };
    assert(len / target < usize::MAX) by (nonlinear_arith) requires target >= 4, len <= usize::MAX;
    let c = if len % target == 0 { len / target } else { len / target + 1 };
    if c > 1 { c } else { 1 }
}

/// A measured problem size and its label in the report.
pub struct PointSpec {
    pub label: String,
    pub value: usize,
}

fn point(value: usize) -> (p: PointSpec)
    ensures
        p.value == value,
        p.label@ == spec_decimal(value as nat),
{
    PointSpec { label: decimal_string(value as u64), value }
}

pub open spec fn pow2(e: nat) -> nat
    decreases e,
{
    if e == 0 { 1 } else { 2 * pow2((e - 1) as nat) }
}

/// Points `2^start_exp, ..., 2^end_exp`, labelled by their values.
pub fn pow2_points(start_exp: usize, end_exp: usize) -> (r: Vec<PointSpec>)
    requires
        end_exp < 64,
        pow2(end_exp as nat) <= usize::MAX,
    ensures
        r@.len() == (if start_exp <= end_exp { end_exp - start_exp + 1 } else { 0 }),
        forall|k: int| 0 <= k < r@.len() ==> (#[trigger] r@[k]).value == pow2((start_exp + k) as nat)
            && r@[k].label@ == spec_decimal(r@[k].value as nat),
{
    let mut points: Vec<PointSpec> = Vec::new();
    if start_exp > end_exp {
        return points;
    }
    let mut e = start_exp;
    let mut value: usize = 1;
    let mut i: usize = 0;
    while i < start_exp
        invariant
            i <= start_exp <= end_exp < 64,
            pow2(end_exp as nat) <= usize::MAX,
            value == pow2(i as nat),
        decreases start_exp - i,
    {
        proof {
            lemma_pow2_mono(i as nat + 1, end_exp as nat);
        }
        value = value * 2;
        i = i + 1;
    }
    while e <= end_exp
        invariant
            start_exp <= e <= end_exp + 1,
            end_exp < 64,
            pow2(end_exp as nat) <= usize::MAX,
            e <= end_exp ==> value == pow2(e as nat),
            points@.len() == e - start_exp,
            forall|k: int| 0 <= k < points@.len() ==> (#[trigger] points@[k]).value == pow2((start_exp + k) as nat)
                && points@[k].label@ == spec_decimal(points@[k].value as nat),
        decreases end_exp + 1 - e,
    {
        points.push(point(value));
        if e < end_exp {
            proof {
                lemma_pow2_mono(e as nat + 1, end_exp as nat);
            }
            value = value * 2;
        }
        e = e + 1;
    }
    points
}

proof fn lemma_pow2_mono(a: nat, b: nat)
    requires
        a <= b,
    ensures
        pow2(a) <= pow2(b),
    decreases b,
{
    if a < b {
        lemma_pow2_mono(a, (b - 1) as nat);
    }
}

/// Points `start, start + step, ...` up to `end`, labelled by their values.
pub fn stepped_points(start: usize, end: usize, step: usize) -> (r: Vec<PointSpec>)
    requires
        step > 0,
        end + step <= usize::MAX,
    ensures
        forall|k: int| 0 <= k < r@.len() ==> (#[trigger] r@[k]).value == start + k * step
            && r@[k].value <= end
            && r@[k].label@ == spec_decimal(r@[k].value as nat),
        start + r@.len() * step > end,
{
    let mut points: Vec<PointSpec> = Vec::new();
    let mut value = start;
    let ghost mut k: int = 0;
    while value <= end
        invariant
            step > 0,
            end + step <= usize::MAX,
            value == start + k * step,
            points@.len() == k,
            forall|j: int| 0 <= j < points@.len() ==> (#[trigger] points@[j]).value == start + j * step
                && points@[j].value <= end
                && points@[j].label@ == spec_decimal(points@[j].value as nat),
        decreases end + step - value,
    {
        points.push(point(value));
        proof {
            assert((k + 1) * step == k * step + step) by (nonlinear_arith);
            k = k + 1;
        }
        value = value + step;
    }
    points
}

pub open spec fn pow10(e: nat) -> nat
    decreases e,
{
    if e == 0 { 1 } else { 10 * pow10((e - 1) as nat) }
}

/// Points `10, 100, ..., 10^max_power`, labelled by their values.
pub fn decimal_points(max_power: u32) -> (r: Vec<PointSpec>)
    requires
        max_power < 20,
        pow10(max_power as nat) <= usize::MAX,
    ensures
        r@.len() == max_power,
        forall|k: int| 0 <= k < r@.len() ==> (#[trigger] r@[k]).value == pow10((k + 1) as nat)
            && r@[k].label@ == spec_decimal(r@[k].value as nat),
{
    let mut points: Vec<PointSpec> = Vec::new();
    let mut power: u32 = 1;
    let mut value: usize = 10;
    proof {
        assert(pow10(1) == 10) by {
            assert(pow10(0) == 1);
        }
    }
    while power <= max_power
        invariant
            1 <= power <= max_power + 1,
            max_power < 20,
            pow10(max_power as nat) <= usize::MAX,
            power <= max_power ==> value == pow10(power as nat),
            points@.len() == power - 1,
            forall|k: int| 0 <= k < points@.len() ==> (#[trigger] points@[k]).value == pow10((k + 1) as nat)
                && points@[k].label@ == spec_decimal(points@[k].value as nat),
        decreases max_power + 1 - power,
    {
        points.push(point(value));
        if power < max_power {
            proof {
                lemma_pow10_mono(power as nat + 1, max_power as nat);
            }
            value = value * 10;
        }
        power = power + 1;
    }
    points
}

pub(crate) proof fn lemma_pow10_mono(a: nat, b: nat)
    requires
        a <= b,
    ensures
        pow10(a) <= pow10(b),
    decreases b,
{
    if a < b {
        lemma_pow10_mono(a, (b - 1) as nat);
    }
}

/// Points for the wavefront case: sizes 8, 16, ..., 256, each labelled by
/// its number of 8-by-8 blocks.
pub fn wavefront_points() -> (r: Vec<PointSpec>)
    ensures
        r@.len() == 6,
        forall|k: int| 0 <= k < 6 ==> (#[trigger] r@[k]).value == 8 * pow2(k as nat)
            && r@[k].label@ == spec_decimal((pow2(k as nat) * pow2(k as nat)) as nat),
{
    let mut points: Vec<PointSpec> = Vec::new();
    let mut size: usize = 8;
    let mut k: usize = 0;
    while size <= 256
        invariant
            k <= 6,
            size == 8 * pow2(k as nat),
            k < 6 <==> size <= 256,
            points@.len() == k,
            forall|j: int| 0 <= j < k ==> (#[trigger] points@[j]).value == 8 * pow2(j as nat)
                && points@[j].label@ == spec_decimal((pow2(j as nat) * pow2(j as nat)) as nat),
        decreases 512 - size,
    {
        proof {
            reveal_with_fuel(pow2, 7);
        }
        let blocks = size / 8;
        assert(blocks * blocks <= 1024) by (nonlinear_arith) requires blocks <= 32;
        let label_value = blocks * blocks;
        points.push(PointSpec { label: decimal_string(label_value as u64), value: size });
        size = size * 2;
        k = k + 1;
    }
    points
}

/// The generator's state after one step from `state`.
pub open spec fn lcg_next(state: u64) -> u64 {
    wrapping_add(wrapping_mul(state, LCG_MULTIPLIER), LCG_INCREMENT)
}

/// The generator state and the sequence after the Fisher-Yates steps at
/// positions `index`, `index - 1`, ..., 1: each step advances the generator
/// and swaps the position with the one the new state picks at or below it.
pub open spec fn shuffle_steps<T>(state: u64, s: Seq<T>, index: nat) -> (u64, Seq<T>)
    decreases index,
{
    if index == 0 {
        (state, s)
    } else {
        let next = lcg_next(state);
        let choice = (next % ((index + 1) as u64)) as int;
        shuffle_steps(next, crate::sort::swapped(s, index as int, choice), (index - 1) as nat)
    }
}

/// The generator state and the sequence after shuffling `s` from `state`;
/// fewer than two values are left alone and draw nothing.
pub open spec fn shuffled<T>(state: u64, s: Seq<T>) -> (u64, Seq<T>) {
    if s.len() < 2 {
        (state, s)
    } else {
        shuffle_steps(state, s, (s.len() - 1) as nat)
    }
}

/// Deterministic shuffler driven by the benchmark's linear congruential
/// generator.
pub struct ShuffleRng {
    pub state: u64,
}

impl ShuffleRng {
    pub fn new(seed: u64) -> (r: Self)
        ensures
            r.state == seed | 1,
    {
        ShuffleRng { state: seed | 1 }
    }

    /// Advances the generator and returns its new state.
    pub fn next_u64(&mut self) -> (r: u64)
        ensures
            r == wrapping_add(wrapping_mul(old(self).state, LCG_MULTIPLIER), LCG_INCREMENT),
            final(self).state == r,
    {
        self.state = self.state.wrapping_mul(LCG_MULTIPLIER).wrapping_add(LCG_INCREMENT);
        self.state
    }

    /// Fisher-Yates shuffle from the back: position `index` is swapped with
    /// a position drawn below or at it.
    pub fn shuffle<T>(&mut self, values: &mut [T])
        ensures
            final(values)@.to_multiset() == old(values)@.to_multiset(),
            (final(self).state, final(values)@) == shuffled(old(self).state, old(values)@),
    {
        let n = values.len();
        if n < 2 {
            return;
        }
        let mut index = n - 1;
        while index >= 1
            invariant
                n == values@.len(),
                index < n,
                values@.to_multiset() == old(values)@.to_multiset(),
                shuffle_steps(self.state, values@, index as nat) == shuffled(old(self).state, old(values)@),
            decreases index,
        {
            let draw = self.next_u64();
            let bound = index as u64 + 1;
            let choice = (draw % bound) as usize;
            let ghost before = values@;
            crate::sort::slice_swap(values, index, choice);
            proof {
                crate::sort::lemma_swap_perm(before, index as int, choice as int);
            }
            index = index - 1;
        }
    }
}

/// `a[..n]` holds no two queens that share a row or a diagonal (queen `i`
/// stands in column `i`, row `a[i]`).
pub open spec fn queens_placed_ok(a: Seq<i8>, n: int) -> bool {
    forall|i: int, j: int| 0 <= i < j < n ==> {
        &&& #[trigger] a[j] != #[trigger] a[i]
        &&& a[j] != a[i] - (j - i)
        &&& a[j] != a[i] + (j - i)
    }
}

/// Whether the first `n` queens of `a` are pairwise non-attacking.
pub fn queens_ok(a: &[i8], n: usize) -> (r: bool)
    requires
        n <= a@.len(),
        n <= 64,
        forall|i: int| 0 <= i < n ==> 0 <= #[trigger] a@[i] < 64,
    ensures
        r == queens_placed_ok(a@, n as int),
{
    let mut i: usize = 0;
    while i < n
        invariant
            i <= n <= a@.len(),
            n <= 64,
            forall|k: int| 0 <= k < n ==> 0 <= #[trigger] a@[k] < 64,
            forall|x: int, y: int| 0 <= x < i && x < y < n ==> {
                &&& #[trigger] a@[y] != #[trigger] a@[x]
                &&& a@[y] != a@[x] - (y - x)
                &&& a@[y] != a@[x] + (y - x)
            },
        decreases n - i,
    {
        let p = a[i];
        let mut j = i + 1;
        while j < n
            invariant
                i < n <= a@.len(),
                n <= 64,
                i + 1 <= j <= n,
                p == a@[i as int],
                forall|k: int| 0 <= k < n ==> 0 <= #[trigger] a@[k] < 64,
                forall|y: int| i < y < j ==> {
                    &&& #[trigger] a@[y] != p
                    &&& a@[y] != p - (y - i)
                    &&& a@[y] != p + (y - i)
                },
            decreases n - j,
        {
            let q = a[j];
            let d = (j - i) as i8;
            if q == p || q == p - d || q == p + d {
                return false;
            }
            j = j + 1;
        }
        i = i + 1;
    }
    true
}

} // verus!
