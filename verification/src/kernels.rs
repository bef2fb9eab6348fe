use vstd::prelude::*;
use vstd::arithmetic::div_mod::{lemma_fundamental_div_mod, lemma_mod_multiples_basic, lemma_mod_pos_bound};
use vstd::arithmetic::mul::lemma_mul_is_associative;
use crate::compare::{pow10, lemma_pow10_mono, queens_placed_ok, queens_ok};

verus! {

/// `d` divides `n`.
pub open spec fn divides(d: int, n: int) -> bool {
    d != 0 && n % d == 0
}

/// `n` is at least 2 and no number strictly between 1 and `n` divides it.
pub open spec fn is_prime_number(n: int) -> bool {
    n >= 2 && forall|d: int| 2 <= d < n ==> !#[trigger] divides(d, n)
}

proof fn lemma_divides_trans(a: int, b: int, n: int)
    requires
        a > 0,
        b > 0,
        divides(a, b),
        divides(b, n),
    ensures
        divides(a, n),
{
    lemma_fundamental_div_mod(b, a);
    lemma_fundamental_div_mod(n, b);
    let x = b / a;
    let y = n / b;
    assert(n == a * (x * y)) by {
        lemma_mul_is_associative(a, x, y);
    }
    assert((x * y) * a == a * (x * y)) by (nonlinear_arith);
    lemma_mod_multiples_basic(x * y, a);
}

/// A divisor `d` of `n` at or above `bound`, where `bound * bound > n`, has a
/// cofactor below `bound` that also divides `n`.
proof fn lemma_small_cofactor(d: int, n: int, bound: int) -> (q: int)
    requires
        2 <= d < n,
        divides(d, n),
        bound > 0,
        d >= bound,
        bound * bound > n,
    ensures
        2 <= q < bound,
        divides(q, n),
{
    lemma_fundamental_div_mod(n, d);
    let q = n / d;
    assert(n == d * q);
    assert(q >= 2) by (nonlinear_arith)
        requires
            n == d * q,
            2 <= d < n,
    ;
    assert(q < bound) by (nonlinear_arith)
        requires
            n == d * q,
            d >= bound,
            bound * bound > n,
            bound > 0,
            q >= 2,
    ;
    assert(d * q == q * d) by (nonlinear_arith);
    lemma_mod_multiples_basic(d, q);
    q
}

/// Primality by trial division with 2, 3 and the numbers `6k - 1`, `6k + 1`
/// up to the square root.
pub fn is_prime(value: usize) -> (r: bool)
    ensures
        r == is_prime_number(value as int),
{
    if value == 2 || value == 3 {
        proof {
            assert forall|d: int| 2 <= d < value implies !#[trigger] divides(d, value as int) by {
                assert(d == 2);
            }
        }
        return true;
    }
    if value <= 1 || value % 2 == 0 || value % 3 == 0 {
        proof {
            if value > 1 {
                if value % 2 == 0 {
                    assert(divides(2, value as int));
                } else {
                    assert(divides(3, value as int));
                }
            }
        }
        return false;
    }
    let mut divisor: usize = 5;
    proof {
        assert forall|d: int| 2 <= d < 5 implies !#[trigger] divides(d, value as int) by {
            if d == 4 && divides(d, value as int) {
                lemma_divides_trans(2, 4, value as int);
            }
        }
    }
    while divisor <= value / divisor
        invariant
            5 <= divisor,
            divisor % 6 == 5,
            value >= 5,
            value % 2 != 0,
            value % 3 != 0,
            forall|d: int| 2 <= d < divisor ==> !#[trigger] divides(d, value as int),
        decreases value - divisor,
    {
        assert(divisor * divisor <= value) by (nonlinear_arith)
            requires
                divisor <= value / divisor,
                divisor > 0,
        ;
        assert(divisor + 6 <= value) by (nonlinear_arith)
            requires
                divisor * divisor <= value,
                divisor >= 5,
        ;
        if value % divisor == 0 || value % (divisor + 2) == 0 {
            proof {
                if value % divisor == 0 {
                    assert(divides(divisor as int, value as int));
                } else {
                    assert(divides(divisor + 2, value as int));
                }
            }
            return false;
        }
        proof {
            assert forall|d: int| 2 <= d < divisor + 6 implies !#[trigger] divides(d, value as int) by {
                if d >= divisor && d != divisor && d != divisor + 2 && divides(d, value as int) {
                    if d == divisor + 4 {
                        assert(divides(3, d));
                        lemma_divides_trans(3, d, value as int);
                    } else {
                        assert(divides(2, d));
                        lemma_divides_trans(2, d, value as int);
                    }
                }
            }
        }
        divisor = divisor + 6;
    }
    proof {
        assert(divisor * divisor > value) by (nonlinear_arith)
            requires
                divisor > value / divisor,
                divisor > 0,
        ;
        assert forall|d: int| 2 <= d < value implies !#[trigger] divides(d, value as int) by {
            if d >= divisor && divides(d, value as int) {
                let q = lemma_small_cofactor(d, value as int, divisor as int);
            }
        }
    }
    true
}

/// Number of primes `p` with `start <= p < end`.
pub open spec fn prime_count(start: int, end: int) -> nat
    decreases end - start,
{
    if end <= start {
        0
    } else {
        prime_count(start, end - 1) + if is_prime_number(end - 1) { 1nat } else { 0nat }
    }
}

/// Counts the primes in `start..end`.
pub fn count_primes_in(start: usize, end: usize) -> (r: usize)
    ensures
        r == prime_count(start as int, end as int),
{
    if end <= start {
        return 0;
    }
    let mut count: usize = 0;
    let mut value = start;
    while value < end
        invariant
            start <= value <= end,
            count == prime_count(start as int, value as int),
            count <= value - start,
        decreases end - value,
    {
        if is_prime(value) {
            count = count + 1;
        }
        value = value + 1;
    }
    count
}

/// Counting primes over two adjacent ranges adds up to the count over their
/// union, so chunks of a range may be counted apart and summed.
pub proof fn lemma_prime_count_split(start: int, mid: int, end: int)
    requires
        start <= mid <= end,
    ensures
        prime_count(start, mid) + prime_count(mid, end) == prime_count(start, end),
    decreases end - mid,
{
    if mid < end {
        lemma_prime_count_split(start, mid, end - 1);
    }
}


/// Sum over the leaves of a ten-way tree with `levels` levels below a node
/// labelled `base`: child `i` of a node with `levels` levels is labelled
/// `base + 10^(levels - 1) * i`, and a leaf adds its label.
pub open spec fn skynet_sum(base: int, levels: nat) -> int
    decreases levels, 11nat,
{
    if levels == 0 {
        base
    } else {
        skynet_children(base, levels, 10)
    }
}

/// Sum over the first `count` children of a node labelled `base` with
/// `levels` levels below it.
pub open spec fn skynet_children(base: int, levels: nat, count: nat) -> int
    decreases levels, count,
{
    if levels == 0 || count == 0 {
        0
    } else {
        skynet_children(base, levels, (count - 1) as nat) + skynet_sum(
            base + pow10((levels - 1) as nat) * (count - 1),
            (levels - 1) as nat,
        )
    }
}

proof fn lemma_pow10_positive(e: nat)
    ensures
        pow10(e) >= 1,
    decreases e,
{
    if e > 0 {
        lemma_pow10_positive((e - 1) as nat);
    }
}

proof fn lemma_skynet_twice(base: int, levels: nat)
    ensures
        ({
            let big = pow10(levels) as int;
            2 * skynet_sum(base, levels) == 2 * big * base + big * (big - 1)
        }),
    decreases levels, 11nat,
{
    let big = pow10(levels) as int;
    if levels > 0 {
        let p = pow10((levels - 1) as nat) as int;
        lemma_skynet_children_twice(base, levels, 10);
        let c = skynet_children(base, levels, 10);
        assert(big == 10 * p);
        assert(2 * c == 2 * big * base + big * (big - 1)) by (nonlinear_arith)
            requires
                2 * c == 2 * 10 * p * base + p * p * 10 * (10 - 1) + 10 * p * (p - 1),
                big == 10 * p,
        ;
    } else {
        assert(2 * big * base + big * (big - 1) == 2 * base) by (nonlinear_arith)
            requires
                big == 1,
        ;
    }
}

proof fn lemma_children_step(k: int, c: int, p: int, base: int)
    by (nonlinear_arith)
    requires
        c == k + 1,
    ensures
        (2 * k * p * base + p * p * k * (k - 1) + k * p * (p - 1)) + (2 * p * (base + p * k) + p * (p - 1))
            == 2 * c * p * base + p * p * c * (c - 1) + c * p * (p - 1),
{
    assert(2 * p * (base + p * k) == 2 * p * base + 2 * p * p * k);
    assert(2 * k * p * base + 2 * p * base == 2 * c * p * base);
    assert(p * p * k * (k - 1) + 2 * p * p * k == p * p * c * (c - 1));
    assert(k * p * (p - 1) + p * (p - 1) == c * p * (p - 1));
}

proof fn lemma_skynet_children_twice(base: int, levels: nat, count: nat)
    requires
        levels > 0,
    ensures
        ({
            let p = pow10((levels - 1) as nat) as int;
            let c = count as int;
            2 * skynet_children(base, levels, count) == 2 * c * p * base + p * p * c * (c - 1) + c * p * (p - 1)
        }),
    decreases levels, count,
{
    let p = pow10((levels - 1) as nat) as int;
    let c = count as int;
    if count > 0 {
        let k = c - 1;
        lemma_skynet_children_twice(base, levels, k as nat);
        let b = base + p * k;
        lemma_skynet_twice(b, (levels - 1) as nat);
        lemma_children_step(k, c, p, base);
    } else {
        assert(2 * c * p * base + p * p * c * (c - 1) + c * p * (p - 1) == 0) by (nonlinear_arith)
            requires
                c == 0,
        ;
    }
}

/// The leaves below a node labelled `base` with `levels` levels are labelled
/// `base, base + 1, ..., base + 10^levels - 1`, so their sum is
/// `10^levels * base + 10^levels * (10^levels - 1) / 2`.
pub proof fn lemma_skynet_closed_form(base: int, levels: nat)
    ensures
        ({
            let big = pow10(levels) as int;
            skynet_sum(base, levels) == big * base + big * (big - 1) / 2
        }),
{
    lemma_skynet_twice(base, levels);
    let big = pow10(levels) as int;
    let y = big * (big - 1);
    lemma_pow10_positive(levels);
    assert(y >= 0) by (nonlinear_arith)
        requires
            big >= 1,
            y == big * (big - 1),
    ;
    lemma_fundamental_div_mod(y, 2);
    lemma_mod_pos_bound(y, 2);
    assert(2 * big * base == 2 * (big * base)) by (nonlinear_arith);
}

proof fn lemma_skynet_lower_bound(base: int, levels: nat)
    requires
        base >= 0,
    ensures
        skynet_sum(base, levels) >= base,
{
    lemma_skynet_twice(base, levels);
    lemma_pow10_positive(levels);
    let big = pow10(levels) as int;
    assert(2 * big * base + big * (big - 1) >= 2 * base) by (nonlinear_arith)
        requires
            big >= 1,
            base >= 0,
    ;
}

proof fn lemma_skynet_children_mono(base: int, levels: nat, k: nat, m: nat)
    requires
        base >= 0,
        levels > 0,
        k <= m,
    ensures
        skynet_children(base, levels, k) <= skynet_children(base, levels, m),
    decreases m,
{
    if k < m {
        lemma_skynet_children_mono(base, levels, k, (m - 1) as nat);
        let p = pow10((levels - 1) as nat);
        assert(p * (m - 1) >= 0) by (nonlinear_arith)
            requires
                m >= 1,
        ;
        lemma_skynet_lower_bound(base + p * (m - 1), (levels - 1) as nat);
    }
}

/// Sum of the leaves of the ten-way tree below `base`, from level `depth` down
/// to level `max_depth`.
pub fn skynet_sequential(base: usize, depth: usize, max_depth: usize) -> (r: usize)
    requires
        depth <= max_depth,
        skynet_sum(base as int, (max_depth - depth) as nat) <= usize::MAX,
    ensures
        r == skynet_sum(base as int, (max_depth - depth) as nat),
    decreases max_depth - depth,
{
    if depth == max_depth {
        return base;
    }
    let ghost levels: nat = (max_depth - depth) as nat;
    let ghost p: nat = pow10((levels - 1) as nat);
    proof {
        lemma_skynet_children_mono(base as int, levels, 2, 10);
        lemma_skynet_lower_bound(base + p * 1, (levels - 1) as nat);
        assert(skynet_children(base as int, levels, 2) >= skynet_children(base as int, levels, 1) + base + p);
        lemma_skynet_children_mono(base as int, levels, 0, 1);
        assert(p <= usize::MAX);
    }
    let steps = max_depth.saturating_sub(depth + 1);
    let mut depth_offset: usize = 1;
    let mut s: usize = 0;
    while s < steps
        invariant
            s <= steps,
            steps == levels - 1,
            depth_offset == pow10(s as nat),
            p == pow10(steps as nat),
            p <= usize::MAX,
        decreases steps - s,
    {
        proof {
            lemma_pow10_mono((s + 1) as nat, steps as nat);
        }
        depth_offset = depth_offset * 10;
        s = s + 1;
    }
    let mut total: usize = 0;
    let mut index: usize = 0;
    while index < 10
        invariant
            index <= 10,
            depth < max_depth,
            levels == max_depth - depth,
            levels > 0,
            depth_offset == p,
            p == pow10((levels - 1) as nat),
            total == skynet_children(base as int, levels, index as nat),
            skynet_children(base as int, levels, 10) == skynet_sum(base as int, levels),
            skynet_sum(base as int, levels) <= usize::MAX,
        decreases 10 - index,
    {
        let ghost child_base: int = base + p * index;
        proof {
            assert(p * index >= 0) by (nonlinear_arith)
                requires
                    index >= 0,
            ;
            lemma_skynet_lower_bound(child_base, (levels - 1) as nat);
            lemma_skynet_children_mono(base as int, levels, (index + 1) as nat, 10);
            lemma_skynet_children_mono(base as int, levels, 0, index as nat);
            assert(skynet_children(base as int, levels, (index + 1) as nat) == skynet_children(
                base as int,
                levels,
                index as nat,
            ) + skynet_sum(child_base, (levels - 1) as nat));
        }
        let child = skynet_sequential(base + depth_offset * index, depth + 1, max_depth);
        total = total + child;
        index = index + 1;
    }
    total
}


/// Number of ways to place queens in columns `column..a.len()` of an
/// `a.len()`-by-`a.len()` board, one per column, so that with the queens
/// already in `a[..column]` no two share a row or a diagonal.
pub open spec fn queens_solutions(a: Seq<i8>, column: nat) -> nat
    decreases a.len() - column, a.len() + 1,
{
    if column >= a.len() {
        1
    } else {
        queens_row_choices(a, column, a.len())
    }
}

/// The same count, restricted to a queen in column `column` in one of the
/// rows `0..rows`.
pub open spec fn queens_row_choices(a: Seq<i8>, column: nat, rows: nat) -> nat
    decreases a.len() - column, rows,
{
    if column >= a.len() || rows == 0 {
        0
    } else {
        let b = a.update(column as int, (rows - 1) as i8);
        queens_row_choices(a, column, (rows - 1) as nat) + if queens_placed_ok(b, column + 1 as int) {
            queens_solutions(b, column + 1)
        } else {
            0
        }
    }
}

proof fn lemma_placed_ok_prefix(a: Seq<i8>, b: Seq<i8>, n: int)
    requires
        0 <= n <= a.len(),
        n <= b.len(),
        forall|i: int| 0 <= i < n ==> a[i] == b[i],
    ensures
        queens_placed_ok(a, n) == queens_placed_ok(b, n),
{
    if queens_placed_ok(a, n) {
        assert forall|i: int, j: int| 0 <= i < j < n implies {
            &&& #[trigger] b[j] != #[trigger] b[i]
            &&& b[j] != b[i] - (j - i)
            &&& b[j] != b[i] + (j - i)
        } by {
            assert(a[i] == b[i] && a[j] == b[j]);
        }
    }
    if queens_placed_ok(b, n) {
        assert forall|i: int, j: int| 0 <= i < j < n implies {
            &&& #[trigger] a[j] != #[trigger] a[i]
            &&& a[j] != a[i] - (j - i)
            &&& a[j] != a[i] + (j - i)
        } by {
            assert(a[i] == b[i] && a[j] == b[j]);
        }
    }
}

proof fn lemma_queens_solutions_prefix(a: Seq<i8>, b: Seq<i8>, column: nat)
    requires
        a.len() == b.len(),
        column <= a.len(),
        forall|i: int| 0 <= i < column ==> a[i] == b[i],
    ensures
        queens_solutions(a, column) == queens_solutions(b, column),
    decreases a.len() - column, a.len() + 1,
{
    if column < a.len() {
        lemma_queens_rows_prefix(a, b, column, a.len());
    }
}

proof fn lemma_queens_rows_prefix(a: Seq<i8>, b: Seq<i8>, column: nat, rows: nat)
    requires
        a.len() == b.len(),
        column < a.len(),
        forall|i: int| 0 <= i < column ==> a[i] == b[i],
    ensures
        queens_row_choices(a, column, rows) == queens_row_choices(b, column, rows),
    decreases a.len() - column, rows,
{
    if rows > 0 {
        lemma_queens_rows_prefix(a, b, column, (rows - 1) as nat);
        let a2 = a.update(column as int, (rows - 1) as i8);
        let b2 = b.update(column as int, (rows - 1) as i8);
        lemma_placed_ok_prefix(a2, b2, column + 1 as int);
        lemma_queens_solutions_prefix(a2, b2, column + 1);
    }
}

proof fn lemma_queens_rows_mono(a: Seq<i8>, column: nat, k: nat, m: nat)
    requires
        k <= m,
    ensures
        queens_row_choices(a, column, k) <= queens_row_choices(a, column, m),
    decreases m,
{
    if k < m {
        lemma_queens_rows_mono(a, column, k, (m - 1) as nat);
    }
}

/// Counts the placements of queens in columns `column..` of `buffer`, the
/// queens in `buffer[..column]` standing; the rows tried are written into
/// `buffer[column..]`.
pub fn nqueens_sequential(column: usize, buffer: &mut [i8]) -> (r: i32)
    requires
        column <= old(buffer)@.len() <= 64,
        forall|i: int| 0 <= i < column ==> 0 <= #[trigger] old(buffer)@[i] < 64,
        queens_solutions(old(buffer)@, column as nat) <= i32::MAX,
    ensures
        r == queens_solutions(old(buffer)@, column as nat),
        final(buffer)@.len() == old(buffer)@.len(),
        forall|i: int| 0 <= i < column ==> #[trigger] final(buffer)@[i] == old(buffer)@[i],
    decreases old(buffer)@.len() - column,
{
    let size = buffer.len();
    if size == column {
        return 1;
    }
    let ghost start = buffer@;
    let mut total: i32 = 0;
    let mut row: usize = 0;
    while row < size
        invariant
            column < size,
            size == buffer@.len(),
            size == old(buffer)@.len(),
            size == start.len(),
            size <= 64,
            row <= size,
            forall|i: int| 0 <= i < column ==> #[trigger] buffer@[i] == start[i],
            forall|i: int| 0 <= i < column ==> 0 <= #[trigger] start[i] < 64,
            total == queens_row_choices(start, column as nat, row as nat),
            queens_row_choices(start, column as nat, size as nat) == queens_solutions(start, column as nat),
            queens_solutions(start, column as nat) <= i32::MAX,
        decreases size - row,
    {
        buffer[column] = row as i8;
        let ghost placed = start.update(column as int, row as i8);
        proof {
            lemma_queens_rows_mono(start, column as nat, (row + 1) as nat, size as nat);
            assert(queens_row_choices(start, column as nat, (row + 1) as nat) == queens_row_choices(
                start,
                column as nat,
                row as nat,
            ) + if queens_placed_ok(placed, column + 1) {
                queens_solutions(placed, (column + 1) as nat)
            } else {
                0
            });
            lemma_placed_ok_prefix(buffer@, placed, column + 1);
        }
        if queens_ok(buffer, column + 1) {
            let ghost before = buffer@;
            proof {
                lemma_queens_solutions_prefix(before, placed, (column + 1) as nat);
            }
            let part = nqueens_sequential(column + 1, buffer);
            total = total + part;
        }
        row = row + 1;
    }
    total
}


/// Remainder of `x` by `d` with the sign of `x`, as `%` on machine integers
/// gives it.
pub open spec fn trunc_rem(x: int, d: int) -> int {
    if x >= 0 {
        x % d
    } else {
        -((-x) % d)
    }
}

/// Term `k` of entry `(i, j)` of the work matrix for the shift `s`.
pub open spec fn work_term(i: int, j: int, k: int, s: int) -> int {
    (i + k - s) * (k - j + s)
}

/// Entry `(i, j)` of the work matrix, summed over the terms `k < count`.
pub open spec fn work_entry(i: int, j: int, s: int, count: nat) -> int
    decreases count,
{
    if count == 0 {
        0
    } else {
        work_entry(i, j, s, (count - 1) as nat) + work_term(i, j, count - 1, s)
    }
}

/// Sum of the entries `(i, j)`, `j < count`, of the 16-by-16 work matrix.
pub open spec fn work_row(i: int, s: int, count: nat) -> int
    decreases count,
{
    if count == 0 {
        0
    } else {
        work_row(i, s, (count - 1) as nat) + work_entry(i, count - 1, s, 16)
    }
}

/// Sum of the rows `i < count` of the 16-by-16 work matrix.
pub open spec fn work_total(s: int, count: nat) -> int
    decreases count,
{
    if count == 0 {
        0
    } else {
        work_total(s, (count - 1) as nat) + work_row(count - 1, s, 16)
    }
}

/// What one stage of the graph-pipeline benchmark computes for `seed`: the
/// sum of the entries of its work matrix, reduced to `0..999`.
pub open spec fn graph_pipeline_value(seed: int) -> int {
    work_total(trunc_rem(seed, 10), 16) % 999
}

proof fn lemma_work_entry_bound(i: int, j: int, s: int, count: nat)
    requires
        0 <= i < 16,
        0 <= j < 16,
        -9 <= s <= 9,
        count <= 16,
    ensures
        -936 * count <= work_entry(i, j, s, count) <= 936 * count,
    decreases count,
{
    if count > 0 {
        lemma_work_entry_bound(i, j, s, (count - 1) as nat);
        let k = count - 1;
        let a = i + k - s;
        let b = k - j + s;
        assert(-936 <= a * b <= 936) by (nonlinear_arith)
            requires
                -9 <= a <= 39,
                -24 <= b <= 24,
        ;
    }
}

proof fn lemma_work_row_bound(i: int, s: int, count: nat)
    requires
        0 <= i < 16,
        -9 <= s <= 9,
        count <= 16,
    ensures
        -14976 * count <= work_row(i, s, count) <= 14976 * count,
    decreases count,
{
    if count > 0 {
        lemma_work_row_bound(i, s, (count - 1) as nat);
        lemma_work_entry_bound(i, count - 1, s, 16);
    }
}

proof fn lemma_work_total_bound(s: int, count: nat)
    requires
        -9 <= s <= 9,
        count <= 16,
    ensures
        -239616 * count <= work_total(s, count) <= 239616 * count,
    decreases count,
{
    if count > 0 {
        lemma_work_total_bound(s, (count - 1) as nat);
        lemma_work_row_bound(count - 1, s, 16);
    }
}

/// One stage of work in the graph-pipeline benchmark: sums the entries of a
/// 16-by-16 matrix derived from `seed`, reduced to `0..999`.
pub fn graph_pipeline_work(seed: i32) -> (r: i32)
    ensures
        r == graph_pipeline_value(seed as int),
        0 <= r < 999,
{
    let matrix_size: usize = 16;
    let shift = seed % 10;
    assert(shift == trunc_rem(seed as int, 10));
    let mut value: i32 = 0;
    let mut i: usize = 0;
    while i < matrix_size
        invariant
            matrix_size == 16,
            i <= 16,
            -9 <= shift <= 9,
            value == work_total(shift as int, i as nat),
        decreases 16 - i,
    {
        proof {
            lemma_work_total_bound(shift as int, i as nat);
        }
        let mut j: usize = 0;
        while j < matrix_size
            invariant
                matrix_size == 16,
                i < 16,
                j <= 16,
                -9 <= shift <= 9,
                -239616 * i <= work_total(shift as int, i as nat) <= 239616 * i,
                value == work_total(shift as int, i as nat) + work_row(i as int, shift as int, j as nat),
            decreases 16 - j,
        {
            proof {
                lemma_work_row_bound(i as int, shift as int, j as nat);
            }
            let mut entry: i32 = 0;
            let mut k: usize = 0;
            while k < matrix_size
                invariant
                    matrix_size == 16,
                    i < 16,
                    j < 16,
                    k <= 16,
                    -9 <= shift <= 9,
                    entry == work_entry(i as int, j as int, shift as int, k as nat),
                decreases 16 - k,
            {
                proof {
                    lemma_work_entry_bound(i as int, j as int, shift as int, k as nat);
                }
                let a = i as i32 + k as i32 - shift;
                let b = k as i32 - j as i32 + shift;
                assert(-936 <= a * b <= 936) by (nonlinear_arith)
                    requires
                        -9 <= a <= 39,
                        -24 <= b <= 24,
                ;
                entry = entry + a * b;
                k = k + 1;
            }
            proof {
                lemma_work_entry_bound(i as int, j as int, shift as int, 16);
            }
            value = value + entry;
            j = j + 1;
        }
        i = i + 1;
    }
    match value.checked_rem_euclid(999) {
        Some(m) => m,
        None => 0,
    }
}

} // verus!
