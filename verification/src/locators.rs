use vstd::prelude::*;

verus! {

/// The largest number of block locators, the genesis block included.
pub const MAXIMUM_BLOCK_LOCATORS: u32 = 64;

/// The number of latest blocks that are taken one by one.
pub const NUM_LINEAR_LOCATORS: u32 = 10;

/// `2^n`.
pub open spec fn pow2(n: nat) -> nat
    decreases n,
{
    if n == 0 { 1 } else { 2 * pow2((n - 1) as nat) }
}

/// `floor(log2(x))`, with 0 for 0 and 1.
pub open spec fn floor_log2(x: nat) -> nat
    decreases x,
{
    if x <= 1 { 0 } else { 1 + floor_log2(x / 2) }
}

/// `a - b`, or 0 where that is negative.
pub open spec fn sat_sub(a: int, b: int) -> int {
    if a > b { a - b } else { 0 }
}

pub open spec fn min_int(a: int, b: int) -> int {
    if a <= b { a } else { b }
}

/// The latest `n` heights, one by one from `h` down.
pub open spec fn linear_heights(h: int, n: nat) -> Seq<int> {
    Seq::new(n, |k: int| h - k)
}

/// `q` heights from `start` down, the distance to `start` doubling each time:
/// `start`, `start - 2`, `start - 6`, `start - 14`, ...
pub open spec fn quadratic_heights(start: int, q: nat) -> Seq<int> {
    Seq::new(q, |k: int| sat_sub(start, pow2((k + 1) as nat) - 2))
}

/// The height reached after `q` doubling steps from `start`.
pub open spec fn quadratic_end(start: int, q: nat) -> int {
    sat_sub(start, pow2((q + 1) as nat) - 2)
}

/// How many of `c, c - step, c - 2 * step, ...` are positive (at most `count`).
pub open spec fn num_positive(c: int, count: nat, step: int) -> nat {
    if c <= 0 {
        0
    } else if step <= 0 {
        count
    } else {
        let n = (c + step - 1) / step;
        if n <= count { n as nat } else { count }
    }
}

/// The heights `c, c - step, c - 2 * step, ...` while positive, at most
/// `count` of them, then the genesis height 0.
pub open spec fn proportional_heights(c: int, count: nat, step: int) -> Seq<int> {
    Seq::new(num_positive(c, count, step), |k: int| c - k * step).push(0)
}

/// The even step that spreads `np` heights over `lh`, one larger where the
/// last gap would be more than two steps.
pub open spec fn spread_step(lh: int, np: int) -> int {
    let s = lh / np;
    if lh - s * np > 2 * s { s + 1 } else { s }
}

/// The heights of the block locators of a ledger at height `h`: the latest
/// blocks one by one, then a few at doubling distances, then evenly spread
/// heights, and the genesis block last.
///
/// The number of doubling steps is the exact integer `floor(log2(step))` of
/// the average step. A computation of `log2` in 32-bit floating point rounds
/// up to the next whole power where the step lies within about 2^-20 of it
/// (steps of 2^21 and more, ledgers above about 111 million blocks), and
/// would then take one doubling step more.
pub open spec fn locator_heights(h: nat) -> Seq<int> {
    let nb = min_int(MAXIMUM_BLOCK_LOCATORS - 1, h as int);
    let nl = min_int(NUM_LINEAR_LOCATORS as int, nb);
    let lh = h - nl;
    let n = nb - nl;
    if n == 0 {
        linear_heights(h as int, nl as nat).push(0)
    } else {
        let q = floor_log2((lh / n) as nat);
        let np = n - q;
        let lq = quadratic_end(lh, q);
        linear_heights(h as int, nl as nat) + quadratic_heights(lh, q) + proportional_heights(
            lq,
            np as nat,
            spread_step(lq, np),
        )
    }
}

pub proof fn lemma_pow2_positive(n: nat)
    ensures
        pow2(n) >= 1,
    decreases n,
{
    if n > 0 {
        lemma_pow2_positive((n - 1) as nat);
    }
}

pub proof fn lemma_pow2_monotone(a: nat, b: nat)
    requires
        a <= b,
    ensures
        pow2(a) <= pow2(b),
    decreases b,
{
    if a < b {
        lemma_pow2_monotone(a, (b - 1) as nat);
        lemma_pow2_positive((b - 1) as nat);
    }
}

/// `floor_log2` brackets its argument between powers of two.
pub proof fn lemma_floor_log2_bounds(x: nat)
    requires
        x >= 1,
    ensures
        pow2(floor_log2(x)) <= x < pow2(floor_log2(x) + 1),
    decreases x,
{
    if x > 1 {
        lemma_floor_log2_bounds(x / 2);
    }
}

proof fn lemma_as_ints_push(v: Seq<u32>, x: u32)
    ensures
        as_ints(v.push(x)) == as_ints(v).push(x as int),
{
    assert(as_ints(v.push(x)) =~= as_ints(v).push(x as int));
}

proof fn lemma_ceil_at_most(c: int, step: int, m: int)
    requires
        step >= 1,
        c >= 0,
        m >= 0,
        m * step >= c,
    ensures
        (c + step - 1) / step <= m,
{
    assert((c + step - 1) / step <= m) by (nonlinear_arith)
        requires step >= 1, c >= 0, m >= 0, m * step >= c;
}

proof fn lemma_ceil_above(c: int, step: int, m: int)
    requires
        step >= 1,
        m >= 0,
        c - m * step >= 1,
    ensures
        (c + step - 1) / step >= m + 1,
{
    assert((c + step - 1) / step >= m + 1) by (nonlinear_arith)
        requires step >= 1, m >= 0, c - m * step >= 1;
}

/// `floor(log2(x))` of a 32-bit number; 0 for 0 and 1.
pub fn floor_log2_u32(x: u32) -> (r: u32)
    ensures
        r == floor_log2(x as nat),
        r < 32,
{
    let mut v: u32 = x;
    let mut r: u32 = 0;
    assert(pow2(0) == 1);
    while v > 1
        invariant
            r + floor_log2(v as nat) == floor_log2(x as nat),
            v as nat * pow2(r as nat) <= x,
            r <= 32,
            v >= 1 || x == 0,
        decreases v,
    {
        proof {
            lemma_pow2_positive(r as nat);
            assert((v / 2) as nat * pow2((r + 1) as nat) <= v as nat * pow2(r as nat)) by (nonlinear_arith)
                requires
                    pow2((r + 1) as nat) == 2 * pow2(r as nat),
                    v >= 2;
            if r == 32 {
                assert(pow2(32) == 0x1_0000_0000) by { reveal_with_fuel(pow2, 33); }
                assert(v as nat * pow2(r as nat) >= pow2(32)) by (nonlinear_arith)
                    requires v >= 1, r == 32;
            }
        }
        v = v / 2;
        r = r + 1;
    }
    proof {
        if x >= 1 {
            lemma_floor_log2_bounds(x as nat);
            if r >= 32 {
                lemma_pow2_monotone(32, r as nat);
                assert(pow2(32) == 0x1_0000_0000) by { reveal_with_fuel(pow2, 33); }
            }
        }
    }
    r
}

fn min_u32(a: u32, b: u32) -> (r: u32)
    ensures
        r == min_int(a as int, b as int),
{
    if a <= b { a } else { b }
}

/// The heights of a vector of heights, as integers.
pub open spec fn as_ints(v: Seq<u32>) -> Seq<int> {
    v.map_values(|x: u32| x as int)
}

/// The heights of the block locators of a ledger whose latest block is at
/// `block_height`.
pub fn block_locator_heights(block_height: u32) -> (r: Vec<u32>)
    ensures
        as_ints(r@) == locator_heights(block_height as nat),
{
    let ghost h = block_height as int;
    let ghost spec_heights = locator_heights(block_height as nat);
    // The number of block locators, the genesis block aside.
    let mut num_block_locators = min_u32(MAXIMUM_BLOCK_LOCATORS - 1, block_height);
    // The number of latest blocks that are taken one by one.
    let num_latest_blocks = min_u32(NUM_LINEAR_LOCATORS, num_block_locators);
    let ghost nl = num_latest_blocks as int;

    let mut heights: Vec<u32> = Vec::new();
    let mut block_locator_height = block_height;

    let mut k: u32 = 0;
    while k < num_latest_blocks
        invariant
            k <= num_latest_blocks,
            h == block_height as int,
            num_latest_blocks <= block_height,
            block_locator_height == block_height - k,
            as_ints(heights@) == linear_heights(h, k as nat),
        decreases num_latest_blocks - k,
    {
        let ghost before = heights@;
        heights.push(block_locator_height);
        proof {
            lemma_as_ints_push(before, block_locator_height);
            assert(linear_heights(h, (k + 1) as nat) =~= linear_heights(h, k as nat).push(h - k));
            assert(block_locator_height as int == h - k);
            assert(as_ints(heights@) == linear_heights(h, k as nat).push(block_locator_height as int));
            assert(as_ints(heights@) == linear_heights(h, (k + 1) as nat));
        }
        block_locator_height = block_locator_height - 1;
        k = k + 1;
    }
    let ghost prefix = linear_heights(h, nl as nat);

    num_block_locators = num_block_locators - num_latest_blocks;
    if num_block_locators == 0 {
        let ghost before = heights@;
        heights.push(0);
        proof {
            lemma_as_ints_push(before, 0);
            assert(nl == min_int(NUM_LINEAR_LOCATORS as int, min_int(MAXIMUM_BLOCK_LOCATORS - 1, h)));
            assert(spec_heights == prefix.push(0));
        }
        return heights;
    }
    let ghost lh0 = block_locator_height as int;
    let ghost n = num_block_locators as int;

    // The average distance between the remaining locators.
    let proportional_step0 = block_locator_height / num_block_locators;
    // Heights at doubling distances, while that distance stays below the average one.
    let num_quadratic_steps = floor_log2_u32(proportional_step0);
    let ghost q = num_quadratic_steps as nat;
    proof {
        // Below 64 blocks every remaining height is a locator; above, the
        // average distance is small enough that `q` stays far below 32.
        if block_height < 64 {
            assert(lh0 == n);
            assert(proportional_step0 == 1) by (nonlinear_arith)
                requires proportional_step0 == lh0 / n, lh0 == n, n > 0;
        } else {
            assert(n == 53);
            assert(proportional_step0 <= 0x1_0000_0000int / 53) by (nonlinear_arith)
                requires proportional_step0 == lh0 / 53, lh0 < 0x1_0000_0000;
            if proportional_step0 >= 1 {
                lemma_floor_log2_bounds(proportional_step0 as nat);
                if q >= 27 {
                    lemma_pow2_monotone(27, q);
                    assert(pow2(27) == 0x800_0000) by { reveal_with_fuel(pow2, 28); }
                }
            }
        }
        assert(q <= 26);
        assert(q <= n);
    }
    let num_proportional_steps = num_block_locators - num_quadratic_steps;

    let mut quadratic_step: u32 = 2;
    let mut j: u32 = 0;
    assert(pow2(1) == 2) by { reveal_with_fuel(pow2, 2); }
    while j < num_quadratic_steps
        invariant
            j <= num_quadratic_steps,
            num_quadratic_steps <= 26,
            quadratic_step as nat == pow2((j + 1) as nat),
            block_locator_height as int == sat_sub(lh0, pow2((j + 1) as nat) - 2),
            as_ints(heights@) == prefix + quadratic_heights(lh0, j as nat),
        decreases num_quadratic_steps - j,
    {
        let ghost before = heights@;
        heights.push(block_locator_height);
        proof {
            lemma_as_ints_push(before, block_locator_height);
            assert(as_ints(heights@) =~= prefix + quadratic_heights(lh0, (j + 1) as nat));
        }
        block_locator_height = block_locator_height.saturating_sub(quadratic_step);
        proof {
            lemma_pow2_monotone((j + 2) as nat, 28);
            assert(pow2(28) == 0x1000_0000) by { reveal_with_fuel(pow2, 29); }
            assert(pow2((j + 2) as nat) == 2 * pow2((j + 1) as nat));
        }
        quadratic_step = quadratic_step * 2;
        j = j + 1;
    }
    let ghost lq = block_locator_height as int;
    assert(lq == quadratic_end(lh0, q));

    proof {
        if q >= 1 {
            // With doubling steps, the remaining height stays positive.
            lemma_floor_log2_bounds(proportional_step0 as nat);
            assert(block_height >= 64);
            assert(pow2(q + 1) == 2 * pow2(q));
            assert(2 * pow2(q) <= lh0) by (nonlinear_arith)
                requires pow2(q) <= lh0 / 53, lh0 >= 0;
        } else {
            assert(pow2(1) == 2);
        }
        assert(lq >= 1);
    }

    // The step between the remaining heights, so that they are evenly spread.
    let mut proportional_step = block_locator_height / num_proportional_steps;
    proof {
        let np = num_proportional_steps as int;
        assert(np >= 1);
        assert(proportional_step * np <= lq) by (nonlinear_arith)
            requires proportional_step == lq / np, np >= 1, lq >= 0;
        if block_height >= 64 {
            assert(np >= 27);
            assert(2 * proportional_step <= lq) by (nonlinear_arith)
                requires proportional_step == lq / np, np >= 2, lq >= 0;
        } else {
            assert(lq <= 53);
            assert(proportional_step <= lq) by (nonlinear_arith)
                requires proportional_step == lq / np, np >= 1, lq >= 0;
        }
    }
    // Avoid a last gap that is too large: widen each step by one.
    if block_locator_height - proportional_step * num_proportional_steps > 2 * proportional_step {
        proportional_step = proportional_step + 1;
    }
    let ghost np = num_proportional_steps as int;
    let ghost step = proportional_step as int;
    assert(step == spread_step(lq, np));
    proof {
        if step == 0 {
            assert(lq / np == 0);
            assert(lq - 0 * np > 2 * 0);
        }
        assert(step >= 1);
    }
    let ghost npos = num_positive(lq, np as nat, step);
    let ghost middle = prefix + quadratic_heights(lh0, q);
    assert(spec_heights == middle + proportional_heights(lq, np as nat, step));
    proof {
        assert(npos <= np);
    }

    let mut m: u32 = 0;
    while m < num_proportional_steps
        invariant
            m <= num_proportional_steps,
            num_proportional_steps as int == np,
            np >= 1,
            proportional_step as int == step,
            step >= 1,
            lq >= 1,
            npos == num_positive(lq, np as nat, step),
            m <= npos,
            block_locator_height as int == sat_sub(lq, m * step),
            as_ints(heights@) == middle + Seq::new(m as nat, |i: int| lq - i * step),
            spec_heights == middle + proportional_heights(lq, np as nat, step),
            spec_heights == locator_heights(block_height as nat),
        decreases num_proportional_steps - m,
    {
        let ghost before = heights@;
        heights.push(block_locator_height);
        proof {
            lemma_as_ints_push(before, block_locator_height);
        }
        if block_locator_height == 0 {
            proof {
                // The height reached 0: the list ends with the genesis height.
                lemma_ceil_at_most(lq, step, m as int);
                assert(npos == m);
                assert(as_ints(heights@) =~= spec_heights);
            }
            return heights;
        }
        proof {
            lemma_ceil_above(lq, step, m as int);
            assert(m + 1 <= npos);
            assert(as_ints(heights@) =~= middle + Seq::new((m + 1) as nat, |i: int| lq - i * step));
            assert(lq - (m + 1) * step == lq - m * step - step) by (nonlinear_arith);
        }
        block_locator_height = block_locator_height.saturating_sub(proportional_step);
        m = m + 1;
    }
    let ghost before = heights@;
    heights.push(0);
    proof {
        lemma_as_ints_push(before, 0);
        assert(npos == np);
        assert(as_ints(heights@) =~= spec_heights);
    }
    heights
}

} // verus!
