//! Pseudo-random numbers from a linear congruential generator.
//!
//! The generator is an explicit value passed to each function rather than
//! a process-wide global, so every draw is a verified, deterministic
//! function of the state it is given; the embedding program owns the
//! shared instance and its lock.

use vstd::prelude::*;
use crate::exceptions::PyException;
use crate::exceptions::index_error;
use crate::exceptions::type_error;
use crate::exceptions::value_error;

verus! {

/// The next raw state of the generator.
pub open spec fn lcg_next(seed: u64) -> u64 {
    ((seed * 1103515245 + 12345) % 0x1_0000_0000_0000_0000) as u64
}

/// A draw below `n` from one raw state: the state's upper 63 bits scaled
/// into `0..n`.
pub open spec fn draw_below_spec(state: u64, n: int) -> int {
    (((state >> 1) as int) * n) / 0x8000_0000_0000_0000
}

/// A linear congruential generator's state.
#[derive(Debug, Clone, Copy, PartialEq, Eq, Structural)]
pub struct LCGRandom {
    pub seed: u64,
}

impl LCGRandom {
    /// A generator from a seed; a zero seed becomes one.
    pub fn new(seed: u64) -> (r: LCGRandom)
        ensures
            r.seed == if seed == 0 {
                1u64
            } else {
                seed
            },
    {
        LCGRandom { seed: if seed == 0 { 1 } else { seed } }
    }

    /// The next raw value; the state advances to it.
    pub fn next_raw(&mut self) -> (r: u64)
        ensures
            r == lcg_next(old(self).seed),
            final(self).seed == lcg_next(old(self).seed),
    {
        self.seed = self.seed.wrapping_mul(1103515245).wrapping_add(12345);
        self.seed
    }
}

/// Draw a value in `0..n` and advance the state.
fn draw_below(rng: &mut LCGRandom, n: u64) -> (r: u64)
    requires
        n >= 1,
    ensures
        r as int == draw_below_spec(lcg_next(old(rng).seed), n as int),
        r < n,
        final(rng).seed == lcg_next(old(rng).seed),
{
    let raw = rng.next_raw();
    proof {
        assert((raw >> 1) < 0x8000_0000_0000_0000u64) by (bit_vector);
        assert(((raw >> 1) as int) * (n as int)
            < 0x8000_0000_0000_0000 * 0x1_0000_0000_0000_0000) by (nonlinear_arith)
            requires
                ((raw >> 1) as int) < 0x8000_0000_0000_0000
                    && (n as int) < 0x1_0000_0000_0000_0000,
        ;
    }
    let scaled: u128 = ((raw >> 1) as u128) * (n as u128);
    let idx: u128 = scaled / 0x8000_0000_0000_0000;
    proof {
        assert(((raw >> 1) as int) * (n as int) < 0x8000_0000_0000_0000 * (n as int))
            by (nonlinear_arith)
            requires ((raw >> 1) as int) < 0x8000_0000_0000_0000 && n >= 1;
        vstd::arithmetic::div_mod::lemma_multiply_divide_lt(
            scaled as int,
            0x8000_0000_0000_0000,
            n as int,
        );
        assert((scaled as int) / 0x8000_0000_0000_0000 < n as int);
    }
    idx as u64
}

/// Fresh state: the seed to set, or the wall time when none is given.
/// Either way the new state is never the degenerate zero seed.
pub fn seed_from(rng: &mut LCGRandom, a: Option<u64>)
    ensures
        final(rng).seed != 0,
        a is Some ==> final(rng).seed == (if a.unwrap() == 0 {
            1u64
        } else {
            a.unwrap()
        }),
{
    match a {
        Some(v) => {
            *rng = LCGRandom::new(v);
        }
        None => {
            let t = clock_seed();
            *rng = LCGRandom::new(t);
        }
    }
}

/// Relies on `std::time::SystemTime::now`: seconds since the epoch, as an
/// arbitrary seed source.
#[verifier::external_body]
fn clock_seed() -> u64 {
    match std::time::SystemTime::now().duration_since(std::time::UNIX_EPOCH) {
        Ok(d) => d.as_secs(),
        Err(_) => 0,
    }
}

/// The generator's state as a list, for later restoration.
pub fn getstate(rng: &LCGRandom) -> (r: Vec<u64>)
    ensures
        r@.len() == 1,
        r@[0] == rng.seed,
{
    let mut out: Vec<u64> = Vec::new();
    out.push(rng.seed);
    out
}

/// Restore a state produced by `getstate`; an empty list is a value error.
pub fn setstate(rng: &mut LCGRandom, state: &Vec<u64>) -> (r: Result<(), PyException>)
    ensures
        match r {
            Ok(_) => state@.len() > 0 && final(rng).seed == state@[0],
            Err(e) => state@.len() == 0 && e.exception_type@ == "ValueError"@
                && final(rng).seed == old(rng).seed,
        },
{
    if state.len() == 0 {
        return Err(value_error("state must hold at least one word"));
    }
    rng.seed = state[0];
    Ok(())
}

/// An integer with `k` random bits; more than 64 is a value error.
pub fn getrandbits(rng: &mut LCGRandom, k: u32) -> (r: Result<u64, PyException>)
    ensures
        match r {
            Ok(v) => k <= 64
                && (k == 0 ==> v == 0)
                && (k > 0 ==> final(rng).seed == lcg_next(old(rng).seed)),
            Err(e) => k > 64 && e.exception_type@ == "ValueError"@,
        },
{
    if k == 0 {
        return Ok(0);
    }
    if k > 64 {
        return Err(value_error("number of bits must be <= 64"));
    }
    let mask: u64 = if k == 64 {
        u64::MAX
    } else {
        proof {
            assert(1u64 << k >= 1u64) by (bit_vector)
                requires k < 64u32;
        }
        (1u64 << k) - 1
    };
    let raw = rng.next_raw();
    Ok(raw & mask)
}

/// A random element of the slice; empty, an index error.
pub fn choice<'a, T>(rng: &mut LCGRandom, seq: &'a [T]) -> (r: Result<&'a T, PyException>)
    ensures
        match r {
            Ok(v) => seq@.len() > 0
                && *v == seq@[draw_below_spec(lcg_next(old(rng).seed), seq@.len() as int)]
                && final(rng).seed == lcg_next(old(rng).seed),
            Err(e) => seq@.len() == 0 && e.exception_type@ == "IndexError"@,
        },
{
    if seq.len() == 0 {
        return Err(index_error("cannot choose from an empty sequence"));
    }
    let idx = draw_below(rng, seq.len() as u64);
    Ok(&seq[idx as usize])
}

/// A random integer in `[a, b]`; an empty range is a value error.
pub fn randint(rng: &mut LCGRandom, a: i64, b: i64) -> (r: Result<i64, PyException>)
    ensures
        match r {
            Ok(v) => a <= b && a <= v <= b && final(rng).seed == lcg_next(old(rng).seed),
            Err(e) => a > b && e.exception_type@ == "ValueError"@,
        },
{
    if a > b {
        return Err(value_error("empty range"));
    }
    let width: u64 = if b >= a {
        let w128 = (b as i128) - (a as i128) + 1;
        if w128 > u64::MAX as i128 {
            u64::MAX
        } else {
            w128 as u64
        }
    } else {
        1
    };
    let d = draw_below(rng, width);
    let v: i64 = ((a as i128) + (d as i128)) as i64;
    proof {
        assert((a as int) + (d as int) <= b as int);
    }
    Ok(v)
}

/// The progression's first value, as `randrange` reads its arguments.
pub open spec fn rr_lo(start: i64, stop: Option<i64>, step: Option<i64>) -> int {
    if stop is None {
        0
    } else {
        start as int
    }
}

/// The progression's bound.
pub open spec fn rr_hi(start: i64, stop: Option<i64>, step: Option<i64>) -> int {
    if stop is None {
        start as int
    } else {
        stop.unwrap() as int
    }
}

/// The progression's step.
pub open spec fn rr_st(start: i64, stop: Option<i64>, step: Option<i64>) -> int {
    if step is None {
        1
    } else {
        step.unwrap() as int
    }
}

/// A random value from the progression `start, start+step, …` below (or
/// above, for a negative step) `stop`: a zero step or a progression with
/// nothing in it is a value error, a step without a stop a type error.
pub fn randrange(rng: &mut LCGRandom, start: i64, stop: Option<i64>, step: Option<i64>) -> (r:
    Result<i64, PyException>)
    ensures
        ({
            let lo = rr_lo(start, stop, step);
            let hi = rr_hi(start, stop, step);
            let st = rr_st(start, stop, step);
            match r {
                Ok(v) => !(stop is None && step is Some) && st != 0
                    && (st > 0 ==> lo < hi && lo <= v < hi)
                    && (st < 0 ==> lo > hi && hi < v <= lo)
                    && (exists|k: int| v == lo + #[trigger] (k * st) && 0 <= k),
                Err(e) => e.exception_type@ == "ValueError"@
                    || e.exception_type@ == "TypeError"@,
            }
        }),
{
    let (lo, hi, st): (i64, i64, i64) = match (stop, step) {
        (None, None) => (0, start, 1),
        (Some(e), None) => (start, e, 1),
        (Some(e), Some(s)) => {
            if s == 0 {
                return Err(value_error("step must not be zero"));
            }
            (start, e, s)
        }
        (None, Some(_)) => {
            return Err(type_error("Missing stop argument"));
        }
    };
    if st > 0 && lo >= hi {
        return Err(value_error("empty range"));
    }
    if st < 0 && lo <= hi {
        return Err(value_error("empty range"));
    }
    // the count of reachable values, computed over magnitudes
    let span: u128 = if st > 0 {
        (hi as i128 - lo as i128) as u128
    } else {
        (lo as i128 - hi as i128) as u128
    };
    let stepmag: u128 = if st > 0 {
        st as u128
    } else {
        (-(st as i128)) as u128
    };
    let width128: u128 = (span + stepmag - 1) / stepmag;
    let width: u64 = if width128 > u64::MAX as u128 {
        u64::MAX
    } else {
        width128 as u64
    };
    proof {
        let x = (span + stepmag - 1) as int;
        let d = stepmag as int;
        vstd::arithmetic::div_mod::lemma_fundamental_div_mod(x, d);
        assert(x == d * (x / d) + x % d);
        assert(width128 as int == x / d);
        assert(d * (x / d) == (x / d) * d) by (nonlinear_arith);
        assert(x % d >= 0);
        assert(width128 as int * (stepmag as int) <= span as int + stepmag as int - 1);
        assert(width128 >= 1) by (nonlinear_arith)
            requires
                span as int >= 1,
                stepmag as int >= 1,
                width128 as int == (span as int + stepmag as int - 1) / (stepmag as int),
                width128 as int * (stepmag as int) + ((span as int + stepmag as int - 1)
                    % (stepmag as int)) == span as int + stepmag as int - 1,
                0 <= (span as int + stepmag as int - 1) % (stepmag as int) < stepmag as int,
        ;
    }
    let k = draw_below(rng, width);
    proof {
        let ki = k as int;
        let q = width128 as int;
        let m = stepmag as int;
        let spani = span as int;
        assert(ki <= q - 1);
        assert(q * m <= spani + m - 1);
        assert(ki * m <= (q - 1) * m) by (nonlinear_arith)
            requires ki <= q - 1 && m >= 1;
        assert((q - 1) * m == q * m - m) by (nonlinear_arith);
        assert(ki * m <= spani - 1);
        assert(ki * m >= 0) by (nonlinear_arith)
            requires ki >= 0 && m >= 1;
        if st > 0 {
            assert(ki * (st as int) == ki * m);
        } else {
            assert(ki * (st as int) == -(ki * m)) by (nonlinear_arith)
                requires (st as int) == -m;
        }
    }
    // land on the k-th value of the progression
    let v128: i128 = (lo as i128) + (k as i128) * (st as i128);
    proof {
        assert(((lo as int) <= (v128 as int) && (v128 as int) < (hi as int))
            || ((hi as int) < (v128 as int) && (v128 as int) <= (lo as int)));
    }
    let v: i64 = v128 as i64;
    proof {
        let sst: int = rr_st(start, stop, step);
        let slo: int = rr_lo(start, stop, step);
        assert(slo == lo as int && sst == st as int);
        assert(exists|kk: int| v as int == slo + #[trigger] (kk * sst) && 0 <= kk) by {
            assert(v as int == slo + (k as int) * sst);
        }
    }
    Ok(v)
}

/// Shuffle the buffer in place: a random reachable permutation holding
/// exactly the same elements.
pub fn shuffle<T>(rng: &mut LCGRandom, seq: &mut Vec<T>)
    ensures
        final(seq)@.len() == old(seq)@.len(),
        final(seq)@.to_multiset() == old(seq)@.to_multiset(),
{
    broadcast use vstd::seq_lib::group_to_multiset_ensures;

    let n = seq.len();
    let mut i: usize = n;
    while i > 1
        invariant
            i <= seq@.len() || i == 0,
            seq@.len() == old(seq)@.len(),
            seq@.to_multiset() == old(seq)@.to_multiset(),
        decreases i,
    {
        let j = draw_below(rng, i as u64) as usize;
        let ghost before = seq@;
        let x = seq.remove(j);
        seq.push(x);
        proof {
            before.to_multiset_ensures();
            seq@.drop_last().to_multiset_ensures();
            assert(before.remove(j as int).to_multiset()
                == before.to_multiset().remove(before[j as int]));
            assert(seq@.drop_last() =~= before.remove(j as int));
            assert(seq@.drop_last().push(x).to_multiset()
                == seq@.drop_last().to_multiset().insert(x));
            assert(seq@ =~= seq@.drop_last().push(x));
            assert(seq@.to_multiset() =~= before.to_multiset());
        }
        i -= 1;
    }
}

/// `k` elements drawn without replacement; more than the population holds
/// is a value error.
pub fn sample<T: Copy>(rng: &mut LCGRandom, population: &[T], k: usize) -> (r: Result<
    Vec<T>,
    PyException,
>)
    ensures
        match r {
            Ok(picked) => k <= population@.len() && picked@.len() == k
                && forall|t: int| 0 <= t < picked@.len()
                    ==> population@.contains(#[trigger] picked@[t]),
            Err(e) => k > population@.len() && e.exception_type@ == "ValueError"@,
        },
{
    let n = population.len();
    if k > n {
        return Err(value_error("sample larger than population"));
    }
    let mut indices: Vec<usize> = Vec::new();
    let mut t: usize = 0;
    while t < n
        invariant
            t <= n,
            indices@.len() == t,
            forall|w: int| 0 <= w < t ==> (#[trigger] indices@[w]) < n,
        decreases n - t,
    {
        indices.push(t);
        t += 1;
    }
    let ghost pre = indices@;
    shuffle(rng, &mut indices);
    proof {
        broadcast use vstd::seq_lib::group_to_multiset_ensures;

        assert forall|w: int| 0 <= w < indices@.len()
            implies (#[trigger] indices@[w]) < n by {
            assert(indices@.to_multiset().contains(indices@[w]));
            assert(pre.to_multiset().contains(indices@[w]));
            assert(pre.contains(indices@[w]));
        }
    }
    let mut out: Vec<T> = Vec::new();
    let mut w: usize = 0;
    while w < k
        invariant
            w <= k,
            k <= indices@.len(),
            n == population@.len(),
            forall|q: int| 0 <= q < indices@.len() ==> (#[trigger] indices@[q]) < n,
            out@.len() == w,
            forall|q: int| 0 <= q < w ==> population@.contains(#[trigger] out@[q]),
        decreases k - w,
    {
        let idx = indices[w];
        out.push(population[idx]);
        proof {
            assert(population@.contains(population@[idx as int]));
        }
        w += 1;
    }
    Ok(out)
}

/// A generator backed by the same deterministic engine, offered under the
/// system-randomness interface.
#[derive(Debug, Clone, Copy)]
pub struct SystemRandom {
    pub rng: LCGRandom,
}

impl SystemRandom {
    /// A generator with a fixed starting state.
    pub fn new() -> (r: SystemRandom)
        ensures
            r.rng.seed == 1,
    {
        SystemRandom { rng: LCGRandom { seed: 1 } }
    }

    /// `n` random bytes.
    pub fn randbytes(&mut self, n: usize) -> (r: Vec<u8>)
        ensures
            r@.len() == n,
    {
        let mut out: Vec<u8> = Vec::new();
        let mut i: usize = 0;
        while i < n
            invariant
                i <= n,
                out@.len() == i,
            decreases n - i,
        {
            let b = draw_below(&mut self.rng, 256);
            out.push(b as u8);
            i += 1;
        }
        out
    }

    /// A random integer in `[0, k)`; zero is a value error.
    pub fn randbelow(&mut self, k: u64) -> (r: Result<u64, PyException>)
        ensures
            match r {
                Ok(v) => k > 0 && v < k
                    && v as int == draw_below_spec(lcg_next(old(self).rng.seed), k as int),
                Err(e) => k == 0 && e.exception_type@ == "ValueError"@,
            },
    {
        if k == 0 {
            return Err(value_error("k must be positive"));
        }
        Ok(draw_below(&mut self.rng, k))
    }
}

impl Default for SystemRandom {
    /// A generator with the fixed starting state.
    fn default() -> (r: SystemRandom)
        ensures
            r.rng.seed == 1,
    {
        SystemRandom::new()
    }
}

} // verus!
