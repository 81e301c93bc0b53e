//! The two answers: the earliest bus after a timestamp, and the earliest
//! timestamp at which each bus departs as many minutes after it as its offset.
use crate::big::{Big, BigIntGenerator};
use crate::parse::{Bus, ScheduleError};
use vstd::arithmetic::div_mod::{
    lemma_fundamental_div_mod, lemma_mod_multiples_basic, lemma_mod_multiples_vanish,
    lemma_small_mod,
};
use vstd::prelude::*;

verus! {

/// Every bus departs at all.
pub open spec fn all_wf(bs: Seq<Bus>) -> bool {
    forall|i: int| 0 <= i < bs.len() ==> (#[trigger] bs[i]).wf()
}

/// Minutes from `ts` to the first departure of `b` at or after it.
pub open spec fn wait_time(ts: int, b: Bus) -> int {
    let rem = ts % (b.period as int);
    if rem == 0 {
        0
    } else {
        b.period - rem
    }
}

/// Bus `b` departs `b.offset` minutes after `t`.
pub open spec fn departs_at(b: Bus, t: int) -> bool {
    (t + b.offset) % (b.period as int) == 0
}

/// Each of the first `n` buses departs at its offset after `t`.
pub open spec fn fits_first(bs: Seq<Bus>, n: int, t: int) -> bool {
    forall|i: int| 0 <= i < n ==> departs_at(#[trigger] bs[i], t)
}

/// Each bus departs at its offset after `t`.
pub open spec fn fits_all(bs: Seq<Bus>, t: int) -> bool {
    fits_first(bs, bs.len() as int, t)
}

/// `t` is the least non-negative time at which each bus departs at its offset.
pub open spec fn is_earliest_fit(bs: Seq<Bus>, t: int) -> bool {
    &&& t >= 0
    &&& fits_all(bs, t)
    &&& forall|x: int| 0 <= x < t ==> !fits_all(bs, x)
}

/// The integer combination `u * a + v * b`.
pub open spec fn lin_comb(u: int, a: int, v: int, b: int) -> int {
    u * a + v * b
}

/// `a` and `b` are coprime: some integer combination of them is 1.
pub open spec fn coprime(a: int, b: int) -> bool {
    exists|u: int, v: int| #[trigger] lin_comb(u, a, v, b) == 1
}

/// The periods of the buses are coprime two by two.
pub open spec fn pairwise_coprime(bs: Seq<Bus>) -> bool {
    forall|i: int, j: int|
        0 <= i < j < bs.len() ==> coprime(#[trigger] bs[i].period as int, #[trigger] bs[j].period as int)
}

/// The product of the periods of the first `n` buses.
pub open spec fn period_product(bs: Seq<Bus>, n: int) -> int
    decreases n,
{
    if n <= 0 {
        1
    } else {
        period_product(bs, n - 1) * bs[n - 1].period
    }
}

/// The `j`-th value of the sequence that starts at `s` and steps by `m`.
pub open spec fn candidate(s: int, m: int, j: int) -> int {
    s + j * m
}

proof fn lemma_multiple(x: int, w: int, p: int)
    requires
        p > 0,
        x == w * p,
    ensures
        x % p == 0,
{
    lemma_mod_multiples_basic(w, p);
}

proof fn lemma_split_multiple(x: int, p: int) -> (w: int)
    requires
        p > 0,
        x % p == 0,
    ensures
        x == w * p,
{
    lemma_fundamental_div_mod(x, p);
    let w = x / p;
    assert(x == w * p) by (nonlinear_arith)
        requires x == p * w + x % p, x % p == 0;
    w
}

proof fn lemma_product_positive(bs: Seq<Bus>, n: int)
    requires
        all_wf(bs),
        n <= bs.len(),
    ensures
        period_product(bs, n) > 0,
    decreases n,
{
    if n > 0 {
        lemma_product_positive(bs, n - 1);
        let a = period_product(bs, n - 1);
        let b = bs[n - 1].period as int;
        assert(bs[n - 1].wf());
        assert(a * b > 0) by (nonlinear_arith)
            requires a > 0, b > 0;
    }
}

/// The period of each of the first `n` buses divides their product.
proof fn lemma_product_multiple(bs: Seq<Bus>, n: int, i: int)
    requires
        all_wf(bs),
        0 <= i < n <= bs.len(),
    ensures
        period_product(bs, n) % (bs[i].period as int) == 0,
    decreases n,
{
    let p = bs[i].period as int;
    assert(bs[i].wf());
    let a = period_product(bs, n - 1);
    let b = bs[n - 1].period as int;
    if i == n - 1 {
        lemma_multiple(a * b, a, p);
    } else {
        lemma_product_multiple(bs, n - 1, i);
        let w = lemma_split_multiple(a, p);
        assert(a * b == (w * b) * p) by (nonlinear_arith)
            requires a == w * p;
        lemma_multiple(a * b, w * b, p);
    }
}

/// A product of numbers coprime to `c` is coprime to `c`.
proof fn lemma_coprime_mul(a: int, b: int, c: int)
    requires
        coprime(a, c),
        coprime(b, c),
    ensures
        coprime(a * b, c),
{
    let (u1, v1) = choose|u: int, v: int| #[trigger] lin_comb(u, a, v, c) == 1;
    let (u2, v2) = choose|u: int, v: int| #[trigger] lin_comb(u, b, v, c) == 1;
    let x = u1 * a;
    let u = u1 * u2;
    let v = x * v2 + v1;
    assert(u * (a * b) == x * (u2 * b)) by (nonlinear_arith)
        requires u == u1 * u2, x == u1 * a;
    assert((x * v2) * c == x * (v2 * c)) by (nonlinear_arith);
    assert(x * (u2 * b) + x * (v2 * c) == x * (u2 * b + v2 * c)) by (nonlinear_arith);
    assert(u2 * b + v2 * c == 1);
    assert(v * c == (x * v2) * c + v1 * c) by (nonlinear_arith)
        requires v == x * v2 + v1;
    assert(lin_comb(u, a * b, v, c) == 1);
}

/// With pairwise coprime periods, the product of the first `n` periods is
/// coprime to the period of bus `k`, for `n <= k`.
proof fn lemma_product_coprime(bs: Seq<Bus>, n: int, k: int)
    requires
        pairwise_coprime(bs),
        0 <= n <= k < bs.len(),
    ensures
        coprime(period_product(bs, n), bs[k].period as int),
    decreases n,
{
    let c = bs[k].period as int;
    if n == 0 {
        assert(lin_comb(1, 1, 0, c) == 1);
    } else {
        lemma_product_coprime(bs, n - 1, k);
        assert(coprime(bs[n - 1].period as int, c));
        lemma_coprime_mul(period_product(bs, n - 1), bs[n - 1].period as int, c);
    }
}

/// Euclid: if `p` divides `a * m` and `m` is coprime to `p`, then `p` divides `a`.
proof fn lemma_coprime_cancel(a: int, m: int, p: int)
    requires
        p > 0,
        coprime(m, p),
        (a * m) % p == 0,
    ensures
        a % p == 0,
{
    let (u, v) = choose|u: int, v: int| #[trigger] lin_comb(u, m, v, p) == 1;
    let w = lemma_split_multiple(a * m, p);
    assert(a == (u * w + a * v) * p) by (nonlinear_arith)
        requires a * m == w * p, u * m + v * p == 1;
    lemma_multiple(a, u * w + a * v, p);
}

/// Moving by a multiple of the product of the first `n` periods keeps the
/// first `n` buses departing at their offsets.
proof fn lemma_shift_keeps_fit(bs: Seq<Bus>, n: int, s: int, j: int)
    requires
        all_wf(bs),
        0 <= n <= bs.len(),
        fits_first(bs, n, s),
    ensures
        fits_first(bs, n, candidate(s, period_product(bs, n), j)),
{
    let m = period_product(bs, n);
    assert forall|i: int| 0 <= i < n implies departs_at(#[trigger] bs[i], candidate(s, m, j)) by {
        let p = bs[i].period as int;
        assert(bs[i].wf());
        assert(departs_at(bs[i], s));
        lemma_product_multiple(bs, n, i);
        let w = lemma_split_multiple(m, p);
        let base = s + bs[i].offset;
        assert(candidate(s, m, j) + bs[i].offset == p * (j * w) + base) by (nonlinear_arith)
            requires m == w * p, base == s + bs[i].offset, candidate(s, m, j) == s + j * m;
        lemma_mod_multiples_vanish(j * w, base, p);
    }
}

/// Where `m` is coprime to `p`, some step `j < p` of the sequence `s, s + m, ...`
/// brings `t + offset` to a multiple of `p`.
proof fn lemma_step_exists(s: int, m: int, b: Bus) -> (j: int)
    requires
        b.wf(),
        coprime(m, b.period as int),
    ensures
        0 <= j < b.period,
        departs_at(b, candidate(s, m, j)),
{
    let p = b.period as int;
    let (u, v) = choose|u: int, v: int| #[trigger] lin_comb(u, m, v, p) == 1;
    let c = s + b.offset;
    let j = (-(c * u)) % p;
    lemma_fundamental_div_mod(-(c * u), p);
    let q = (-(c * u)) / p;
    assert(candidate(s, m, j) + b.offset == (c * v - q * m) * p) by (nonlinear_arith)
        requires
            -(c * u) == p * q + j,
            u * m + v * p == 1,
            c == s + b.offset,
            candidate(s, m, j) == s + j * m;
    lemma_multiple(candidate(s, m, j) + b.offset, c * v - q * m, p);
    j
}

/// One stage of the search. Suppose every non-negative fit of the first `k`
/// buses is `s` plus a multiple of the product `m` of their periods, and `j0`
/// is the first step below the period of bus `k` at which bus `k` fits too.
/// Then every non-negative fit of the first `k + 1` buses is `s + j0 * m` plus
/// a multiple of the product of their periods.
proof fn lemma_stage_keeps_all_fits(bs: Seq<Bus>, k: int, s: int, j0: int)
    requires
        all_wf(bs),
        pairwise_coprime(bs),
        0 <= k < bs.len(),
        forall|x: int|
            x >= 0 && #[trigger] fits_first(bs, k, x) ==> x >= s && (x - s) % period_product(bs, k) == 0,
        0 <= j0 < bs[k].period,
        fits_first(bs, k, s),
        fits_first(bs, k + 1, candidate(s, period_product(bs, k), j0)),
        forall|j: int|
            0 <= j < j0 ==> !fits_first(bs, k + 1, #[trigger] candidate(s, period_product(bs, k), j)),
    ensures
        forall|x: int|
            x >= 0 && #[trigger] fits_first(bs, k + 1, x) ==> x >= candidate(s, period_product(bs, k), j0)
                && (x - candidate(s, period_product(bs, k), j0)) % period_product(bs, k + 1) == 0,
{
    let m = period_product(bs, k);
    let b = bs[k];
    let p = b.period as int;
    let o = b.offset as int;
    let t = candidate(s, m, j0);
    assert(b.wf());
    lemma_product_positive(bs, k);
    lemma_product_coprime(bs, k, k);
    assert forall|x: int| x >= 0 && #[trigger] fits_first(bs, k + 1, x) implies x >= t && (x - t)
        % period_product(bs, k + 1) == 0 by {
        assert(fits_first(bs, k, x));
        assert(departs_at(bs[k], x));
        let j = lemma_split_multiple(x - s, m);
        assert(j >= 0) by (nonlinear_arith)
            requires x - s == j * m, x >= s, m > 0;
        lemma_fundamental_div_mod(j, p);
        let q = j / p;
        let r = j % p;
        let c = candidate(s, m, r);
        lemma_shift_keeps_fit(bs, k, s, r);
        assert(x + o == p * (q * m) + (c + o)) by (nonlinear_arith)
            requires x - s == j * m, j == p * q + r, c == s + r * m;
        lemma_mod_multiples_vanish(q * m, c + o, p);
        assert(departs_at(bs[k], c));
        assert(fits_first(bs, k + 1, c));
        assert(r >= j0);
        let w1 = lemma_split_multiple(c + o, p);
        let w2 = lemma_split_multiple(t + o, p);
        assert((r - j0) * m == (w1 - w2) * p) by (nonlinear_arith)
            requires c + o == w1 * p, t + o == w2 * p, c == s + r * m, t == s + j0 * m;
        lemma_multiple((r - j0) * m, w1 - w2, p);
        lemma_coprime_cancel(r - j0, m, p);
        lemma_small_mod((r - j0) as nat, p as nat);
        assert(r == j0);
        assert(x - t == q * (m * p)) by (nonlinear_arith)
            requires x - s == j * m, j == p * q + r, r == j0, t == s + j0 * m;
        assert(q >= 0) by (nonlinear_arith)
            requires j >= 0, j == p * q + r, 0 <= r < p;
        assert(m * p > 0) by (nonlinear_arith)
            requires m > 0, p > 0;
        lemma_multiple(x - t, q, m * p);
        assert(x - t >= 0) by (nonlinear_arith)
            requires x - t == q * (m * p), q >= 0, m * p > 0;
    }
}

/// The first value of `s, s + m, s + 2m, ...` at which the first `n` buses
/// all depart at their offsets; only the first `p` values are tried, `p` the
/// period of bus `n - 1`.
pub fn solve_for(busses: &[Bus], n: usize, generator: BigIntGenerator) -> (r: Result<
    Big,
    ScheduleError,
>)
    requires
        all_wf(busses@),
        0 < n <= busses@.len(),
    ensures
        ({
            let s = generator.upcoming();
            let m = generator.step();
            let p = busses@[n - 1].period as int;
            match r {
                Ok(t) => exists|j: int|
                    0 <= j < p && t@ == #[trigger] candidate(s, m, j) && fits_first(
                        busses@,
                        n as int,
                        t@,
                    ) && forall|k: int|
                        0 <= k < j ==> !fits_first(busses@, n as int, #[trigger] candidate(s, m, k)),
                Err(e) => e == ScheduleError::NoSolutionFound && forall|k: int|
                    0 <= k < p ==> !fits_first(busses@, n as int, #[trigger] candidate(s, m, k)),
            }
        }),
{
    let ghost s = generator.upcoming();
    let ghost m = generator.step();
    let mut g = generator;
    let limit = busses[n - 1].period;
    let mut tried: u64 = 0;
    while tried < limit
        invariant
            all_wf(busses@),
            0 < n <= busses@.len(),
            limit == busses@[n - 1].period,
            tried <= limit,
            g.upcoming() == candidate(s, m, tried as int),
            g.step() == m,
            s == generator.upcoming(),
            m == generator.step(),
            forall|k: int| 0 <= k < tried ==> !fits_first(busses@, n as int, #[trigger] candidate(s, m, k)),
        decreases limit - tried,
    {
        let test = g.next();
        assert(candidate(s, m, tried as int) + m == candidate(s, m, tried + 1)) by (nonlinear_arith);
        let mut ok = true;
        let mut i: usize = 0;
        while i < n
            invariant
                all_wf(busses@),
                0 < n <= busses@.len(),
                i <= n,
                ok == fits_first(busses@, i as int, test@),
                test@ == candidate(s, m, tried as int),
                tried < limit,
                limit == busses@[n - 1].period,
                forall|k: int| 0 <= k < tried ==> !fits_first(busses@, n as int, #[trigger] candidate(s, m, k)),
            decreases n - i,
        {
            let b = busses[i];
            assert(busses@[i as int].wf());
            let here = test.plus_is_multiple_of(b.offset, b.period);
            ok = ok && here;
            i = i + 1;
        }
        if ok {
            assert(test@ == candidate(s, m, tried as int));
            return Ok(test);
        }
        tried = tried + 1;
    }
    Err(ScheduleError::NoSolutionFound)
}

/// The earliest non-negative time at which each bus departs as many minutes
/// after it as its offset. The buses are taken one at a time: the search for
/// bus `k` steps by the product of the earlier periods, which keeps the
/// earlier buses in place. With periods that are coprime two by two such a
/// time exists and is found; otherwise the search may give up.
pub fn part_two(busses: &[Bus]) -> (r: Result<Big, ScheduleError>)
    requires
        all_wf(busses@),
    ensures
        r is Ok ==> fits_all(busses@, r->Ok_0@),
        pairwise_coprime(busses@) ==> r is Ok && is_earliest_fit(busses@, r->Ok_0@),
        r is Err ==> r->Err_0 == ScheduleError::NoSolutionFound,
{
    let mut solution = Big::from_u64(0);
    let mut step = Big::from_u64(1);
    let mut k: usize = 0;
    while k < busses.len()
        invariant
            all_wf(busses@),
            k <= busses@.len(),
            solution@ >= 0,
            step@ == period_product(busses@, k as int),
            fits_first(busses@, k as int, solution@),
            pairwise_coprime(busses@) ==> forall|x: int|
                x >= 0 && #[trigger] fits_first(busses@, k as int, x) ==> x >= solution@ && (x
                    - solution@) % step@ == 0,
        decreases busses@.len() - k,
    {
        let ghost s = solution@;
        let ghost m = step@;
        let ghost p = busses@[k as int].period as int;
        proof {
            lemma_product_positive(busses@, k as int);
            assert(busses@[k as int].wf());
        }
        let generator = BigIntGenerator::new(solution.duplicate(), step.duplicate());
        match solve_for(busses, k + 1, generator) {
            Ok(t) => {
                proof {
                    let j0 = choose|j: int|
                        0 <= j < p && t@ == #[trigger] candidate(s, m, j) && fits_first(
                            busses@,
                            k + 1,
                            t@,
                        ) && forall|i: int|
                            0 <= i < j ==> !fits_first(busses@, k + 1, #[trigger] candidate(s, m, i));
                    assert(t@ >= 0) by (nonlinear_arith)
                        requires t@ == s + j0 * m, s >= 0, j0 >= 0, m > 0;
                    if pairwise_coprime(busses@) {
                        lemma_stage_keeps_all_fits(busses@, k as int, s, j0);
                    }
                }
                step = step.mul_u64(busses[k].period);
                solution = t;
            },
            Err(e) => {
                proof {
                    if pairwise_coprime(busses@) {
                        lemma_product_coprime(busses@, k as int, k as int);
                        let j = lemma_step_exists(s, m, busses@[k as int]);
                        lemma_shift_keeps_fit(busses@, k as int, s, j);
                        assert(fits_first(busses@, k + 1, candidate(s, m, j)));
                    }
                }
                return Err(e);
            },
        }
        k = k + 1;
    }
    Ok(solution)
}

/// The wait for the earliest bus at or after `timestamp`, times that bus's
/// period; the first bus in the list wins among equal waits. A bus that
/// departs at `timestamp` itself makes the answer 0, and so does an empty
/// list.
pub fn part_one(timestamp: u64, busses: &[Bus]) -> (r: u128)
    requires
        all_wf(busses@),
    ensures
        (exists|i: int| 0 <= i < busses@.len() && timestamp % (#[trigger] busses@[i]).period == 0)
            ==> r == 0,
        busses@.len() == 0 ==> r == 0,
        busses@.len() > 0 ==> exists|k: int|
            0 <= k < busses@.len() && r == wait_time(timestamp as int, #[trigger] busses@[k])
                * busses@[k].period && (forall|i: int|
                0 <= i < busses@.len() ==> wait_time(timestamp as int, busses@[k]) <= wait_time(
                    timestamp as int,
                    #[trigger] busses@[i],
                )) && (forall|i: int|
                0 <= i < k ==> wait_time(timestamp as int, busses@[k]) < wait_time(
                    timestamp as int,
                    #[trigger] busses@[i],
                )),
{
    let ghost bs = busses@;
    let ghost ts = timestamp as int;
    let mut best_wait: u64 = 0;
    let mut best_period: u64 = 0;
    let ghost mut bk: int = 0;
    let mut i: usize = 0;
    while i < busses.len()
        invariant
            all_wf(bs),
            bs == busses@,
            ts == timestamp,
            i <= bs.len(),
            i == 0 ==> best_wait == 0,
            forall|j: int| 0 <= j < i ==> timestamp % (#[trigger] bs[j]).period != 0,
            i > 0 ==> {
                &&& 0 <= bk < i
                &&& best_wait == wait_time(ts, bs[bk])
                &&& best_period == bs[bk].period
                &&& forall|j: int| 0 <= j < i ==> wait_time(ts, bs[bk]) <= wait_time(ts, #[trigger] bs[j])
                &&& forall|j: int| 0 <= j < bk ==> wait_time(ts, bs[bk]) < wait_time(ts, #[trigger] bs[j])
            },
        decreases bs.len() - i,
    {
        let period = busses[i].period;
        assert(bs[i as int].wf());
        let rem = timestamp % period;
        if rem == 0 {
            proof {
                assert(wait_time(ts, bs[i as int]) == 0);
                assert forall|j: int| 0 <= j < bs.len() implies 0 <= wait_time(ts, #[trigger] bs[j]) by {
                    assert(bs[j].wf());
                }
                assert forall|j: int| 0 <= j < i implies 0 < wait_time(ts, #[trigger] bs[j]) by {
                    assert(bs[j].wf());
                }
                assert(0 == wait_time(ts, bs[i as int]) * bs[i as int].period);
            }
            return 0;
        }
        let wait = period - rem;
        if i == 0 || wait < best_wait {
            best_wait = wait;
            best_period = period;
            proof {
                bk = i as int;
            }
        }
        i = i + 1;
    }
    proof {
        if bs.len() > 0 {
            assert(best_wait as int * best_period as int == wait_time(ts, bs[bk]) * bs[bk].period);
        }
        let (a, b) = (best_wait as int, best_period as int);
        assert(a * b <= 0xffff_ffff_ffff_ffff * 0xffff_ffff_ffff_ffff) by (nonlinear_arith)
            requires 0 <= a <= 0xffff_ffff_ffff_ffff, 0 <= b <= 0xffff_ffff_ffff_ffff;
    }
    best_wait as u128 * best_period as u128
}

} // verus!
