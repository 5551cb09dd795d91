use vstd::prelude::*;

verus! {

/// The largest value of `array`.
pub fn max(array: &[i32; 10]) -> (r: i32)
    ensures
        exists|k: int| 0 <= k < 10 && r == array[k],
        forall|k: int| 0 <= k < 10 ==> array[k] <= r,
{
    let mut ans = array[0];
    let mut i: usize = 1;
    while i < 10
        invariant
            1 <= i <= 10,
            exists|k: int| 0 <= k < i && ans == array[k],
            forall|k: int| 0 <= k < i ==> array[k] <= ans,
        decreases 10 - i,
    {
        if array[i] > ans {
            ans = array[i];
        }
        i += 1;
    }
    ans
}

/// The smallest value of `array`.
pub fn min(array: &[i32; 10]) -> (r: i32)
    ensures
        exists|k: int| 0 <= k < 10 && r == array[k],
        forall|k: int| 0 <= k < 10 ==> r <= array[k],
{
    let mut ans = array[0];
    let mut i: usize = 1;
    while i < 10
        invariant
            1 <= i <= 10,
            exists|k: int| 0 <= k < i && ans == array[k],
            forall|k: int| 0 <= k < i ==> ans <= array[k],
        decreases 10 - i,
    {
        if array[i] < ans {
            ans = array[i];
        }
        i += 1;
    }
    ans
}

/// No number from two up to `n` exclusive divides `n`: for `n >= 2`, `n` is prime.
pub open spec fn no_proper_divisor(n: int) -> bool {
    forall|d: int| 2 <= d < n ==> #[trigger] (n % d) != 0
}

proof fn lemma_small_cofactor(n: int, d: int, i: int)
    requires
        2 <= i <= d < n,
        n < i * i,
        n % d == 0,
    ensures
        2 <= n / d < i,
        n % (n / d) == 0,
{
    let q = n / d;
    assert(n == d * q) by (nonlinear_arith)
        requires
            n % d == 0,
            d > 0,
            q == n / d,
    ;
    assert(q >= 2) by (nonlinear_arith)
        requires
            n == d * q,
            d < n,
            d > 0,
    ;
    assert(q < i) by (nonlinear_arith)
        requires
            n == d * q,
            n < i * i,
            i <= d,
            i >= 2,
    ;
    assert(n % q == 0) by (nonlinear_arith)
        requires
            n == d * q,
            q > 0,
    ;
}

/// Tells whether no number from two up to `n` exclusive divides `n`, testing the candidates
/// up to the square root of `n`.
pub fn is_prime(n: &i32) -> (r: bool)
    ensures
        r == no_proper_divisor(*n as int),
{
    let m = *n;
    if m < 4 {
        assert forall|d: int| 2 <= d < m implies #[trigger] (m as int % d) != 0 by {
            assert(m == 3 && d == 2);
        }
        return true;
    }
    let mut i: i32 = 2;
    while i <= m / i
        invariant
            2 <= i,
            4 <= m,
            m == *n,
            forall|d: int| 2 <= d < i ==> #[trigger] (m as int % d) != 0,
        decreases m - i,
    {
        assert(4 <= m && 2 <= i < m && i < 0x7fff_ffff) by (nonlinear_arith)
            requires
                i <= m / i,
                i >= 2,
        ;
        if m % i == 0 {
            assert((m as int) % (i as int) == 0);
            assert(!no_proper_divisor(m as int));
            return false;
        }
        i += 1;
    }
    proof {
        assert(m < i * i) by (nonlinear_arith)
            requires
                i > m / i,
                i >= 2,
        ;
        assert forall|d: int| 2 <= d < m implies #[trigger] (m as int % d) != 0 by {
            if d >= i && m as int % d == 0 {
                lemma_small_cofactor(m as int, d, i as int);
                let q = m as int / d;
                assert(m as int % q != 0);
            }
        }
    }
    true
}

/// How many numbers from two up to `m` exclusive have no proper divisor.
pub open spec fn prime_count(m: int) -> nat
    decreases m,
{
    if m <= 2 {
        0
    } else {
        prime_count(m - 1) + if no_proper_divisor(m - 1) {
            1nat
        } else {
            0nat
        }
    }
}

/// The `n`-th prime, counting from one, or `None` if fewer than `n` primes fit in an `i32`.
pub fn nth_prime(n: i32) -> (r: Option<i32>)
    requires
        n >= 1,
    ensures
        r matches Some(p) ==> 2 <= p && no_proper_divisor(p as int) && prime_count(p as int) == n - 1,
        r is None ==> prime_count(i32::MAX as int + 1) < n,
{
    let mut i: i32 = 0;
    let mut p: i32 = 2;
    loop
        invariant
            2 <= p,
            0 <= i < n,
            i == prime_count(p as int),
        decreases i32::MAX - p,
    {
        if is_prime(&p) {
            i += 1;
        }
        assert(i == prime_count(p as int + 1));
        if i == n {
            return Some(p);
        }
        if p == i32::MAX {
            return None;
        }
        p += 1;
    }
}

/// `array` does not decrease between positions `l` and `r`.
pub open spec fn sorted_between(array: [i32; 10], l: int, r: int) -> bool {
    forall|j: int, k: int| l <= j <= k < r ==> array[j] <= array[k]
}

/// The first position after `l` and up to `r` whose value exceeds `x`, or `r` if there is none,
/// found by halving the range.
pub fn bin_search(array: &[i32; 10], x: &i32, l: usize, r: usize) -> (res: usize)
    requires
        l < r <= 10,
        sorted_between(*array, l as int, r as int),
    ensures
        l < res <= r,
        forall|k: int| l < k < res ==> array[k] <= *x,
        forall|k: int| res <= k < r ==> array[k] > *x,
    decreases r - l,
{
    if l + 1 == r {
        return r;
    }
    let m = l + (r - l) / 2;
    if array[m] <= *x {
        bin_search(array, x, m, r)
    } else {
        bin_search(array, x, l, m)
    }
}

} // verus!
