//! Small array and number algorithms: maximum of an array, binary search,
//! and the n-th prime.

use vstd::prelude::*;

verus! {

/// Returns the largest element of the array.
pub fn max_element(arr: &[i32; 10]) -> (res: i32)
    ensures
        exists|k: int| 0 <= k < 10 && arr@[k] == res,
        forall|k: int| 0 <= k < 10 ==> #[trigger] arr@[k] <= res,
{
    let mut res = i32::MIN;
    let mut i: usize = 0;
    while i < 10
        invariant
            i <= 10,
            i == 0 ==> res == i32::MIN,
            i > 0 ==> exists|k: int| 0 <= k < i && arr@[k] == res,
            forall|k: int| 0 <= k < i ==> #[trigger] arr@[k] <= res,
        decreases 10 - i,
    {
        if arr[i] > res {
            res = arr[i];
        }
        i += 1;
    }
    res
}

/// The array is sorted in non-decreasing order.
pub open spec fn sorted(arr: Seq<i32>) -> bool {
    forall|p: int, q: int| 0 <= p < q < arr.len() ==> arr[p] <= arr[q]
}

/// Binary search: the position of `needle` in the sorted array, if present.
pub fn find_num(arr: &[i32; 10], needle: &i32) -> (res: Option<usize>)
    requires
        sorted(arr@),
    ensures
        match res {
            Some(pos) => pos < 10 && arr@[pos as int] == *needle,
            None => forall|k: int| 0 <= k < 10 ==> #[trigger] arr@[k] != *needle,
        },
{
    let mut lb: usize = 0;
    let mut rb: usize = 10;
    while lb < rb
        invariant
            sorted(arr@),
            lb <= rb <= 10,
            forall|k: int| 0 <= k < lb ==> #[trigger] arr@[k] < *needle,
            forall|k: int| rb <= k < 10 ==> #[trigger] arr@[k] > *needle,
        decreases rb - lb,
    {
        let mid = (lb + rb) / 2;
        if arr[mid] == *needle {
            return Some(mid);
        } else if arr[mid] < *needle {
            lb = mid + 1;
        } else {
            rb = mid;
        }
    }
    None
}

/// Primality over the integers.
pub open spec fn is_prime(p: int) -> bool {
    p >= 2 && forall|q: int| 2 <= q < p ==> #[trigger] (p % q) != 0
}

/// The number of primes strictly below `x`.
pub open spec fn prime_count(x: int) -> nat
    decreases x,
{
    if x <= 2 {
        0
    } else {
        prime_count(x - 1) + (if is_prime(x - 1) {
            1nat
        } else {
            0nat
        })
    }
}

/// A divisor above the square root pairs with one below it.
proof fn lemma_small_cofactor(x: int, q: int)
    requires
        2 <= q < x,
        x % q == 0,
        q * q > x,
    ensures
        2 <= x / q,
        (x / q) * (x / q) < x,
        x % (x / q) == 0,
{
    vstd::arithmetic::div_mod::lemma_fundamental_div_mod(x, q);
    let m = x / q;
    assert(x == q * m);
    assert(m >= 2) by (nonlinear_arith)
        requires
            x == q * m,
            2 <= q < x,
    ;
    assert(m * m < x) by (nonlinear_arith)
        requires
            x == q * m,
            q * q > x,
            m >= 2,
            q >= 2,
    ;
    vstd::arithmetic::div_mod::lemma_mod_multiples_vanish(q, 0, m);
    assert(m * q + 0 == x) by (nonlinear_arith)
        requires
            x == q * m,
    ;
    assert(x % m == (0int) % m);
    vstd::arithmetic::div_mod::lemma_small_mod(0, m as nat);
}

/// Trial division primality test: divisors are tried up to the square root;
/// a composite above that bound would have a cofactor below it.
fn check_prime(x: u32) -> (r: bool)
    ensures
        r == is_prime(x as int),
{
    if x < 2 {
        return false;
    }
    let mut d: u32 = 2;
    loop
        invariant
            x >= 2,
            2 <= d <= 0x10000,
            forall|q: int| 2 <= q < d ==> #[trigger] ((x as int) % q) != 0,
        decreases x - d,
    {
        proof {
            assert((d as u64) * (d as u64) <= 0x1_0000_0000u64) by (nonlinear_arith)
                requires
                    d <= 0x10000u32,
            ;
        }
        let dsq = (d as u64) * (d as u64);
        if dsq > (x as u64) {
            proof {
                assert forall|q: int| 2 <= q < x implies #[trigger] ((x as int) % q) != 0 by {
                    if (x as int) % q == 0 {
                        if q >= d {
                            assert(q * q > x) by (nonlinear_arith)
                                requires
                                    q >= d,
                                    (d as int) * (d as int) > x as int,
                            ;
                            lemma_small_cofactor(x as int, q);
                            let m = (x as int) / q;
                            assert(m < d) by (nonlinear_arith)
                                requires
                                    m * m < x as int,
                                    (d as int) * (d as int) > x as int,
                                    m >= 2,
                                    d >= 2,
                            ;
                        }
                    }
                }
            }
            return true;
        }
        if x % d == 0 {
            proof {
                assert(d < x) by (nonlinear_arith)
                    requires
                        (d as int) * (d as int) <= x as int,
                        d >= 2,
                        x >= 2,
                ;
            }
            return false;
        }
        proof {
            assert(d < x) by (nonlinear_arith)
                requires
                    (d as int) * (d as int) <= x as int,
                    d >= 2,
                    x >= 2,
            ;
            assert(d <= 0xFFFF) by (nonlinear_arith)
                requires
                    (d as int) * (d as int) <= x as int,
                    x <= 0xFFFF_FFFFu32,
            ;
        }
        d += 1;
    }
}

/// Returns the `n`-th prime (1-based; `n == 0` behaves like `n == 1`).
/// Primes are searched below `u32::MAX`; if fewer than `n` exist there, the
/// largest of them is returned.
pub fn nth_prime(n: u32) -> (res: u32)
    ensures
        is_prime(res as int),
        ({
            let m: int = if n == 0 {
                1
            } else {
                n as int
            };
            prime_count(res as int) == if prime_count(u32::MAX as int) >= m {
                (m - 1) as nat
            } else {
                (prime_count(u32::MAX as int) - 1) as nat
            }
        }),
{
    let mut primes: Vec<u32> = Vec::new();
    let mut x: u32 = 2;
    while x < u32::MAX
        invariant
            2 <= x,
            primes@.len() == prime_count(x as int),
            primes@.len() < n as int || (n == 0 && primes@.len() == 0),
            forall|k: int|
                0 <= k < primes@.len() ==> is_prime((#[trigger] primes@[k]) as int) && prime_count(
                    primes@[k] as int,
                ) == k,
        decreases u32::MAX - x,
    {
        if check_prime(x) {
            primes.push(x);
            proof {
                assert(prime_count(x as int + 1) == prime_count(x as int) + 1);
            }
            if primes.len() >= n as usize {
                proof {
                    lemma_prime_count_monotone(x as int + 1, u32::MAX as int);
                }
                return primes[primes.len() - 1];
            }
        } else {
            proof {
                assert(prime_count(x as int + 1) == prime_count(x as int));
            }
        }
        x += 1;
    }
    proof {
        lemma_two_is_prime();
        lemma_prime_count_above(u32::MAX as int);
    }
    primes[primes.len() - 1]
}

/// Two is prime.
proof fn lemma_two_is_prime()
    ensures
        is_prime(2),
{
}

/// Prime counting is monotone.
proof fn lemma_prime_count_monotone(a: int, b: int)
    requires
        a <= b,
    ensures
        prime_count(a) <= prime_count(b),
    decreases b - a,
{
    if a < b {
        lemma_prime_count_monotone(a, b - 1);
    }
}

/// Beyond 2 at least one prime has been counted.
proof fn lemma_prime_count_above(x: int)
    requires
        x >= 3,
    ensures
        prime_count(x) >= 1,
    decreases x,
{
    lemma_two_is_prime();
    if x == 3 {
        assert(prime_count(3) == prime_count(2) + 1);
    } else {
        lemma_prime_count_above(x - 1);
    }
}

} // verus!
